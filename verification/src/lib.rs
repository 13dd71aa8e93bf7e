//! Shell literals for structured values.
//!
//! A [`Value`] is a scalar, a list of scalars or a mapping from text keys to
//! scalars. [`escape_shell`] writes a value as source text of a POSIX-family
//! shell: a bare or single-quoted word for a scalar, a parenthesised list of
//! words for a composite. Whatever characters a text holds, the quoting
//! rules of the shell give that text back: [`reading`] states the rules and
//! proves it.

pub mod decimal;
pub mod encode;
pub mod error;
pub mod expect;
pub mod numeral;
pub mod quote;
pub mod reading;
pub mod sink;
pub mod text;
pub mod value;

pub use encode::{encode, escape_shell};
pub use error::{EncodeError, Rejected};
pub use expect::{
    expected_array_output, expected_associative_array_output, expected_scalar_output,
};
pub use numeral::Numeral;
pub use sink::{Sink, SinkView};
pub use value::{Mapping, Value, ValueView};
