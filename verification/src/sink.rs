//! The buffer that an encoder writes into.

use crate::error::EncodeError;
use vstd::prelude::*;
use vstd::string::{StrSliceExecFns, StringExecFns};

verus! {

/// What a [`Sink`] holds: the text written so far and the number of
/// characters it still takes, `None` where it takes any number.
pub struct SinkView {
    pub text: Seq<char>,
    pub room: Option<nat>,
}

impl SinkView {
    /// Whether the sink takes all of `s`.
    pub open spec fn fits(self, s: Seq<char>) -> bool {
        match self.room {
            None => true,
            Some(room) => s.len() <= room,
        }
    }

    /// The part of `s` that the sink takes: all of it where it fits, else as
    /// many of its first characters as there is room for.
    pub open spec fn taken(self, s: Seq<char>) -> Seq<char> {
        match self.room {
            None => s,
            Some(room) => if s.len() <= room {
                s
            } else {
                s.take(room as int)
            },
        }
    }

    /// The sink after `s` was written to it.
    pub open spec fn write(self, s: Seq<char>) -> SinkView {
        SinkView {
            text: self.text + self.taken(s),
            room: match self.room {
                None => None,
                Some(room) => Some((room - self.taken(s).len()) as nat),
            },
        }
    }

    /// What a write of `s` returns.
    pub open spec fn verdict(self, s: Seq<char>) -> Result<(), EncodeError> {
        if self.fits(s) {
            Ok(())
        } else {
            Err(EncodeError::EncodingFailure)
        }
    }
}

impl SinkView {
    /// Writing nothing changes nothing.
    pub proof fn lemma_write_nothing(self)
        ensures
            self.write(Seq::empty()) == self,
            self.fits(Seq::empty()),
    {
        assert(self.write(Seq::empty()).text =~= self.text);
    }

    /// Two writes in a row are one write of the two texts joined, and both
    /// fit exactly when the joined text fits.
    pub proof fn lemma_write_twice(self, a: Seq<char>, b: Seq<char>)
        ensures
            self.write(a).write(b) == self.write(a + b),
            self.fits(a + b) == (self.fits(a) && self.write(a).fits(b)),
    {
        let joined = a + b;
        match self.room {
            None => {
                assert(self.write(a).write(b).text =~= self.write(joined).text);
            },
            Some(room) => {
                if a.len() <= room {
                    if joined.len() <= room {
                        assert(self.write(a).write(b).text =~= self.write(joined).text);
                    } else {
                        assert(joined.take(room as int) =~= a + b.take(room - a.len()));
                        assert(self.write(a).write(b).text =~= self.write(joined).text);
                    }
                } else {
                    assert(joined.take(room as int) =~= a.take(room as int));
                    assert(b.take(0) =~= Seq::<char>::empty());
                    assert(self.write(a).write(b).text =~= self.write(joined).text);
                }
            },
        }
    }

    /// Once a text does not fit, nothing that begins with it fits, and the
    /// sink ends up the same whatever follows.
    pub proof fn lemma_write_beyond(self, a: Seq<char>, b: Seq<char>)
        requires
            !self.fits(a),
            a.is_prefix_of(b),
        ensures
            !self.fits(b),
            self.write(b) == self.write(a),
    {
        let room = self.room->0;
        assert(b.take(room as int) =~= a.take(room as int));
    }
}

/// A growing text, with or without a limit on the characters it takes. A
/// write that does not fit fills the sink to its limit and fails.
pub struct Sink {
    text: String,
    room: Option<usize>,
}

impl View for Sink {
    type V = SinkView;

    closed spec fn view(&self) -> SinkView {
        SinkView {
            text: self.text@,
            room: match self.room {
                None => None,
                Some(room) => Some(room as nat),
            },
        }
    }
}

impl Sink {
    /// An empty sink without a limit.
    pub fn new() -> (sink: Sink)
        ensures
            sink@ == (SinkView { text: Seq::empty(), room: None }),
    {
        Sink { text: String::new(), room: None }
    }

    /// An empty sink that takes `limit` characters and no more.
    pub fn with_limit(limit: usize) -> (sink: Sink)
        ensures
            sink@ == (SinkView { text: Seq::empty(), room: Some(limit as nat) }),
    {
        Sink { text: String::new(), room: Some(limit) }
    }

    /// The text written so far.
    pub fn as_str(&self) -> (text: &str)
        ensures
            text@ == self@.text,
    {
        self.text.as_str()
    }

    /// The number of characters that the sink still takes.
    pub fn room(&self) -> (room: Option<usize>)
        ensures
            room.is_some() == self@.room.is_some(),
            room matches Some(n) ==> self@.room == Some(n as nat),
    {
        self.room
    }

    /// Gives up the sink for the text written to it.
    pub fn into_string(self) -> (text: String)
        ensures
            text@ == self@.text,
    {
        self.text
    }

    /// Appends `s`, or as much of it as there is room for.
    pub fn write_str(&mut self, s: &str) -> (done: Result<(), EncodeError>)
        ensures
            final(self)@ == old(self)@.write(s@),
            done == old(self)@.verdict(s@),
    {
        match self.room {
            None => {
                self.text.append(s);
                Ok(())
            },
            Some(room) => {
                let wanted: usize = s.unicode_len();
                if wanted <= room {
                    self.text.append(s);
                    self.room = Some(room - wanted);
                    Ok(())
                } else {
                    self.text.append(s.substring_char(0, room));
                    self.room = Some(0);
                    Err(EncodeError::EncodingFailure)
                }
            },
        }
    }
}

} // verus!
