use vstd::prelude::*;

verus! {

/// A character stream over a fixed source, extended with an unbounded
/// push-back buffer and a sticky end-of-stream flag.
///
/// The characters returned by `get` are exactly the pushed-back characters in
/// last-in-first-out order, followed by the unread part of the source; once
/// end-of-stream is pushed back, the unread source is abandoned and only the
/// push-back buffer is served before end-of-stream is reported again.
pub struct InputReader {
    /// Pushed-back characters; index 0 is served first.
    pub pushback: Vec<char>,
    /// Unread source characters; index 0 is served first.
    pub source: Vec<char>,
    /// Whether end-of-stream has been pushed back.
    pub eof: bool,
}

impl InputReader {
    /// The characters still to be served, in order.
    pub open spec fn stream(&self) -> Seq<char> {
        if self.eof {
            self.pushback@
        } else {
            self.pushback@ + self.source@
        }
    }

    /// How many characters the reader holds in total, served or abandoned.
    pub open spec fn load(&self) -> nat {
        self.pushback@.len() + self.source@.len()
    }

    pub fn new(input: &str) -> (r: InputReader)
        ensures
            r.stream() == input@,
            r.load() == input@.len(),
            r.load() <= usize::MAX,
    {
        let source = chars_of(input);
        let held = source.len();
        proof {
            assert(source@.len() == held);
        }
        let r = InputReader { pushback: Vec::new(), source, eof: false };
        proof {
            assert(r.stream() =~= input@);
        }
        r
    }

    /// Next character, or `None` at end-of-stream.
    pub fn get(&mut self) -> (r: Option<char>)
        ensures
            final(self).load() <= old(self).load(),
            final(self).eof == old(self).eof,
            old(self).stream().len() == 0 ==> r is None && *final(self) == *old(self),
            old(self).stream().len() > 0 ==> {
                &&& r == Some(old(self).stream()[0])
                &&& final(self).stream() == old(self).stream().skip(1)
                &&& final(self).load() < old(self).load()
            },
    {
        if self.pushback.len() > 0 {
            let c = self.pushback.remove(0);
            proof {
                assert(final(self).stream() =~= old(self).stream().skip(1));
            }
            Some(c)
        } else if self.eof {
            None
        } else if self.source.len() > 0 {
            let c = self.source.remove(0);
            proof {
                assert(final(self).stream() =~= old(self).stream().skip(1));
            }
            Some(c)
        } else {
            None
        }
    }

    /// Push a character to the front of the stream.
    pub fn unget(&mut self, c: char)
        requires
            old(self).load() < usize::MAX,
        ensures
            final(self).stream() == seq![c] + old(self).stream(),
            final(self).load() == old(self).load() + 1,
            final(self).eof == old(self).eof,
    {
        self.pushback.insert(0, c);
        proof {
            assert(final(self).stream() =~= seq![c] + old(self).stream());
        }
    }

    /// Mark the stream terminated: after the push-back buffer drains, `get`
    /// keeps reporting end-of-stream even if source characters remain.
    pub fn unget_eof(&mut self)
        ensures
            final(self).stream() == old(self).pushback@,
            final(self).load() == old(self).load(),
            final(self).eof,
    {
        self.eof = true;
    }
}

/// The stream is never longer than what the reader holds.
pub proof fn lemma_stream_len_le_load(r: InputReader)
    ensures
        r.stream().len() <= r.load(),
{
    if !r.eof {
        assert(r.stream().len() == r.pushback@.len() + r.source@.len());
    }
}

/// An empty stream means an empty push-back buffer.
pub proof fn lemma_empty_stream_pushback(r: InputReader)
    requires
        r.stream().len() == 0,
    ensures
        r.pushback@.len() == 0,
{
    if !r.eof {
        assert(r.stream().len() == r.pushback@.len() + r.source@.len());
    }
}

/// Relies on `str::chars`: yields the characters of the string in order.
#[verifier::external_body]
fn chars_of(input: &str) -> (r: Vec<char>)
    ensures
        r@ == input@,
{
    input.chars().collect()
}

} // verus!
