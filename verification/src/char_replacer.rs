//! The replacer of a single character.
use vstd::prelude::*;
use vstd::string::*;
use crate::matching::{
    lemma_replace_char_absent, lemma_replace_char_concat, lemma_replace_char_one, replace_char,
};
use crate::replace::Session;
use crate::sink::{Sink, WriteError};
use crate::text::{find_char, first_index, lemma_first_index, split};

verus! {

/// Replaces one character by a text.
///
/// A character never lies across two chunks, so nothing is held back between
/// writes.
pub struct CharReplacer<'a, W> {
    dst: W,
    pattern: char,
    replacement: &'a str,
    seen: Ghost<Seq<char>>,
    start: Ghost<Seq<char>>,
}

impl<'a, W: Sink> CharReplacer<'a, W> {
    /// A replacer of `pattern` by `replacement` in front of `dst`.
    pub fn new(dst: W, pattern: char, replacement: &'a str) -> (r: Self)
        requires
            dst.inv(),
        ensures
            r.inv(),
            r.text() == Seq::<char>::empty(),
            r.setup() == (Session {
                inner: dst.setup(),
                start: dst.text(),
                pattern: seq![pattern],
                replacement: replacement@,
            }),
    {
        CharReplacer {
            dst,
            pattern,
            replacement,
            seen: Ghost(Seq::empty()),
            start: Ghost(dst.text()),
        }
    }

    /// The sink inside.
    pub closed spec fn inner(&self) -> W {
        self.dst
    }

    /// What a session in good order holds: the inner sink has the text it
    /// began with and then the text seen so far, replaced.
    pub proof fn lemma_session(&self)
        requires
            self.inv(),
        ensures
            self.inner().inv(),
            self.inner().setup() == self.setup().inner,
            self.inner().text() == self.setup().start + replace_char(
                self.text(),
                self.setup().pattern[0],
                self.setup().replacement,
            ),
    {
    }

    /// Gives the inner sink back as it is, in whatever state the session is.
    pub fn abandon(self) -> (r: W)
        ensures
            r == self.inner(),
    {
        self.dst
    }

    /// Ends the session and gives the inner sink back. It holds the text it
    /// held at the start and then the text written to the replacer, with
    /// every occurrence of the character replaced.
    pub fn finish(self) -> (r: W)
        requires
            self.inv(),
        ensures
            r.inv(),
            r.setup() == self.setup().inner,
            r.text() == self.setup().start + replace_char(
                self.text(),
                self.setup().pattern[0],
                self.setup().replacement,
            ),
    {
        self.dst
    }
}

impl<'a, W: Sink> Sink for CharReplacer<'a, W> {
    type Setup = Session<W::Setup>;

    closed spec fn inv(&self) -> bool {
        &&& self.dst.inv()
        &&& self.dst.text() == self.start@ + replace_char(
            self.seen@,
            self.pattern,
            self.replacement@,
        )
    }

    closed spec fn setup(&self) -> Session<W::Setup> {
        Session {
            inner: self.dst.setup(),
            start: self.start@,
            pattern: seq![self.pattern],
            replacement: self.replacement@,
        }
    }

    closed spec fn text(&self) -> Seq<char> {
        self.seen@
    }

    open spec fn infallible() -> bool {
        W::infallible()
    }

    fn write_str(&mut self, s: &str) -> (r: Result<(), WriteError>) {
        let ghost c = self.pattern;
        let ghost rep = self.replacement@;
        let ghost before = self.dst.text();
        let mut rest: &str = s;
        let ghost mut done: Seq<char> = Seq::empty();
        loop
            invariant
                self.dst.inv(),
                self.dst.setup() == old(self).dst.setup(),
                self.pattern == old(self).pattern,
                self.replacement == old(self).replacement,
                self.seen == old(self).seen,
                self.start == old(self).start,
                c == self.pattern,
                rep == self.replacement@,
                before == old(self).dst.text(),
                before == self.start@ + replace_char(self.seen@, c, rep),
                s@ == done + rest@,
                self.dst.text() == before + replace_char(done, c, rep),
            decreases rest@.len(),
        {
            proof {
                lemma_first_index(rest@, c);
            }
            match find_char(rest, self.pattern) {
                None => {
                    self.dst.write_str(rest)?;
                    proof {
                        lemma_replace_char_absent(rest@, c, rep);
                        lemma_replace_char_concat(done, rest@, c, rep);
                        lemma_replace_char_concat(self.seen@, s@, c, rep);
                        assert(self.dst.text() =~= self.start@ + replace_char(
                            self.seen@ + s@,
                            c,
                            rep,
                        ));
                    }
                    self.seen = Ghost(self.seen@ + s@);
                    return Ok(());
                },
                Some(i) => {
                    let ghost n = first_index(rest@, c)->0;
                    let (head, tail) = split(rest, i, Ghost(n));
                    self.dst.write_str(head)?;
                    self.dst.write_str(self.replacement)?;
                    proof {
                        assert(tail@.take(1) =~= seq![c]);
                    }
                    let (_, after) = split(tail, self.pattern.len_utf8(), Ghost(1));
                    proof {
                        let ghost grown = done + head@ + seq![c];
                        lemma_replace_char_absent(head@, c, rep);
                        lemma_replace_char_one(c, rep);
                        lemma_replace_char_concat(done, head@, c, rep);
                        lemma_replace_char_concat(done + head@, seq![c], c, rep);
                        done = grown;
                    }
                    rest = after;
                },
            }
        }
    }
}

} // verus!
