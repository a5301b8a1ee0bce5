//! The replacer of the empty pattern.
use vstd::prelude::*;
use vstd::string::*;
use crate::matching::{lemma_spread_concat, lemma_spread_one, replace_all, spread};
use crate::replace::Session;
use crate::sink::{Sink, WriteError};
use crate::text::split;

verus! {

/// Puts a text before every character, and once more at the end.
///
/// This is what replacing the empty pattern means.
pub struct EmptyReplacer<'a, W> {
    out: W,
    replacement: &'a str,
    seen: Ghost<Seq<char>>,
    start: Ghost<Seq<char>>,
}

impl<'a, W: Sink> EmptyReplacer<'a, W> {
    /// A replacer of the empty pattern by `replacement` in front of `out`.
    pub fn new(out: W, replacement: &'a str) -> (r: Self)
        requires
            out.inv(),
        ensures
            r.inv(),
            r.text() == Seq::<char>::empty(),
            r.setup() == (Session {
                inner: out.setup(),
                start: out.text(),
                pattern: Seq::<char>::empty(),
                replacement: replacement@,
            }),
    {
        EmptyReplacer { out, replacement, seen: Ghost(Seq::empty()), start: Ghost(out.text()) }
    }

    /// The sink inside.
    pub closed spec fn inner(&self) -> W {
        self.out
    }

    /// What a session in good order holds: the inner sink has the text it
    /// began with and then every character seen so far with the replacement
    /// before it.
    pub proof fn lemma_session(&self)
        requires
            self.inv(),
        ensures
            self.inner().inv(),
            self.inner().setup() == self.setup().inner,
            self.inner().text() == self.setup().start + spread(
                self.text(),
                self.setup().replacement,
            ),
    {
    }

    /// Gives the inner sink back as it is, without the last replacement.
    pub fn abandon(self) -> (r: W)
        ensures
            r == self.inner(),
    {
        self.out
    }

    /// Ends the session: writes the replacement that stands behind the last
    /// character and gives the inner sink back.
    pub fn finish(self) -> (r: (W, Result<(), WriteError>))
        requires
            self.inv(),
        ensures
            r.1 is Ok ==> r.0.inv(),
            r.1 is Ok ==> r.0.setup() == self.setup().inner,
            r.1 is Ok ==> r.0.text() == self.setup().start + replace_all(
                self.text(),
                Seq::empty(),
                self.setup().replacement,
            ),
            W::infallible() ==> r.1 is Ok,
    {
        let mut out = self.out;
        let r = out.write_str(self.replacement);
        proof {
            assert(self.start@ + spread(self.seen@, self.replacement@) + self.replacement@
                =~= self.start@ + (spread(self.seen@, self.replacement@) + self.replacement@));
        }
        (out, r)
    }
}

impl<'a, W: Sink> Sink for EmptyReplacer<'a, W> {
    type Setup = Session<W::Setup>;

    closed spec fn inv(&self) -> bool {
        &&& self.out.inv()
        &&& self.out.text() == self.start@ + spread(self.seen@, self.replacement@)
    }

    closed spec fn setup(&self) -> Session<W::Setup> {
        Session {
            inner: self.out.setup(),
            start: self.start@,
            pattern: Seq::empty(),
            replacement: self.replacement@,
        }
    }

    closed spec fn text(&self) -> Seq<char> {
        self.seen@
    }

    open spec fn infallible() -> bool {
        W::infallible()
    }

    fn write_str(&mut self, s: &str) -> (r: Result<(), WriteError>) {
        let ghost rep = self.replacement@;
        let ghost before = self.out.text();
        let mut rest: &str = s;
        let ghost mut done: Seq<char> = Seq::empty();
        while !rest.is_empty()
            invariant
                self.out.inv(),
                self.out.setup() == old(self).out.setup(),
                self.replacement == old(self).replacement,
                self.seen == old(self).seen,
                self.start == old(self).start,
                rep == self.replacement@,
                before == self.start@ + spread(self.seen@, rep),
                s@ == done + rest@,
                self.out.text() == before + spread(done, rep),
            decreases rest@.len(),
        {
            let c = rest.get_char(0);
            proof {
                assert(rest@.take(1) =~= seq![c]);
            }
            let (head, tail) = split(rest, c.len_utf8(), Ghost(1));
            self.out.write_str(self.replacement)?;
            self.out.write_str(head)?;
            proof {
                let ghost grown = done + seq![c];
                lemma_spread_one(c, rep);
                lemma_spread_concat(done, seq![c], rep);
                done = grown;
            }
            rest = tail;
        }
        proof {
            lemma_spread_concat(self.seen@, s@, rep);
            assert(self.out.text() =~= self.start@ + spread(self.seen@ + s@, rep));
        }
        self.seen = Ghost(self.seen@ + s@);
        Ok(())
    }
}

} // verus!
