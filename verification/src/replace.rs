//! Replacing a pattern in text on its way to a sink.
//!
//! A replacer is a sink around another sink. It takes the text of one
//! rendering, chunk by chunk, and passes it on with every occurrence of its
//! pattern replaced, as if the chunks had come as one piece. A replacer lives
//! for one rendering: `new` takes the inner sink, `finish` gives it back.
//!
//! There are three replacers, one for each kind of pattern. `replace` picks
//! the one that fits and runs a value's rendering through it.
use vstd::prelude::*;
use vstd::string::*;
use crate::join::{joined, lemma_joined_with_nothing};
use crate::matching::{lemma_single_char_pattern, replace_all};
use crate::render::{DebugOf, Render, RenderDebug};
use crate::sink::{Sink, WriteError};
use crate::text::{byte_len, lemma_prefix_bytes_grow};

pub use crate::char_replacer::CharReplacer;
pub use crate::empty_replacer::EmptyReplacer;
pub use crate::str_replacer::StrReplacer;

verus! {

/// How a replacer was set up: the setup of the sink inside it, the text that
/// sink held when the replacer took it, and what is replaced by what.
pub ghost struct Session<S> {
    pub inner: S,
    pub start: Seq<char>,
    pub pattern: Seq<char>,
    pub replacement: Seq<char>,
}

/// The three kinds of pattern. Each has a matcher of its own.
#[derive(Debug, Clone, Copy, PartialEq, Eq)]
pub enum PatternKind {
    /// No character at all.
    Empty,
    /// Exactly this one character.
    SingleChar(char),
    /// Two characters or more.
    MultiChar,
}

/// The kind of a pattern with the given characters.
pub open spec fn kind_of(p: Seq<char>) -> PatternKind {
    if p.len() == 0 {
        PatternKind::Empty
    } else if p.len() == 1 {
        PatternKind::SingleChar(p[0])
    } else {
        PatternKind::MultiChar
    }
}

/// Tells the kind of a pattern from its first character and whether
/// anything follows it.
pub fn classify(pattern: &str) -> (k: PatternKind)
    ensures
        k == kind_of(pattern@),
{
    if pattern.is_empty() {
        return PatternKind::Empty;
    }
    let first = pattern.get_char(0);
    proof {
        let p = pattern@;
        assert(p.take(1) =~= seq![first]);
        assert(p.take(p.len() as int) =~= p);
        lemma_prefix_bytes_grow(p, 1, p.len() as int);
    }
    if byte_len(pattern) == first.len_utf8() {
        PatternKind::SingleChar(first)
    } else {
        PatternKind::MultiChar
    }
}

/// What can be replaced: a pattern that knows how to run a rendering through
/// its matcher.
pub trait ReplacePattern {
    /// The characters looked for.
    spec fn pattern(&self) -> Seq<char>;

    /// Renders `value` into `out` with every occurrence of the pattern
    /// replaced by `replacement`. Where the rendering fails, the failure is
    /// handed on and nothing more is written.
    fn fmt_impl<W: Sink, V: Render>(&self, replacement: &str, out: W, value: &V) -> (r: (
        W,
        Result<(), WriteError>,
    ))
        requires
            out.inv(),
        ensures
            r.1 is Ok ==> r.0.inv(),
            r.1 is Ok ==> r.0.setup() == out.setup(),
            r.1 is Ok ==> r.0.text() == out.text() + replace_all(
                value.text(),
                self.pattern(),
                replacement@,
            ),
            W::infallible() ==> r.1 is Ok,
    ;
}

impl ReplacePattern for char {
    open spec fn pattern(&self) -> Seq<char> {
        seq![*self]
    }

    fn fmt_impl<W: Sink, V: Render>(&self, replacement: &str, out: W, value: &V) -> (r: (
        W,
        Result<(), WriteError>,
    )) {
        let writer = CharReplacer::new(out, *self, replacement);
        let (writer, done) = value.render(writer);
        match done {
            Ok(()) => {
                proof {
                    lemma_single_char_pattern(value.text(), *self, replacement@);
                }
                (writer.finish(), Ok(()))
            },
            Err(e) => (writer.abandon(), Err(e)),
        }
    }
}

impl<'a> ReplacePattern for &'a str {
    open spec fn pattern(&self) -> Seq<char> {
        self@
    }

    fn fmt_impl<W: Sink, V: Render>(&self, replacement: &str, out: W, value: &V) -> (r: (
        W,
        Result<(), WriteError>,
    )) {
        match classify(self) {
            PatternKind::Empty => {
                let writer = EmptyReplacer::new(out, replacement);
                let (writer, done) = value.render(writer);
                match done {
                    Ok(()) => {
                        writer.finish()
                    },
                    Err(e) => (writer.abandon(), Err(e)),
                }
            },
            PatternKind::SingleChar(c) => {
                proof {
                    assert(self@ =~= seq![c]);
                }
                c.fmt_impl(replacement, out, value)
            },
            PatternKind::MultiChar => {
                let writer = StrReplacer::new(out, self, replacement);
                let (writer, done) = value.render(writer);
                match done {
                    Ok(()) => writer.finish(),
                    Err(e) => (writer.abandon(), Err(e)),
                }
            },
        }
    }
}

/// However a text comes cut into chunks, its replaced rendering is the same:
/// two lists of chunks that make up the same text, each joined with nothing
/// between its chunks, have the same replaced text, that of the whole.
pub proof fn lemma_chunks_do_not_matter(
    a: Seq<Seq<char>>,
    b: Seq<Seq<char>>,
    p: Seq<char>,
    r: Seq<char>,
)
    requires
        a.flatten() == b.flatten(),
    ensures
        replace_all(joined(a, Seq::empty()), p, r) == replace_all(joined(b, Seq::empty()), p, r),
        replace_all(joined(a, Seq::empty()), p, r) == replace_all(a.flatten(), p, r),
{
    lemma_joined_with_nothing(a);
    lemma_joined_with_nothing(b);
}

/// A value whose text is rendered with a pattern replaced.
pub struct Replace<'a, T, P> {
    value: T,
    pattern: P,
    replacement: &'a str,
}

impl<'a, T, P> Replace<'a, T, P> {
    /// The value that is rendered.
    pub closed spec fn value(&self) -> T {
        self.value
    }

    /// The pattern that is replaced.
    pub closed spec fn pattern(&self) -> P {
        self.pattern
    }

    /// The text that is written in its place.
    pub closed spec fn replacement(&self) -> Seq<char> {
        self.replacement@
    }
}

/// `value`, to be rendered with every occurrence of `pattern` replaced by
/// `replacement`. Nothing is rendered before the result is.
pub fn replace<'a, T, P>(value: T, pattern: P, replacement: &'a str) -> (r: Replace<'a, T, P>)
    ensures
        r.value() == value,
        r.pattern() == pattern,
        r.replacement() == replacement@,
{
    Replace { value, pattern, replacement }
}

impl<'a, T: Render, P: ReplacePattern> Render for Replace<'a, T, P> {
    open spec fn text(&self) -> Seq<char> {
        replace_all(self.value().text(), self.pattern().pattern(), self.replacement())
    }

    fn render<W: Sink>(&self, out: W) -> (r: (W, Result<(), WriteError>)) {
        self.pattern.fmt_impl(self.replacement, out, &self.value)
    }
}

impl<'a, T: RenderDebug, P: ReplacePattern> RenderDebug for Replace<'a, T, P> {
    open spec fn debug_text(&self) -> Seq<char> {
        replace_all(self.value().debug_text(), self.pattern().pattern(), self.replacement())
    }

    fn render_debug<W: Sink>(&self, out: W) -> (r: (W, Result<(), WriteError>)) {
        self.pattern.fmt_impl(self.replacement, out, &DebugOf(&self.value))
    }
}

} // verus!
