//! Values that render themselves into a sink.
use vstd::prelude::*;
use crate::sink::{Sink, WriteError};

verus! {

/// A value with a human-facing text.
///
/// The sink is handed over for the rendering and handed back with the
/// result. How the value cuts its text into chunks is its own affair: the
/// contract fixes the text, not the chunks.
///
/// A type written outside verification gives `render` alone; its text is
/// then not known.
pub trait Render {
    /// The text of the value.
    open spec fn text(&self) -> Seq<char> {
        arbitrary()
    }

    /// Writes the text of the value to `out`.
    fn render<W: Sink>(&self, out: W) -> (r: (W, Result<(), WriteError>))
        requires
            out.inv(),
        ensures
            r.1 is Ok ==> r.0.inv(),
            r.1 is Ok ==> r.0.setup() == out.setup(),
            r.1 is Ok ==> r.0.text() == out.text() + self.text(),
            W::infallible() ==> r.1 is Ok,
    ;
}

/// A string slice renders as itself, in one chunk.
impl<'a> Render for &'a str {
    open spec fn text(&self) -> Seq<char> {
        self@
    }

    fn render<W: Sink>(&self, out: W) -> (r: (W, Result<(), WriteError>)) {
        let mut out = out;
        let r = out.write_str(self);
        (out, r)
    }
}

/// A value with a text for inspection, such as a programmer wants to see.
pub trait RenderDebug {
    /// The inspection text of the value.
    open spec fn debug_text(&self) -> Seq<char> {
        arbitrary()
    }

    /// Writes the inspection text of the value to `out`.
    fn render_debug<W: Sink>(&self, out: W) -> (r: (W, Result<(), WriteError>))
        requires
            out.inv(),
        ensures
            r.1 is Ok ==> r.0.inv(),
            r.1 is Ok ==> r.0.setup() == out.setup(),
            r.1 is Ok ==> r.0.text() == out.text() + self.debug_text(),
            W::infallible() ==> r.1 is Ok,
    ;
}

/// What std's `Debug` writes for a string with the given characters: the
/// string in double quotes, with escapes for what would not print.
pub uninterp spec fn debug_form(s: Seq<char>) -> Seq<char>;

/// std's `Debug` for `str`, through `format!`: the result is a function of
/// the string's characters alone, named `debug_form`.
#[verifier::external_body]
fn debug_string(s: &str) -> (r: String)
    ensures
        r@ == debug_form(s@),
{
    format!("{:?}", s)
}

/// A string slice inspects as std shows it, in one chunk.
impl<'a> RenderDebug for &'a str {
    open spec fn debug_text(&self) -> Seq<char> {
        debug_form(self@)
    }

    fn render_debug<W: Sink>(&self, out: W) -> (r: (W, Result<(), WriteError>)) {
        let mut out = out;
        let shown = debug_string(self);
        let r = out.write_str(shown.as_str());
        (out, r)
    }
}

/// The inspection text of a value as its text: lets what takes a `Render`
/// work on the other rendering of a value.
pub struct DebugOf<'a, T>(pub &'a T);

impl<'a, T: RenderDebug> Render for DebugOf<'a, T> {
    open spec fn text(&self) -> Seq<char> {
        self.0.debug_text()
    }

    fn render<W: Sink>(&self, out: W) -> (r: (W, Result<(), WriteError>)) {
        self.0.render_debug(out)
    }
}

/// A string renders as itself, in one chunk.
impl Render for String {
    open spec fn text(&self) -> Seq<char> {
        self@
    }

    fn render<W: Sink>(&self, out: W) -> (r: (W, Result<(), WriteError>)) {
        let mut out = out;
        let r = out.write_str(self.as_str());
        (out, r)
    }
}

/// A string inspects as std shows it, in one chunk.
impl RenderDebug for String {
    open spec fn debug_text(&self) -> Seq<char> {
        debug_form(self@)
    }

    fn render_debug<W: Sink>(&self, out: W) -> (r: (W, Result<(), WriteError>)) {
        let mut out = out;
        let shown = debug_string(self.as_str());
        let r = out.write_str(shown.as_str());
        (out, r)
    }
}

/// A reference renders as what it refers to.
impl<'a, T: Render> Render for &'a T {
    open spec fn text(&self) -> Seq<char> {
        (**self).text()
    }

    fn render<W: Sink>(&self, out: W) -> (r: (W, Result<(), WriteError>)) {
        (**self).render(out)
    }
}

/// A reference inspects as what it refers to.
impl<'a, T: RenderDebug> RenderDebug for &'a T {
    open spec fn debug_text(&self) -> Seq<char> {
        (**self).debug_text()
    }

    fn render_debug<W: Sink>(&self, out: W) -> (r: (W, Result<(), WriteError>)) {
        (**self).render_debug(out)
    }
}

/// Renders `value` into a fresh `String`.
pub fn render_to_string<T: Render>(value: &T) -> (r: String)
    ensures
        r@ == value.text(),
{
    let (out, _) = value.render(String::new());
    out
}

/// Renders `value` for inspection into a fresh `String`.
pub fn debug_to_string<T: RenderDebug>(value: &T) -> (r: String)
    ensures
        r@ == value.debug_text(),
{
    let (out, _) = value.render_debug(String::new());
    out
}

} // verus!
