//! Rendering a value that needs something more to render: a registry to
//! look names up in, a table of units, a locale.
//!
//! A type says how it renders with such a context by `DisplayWith` or
//! `DebugWith`. `fmt_with` then pairs a value with a context, and the pair
//! renders like any other value.
use vstd::prelude::*;
use crate::render::{Render, RenderDebug};
use crate::sink::{Sink, WriteError};

verus! {

/// A value together with the context it renders with.
pub struct FormatWith<'a, T: ?Sized, E: ?Sized> {
    this: &'a T,
    extra: &'a E,
}

impl<'a, T, E> FormatWith<'a, T, E> {
    /// The value.
    pub closed spec fn this(&self) -> &'a T {
        self.this
    }

    /// The context.
    pub closed spec fn extra(&self) -> &'a E {
        self.extra
    }
}

/// Pairs any value with any context.
pub trait ToFormatWith<T>: Sized {
    /// `self`, to be rendered with `extra`.
    fn fmt_with<'a>(&'a self, extra: &'a T) -> (r: FormatWith<'a, Self, T>)
        ensures
            r.this() == self,
            r.extra() == extra,
    ;
}

impl<T, E> ToFormatWith<E> for T {
    fn fmt_with<'a>(&'a self, extra: &'a E) -> (r: FormatWith<'a, Self, E>) {
        FormatWith { this: self, extra }
    }
}

/// A value that has a text for reading once it is given a `T`.
pub trait DisplayWith<T> {
    /// The text of the value with `extra`.
    open spec fn text_with(&self, extra: &T) -> Seq<char> {
        arbitrary()
    }

    /// Writes the text of the value with `extra` to `out`.
    fn fmt<W: Sink>(&self, out: W, extra: &T) -> (r: (W, Result<(), WriteError>))
        requires
            out.inv(),
        ensures
            r.1 is Ok ==> r.0.inv(),
            r.1 is Ok ==> r.0.setup() == out.setup(),
            r.1 is Ok ==> r.0.text() == out.text() + self.text_with(extra),
            W::infallible() ==> r.1 is Ok,
    ;
}

/// A value that has a text for inspection once it is given a `T`.
pub trait DebugWith<T> {
    /// The inspection text of the value with `extra`.
    open spec fn debug_text_with(&self, extra: &T) -> Seq<char> {
        arbitrary()
    }

    /// Writes the inspection text of the value with `extra` to `out`.
    fn fmt<W: Sink>(&self, out: W, extra: &T) -> (r: (W, Result<(), WriteError>))
        requires
            out.inv(),
        ensures
            r.1 is Ok ==> r.0.inv(),
            r.1 is Ok ==> r.0.setup() == out.setup(),
            r.1 is Ok ==> r.0.text() == out.text() + self.debug_text_with(extra),
            W::infallible() ==> r.1 is Ok,
    ;
}

impl<'a, T: DisplayWith<E>, E> Render for FormatWith<'a, T, E> {
    open spec fn text(&self) -> Seq<char> {
        self.this().text_with(self.extra())
    }

    fn render<W: Sink>(&self, out: W) -> (r: (W, Result<(), WriteError>)) {
        self.this.fmt(out, self.extra)
    }
}

impl<'a, T: DebugWith<E>, E> RenderDebug for FormatWith<'a, T, E> {
    open spec fn debug_text(&self) -> Seq<char> {
        self.this().debug_text_with(self.extra())
    }

    fn render_debug<W: Sink>(&self, out: W) -> (r: (W, Result<(), WriteError>)) {
        self.this.fmt(out, self.extra)
    }
}

} // verus!
