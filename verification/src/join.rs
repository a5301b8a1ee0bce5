//! Joining the items of a list with a separator between them.
//!
//! Nothing is written before the first item or behind the last, and an empty
//! list writes nothing. The joined value holds its items by reference, so it
//! can be rendered as often as wanted.
use vstd::prelude::*;
use crate::render::{Render, RenderDebug};
use crate::sink::{Sink, WriteError};

verus! {

/// `parts` in order, with `sep` between each two neighbours.
pub open spec fn joined(parts: Seq<Seq<char>>, sep: Seq<char>) -> Seq<char>
    decreases parts.len(),
{
    if parts.len() == 0 {
        Seq::empty()
    } else if parts.len() == 1 {
        parts[0]
    } else {
        joined(parts.drop_last(), sep) + sep + parts.last()
    }
}

/// `parts` in order, with `seps[i]` between `parts[i]` and `parts[i + 1]`.
pub open spec fn woven(parts: Seq<Seq<char>>, seps: Seq<Seq<char>>) -> Seq<char>
    decreases parts.len(),
{
    if parts.len() == 0 {
        Seq::empty()
    } else if parts.len() == 1 {
        parts[0]
    } else {
        woven(parts.drop_last(), seps) + seps[parts.len() - 2] + parts.last()
    }
}

/// Joining one part more: the separator and the part come behind what was
/// joined before, and the first part comes alone.
pub proof fn lemma_joined_next(parts: Seq<Seq<char>>, sep: Seq<char>, i: int)
    requires
        0 <= i < parts.len(),
    ensures
        joined(parts.take(i + 1), sep) == if i == 0 {
            parts[0]
        } else {
            joined(parts.take(i), sep) + sep + parts[i]
        },
{
    assert(parts.take(i + 1).drop_last() =~= parts.take(i));
}

/// Weaving one part more, as `lemma_joined_next` for `woven`.
pub proof fn lemma_woven_next(parts: Seq<Seq<char>>, seps: Seq<Seq<char>>, i: int)
    requires
        0 <= i < parts.len(),
    ensures
        woven(parts.take(i + 1), seps) == if i == 0 {
            parts[0]
        } else {
            woven(parts.take(i), seps) + seps[i - 1] + parts[i]
        },
{
    assert(parts.take(i + 1).drop_last() =~= parts.take(i));
}

/// Joining with nothing between the parts puts them one behind the other.
pub proof fn lemma_joined_with_nothing(parts: Seq<Seq<char>>)
    ensures
        joined(parts, Seq::empty()) == parts.flatten(),
    decreases parts.len(),
{
    parts.lemma_flatten_and_flatten_alt_are_equivalent();
    if parts.len() == 1 {
        assert(parts.drop_last().flatten_alt() + parts.last() =~= parts[0]);
    } else if parts.len() > 1 {
        let fewer = parts.drop_last();
        lemma_joined_with_nothing(fewer);
        fewer.lemma_flatten_and_flatten_alt_are_equivalent();
        assert(joined(fewer, Seq::empty()) + Seq::<char>::empty() + parts.last()
            =~= fewer.flatten_alt() + parts.last());
    }
}

/// The texts of the items, in order.
pub open spec fn texts<T: Render>(items: Seq<T>) -> Seq<Seq<char>> {
    Seq::new(items.len(), |i: int| items[i].text())
}

/// The inspection texts of the items, in order.
pub open spec fn debug_texts<T: RenderDebug>(items: Seq<T>) -> Seq<Seq<char>> {
    Seq::new(items.len(), |i: int| items[i].debug_text())
}

/// Items joined with a separator.
pub struct Join<'a, T> {
    items: &'a [T],
    separator: &'a str,
}

impl<'a, T> Join<'a, T> {
    /// The items.
    pub closed spec fn items(&self) -> Seq<T> {
        self.items@
    }

    /// The separator.
    pub closed spec fn separator(&self) -> Seq<char> {
        self.separator@
    }
}

/// `items`, to be rendered one after the other with `separator` between
/// them. Each item renders as it does alone, for reading or for inspection;
/// the separator is written as it is in both.
pub fn join<'a, T>(items: &'a [T], separator: &'a str) -> (r: Join<'a, T>)
    ensures
        r.items() == items@,
        r.separator() == separator@,
{
    Join { items, separator }
}

impl<'a, T: Render> Render for Join<'a, T> {
    open spec fn text(&self) -> Seq<char> {
        joined(texts(self.items()), self.separator())
    }

    fn render<W: Sink>(&self, out: W) -> (r: (W, Result<(), WriteError>)) {
        let ghost start = out.text();
        let ghost setup = out.setup();
        let ghost parts = texts(self.items@);
        let mut out = out;
        let n = self.items.len();
        proof {
            assert(parts.take(n as int) =~= parts);
        }
        let mut i: usize = 0;
        while i < n
            invariant
                0 <= i <= n,
                n == self.items@.len(),
                parts == texts(self.items@),
                out.inv(),
                out.setup() == setup,
                out.text() == start + joined(parts.take(i as int), self.separator@),
            decreases n - i,
        {
            if i > 0 {
                match out.write_str(self.separator) {
                    Ok(()) => {},
                    Err(e) => {
                        return (out, Err(e));
                    },
                }
            }
            let (next, done) = self.items[i].render(out);
            out = next;
            match done {
                Ok(()) => {},
                Err(e) => {
                    return (out, Err(e));
                },
            }
            proof {
                lemma_joined_next(parts, self.separator@, i as int);
            }
            i += 1;
        }
        (out, Ok(()))
    }
}

impl<'a, T: RenderDebug> RenderDebug for Join<'a, T> {
    open spec fn debug_text(&self) -> Seq<char> {
        joined(debug_texts(self.items()), self.separator())
    }

    fn render_debug<W: Sink>(&self, out: W) -> (r: (W, Result<(), WriteError>)) {
        let ghost start = out.text();
        let ghost setup = out.setup();
        let ghost parts = debug_texts(self.items@);
        let mut out = out;
        let n = self.items.len();
        proof {
            assert(parts.take(n as int) =~= parts);
        }
        let mut i: usize = 0;
        while i < n
            invariant
                0 <= i <= n,
                n == self.items@.len(),
                parts == debug_texts(self.items@),
                out.inv(),
                out.setup() == setup,
                out.text() == start + joined(parts.take(i as int), self.separator@),
            decreases n - i,
        {
            if i > 0 {
                match out.write_str(self.separator) {
                    Ok(()) => {},
                    Err(e) => {
                        return (out, Err(e));
                    },
                }
            }
            let (next, done) = self.items[i].render_debug(out);
            out = next;
            match done {
                Ok(()) => {},
                Err(e) => {
                    return (out, Err(e));
                },
            }
            proof {
                lemma_joined_next(parts, self.separator@, i as int);
            }
            i += 1;
        }
        (out, Ok(()))
    }
}

/// How to write one item of a list. The number of the item comes with it, so
/// that an item can be written by its place.
pub trait FormatItem<T> {
    /// What is written for `item`, the `n`th of the list.
    open spec fn item_text(&self, n: nat, item: &T) -> Seq<char> {
        arbitrary()
    }

    /// Writes `item`, the `n`th of the list, to `out`.
    fn fmt_item<W: Sink>(&self, n: usize, item: &T, out: W) -> (r: (W, Result<(), WriteError>))
        requires
            out.inv(),
        ensures
            r.1 is Ok ==> r.0.inv(),
            r.1 is Ok ==> r.0.setup() == out.setup(),
            r.1 is Ok ==> r.0.text() == out.text() + self.item_text(n as nat, item),
            W::infallible() ==> r.1 is Ok,
    ;
}

/// How to write the separators of a list. The number of the gap comes with
/// the call, so that separators can take turns.
pub trait FormatSeparator {
    /// What is written into gap `n`, the one behind the `n`th item.
    open spec fn separator_text(&self, n: nat) -> Seq<char> {
        arbitrary()
    }

    /// Writes the separator of gap `n` to `out`.
    fn fmt_separator<W: Sink>(&self, n: usize, out: W) -> (r: (W, Result<(), WriteError>))
        requires
            out.inv(),
        ensures
            r.1 is Ok ==> r.0.inv(),
            r.1 is Ok ==> r.0.setup() == out.setup(),
            r.1 is Ok ==> r.0.text() == out.text() + self.separator_text(n as nat),
            W::infallible() ==> r.1 is Ok,
    ;
}

/// Writes each item as it renders.
#[derive(Debug, Clone, Copy)]
pub struct Plain;

impl<T: Render> FormatItem<T> for Plain {
    open spec fn item_text(&self, n: nat, item: &T) -> Seq<char> {
        item.text()
    }

    fn fmt_item<W: Sink>(&self, n: usize, item: &T, out: W) -> (r: (W, Result<(), WriteError>)) {
        item.render(out)
    }
}

/// A string slice as the separator of every gap.
impl<'a> FormatSeparator for &'a str {
    open spec fn separator_text(&self, n: nat) -> Seq<char> {
        self@
    }

    fn fmt_separator<W: Sink>(&self, n: usize, out: W) -> (r: (W, Result<(), WriteError>)) {
        let mut out = out;
        let r = out.write_str(self);
        (out, r)
    }
}

/// What `f` writes for each of the items, in order.
pub open spec fn item_texts<T, F: FormatItem<T>>(f: F, items: Seq<T>) -> Seq<Seq<char>> {
    Seq::new(items.len(), |i: int| f.item_text(i as nat, &items[i]))
}

/// What `s` writes into each of the first `n` gaps, in order.
pub open spec fn separator_texts<S: FormatSeparator>(s: S, n: nat) -> Seq<Seq<char>> {
    Seq::new(n, |i: int| s.separator_text(i as nat))
}

/// Items joined with a separator, each written by an item writer.
pub struct JoinFmt<'a, T, F, S> {
    items: &'a [T],
    element_writer: F,
    separator: S,
}

impl<'a, T, F, S> JoinFmt<'a, T, F, S> {
    /// The items.
    pub closed spec fn items(&self) -> Seq<T> {
        self.items@
    }

    /// What writes an item.
    pub closed spec fn element_writer(&self) -> F {
        self.element_writer
    }

    /// The separator.
    pub closed spec fn separator(&self) -> S {
        self.separator
    }
}

/// `items`, to be rendered one after the other, each by `fmt_item`, with the
/// text of `separator` between them.
pub fn join_fmt<'a, T, S, F>(items: &'a [T], separator: S, fmt_item: F) -> (r: JoinFmt<
    'a,
    T,
    F,
    S,
>)
    ensures
        r.items() == items@,
        r.separator() == separator,
        r.element_writer() == fmt_item,
{
    JoinFmt { items, element_writer: fmt_item, separator }
}

impl<'a, T, F: FormatItem<T>, S: Render> Render for JoinFmt<'a, T, F, S> {
    open spec fn text(&self) -> Seq<char> {
        joined(item_texts(self.element_writer(), self.items()), self.separator().text())
    }

    fn render<W: Sink>(&self, out: W) -> (r: (W, Result<(), WriteError>)) {
        let ghost start = out.text();
        let ghost setup = out.setup();
        let ghost parts = item_texts(self.element_writer, self.items@);
        let ghost sep = self.separator.text();
        let mut out = out;
        let n = self.items.len();
        proof {
            assert(parts.take(n as int) =~= parts);
        }
        let mut i: usize = 0;
        while i < n
            invariant
                0 <= i <= n,
                n == self.items@.len(),
                parts == item_texts(self.element_writer, self.items@),
                sep == self.separator.text(),
                out.inv(),
                out.setup() == setup,
                out.text() == start + joined(parts.take(i as int), sep),
            decreases n - i,
        {
            if i > 0 {
                let (next, done) = self.separator.render(out);
                out = next;
                match done {
                    Ok(()) => {},
                    Err(e) => {
                        return (out, Err(e));
                    },
                }
            }
            let (next, done) = self.element_writer.fmt_item(i, &self.items[i], out);
            out = next;
            match done {
                Ok(()) => {},
                Err(e) => {
                    return (out, Err(e));
                },
            }
            proof {
                lemma_joined_next(parts, sep, i as int);
            }
            i += 1;
        }
        (out, Ok(()))
    }
}

/// Items joined with separators, each item and each separator written by a
/// writer of its own.
pub struct JoinFmtAll<'a, T, F, S> {
    items: &'a [T],
    element_writer: F,
    separator_writer: S,
}

impl<'a, T, F, S> JoinFmtAll<'a, T, F, S> {
    /// The items.
    pub closed spec fn items(&self) -> Seq<T> {
        self.items@
    }

    /// What writes an item.
    pub closed spec fn element_writer(&self) -> F {
        self.element_writer
    }

    /// What writes a separator.
    pub closed spec fn separator_writer(&self) -> S {
        self.separator_writer
    }
}

/// `items`, to be rendered one after the other, each by `fmt_item`, with what
/// `fmt_separator` writes between them.
pub fn join_fmt_all<'a, T, S, F>(items: &'a [T], fmt_separator: S, fmt_item: F) -> (r:
    JoinFmtAll<'a, T, F, S>)
    ensures
        r.items() == items@,
        r.separator_writer() == fmt_separator,
        r.element_writer() == fmt_item,
{
    JoinFmtAll { items, element_writer: fmt_item, separator_writer: fmt_separator }
}

impl<'a, T, F: FormatItem<T>, S: FormatSeparator> Render for JoinFmtAll<'a, T, F, S> {
    open spec fn text(&self) -> Seq<char> {
        woven(
            item_texts(self.element_writer(), self.items()),
            separator_texts(self.separator_writer(), self.items().len()),
        )
    }

    fn render<W: Sink>(&self, out: W) -> (r: (W, Result<(), WriteError>)) {
        let ghost start = out.text();
        let ghost setup = out.setup();
        let ghost parts = item_texts(self.element_writer, self.items@);
        let ghost seps = separator_texts(self.separator_writer, self.items@.len());
        let mut out = out;
        let n = self.items.len();
        proof {
            assert(parts.take(n as int) =~= parts);
        }
        let mut i: usize = 0;
        while i < n
            invariant
                0 <= i <= n,
                n == self.items@.len(),
                parts == item_texts(self.element_writer, self.items@),
                seps == separator_texts(self.separator_writer, self.items@.len()),
                out.inv(),
                out.setup() == setup,
                out.text() == start + woven(parts.take(i as int), seps),
            decreases n - i,
        {
            if i > 0 {
                let (next, done) = self.separator_writer.fmt_separator(i - 1, out);
                out = next;
                match done {
                    Ok(()) => {},
                    Err(e) => {
                        return (out, Err(e));
                    },
                }
            }
            let (next, done) = self.element_writer.fmt_item(i, &self.items[i], out);
            out = next;
            match done {
                Ok(()) => {},
                Err(e) => {
                    return (out, Err(e));
                },
            }
            proof {
                lemma_woven_next(parts, seps, i as int);
            }
            i += 1;
        }
        (out, Ok(()))
    }
}

} // verus!
