//! Text rewriting at rendering time.
//!
//! A value renders itself by pushing chunks of text into a [`Sink`]. The
//! adapters of this crate sit between a value and its sink and rewrite the
//! text on the way: [`replace`] substitutes every occurrence of a pattern,
//! [`join`] puts a separator between the items of a list. No adapter keeps
//! more text than the few bytes of a match that is still undecided.
//!
//! Every contract speaks of the text as a sequence of characters: what a
//! sink has accepted is `Sink::text`, what a value renders is `Render::text`.
//! What replacing means is `matching::replace_all`, and the replaced text of
//! a value does not depend on the chunks that the value renders in.
//!
//! ```text
//! let words = ["a.b", "c"];
//! let text = render_to_string(&replace(join(&words, ", "), '.', "::"));
//! assert_eq!(text, "a::b, c");
//! ```
pub mod char_replacer;
pub mod empty_replacer;
pub mod fmt_with;
pub mod join;
pub mod matching;
pub mod render;
pub mod replace;
pub mod sink;
pub mod str_replacer;
pub mod text;

pub use fmt_with::{DebugWith, DisplayWith, FormatWith, ToFormatWith};
pub use join::{
    join, join_fmt, join_fmt_all, FormatItem, FormatSeparator, Join, JoinFmt, JoinFmtAll, Plain,
};
pub use render::{debug_to_string, render_to_string, DebugOf, Render, RenderDebug};
pub use replace::{
    classify, replace, CharReplacer, EmptyReplacer, PatternKind, Replace, ReplacePattern,
    StrReplacer,
};
pub use sink::{Limited, Sink, WriteError};
