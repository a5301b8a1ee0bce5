//! Sinks: where rendered text goes, one chunk at a time.
use vstd::prelude::*;
use vstd::utf8::encode_utf8;

verus! {

/// A sink refused a chunk. It carries nothing: a session that failed is over.
#[derive(Debug, Clone, Copy, PartialEq, Eq)]
pub struct WriteError;

/// A write-only receiver of text chunks.
///
/// The model of a sink is the text it has accepted so far. Chunk boundaries
/// leave no trace in it.
///
/// The model has defaults that say nothing, so that a sink written outside
/// verification has only `write_str` to give. Of such a sink nothing is
/// proved, and what is proved of an adapter around it holds as far as its
/// `write_str` keeps the contract.
pub trait Sink: Sized {
    /// What no write changes: how the sink was set up.
    type Setup;

    /// Well-formedness. A sink that reported a failure need not keep it.
    open spec fn inv(&self) -> bool {
        true
    }

    /// How the sink was set up.
    open spec fn setup(&self) -> Self::Setup {
        arbitrary()
    }

    /// All text accepted so far, in order.
    open spec fn text(&self) -> Seq<char> {
        arbitrary()
    }

    /// Whether no sink of this type ever refuses a chunk.
    open spec fn infallible() -> bool {
        false
    }

    /// Appends one chunk.
    fn write_str(&mut self, s: &str) -> (r: Result<(), WriteError>)
        requires
            old(self).inv(),
        ensures
            r is Ok ==> final(self).inv(),
            r is Ok ==> final(self).setup() == old(self).setup(),
            r is Ok ==> final(self).text() == old(self).text() + s@,
            Self::infallible() ==> r is Ok,
    ;
}

/// A `String` accepts every chunk.
impl Sink for String {
    type Setup = ();

    open spec fn inv(&self) -> bool {
        true
    }

    open spec fn setup(&self) -> () {
        ()
    }

    open spec fn text(&self) -> Seq<char> {
        self@
    }

    open spec fn infallible() -> bool {
        true
    }

    fn write_str(&mut self, s: &str) -> (r: Result<(), WriteError>) {
        self.append(s);
        Ok(())
    }
}

/// A buffer that holds at most `limit` bytes of UTF-8 and refuses the chunk
/// that would exceed it.
pub struct Limited {
    buf: String,
    limit: usize,
}

impl Limited {
    /// The limit in bytes.
    pub closed spec fn limit(&self) -> nat {
        self.limit as nat
    }

    /// The text held.
    pub closed spec fn held(&self) -> Seq<char> {
        self.buf@
    }

    /// An empty buffer with the given limit.
    pub fn new(limit: usize) -> (r: Self)
        ensures
            r.inv(),
            r.text() == Seq::<char>::empty(),
            r.limit() == limit,
    {
        Limited { buf: String::new(), limit }
    }

    /// Gives the buffer's text up.
    pub fn into_string(self) -> (r: String)
        ensures
            r@ == self.text(),
    {
        self.buf
    }

    /// The text held, as a string slice.
    pub fn as_str(&self) -> (r: &str)
        ensures
            r@ == self.text(),
    {
        self.buf.as_str()
    }
}

impl Sink for Limited {
    /// The limit.
    type Setup = nat;

    open spec fn inv(&self) -> bool {
        true
    }

    open spec fn setup(&self) -> nat {
        self.limit()
    }

    closed spec fn text(&self) -> Seq<char> {
        self.buf@
    }

    open spec fn infallible() -> bool {
        false
    }

    fn write_str(&mut self, s: &str) -> (r: Result<(), WriteError>)
        ensures
            final(self).limit() == old(self).limit(),
            r is Ok <==> encode_utf8(old(self).text()).len() + encode_utf8(s@).len() <= old(
                self,
            ).limit(),
            r is Err ==> final(self).text() == old(self).text(),
    {
        let used = self.buf.as_str().as_bytes().len();
        let more = s.as_bytes().len();
        if more > self.limit || used > self.limit - more {
            return Err(WriteError);
        }
        self.buf.append(s);
        Ok(())
    }
}

} // verus!
