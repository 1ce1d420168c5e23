//! Where log lines go.

use vstd::prelude::*;

verus! {

/// Whether a sink that held `before` and was handed `bytes` could have taken
/// a leading part of them, in order, and hold `after` now. Taking none of
/// them and taking all of them both count.
pub open spec fn took_leading_part(before: Seq<u8>, bytes: Seq<u8>, after: Seq<u8>) -> bool {
    before.is_prefix_of(after) && after.is_prefix_of(before + bytes)
}

/// A destination that takes bytes in order and says when it could not.
///
/// A file, a terminal or a socket becomes a sink through an implementation
/// of this trait, which only has to supply [`Sink::append`]. The contract of
/// `append` is a demand on that implementation, and nothing checks it for an
/// implementation written outside this crate: what is proved of
/// [`crate::emitter::log`] holds of a sink that meets it.
pub trait Sink {
    /// Every byte that the sink has taken so far, oldest first.
    ///
    /// A sink defined here says what it holds. For any other sink this is
    /// some function of the sink that is not known any further: all that is
    /// known of it is what the contract of `append` says.
    closed spec fn written(&self) -> Seq<u8> {
        arbitrary::<spec_fn(&Self) -> Seq<u8>>()(self)
    }

    /// Whether the sink takes whatever it is handed. A sink promises this
    /// only by saying so itself.
    open spec fn never_fails(&self) -> bool {
        false
    }

    /// Takes `bytes` after everything taken before, and passes them on before
    /// it returns: a sink that buffers flushes here.
    ///
    /// On success the sink holds exactly its old content followed by `bytes`.
    /// On failure it returns the reason, and holds its old content followed
    /// by some leading part of `bytes`. A sink that never fails succeeds, and
    /// goes on never failing.
    fn append(&mut self, bytes: &[u8]) -> (outcome: Result<(), String>)
        ensures
            outcome is Ok ==> final(self).written() == old(self).written() + bytes@,
            outcome is Err ==> took_leading_part(
                old(self).written(),
                bytes@,
                final(self).written(),
            ),
            old(self).never_fails() ==> outcome is Ok,
            final(self).never_fails() == old(self).never_fails(),
    ;
}

/// A sink that keeps what it takes in memory and never fails.
pub struct MemorySink {
    bytes: Vec<u8>,
}

impl MemorySink {
    /// A sink that has taken nothing yet.
    pub fn new() -> (sink: Self)
        ensures
            sink.written() == Seq::<u8>::empty(),
    {
        MemorySink { bytes: Vec::new() }
    }

    /// Everything taken so far.
    pub fn contents(&self) -> (bytes: &[u8])
        ensures
            bytes@ == self.written(),
    {
        self.bytes.as_slice()
    }
}

impl Sink for MemorySink {
    closed spec fn written(&self) -> Seq<u8> {
        self.bytes@
    }

    open spec fn never_fails(&self) -> bool {
        true
    }

    fn append(&mut self, bytes: &[u8]) -> (outcome: Result<(), String>) {
        let mut i: usize = 0;
        while i < bytes.len()
            invariant
                i <= bytes@.len(),
                self.bytes@ == old(self).bytes@ + bytes@.subrange(0, i as int),
            decreases bytes@.len() - i,
        {
            self.bytes.push(bytes[i]);
            i += 1;
        }
        assert(bytes@.subrange(0, i as int) =~= bytes@);
        Ok(())
    }
}

} // verus!
