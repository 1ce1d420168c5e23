//! The slot that holds the current sink.

use crate::sink::Sink;
use vstd::prelude::*;

verus! {

/// A slot for at most one sink.
///
/// It starts empty, and only [`init`] changes which sink it holds. Its view
/// is the sink it holds, if any.
pub struct Registry<S> {
    slot: Option<S>,
}

impl<S> View for Registry<S> {
    type V = Option<S>;

    closed spec fn view(&self) -> Option<S> {
        self.slot
    }
}

impl<S> Registry<S> {
    /// A registry with no sink installed.
    pub fn new() -> (registry: Self)
        ensures
            registry@ is None,
    {
        Registry { slot: None }
    }

    /// Whether a sink is installed.
    pub fn is_installed(&self) -> (installed: bool)
        ensures
            installed == (self@ is Some),
    {
        self.slot.is_some()
    }

    /// The installed sink, to look at.
    pub fn sink(&self) -> (sink: Option<&S>)
        ensures
            match self@ {
                None => sink is None,
                Some(held) => sink is Some && *sink->0 == held,
            },
    {
        self.slot.as_ref()
    }

    /// The installed sink, to write to. What the caller does to it is what
    /// the registry holds afterwards.
    pub(crate) fn current(&mut self) -> (sink: Option<&mut S>)
        ensures
            match old(self)@ {
                None => sink is None && final(self)@ is None,
                Some(held) => sink is Some && *sink.unwrap() == held && final(self)@ == Some(
                    *final(sink.unwrap()),
                ),
            },
    {
        self.slot.as_mut()
    }
}

/// What [`init`] does: `sink` is the one sink held afterwards, and whatever
/// was held before comes out as `previous`, as it was.
pub open spec fn installs<S>(
    before: Option<S>,
    sink: S,
    after: Option<S>,
    previous: Option<S>,
) -> bool {
    after == Some(sink) && previous == before
}

/// Installs `sink` as the current sink, in place of any sink installed
/// before.
///
/// This always succeeds. The sink that was replaced is handed back as it
/// was: nothing is written to it, and it is neither flushed nor closed here.
pub fn init<S: Sink>(registry: &mut Registry<S>, sink: S) -> (previous: Option<S>)
    ensures
        installs(old(registry)@, sink, final(registry)@, previous),
{
    let previous = registry.slot.take();
    registry.slot = Some(sink);
    previous
}

/// Installing again and again is always allowed, and leaves exactly one sink
/// current: the last one installed.
///
/// `sinks` are installed in turn, `slots[i]` being what the registry held
/// before the call that installed `sinks[i]` and `slots[i + 1]` what it held
/// after it. Then the registry ends up holding the last of `sinks`, the first
/// call handed back what the registry held at the start, and every later
/// call handed back the sink installed just before it.
pub proof fn lemma_last_install_is_current<S>(
    slots: Seq<Option<S>>,
    sinks: Seq<S>,
    handed_back: Seq<Option<S>>,
)
    requires
        sinks.len() >= 1,
        slots.len() == sinks.len() + 1,
        handed_back.len() == sinks.len(),
        forall|i: int|
            #![trigger sinks[i]]
            0 <= i < sinks.len() ==> installs(slots[i], sinks[i], slots[i + 1], handed_back[i]),
    ensures
        slots.last() == Some(sinks.last()),
        handed_back[0] == slots[0],
        forall|i: int|
            #![trigger handed_back[i]]
            1 <= i < sinks.len() ==> handed_back[i] == Some(sinks[i - 1]),
{
    let last = sinks.len() - 1;
    assert(installs(slots[last], sinks[last], slots[last + 1], handed_back[last]));
    assert(installs(slots[0], sinks[0], slots[1], handed_back[0]));
    assert forall|i: int| #![trigger handed_back[i]] 1 <= i < sinks.len() implies handed_back[i]
        == Some(sinks[i - 1]) by {
        assert(installs(slots[i - 1], sinks[i - 1], slots[i], handed_back[i - 1]));
        assert(installs(slots[i], sinks[i], slots[i + 1], handed_back[i]));
    }
}

} // verus!
