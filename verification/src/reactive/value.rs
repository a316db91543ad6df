use vstd::prelude::*;

use crate::Reactor;

verus! {

/// A source node ("signal"): a mutable cell with no dependencies of its own.
///
/// A source is always clean; nothing upstream of it can change, so a dirty
/// source would never be cleaned again.  Writes go through
/// [`Reactor::write`], which broadcasts dirtiness to the node's subscribers.
#[derive(Clone, Copy, Debug, PartialEq, Eq, Structural)]
pub struct ReactiveValue {
    /// The node's identity: the slot it occupies in the reactor that minted it.
    pub uuid: usize,
    /// The current value.
    pub value: u64,
}

impl ReactiveValue {
    /// Creates a source node holding `value`, with a fresh identity minted by
    /// `reactor`.
    pub fn new(value: u64, reactor: &mut Reactor) -> (node: ReactiveValue)
        requires
            old(reactor).wf(),
        ensures
            final(reactor).wf(),
            old(reactor).coherent() ==> final(reactor).coherent(),
            final(reactor).minted_from(*old(reactor)),
            node.uuid == old(reactor).nodes@.len(),
            node.value == value,
    {
        let uuid = reactor.mint();
        ReactiveValue { uuid, value }
    }

    /// A source node is always clean.
    pub fn is_clean(&self) -> (b: bool)
        ensures
            b,
    {
        true
    }
}

} // verus!
