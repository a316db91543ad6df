use vstd::prelude::*;

use crate::Reactor;

verus! {

/// The recomputation rule of a derived node.
///
/// A derived node's value is a pure function of other nodes, named by their
/// identities.  The rule is data, so the engine itself performs the reads it
/// calls for; every read of a dependency during recomputation registers the
/// derived node as a subscriber of that dependency.
#[derive(Clone, Copy, Debug, PartialEq, Eq, Structural)]
pub enum Expr {
    /// A constant, depending on nothing.
    Const(u64),
    /// The value of the node with the given identity.
    Get(usize),
    /// The wrapping sum of the values of two nodes.
    Add(usize, usize),
}

impl Expr {
    /// Whether the node with identity `d` is read when this rule runs.
    pub open spec fn is_dep(self, d: usize) -> bool {
        match self {
            Expr::Const(_) => false,
            Expr::Get(a) => d == a,
            Expr::Add(a, b) => d == a || d == b,
        }
    }

    /// Every dependency names a node minted before `bound` nodes existed.
    /// Rules may only read nodes that already exist when the rule is created,
    /// which keeps the dependency graph free of cycles.
    pub open spec fn deps_below(self, bound: int) -> bool {
        forall|d: usize| #[trigger] self.is_dep(d) ==> (d as int) < bound
    }
}

/// A derived node ("computed"): a cached value plus a recomputation rule.
///
/// It is clean exactly when its dirty flag is unset *and* a cached value is
/// present; a freshly created derived node has never been computed and is
/// therefore dirty.
#[derive(Clone, Copy, Debug, PartialEq, Eq, Structural)]
pub struct ReactiveExpr {
    /// The node's identity: the slot it occupies in the reactor that minted it.
    pub uuid: usize,
    /// The recomputation rule.
    pub expr: Expr,
    /// The cached value, absent until the rule first runs.
    pub value: Option<u64>,
    /// Unset while some dependency may have changed since the cache was filled.
    pub clean: bool,
    /// How often the recomputation rule has run, counted with wraparound.
    pub recompute_count: u64,
}

impl ReactiveExpr {
    /// Clean means: flag set and a cached value present.
    pub open spec fn spec_is_clean(self) -> bool {
        self.clean && self.value is Some
    }

    /// Creates a derived node with the given rule and a fresh identity minted
    /// by `reactor`.  The node starts dirty, with no cached value, and its
    /// rule has not run.
    pub fn new(expr: Expr, reactor: &mut Reactor) -> (node: ReactiveExpr)
        requires
            old(reactor).wf(),
            expr.deps_below(old(reactor).nodes@.len() as int),
        ensures
            final(reactor).wf(),
            old(reactor).coherent() ==> final(reactor).coherent(),
            final(reactor).minted_from(*old(reactor)),
            node.uuid == old(reactor).nodes@.len(),
            node.expr == expr,
            node.value is None,
            !node.clean,
            node.recompute_count == 0,
    {
        let uuid = reactor.mint();
        ReactiveExpr { uuid, expr, value: None, clean: false, recompute_count: 0 }
    }

    /// Whether this node's cache may be served without recomputation.
    pub fn is_clean(&self) -> (b: bool)
        ensures
            b == self.spec_is_clean(),
    {
        self.clean && self.value.is_some()
    }

    /// Whether this node must recompute before its next read.
    pub fn is_dirty(&self) -> (b: bool)
        ensures
            b == !self.spec_is_clean(),
    {
        !self.is_clean()
    }
}

} // verus!
