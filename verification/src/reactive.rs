use vstd::prelude::*;

pub mod expr;
pub mod value;

use crate::reactive::expr::Expr;
use crate::reactive::expr::ReactiveExpr;
use crate::reactive::value::ReactiveValue;
use crate::Reactor;

verus! {

/// The capability every node offers, whatever its kind: an identity, and a
/// report on whether its value needs recalculation.  It is what lets a
/// subscriber set hold differently shaped nodes uniformly; everything else —
/// dirtying, recomputation — goes through the reactor by identity.
pub trait Reactive {
    /// What the node reports as clean.
    spec fn clean_spec(&self) -> bool;

    /// The node's identity token.
    fn uuid(&self) -> usize;

    /// Whether the node's value needs no recalculation.
    fn is_clean(&self) -> (b: bool)
        ensures
            b == self.clean_spec(),
    ;

    /// Whether the node must recompute before its next read.
    fn is_dirty(&self) -> (b: bool)
        ensures
            b == !self.clean_spec(),
    ;
}

impl Reactive for ReactiveValue {
    open spec fn clean_spec(&self) -> bool {
        true
    }

    fn uuid(&self) -> usize {
        self.uuid
    }

    fn is_clean(&self) -> (b: bool) {
        true
    }

    fn is_dirty(&self) -> (b: bool) {
        false
    }
}

impl Reactive for ReactiveExpr {
    open spec fn clean_spec(&self) -> bool {
        self.spec_is_clean()
    }

    fn uuid(&self) -> usize {
        self.uuid
    }

    fn is_clean(&self) -> (b: bool) {
        self.clean && self.value.is_some()
    }

    fn is_dirty(&self) -> (b: bool) {
        !(self.clean && self.value.is_some())
    }
}

/// A node of the dependency graph: either a source or a derived node.
///
/// In the dependency digraph of reactive data, sources have no dependencies
/// at all, while derived nodes depend on the nodes their rule reads, so their
/// state must be checked whenever a read is done.  Sources are assignable,
/// derived nodes are not.
#[derive(Clone, Copy, Debug, PartialEq, Eq, Structural)]
pub enum ReactiveData {
    /// A source node.
    Value(ReactiveValue),
    /// A derived node.
    Expr(ReactiveExpr),
}

impl ReactiveData {
    /// The node's identity token.
    pub open spec fn spec_uuid(self) -> usize {
        match self {
            ReactiveData::Value(v) => v.uuid,
            ReactiveData::Expr(e) => e.uuid,
        }
    }

    /// A node is clean when its value needs no recalculation: sources always
    /// are; a derived node is clean only with its flag set and a cache
    /// present.
    pub open spec fn spec_is_clean(self) -> bool {
        match self {
            ReactiveData::Value(_) => true,
            ReactiveData::Expr(e) => e.spec_is_clean(),
        }
    }

    /// The recomputation rule, for derived nodes.
    pub open spec fn spec_expr(self) -> Expr {
        match self {
            ReactiveData::Value(_) => Expr::Const(0),
            ReactiveData::Expr(e) => e.expr,
        }
    }

    /// The cached value, for derived nodes.
    pub open spec fn spec_cache(self) -> Option<u64> {
        match self {
            ReactiveData::Value(_) => Option::None,
            ReactiveData::Expr(e) => e.value,
        }
    }

    /// How often the node's rule has run, for derived nodes.
    pub open spec fn spec_recompute_count(self) -> u64 {
        match self {
            ReactiveData::Value(_) => 0,
            ReactiveData::Expr(e) => e.recompute_count,
        }
    }

    /// A node is well formed when its rule reads only nodes minted before it.
    pub open spec fn wf(self) -> bool {
        match self {
            ReactiveData::Value(_) => true,
            ReactiveData::Expr(e) => e.expr.deps_below(e.uuid as int),
        }
    }

    /// The node's identity token.
    pub fn uuid(&self) -> (id: usize)
        ensures
            id == self.spec_uuid(),
    {
        match self {
            ReactiveData::Value(v) => v.uuid,
            ReactiveData::Expr(e) => e.uuid,
        }
    }

    /// Whether the node's value needs no recalculation.
    pub fn is_clean(&self) -> (b: bool)
        ensures
            b == self.spec_is_clean(),
    {
        match self {
            ReactiveData::Value(v) => v.is_clean(),
            ReactiveData::Expr(e) => e.is_clean(),
        }
    }

    /// Whether the node must recompute before its next read.
    pub fn is_dirty(&self) -> (b: bool)
        ensures
            b == !self.spec_is_clean(),
    {
        !self.is_clean()
    }
}

impl ReactiveData {
    /// Creates a source node holding `value`, with a fresh identity minted
    /// by `reactor`, ready to be registered.
    pub fn new_value(value: u64, reactor: &mut Reactor) -> (node: ReactiveData)
        requires
            old(reactor).wf(),
        ensures
            final(reactor).wf(),
            old(reactor).coherent() ==> final(reactor).coherent(),
            final(reactor).minted_from(*old(reactor)),
            node.wf(),
            node is Value,
            node.spec_uuid() == old(reactor).nodes@.len(),
            node == ReactiveData::Value(
                ReactiveValue { uuid: old(reactor).nodes@.len() as usize, value },
            ),
    {
        ReactiveData::Value(ReactiveValue::new(value, reactor))
    }

    /// Creates a derived node with the given rule and a fresh identity
    /// minted by `reactor`: dirty, uncached, its rule not yet run, ready to
    /// be registered.
    pub fn new_expr(expr: Expr, reactor: &mut Reactor) -> (node: ReactiveData)
        requires
            old(reactor).wf(),
            expr.deps_below(old(reactor).nodes@.len() as int),
        ensures
            final(reactor).wf(),
            old(reactor).coherent() ==> final(reactor).coherent(),
            final(reactor).minted_from(*old(reactor)),
            node.wf(),
            node is Expr,
            !node.spec_is_clean(),
            node.spec_uuid() == old(reactor).nodes@.len(),
            node.spec_expr() == expr,
            node.spec_cache() is None,
            node.spec_recompute_count() == 0,
    {
        ReactiveData::Expr(ReactiveExpr::new(expr, reactor))
    }
}

impl Reactive for ReactiveData {
    open spec fn clean_spec(&self) -> bool {
        self.spec_is_clean()
    }

    fn uuid(&self) -> usize {
        match self {
            ReactiveData::Value(v) => v.uuid,
            ReactiveData::Expr(e) => e.uuid,
        }
    }

    fn is_clean(&self) -> (b: bool) {
        match self {
            ReactiveData::Value(_) => true,
            ReactiveData::Expr(e) => e.clean && e.value.is_some(),
        }
    }

    fn is_dirty(&self) -> (b: bool) {
        match self {
            ReactiveData::Value(_) => false,
            ReactiveData::Expr(e) => !(e.clean && e.value.is_some()),
        }
    }
}

} // verus!
