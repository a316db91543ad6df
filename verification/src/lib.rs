use vstd::prelude::*;

pub mod laws;
pub mod reactive;
pub mod semantics;

use crate::reactive::expr::ReactiveExpr;
use crate::reactive::value::ReactiveValue;
use crate::semantics::lemma_dirty_step_trans;
use crate::semantics::lemma_denote_write_preserved;
use crate::reactive::ReactiveData;
use crate::semantics::caches_fresh;
use crate::semantics::clean_at;
use crate::semantics::clean_expr_at;
use crate::semantics::count_clean;
use crate::semantics::dep_at;
use crate::semantics::denote;
use crate::semantics::deps_clean;
use crate::semantics::deps_clean_except;
use crate::semantics::dirty_step;
use crate::semantics::lemma_count_clean_drop;
use crate::semantics::lemma_denote_deps;
use crate::semantics::lemma_denote_extend;
use crate::semantics::lemma_denote_same_computation;
use crate::semantics::node_at;
use crate::semantics::registered_at;
use crate::semantics::same_computation;
use crate::semantics::subs_contain;
use crate::semantics::touched;
use crate::semantics::lemma_touched_mono;
use crate::semantics::path_ok;
use crate::semantics::reaches;
use crate::semantics::fatal_reachable;
use crate::semantics::dirty_flagged;
use crate::semantics::lemma_fatal_unmoved_by_value;
use crate::semantics::seek_step;
use crate::semantics::lemma_seek_step_trans;
use vstd::wrapping::u64_specs;
use crate::reactive::expr::Expr;

verus! {

/// The failure of an operation that would violate a node invariant.
#[derive(Clone, Copy, Debug, PartialEq, Eq, Structural)]
pub enum ReactorError {
    /// A source node was asked to go dirty.  A source depends on nothing, so
    /// nothing would ever clean it again; the operation is aborted instead.
    SourceMarkedDirty { uuid: usize },
}

/// The subscription registry and owner of all nodes.
///
/// The reactor holds, for every minted identity, the node registered under it
/// and the set of identities that must be told when it changes.  Nodes never
/// hold references to one another; every cross-node effect goes through the
/// reactor by identity.
pub struct Reactor {
    /// Slot `i` holds the node with identity `i` once it is registered.
    pub nodes: Vec<Option<ReactiveData>>,
    /// Slot `i` holds the identities subscribed to node `i`, each at most once.
    pub subscriptions: Vec<Vec<usize>>,
}

impl Reactor {
    /// The subscribers of node `id`, in order of first subscription.
    pub open spec fn sub_seq(self, id: int) -> Seq<usize> {
        self.subscriptions@[id]@
    }

    /// Whether `s` is subscribed to node `d`.
    pub open spec fn sub_contains(self, d: int, s: usize) -> bool {
        0 <= d < self.subscriptions@.len() && self.sub_seq(d).contains(s)
    }

    /// Whether a node is registered under identity `id`.
    pub open spec fn spec_registered(self, id: usize) -> bool {
        registered_at(self.nodes@, id as int)
    }

    /// Structural well-formedness: one subscriber set per slot, every
    /// registered node sits in the slot its identity names, reads only nodes
    /// minted before it, and subscriber sets hold no duplicates.
    pub open spec fn wf(self) -> bool {
        &&& self.nodes@.len() == self.subscriptions@.len()
        &&& forall|i: int|
            0 <= i < self.nodes@.len() && self.nodes@[i] is Some ==> {
                &&& (#[trigger] self.nodes@[i]).unwrap().spec_uuid() == i
                &&& self.nodes@[i].unwrap().wf()
            }
        &&& forall|i: int|
            0 <= i < self.subscriptions@.len() ==> (#[trigger] self.subscriptions@[i])@.no_duplicates()
        &&& forall|i: int|
            0 <= i < self.nodes@.len() && self.nodes@[i] is None ==> (#[trigger] self.subscriptions@[i])@.len() == 0
    }

    /// Every clean derived node is subscribed to each of its dependencies, so
    /// a write to any of them reaches it.
    pub open spec fn edges_cover(self) -> bool {
        forall|i: int, d: usize|
            clean_expr_at(self.nodes@, i) && #[trigger] dep_at(self.nodes@, i, d)
                ==> self.sub_contains(d as int, i as usize)
    }

    /// Full coherence: dirty flags, caches and subscription edges together
    /// guarantee that serving any clean cache is correct.
    pub open spec fn coherent(self) -> bool {
        &&& self.edges_cover()
        &&& deps_clean(self.nodes@)
        &&& caches_fresh(self.nodes@)
    }

    /// The state after minting one identity: one empty, unregistered slot
    /// appended to `pre`, everything else untouched.
    pub open spec fn minted_from(self, pre: Reactor) -> bool {
        &&& self.nodes@ == pre.nodes@.push(Option::None)
        &&& self.subscriptions@.len() == pre.subscriptions@.len() + 1
        &&& forall|j: int|
            0 <= j < pre.subscriptions@.len() ==> self.subscriptions@[j] == #[trigger] pre.subscriptions@[j]
        &&& self.sub_seq(pre.subscriptions@.len() as int).len() == 0
    }

    /// Creates an empty reactor: no identities minted, no nodes, no edges.
    pub fn new() -> (reactor: Reactor)
        ensures
            reactor.wf(),
            reactor.coherent(),
            reactor.nodes@.len() == 0,
    {
        Reactor { nodes: Vec::new(), subscriptions: Vec::new() }
    }

    /// Mints a fresh identity: reserves the next slot and its empty
    /// subscriber set.  The slot stays unregistered until [`Self::register`].
    pub(crate) fn mint(&mut self) -> (id: usize)
        requires
            old(self).wf(),
        ensures
            final(self).wf(),
            old(self).coherent() ==> final(self).coherent(),
            final(self).minted_from(*old(self)),
            id == old(self).nodes@.len(),
    {
        let id = self.nodes.len();
        self.nodes.push(None);
        self.subscriptions.push(Vec::new());
        proof {
            if old(self).coherent() {
                assert forall|j: int|
                    0 <= j < self.nodes@.len() && #[trigger] clean_expr_at(self.nodes@, j)
                        implies clean_expr_at(old(self).nodes@, j) by {
                    assert(j < old(self).nodes@.len());
                    assert(self.nodes@[j] == old(self).nodes@[j]);
                }
                self.lemma_extend_coherent(*old(self));
            }
        }
        id
    }

    /// An extension of the node table — new empty slots, or a fresh node in
    /// an empty slot — preserves coherence, provided any new node is a source
    /// or a dirty derived node.
    proof fn lemma_extend_coherent(self, pre: Reactor)
        requires
            pre.wf(),
            self.wf(),
            pre.nodes@.len() <= self.nodes@.len(),
            forall|j: int|
                0 <= j < pre.nodes@.len() && pre.nodes@[j] is Some ==> self.nodes@[j] == #[trigger] pre.nodes@[j],
            forall|j: int|
                0 <= j < self.nodes@.len() && #[trigger] clean_expr_at(self.nodes@, j)
                    ==> clean_expr_at(pre.nodes@, j),
            forall|j: int|
                0 <= j < pre.subscriptions@.len() ==> pre.sub_seq(j).len() <= (
                #[trigger] self.sub_seq(j)).len() && (forall|k: int|
                    0 <= k < pre.sub_seq(j).len() ==> self.sub_seq(j)[k] == pre.sub_seq(j)[k]),
            pre.coherent(),
        ensures
            self.coherent(),
    {
        assert forall|i: int, d: usize|
            clean_expr_at(self.nodes@, i) && #[trigger] dep_at(self.nodes@, i, d) implies self.sub_contains(
            d as int,
            i as usize,
        ) by {
            assert(clean_expr_at(pre.nodes@, i));
            assert(self.nodes@[i] == pre.nodes@[i]);
            assert(dep_at(pre.nodes@, i, d));
            assert(pre.sub_contains(d as int, i as usize));
            let k = choose|k: int|
                0 <= k < pre.sub_seq(d as int).len() && pre.sub_seq(d as int)[k] == i as usize;
            assert(self.sub_seq(d as int)[k] == i as usize);
        }
        assert forall|i: int, d: usize|
            clean_expr_at(self.nodes@, i) && #[trigger] dep_at(self.nodes@, i, d) && registered_at(
                self.nodes@,
                d as int,
            ) implies clean_at(self.nodes@, d as int) by {
            assert(clean_expr_at(pre.nodes@, i));
            assert(self.nodes@[i] == pre.nodes@[i]);
            assert(dep_at(pre.nodes@, i, d));
            assert(node_at(pre.nodes@, i).spec_cache() is Some);
            assert(node_at(pre.nodes@, i).spec_cache() == denote(pre.nodes@, i));
            lemma_denote_deps(pre.nodes@, i, d);
            assert(registered_at(pre.nodes@, d as int));
            assert(clean_at(pre.nodes@, d as int));
            assert(self.nodes@[d as int] == pre.nodes@[d as int]);
        }
        assert forall|i: int| #[trigger]
            clean_expr_at(self.nodes@, i) implies node_at(self.nodes@, i).spec_cache() == denote(
            self.nodes@,
            i,
        ) by {
            assert(clean_expr_at(pre.nodes@, i));
            assert(self.nodes@[i] == pre.nodes@[i]);
            assert(node_at(pre.nodes@, i).spec_cache() == denote(pre.nodes@, i));
            assert(denote(pre.nodes@, i) is Some);
            lemma_denote_extend(pre.nodes@, self.nodes@, i);
        }
    }

    /// Begins tracking a node: if its identity names an empty minted slot,
    /// the node is installed there; a foreign or already registered identity
    /// is left alone.  Idempotent.
    pub fn register(&mut self, data: ReactiveData)
        requires
            old(self).wf(),
            old(self).coherent(),
            data.wf(),
            data is Expr ==> !data.spec_is_clean(),
        ensures
            final(self).wf(),
            final(self).coherent(),
            final(self).subscriptions@ == old(self).subscriptions@,
            final(self).nodes@.len() == old(self).nodes@.len(),
            if (data.spec_uuid() as int) < old(self).nodes@.len() && !old(self).spec_registered(
                data.spec_uuid(),
            ) {
                final(self).nodes@ == old(self).nodes@.update(data.spec_uuid() as int, Some(data))
            } else {
                final(self).nodes@ == old(self).nodes@
            },
    {
        let id = data.uuid();
        if id < self.nodes.len() {
            if self.nodes[id].is_none() {
                self.nodes[id] = Some(data);
                proof {
                    assert forall|j: int|
                        0 <= j < self.nodes@.len() && #[trigger] clean_expr_at(self.nodes@, j)
                            implies clean_expr_at(old(self).nodes@, j) by {
                        if j == id {
                            assert(node_at(self.nodes@, j) == data);
                        } else {
                            assert(self.nodes@[j] == old(self).nodes@[j]);
                        }
                    }
                    self.lemma_extend_coherent(*old(self));
                }
            }
        }
    }

    /// Inserts `sink` into the subscriber set of `source` — set semantics, so
    /// duplicates collapse.  A no-op if `source` is not registered.
    pub fn subscribe(&mut self, source: usize, sink: usize)
        requires
            old(self).wf(),
        ensures
            final(self).wf(),
            subscribe_post(*old(self), *final(self), source, sink),
            old(self).coherent() ==> final(self).coherent(),
            forall|j: int, s: usize|
                #[trigger] old(self).sub_contains(j, s) ==> final(self).sub_contains(j, s),
    {
        if source < self.nodes.len() && self.nodes[source].is_some() {
            let present = contains_id(&self.subscriptions[source], sink);
            if !present {
                self.subscriptions[source].push(sink);
            }
        }
        proof {
            assert forall|j: int, s: usize|
                #[trigger] old(self).sub_contains(j, s) implies self.sub_contains(j, s) by {
                let k = choose|k: int|
                    0 <= k < old(self).sub_seq(j).len() && old(self).sub_seq(j)[k] == s;
                assert(self.sub_seq(j)[k] == s);
            }
            if old(self).coherent() {
                assert forall|j: int|
                    0 <= j < old(self).subscriptions@.len() implies old(self).sub_seq(j).len() <= (
                #[trigger] self.sub_seq(j)).len() && (forall|k: int|
                        0 <= k < old(self).sub_seq(j).len() ==> self.sub_seq(j)[k] == old(
                            self,
                        ).sub_seq(j)[k]) by {}
                self.lemma_extend_coherent(*old(self));
            }
        }
    }
}

/// The exact effect of [`Reactor::subscribe`]: the sink joins the source's
/// subscriber set if the source is registered and the edge is new; otherwise
/// nothing changes.  Nodes are never touched.
pub open spec fn subscribe_post(pre: Reactor, post: Reactor, source: usize, sink: usize) -> bool {
    &&& post.nodes@ == pre.nodes@
    &&& post.subscriptions@.len() == pre.subscriptions@.len()
    &&& forall|j: int|
        0 <= j < pre.subscriptions@.len() && j != source ==> post.subscriptions@[j] == #[trigger] pre.subscriptions@[j]
    &&& if pre.spec_registered(source) && !pre.sub_seq(source as int).contains(sink) {
        post.sub_seq(source as int) == pre.sub_seq(source as int).push(sink)
    } else {
        post.subscriptions@ == pre.subscriptions@
    }
}

/// The effect of a dirty broadcast from `source`.
///
/// Only dirty flags of derived nodes change, and only from clean to dirty;
/// values, caches, rules, run counters and subscriptions stay put, so no
/// node's denotation moves.  Every clean derived subscriber reachable
/// through the clean frontier goes dirty: in particular every registered
/// derived subscriber of `source` is dirty afterwards, and no clean derived
/// node is left reading a dirty one.  Failure happens exactly when some
/// propagation path reaches a registered source node; the first one found is
/// named in the error, and the derived subscribers are still told first, so
/// only the impossible marking of the source itself is abandoned.
pub open spec fn broadcast_post(
    pre: Reactor,
    post: Reactor,
    source: usize,
    r: Result<(), ReactorError>,
) -> bool {
    &&& post.subscriptions@ == pre.subscriptions@
    &&& post.nodes@.len() == pre.nodes@.len()
    &&& forall|j: int|
        0 <= j < pre.nodes@.len() ==> #[trigger] dirty_step(pre.nodes@[j], post.nodes@[j])
    &&& forall|k: int| #[trigger] denote(post.nodes@, k) == denote(pre.nodes@, k)
    &&& (caches_fresh(pre.nodes@) ==> caches_fresh(post.nodes@))
    &&& (pre.edges_cover() ==> post.edges_cover())
    &&& deps_clean(post.nodes@)
    &&& forall|s: usize|
        #[trigger] pre.sub_contains(source as int, s) && registered_at(pre.nodes@, s as int)
            && node_at(pre.nodes@, s as int) is Expr ==> !clean_at(post.nodes@, s as int)
    &&& (r is Err ==> exists|s: usize|
        registered_at(pre.nodes@, s as int) && node_at(pre.nodes@, s as int) is Value && r
            == Result::<(), ReactorError>::Err(ReactorError::SourceMarkedDirty { uuid: s }))
    &&& (r is Err <==> fatal_reachable(pre.nodes@, pre.subscriptions@, source))
    &&& forall|j: int| #![trigger post.nodes@[j]]
        0 <= j < pre.nodes@.len() && post.nodes@[j] != pre.nodes@[j] ==> clean_expr_at(
            pre.nodes@,
            j,
        ) && reaches(pre.nodes@, pre.subscriptions@, source, j as usize)
    &&& (!registered_at(pre.nodes@, source as int) ==> r is Ok && post.nodes@ == pre.nodes@)
}

impl Reactor {
    /// Flagging nodes dirty moves no denotation, loses no cache freshness,
    /// and keeps every subscription edge covering its dependency.
    proof fn lemma_dirty_steps_preserve(pre: Reactor, post: Reactor)
        requires
            pre.nodes@.len() == post.nodes@.len(),
            forall|j: int|
                0 <= j < pre.nodes@.len() ==> #[trigger] dirty_step(pre.nodes@[j], post.nodes@[j]),
            post.subscriptions@ == pre.subscriptions@,
        ensures
            forall|k: int| #[trigger] denote(post.nodes@, k) == denote(pre.nodes@, k),
            caches_fresh(pre.nodes@) ==> caches_fresh(post.nodes@),
            pre.edges_cover() ==> post.edges_cover(),
            forall|j: int|
                #[trigger] registered_at(post.nodes@, j) == registered_at(pre.nodes@, j),
            forall|j: int|
                0 <= j < post.nodes@.len() && #[trigger] clean_at(post.nodes@, j) ==> clean_at(
                    pre.nodes@,
                    j,
                ) && post.nodes@[j] == pre.nodes@[j],
            forall|j: int|
                0 <= j < post.nodes@.len() && #[trigger] clean_expr_at(post.nodes@, j)
                    ==> clean_expr_at(pre.nodes@, j) && post.nodes@[j] == pre.nodes@[j],
    {
        assert forall|j: int|
            0 <= j < pre.nodes@.len() implies #[trigger] same_computation(
            pre.nodes@[j],
            post.nodes@[j],
        ) by {
            assert(dirty_step(pre.nodes@[j], post.nodes@[j]));
        }
        assert forall|j: int| #[trigger]
            registered_at(post.nodes@, j) == registered_at(pre.nodes@, j) by {
            if 0 <= j < pre.nodes@.len() {
                assert(dirty_step(pre.nodes@[j], post.nodes@[j]));
            }
        }
        assert forall|k: int| #[trigger]
            denote(post.nodes@, k) == denote(pre.nodes@, k) by {
            lemma_denote_same_computation(pre.nodes@, post.nodes@, k);
        }
        assert forall|j: int|
            0 <= j < post.nodes@.len() && #[trigger] clean_at(post.nodes@, j) implies clean_at(
            pre.nodes@,
            j,
        ) && post.nodes@[j] == pre.nodes@[j] by {
            assert(dirty_step(pre.nodes@[j], post.nodes@[j]));
        }
        assert forall|j: int|
            0 <= j < post.nodes@.len() && #[trigger] clean_expr_at(post.nodes@, j)
            implies clean_expr_at(pre.nodes@, j) && post.nodes@[j] == pre.nodes@[j] by {
            assert(dirty_step(pre.nodes@[j], post.nodes@[j]));
        }
        if pre.edges_cover() {
            assert forall|i: int, d: usize|
                clean_expr_at(post.nodes@, i) && #[trigger] dep_at(post.nodes@, i, d)
                implies post.sub_contains(d as int, i as usize) by {
                assert(clean_expr_at(pre.nodes@, i));
                assert(dep_at(pre.nodes@, i, d));
                assert(pre.sub_contains(d as int, i as usize));
            }
        }
        if caches_fresh(pre.nodes@) {
            assert forall|i: int| #[trigger]
                clean_expr_at(post.nodes@, i) implies node_at(post.nodes@, i).spec_cache()
                == denote(post.nodes@, i) by {
                assert(clean_expr_at(pre.nodes@, i));
                assert(node_at(pre.nodes@, i).spec_cache() == denote(pre.nodes@, i));
            }
        }
    }

    /// Broadcasts dirtiness from `source`: every currently clean subscriber
    /// is flagged dirty, and so on recursively through its own subscribers.
    ///
    /// Propagation does not expand through nodes found already dirty: their
    /// own downstream was told when they went dirty, which bounds the walk by
    /// the clean frontier and keeps diamond-shaped graphs from being walked
    /// twice.  Unregistered subscribers are skipped.  Reaching a source node
    /// is fatal — nothing could ever clean it again — and is reported as an
    /// error naming the node; the remaining derived subscribers are still
    /// flagged first, so the failure spoils no other node's bookkeeping.
    #[verifier::loop_isolation(false)]
    pub fn broadcast_dirty(&mut self, source: usize) -> (r: Result<(), ReactorError>)
        requires
            old(self).wf(),
            old(self).edges_cover(),
            deps_clean_except(old(self).nodes@, source),
        ensures
            final(self).wf(),
            broadcast_post(*old(self), *final(self), source, r),
    {
        if source >= self.subscriptions.len() {
            proof {
                assert forall|i: int, d: usize|
                    clean_expr_at(self.nodes@, i) && #[trigger] dep_at(self.nodes@, i, d)
                        && registered_at(self.nodes@, d as int) implies clean_at(
                    self.nodes@,
                    d as int,
                ) by {
                    assert(d != source);
                }
                Self::lemma_dirty_steps_preserve(*self, *self);
                if fatal_reachable(self.nodes@, self.subscriptions@, source) {
                    let s = choose|s: usize|
                        #[trigger] reaches(self.nodes@, self.subscriptions@, source, s)
                            && registered_at(self.nodes@, s as int) && node_at(
                            self.nodes@,
                            s as int,
                        ) is Value;
                    let p = choose|p: Seq<usize>|
                        path_ok(self.nodes@, self.subscriptions@, source, p) && p.last() == s;
                    assert(subs_contain(self.subscriptions@, source as int, p[0]));
                    assert(false);
                }
            }
            return Ok(());
        }
        let mut work: Vec<usize> = clone_ids(&self.subscriptions[source]);
        let mut fatal_id: Option<usize> = None;
        proof {
            assert(work@ == self.sub_seq(source as int));
            assert forall|j: int, d: usize|
                clean_expr_at(self.nodes@, j) && #[trigger] dep_at(self.nodes@, j, d)
                    && registered_at(self.nodes@, d as int) && !clean_at(self.nodes@, d as int)
                implies work@.contains(j as usize) by {
                assert(d == source);
                assert(self.sub_contains(d as int, j as usize));
            }
            assert forall|t: int|
                0 <= t < work@.len() implies reaches(
                self.nodes@,
                self.subscriptions@,
                source,
                #[trigger] work@[t],
            ) by {
                let p = seq![work@[t]];
                assert(self.sub_seq(source as int)[t] == work@[t]);
                assert(self.sub_seq(source as int).contains(work@[t]));
                assert(subs_contain(self.subscriptions@, source as int, p[0]));
                assert(path_ok(self.nodes@, self.subscriptions@, source, p));
                assert(p.last() == work@[t]);
            }
        }
        while work.len() > 0
            invariant
                self.wf(),
                self.subscriptions@ == old(self).subscriptions@,
                self.nodes@.len() == old(self).nodes@.len(),
                forall|j: int|
                    0 <= j < old(self).nodes@.len() ==> #[trigger] dirty_step(
                        old(self).nodes@[j],
                        self.nodes@[j],
                    ),
                forall|j: int, d: usize|
                    clean_expr_at(self.nodes@, j) && #[trigger] dep_at(self.nodes@, j, d)
                        && registered_at(self.nodes@, d as int) && !clean_at(self.nodes@, d as int)
                        ==> work@.contains(j as usize),
                forall|d: int, s: usize|
                    0 <= d < old(self).nodes@.len() && (d == source as int || (clean_expr_at(
                        old(self).nodes@,
                        d,
                    ) && !clean_at(self.nodes@, d))) && #[trigger] old(self).sub_seq(d).contains(s)
                        && registered_at(self.nodes@, s as int) && clean_at(self.nodes@, s as int)
                        ==> work@.contains(s) || (node_at(self.nodes@, s as int) is Value
                        && fatal_id is Some),
                fatal_id is Some ==> {
                    &&& registered_at(old(self).nodes@, fatal_id.unwrap() as int)
                    &&& node_at(old(self).nodes@, fatal_id.unwrap() as int) is Value
                    &&& reaches(
                        old(self).nodes@,
                        old(self).subscriptions@,
                        source,
                        fatal_id.unwrap(),
                    )
                },
                forall|t: int|
                    0 <= t < work@.len() ==> reaches(
                        old(self).nodes@,
                        old(self).subscriptions@,
                        source,
                        #[trigger] work@[t],
                    ),
                forall|j: int| #![trigger self.nodes@[j]]
                    0 <= j < old(self).nodes@.len() && self.nodes@[j] != old(self).nodes@[j]
                        ==> clean_expr_at(old(self).nodes@, j) && reaches(
                        old(self).nodes@,
                        old(self).subscriptions@,
                        source,
                        j as usize,
                    ),
            decreases count_clean(self.nodes@), work@.len(),
        {
            let ghost w0 = work@;
            let id = work.pop().unwrap();
            proof {
                assert(w0.last() == id);
                assert(work@ == w0.drop_last());
            }
            if id < self.nodes.len() {
                match self.nodes[id] {
                    None => {
                        proof {
                            Self::lemma_pop_keeps_coverage(*self, *old(self), source, w0, work@, id, fatal_id is Some);
                        }
                    },
                    Some(ReactiveData::Value(v)) => {
                        // A source among the subscribers: the walk is fatal,
                        // but the remaining derived subscribers are still
                        // told before the error is reported, so bookkeeping
                        // for unrelated nodes stays sound.
                        if fatal_id.is_none() {
                            fatal_id = Some(v.uuid);
                        }
                        proof {
                            assert(dirty_step(
                                old(self).nodes@[id as int],
                                self.nodes@[id as int],
                            ));
                            assert(registered_at(old(self).nodes@, id as int));
                            assert(node_at(old(self).nodes@, id as int) is Value);
                            assert(v.uuid == id);
                            assert(w0[w0.len() - 1] == id);
                            assert(reaches(
                                old(self).nodes@,
                                old(self).subscriptions@,
                                source,
                                id,
                            ));
                            assert forall|t: int|
                                0 <= t < work@.len() implies reaches(
                                old(self).nodes@,
                                old(self).subscriptions@,
                                source,
                                #[trigger] work@[t],
                            ) by {
                                assert(work@[t] == w0[t]);
                            }
                            assert forall|j: int, d: usize|
                                clean_expr_at(self.nodes@, j) && #[trigger] dep_at(
                                    self.nodes@,
                                    j,
                                    d,
                                ) && registered_at(self.nodes@, d as int) && !clean_at(
                                    self.nodes@,
                                    d as int,
                                ) implies work@.contains(j as usize) by {
                                assert(w0.contains(j as usize));
                                assert(self.nodes.len() == self.nodes@.len());
                                assert(0 <= j < self.nodes@.len());
                                assert(node_at(self.nodes@, j) is Expr);
                                assert(node_at(self.nodes@, id as int) is Value);
                                assert(j != id as int);
                                assert(j as usize != id);
                                let k = choose|k: int| 0 <= k < w0.len() && w0[k] == j as usize;
                                assert(k < w0.len() - 1);
                                assert(work@[k] == j as usize);
                            }
                            assert forall|d: int, s: usize|
                                0 <= d < old(self).nodes@.len() && (d == source as int || (
                                clean_expr_at(old(self).nodes@, d) && !clean_at(
                                    self.nodes@,
                                    d,
                                ))) && #[trigger] old(self).sub_seq(d).contains(s)
                                    && registered_at(self.nodes@, s as int) && clean_at(
                                    self.nodes@,
                                    s as int,
                                ) implies work@.contains(s) || (node_at(
                                self.nodes@,
                                s as int,
                            ) is Value && fatal_id is Some) by {
                                if !(node_at(self.nodes@, s as int) is Value) {
                                    assert(w0.contains(s));
                                    assert(s != id) by {
                                        assert(node_at(self.nodes@, id as int) is Value);
                                    }
                                    let k = choose|k: int| 0 <= k < w0.len() && w0[k] == s;
                                    assert(k < w0.len() - 1);
                                    assert(work@[k] == s);
                                }
                            }
                        }
                    },
                    Some(ReactiveData::Expr(e)) => {
                        if e.clean && e.value.is_some() {
                            let ghost prev = *self;
                            self.nodes[id] = Some(
                                ReactiveData::Expr(
                                    ReactiveExpr {
                                        uuid: e.uuid,
                                        expr: e.expr,
                                        value: e.value,
                                        clean: false,
                                        recompute_count: e.recompute_count,
                                    },
                                ),
                            );
                            let mut extra = clone_ids(&self.subscriptions[id]);
                            proof {
                                assert(extra@ == self.sub_seq(id as int));
                            }
                            work.append(&mut extra);
                            proof {
                                Self::lemma_dirty_fanout(
                                    prev,
                                    *self,
                                    *old(self),
                                    source,
                                    w0,
                                    work@,
                                    id,
                                    fatal_id is Some,
                                );
                                assert forall|j: int|
                                    0 <= j < prev.nodes@.len() && #[trigger] clean_expr_at(
                                        self.nodes@,
                                        j,
                                    ) implies clean_expr_at(prev.nodes@, j) by {
                                    if j != id as int {
                                        assert(self.nodes@[j] == prev.nodes@[j]);
                                    }
                                }
                                lemma_count_clean_drop(prev.nodes@, self.nodes@, id as int);
                            }
                        } else {
                            proof {
                                Self::lemma_pop_keeps_coverage(
                                    *self,
                                    *old(self),
                                    source,
                                    w0,
                                    work@,
                                    id,
                                    fatal_id is Some,
                                );
                            }
                        }
                    },
                }
            } else {
                proof {
                    Self::lemma_pop_keeps_coverage(*self, *old(self), source, w0, work@, id, fatal_id is Some);
                }
            }
        }
        proof {
            Self::lemma_dirty_steps_preserve(*old(self), *self);
            assert forall|s: usize|
                #[trigger] old(self).sub_contains(source as int, s) && registered_at(
                    old(self).nodes@,
                    s as int,
                ) && node_at(old(self).nodes@, s as int) is Expr implies !clean_at(
                self.nodes@,
                s as int,
            ) by {
                assert(registered_at(self.nodes@, s as int));
                assert(old(self).sub_seq(source as int).contains(s));
                if clean_at(self.nodes@, s as int) {
                    assert(node_at(self.nodes@, s as int) is Value) by {
                        assert(dirty_step(
                            old(self).nodes@[s as int],
                            self.nodes@[s as int],
                        ));
                    }
                    assert(false);
                }
            }
        }
        match fatal_id {
            None => {
                proof {
                    if fatal_reachable(old(self).nodes@, old(self).subscriptions@, source) {
                        let fs = choose|fs: usize|
                            #[trigger] reaches(
                                old(self).nodes@,
                                old(self).subscriptions@,
                                source,
                                fs,
                            ) && registered_at(old(self).nodes@, fs as int) && node_at(
                                old(self).nodes@,
                                fs as int,
                            ) is Value;
                        let p = choose|p: Seq<usize>|
                            path_ok(old(self).nodes@, old(self).subscriptions@, source, p)
                                && p.last() == fs;
                        assert forall|d2: int, s: usize|
                            0 <= d2 < old(self).nodes@.len() && (d2 == source as int || (
                            clean_expr_at(old(self).nodes@, d2) && !clean_at(
                                self.nodes@,
                                d2,
                            ))) && #[trigger] old(self).sub_seq(d2).contains(s) && registered_at(
                                self.nodes@,
                                s as int,
                            ) implies !clean_at(self.nodes@, s as int) by {}
                        Self::lemma_exit_no_fatal(*old(self), *self, source, source, p);
                        assert(false);
                    }
                    if !registered_at(old(self).nodes@, source as int) {
                        assert(old(self).sub_seq(source as int).len() == 0);
                        assert forall|j: int|
                            0 <= j < old(self).nodes@.len() implies self.nodes@[j] == old(
                            self,
                        ).nodes@[j] by {
                            if self.nodes@[j] != old(self).nodes@[j] {
                                assert(reaches(
                                    old(self).nodes@,
                                    old(self).subscriptions@,
                                    source,
                                    j as usize,
                                ));
                                let p2 = choose|p2: Seq<usize>|
                                    path_ok(
                                        old(self).nodes@,
                                        old(self).subscriptions@,
                                        source,
                                        p2,
                                    ) && p2.last() == j as usize;
                                assert(subs_contain(
                                    old(self).subscriptions@,
                                    source as int,
                                    p2[0],
                                ));
                                assert(false);
                            }
                        }
                        assert(self.nodes@ =~= old(self).nodes@);
                    }
                }
                Ok(())
            },
            Some(u) => {
                proof {
                    assert(reaches(old(self).nodes@, old(self).subscriptions@, source, u));
                    assert(fatal_reachable(
                        old(self).nodes@,
                        old(self).subscriptions@,
                        source,
                    ));
                    let p2 = choose|p2: Seq<usize>|
                        path_ok(old(self).nodes@, old(self).subscriptions@, source, p2)
                            && p2.last() == u;
                    assert(subs_contain(old(self).subscriptions@, source as int, p2[0]));
                    assert(old(self).sub_seq(source as int).len() > 0);
                    assert(registered_at(old(self).nodes@, source as int));
                }
                Err(ReactorError::SourceMarkedDirty { uuid: u })
            },
        }
    }

    /// Popping a worklist entry that gets skipped — unregistered, already
    /// dirty, or out of range — keeps the walk's invariants: the popped
    /// identity had no obligation, and every other one stays put.
    proof fn lemma_pop_keeps_coverage(
        cur: Reactor,
        pre: Reactor,
        source: usize,
        w0: Seq<usize>,
        w1: Seq<usize>,
        id: usize,
        aborted: bool,
    )
        requires
            w0.len() > 0,
            w0.last() == id,
            w1 == w0.drop_last(),
            !clean_at(cur.nodes@, id as int),
            forall|j: int, d: usize|
                clean_expr_at(cur.nodes@, j) && #[trigger] dep_at(cur.nodes@, j, d)
                    && registered_at(cur.nodes@, d as int) && !clean_at(cur.nodes@, d as int)
                    ==> w0.contains(j as usize),
            forall|t: int|
                0 <= t < w0.len() ==> reaches(
                    pre.nodes@,
                    pre.subscriptions@,
                    source,
                    #[trigger] w0[t],
                ),
            forall|d: int, s: usize|
                0 <= d < pre.nodes@.len() && (d == source as int || (clean_expr_at(
                    pre.nodes@,
                    d,
                ) && !clean_at(cur.nodes@, d))) && #[trigger] pre.sub_seq(d).contains(s)
                    && registered_at(cur.nodes@, s as int) && clean_at(cur.nodes@, s as int)
                    ==> w0.contains(s) || (node_at(cur.nodes@, s as int) is Value && aborted),
        ensures
            forall|j: int, d: usize|
                clean_expr_at(cur.nodes@, j) && #[trigger] dep_at(cur.nodes@, j, d)
                    && registered_at(cur.nodes@, d as int) && !clean_at(cur.nodes@, d as int)
                    ==> w1.contains(j as usize),
            forall|t: int|
                0 <= t < w1.len() ==> reaches(
                    pre.nodes@,
                    pre.subscriptions@,
                    source,
                    #[trigger] w1[t],
                ),
            forall|d: int, s: usize|
                0 <= d < pre.nodes@.len() && (d == source as int || (clean_expr_at(
                    pre.nodes@,
                    d,
                ) && !clean_at(cur.nodes@, d))) && #[trigger] pre.sub_seq(d).contains(s)
                    && registered_at(cur.nodes@, s as int) && clean_at(cur.nodes@, s as int)
                    ==> w1.contains(s) || (node_at(cur.nodes@, s as int) is Value && aborted),
    {
        assert forall|j: int, d: usize|
            clean_expr_at(cur.nodes@, j) && #[trigger] dep_at(cur.nodes@, j, d) && registered_at(
                cur.nodes@,
                d as int,
            ) && !clean_at(cur.nodes@, d as int) implies w1.contains(j as usize) by {
            assert(w0.contains(j as usize));
            assert(cur.nodes.len() == cur.nodes@.len());
            assert(0 <= j < cur.nodes@.len());
            assert(clean_at(cur.nodes@, j));
            assert(j != id as int);
            assert(j as usize != id);
            let k = choose|k: int| 0 <= k < w0.len() && w0[k] == j as usize;
            assert(k < w0.len() - 1);
            assert(w1[k] == j as usize);
        }
        assert forall|t: int|
            0 <= t < w1.len() implies reaches(
            pre.nodes@,
            pre.subscriptions@,
            source,
            #[trigger] w1[t],
        ) by {
            assert(w1[t] == w0[t]);
        }
        assert forall|d: int, s: usize|
            0 <= d < pre.nodes@.len() && (d == source as int || (clean_expr_at(pre.nodes@, d)
                && !clean_at(cur.nodes@, d))) && #[trigger] pre.sub_seq(d).contains(s)
                && registered_at(cur.nodes@, s as int) && clean_at(cur.nodes@, s as int)
            implies w1.contains(s) || (node_at(cur.nodes@, s as int) is Value && aborted) by {
            if !(node_at(cur.nodes@, s as int) is Value && aborted) {
                assert(w0.contains(s));
                assert(s != id);
                let k = choose|k: int| 0 <= k < w0.len() && w0[k] == s;
                assert(k < w0.len() - 1);
                assert(w1[k] == s);
            }
        }
    }

    /// Dirtying one clean derived node and queueing its subscribers keeps the
    /// walk's invariants: the node's own obligations vanish, obligations
    /// through its (now dirty) identity are covered by the freshly queued
    /// subscribers — each of them reachable by extending a path to the node —
    /// and all remaining obligations stay queued.
    proof fn lemma_dirty_fanout(
        prev: Reactor,
        cur: Reactor,
        pre: Reactor,
        source: usize,
        w0: Seq<usize>,
        w2: Seq<usize>,
        id: usize,
        aborted: bool,
    )
        requires
            prev.wf(),
            cur.wf(),
            pre.wf(),
            pre.edges_cover(),
            prev.subscriptions@ == pre.subscriptions@,
            cur.subscriptions@ == pre.subscriptions@,
            prev.nodes@.len() == pre.nodes@.len(),
            cur.nodes@ == prev.nodes@.update(
                id as int,
                Some(
                    ReactiveData::Expr(
                        ReactiveExpr {
                            clean: false,
                            ..node_at(prev.nodes@, id as int)->Expr_0
                        },
                    ),
                ),
            ),
            0 <= (id as int) < prev.nodes@.len(),
            clean_expr_at(prev.nodes@, id as int),
            forall|j: int|
                0 <= j < pre.nodes@.len() ==> #[trigger] dirty_step(
                    pre.nodes@[j],
                    prev.nodes@[j],
                ),
            w0.len() > 0,
            w0.last() == id,
            w2 == w0.drop_last() + cur.sub_seq(id as int),
            forall|j: int, d: usize|
                clean_expr_at(prev.nodes@, j) && #[trigger] dep_at(prev.nodes@, j, d)
                    && registered_at(prev.nodes@, d as int) && !clean_at(prev.nodes@, d as int)
                    ==> w0.contains(j as usize),
            forall|t: int|
                0 <= t < w0.len() ==> reaches(
                    pre.nodes@,
                    pre.subscriptions@,
                    source,
                    #[trigger] w0[t],
                ),
            forall|d: int, s: usize|
                0 <= d < pre.nodes@.len() && (d == source as int || (clean_expr_at(
                    pre.nodes@,
                    d,
                ) && !clean_at(prev.nodes@, d))) && #[trigger] pre.sub_seq(d).contains(s)
                    && registered_at(prev.nodes@, s as int) && clean_at(prev.nodes@, s as int)
                    ==> w0.contains(s) || (node_at(prev.nodes@, s as int) is Value && aborted),
            forall|j: int| #![trigger prev.nodes@[j]]
                0 <= j < pre.nodes@.len() && prev.nodes@[j] != pre.nodes@[j] ==> clean_expr_at(
                    pre.nodes@,
                    j,
                ) && reaches(pre.nodes@, pre.subscriptions@, source, j as usize),
        ensures
            forall|j: int|
                0 <= j < pre.nodes@.len() ==> #[trigger] dirty_step(pre.nodes@[j], cur.nodes@[j]),
            forall|j: int, d: usize|
                clean_expr_at(cur.nodes@, j) && #[trigger] dep_at(cur.nodes@, j, d)
                    && registered_at(cur.nodes@, d as int) && !clean_at(cur.nodes@, d as int)
                    ==> w2.contains(j as usize),
            forall|t: int|
                0 <= t < w2.len() ==> reaches(
                    pre.nodes@,
                    pre.subscriptions@,
                    source,
                    #[trigger] w2[t],
                ),
            forall|d: int, s: usize|
                0 <= d < pre.nodes@.len() && (d == source as int || (clean_expr_at(
                    pre.nodes@,
                    d,
                ) && !clean_at(cur.nodes@, d))) && #[trigger] pre.sub_seq(d).contains(s)
                    && registered_at(cur.nodes@, s as int) && clean_at(cur.nodes@, s as int)
                    ==> w2.contains(s) || (node_at(cur.nodes@, s as int) is Value && aborted),
            forall|j: int| #![trigger cur.nodes@[j]]
                0 <= j < pre.nodes@.len() && cur.nodes@[j] != pre.nodes@[j] ==> clean_expr_at(
                    pre.nodes@,
                    j,
                ) && reaches(pre.nodes@, pre.subscriptions@, source, j as usize),
    {
        Self::lemma_dirty_steps_preserve(pre, prev);
        let nw = w0.drop_last();
        // The popped node was clean in the original table, and reachable.
        assert(prev.nodes@[id as int] == pre.nodes@[id as int]) by {
            assert(dirty_step(pre.nodes@[id as int], prev.nodes@[id as int]));
        }
        assert(clean_expr_at(pre.nodes@, id as int));
        assert(w0[w0.len() - 1] == id);
        assert(reaches(pre.nodes@, pre.subscriptions@, source, id));
        assert forall|j: int|
            0 <= j < pre.nodes@.len() implies #[trigger] dirty_step(
            pre.nodes@[j],
            cur.nodes@[j],
        ) by {
            if j == id as int {
            } else {
                assert(cur.nodes@[j] == prev.nodes@[j]);
                assert(dirty_step(pre.nodes@[j], prev.nodes@[j]));
            }
        }
        // Everything freshly queued extends the path that reached the node.
        assert forall|t: int|
            0 <= t < w2.len() implies reaches(
            pre.nodes@,
            pre.subscriptions@,
            source,
            #[trigger] w2[t],
        ) by {
            if t < nw.len() {
                assert(w2[t] == w0[t]);
            } else {
                let s = w2[t];
                assert(cur.sub_seq(id as int)[t - nw.len()] == s);
                assert(pre.sub_seq(id as int).contains(s));
                let q = choose|q: Seq<usize>|
                    path_ok(pre.nodes@, pre.subscriptions@, source, q) && q.last() == id;
                let q2 = q.push(s);
                assert(path_ok(pre.nodes@, pre.subscriptions@, source, q2)) by {
                    assert(q2[0] == q[0]);
                    assert forall|i: int| #![trigger q2[i]]
                        0 <= i < q2.len() - 1 implies clean_expr_at(pre.nodes@, q2[i] as int)
                        && subs_contain(pre.subscriptions@, q2[i] as int, q2[i + 1]) by {
                        if i < q.len() - 1 {
                            assert(q2[i] == q[i]);
                            assert(q2[i + 1] == q[i + 1]);
                        } else {
                            assert(q2[i] == q[i]);
                            assert(q[i] == q.last());
                            assert(q2[i + 1] == s);
                            assert(pre.nodes@.len() == pre.subscriptions@.len());
                            assert(subs_contain(pre.subscriptions@, id as int, s));
                        }
                    }
                }
                assert(q2.last() == s);
            }
        }
        // Obligations through any dependency stay queued or are newly queued.
        assert forall|j: int, d: usize|
            clean_expr_at(cur.nodes@, j) && #[trigger] dep_at(cur.nodes@, j, d) && registered_at(
                cur.nodes@,
                d as int,
            ) && !clean_at(cur.nodes@, d as int) implies w2.contains(j as usize) by {
            assert(cur.nodes.len() == cur.nodes@.len());
            assert(0 <= j < cur.nodes@.len());
            assert(j != id as int) by {
                assert(!clean_expr_at(cur.nodes@, id as int));
            }
            assert(j as usize != id);
            assert(cur.nodes@[j] == prev.nodes@[j]);
            assert(clean_expr_at(prev.nodes@, j));
            assert(dep_at(prev.nodes@, j, d));
            if d == id {
                assert(clean_expr_at(pre.nodes@, j)) by {
                    assert(dirty_step(pre.nodes@[j], prev.nodes@[j]));
                }
                assert(dep_at(pre.nodes@, j, d));
                assert(pre.sub_contains(d as int, j as usize));
                let k = choose|k: int|
                    0 <= k < pre.sub_seq(d as int).len() && pre.sub_seq(d as int)[k] == j as usize;
                assert(w2[nw.len() + k] == j as usize);
            } else {
                assert(registered_at(prev.nodes@, d as int));
                assert(!clean_at(prev.nodes@, d as int)) by {
                    assert(cur.nodes@[d as int] == prev.nodes@[d as int]);
                }
                assert(w0.contains(j as usize));
                let k = choose|k: int| 0 <= k < w0.len() && w0[k] == j as usize;
                assert(k < w0.len() - 1) by {
                    assert(w0.last() == id);
                }
                assert(w2[k] == j as usize);
            }
        }
        // Subscribers of the source and of every dirtied node stay queued.
        assert forall|d: int, s: usize|
            0 <= d < pre.nodes@.len() && (d == source as int || (clean_expr_at(pre.nodes@, d)
                && !clean_at(cur.nodes@, d))) && #[trigger] pre.sub_seq(d).contains(s)
                && registered_at(cur.nodes@, s as int) && clean_at(cur.nodes@, s as int)
            implies w2.contains(s) || (node_at(cur.nodes@, s as int) is Value && aborted) by {
            assert(s != id) by {
                assert(!clean_at(cur.nodes@, id as int));
            }
            assert(cur.nodes@[s as int] == prev.nodes@[s as int]);
            assert(registered_at(prev.nodes@, s as int));
            assert(clean_at(prev.nodes@, s as int));
            if !(node_at(cur.nodes@, s as int) is Value && aborted) {
                if d == id as int {
                    let k = choose|k: int|
                        0 <= k < pre.sub_seq(d).len() && pre.sub_seq(d)[k] == s;
                    assert(w2[nw.len() + k] == s);
                } else {
                    assert(!clean_at(prev.nodes@, d) || d == source as int) by {
                        if d != source as int {
                            assert(cur.nodes@[d] == prev.nodes@[d]);
                        }
                    }
                    assert(w0.contains(s));
                    let k = choose|k: int| 0 <= k < w0.len() && w0[k] == s;
                    assert(k < w0.len() - 1);
                    assert(w2[k] == s);
                }
            }
        }
        // The upper frame: only the popped node changed beyond what had.
        assert forall|j: int| #![trigger cur.nodes@[j]]
            0 <= j < pre.nodes@.len() && cur.nodes@[j] != pre.nodes@[j] implies clean_expr_at(
            pre.nodes@,
            j,
        ) && reaches(pre.nodes@, pre.subscriptions@, source, j as usize) by {
            if j != id as int {
                assert(cur.nodes@[j] == prev.nodes@[j]);
            }
        }
    }

    /// At a finished walk no obligation is left: starting from any node that
    /// is the source or went dirty, every propagation path ends off the
    /// registered sources — else its first entry would still be owed a visit.
    proof fn lemma_exit_no_fatal(pre: Reactor, post: Reactor, source: usize, d: usize, p: Seq<usize>)
        requires
            pre.subscriptions@.len() == pre.nodes@.len(),
            post.subscriptions@ == pre.subscriptions@,
            post.nodes@.len() == pre.nodes@.len(),
            0 <= (source as int) < pre.nodes@.len(),
            forall|j: int|
                0 <= j < pre.nodes@.len() ==> #[trigger] dirty_step(pre.nodes@[j], post.nodes@[j]),
            forall|d2: int, s: usize|
                0 <= d2 < pre.nodes@.len() && (d2 == source as int || (clean_expr_at(
                    pre.nodes@,
                    d2,
                ) && !clean_at(post.nodes@, d2))) && #[trigger] pre.sub_seq(d2).contains(s)
                    && registered_at(post.nodes@, s as int) ==> !clean_at(post.nodes@, s as int),
            d == source || ((d as int) < pre.nodes@.len() && clean_expr_at(pre.nodes@, d as int)
                && !clean_at(post.nodes@, d as int)),
            p.len() >= 1,
            subs_contain(pre.subscriptions@, d as int, p[0]),
            forall|i: int| #![trigger p[i]]
                0 <= i < p.len() - 1 ==> clean_expr_at(pre.nodes@, p[i] as int) && subs_contain(
                    pre.subscriptions@,
                    p[i] as int,
                    p[i + 1],
                ),
        ensures
            !(registered_at(pre.nodes@, p.last() as int) && node_at(
                pre.nodes@,
                p.last() as int,
            ) is Value),
        decreases p.len(),
    {
        let s0 = p[0];
        assert(pre.sub_seq(d as int).contains(s0));
        if p.len() == 1 {
            if registered_at(pre.nodes@, s0 as int) && node_at(pre.nodes@, s0 as int) is Value {
                assert(dirty_step(pre.nodes@[s0 as int], post.nodes@[s0 as int]));
                assert(post.nodes@[s0 as int] == pre.nodes@[s0 as int]);
                assert(registered_at(post.nodes@, s0 as int));
                assert(clean_at(post.nodes@, s0 as int));
                assert(false);
            }
        } else {
            assert(clean_expr_at(pre.nodes@, s0 as int));
            assert(registered_at(pre.nodes@, s0 as int));
            assert(dirty_step(pre.nodes@[s0 as int], post.nodes@[s0 as int]));
            assert(registered_at(post.nodes@, s0 as int));
            assert(!clean_at(post.nodes@, s0 as int));
            let p2 = p.subrange(1, p.len() as int);
            assert(p2.len() == p.len() - 1);
            assert(subs_contain(pre.subscriptions@, s0 as int, p2[0])) by {
                assert(p2[0] == p[1]);
            }
            assert forall|i: int| #![trigger p2[i]]
                0 <= i < p2.len() - 1 implies clean_expr_at(pre.nodes@, p2[i] as int)
                && subs_contain(pre.subscriptions@, p2[i] as int, p2[i + 1]) by {
                assert(p2[i] == p[i + 1]);
                assert(p2[i + 1] == p[i + 2]);
            }
            Self::lemma_exit_no_fatal(pre, post, source, s0, p2);
            assert(p2.last() == p.last());
        }
    }
}

/// The effect of a lazy read of node `id`.
///
/// The result is the node's denotation, over the table as it stood before
/// the call — which the call does not change, since a read touches no source
/// value and no rule.  A node that was clean is served from its cache and
/// the reactor is left exactly as it was: this is the memoization contract.
/// A dirty node is recomputed — its run counter steps once — after its
/// dependencies are brought up to date in turn; every node that was already
/// clean stays untouched, and subscription edges are only ever added.
pub open spec fn seek_post(pre: Reactor, post: Reactor, id: usize, r: Option<u64>) -> bool {
    &&& post.nodes@.len() == pre.nodes@.len()
    &&& post.subscriptions@.len() == pre.subscriptions@.len()
    &&& r == denote(pre.nodes@, id as int)
    &&& forall|k: int| #[trigger] denote(post.nodes@, k) == denote(pre.nodes@, k)
    &&& forall|j: int|
        0 <= j < pre.nodes@.len() ==> #[trigger] seek_step(pre.nodes@[j], post.nodes@[j])
    &&& forall|j: int|
        0 <= j < pre.nodes@.len() && #[trigger] clean_at(pre.nodes@, j) ==> post.nodes@[j]
            == pre.nodes@[j]
    &&& forall|j: int, s: usize| #[trigger] pre.sub_contains(j, s) ==> post.sub_contains(j, s)
    &&& (clean_at(pre.nodes@, id as int) ==> post == pre)
    &&& (!registered_at(pre.nodes@, id as int) ==> post == pre)
    &&& (r is Some ==> clean_at(post.nodes@, id as int))
    &&& (registered_at(pre.nodes@, id as int) && !clean_at(pre.nodes@, id as int) && r is Some
        ==> {
        &&& node_at(post.nodes@, id as int) is Expr
        &&& node_at(post.nodes@, id as int).spec_recompute_count() == u64_specs::wrapping_add(
            node_at(pre.nodes@, id as int).spec_recompute_count(),
            1,
        )
        &&& node_at(post.nodes@, id as int).spec_cache() == r
    })
    &&& forall|j: int| #![trigger post.nodes@[j]]
        0 <= j < pre.nodes@.len() && post.nodes@[j] != pre.nodes@[j] ==> touched(
            pre.nodes@,
            id as int,
            j,
        )
    &&& forall|j: int, s: usize|
        #[trigger] post.sub_contains(j, s) && !pre.sub_contains(j, s) ==> touched(
            pre.nodes@,
            id as int,
            s as int,
        ) && dep_at(pre.nodes@, s as int, j as usize)
}

impl Reactor {
    /// Lazy reads move no denotation and leave every clean node untouched.
    proof fn lemma_seek_steps_preserve(pre: Reactor, post: Reactor)
        requires
            pre.nodes@.len() == post.nodes@.len(),
            forall|j: int|
                0 <= j < pre.nodes@.len() ==> #[trigger] seek_step(pre.nodes@[j], post.nodes@[j]),
        ensures
            forall|k: int| #[trigger] denote(post.nodes@, k) == denote(pre.nodes@, k),
            forall|j: int|
                #[trigger] registered_at(post.nodes@, j) == registered_at(pre.nodes@, j),
            forall|j: int|
                0 <= j < pre.nodes@.len() && #[trigger] clean_at(pre.nodes@, j) ==> post.nodes@[j]
                    == pre.nodes@[j],
    {
        assert forall|j: int|
            0 <= j < pre.nodes@.len() implies #[trigger] same_computation(
            pre.nodes@[j],
            post.nodes@[j],
        ) by {
            assert(seek_step(pre.nodes@[j], post.nodes@[j]));
        }
        assert forall|k: int| #[trigger]
            denote(post.nodes@, k) == denote(pre.nodes@, k) by {
            lemma_denote_same_computation(pre.nodes@, post.nodes@, k);
        }
        assert forall|j: int| #[trigger]
            registered_at(post.nodes@, j) == registered_at(pre.nodes@, j) by {
            if 0 <= j < pre.nodes@.len() {
                assert(seek_step(pre.nodes@[j], post.nodes@[j]));
            }
        }
        assert forall|j: int|
            0 <= j < pre.nodes@.len() && #[trigger] clean_at(pre.nodes@, j) implies post.nodes@[j]
            == pre.nodes@[j] by {
            assert(seek_step(pre.nodes@[j], post.nodes@[j]));
        }
    }

    /// Reads dependency `d` on behalf of `reader`: brings `d` up to date and
    /// subscribes `reader` to it, so that future writes to `d` reach
    /// `reader`.  This is the automatic subscription discovery that happens
    /// whenever a derived node's rule reads another node.
    fn seek_dep(&mut self, d: usize, reader: usize) -> (r: Option<u64>)
        requires
            old(self).wf(),
            old(self).coherent(),
        ensures
            final(self).wf(),
            final(self).coherent(),
            final(self).nodes@.len() == old(self).nodes@.len(),
            final(self).subscriptions@.len() == old(self).subscriptions@.len(),
            r == denote(old(self).nodes@, d as int),
            forall|k: int| #[trigger] denote(final(self).nodes@, k) == denote(old(self).nodes@, k),
            forall|j: int|
                0 <= j < old(self).nodes@.len() ==> #[trigger] seek_step(
                    old(self).nodes@[j],
                    final(self).nodes@[j],
                ),
            forall|j: int|
                0 <= j < old(self).nodes@.len() && #[trigger] clean_at(old(self).nodes@, j)
                    ==> final(self).nodes@[j] == old(self).nodes@[j],
            forall|j: int, s: usize|
                #[trigger] old(self).sub_contains(j, s) ==> final(self).sub_contains(j, s),
            r is Some ==> clean_at(final(self).nodes@, d as int) && final(self).sub_contains(
                d as int,
                reader,
            ),
            forall|j: int| #![trigger final(self).nodes@[j]]
                0 <= j < old(self).nodes@.len() && final(self).nodes@[j] != old(self).nodes@[j]
                    ==> touched(old(self).nodes@, d as int, j),
            forall|j: int, s: usize|
                #[trigger] final(self).sub_contains(j, s) && !old(self).sub_contains(j, s) ==> (j
                    == d as int && s == reader && registered_at(old(self).nodes@, d as int)) || (
                touched(old(self).nodes@, d as int, s as int) && dep_at(
                    old(self).nodes@,
                    s as int,
                    j as usize,
                )),
        decreases d, 1int,
    {
        let r = self.seek(d);
        let ghost s1 = *self;
        self.subscribe(d, reader);
        proof {
            assert(self.nodes@ == s1.nodes@);
            assert forall|j: int, s: usize|
                #[trigger] self.sub_contains(j, s) && !old(self).sub_contains(j, s) implies (j
                == d as int && s == reader && registered_at(old(self).nodes@, d as int)) || (
            touched(old(self).nodes@, d as int, s as int) && dep_at(
                old(self).nodes@,
                s as int,
                j as usize,
            )) by {
                if s1.sub_contains(j, s) {
                } else {
                    if !(s1.spec_registered(d) && !s1.sub_seq(d as int).contains(reader)) {
                        assert(self.subscriptions@ == s1.subscriptions@);
                        assert(false);
                    }
                    if j != d as int {
                        assert(self.subscriptions@[j] == s1.subscriptions@[j]);
                        assert(false);
                    }
                    assert(self.sub_seq(d as int) == s1.sub_seq(d as int).push(reader));
                    let k = choose|k: int|
                        0 <= k < self.sub_seq(d as int).len() && self.sub_seq(d as int)[k] == s;
                    if k < s1.sub_seq(d as int).len() {
                        assert(s1.sub_seq(d as int)[k] == s);
                        assert(s1.sub_contains(j, s));
                        assert(false);
                    }
                    assert(s == reader);
                    assert(registered_at(old(self).nodes@, d as int));
                }
            }
            if r is Some {
                assert(clean_at(s1.nodes@, d as int));
                assert(registered_at(s1.nodes@, d as int));
                assert(s1.spec_registered(d));
                if !s1.sub_seq(d as int).contains(reader) {
                    assert(self.sub_seq(d as int) == s1.sub_seq(d as int).push(reader));
                    assert(self.sub_seq(d as int).last() == reader);
                } else {
                    assert(s1.sub_contains(d as int, reader));
                }
            }
        }
        r
    }

    /// Returns the fresh value of node `id` without creating a subscription.
    ///
    /// A clean node is served from its cache without running its rule — the
    /// rule runs at most once between any two invalidations.  A dirty
    /// derived node first brings its dependencies up to date (subscribing
    /// itself to each), runs its rule once, caches the result and comes back
    /// clean.  An unregistered identity, or a rule that reads one, yields
    /// nothing and changes nothing.
    pub fn seek(&mut self, id: usize) -> (r: Option<u64>)
        requires
            old(self).wf(),
            old(self).coherent(),
        ensures
            final(self).wf(),
            final(self).coherent(),
            seek_post(*old(self), *final(self), id, r),
        decreases id, 0int,
    {
        if id >= self.nodes.len() {
            return None;
        }
        match self.nodes[id] {
            None => None,
            Some(ReactiveData::Value(v)) => {
                proof {
                    assert(clean_at(self.nodes@, id as int));
                }
                Some(v.value)
            },
            Some(ReactiveData::Expr(e)) => {
                if e.clean && e.value.is_some() {
                    proof {
                        assert(clean_expr_at(self.nodes@, id as int));
                        assert(node_at(self.nodes@, id as int).spec_cache() == denote(
                            self.nodes@,
                            id as int,
                        ));
                    }
                    e.value
                } else {
                    proof {
                        assert(self.nodes@[id as int].unwrap() == ReactiveData::Expr(e));
                        assert(e.uuid == id);
                        assert(e.expr.deps_below(id as int));
                        assert(!clean_at(self.nodes@, id as int));
                    }
                    let ghost p0 = *self;
                    let computed: Option<u64> = match e.expr {
                        Expr::Const(k) => Some(k),
                        Expr::Get(d) => {
                            proof {
                                assert(e.expr.is_dep(d));
                                assert((d as int) < id as int);
                            }
                            let rd = self.seek_dep(d, id);
                            proof {
                                assert(touched(p0.nodes@, id as int, id as int));
                                assert(dep_at(p0.nodes@, id as int, d));
                                assert forall|j: int| #![trigger self.nodes@[j]]
                                    0 <= j < p0.nodes@.len() && self.nodes@[j] != p0.nodes@[j]
                                    implies touched(p0.nodes@, id as int, j) by {
                                    assert(touched(p0.nodes@, d as int, j));
                                }
                                assert forall|j2: int, s: usize|
                                    #[trigger] self.sub_contains(j2, s) && !p0.sub_contains(
                                        j2,
                                        s,
                                    ) implies touched(p0.nodes@, id as int, s as int) && dep_at(
                                    p0.nodes@,
                                    s as int,
                                    j2 as usize,
                                ) by {
                                    if j2 == d as int && s == id && registered_at(
                                        p0.nodes@,
                                        d as int,
                                    ) {
                                        assert(touched(p0.nodes@, id as int, id as int));
                                        assert(self.subscriptions.len()
                                            == self.subscriptions@.len());
                                        assert(j2 as usize == d);
                                    } else {
                                        assert(touched(p0.nodes@, d as int, s as int));
                                    }
                                }
                            }
                            rd
                        },
                        Expr::Add(d1, d2) => {
                            proof {
                                assert(e.expr.is_dep(d1));
                                assert(e.expr.is_dep(d2));
                                assert((d1 as int) < id as int);
                                assert((d2 as int) < id as int);
                            }
                            let r1 = self.seek_dep(d1, id);
                            let ghost sa = *self;
                            let r2 = self.seek_dep(d2, id);
                            proof {
                                assert(r2 == denote(sa.nodes@, d2 as int));
                                assert(denote(sa.nodes@, d2 as int) == denote(
                                    p0.nodes@,
                                    d2 as int,
                                ));
                                if r1 is Some {
                                    assert(clean_at(sa.nodes@, d1 as int));
                                    assert(self.nodes@[d1 as int] == sa.nodes@[d1 as int]);
                                    assert(clean_at(self.nodes@, d1 as int));
                                    assert(sa.sub_contains(d1 as int, id));
                                    assert(self.sub_contains(d1 as int, id));
                                }
                                assert forall|j: int|
                                    0 <= j < p0.nodes@.len() implies #[trigger] seek_step(
                                    p0.nodes@[j],
                                    self.nodes@[j],
                                ) by {
                                    lemma_seek_step_trans(
                                        p0.nodes@[j],
                                        sa.nodes@[j],
                                        self.nodes@[j],
                                    );
                                }
                                assert forall|j: int|
                                    0 <= j < p0.nodes@.len() && #[trigger] clean_at(p0.nodes@, j)
                                    implies self.nodes@[j] == p0.nodes@[j] by {
                                    assert(sa.nodes@[j] == p0.nodes@[j]);
                                    assert(clean_at(sa.nodes@, j));
                                }
                                assert forall|j: int, s: usize|
                                    #[trigger] p0.sub_contains(j, s) implies self.sub_contains(
                                    j,
                                    s,
                                ) by {
                                    assert(sa.sub_contains(j, s));
                                }
                                assert forall|k: int| #[trigger]
                                    denote(self.nodes@, k) == denote(p0.nodes@, k) by {
                                    assert(denote(sa.nodes@, k) == denote(p0.nodes@, k));
                                    assert(denote(self.nodes@, k) == denote(sa.nodes@, k));
                                }
                                assert(touched(p0.nodes@, id as int, id as int));
                                assert(dep_at(p0.nodes@, id as int, d1));
                                assert(dep_at(p0.nodes@, id as int, d2));
                                assert forall|j: int| #![trigger self.nodes@[j]]
                                    0 <= j < p0.nodes@.len() && self.nodes@[j] != p0.nodes@[j]
                                    implies touched(p0.nodes@, id as int, j) by {
                                    if self.nodes@[j] != sa.nodes@[j] {
                                        assert(touched(sa.nodes@, d2 as int, j));
                                        lemma_touched_mono(p0.nodes@, sa.nodes@, d2 as int, j);
                                        assert(touched(p0.nodes@, d2 as int, j));
                                    } else {
                                        assert(sa.nodes@[j] != p0.nodes@[j]);
                                        assert(touched(p0.nodes@, d1 as int, j));
                                    }
                                }
                                assert forall|j2: int, s: usize|
                                    #[trigger] self.sub_contains(j2, s) && !p0.sub_contains(
                                        j2,
                                        s,
                                    ) implies touched(p0.nodes@, id as int, s as int) && dep_at(
                                    p0.nodes@,
                                    s as int,
                                    j2 as usize,
                                ) by {
                                    assert(self.subscriptions.len() == self.subscriptions@.len());
                                    if sa.sub_contains(j2, s) {
                                        if j2 == d1 as int && s == id && registered_at(
                                            p0.nodes@,
                                            d1 as int,
                                        ) {
                                            assert(j2 as usize == d1);
                                        } else {
                                            assert(touched(p0.nodes@, d1 as int, s as int));
                                        }
                                    } else {
                                        if j2 == d2 as int && s == id && registered_at(
                                            sa.nodes@,
                                            d2 as int,
                                        ) {
                                            assert(j2 as usize == d2);
                                        } else {
                                            assert(touched(sa.nodes@, d2 as int, s as int));
                                            lemma_touched_mono(
                                                p0.nodes@,
                                                sa.nodes@,
                                                d2 as int,
                                                s as int,
                                            );
                                            assert(dep_at(sa.nodes@, s as int, j2 as usize));
                                            assert(seek_step(
                                                p0.nodes@[s as int],
                                                sa.nodes@[s as int],
                                            ));
                                            assert(dep_at(p0.nodes@, s as int, j2 as usize));
                                        }
                                    }
                                }
                            }
                            match (r1, r2) {
                                (Some(x), Some(y)) => Some(x.wrapping_add(y)),
                                _ => None,
                            }
                        },
                    };
                    let ghost p1 = *self;
                    proof {
                        assert(computed == denote(p0.nodes@, id as int));
                    }
                    match computed {
                        None => None,
                        Some(val) => {
                            self.nodes[id] = Some(
                                ReactiveData::Expr(
                                    ReactiveExpr {
                                        uuid: e.uuid,
                                        expr: e.expr,
                                        value: Some(val),
                                        clean: true,
                                        recompute_count: e.recompute_count.wrapping_add(1),
                                    },
                                ),
                            );
                            proof {
                                self.lemma_seek_store(p0, p1, e, id, val);
                            }
                            Some(val)
                        },
                    }
                }
            },
        }
    }
}

impl Reactor {
    /// Caching the freshly computed value of a dirty derived node — its
    /// dependencies brought up to date and subscribed to — restores full
    /// coherence and completes the lazy read.
    proof fn lemma_seek_store(self, p0: Reactor, p1: Reactor, e: ReactiveExpr, id: usize, val: u64)
        requires
            p0.wf(),
            p0.coherent(),
            p1.wf(),
            p1.coherent(),
            0 <= (id as int) < p0.nodes@.len(),
            p0.nodes@[id as int] == Some(ReactiveData::Expr(e)),
            e.uuid == id,
            !e.spec_is_clean(),
            p1.nodes@.len() == p0.nodes@.len(),
            p1.subscriptions@.len() == p0.subscriptions@.len(),
            forall|k: int| #[trigger] denote(p1.nodes@, k) == denote(p0.nodes@, k),
            forall|j: int|
                0 <= j < p0.nodes@.len() ==> #[trigger] seek_step(p0.nodes@[j], p1.nodes@[j]),
            forall|j: int|
                0 <= j < p0.nodes@.len() && #[trigger] clean_at(p0.nodes@, j) ==> p1.nodes@[j]
                    == p0.nodes@[j],
            forall|j: int, s: usize|
                #[trigger] p0.sub_contains(j, s) ==> p1.sub_contains(j, s),
            denote(p0.nodes@, id as int) == Some(val),
            forall|d: usize| #[trigger]
                e.expr.is_dep(d) ==> clean_at(p1.nodes@, d as int) && p1.sub_contains(
                    d as int,
                    id,
                ),
            self.nodes@ == p1.nodes@.update(
                id as int,
                Some(
                    ReactiveData::Expr(
                        ReactiveExpr {
                            uuid: e.uuid,
                            expr: e.expr,
                            value: Some(val),
                            clean: true,
                            recompute_count: u64_specs::wrapping_add(e.recompute_count, 1),
                        },
                    ),
                ),
            ),
            self.subscriptions@ == p1.subscriptions@,
            forall|j: int| #![trigger p1.nodes@[j]]
                0 <= j < p0.nodes@.len() && p1.nodes@[j] != p0.nodes@[j] ==> touched(
                    p0.nodes@,
                    id as int,
                    j,
                ),
            forall|j: int, s: usize|
                #[trigger] p1.sub_contains(j, s) && !p0.sub_contains(j, s) ==> touched(
                    p0.nodes@,
                    id as int,
                    s as int,
                ) && dep_at(p0.nodes@, s as int, j as usize),
        ensures
            self.wf(),
            self.coherent(),
            seek_post(p0, self, id, Some(val)),
    {
        let nodes1 = p1.nodes@;
        let nodesf = self.nodes@;
        assert(self.nodes.len() == nodesf.len());
        assert(e.expr.deps_below(id as int)) by {
            assert(p0.nodes@[id as int].unwrap().wf());
        }
        assert(!clean_at(p0.nodes@, id as int));
        // Well-formedness of the final table.
        assert forall|i: int|
            0 <= i < nodesf.len() && nodesf[i] is Some implies {
            &&& (#[trigger] nodesf[i]).unwrap().spec_uuid() == i
            &&& nodesf[i].unwrap().wf()
        } by {
            if i == id as int {
            } else {
                assert(nodesf[i] == nodes1[i]);
            }
        }
        // The store keeps every computation: only cache, flag and counter move.
        assert forall|j: int|
            0 <= j < nodesf.len() implies #[trigger] same_computation(nodes1[j], nodesf[j]) by {
            if j == id as int {
                assert(seek_step(p0.nodes@[j], nodes1[j]));
            } else {
                assert(nodesf[j] == nodes1[j]);
            }
        }
        assert forall|k: int| #[trigger]
            denote(nodesf, k) == denote(nodes1, k) by {
            lemma_denote_same_computation(nodes1, nodesf, k);
        }
        assert(denote(nodesf, id as int) == Some(val));
        // Registration never moves.
        assert forall|j: int| #[trigger]
            registered_at(nodesf, j) == registered_at(nodes1, j) by {
            if 0 <= j < nodesf.len() {
                if j == id as int {
                    assert(seek_step(p0.nodes@[j], nodes1[j]));
                } else {
                    assert(nodesf[j] == nodes1[j]);
                }
            }
        }
        // Caches stay fresh: the new cache is the denotation by construction.
        assert forall|i: int| #[trigger]
            clean_expr_at(nodesf, i) implies node_at(nodesf, i).spec_cache() == denote(
            nodesf,
            i,
        ) by {
            if i == id as int {
            } else {
                assert(nodesf[i] == nodes1[i]);
                assert(clean_expr_at(nodes1, i));
                assert(node_at(nodes1, i).spec_cache() == denote(nodes1, i));
            }
        }
        // Clean nodes still read only clean nodes.
        assert forall|i: int, d: usize|
            clean_expr_at(nodesf, i) && #[trigger] dep_at(nodesf, i, d) && registered_at(
                nodesf,
                d as int,
            ) implies clean_at(nodesf, d as int) by {
            if i == id as int {
                assert(e.expr.is_dep(d));
                assert((d as int) < id as int);
                assert(clean_at(nodes1, d as int));
                assert(nodesf[d as int] == nodes1[d as int]);
            } else {
                assert(nodesf[i] == nodes1[i]);
                assert(clean_expr_at(nodes1, i));
                assert(dep_at(nodes1, i, d));
                assert(registered_at(nodes1, d as int));
                assert(clean_at(nodes1, d as int));
                if d as int == id as int {
                    assert(clean_at(nodesf, d as int));
                } else {
                    assert(nodesf[d as int] == nodes1[d as int]);
                }
            }
        }
        // Every clean node is still subscribed to its dependencies.
        assert forall|i: int, d: usize|
            clean_expr_at(nodesf, i) && #[trigger] dep_at(nodesf, i, d) implies self.sub_contains(
            d as int,
            i as usize,
        ) by {
            if i == id as int {
                assert(e.expr.is_dep(d));
                assert(p1.sub_contains(d as int, id));
                assert(i as usize == id);
            } else {
                assert(nodesf[i] == nodes1[i]);
                assert(clean_expr_at(nodes1, i));
                assert(dep_at(nodes1, i, d));
                assert(p1.sub_contains(d as int, i as usize));
            }
        }
        // The whole call is one lazy read step on every slot.
        assert forall|j: int|
            0 <= j < p0.nodes@.len() implies #[trigger] seek_step(p0.nodes@[j], nodesf[j]) by {
            if j == id as int {
            } else {
                assert(nodesf[j] == nodes1[j]);
            }
        }
        assert forall|j: int|
            0 <= j < p0.nodes@.len() && #[trigger] clean_at(p0.nodes@, j) implies nodesf[j]
            == p0.nodes@[j] by {
            assert(j != id as int);
            assert(nodesf[j] == nodes1[j]);
        }
        assert forall|k: int| #[trigger]
            denote(nodesf, k) == denote(p0.nodes@, k) by {
            assert(denote(nodes1, k) == denote(p0.nodes@, k));
        }
        assert forall|j: int, s: usize|
            #[trigger] p0.sub_contains(j, s) implies self.sub_contains(j, s) by {
            assert(p1.sub_contains(j, s));
        }
        assert(touched(p0.nodes@, id as int, id as int));
        assert forall|j: int| #![trigger nodesf[j]]
            0 <= j < p0.nodes@.len() && nodesf[j] != p0.nodes@[j] implies touched(
            p0.nodes@,
            id as int,
            j,
        ) by {
            if j != id as int {
                assert(nodesf[j] == nodes1[j]);
            }
        }
        assert forall|j: int, s: usize|
            #[trigger] self.sub_contains(j, s) && !p0.sub_contains(j, s) implies touched(
            p0.nodes@,
            id as int,
            s as int,
        ) && dep_at(p0.nodes@, s as int, j as usize) by {
            assert(p1.sub_contains(j, s));
        }
    }
}

/// The effect of a write to node `source`.
///
/// If `source` is a registered source node, its value is replaced and
/// dirtiness is broadcast to its subscribers: flags of derived nodes go from
/// clean to dirty and nothing else moves — in particular no rule runs, no
/// cache changes and no run counter steps; recomputation is pull-based and
/// happens only at the next read.  On success every registered subscriber of
/// `source` is dirty afterwards.  Writing to an unregistered identity or to
/// a derived node changes nothing.  Failure means the broadcast reached a
/// source node, named in the error.
pub open spec fn write_post(
    pre: Reactor,
    post: Reactor,
    source: usize,
    value: u64,
    r: Result<(), ReactorError>,
) -> bool {
    &&& post.subscriptions@ == pre.subscriptions@
    &&& post.nodes@.len() == pre.nodes@.len()
    &&& if registered_at(pre.nodes@, source as int) && node_at(pre.nodes@, source as int)
        is Value {
        &&& post.nodes@[source as int] == Some(
            ReactiveData::Value(ReactiveValue { uuid: source, value }),
        )
        &&& forall|j: int|
            0 <= j < pre.nodes@.len() && j != source ==> #[trigger] dirty_step(
                pre.nodes@[j],
                post.nodes@[j],
            )
        &&& forall|s: usize|
            #[trigger] pre.sub_contains(source as int, s) && registered_at(pre.nodes@, s as int)
                && node_at(pre.nodes@, s as int) is Expr ==> !clean_at(post.nodes@, s as int)
        &&& (r is Err <==> fatal_reachable(pre.nodes@, pre.subscriptions@, source))
        &&& forall|j: int| #![trigger post.nodes@[j]]
            0 <= j < pre.nodes@.len() && j != source && post.nodes@[j] != pre.nodes@[j]
                ==> clean_expr_at(pre.nodes@, j) && reaches(
                pre.nodes@,
                pre.subscriptions@,
                source,
                j as usize,
            )
    } else {
        post == pre && r is Ok
    }
    &&& (r is Err ==> exists|s: usize|
        registered_at(pre.nodes@, s as int) && node_at(pre.nodes@, s as int) is Value && r
            == Result::<(), ReactorError>::Err(ReactorError::SourceMarkedDirty { uuid: s }))
}

/// The effect of flagging node `id` dirty by hand.
///
/// On a source node this is an invariant violation: the call fails with an
/// error naming the node and changes nothing.  On a derived node the flag is
/// set (idempotently) and dirtiness is broadcast to its subscribers, exactly
/// as a write would.  An unregistered identity is a silent no-op.
pub open spec fn mark_dirty_post(
    pre: Reactor,
    post: Reactor,
    id: usize,
    r: Result<(), ReactorError>,
) -> bool {
    &&& post.subscriptions@ == pre.subscriptions@
    &&& post.nodes@.len() == pre.nodes@.len()
    &&& forall|j: int|
        0 <= j < pre.nodes@.len() ==> #[trigger] dirty_step(pre.nodes@[j], post.nodes@[j])
    &&& forall|k: int| #[trigger] denote(post.nodes@, k) == denote(pre.nodes@, k)
    &&& (registered_at(pre.nodes@, id as int) && node_at(pre.nodes@, id as int) is Value ==> r
        == Result::<(), ReactorError>::Err(ReactorError::SourceMarkedDirty { uuid: id }) && post
        == pre)
    &&& (!registered_at(pre.nodes@, id as int) ==> r is Ok && post == pre)
    &&& (registered_at(pre.nodes@, id as int) && node_at(pre.nodes@, id as int) is Expr
        ==> !clean_at(post.nodes@, id as int))
    &&& (registered_at(pre.nodes@, id as int) && node_at(pre.nodes@, id as int) is Expr
        ==> forall|s: usize|
        #[trigger] pre.sub_contains(id as int, s) && registered_at(pre.nodes@, s as int)
            && node_at(pre.nodes@, s as int) is Expr ==> !clean_at(post.nodes@, s as int))
    &&& (registered_at(pre.nodes@, id as int) && node_at(pre.nodes@, id as int) is Expr ==> (r
        is Err <==> fatal_reachable(dirty_flagged(pre.nodes@, id), pre.subscriptions@, id)))
    &&& forall|j: int| #![trigger post.nodes@[j]]
        0 <= j < pre.nodes@.len() && j != id && post.nodes@[j] != pre.nodes@[j] ==> clean_expr_at(
            pre.nodes@,
            j,
        ) && reaches(dirty_flagged(pre.nodes@, id), pre.subscriptions@, id, j as usize)
    &&& (r is Err ==> exists|s: usize|
        registered_at(pre.nodes@, s as int) && node_at(pre.nodes@, s as int) is Value && r
            == Result::<(), ReactorError>::Err(ReactorError::SourceMarkedDirty { uuid: s }))
}

impl Reactor {
    /// Replaces the value of source node `source`, then broadcasts dirtiness
    /// from it.  No derived node recomputes here — invalidation is eager,
    /// recomputation lazy.
    pub fn write(&mut self, source: usize, value: u64) -> (r: Result<(), ReactorError>)
        requires
            old(self).wf(),
            old(self).coherent(),
        ensures
            final(self).wf(),
            write_post(*old(self), *final(self), source, value, r),
            final(self).coherent(),
    {
        if source >= self.nodes.len() {
            return Ok(());
        }
        match self.nodes[source] {
            Some(ReactiveData::Value(v)) => {
                let ghost p0 = *self;
                self.nodes[source] = Some(
                    ReactiveData::Value(ReactiveValue { uuid: v.uuid, value }),
                );
                let ghost pm = *self;
                proof {
                    assert(v.uuid == source);
                    assert(self.nodes.len() == self.nodes@.len());
                    assert forall|i: int, d: usize|
                        clean_expr_at(pm.nodes@, i) && #[trigger] dep_at(pm.nodes@, i, d)
                        implies pm.sub_contains(d as int, i as usize) by {
                        assert(i != source);
                        assert(pm.nodes@[i] == p0.nodes@[i]);
                        assert(clean_expr_at(p0.nodes@, i));
                        assert(dep_at(p0.nodes@, i, d));
                        assert(p0.sub_contains(d as int, i as usize));
                    }
                    assert forall|i: int, d: usize|
                        clean_expr_at(pm.nodes@, i) && #[trigger] dep_at(pm.nodes@, i, d)
                            && registered_at(pm.nodes@, d as int) && d != source implies clean_at(
                        pm.nodes@,
                        d as int,
                    ) by {
                        assert(i != source);
                        assert(pm.nodes@[i] == p0.nodes@[i]);
                        assert(clean_expr_at(p0.nodes@, i));
                        assert(dep_at(p0.nodes@, i, d));
                        assert(pm.nodes@[d as int] == p0.nodes@[d as int]);
                        assert(clean_at(p0.nodes@, d as int));
                    }
                }
                let res = self.broadcast_dirty(source);
                proof {
                    self.lemma_write_finish(p0, pm, source, value, res);
                }
                res
            },
            _ => Ok(()),
        }
    }

    /// After the broadcast that follows a write, the reactor is coherent
    /// again: every cache that stayed clean equals a denotation the write
    /// did not move, because anything downstream of the written source was
    /// flagged dirty.
    proof fn lemma_write_finish(
        self,
        p0: Reactor,
        pm: Reactor,
        source: usize,
        value: u64,
        res: Result<(), ReactorError>,
    )
        requires
            p0.wf(),
            p0.coherent(),
            pm.wf(),
            self.wf(),
            0 <= (source as int) < p0.nodes@.len(),
            p0.nodes@[source as int] is Some,
            node_at(p0.nodes@, source as int) is Value,
            pm.nodes@ == p0.nodes@.update(
                source as int,
                Some(ReactiveData::Value(ReactiveValue { uuid: source, value })),
            ),
            pm.subscriptions@ == p0.subscriptions@,
            pm.edges_cover(),
            broadcast_post(pm, self, source, res),
        ensures
            write_post(p0, self, source, value, res),
            self.coherent(),
    {
        assert(self.nodes.len() == self.nodes@.len());
        assert(self.nodes@[source as int] == pm.nodes@[source as int]) by {
            assert(dirty_step(pm.nodes@[source as int], self.nodes@[source as int]));
        }
        lemma_fatal_unmoved_by_value(p0.nodes@, pm.nodes@, p0.subscriptions@, source);
        assert(fatal_reachable(pm.nodes@, pm.subscriptions@, source) == fatal_reachable(
            p0.nodes@,
            p0.subscriptions@,
            source,
        ));
        assert forall|j: int| #![trigger self.nodes@[j]]
            0 <= j < p0.nodes@.len() && j != source && self.nodes@[j] != p0.nodes@[j]
            implies clean_expr_at(p0.nodes@, j) && reaches(
            p0.nodes@,
            p0.subscriptions@,
            source,
            j as usize,
        ) by {
            assert(pm.nodes@[j] == p0.nodes@[j]);
            assert(self.nodes@[j] != pm.nodes@[j]);
            assert(clean_expr_at(pm.nodes@, j));
            assert(reaches(pm.nodes@, pm.subscriptions@, source, j as usize));
            assert(reaches(pm.nodes@, p0.subscriptions@, source, j as usize) == reaches(
                p0.nodes@,
                p0.subscriptions@,
                source,
                j as usize,
            ));
        }
        assert forall|j: int|
            0 <= j < p0.nodes@.len() && j != source implies #[trigger] dirty_step(
            p0.nodes@[j],
            self.nodes@[j],
        ) by {
            assert(pm.nodes@[j] == p0.nodes@[j]);
            assert(dirty_step(pm.nodes@[j], self.nodes@[j]));
        }
        if res is Err {
            let s = choose|s: usize|
                registered_at(pm.nodes@, s as int) && node_at(pm.nodes@, s as int) is Value && res
                    == Result::<(), ReactorError>::Err(ReactorError::SourceMarkedDirty { uuid: s });
            assert(registered_at(p0.nodes@, s as int) && node_at(p0.nodes@, s as int) is Value) by {
                if s as int != source as int {
                    assert(pm.nodes@[s as int] == p0.nodes@[s as int]);
                }
            }
        }
        {
            // Derived subscribers of the source are dirty now.
            assert forall|s: usize|
                #[trigger] p0.sub_contains(source as int, s) && registered_at(
                    p0.nodes@,
                    s as int,
                ) && node_at(p0.nodes@, s as int) is Expr implies !clean_at(
                self.nodes@,
                s as int,
            ) by {
                assert(pm.sub_contains(source as int, s));
                assert(s as int != source as int);
                assert(pm.nodes@[s as int] == p0.nodes@[s as int]);
                assert(registered_at(pm.nodes@, s as int));
                assert(node_at(pm.nodes@, s as int) is Expr);
            }
            // Dependency order, for the preservation argument.
            assert forall|j: int, d: usize| #[trigger]
                dep_at(self.nodes@, j, d) implies (d as int) < j by {
                assert(self.nodes@[j].unwrap().wf());
                assert(node_at(self.nodes@, j).spec_uuid() == j);
                match node_at(self.nodes@, j) {
                    ReactiveData::Value(_) => {},
                    ReactiveData::Expr(e) => {
                        assert(e.expr.is_dep(d));
                        assert(e.expr.deps_below(e.uuid as int));
                    },
                }
            }
            // Only the source's value moved, computation-wise.
            assert forall|j: int|
                0 <= j < p0.nodes@.len() && j != source implies #[trigger] same_computation(
                p0.nodes@[j],
                self.nodes@[j],
            ) by {
                assert(dirty_step(p0.nodes@[j], self.nodes@[j]));
            }
            // No node that stayed clean reads the written source, and all its
            // dependencies stayed clean with it.
            assert forall|j: int, d: usize|
                clean_expr_at(self.nodes@, j) && #[trigger] dep_at(self.nodes@, j, d) implies d
                != source && (registered_at(self.nodes@, d as int) ==> clean_at(
                self.nodes@,
                d as int,
            )) by {
                assert(0 <= j < self.nodes@.len());
                assert(dirty_step(pm.nodes@[j], self.nodes@[j]));
                assert(clean_expr_at(pm.nodes@, j));
                assert(self.nodes@[j] == pm.nodes@[j]);
                assert(j != source as int);
                assert(pm.nodes@[j] == p0.nodes@[j]);
                assert(clean_expr_at(p0.nodes@, j));
                if d == source {
                    assert(dep_at(p0.nodes@, j, d));
                    assert(p0.sub_contains(source as int, j as usize));
                    assert(pm.sub_contains(source as int, j as usize));
                    assert(registered_at(pm.nodes@, j));
                    assert(node_at(pm.nodes@, j) is Expr);
                    assert((j as usize) as int == j);
                    assert(!clean_at(self.nodes@, j));
                    assert(false);
                }
            }
            // Every surviving cache still holds its node's denotation.
            assert forall|i: int| #[trigger]
                clean_expr_at(self.nodes@, i) implies node_at(self.nodes@, i).spec_cache()
                == denote(self.nodes@, i) by {
                lemma_denote_write_preserved(p0.nodes@, self.nodes@, source, i);
                assert(dirty_step(pm.nodes@[i], self.nodes@[i]));
                assert(clean_expr_at(pm.nodes@, i));
                assert(self.nodes@[i] == pm.nodes@[i]);
                assert(i != source as int);
                assert(pm.nodes@[i] == p0.nodes@[i]);
                assert(clean_expr_at(p0.nodes@, i));
                assert(node_at(p0.nodes@, i).spec_cache() == denote(p0.nodes@, i));
            }
        }
    }

    /// Flags node `id` dirty and broadcasts to its subscribers.
    ///
    /// Calling this on a source node is an invariant violation — a source
    /// depends on nothing, so nothing would ever clean it again — and fails
    /// with an error naming the node, leaving the reactor untouched.
    pub fn mark_dirty(&mut self, id: usize) -> (r: Result<(), ReactorError>)
        requires
            old(self).wf(),
            old(self).coherent(),
        ensures
            final(self).wf(),
            mark_dirty_post(*old(self), *final(self), id, r),
            final(self).coherent(),
    {
        if id >= self.nodes.len() {
            return Ok(());
        }
        match self.nodes[id] {
            None => Ok(()),
            Some(ReactiveData::Value(_)) => Err(ReactorError::SourceMarkedDirty { uuid: id }),
            Some(ReactiveData::Expr(e)) => {
                let ghost p0 = *self;
                if e.clean && e.value.is_some() {
                    self.nodes[id] = Some(
                        ReactiveData::Expr(
                            ReactiveExpr {
                                uuid: e.uuid,
                                expr: e.expr,
                                value: e.value,
                                clean: false,
                                recompute_count: e.recompute_count,
                            },
                        ),
                    );
                }
                let ghost pm = *self;
                proof {
                    assert(e.uuid == id);
                    assert(self.nodes.len() == self.nodes@.len());
                    assert(node_at(p0.nodes@, id as int) == ReactiveData::Expr(e));
                    if e.clean && e.value.is_some() {
                        assert(clean_expr_at(p0.nodes@, id as int));
                        assert(pm.nodes@ =~= dirty_flagged(p0.nodes@, id));
                    } else {
                        assert(!clean_expr_at(p0.nodes@, id as int));
                        assert(pm.nodes@ == dirty_flagged(p0.nodes@, id));
                    }
                    assert(dirty_step(p0.nodes@[id as int], pm.nodes@[id as int]));
                    assert forall|j: int|
                        0 <= j < p0.nodes@.len() implies #[trigger] dirty_step(
                        p0.nodes@[j],
                        pm.nodes@[j],
                    ) by {
                        if j != id as int {
                            assert(pm.nodes@[j] == p0.nodes@[j]);
                        }
                    }
                    Self::lemma_dirty_steps_preserve(p0, pm);
                    assert forall|i: int, d: usize|
                        clean_expr_at(pm.nodes@, i) && #[trigger] dep_at(pm.nodes@, i, d)
                            && registered_at(pm.nodes@, d as int) && d != id implies clean_at(
                        pm.nodes@,
                        d as int,
                    ) by {
                        assert(clean_expr_at(p0.nodes@, i));
                        assert(pm.nodes@[i] == p0.nodes@[i]);
                        assert(dep_at(p0.nodes@, i, d));
                        assert(registered_at(p0.nodes@, d as int));
                        assert(clean_at(p0.nodes@, d as int));
                        assert(d as int != id as int);
                        assert(pm.nodes@[d as int] == p0.nodes@[d as int]);
                    }
                }
                let res = self.broadcast_dirty(id);
                proof {
                    assert(pm.nodes@ == dirty_flagged(p0.nodes@, id));
                    assert(pm.subscriptions@ == p0.subscriptions@);
                    assert forall|j: int| #![trigger self.nodes@[j]]
                        0 <= j < p0.nodes@.len() && j != id && self.nodes@[j] != p0.nodes@[j]
                        implies clean_expr_at(p0.nodes@, j) && reaches(
                        dirty_flagged(p0.nodes@, id),
                        p0.subscriptions@,
                        id,
                        j as usize,
                    ) by {
                        assert(pm.nodes@[j] == p0.nodes@[j]);
                        assert(self.nodes@[j] != pm.nodes@[j]);
                        assert(clean_expr_at(pm.nodes@, j));
                        assert(reaches(pm.nodes@, pm.subscriptions@, id, j as usize));
                    }
                    assert forall|j: int|
                        0 <= j < p0.nodes@.len() implies #[trigger] dirty_step(
                        p0.nodes@[j],
                        self.nodes@[j],
                    ) by {
                        lemma_dirty_step_trans(p0.nodes@[j], pm.nodes@[j], self.nodes@[j]);
                    }
                    Self::lemma_dirty_steps_preserve(p0, *self);
                    assert(!clean_at(pm.nodes@, id as int));
                    assert(!clean_at(self.nodes@, id as int)) by {
                        assert(dirty_step(pm.nodes@[id as int], self.nodes@[id as int]));
                    }
                    if res is Err {
                        let s = choose|s: usize|
                            registered_at(pm.nodes@, s as int) && node_at(pm.nodes@, s as int)
                                is Value && res == Result::<(), ReactorError>::Err(
                                ReactorError::SourceMarkedDirty { uuid: s },
                            );
                        assert(registered_at(p0.nodes@, s as int) && node_at(
                            p0.nodes@,
                            s as int,
                        ) is Value) by {
                            assert(dirty_step(p0.nodes@[s as int], pm.nodes@[s as int]));
                        }
                    }
                    {
                        assert forall|s: usize|
                            #[trigger] p0.sub_contains(id as int, s) && registered_at(
                                p0.nodes@,
                                s as int,
                            ) && node_at(p0.nodes@, s as int) is Expr implies !clean_at(
                            self.nodes@,
                            s as int,
                        ) by {
                            assert(pm.sub_contains(id as int, s));
                            assert(registered_at(pm.nodes@, s as int));
                            assert(node_at(pm.nodes@, s as int) is Expr) by {
                                if s as int != id as int {
                                    assert(pm.nodes@[s as int] == p0.nodes@[s as int]);
                                }
                            }
                        }
                        assert forall|i: int| #[trigger]
                            clean_expr_at(self.nodes@, i) implies node_at(
                            self.nodes@,
                            i,
                        ).spec_cache() == denote(self.nodes@, i) by {
                            assert(clean_expr_at(pm.nodes@, i));
                            assert(self.nodes@[i] == pm.nodes@[i]) by {
                                assert(dirty_step(pm.nodes@[i], self.nodes@[i]));
                            }
                            assert(clean_expr_at(p0.nodes@, i));
                            assert(pm.nodes@[i] == p0.nodes@[i]) by {
                                assert(dirty_step(p0.nodes@[i], pm.nodes@[i]));
                            }
                            assert(node_at(p0.nodes@, i).spec_cache() == denote(p0.nodes@, i));
                            assert(denote(self.nodes@, i) == denote(pm.nodes@, i));
                            assert(denote(pm.nodes@, i) == denote(p0.nodes@, i));
                        }
                    }
                }
                res
            },
        }
    }

    /// Registers `reader` as a subscriber of node `id` (idempotently), then
    /// behaves like [`Self::seek`]: the fresh value of `id` comes back and
    /// future writes reaching `id` will invalidate `reader`.
    pub fn read(&mut self, id: usize, reader: usize) -> (r: Option<u64>)
        requires
            old(self).wf(),
            old(self).coherent(),
        ensures
            final(self).wf(),
            final(self).coherent(),
            r == denote(old(self).nodes@, id as int),
            forall|k: int| #[trigger] denote(final(self).nodes@, k) == denote(old(self).nodes@, k),
            forall|j: int|
                0 <= j < old(self).nodes@.len() ==> #[trigger] seek_step(
                    old(self).nodes@[j],
                    final(self).nodes@[j],
                ),
            forall|j: int|
                0 <= j < old(self).nodes@.len() && #[trigger] clean_at(old(self).nodes@, j)
                    ==> final(self).nodes@[j] == old(self).nodes@[j],
            forall|j: int, s: usize|
                #[trigger] old(self).sub_contains(j, s) ==> final(self).sub_contains(j, s),
            old(self).spec_registered(id) ==> final(self).sub_contains(id as int, reader),
            r is Some ==> clean_at(final(self).nodes@, id as int),
            old(self).spec_registered(id) && clean_at(old(self).nodes@, id as int)
                ==> final(self).nodes@ == old(self).nodes@,
            old(self).spec_registered(id) && !clean_at(old(self).nodes@, id as int) && r is Some
                ==> {
                &&& node_at(final(self).nodes@, id as int) is Expr
                &&& node_at(final(self).nodes@, id as int).spec_recompute_count()
                    == u64_specs::wrapping_add(
                    node_at(old(self).nodes@, id as int).spec_recompute_count(),
                    1,
                )
                &&& node_at(final(self).nodes@, id as int).spec_cache() == r
            },
            !old(self).spec_registered(id) ==> final(self).nodes@ == old(self).nodes@
                && final(self).subscriptions@ == old(self).subscriptions@,
            forall|j: int| #![trigger final(self).nodes@[j]]
                0 <= j < old(self).nodes@.len() && final(self).nodes@[j] != old(self).nodes@[j]
                    ==> touched(old(self).nodes@, id as int, j),
            forall|j: int, s: usize|
                #[trigger] final(self).sub_contains(j, s) && !old(self).sub_contains(j, s) ==> (j
                    == id as int && s == reader && old(self).spec_registered(id)) || (touched(
                    old(self).nodes@,
                    id as int,
                    s as int,
                ) && dep_at(old(self).nodes@, s as int, j as usize)),
    {
        self.subscribe(id, reader);
        let ghost sm = *self;
        proof {
            if old(self).spec_registered(id) {
                if !old(self).sub_seq(id as int).contains(reader) {
                    assert(sm.sub_seq(id as int) == old(self).sub_seq(id as int).push(reader));
                    assert(sm.sub_seq(id as int).last() == reader);
                }
                assert(sm.sub_contains(id as int, reader));
            }
        }
        let r = self.seek(id);
        proof {
            assert(sm.nodes@ == old(self).nodes@);
            if !old(self).spec_registered(id) {
                assert(!registered_at(sm.nodes@, id as int));
                assert(*self == sm);
            }
            if old(self).spec_registered(id) && clean_at(old(self).nodes@, id as int) {
                assert(clean_at(sm.nodes@, id as int));
                assert(*self == sm);
            }
            assert forall|j: int, s: usize|
                #[trigger] self.sub_contains(j, s) && !old(self).sub_contains(j, s) implies (j
                == id as int && s == reader && old(self).spec_registered(id)) || (touched(
                old(self).nodes@,
                id as int,
                s as int,
            ) && dep_at(old(self).nodes@, s as int, j as usize)) by {
                if sm.sub_contains(j, s) {
                    if !(old(self).spec_registered(id) && !old(self).sub_seq(
                        id as int,
                    ).contains(reader)) {
                        assert(sm.subscriptions@ == old(self).subscriptions@);
                        assert(false);
                    }
                    if j != id as int {
                        assert(sm.subscriptions@[j] == old(self).subscriptions@[j]);
                        assert(false);
                    }
                    assert(sm.sub_seq(id as int) == old(self).sub_seq(id as int).push(reader));
                    let k = choose|k: int|
                        0 <= k < sm.sub_seq(id as int).len() && sm.sub_seq(id as int)[k] == s;
                    if k < old(self).sub_seq(id as int).len() {
                        assert(old(self).sub_seq(id as int)[k] == s);
                        assert(old(self).sub_contains(j, s));
                        assert(false);
                    }
                    assert(s == reader);
                } else {
                    assert(touched(sm.nodes@, id as int, s as int));
                    assert(dep_at(sm.nodes@, s as int, j as usize));
                }
            }
        }
        r
    }

    /// How often the rule of derived node `id` has run so far; nothing for a
    /// source node or an unregistered identity.
    pub fn recompute_count(&self, id: usize) -> (r: Option<u64>)
        ensures
            r == if registered_at(self.nodes@, id as int) && node_at(self.nodes@, id as int)
                is Expr {
                Some(node_at(self.nodes@, id as int).spec_recompute_count())
            } else {
                None::<u64>
            },
    {
        if id < self.nodes.len() {
            match self.nodes[id] {
                Some(ReactiveData::Expr(e)) => Some(e.recompute_count),
                _ => None,
            }
        } else {
            None
        }
    }

    /// The number of distinct subscribers of node `id`.
    pub fn subscriber_count(&self, id: usize) -> (r: usize)
        ensures
            r == if 0 <= (id as int) < self.subscriptions@.len() {
                self.sub_seq(id as int).len()
            } else {
                0
            },
    {
        if id < self.subscriptions.len() {
            self.subscriptions[id].len()
        } else {
            0
        }
    }

    /// Whether node `id` currently needs no recalculation: true for sources,
    /// and for derived nodes exactly when the flag is unset and a cache is
    /// present.  An unregistered identity is not clean.
    pub fn is_clean(&self, id: usize) -> (b: bool)
        ensures
            b == clean_at(self.nodes@, id as int),
    {
        if id < self.nodes.len() {
            match self.nodes[id] {
                Some(ReactiveData::Value(_)) => true,
                Some(ReactiveData::Expr(e)) => e.clean && e.value.is_some(),
                None => false,
            }
        } else {
            false
        }
    }
}

impl Default for Reactor {
    /// An empty reactor, as [`Reactor::new`] makes it.
    fn default() -> (reactor: Reactor)
        ensures
            reactor.wf(),
            reactor.coherent(),
            reactor.nodes@.len() == 0,
    {
        Reactor::new()
    }
}

/// Copies a list of identities.
fn clone_ids(v: &Vec<usize>) -> (r: Vec<usize>)
    ensures
        r@ == v@,
{
    let mut r: Vec<usize> = Vec::new();
    let mut i: usize = 0;
    while i < v.len()
        invariant
            0 <= i <= v@.len(),
            r@.len() == i,
            forall|k: int| 0 <= k < i ==> r@[k] == v@[k],
        decreases v@.len() - i,
    {
        r.push(v[i]);
        i = i + 1;
    }
    proof {
        assert(r@ =~= v@);
    }
    r
}

/// Whether `x` occurs in `v`.
fn contains_id(v: &Vec<usize>, x: usize) -> (b: bool)
    ensures
        b == v@.contains(x),
{
    let mut i: usize = 0;
    while i < v.len()
        invariant
            0 <= i <= v@.len(),
            forall|k: int| 0 <= k < i ==> v@[k] != x,
        decreases v@.len() - i,
    {
        if v[i] == x {
            return true;
        }
        i = i + 1;
    }
    false
}

} // verus!
