use vstd::prelude::*;

use crate::reactive::expr::Expr;
use crate::mark_dirty_post;
use crate::reactive::value::ReactiveValue;
use crate::reactive::ReactiveData;
use crate::seek_post;
use crate::semantics::clean_at;
use crate::semantics::clean_expr_at;
use crate::semantics::dirty_flagged;
use crate::semantics::fatal_reachable;
use crate::semantics::path_ok;
use crate::semantics::reaches;
use crate::semantics::subs_contain;
use crate::semantics::denote;
use crate::semantics::dirty_step;
use crate::semantics::lemma_denote_same_computation;
use crate::semantics::node_at;
use crate::semantics::registered_at;
use crate::semantics::same_computation;
use crate::subscribe_post;
use crate::write_post;
use crate::Reactor;
use crate::ReactorError;
use vstd::wrapping::u64_specs;

verus! {

/// Idempotent subscription, part one: however a well-formed reactor came
/// about, a sink occurs in a source's subscriber set at most once — two
/// positions holding the same sink are the same position.
pub proof fn lemma_subscription_edge_unique(
    r: Reactor,
    source: int,
    sink: usize,
    k1: int,
    k2: int,
)
    requires
        r.wf(),
        0 <= source < r.subscriptions@.len(),
        0 <= k1 < r.sub_seq(source).len(),
        0 <= k2 < r.sub_seq(source).len(),
        r.sub_seq(source)[k1] == sink,
        r.sub_seq(source)[k2] == sink,
    ensures
        k1 == k2,
{
    assert(r.subscriptions@[source]@.no_duplicates());
}

/// Idempotent subscription, part two: subscribing the same (source, sink)
/// pair a second time changes nothing at all, so any number of repetitions
/// leaves exactly the one edge the first call made.
pub proof fn lemma_subscribe_idempotent(
    r0: Reactor,
    r1: Reactor,
    r2: Reactor,
    source: usize,
    sink: usize,
)
    requires
        subscribe_post(r0, r1, source, sink),
        subscribe_post(r1, r2, source, sink),
    ensures
        r2.nodes@ == r1.nodes@,
        r2.subscriptions@ == r1.subscriptions@,
{
    if r0.spec_registered(source) && !r0.sub_seq(source as int).contains(sink) {
        assert(r1.sub_seq(source as int) == r0.sub_seq(source as int).push(sink));
        assert(r1.sub_seq(source as int).last() == sink);
        assert(r1.sub_seq(source as int).contains(sink));
        assert(r1.spec_registered(source));
    } else {
        assert(r1.subscriptions@ == r0.subscriptions@);
        if r0.spec_registered(source) {
            assert(r1.spec_registered(source));
            assert(r1.sub_seq(source as int) == r0.sub_seq(source as int));
        } else {
            assert(!r1.spec_registered(source));
        }
    }
}

/// Laziness, for dirty propagation: flagging nodes dirty — as a broadcast or
/// a manual mark does — runs no recomputation rule; every derived node keeps
/// its run count (and its cached value).
pub proof fn lemma_dirtying_runs_no_rule(pre: Reactor, post: Reactor)
    requires
        pre.nodes@.len() == post.nodes@.len(),
        forall|j: int|
            0 <= j < pre.nodes@.len() ==> #[trigger] dirty_step(pre.nodes@[j], post.nodes@[j]),
    ensures
        forall|j: int|
            0 <= j < pre.nodes@.len() && #[trigger] registered_at(pre.nodes@, j) ==> registered_at(
                post.nodes@,
                j,
            ) && node_at(post.nodes@, j).spec_recompute_count() == node_at(
                pre.nodes@,
                j,
            ).spec_recompute_count() && node_at(post.nodes@, j).spec_cache() == node_at(
                pre.nodes@,
                j,
            ).spec_cache(),
{
    assert forall|j: int|
        0 <= j < pre.nodes@.len() && #[trigger] registered_at(pre.nodes@, j) implies registered_at(
        post.nodes@,
        j,
    ) && node_at(post.nodes@, j).spec_recompute_count() == node_at(
        pre.nodes@,
        j,
    ).spec_recompute_count() && node_at(post.nodes@, j).spec_cache() == node_at(
        pre.nodes@,
        j,
    ).spec_cache() by {
        assert(dirty_step(pre.nodes@[j], post.nodes@[j]));
    }
}

/// Laziness, for writes: a write flags and replaces, but never computes.  No
/// derived node's rule runs; every run count survives the write unchanged.
pub proof fn lemma_write_runs_no_rule(
    pre: Reactor,
    post: Reactor,
    source: usize,
    value: u64,
    r: Result<(), ReactorError>,
)
    requires
        pre.wf(),
        write_post(pre, post, source, value, r),
    ensures
        forall|j: int|
            0 <= j < pre.nodes@.len() && #[trigger] registered_at(pre.nodes@, j) && node_at(
                pre.nodes@,
                j,
            ) is Expr ==> registered_at(post.nodes@, j) && node_at(
                post.nodes@,
                j,
            ).spec_recompute_count() == node_at(pre.nodes@, j).spec_recompute_count(),
{
    if registered_at(pre.nodes@, source as int) && node_at(pre.nodes@, source as int) is Value {
        assert forall|j: int|
            0 <= j < pre.nodes@.len() && #[trigger] registered_at(pre.nodes@, j) && node_at(
                pre.nodes@,
                j,
            ) is Expr implies registered_at(post.nodes@, j) && node_at(
            post.nodes@,
            j,
        ).spec_recompute_count() == node_at(pre.nodes@, j).spec_recompute_count() by {
            assert(j != source);
            assert(dirty_step(pre.nodes@[j], post.nodes@[j]));
        }
    }
}

/// Memoization: two consecutive lazy reads of the same node with nothing in
/// between run the rule at most once.  Once the first read yields a value,
/// the second returns the same value and leaves the reactor — run counts,
/// caches, flags and edges — exactly as the first left it.
pub proof fn lemma_seek_memoized(
    r0: Reactor,
    r1: Reactor,
    r2: Reactor,
    id: usize,
    v1: Option<u64>,
    v2: Option<u64>,
)
    requires
        seek_post(r0, r1, id, v1),
        seek_post(r1, r2, id, v2),
        v1 is Some,
    ensures
        v2 == v1,
        r2 == r1,
{
    assert(clean_at(r1.nodes@, id as int));
    assert(v2 == denote(r1.nodes@, id as int));
    assert(denote(r1.nodes@, id as int) == denote(r0.nodes@, id as int));
}

/// Propagation: a successful write of `value` into source `a`, followed by a
/// lazy read of any node `c`, yields exactly the denotation of `c` over the
/// updated graph — the one in which `a` holds `value` and everything else
/// stands as before.  Stale caches cannot leak into the result: whatever the
/// write invalidated was recomputed on the way.
pub proof fn lemma_write_then_seek(
    r0: Reactor,
    r1: Reactor,
    r2: Reactor,
    a: usize,
    value: u64,
    c: usize,
    v: Option<u64>,
)
    requires
        registered_at(r0.nodes@, a as int),
        node_at(r0.nodes@, a as int) is Value,
        write_post(r0, r1, a, value, Result::<(), ReactorError>::Ok(())),
        seek_post(r1, r2, c, v),
    ensures
        v == denote(
            r0.nodes@.update(a as int, Some(ReactiveData::Value(ReactiveValue { uuid: a, value }))),
            c as int,
        ),
{
    let nup = r0.nodes@.update(
        a as int,
        Some(ReactiveData::Value(ReactiveValue { uuid: a, value })),
    );
    assert forall|j: int|
        0 <= j < nup.len() implies #[trigger] same_computation(nup[j], r1.nodes@[j]) by {
        if j == a as int {
        } else {
            assert(nup[j] == r0.nodes@[j]);
            assert(dirty_step(r0.nodes@[j], r1.nodes@[j]));
        }
    }
    lemma_denote_same_computation(nup, r1.nodes@, c as int);
    assert(v == denote(r1.nodes@, c as int));
}

/// Diamond dependency: source `a` feeds the two derived nodes `b1` (which
/// doubles it) and `b2` (which mirrors it), and the combiner `c` adds both
/// arms.  One write to `a` followed by one read of `c` yields the correct
/// combination of the two fresh arms — three times the new value — never a
/// mix of one fresh and one stale arm.
pub proof fn lemma_diamond(
    r0: Reactor,
    r1: Reactor,
    r2: Reactor,
    a: usize,
    b1: usize,
    b2: usize,
    c: usize,
    value: u64,
    v: Option<u64>,
)
    requires
        r0.wf(),
        registered_at(r0.nodes@, a as int),
        node_at(r0.nodes@, a as int) is Value,
        registered_at(r0.nodes@, b1 as int),
        node_at(r0.nodes@, b1 as int) is Expr,
        node_at(r0.nodes@, b1 as int).spec_expr() == Expr::Add(a, a),
        registered_at(r0.nodes@, b2 as int),
        node_at(r0.nodes@, b2 as int) is Expr,
        node_at(r0.nodes@, b2 as int).spec_expr() == Expr::Get(a),
        registered_at(r0.nodes@, c as int),
        node_at(r0.nodes@, c as int) is Expr,
        node_at(r0.nodes@, c as int).spec_expr() == Expr::Add(b1, b2),
        write_post(r0, r1, a, value, Result::<(), ReactorError>::Ok(())),
        seek_post(r1, r2, c, v),
    ensures
        v == Some(u64_specs::wrapping_add(u64_specs::wrapping_add(value, value), value)),
{
    lemma_write_then_seek(r0, r1, r2, a, value, c, v);
    let nup = r0.nodes@.update(
        a as int,
        Some(ReactiveData::Value(ReactiveValue { uuid: a, value })),
    );
    assert(node_at(r0.nodes@, c as int).spec_uuid() == c as int) by {
        assert(r0.nodes@[c as int].unwrap().spec_uuid() == c as int);
    }
    assert((b1 as int) < c as int && (b2 as int) < c as int) by {
        assert(r0.nodes@[c as int].unwrap().wf());
        match node_at(r0.nodes@, c as int) {
            ReactiveData::Value(_) => {},
            ReactiveData::Expr(e) => {
                assert(e.expr.is_dep(b1));
                assert(e.expr.is_dep(b2));
                assert(e.expr.deps_below(e.uuid as int));
            },
        }
    }
    assert((a as int) < b1 as int) by {
        assert(r0.nodes@[b1 as int].unwrap().wf());
        assert(r0.nodes@[b1 as int].unwrap().spec_uuid() == b1 as int);
        match node_at(r0.nodes@, b1 as int) {
            ReactiveData::Value(_) => {},
            ReactiveData::Expr(e) => {
                assert(e.expr.is_dep(a));
                assert(e.expr.deps_below(e.uuid as int));
            },
        }
    }
    assert((a as int) < b2 as int) by {
        assert(r0.nodes@[b2 as int].unwrap().wf());
        assert(r0.nodes@[b2 as int].unwrap().spec_uuid() == b2 as int);
        match node_at(r0.nodes@, b2 as int) {
            ReactiveData::Value(_) => {},
            ReactiveData::Expr(e) => {
                assert(e.expr.is_dep(a));
                assert(e.expr.deps_below(e.uuid as int));
            },
        }
    }
    assert(a as int != b1 as int && a as int != b2 as int && a as int != c as int);
    assert(denote(nup, a as int) == Some(value));
    assert(nup[b1 as int] == r0.nodes@[b1 as int]);
    assert(nup[b2 as int] == r0.nodes@[b2 as int]);
    assert(nup[c as int] == r0.nodes@[c as int]);
    assert(denote(nup, b1 as int) == Some(u64_specs::wrapping_add(value, value)));
    assert(denote(nup, b2 as int) == Some(value));
    assert(denote(nup, c as int) == Some(
        u64_specs::wrapping_add(u64_specs::wrapping_add(value, value), value),
    ));
}

/// Success is owed wherever it can be had: in a graph where no registered
/// source node stands in any subscriber set — the shape every ordinary
/// construction has, since edges form when derived nodes read — no broadcast
/// ever reaches a source, so no broadcast is fatal.
pub proof fn lemma_no_source_sink_no_fatal(
    nodes: Seq<Option<ReactiveData>>,
    subs: Seq<Vec<usize>>,
    src: usize,
)
    requires
        forall|d: int, s: usize|
            #[trigger] subs_contain(subs, d, s) ==> !(registered_at(nodes, s as int) && node_at(
                nodes,
                s as int,
            ) is Value),
    ensures
        !fatal_reachable(nodes, subs, src),
{
    if fatal_reachable(nodes, subs, src) {
        let s = choose|s: usize|
            #[trigger] reaches(nodes, subs, src, s) && registered_at(nodes, s as int) && node_at(
                nodes,
                s as int,
            ) is Value;
        let p = choose|p: Seq<usize>| path_ok(nodes, subs, src, p) && p.last() == s;
        if p.len() == 1 {
            assert(subs_contain(subs, src as int, p[0]));
            assert(p[0] == s);
        } else {
            let i = p.len() - 2;
            assert(subs_contain(subs, p[i] as int, p[i + 1]));
            assert(p[i + 1] == s);
        }
        assert(false);
    }
}

/// A write into a source whose graph subscribes no source node anywhere is
/// owed its success: the broadcast cannot reach a source, so the write
/// cannot fail.
pub proof fn lemma_write_succeeds(
    pre: Reactor,
    post: Reactor,
    source: usize,
    value: u64,
    r: Result<(), ReactorError>,
)
    requires
        write_post(pre, post, source, value, r),
        registered_at(pre.nodes@, source as int),
        node_at(pre.nodes@, source as int) is Value,
        forall|d: int, s: usize|
            #[trigger] subs_contain(pre.subscriptions@, d, s) ==> !(registered_at(
                pre.nodes@,
                s as int,
            ) && node_at(pre.nodes@, s as int) is Value),
    ensures
        r is Ok,
{
    lemma_no_source_sink_no_fatal(pre.nodes@, pre.subscriptions@, source);
}

/// A write touches nothing it does not reach: every node with no
/// propagation path from the written source keeps its slot — flag, cache and
/// run count — exactly as it was.  Memoized reads of unrelated nodes keep
/// serving their cache across any number of such writes.
pub proof fn lemma_write_leaves_unrelated(
    pre: Reactor,
    post: Reactor,
    source: usize,
    value: u64,
    r: Result<(), ReactorError>,
    j: int,
)
    requires
        write_post(pre, post, source, value, r),
        0 <= j < pre.nodes@.len(),
        j != source,
        !reaches(pre.nodes@, pre.subscriptions@, source, j as usize),
    ensures
        post.nodes@[j] == pre.nodes@[j],
{
}

/// Marking an already invalidated derived node dirty again is a no-op for
/// every flag in the graph: the first successful mark left each of the
/// node's subscribers dirty, so the second finds no clean frontier and
/// changes no node.
pub proof fn lemma_mark_dirty_idempotent(
    r0: Reactor,
    r1: Reactor,
    r2: Reactor,
    id: usize,
    res1: Result<(), ReactorError>,
    res2: Result<(), ReactorError>,
)
    requires
        registered_at(r0.nodes@, id as int),
        node_at(r0.nodes@, id as int) is Expr,
        mark_dirty_post(r0, r1, id, res1),
        res1 is Ok,
        mark_dirty_post(r1, r2, id, res2),
    ensures
        r2.nodes@ == r1.nodes@,
        res2 is Ok,
{
    assert(dirty_step(r0.nodes@[id as int], r1.nodes@[id as int]));
    assert(registered_at(r1.nodes@, id as int));
    assert(node_at(r1.nodes@, id as int) is Expr);
    assert(!clean_at(r1.nodes@, id as int));
    assert(!clean_expr_at(r1.nodes@, id as int));
    assert(dirty_flagged(r1.nodes@, id) == r1.nodes@);
    // No subscriber of the node is still clean, so nothing is reachable.
    assert(r1.nodes.len() == r1.nodes@.len());
    assert forall|j: int| #![trigger r2.nodes@[j]]
        0 <= j < r1.nodes@.len() implies r2.nodes@[j] == r1.nodes@[j] by {
        if j == id {
            assert(dirty_step(r1.nodes@[j], r2.nodes@[j]));
        } else if r2.nodes@[j] != r1.nodes@[j] {
            assert(clean_expr_at(r1.nodes@, j));
            assert(reaches(dirty_flagged(r1.nodes@, id), r1.subscriptions@, id, j as usize));
            let p = choose|p: Seq<usize>|
                path_ok(r1.nodes@, r1.subscriptions@, id, p) && p.last() == j as usize;
            assert(subs_contain(r1.subscriptions@, id as int, p[0]));
            assert(r1.subscriptions@ == r0.subscriptions@);
            assert(r0.sub_contains(id as int, p[0]));
            assert(dirty_step(r0.nodes@[p[0] as int], r1.nodes@[p[0] as int]));
            if p.len() == 1 {
                assert(p[0] == j as usize);
                assert(registered_at(r1.nodes@, j));
                assert(registered_at(r0.nodes@, p[0] as int));
                assert(!clean_at(r1.nodes@, p[0] as int));
                assert(false);
            } else {
                assert(clean_expr_at(r1.nodes@, p[0] as int));
                assert(registered_at(r1.nodes@, p[0] as int));
                assert(registered_at(r0.nodes@, p[0] as int));
                assert(!clean_at(r1.nodes@, p[0] as int));
                assert(false);
            }
        }
    }
    assert(r2.nodes@ =~= r1.nodes@);
    if res2 is Err {
        assert(fatal_reachable(dirty_flagged(r1.nodes@, id), r1.subscriptions@, id));
        let s = choose|s: usize|
            #[trigger] reaches(dirty_flagged(r1.nodes@, id), r1.subscriptions@, id, s)
                && registered_at(dirty_flagged(r1.nodes@, id), s as int) && node_at(
                dirty_flagged(r1.nodes@, id),
                s as int,
            ) is Value;
        let p = choose|p: Seq<usize>|
            path_ok(r1.nodes@, r1.subscriptions@, id, p) && p.last() == s;
        assert(subs_contain(r1.subscriptions@, id as int, p[0]));
        assert(r1.subscriptions@ == r0.subscriptions@);
        assert(r0.sub_contains(id as int, p[0]));
        assert(dirty_step(r0.nodes@[p[0] as int], r1.nodes@[p[0] as int]));
        if p.len() == 1 {
            // A registered source sat in the node's own subscriber set, so
            // the first mark was already fatal: contradiction with success.
            assert(p[0] == s);
            assert(registered_at(r1.nodes@, s as int));
            assert(node_at(r1.nodes@, s as int) is Value);
            assert(registered_at(r0.nodes@, s as int));
            assert(node_at(r0.nodes@, s as int) is Value);
            let q = seq![s];
            let flagged = dirty_flagged(r0.nodes@, id);
            assert(subs_contain(r0.subscriptions@, id as int, q[0]));
            assert(path_ok(flagged, r0.subscriptions@, id, q));
            assert(q.last() == s);
            assert(reaches(flagged, r0.subscriptions@, id, s));
            assert(s as int != id as int);
            assert(registered_at(flagged, s as int) && node_at(flagged, s as int) is Value) by {
                if clean_expr_at(r0.nodes@, id as int) {
                    assert(flagged[s as int] == r0.nodes@[s as int]);
                }
            }
            assert(fatal_reachable(flagged, r0.subscriptions@, id));
            assert(false);
        } else {
            assert(clean_expr_at(r1.nodes@, p[0] as int));
            assert(registered_at(r1.nodes@, p[0] as int));
            assert(registered_at(r0.nodes@, p[0] as int));
            assert(node_at(r0.nodes@, p[0] as int) is Expr) by {
                assert(dirty_step(r0.nodes@[p[0] as int], r1.nodes@[p[0] as int]));
            }
            assert(!clean_at(r1.nodes@, p[0] as int));
            assert(false);
        }
    }
}

/// Fatal on illegal dirty: flagging a registered source node dirty yields
/// exactly the error naming that node, and the reactor is left untouched.
pub proof fn lemma_source_dirty_fatal(
    r0: Reactor,
    r1: Reactor,
    id: usize,
    r: Result<(), ReactorError>,
)
    requires
        mark_dirty_post(r0, r1, id, r),
        registered_at(r0.nodes@, id as int),
        node_at(r0.nodes@, id as int) is Value,
    ensures
        r == Result::<(), ReactorError>::Err(ReactorError::SourceMarkedDirty { uuid: id }),
        r1 == r0,
{
}

} // verus!
