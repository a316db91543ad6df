use vstd::prelude::*;

use crate::reactive::expr::Expr;
use crate::reactive::expr::ReactiveExpr;
use crate::reactive::ReactiveData;
use vstd::wrapping::u64_specs;

verus! {

/// Whether slot `id` of the node table holds a registered node.
pub open spec fn registered_at(nodes: Seq<Option<ReactiveData>>, id: int) -> bool {
    0 <= id < nodes.len() && nodes[id] is Some
}

/// The node registered at slot `id`.
pub open spec fn node_at(nodes: Seq<Option<ReactiveData>>, id: int) -> ReactiveData
    recommends
        registered_at(nodes, id),
{
    nodes[id].unwrap()
}

/// Whether slot `id` holds a node that is clean (sources always are).
pub open spec fn clean_at(nodes: Seq<Option<ReactiveData>>, id: int) -> bool {
    registered_at(nodes, id) && node_at(nodes, id).spec_is_clean()
}

/// Whether slot `id` holds a clean derived node.
pub open spec fn clean_expr_at(nodes: Seq<Option<ReactiveData>>, id: int) -> bool {
    registered_at(nodes, id) && node_at(nodes, id) is Expr && node_at(nodes, id).spec_is_clean()
}

/// Whether slot `id` holds a derived node whose rule reads node `d`.
pub open spec fn dep_at(nodes: Seq<Option<ReactiveData>>, id: int, d: usize) -> bool {
    registered_at(nodes, id) && node_at(nodes, id) is Expr && node_at(
        nodes,
        id,
    ).spec_expr().is_dep(d)
}

/// The mathematical value of node `id`: what a read of `id` must yield once
/// every stale cache on the way has been recomputed.
///
/// Sources denote their current value.  A derived node denotes its rule
/// applied to the denotations of its dependencies; caches and dirty flags do
/// not enter into it.  An unregistered identity, or a rule reading a node not
/// minted before its own, denotes nothing.
pub open spec fn denote(nodes: Seq<Option<ReactiveData>>, id: int) -> Option<u64>
    decreases id,
{
    if 0 <= id < nodes.len() {
        match nodes[id] {
            Option::None => Option::None,
            Option::Some(ReactiveData::Value(v)) => Option::Some(v.value),
            Option::Some(ReactiveData::Expr(e)) => match e.expr {
                Expr::Const(k) => Option::Some(k),
                Expr::Get(d) => if (d as int) < id {
                    denote(nodes, d as int)
                } else {
                    Option::None
                },
                Expr::Add(d1, d2) => if (d1 as int) < id && (d2 as int) < id {
                    if denote(nodes, d1 as int) is Some && denote(nodes, d2 as int) is Some {
                        Option::Some(
                            u64_specs::wrapping_add(
                                denote(nodes, d1 as int).unwrap(),
                                denote(nodes, d2 as int).unwrap(),
                            ),
                        )
                    } else {
                        Option::None
                    }
                } else {
                    Option::None
                },
            },
        }
    } else {
        Option::None
    }
}

/// Every clean derived node has clean dependencies: no stale cache sits
/// downstream of a change that has not been flagged.
pub open spec fn deps_clean(nodes: Seq<Option<ReactiveData>>) -> bool {
    forall|i: int, d: usize|
        clean_expr_at(nodes, i) && #[trigger] dep_at(nodes, i, d) && registered_at(nodes, d as int)
            ==> clean_at(nodes, d as int)
}

/// As [`deps_clean`], except that dependencies on node `src` are exempt:
/// the state of a dirty broadcast about to start from `src`.
pub open spec fn deps_clean_except(nodes: Seq<Option<ReactiveData>>, src: usize) -> bool {
    forall|i: int, d: usize|
        clean_expr_at(nodes, i) && #[trigger] dep_at(nodes, i, d) && registered_at(nodes, d as int)
            && d != src ==> clean_at(nodes, d as int)
}

/// Every clean derived node's cache holds exactly its denotation: serving the
/// cache is as good as recomputing.
pub open spec fn caches_fresh(nodes: Seq<Option<ReactiveData>>) -> bool {
    forall|i: int| #[trigger]
        clean_expr_at(nodes, i) ==> node_at(nodes, i).spec_cache() == denote(nodes, i)
}

/// A node that denotes something is registered, reads only registered nodes,
/// and all of them denote something as well.
pub proof fn lemma_denote_deps(nodes: Seq<Option<ReactiveData>>, id: int, d: usize)
    requires
        denote(nodes, id) is Some,
        dep_at(nodes, id, d),
    ensures
        (d as int) < id,
        registered_at(nodes, d as int),
        denote(nodes, d as int) is Some,
{
    let e = node_at(nodes, id);
    match e.spec_expr() {
        Expr::Const(_) => {
            assert(false);
        },
        Expr::Get(a) => {
            assert(denote(nodes, id) == denote(nodes, a as int));
        },
        Expr::Add(a, b) => {
            assert(denote(nodes, a as int) is Some);
            assert(denote(nodes, b as int) is Some);
        },
    }
    if !registered_at(nodes, d as int) {
        assert(denote(nodes, d as int) is None);
    }
}

/// Extending the node table — filling empty slots or appending new ones —
/// changes the denotation of no node that already denoted something.
pub proof fn lemma_denote_extend(
    n1: Seq<Option<ReactiveData>>,
    n2: Seq<Option<ReactiveData>>,
    id: int,
)
    requires
        n1.len() <= n2.len(),
        forall|j: int| 0 <= j < n1.len() && n1[j] is Some ==> n2[j] == #[trigger] n1[j],
        denote(n1, id) is Some,
    ensures
        denote(n2, id) == denote(n1, id),
    decreases id,
{
    assert(0 <= id < n1.len());
    assert(n1[id] is Some);
    assert(n2[id] == n1[id]);
    match n1[id].unwrap() {
        ReactiveData::Value(_) => {},
        ReactiveData::Expr(e) => match e.expr {
            Expr::Const(_) => {},
            Expr::Get(d) => {
                assert((d as int) < id);
                lemma_denote_extend(n1, n2, d as int);
            },
            Expr::Add(d1, d2) => {
                assert((d1 as int) < id && (d2 as int) < id);
                lemma_denote_extend(n1, n2, d1 as int);
                lemma_denote_extend(n1, n2, d2 as int);
            },
        },
    }
}

/// How one slot may change under a lazy read: untouched, or a dirty derived
/// node recomputed once — now clean, its rule and identity unchanged, its run
/// counter one higher.
pub open spec fn seek_step(a: Option<ReactiveData>, b: Option<ReactiveData>) -> bool {
    b == a || {
        match (a, b) {
            (Option::Some(ReactiveData::Expr(x)), Option::Some(ReactiveData::Expr(y))) => {
                &&& !x.spec_is_clean()
                &&& y.spec_is_clean()
                &&& y.uuid == x.uuid
                &&& y.expr == x.expr
                &&& y.recompute_count == u64_specs::wrapping_add(x.recompute_count, 1)
            },
            _ => false,
        }
    }
}

/// How one slot may change under a dirty broadcast: untouched, or a clean
/// derived node flagged dirty — cache, rule and run counter unchanged.
pub open spec fn dirty_step(a: Option<ReactiveData>, b: Option<ReactiveData>) -> bool {
    b == a || {
        match (a, b) {
            (Option::Some(ReactiveData::Expr(x)), Option::Some(ReactiveData::Expr(y))) => {
                &&& x.spec_is_clean()
                &&& y == ReactiveExpr { clean: false, ..x }
            },
            _ => false,
        }
    }
}

/// Lazy reads only clean nodes; chaining two of them is again a lazy read.
pub proof fn lemma_seek_step_trans(
    a: Option<ReactiveData>,
    b: Option<ReactiveData>,
    c: Option<ReactiveData>,
)
    requires
        seek_step(a, b),
        seek_step(b, c),
    ensures
        seek_step(a, c),
{
}

/// Whether a lazy read of node `id` may work on slot `j`: `id` itself when
/// it is a dirty derived node, or — recursively — anything a read of one of
/// its dependencies may work on.  A clean node is served from its cache, so
/// nothing at or below a clean node is touched.
pub open spec fn touched(nodes: Seq<Option<ReactiveData>>, id: int, j: int) -> bool
    decreases id,
{
    &&& registered_at(nodes, id)
    &&& node_at(nodes, id) is Expr
    &&& !clean_at(nodes, id)
    &&& {
        ||| j == id
        ||| match node_at(nodes, id).spec_expr() {
            Expr::Const(_) => false,
            Expr::Get(d) => (d as int) < id && touched(nodes, d as int, j),
            Expr::Add(d1, d2) => ((d1 as int) < id && touched(nodes, d1 as int, j)) || ((
            d2 as int) < id && touched(nodes, d2 as int, j)),
        }
    }
}

/// What an earlier lazy read left for a later one: reads only clean nodes,
/// so whatever a read of `x` may work on afterwards, it could already work
/// on before.
pub proof fn lemma_touched_mono(
    n1: Seq<Option<ReactiveData>>,
    n2: Seq<Option<ReactiveData>>,
    x: int,
    j: int,
)
    requires
        n1.len() == n2.len(),
        forall|i: int| 0 <= i < n1.len() ==> #[trigger] seek_step(n1[i], n2[i]),
        forall|i: int| 0 <= i < n1.len() && #[trigger] clean_at(n1, i) ==> n2[i] == n1[i],
        touched(n2, x, j),
    ensures
        touched(n1, x, j),
    decreases x,
{
    assert(seek_step(n1[x], n2[x]));
    assert(!clean_at(n1, x));
    assert(registered_at(n1, x));
    assert(node_at(n1, x) is Expr);
    assert(node_at(n1, x).spec_expr() == node_at(n2, x).spec_expr());
    if j != x {
        match node_at(n2, x).spec_expr() {
            Expr::Const(_) => {},
            Expr::Get(d) => {
                lemma_touched_mono(n1, n2, d as int, j);
            },
            Expr::Add(d1, d2) => {
                if (d1 as int) < x && touched(n2, d1 as int, j) {
                    lemma_touched_mono(n1, n2, d1 as int, j);
                } else {
                    lemma_touched_mono(n1, n2, d2 as int, j);
                }
            },
        }
    }
}

/// Whether `s` occurs in subscriber table `subs` under key `d`.
pub open spec fn subs_contain(subs: Seq<Vec<usize>>, d: int, s: usize) -> bool {
    0 <= d < subs.len() && subs[d]@.contains(s)
}

/// A propagation path of a dirty broadcast from `src`: its first entry is
/// subscribed to `src`, each later entry is subscribed to its predecessor,
/// and every entry before the last is a clean derived node.  The broadcast
/// walks exactly such paths — it stops expanding at any node it finds dirty.
pub open spec fn path_ok(
    nodes: Seq<Option<ReactiveData>>,
    subs: Seq<Vec<usize>>,
    src: usize,
    p: Seq<usize>,
) -> bool {
    &&& p.len() >= 1
    &&& subs_contain(subs, src as int, p[0])
    &&& forall|i: int| #![trigger p[i]]
        0 <= i < p.len() - 1 ==> clean_expr_at(nodes, p[i] as int) && subs_contain(
            subs,
            p[i] as int,
            p[i + 1],
        )
}

/// Whether a dirty broadcast from `src` can reach slot `s`: some propagation
/// path ends there.
pub open spec fn reaches(
    nodes: Seq<Option<ReactiveData>>,
    subs: Seq<Vec<usize>>,
    src: usize,
    s: usize,
) -> bool {
    exists|p: Seq<usize>| path_ok(nodes, subs, src, p) && p.last() == s
}

/// Whether a dirty broadcast from `src` reaches a registered source node.
/// Exactly then the broadcast is fatal: a source cannot go dirty.
pub open spec fn fatal_reachable(
    nodes: Seq<Option<ReactiveData>>,
    subs: Seq<Vec<usize>>,
    src: usize,
) -> bool {
    exists|s: usize|
        #[trigger] reaches(nodes, subs, src, s) && registered_at(nodes, s as int) && node_at(
            nodes,
            s as int,
        ) is Value
}

/// The node table with slot `id` flagged dirty, as a manual mark leaves it
/// before broadcasting: the flag falls if the slot held a clean derived
/// node, and nothing else moves.
pub open spec fn dirty_flagged(nodes: Seq<Option<ReactiveData>>, id: usize) -> Seq<
    Option<ReactiveData>,
> {
    if clean_expr_at(nodes, id as int) {
        nodes.update(
            id as int,
            Some(ReactiveData::Expr(ReactiveExpr { clean: false, ..node_at(nodes, id as int)->Expr_0 })),
        )
    } else {
        nodes
    }
}

/// Replacing the value held by a registered source changes no propagation
/// path: which nodes a broadcast can reach, and whether it is fatal, depend
/// only on node kinds, dirty flags and edges.
pub proof fn lemma_fatal_unmoved_by_value(
    n1: Seq<Option<ReactiveData>>,
    n2: Seq<Option<ReactiveData>>,
    subs: Seq<Vec<usize>>,
    src: usize,
)
    requires
        n1.len() == n2.len(),
        forall|j: int| #![trigger n2[j]] 0 <= j < n1.len() ==> (n1[j] is Some <==> n2[j] is Some),
        forall|j: int| #![trigger n2[j]]
            0 <= j < n1.len() && n1[j] is Some ==> (node_at(n1, j) is Value <==> node_at(
                n2,
                j,
            ) is Value),
        forall|j: int| #![trigger n2[j]]
            0 <= j < n1.len() && n1[j] is Some && n1[j] is Some && node_at(n1, j) is Expr
                ==> n2[j] == n1[j],
    ensures
        forall|s: usize| #[trigger] reaches(n2, subs, src, s) == reaches(n1, subs, src, s),
        fatal_reachable(n2, subs, src) == fatal_reachable(n1, subs, src),
{
    assert forall|j: int| #![trigger clean_expr_at(n2, j)]
        true implies clean_expr_at(n2, j) == clean_expr_at(n1, j) by {
        if 0 <= j < n1.len() && n1[j] is Some && node_at(n1, j) is Expr {
            assert(n2[j] == n1[j]);
        }
    }
    assert forall|s: usize| #[trigger]
        reaches(n2, subs, src, s) == reaches(n1, subs, src, s) by {
        if reaches(n1, subs, src, s) {
            let p = choose|p: Seq<usize>| path_ok(n1, subs, src, p) && p.last() == s;
            assert(path_ok(n2, subs, src, p)) by {
                assert forall|i: int| #![trigger p[i]]
                    0 <= i < p.len() - 1 implies clean_expr_at(n2, p[i] as int) && subs_contain(
                    subs,
                    p[i] as int,
                    p[i + 1],
                ) by {
                    assert(clean_expr_at(n2, p[i] as int) == clean_expr_at(n1, p[i] as int));
                }
            }
            assert(reaches(n2, subs, src, s));
        }
        if reaches(n2, subs, src, s) {
            let p = choose|p: Seq<usize>| path_ok(n2, subs, src, p) && p.last() == s;
            assert(path_ok(n1, subs, src, p)) by {
                assert forall|i: int| #![trigger p[i]]
                    0 <= i < p.len() - 1 implies clean_expr_at(n1, p[i] as int) && subs_contain(
                    subs,
                    p[i] as int,
                    p[i + 1],
                ) by {
                    assert(clean_expr_at(n2, p[i] as int) == clean_expr_at(n1, p[i] as int));
                }
            }
            assert(reaches(n1, subs, src, s));
        }
    }
    if fatal_reachable(n1, subs, src) {
        let s = choose|s: usize|
            #[trigger] reaches(n1, subs, src, s) && registered_at(n1, s as int) && node_at(
                n1,
                s as int,
            ) is Value;
        assert(reaches(n2, subs, src, s));
        assert(registered_at(n2, s as int) && node_at(n2, s as int) is Value);
        assert(fatal_reachable(n2, subs, src));
    }
    if fatal_reachable(n2, subs, src) {
        let s = choose|s: usize|
            #[trigger] reaches(n2, subs, src, s) && registered_at(n2, s as int) && node_at(
                n2,
                s as int,
            ) is Value;
        assert(reaches(n1, subs, src, s));
        assert(registered_at(n1, s as int) && node_at(n1, s as int) is Value);
        assert(fatal_reachable(n1, subs, src));
    }
}

/// Dirtying in two waves is one wave: a slot flagged dirty stays put.
pub proof fn lemma_dirty_step_trans(
    a: Option<ReactiveData>,
    b: Option<ReactiveData>,
    c: Option<ReactiveData>,
)
    requires
        dirty_step(a, b),
        dirty_step(b, c),
    ensures
        dirty_step(a, c),
{
}

/// The number of clean derived nodes in the table: the potential a dirty
/// broadcast consumes, since broadcasting never cleans a node.
pub open spec fn count_clean(nodes: Seq<Option<ReactiveData>>) -> nat
    decreases nodes.len(),
{
    if nodes.len() == 0 {
        0
    } else {
        count_clean(nodes.drop_last()) + if clean_expr_at(nodes, nodes.len() - 1) {
            1nat
        } else {
            0nat
        }
    }
}

/// Flagging nodes dirty never raises the count of clean derived nodes.
pub proof fn lemma_count_clean_mono(n1: Seq<Option<ReactiveData>>, n2: Seq<Option<ReactiveData>>)
    requires
        n1.len() == n2.len(),
        forall|j: int| 0 <= j < n1.len() && #[trigger] clean_expr_at(n2, j) ==> clean_expr_at(n1, j),
    ensures
        count_clean(n2) <= count_clean(n1),
    decreases n1.len(),
{
    if n1.len() > 0 {
        let m1 = n1.drop_last();
        let m2 = n2.drop_last();
        assert forall|j: int|
            0 <= j < m1.len() && #[trigger] clean_expr_at(m2, j) implies clean_expr_at(m1, j) by {
            assert(m2[j] == n2[j]);
            assert(clean_expr_at(n2, j));
            assert(clean_expr_at(n1, j));
            assert(m1[j] == n1[j]);
        }
        lemma_count_clean_mono(m1, m2);
    }
}

/// Flagging at least one clean derived node dirty strictly lowers the count.
pub proof fn lemma_count_clean_drop(
    n1: Seq<Option<ReactiveData>>,
    n2: Seq<Option<ReactiveData>>,
    i: int,
)
    requires
        n1.len() == n2.len(),
        forall|j: int| 0 <= j < n1.len() && #[trigger] clean_expr_at(n2, j) ==> clean_expr_at(n1, j),
        0 <= i < n1.len(),
        clean_expr_at(n1, i),
        !clean_expr_at(n2, i),
    ensures
        count_clean(n2) < count_clean(n1),
    decreases n1.len(),
{
    let last = n1.len() - 1;
    let m1 = n1.drop_last();
    let m2 = n2.drop_last();
    assert forall|j: int|
        0 <= j < m1.len() && #[trigger] clean_expr_at(m2, j) implies clean_expr_at(m1, j) by {
        assert(m2[j] == n2[j]);
        assert(clean_expr_at(n2, j));
        assert(clean_expr_at(n1, j));
        assert(m1[j] == n1[j]);
    }
    if i == last {
        lemma_count_clean_mono(m1, m2);
    } else {
        assert(m1[i] == n1[i]);
        assert(m2[i] == n2[i]);
        assert(clean_expr_at(m1, i));
        assert(!clean_expr_at(m2, i));
        lemma_count_clean_drop(m1, m2, i);
    }
}

/// After a source changes, the denotation of every node that stayed clean is
/// what it was: any node whose denotation could have moved was flagged dirty.
///
/// `n2` differs from `n1` only at the written source `src` and in dirty
/// flags; every clean derived node of `n2` neither reads `src` nor reads any
/// dirty node.  Its denotation then never reaches `src`, by induction along
/// the (identity-ordered) dependency chain.
pub proof fn lemma_denote_write_preserved(
    n1: Seq<Option<ReactiveData>>,
    n2: Seq<Option<ReactiveData>>,
    src: usize,
    id: int,
)
    requires
        n1.len() == n2.len(),
        forall|j: int| 0 <= j < n1.len() && j != src ==> #[trigger] same_computation(n1[j], n2[j]),
        registered_at(n1, src as int) <==> registered_at(n2, src as int),
        registered_at(n1, src as int) ==> node_at(n1, src as int) is Value && node_at(
            n2,
            src as int,
        ) is Value,
        forall|j: int, d: usize| #[trigger] dep_at(n2, j, d) ==> (d as int) < j,
        forall|j: int, d: usize|
            clean_expr_at(n2, j) && #[trigger] dep_at(n2, j, d) ==> d != src && (registered_at(
                n2,
                d as int,
            ) ==> clean_at(n2, d as int)),
        clean_expr_at(n2, id),
    ensures
        denote(n2, id) == denote(n1, id),
    decreases id, 1int,
{
    assert(id != src as int);
    assert(same_computation(n1[id], n2[id]));
    let e = node_at(n2, id);
    match e.spec_expr() {
        Expr::Const(_) => {},
        Expr::Get(d) => {
            assert(dep_at(n2, id, d));
            assert((d as int) < id);
            lemma_write_preserved_dep(n1, n2, src, id, d);
        },
        Expr::Add(d1, d2) => {
            assert(dep_at(n2, id, d1));
            assert(dep_at(n2, id, d2));
            assert((d1 as int) < id && (d2 as int) < id);
            lemma_write_preserved_dep(n1, n2, src, id, d1);
            lemma_write_preserved_dep(n1, n2, src, id, d2);
        },
    }
}

/// One dependency edge of the induction in [`lemma_denote_write_preserved`].
proof fn lemma_write_preserved_dep(
    n1: Seq<Option<ReactiveData>>,
    n2: Seq<Option<ReactiveData>>,
    src: usize,
    id: int,
    d: usize,
)
    requires
        n1.len() == n2.len(),
        forall|j: int| 0 <= j < n1.len() && j != src ==> #[trigger] same_computation(n1[j], n2[j]),
        registered_at(n1, src as int) <==> registered_at(n2, src as int),
        registered_at(n1, src as int) ==> node_at(n1, src as int) is Value && node_at(
            n2,
            src as int,
        ) is Value,
        forall|j: int, d2: usize| #[trigger] dep_at(n2, j, d2) ==> (d2 as int) < j,
        forall|j: int, d2: usize|
            clean_expr_at(n2, j) && #[trigger] dep_at(n2, j, d2) ==> d2 != src && (registered_at(
                n2,
                d2 as int,
            ) ==> clean_at(n2, d2 as int)),
        clean_expr_at(n2, id),
        dep_at(n2, id, d),
        (d as int) < id,
    ensures
        denote(n2, d as int) == denote(n1, d as int),
    decreases id, 0int,
{
    assert(d != src);
    if registered_at(n2, d as int) {
        assert(clean_at(n2, d as int));
        assert(same_computation(n1[d as int], n2[d as int]));
        match node_at(n2, d as int) {
            ReactiveData::Value(_) => {
                assert(node_at(n1, d as int) == node_at(n2, d as int));
            },
            ReactiveData::Expr(_) => {
                assert(clean_expr_at(n2, d as int));
                lemma_denote_write_preserved(n1, n2, src, d as int);
            },
        }
    } else {
        assert(same_computation(n1[d as int], n2[d as int]));
        assert(!registered_at(n1, d as int));
        if 0 <= (d as int) < n1.len() {
            assert(denote(n1, d as int) is None);
            assert(denote(n2, d as int) is None);
        }
    }
}

/// Two slots carry the same computation when they agree on everything the
/// denotation reads: registration, kind, source values and rules.  Caches,
/// dirty flags and recompute counts are free to differ.
pub open spec fn same_computation(a: Option<ReactiveData>, b: Option<ReactiveData>) -> bool {
    match (a, b) {
        (Option::None, Option::None) => true,
        (Option::Some(ReactiveData::Value(x)), Option::Some(ReactiveData::Value(y))) => x == y,
        (Option::Some(ReactiveData::Expr(x)), Option::Some(ReactiveData::Expr(y))) => x.uuid
            == y.uuid && x.expr == y.expr,
        _ => false,
    }
}

/// Denotation reads only source values and rules: tables that carry the same
/// computation slot for slot denote alike, whatever their caches and flags.
pub proof fn lemma_denote_same_computation(
    n1: Seq<Option<ReactiveData>>,
    n2: Seq<Option<ReactiveData>>,
    id: int,
)
    requires
        n1.len() == n2.len(),
        forall|j: int| 0 <= j < n1.len() ==> #[trigger] same_computation(n1[j], n2[j]),
    ensures
        denote(n2, id) == denote(n1, id),
    decreases id,
{
    if 0 <= id < n1.len() {
        assert(same_computation(n1[id], n2[id]));
        match n1[id] {
            Option::None => {},
            Option::Some(ReactiveData::Value(_)) => {},
            Option::Some(ReactiveData::Expr(e)) => match e.expr {
                Expr::Const(_) => {},
                Expr::Get(d) => {
                    if (d as int) < id {
                        lemma_denote_same_computation(n1, n2, d as int);
                    }
                },
                Expr::Add(d1, d2) => {
                    if (d1 as int) < id && (d2 as int) < id {
                        lemma_denote_same_computation(n1, n2, d1 as int);
                        lemma_denote_same_computation(n1, n2, d2 as int);
                    }
                },
            },
        }
    }
}

} // verus!
