//! The token game of a net, and the net-level invariants the construction
//! guarantees: bipartiteness of the arc relation, non-negativity of
//! markings, and conservation of every registered group's token sum under
//! every firing.

use vstd::prelude::*;

use crate::petri_net::petri_net::{NetView, Node};

verus! {

/// The arc relation of a net, as a set of directed node pairs.
pub open spec fn arcs(v: NetView) -> Set<(Node, Node)> {
    Set::new(
        |a: (Node, Node)|
            match a {
                (Node::Place(p), Node::Transition(t)) => p.index < v.n_places() && t.index
                    < v.n_transitions() && v.has_pt(p.index, t.index),
                (Node::Transition(t), Node::Place(p)) => p.index < v.n_places() && t.index
                    < v.n_transitions() && v.has_tp(t.index, p.index),
                _ => false,
            },
    )
}

/// Every arc of a net connects a place and a transition: the arc relation
/// is bipartite, and both endpoints are nodes of the net.
pub proof fn lemma_bipartite(v: NetView)
    ensures
        forall|a: (Node, Node)| #[trigger]
            arcs(v).contains(a) ==> ((a.0 is Place && a.1 is Transition) || (a.0 is Transition
                && a.1 is Place)),
        forall|a: (Node, Node)| #[trigger]
            arcs(v).contains(a) ==> match a.0 {
                Node::Place(p) => p.index < v.n_places(),
                Node::Transition(t) => t.index < v.n_transitions(),
            } && match a.1 {
                Node::Place(p) => p.index < v.n_places(),
                Node::Transition(t) => t.index < v.n_transitions(),
            },
{
}

/// A marking: one token count per place.
pub open spec fn marking_of(v: NetView) -> Seq<int> {
    v.marking.map_values(|tokens: u64| tokens as int)
}

/// Every token count of a marking is non-negative.
pub open spec fn nonneg(m: Seq<int>) -> bool {
    forall|p: int| 0 <= p < m.len() ==> m[p] >= 0
}

/// The initial marking of every place is non-negative: token counts are
/// unsigned by construction.
pub proof fn lemma_initial_marking_nonneg(v: NetView)
    ensures
        nonneg(marking_of(v)),
{
}

/// Transition `t` is enabled at marking `m`: every input place holds a token.
pub open spec fn enabled(v: NetView, m: Seq<int>, t: usize) -> bool {
    forall|p: usize| p < v.n_places() && v.has_pt(p, t) ==> m[p as int] >= 1
}

/// Fire transition `t` at marking `m`: consume one token from each input
/// place and produce one on each output place.
pub open spec fn fire(v: NetView, m: Seq<int>, t: usize) -> Seq<int> {
    Seq::new(
        m.len(),
        |p: int|
            m[p] + (if v.has_tp(t, p as usize) {
                1int
            } else {
                0int
            }) - (if v.has_pt(p as usize, t) {
                1int
            } else {
                0int
            }),
    )
}

/// Marking `m2` arises from `m1` by firing exactly `n` enabled transitions.
pub open spec fn reach_in(v: NetView, m1: Seq<int>, m2: Seq<int>, n: nat) -> bool
    decreases n,
{
    if n == 0 {
        m1 == m2
    } else {
        exists|t: usize|
            t < v.n_transitions() && #[trigger] enabled(v, m1, t) && reach_in(
                v,
                fire(v, m1, t),
                m2,
                (n - 1) as nat,
            )
    }
}

/// Marking `m2` is reachable from `m1` by some firing sequence.
pub open spec fn reachable(v: NetView, m1: Seq<int>, m2: Seq<int>) -> bool {
    exists|n: nat| reach_in(v, m1, m2, n)
}

/// The token sum of a marking over a list of places.
pub open spec fn msum(m: Seq<int>, ps: Seq<usize>) -> int
    decreases ps.len(),
{
    if ps.len() == 0 {
        0
    } else {
        msum(m, ps.drop_last()) + m[ps.last() as int]
    }
}

/// Firing moves the sum over any places by production minus consumption.
proof fn lemma_fire_sum(v: NetView, m: Seq<int>, t: usize, ps: Seq<usize>)
    requires
        m.len() == v.n_places(),
        forall|k: int| 0 <= k < ps.len() ==> #[trigger] ps[k] < v.n_places(),
    ensures
        msum(fire(v, m, t), ps) == msum(m, ps) + v.out_cnt(ps, t) - v.in_cnt(ps, t),
    decreases ps.len(),
{
    if ps.len() > 0 {
        let prefix = ps.drop_last();
        assert(forall|k: int| 0 <= k < prefix.len() ==> #[trigger] prefix[k] == ps[k]);
        lemma_fire_sum(v, m, t, prefix);
        assert(ps.last() == ps[ps.len() - 1]);
        assert(fire(v, m, t)[ps.last() as int] == m[ps.last() as int] + (if v.has_tp(
            t,
            ps.last(),
        ) {
            1int
        } else {
            0int
        }) - (if v.has_pt(ps.last(), t) {
            1int
        } else {
            0int
        }));
    }
}

/// Conservation under one firing: in a well-formed, balanced net, firing
/// any transition preserves the token sum of every registered group.  For
/// a storage slot this is the slot's lifecycle invariant (the sum over its
/// uninitialised, live, and dead places stays what it was initially); for a
/// mutex it is the mutual-exclusion invariant over its four state places.
pub proof fn lemma_group_conservation(v: NetView, ps: Seq<usize>, m: Seq<int>, t: usize)
    requires
        v.wf(),
        v.balanced(),
        v.groups.contains(ps),
        m.len() == v.n_places(),
        t < v.n_transitions(),
    ensures
        msum(fire(v, m, t), ps) == msum(m, ps),
{
    let i = choose|i: int| 0 <= i < v.groups.len() && v.groups[i] == ps;
    assert(v.group_balanced(ps));
    assert(v.trans_balanced(ps, t));
    assert forall|k: int| 0 <= k < ps.len() implies #[trigger] ps[k] < v.n_places() by {
        assert(v.groups[i][k] == ps[k]);
    }
    lemma_fire_sum(v, m, t, ps);
}

proof fn lemma_reach_n_conservation(v: NetView, ps: Seq<usize>, m1: Seq<int>, m2: Seq<int>, n: nat)
    requires
        v.wf(),
        v.balanced(),
        v.groups.contains(ps),
        m1.len() == v.n_places(),
        reach_in(v, m1, m2, n),
    ensures
        msum(m2, ps) == msum(m1, ps),
        m2.len() == m1.len(),
    decreases n,
{
    if n > 0 {
        let t = choose|t: usize|
            t < v.n_transitions() && #[trigger] enabled(v, m1, t) && reach_in(
                v,
                fire(v, m1, t),
                m2,
                (n - 1) as nat,
            );
        lemma_group_conservation(v, ps, m1, t);
        lemma_reach_n_conservation(v, ps, fire(v, m1, t), m2, (n - 1) as nat);
    }
}

/// Conservation along any run of the token game: in a well-formed, balanced
/// net, every marking reachable from `m1` carries the same token sum over
/// each registered group as `m1` itself.
pub proof fn lemma_reachable_conservation(v: NetView, ps: Seq<usize>, m1: Seq<int>, m2: Seq<int>)
    requires
        v.wf(),
        v.balanced(),
        v.groups.contains(ps),
        m1.len() == v.n_places(),
        reachable(v, m1, m2),
    ensures
        msum(m2, ps) == msum(m1, ps),
{
    let n = choose|n: nat| reach_in(v, m1, m2, n);
    lemma_reach_n_conservation(v, ps, m1, m2, n);
}

/// Firing an enabled transition never drives a token count negative.
pub proof fn lemma_fire_nonneg(v: NetView, m: Seq<int>, t: usize)
    requires
        m.len() == v.n_places(),
        m.len() <= usize::MAX,
        nonneg(m),
        enabled(v, m, t),
    ensures
        nonneg(fire(v, m, t)),
{
    assert forall|p: int| 0 <= p < fire(v, m, t).len() implies fire(v, m, t)[p] >= 0 by {
        if v.has_pt(p as usize, t) {
            let pu = p as usize;
            assert(pu < v.n_places() && v.has_pt(pu, t));
            assert(m[pu as int] >= 1);
            assert(pu as int == p);
        }
    }
}

proof fn lemma_reach_n_nonneg(v: NetView, m1: Seq<int>, m2: Seq<int>, n: nat)
    requires
        m1.len() == v.n_places(),
        m1.len() <= usize::MAX,
        nonneg(m1),
        reach_in(v, m1, m2, n),
    ensures
        nonneg(m2),
        m2.len() == m1.len(),
    decreases n,
{
    if n > 0 {
        let t = choose|t: usize|
            t < v.n_transitions() && #[trigger] enabled(v, m1, t) && reach_in(
                v,
                fire(v, m1, t),
                m2,
                (n - 1) as nat,
            );
        lemma_fire_nonneg(v, m1, t);
        lemma_reach_n_nonneg(v, fire(v, m1, t), m2, (n - 1) as nat);
    }
}

/// Marking non-negativity is an invariant of the token game: every marking
/// reachable from a non-negative one is non-negative.
pub proof fn lemma_reachable_nonneg(v: NetView, m1: Seq<int>, m2: Seq<int>)
    requires
        m1.len() == v.n_places(),
        m1.len() <= usize::MAX,
        nonneg(m1),
        reachable(v, m1, m2),
    ensures
        nonneg(m2),
{
    let n = choose|n: nat| reach_in(v, m1, m2, n);
    lemma_reach_n_nonneg(v, m1, m2, n);
}

/// The sum over a three-place group, spelled out.
pub proof fn lemma_msum3(m: Seq<int>, a: usize, b: usize, c: usize)
    ensures
        msum(m, seq![a, b, c]) == m[a as int] + m[b as int] + m[c as int],
{
    let ps = seq![a, b, c];
    assert(ps.drop_last() =~= seq![a, b]);
    assert(seq![a, b].drop_last() =~= seq![a]);
    assert(seq![a].drop_last() =~= Seq::<usize>::empty());
    assert(msum(m, Seq::<usize>::empty()) == 0);
    assert(msum(m, seq![a]) == m[a as int]);
    assert(msum(m, seq![a, b]) == m[a as int] + m[b as int]);
}

/// The sum over a four-place group, spelled out.
pub proof fn lemma_msum4(m: Seq<int>, a: usize, b: usize, c: usize, d: usize)
    ensures
        msum(m, seq![a, b, c, d]) == m[a as int] + m[b as int] + m[c as int] + m[d as int],
{
    let ps = seq![a, b, c, d];
    assert(ps.drop_last() =~= seq![a, b, c]);
    lemma_msum3(m, a, b, c);
}

/// Two markings agreeing on some places have the same sum over them.
pub proof fn lemma_msum_agree(m1: Seq<int>, m2: Seq<int>, ps: Seq<usize>)
    requires
        forall|k: int| 0 <= k < ps.len() ==> m2[#[trigger] ps[k] as int] == m1[ps[k] as int],
    ensures
        msum(m2, ps) == msum(m1, ps),
    decreases ps.len(),
{
    if ps.len() > 0 {
        let prefix = ps.drop_last();
        assert(forall|k: int| 0 <= k < prefix.len() ==> #[trigger] prefix[k] == ps[k]);
        lemma_msum_agree(m1, m2, prefix);
        assert(ps.last() == ps[ps.len() - 1]);
    }
}

/// The token sums fixed by the construction: every lifecycle triple of a
/// storage slot (a group of three places) and every state quadruple of a
/// mutex (a group of four places) starts with exactly one token.
pub open spec fn slot_sums(v: NetView) -> bool {
    &&& forall|i: int|
        0 <= i < v.groups.len() && #[trigger] v.groups[i].len() == 3 ==> msum(
            marking_of(v),
            v.groups[i],
        ) == 1
    &&& forall|i: int|
        0 <= i < v.groups.len() && #[trigger] v.groups[i].len() == 4 ==> msum(
            marking_of(v),
            v.groups[i],
        ) == 1
}

/// `slot_sums` survives any extension of the net that adds no group, since
/// the markings of existing places are kept.
pub proof fn lemma_slot_sums_extends(pre: NetView, post: NetView)
    requires
        pre.wf(),
        slot_sums(pre),
        NetView::extends(pre, post),
        post.groups == pre.groups,
    ensures
        slot_sums(post),
{
    assert forall|i: int|
        0 <= i < post.groups.len() && #[trigger] post.groups[i].len() == 3 implies msum(
        marking_of(post),
        post.groups[i],
    ) == 1 by {
        let g = post.groups[i];
        assert forall|k: int| 0 <= k < g.len() implies marking_of(post)[#[trigger] g[k] as int]
            == marking_of(pre)[g[k] as int] by {
            assert(pre.groups[i][k] < pre.n_places());
        }
        lemma_msum_agree(marking_of(pre), marking_of(post), g);
    }
    assert forall|i: int|
        0 <= i < post.groups.len() && #[trigger] post.groups[i].len() == 4 implies msum(
        marking_of(post),
        post.groups[i],
    ) == 1 by {
        let g = post.groups[i];
        assert forall|k: int| 0 <= k < g.len() implies marking_of(post)[#[trigger] g[k] as int]
            == marking_of(pre)[g[k] as int] by {
            assert(pre.groups[i][k] < pre.n_places());
        }
        lemma_msum_agree(marking_of(pre), marking_of(post), g);
    }
}

/// `slot_sums` also survives an extension whose added groups are neither
/// lifecycle triples nor mutex quadruples (the singleton groups of data
/// places).
pub proof fn lemma_slot_sums_extends_other(pre: NetView, post: NetView)
    requires
        pre.wf(),
        slot_sums(pre),
        NetView::extends(pre, post),
        forall|i: int|
            pre.groups.len() <= i < post.groups.len() ==> (#[trigger] post.groups[i]).len() != 3
                && post.groups[i].len() != 4,
    ensures
        slot_sums(post),
{
    assert forall|i: int|
        0 <= i < post.groups.len() && (#[trigger] post.groups[i].len() == 3
            || post.groups[i].len() == 4) implies msum(marking_of(post), post.groups[i]) == 1 by {
        assert(i < pre.groups.len());
        let g = post.groups[i];
        assert(g == pre.groups[i]);
        assert forall|k: int| 0 <= k < g.len() implies marking_of(post)[#[trigger] g[k] as int]
            == marking_of(pre)[g[k] as int] by {
            assert(pre.groups[i][k] < pre.n_places());
        }
        lemma_msum_agree(marking_of(pre), marking_of(post), g);
    }
}

/// Slot conservation: in a net built by the translator, the token sum over
/// a storage slot's lifecycle triple (uninitialised, live, dead) is one in
/// the initial marking, and every transition preserves it  - so it is one in
/// every reachable marking.
pub proof fn lemma_slot_conservation(v: NetView, ps: Seq<usize>, m2: Seq<int>)
    requires
        v.wf(),
        v.balanced(),
        slot_sums(v),
        v.groups.contains(ps),
        ps.len() == 3,
        reachable(v, marking_of(v), m2),
    ensures
        msum(marking_of(v), ps) == 1,
        msum(m2, ps) == 1,
{
    let i = choose|i: int| 0 <= i < v.groups.len() && v.groups[i] == ps;
    lemma_reachable_conservation(v, ps, marking_of(v), m2);
}

/// Mutex conservation: the token sum over a mutex's four state places
/// (uninitialised, unlocked, locked, dead) is one initially and preserved
/// by every transition  - so exactly one state is marked in every reachable
/// marking.
pub proof fn lemma_mutex_conservation(v: NetView, ps: Seq<usize>, m2: Seq<int>)
    requires
        v.wf(),
        v.balanced(),
        slot_sums(v),
        v.groups.contains(ps),
        ps.len() == 4,
        reachable(v, marking_of(v), m2),
    ensures
        msum(marking_of(v), ps) == 1,
        msum(m2, ps) == 1,
{
    let i = choose|i: int| 0 <= i < v.groups.len() && v.groups[i] == ps;
    lemma_reachable_conservation(v, ps, marking_of(v), m2);
}

/// One enabled firing witnesses reachability.
pub proof fn lemma_fire_step(v: NetView, m: Seq<int>, t: usize)
    requires
        t < v.n_transitions(),
        enabled(v, m, t),
    ensures
        reachable(v, m, fire(v, m, t)),
{
    assert(reach_in(v, fire(v, m, t), fire(v, m, t), 0));
    assert(reach_in(v, m, fire(v, m, t), 1));
}

} // verus!
