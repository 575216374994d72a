//! An append-only bipartite Petri net: places, transitions, directed arcs
//! between nodes of opposite kinds, an initial marking per place, and an
//! optional advisory name per node.
//!
//! Places and transitions are identified by stable indices into two vectors;
//! arcs are adjacency lists (`Flow`), kept in insertion order and free of
//! duplicates.  The net additionally carries a ghost record of *groups*:
//! disjoint sets of places (a storage slot's lifecycle triple, a mutex's
//! state quadruple, a constants place) over which every transition must stay
//! balanced, so that the token sum of each group is conserved by every
//! firing.

use vstd::prelude::*;

verus! {

/// Token counts are non-negative by construction.
pub type Tokens = u64;

/// Stable reference to a place of some net.
#[derive(Clone, Copy, PartialEq, Eq, Structural, Debug, Hash)]
pub struct Place {
    pub index: usize,
}

/// Stable reference to a transition of some net.
#[derive(Clone, Copy, PartialEq, Eq, Structural, Debug, Hash)]
pub struct Transition {
    pub index: usize,
}

/// Either kind of node, for operations that accept both.
#[derive(Clone, Copy, PartialEq, Eq, Structural, Debug)]
pub enum Node {
    Place(Place),
    Transition(Transition),
}

/// Everything that can go wrong while building or translating.
#[derive(Clone, Copy, PartialEq, Eq, Structural, Debug)]
pub enum PetriError {
    /// An arc was requested between two places or two transitions.
    BipartitionViolation,
    /// A place reference does not belong to this net.
    PlaceNotFound,
    /// A transition reference does not belong to this net.
    TransitionNotFound,
    /// A terminator was lowered before any block was activated.
    ActiveBlockMissing,
    /// A basic-block id is outside the function's body.
    BlockNotFound,
    /// A local index is outside the frame's virtual memory.
    LocalNotFound,
    /// A promoted-constant index has no place.
    StaticNotFound,
    /// A storage statement touched a slot without lifecycle places.
    LifecyclePlaceMissing,
    /// A call's function operand is not a resolved function id.
    IndirectCall,
    /// A function id is outside the program.
    FunctionNotFound,
    /// A diverging foreign callee outside the recognised catalogue.
    UnrecognisedDiverging,
    /// A mutex primitive was invoked on a slot with no linked mutex.
    MutexNotFound,
    /// `try_lock` has no defined net semantics.
    TryLockUnsupported,
    /// A callee recognised as a primitive has no dedicated builder.
    UnrecognisedPrimitive,
    /// The call stack exceeded the fixed recursion bound.
    RecursionLimit,
    /// A call terminator of a recursive callee carries no destination.
    DivergingCall,
}

/// Arcs of the net, as adjacency lists.
#[derive(Clone, PartialEq, Eq, Debug)]
pub struct Flow {
    /// arcs from places to transitions: `pt[p]` lists the transitions fed by place `p`
    pub pt: Vec<Vec<usize>>,
    /// arcs from transitions to places: `tp[t]` lists the places fed by transition `t`
    pub tp: Vec<Vec<usize>>,
}

/// The net under construction.
pub struct PetriNet {
    pub(crate) places: Vec<Option<String>>,
    pub(crate) transitions: Vec<Option<String>>,
    pub(crate) flow: Flow,
    pub(crate) initial_marking: Vec<Tokens>,
    /// Ghost record of the disjoint place groups whose token sums are conserved.
    pub(crate) groups: Ghost<Seq<Seq<usize>>>,
}

/// The mathematical model of a net.
pub ghost struct NetView {
    pub place_names: Seq<Option<Seq<char>>>,
    pub trans_names: Seq<Option<Seq<char>>>,
    pub marking: Seq<Tokens>,
    pub pt: Seq<Seq<usize>>,
    pub tp: Seq<Seq<usize>>,
    pub groups: Seq<Seq<usize>>,
}

pub open spec fn name_view(o: Option<String>) -> Option<Seq<char>> {
    match o {
        Some(s) => Some(s@),
        None => None,
    }
}

impl View for PetriNet {
    type V = NetView;

    closed spec fn view(&self) -> NetView {
        NetView {
            place_names: self.places@.map_values(|o: Option<String>| name_view(o)),
            trans_names: self.transitions@.map_values(|o: Option<String>| name_view(o)),
            marking: self.initial_marking@,
            pt: self.flow.pt@.map_values(|v: Vec<usize>| v@),
            tp: self.flow.tp@.map_values(|v: Vec<usize>| v@),
            groups: self.groups@,
        }
    }
}

impl NetView {
    pub open spec fn n_places(self) -> nat {
        self.place_names.len()
    }

    pub open spec fn n_transitions(self) -> nat {
        self.trans_names.len()
    }

    /// There is an arc from place `p` to transition `t`.
    pub open spec fn has_pt(self, p: usize, t: usize) -> bool {
        self.pt[p as int].contains(t)
    }

    /// There is an arc from transition `t` to place `p`.
    pub open spec fn has_tp(self, t: usize, p: usize) -> bool {
        self.tp[t as int].contains(p)
    }

    /// Place `p` belongs to no group.
    pub open spec fn is_free(self, p: usize) -> bool {
        forall|i: int| 0 <= i < self.groups.len() ==> !self.groups[i].contains(p)
    }

    /// The structural well-formedness of the model: parallel vectors agree in
    /// length, arc targets are in range, adjacency lists hold no duplicates,
    /// and groups are in-range, duplicate-free, and pairwise disjoint.
    pub open spec fn wf(self) -> bool {
        &&& self.pt.len() == self.place_names.len()
        &&& self.marking.len() == self.place_names.len()
        &&& self.tp.len() == self.trans_names.len()
        &&& forall|p: int, j: int|
            0 <= p < self.pt.len() && 0 <= j < self.pt[p].len() ==> self.pt[p][j]
                < self.trans_names.len()
        &&& forall|t: int, j: int|
            0 <= t < self.tp.len() && 0 <= j < self.tp[t].len() ==> self.tp[t][j]
                < self.place_names.len()
        &&& forall|p: int, j: int, k: int|
            0 <= p < self.pt.len() && 0 <= j < k < self.pt[p].len() ==> self.pt[p][j]
                != self.pt[p][k]
        &&& forall|t: int, j: int, k: int|
            0 <= t < self.tp.len() && 0 <= j < k < self.tp[t].len() ==> self.tp[t][j]
                != self.tp[t][k]
        &&& forall|i: int, j: int|
            0 <= i < self.groups.len() && 0 <= j < self.groups[i].len() ==> self.groups[i][j]
                < self.place_names.len()
        &&& forall|i: int, j: int, k: int|
            0 <= i < self.groups.len() && 0 <= j < k < self.groups[i].len() ==> self.groups[i][j]
                != self.groups[i][k]
        &&& forall|i1: int, i2: int, p: usize|
            0 <= i1 < i2 < self.groups.len() && self.groups[i1].contains(p) ==> !self.groups[i2].contains(p)
    }
}

impl NetView {
    /// Every arc of `o` is still an arc of `v`, and no arc between old
    /// nodes was added or removed.
    pub open spec fn arcs_preserved(o: NetView, v: NetView) -> bool {
        forall|q: usize, t2: usize|
            q < o.n_places() && t2 < o.n_transitions() ==> (#[trigger] v.has_pt(q, t2)
                == o.has_pt(q, t2)) && (#[trigger] v.has_tp(t2, q) == o.has_tp(t2, q))
    }

    /// Transition `t` of `v` consumes exactly from `ins` and produces
    /// exactly into `outs`.
    pub open spec fn trans_arcs(v: NetView, t: usize, ins: Set<usize>, outs: Set<usize>) -> bool {
        forall|q: usize|
            q < v.n_places() ==> (#[trigger] v.has_pt(q, t) == ins.contains(q)) && (
            #[trigger] v.has_tp(t, q) == outs.contains(q))
    }

    /// The net `v` is the net `o` plus exactly one transition named `nm`
    /// that consumes from `ins` and produces into `outs`: no place, no
    /// marking, no group and no other arc changed.
    pub open spec fn adds_transition(
        o: NetView,
        v: NetView,
        nm: Option<Seq<char>>,
        ins: Set<usize>,
        outs: Set<usize>,
    ) -> bool {
        &&& v.place_names == o.place_names
        &&& v.marking == o.marking
        &&& v.groups == o.groups
        &&& v.trans_names == o.trans_names.push(nm)
        &&& forall|q: usize, t2: usize|
            #![trigger v.has_pt(q, t2)]
            #![trigger v.has_tp(t2, q)]
            q < v.n_places() && t2 < v.n_transitions() ==> (v.has_pt(q, t2) == (if t2
                < o.n_transitions() {
                o.has_pt(q, t2)
            } else {
                ins.contains(q)
            })) && (v.has_tp(t2, q) == (if t2 < o.n_transitions() {
                o.has_tp(t2, q)
            } else {
                outs.contains(q)
            }))
    }
}

impl NetView {
    /// The net `v` is the net `o` plus possibly some fresh unmarked,
    /// arc-free places (block entry and exit places) and exactly one
    /// transition named `nm` consuming from `ins` and producing into
    /// `outs`; groups and all older arcs are unchanged.
    pub open spec fn adds_blocks_and_transition(
        o: NetView,
        v: NetView,
        nm: Option<Seq<char>>,
        ins: Set<usize>,
        outs: Set<usize>,
    ) -> bool {
        &&& o.place_names.len() <= v.place_names.len()
        &&& forall|i: int|
            0 <= i < o.place_names.len() ==> v.place_names[i] == o.place_names[i]
        &&& v.marking.len() == v.place_names.len()
        &&& forall|i: int| 0 <= i < o.marking.len() ==> v.marking[i] == o.marking[i]
        &&& forall|i: int| o.marking.len() <= i < v.marking.len() ==> v.marking[i] == 0
        &&& v.groups == o.groups
        &&& v.trans_names == o.trans_names.push(nm)
        &&& forall|q: usize, t2: usize|
            #![trigger v.has_pt(q, t2)]
            #![trigger v.has_tp(t2, q)]
            q < v.n_places() && t2 < v.n_transitions() ==> (v.has_pt(q, t2) == (if t2
                < o.n_transitions() {
                q < o.n_places() && o.has_pt(q, t2)
            } else {
                ins.contains(q)
            })) && (v.has_tp(t2, q) == (if t2 < o.n_transitions() {
                q < o.n_places() && o.has_tp(t2, q)
            } else {
                outs.contains(q)
            }))
    }
}

impl NetView {
    /// The net `v` is the net `o` plus possibly some fresh, unmarked,
    /// arc-free places: what lazily creating basic blocks adds.
    pub open spec fn grows_quiet_places(o: NetView, v: NetView) -> bool {
        &&& o.place_names.len() <= v.place_names.len()
        &&& forall|i: int| 0 <= i < o.place_names.len() ==> v.place_names[i] == o.place_names[i]
        &&& v.marking.len() == v.place_names.len()
        &&& forall|i: int| 0 <= i < o.marking.len() ==> v.marking[i] == o.marking[i]
        &&& forall|i: int| o.marking.len() <= i < v.marking.len() ==> v.marking[i] == 0
        &&& v.trans_names == o.trans_names
        &&& v.groups == o.groups
        &&& v.pt.len() == v.place_names.len()
        &&& forall|q: int| 0 <= q < o.place_names.len() ==> v.pt[q] == o.pt[q]
        &&& forall|q: int|
            o.place_names.len() <= q < v.place_names.len() ==> v.pt[q] == Seq::<usize>::empty()
        &&& v.tp == o.tp
    }
}

/// Quiet place growth followed by one bridging transition is exactly the
/// net effect of a control-flow terminator that may create its target
/// block lazily.
pub proof fn lemma_grow_then_bridge(
    o: NetView,
    mid: NetView,
    v: NetView,
    nm: Option<Seq<char>>,
    ins: Set<usize>,
    outs: Set<usize>,
)
    requires
        o.wf(),
        NetView::grows_quiet_places(o, mid),
        NetView::adds_transition(mid, v, nm, ins, outs),
    ensures
        NetView::adds_blocks_and_transition(o, v, nm, ins, outs),
{
    assert forall|q: usize, t2: usize|
        q < v.n_places() && t2 < v.n_transitions() implies (#[trigger] v.has_pt(q, t2) == (if t2
        < o.n_transitions() {
        q < o.n_places() && o.has_pt(q, t2)
    } else {
        ins.contains(q)
    })) && (#[trigger] v.has_tp(t2, q) == (if t2 < o.n_transitions() {
        q < o.n_places() && o.has_tp(t2, q)
    } else {
        outs.contains(q)
    })) by {
        if t2 < o.n_transitions() {
            assert(mid.n_transitions() == o.n_transitions());
            assert(v.n_places() == mid.n_places());
            assert(q < mid.n_places() && t2 < mid.n_transitions());
            assert(v.has_pt(q, t2) == mid.has_pt(q, t2));
            assert(v.has_tp(t2, q) == mid.has_tp(t2, q));
            if q < o.n_places() {
                assert(mid.pt[q as int] == o.pt[q as int]);
            } else {
                assert(mid.pt[q as int] == Seq::<usize>::empty());
                if o.has_tp(t2, q) {
                    let j = choose|j: int|
                        0 <= j < o.tp[t2 as int].len() && o.tp[t2 as int][j] == q;
                    assert(o.tp[t2 as int][j] < o.n_places());
                }
                assert(mid.tp[t2 as int] == o.tp[t2 as int]);
            }
        }
    }
}


/// Establish `adds_transition` from its parts.
pub proof fn lemma_adds_transition(
    o: NetView,
    v: NetView,
    nm: Option<Seq<char>>,
    ins: Set<usize>,
    outs: Set<usize>,
)
    requires
        v.place_names == o.place_names,
        v.marking == o.marking,
        v.groups == o.groups,
        v.trans_names == o.trans_names.push(nm),
        forall|q: usize, t2: usize|
            q < v.n_places() && t2 < v.n_transitions() ==> #[trigger] v.has_pt(q, t2) == (if t2
                < o.n_transitions() {
                o.has_pt(q, t2)
            } else {
                ins.contains(q)
            }),
        forall|q: usize, t2: usize|
            q < v.n_places() && t2 < v.n_transitions() ==> #[trigger] v.has_tp(t2, q) == (if t2
                < o.n_transitions() {
                o.has_tp(t2, q)
            } else {
                outs.contains(q)
            }),
    ensures
        NetView::adds_transition(o, v, nm, ins, outs),
{
}

impl Place {
    /// The reference is in range for the model `v`.
    pub open spec fn ok(self, v: NetView) -> bool {
        self.index < v.n_places()
    }
}

impl Transition {
    /// The reference is in range for the model `v`.
    pub open spec fn ok(self, v: NetView) -> bool {
        self.index < v.n_transitions()
    }
}

fn vec_contains(v: &Vec<usize>, x: usize) -> (b: bool)
    ensures
        b == v@.contains(x),
{
    let mut i: usize = 0;
    while i < v.len()
        invariant
            i <= v.len(),
            forall|j: int| 0 <= j < i ==> v@[j] != x,
        decreases v.len() - i,
    {
        if v[i] == x {
            return true;
        }
        i = i + 1;
    }
    false
}

impl PetriNet {
    pub fn new() -> (net: PetriNet)
        ensures
            net@.wf(),
            net@.n_places() == 0,
            net@.n_transitions() == 0,
            net@.groups.len() == 0,
    {
        PetriNet {
            places: Vec::new(),
            transitions: Vec::new(),
            flow: Flow { pt: Vec::new(), tp: Vec::new() },
            initial_marking: Vec::new(),
            groups: Ghost(Seq::empty()),
        }
    }

    /// Append a fresh place carrying `annotation` and `initial_tokens`.
    pub fn add_place(&mut self, annotation: Option<String>, initial_tokens: Tokens) -> (p: Place)
        requires
            old(self)@.wf(),
        ensures
            final(self)@.wf(),
            p.index == old(self)@.n_places(),
            final(self)@.place_names == old(self)@.place_names.push(name_view(annotation)),
            final(self)@.marking == old(self)@.marking.push(initial_tokens),
            final(self)@.pt == old(self)@.pt.push(Seq::empty()),
            final(self)@.trans_names == old(self)@.trans_names,
            final(self)@.tp == old(self)@.tp,
            final(self)@.groups == old(self)@.groups,
            final(self)@.is_free(p.index),
            old(self)@.balanced() ==> final(self)@.balanced(),
    {
        let index = self.places.len();
        let ghost annot_view = name_view(annotation);
        self.places.push(annotation);
        self.flow.pt.push(Vec::new());
        self.initial_marking.push(initial_tokens);
        proof {
            let o = old(self)@;
            let v = self@;
            assert(v.groups == o.groups);
            assert(v.place_names =~= o.place_names.push(annot_view));
            assert(v.pt =~= o.pt.push(Seq::empty()));
            assert forall|p: int, j: int|
                0 <= p < v.pt.len() && 0 <= j < v.pt[p].len() implies v.pt[p][j]
                < v.trans_names.len() by {
                if p < o.pt.len() {
                    assert(v.pt[p] == o.pt[p]);
                } else {
                    assert(v.pt[p] == Seq::<usize>::empty());
                }
            }
            assert forall|p: int, j: int, k: int|
                0 <= p < v.pt.len() && 0 <= j < k < v.pt[p].len() implies v.pt[p][j]
                != v.pt[p][k] by {
                if p < o.pt.len() {
                    assert(v.pt[p] == o.pt[p]);
                } else {
                    assert(v.pt[p] == Seq::<usize>::empty());
                }
            }
            assert(v.wf());
            assert forall|i: int| 0 <= i < v.groups.len() implies !v.groups[i].contains(
                index,
            ) by {
                if v.groups[i].contains(index) {
                    let j = choose|j: int|
                        0 <= j < v.groups[i].len() && v.groups[i][j] == index;
                    assert(o.groups[i][j] < o.place_names.len());
                }
            }
            if o.balanced() {
                lemma_balanced_add_place(o, v);
            }
        }
        Place { index }
    }

    /// Append a fresh transition carrying `annotation`.
    pub fn add_transition(&mut self, annotation: Option<String>) -> (t: Transition)
        requires
            old(self)@.wf(),
        ensures
            final(self)@.wf(),
            t.index == old(self)@.n_transitions(),
            final(self)@.trans_names == old(self)@.trans_names.push(name_view(annotation)),
            final(self)@.tp == old(self)@.tp.push(Seq::empty()),
            final(self)@.place_names == old(self)@.place_names,
            final(self)@.marking == old(self)@.marking,
            final(self)@.pt == old(self)@.pt,
            final(self)@.groups == old(self)@.groups,
            forall|p: usize| p < final(self)@.n_places() ==> !final(self)@.has_pt(p, t.index),
            forall|p: usize| p < final(self)@.n_places() ==> !final(self)@.has_tp(t.index, p),
            old(self)@.balanced() ==> final(self)@.balanced(),
    {
        let index = self.transitions.len();
        let ghost annot_view = name_view(annotation);
        self.transitions.push(annotation);
        self.flow.tp.push(Vec::new());
        proof {
            let o = old(self)@;
            let v = self@;
            assert(v.groups == o.groups);
            assert(v.trans_names =~= o.trans_names.push(annot_view));
            assert(v.tp =~= o.tp.push(Seq::empty()));
            assert forall|t: int, j: int|
                0 <= t < v.tp.len() && 0 <= j < v.tp[t].len() implies v.tp[t][j]
                < v.place_names.len() by {
                if t < o.tp.len() {
                    assert(v.tp[t] == o.tp[t]);
                } else {
                    assert(v.tp[t] == Seq::<usize>::empty());
                }
            }
            assert forall|t: int, j: int, k: int|
                0 <= t < v.tp.len() && 0 <= j < k < v.tp[t].len() implies v.tp[t][j]
                != v.tp[t][k] by {
                if t < o.tp.len() {
                    assert(v.tp[t] == o.tp[t]);
                } else {
                    assert(v.tp[t] == Seq::<usize>::empty());
                }
            }
            assert(v.wf());
            assert forall|p: usize| p < v.n_places() implies !v.has_pt(p, index) by {
                assert(v.pt[p as int] == o.pt[p as int]);
                if v.pt[p as int].contains(index) {
                    let j = choose|j: int|
                        0 <= j < v.pt[p as int].len() && v.pt[p as int][j] == index;
                    assert(o.pt[p as int][j] < o.trans_names.len());
                }
            }
            assert forall|p: usize| p < v.n_places() implies !v.has_tp(index, p) by {
                assert(v.tp[index as int] == Seq::<usize>::empty());
            }
            if o.balanced() {
                lemma_balanced_add_transition(o, v);
            }
        }
        Transition { index }
    }

    /// Replace the name of a node.
    pub fn set_name(&mut self, node: Node, name: String) -> (r: Result<(), PetriError>)
        requires
            old(self)@.wf(),
        ensures
            final(self)@.wf(),
            final(self)@.marking == old(self)@.marking,
            final(self)@.pt == old(self)@.pt,
            final(self)@.tp == old(self)@.tp,
            final(self)@.groups == old(self)@.groups,
            old(self)@.balanced() ==> final(self)@.balanced(),
            match node {
                Node::Place(p) => {
                    if p.ok(old(self)@) {
                        &&& r is Ok
                        &&& final(self)@.place_names == old(self)@.place_names.update(
                            p.index as int,
                            Some(name@),
                        )
                        &&& final(self)@.trans_names == old(self)@.trans_names
                    } else {
                        &&& r == Result::<(), PetriError>::Err(PetriError::PlaceNotFound)
                        &&& *final(self) == *old(self)
                    }
                },
                Node::Transition(t) => {
                    if t.ok(old(self)@) {
                        &&& r is Ok
                        &&& final(self)@.trans_names == old(self)@.trans_names.update(
                            t.index as int,
                            Some(name@),
                        )
                        &&& final(self)@.place_names == old(self)@.place_names
                    } else {
                        &&& r == Result::<(), PetriError>::Err(PetriError::TransitionNotFound)
                        &&& *final(self) == *old(self)
                    }
                },
            },
    {
        match node {
            Node::Place(p) => {
                if p.index < self.places.len() {
                    let ghost nv = name@;
                    self.places.set(p.index, Some(name));
                    proof {
                        assert(self@.groups == old(self)@.groups);
                        assert(self@.place_names =~= old(self)@.place_names.update(
                            p.index as int,
                            Some(nv),
                        ));
                        assert(self@.wf());
                        if old(self)@.balanced() {
                            lemma_balanced_same_flow(old(self)@, self@);
                        }
                    }
                    Ok(())
                } else {
                    Err(PetriError::PlaceNotFound)
                }
            },
            Node::Transition(t) => {
                if t.index < self.transitions.len() {
                    let ghost nv = name@;
                    self.transitions.set(t.index, Some(name));
                    proof {
                        assert(self@.groups == old(self)@.groups);
                        assert(self@.trans_names =~= old(self)@.trans_names.update(
                            t.index as int,
                            Some(nv),
                        ));
                        assert(self@.wf());
                        if old(self)@.balanced() {
                            lemma_balanced_same_flow(old(self)@, self@);
                        }
                    }
                    Ok(())
                } else {
                    Err(PetriError::TransitionNotFound)
                }
            },
        }
    }

    /// Replace the initial marking of a place.
    pub fn set_marking(&mut self, place: Place, tokens: Tokens) -> (r: Result<(), PetriError>)
        requires
            old(self)@.wf(),
        ensures
            final(self)@.wf(),
            final(self)@.place_names == old(self)@.place_names,
            final(self)@.trans_names == old(self)@.trans_names,
            final(self)@.pt == old(self)@.pt,
            final(self)@.tp == old(self)@.tp,
            final(self)@.groups == old(self)@.groups,
            old(self)@.balanced() ==> final(self)@.balanced(),
            if place.ok(old(self)@) {
                &&& r is Ok
                &&& final(self)@.marking == old(self)@.marking.update(place.index as int, tokens)
            } else {
                &&& r == Result::<(), PetriError>::Err(PetriError::PlaceNotFound)
                &&& *final(self) == *old(self)
            },
    {
        if place.index < self.initial_marking.len() {
            self.initial_marking.set(place.index, tokens);
            proof {
                assert(self@.groups == old(self)@.groups);
                assert(self@.marking =~= old(self)@.marking.update(place.index as int, tokens));
                assert(self@.wf());
                if old(self)@.balanced() {
                    lemma_balanced_same_flow(old(self)@, self@);
                }
            }
            Ok(())
        } else {
            Err(PetriError::PlaceNotFound)
        }
    }

    /// All place references of the net, in creation order.
    pub fn places(&self) -> (r: Vec<Place>)
        ensures
            r@.len() == self@.n_places(),
            forall|i: int| 0 <= i < r@.len() ==> r@[i].index == i,
    {
        let mut r: Vec<Place> = Vec::new();
        let mut i: usize = 0;
        while i < self.places.len()
            invariant
                i <= self.places.len(),
                r@.len() == i,
                forall|j: int| 0 <= j < i ==> r@[j].index == j,
            decreases self.places.len() - i,
        {
            r.push(Place { index: i });
            i = i + 1;
        }
        r
    }

    /// All transition references of the net, in creation order.
    pub fn transitions(&self) -> (r: Vec<Transition>)
        ensures
            r@.len() == self@.n_transitions(),
            forall|i: int| 0 <= i < r@.len() ==> r@[i].index == i,
    {
        let mut r: Vec<Transition> = Vec::new();
        let mut i: usize = 0;
        while i < self.transitions.len()
            invariant
                i <= self.transitions.len(),
                r@.len() == i,
                forall|j: int| 0 <= j < i ==> r@[j].index == j,
            decreases self.transitions.len() - i,
        {
            r.push(Transition { index: i });
            i = i + 1;
        }
        r
    }

    /// Add an arc from a place to a transition; a duplicate arc is a no-op.
    pub(crate) fn add_pt_edge(&mut self, from_p: Place, to_t: Transition) -> (r: Result<
        (),
        PetriError,
    >)
        requires
            old(self)@.wf(),
        ensures
            final(self)@.wf(),
            final(self)@.place_names == old(self)@.place_names,
            final(self)@.trans_names == old(self)@.trans_names,
            final(self)@.marking == old(self)@.marking,
            final(self)@.tp == old(self)@.tp,
            final(self)@.groups == old(self)@.groups,
            if !from_p.ok(old(self)@) {
                &&& r == Result::<(), PetriError>::Err(PetriError::PlaceNotFound)
                &&& *final(self) == *old(self)
            } else if !to_t.ok(old(self)@) {
                &&& r == Result::<(), PetriError>::Err(PetriError::TransitionNotFound)
                &&& *final(self) == *old(self)
            } else {
                &&& r is Ok
                &&& final(self)@.pt == (if old(self)@.has_pt(from_p.index, to_t.index) {
                    old(self)@.pt
                } else {
                    old(self)@.pt.update(
                        from_p.index as int,
                        old(self)@.pt[from_p.index as int].push(to_t.index),
                    )
                })
            },
    {
        if from_p.index >= self.places.len() {
            return Err(PetriError::PlaceNotFound);
        }
        if to_t.index >= self.transitions.len() {
            return Err(PetriError::TransitionNotFound);
        }
        let present = vec_contains(&self.flow.pt[from_p.index], to_t.index);
        if !present {
            let row: &mut Vec<usize> = &mut self.flow.pt[from_p.index];
            row.push(to_t.index);
            proof {
                let o = old(self)@;
                let v = self@;
                assert(v.groups == o.groups);
                assert(v.pt =~= o.pt.update(
                    from_p.index as int,
                    o.pt[from_p.index as int].push(to_t.index),
                ));
                let pi = from_p.index as int;
                assert forall|p: int, j: int|
                    0 <= p < v.pt.len() && 0 <= j < v.pt[p].len() implies v.pt[p][j]
                    < v.trans_names.len() by {
                    if p != pi {
                        assert(v.pt[p] == o.pt[p]);
                    } else if j < o.pt[pi].len() {
                        assert(v.pt[pi][j] == o.pt[pi][j]);
                    } else {
                        assert(v.pt[pi][j] == to_t.index);
                    }
                }
                assert forall|p: int, j: int, k: int|
                    0 <= p < v.pt.len() && 0 <= j < k < v.pt[p].len() implies v.pt[p][j]
                    != v.pt[p][k] by {
                    if p != pi {
                        assert(v.pt[p] == o.pt[p]);
                    } else if k < o.pt[pi].len() {
                        assert(v.pt[pi][j] == o.pt[pi][j]);
                        assert(v.pt[pi][k] == o.pt[pi][k]);
                    } else {
                        assert(v.pt[pi][j] == o.pt[pi][j]);
                        assert(v.pt[pi][k] == to_t.index);
                        assert(!o.pt[pi].contains(to_t.index));
                        assert(o.pt[pi][j] != to_t.index);
                    }
                }
                assert(v.wf());
            }
        } else {
            proof {
                assert(self@.pt =~= old(self)@.pt);
            }
        }
        Ok(())
    }

    /// Add an arc from a transition to a place; a duplicate arc is a no-op.
    pub(crate) fn add_tp_edge(&mut self, from_t: Transition, to_p: Place) -> (r: Result<
        (),
        PetriError,
    >)
        requires
            old(self)@.wf(),
        ensures
            final(self)@.wf(),
            final(self)@.place_names == old(self)@.place_names,
            final(self)@.trans_names == old(self)@.trans_names,
            final(self)@.marking == old(self)@.marking,
            final(self)@.pt == old(self)@.pt,
            final(self)@.groups == old(self)@.groups,
            if !from_t.ok(old(self)@) {
                &&& r == Result::<(), PetriError>::Err(PetriError::TransitionNotFound)
                &&& *final(self) == *old(self)
            } else if !to_p.ok(old(self)@) {
                &&& r == Result::<(), PetriError>::Err(PetriError::PlaceNotFound)
                &&& *final(self) == *old(self)
            } else {
                &&& r is Ok
                &&& final(self)@.tp == (if old(self)@.has_tp(from_t.index, to_p.index) {
                    old(self)@.tp
                } else {
                    old(self)@.tp.update(
                        from_t.index as int,
                        old(self)@.tp[from_t.index as int].push(to_p.index),
                    )
                })
            },
    {
        if from_t.index >= self.transitions.len() {
            return Err(PetriError::TransitionNotFound);
        }
        if to_p.index >= self.places.len() {
            return Err(PetriError::PlaceNotFound);
        }
        let present = vec_contains(&self.flow.tp[from_t.index], to_p.index);
        if !present {
            let row: &mut Vec<usize> = &mut self.flow.tp[from_t.index];
            row.push(to_p.index);
            proof {
                let o = old(self)@;
                let v = self@;
                assert(v.groups == o.groups);
                assert(v.tp =~= o.tp.update(
                    from_t.index as int,
                    o.tp[from_t.index as int].push(to_p.index),
                ));
                let ti = from_t.index as int;
                assert forall|t: int, j: int|
                    0 <= t < v.tp.len() && 0 <= j < v.tp[t].len() implies v.tp[t][j]
                    < v.place_names.len() by {
                    if t != ti {
                        assert(v.tp[t] == o.tp[t]);
                    } else if j < o.tp[ti].len() {
                        assert(v.tp[ti][j] == o.tp[ti][j]);
                    } else {
                        assert(v.tp[ti][j] == to_p.index);
                    }
                }
                assert forall|t: int, j: int, k: int|
                    0 <= t < v.tp.len() && 0 <= j < k < v.tp[t].len() implies v.tp[t][j]
                    != v.tp[t][k] by {
                    if t != ti {
                        assert(v.tp[t] == o.tp[t]);
                    } else if k < o.tp[ti].len() {
                        assert(v.tp[ti][j] == o.tp[ti][j]);
                        assert(v.tp[ti][k] == o.tp[ti][k]);
                    } else {
                        assert(v.tp[ti][j] == o.tp[ti][j]);
                        assert(v.tp[ti][k] == to_p.index);
                        assert(!o.tp[ti].contains(to_p.index));
                        assert(o.tp[ti][j] != to_p.index);
                    }
                }
                assert(v.wf());
            }
        } else {
            proof {
                assert(self@.tp =~= old(self)@.tp);
            }
        }
        Ok(())
    }

    /// Add an arc between two nodes of opposite kinds.
    pub fn add_edge(&mut self, from: Node, to: Node) -> (r: Result<(), PetriError>)
        requires
            old(self)@.wf(),
        ensures
            final(self)@.wf(),
            final(self)@.place_names == old(self)@.place_names,
            final(self)@.trans_names == old(self)@.trans_names,
            final(self)@.marking == old(self)@.marking,
            final(self)@.groups == old(self)@.groups,
            match (from, to) {
                (Node::Place(p), Node::Transition(t)) => {
                    &&& final(self)@.tp == old(self)@.tp
                    &&& if !p.ok(old(self)@) {
                        &&& r == Result::<(), PetriError>::Err(PetriError::PlaceNotFound)
                        &&& *final(self) == *old(self)
                    } else if !t.ok(old(self)@) {
                        &&& r == Result::<(), PetriError>::Err(PetriError::TransitionNotFound)
                        &&& *final(self) == *old(self)
                    } else {
                        &&& r is Ok
                        &&& final(self)@.has_pt(p.index, t.index)
                        &&& final(self)@.pt == (if old(self)@.has_pt(p.index, t.index) {
                            old(self)@.pt
                        } else {
                            old(self)@.pt.update(
                                p.index as int,
                                old(self)@.pt[p.index as int].push(t.index),
                            )
                        })
                    }
                },
                (Node::Transition(t), Node::Place(p)) => {
                    &&& final(self)@.pt == old(self)@.pt
                    &&& if !t.ok(old(self)@) {
                        &&& r == Result::<(), PetriError>::Err(PetriError::TransitionNotFound)
                        &&& *final(self) == *old(self)
                    } else if !p.ok(old(self)@) {
                        &&& r == Result::<(), PetriError>::Err(PetriError::PlaceNotFound)
                        &&& *final(self) == *old(self)
                    } else {
                        &&& r is Ok
                        &&& final(self)@.has_tp(t.index, p.index)
                        &&& final(self)@.tp == (if old(self)@.has_tp(t.index, p.index) {
                            old(self)@.tp
                        } else {
                            old(self)@.tp.update(
                                t.index as int,
                                old(self)@.tp[t.index as int].push(p.index),
                            )
                        })
                    }
                },
                _ => {
                    &&& r == Result::<(), PetriError>::Err(PetriError::BipartitionViolation)
                    &&& *final(self) == *old(self)
                },
            },
    {
        match (from, to) {
            (Node::Place(p), Node::Transition(t)) => {
                let r = self.add_pt_edge(p, t);
                proof {
                    let o = old(self)@;
                    if p.ok(o) && t.ok(o) && !o.has_pt(p.index, t.index) {
                        let row = o.pt[p.index as int].push(t.index);
                        assert(self@.pt[p.index as int] == row);
                        assert(row[row.len() - 1] == t.index);
                        assert(self@.has_pt(p.index, t.index));
                    }
                }
                r
            },
            (Node::Transition(t), Node::Place(p)) => {
                let r = self.add_tp_edge(t, p);
                proof {
                    let o = old(self)@;
                    if p.ok(o) && t.ok(o) && !o.has_tp(t.index, p.index) {
                        let row = o.tp[t.index as int].push(p.index);
                        assert(self@.tp[t.index as int] == row);
                        assert(row[row.len() - 1] == p.index);
                        assert(self@.has_tp(t.index, p.index));
                    }
                }
                r
            },
            _ => Err(PetriError::BipartitionViolation),
        }
    }
}

impl PetriNet {
    /// Number of places.
    pub fn num_places(&self) -> (n: usize)
        ensures
            n == self@.n_places(),
    {
        self.places.len()
    }

    /// Number of transitions.
    pub fn num_transitions(&self) -> (n: usize)
        ensures
            n == self@.n_transitions(),
    {
        self.transitions.len()
    }

    /// The name of place `i`.
    pub fn place_name(&self, i: usize) -> (r: &Option<String>)
        requires
            i < self@.n_places(),
        ensures
            name_view(*r) == self@.place_names[i as int],
    {
        &self.places[i]
    }

    /// The name of transition `i`.
    pub fn transition_name(&self, i: usize) -> (r: &Option<String>)
        requires
            i < self@.n_transitions(),
        ensures
            name_view(*r) == self@.trans_names[i as int],
    {
        &self.transitions[i]
    }

    /// The initial marking of place `i`.
    pub fn marking_at(&self, i: usize) -> (r: Tokens)
        requires
            self@.wf(),
            i < self@.n_places(),
        ensures
            r == self@.marking[i as int],
    {
        self.initial_marking[i]
    }

    /// Number of arcs leaving place `p`.
    pub fn pt_row_len(&self, p: usize) -> (n: usize)
        requires
            self@.wf(),
            p < self@.n_places(),
        ensures
            n == self@.pt[p as int].len(),
    {
        self.flow.pt[p].len()
    }

    /// The `j`-th transition fed by place `p`.
    pub fn pt_entry(&self, p: usize, j: usize) -> (t: usize)
        requires
            self@.wf(),
            p < self@.n_places(),
            j < self@.pt[p as int].len(),
        ensures
            t == self@.pt[p as int][j as int],
    {
        self.flow.pt[p][j]
    }

    /// Number of arcs leaving transition `t`.
    pub fn tp_row_len(&self, t: usize) -> (n: usize)
        requires
            self@.wf(),
            t < self@.n_transitions(),
        ensures
            n == self@.tp[t as int].len(),
    {
        self.flow.tp[t].len()
    }

    /// The `j`-th place fed by transition `t`.
    pub fn tp_entry(&self, t: usize, j: usize) -> (p: usize)
        requires
            self@.wf(),
            t < self@.n_transitions(),
            j < self@.tp[t as int].len(),
        ensures
            p == self@.tp[t as int][j as int],
    {
        self.flow.tp[t][j]
    }
}

impl Transition {
    /// The advisory name of the transition, if any.
    pub fn annotation<'net>(&self, net: &'net PetriNet) -> (r: Result<
        &'net Option<String>,
        PetriError,
    >)
        ensures
            match r {
                Ok(name) => self.ok(net@) && name_view(*name) == net@.trans_names[self.index as int],
                Err(e) => e == PetriError::TransitionNotFound && !self.ok(net@),
            },
    {
        if self.index < net.transitions.len() {
            Ok(&net.transitions[self.index])
        } else {
            Err(PetriError::TransitionNotFound)
        }
    }
}

impl Place {
    /// The advisory name of the place, if any.
    pub fn annotation<'net>(&self, net: &'net PetriNet) -> (r: Result<
        &'net Option<String>,
        PetriError,
    >)
        ensures
            match r {
                Ok(name) => self.ok(net@) && name_view(*name) == net@.place_names[self.index as int],
                Err(e) => e == PetriError::PlaceNotFound && !self.ok(net@),
            },
    {
        if self.index < net.places.len() {
            Ok(&net.places[self.index])
        } else {
            Err(PetriError::PlaceNotFound)
        }
    }

    /// The initial marking of the place.
    pub fn marking(&self, net: &PetriNet) -> (r: Result<Tokens, PetriError>)
        requires
            net@.wf(),
        ensures
            match r {
                Ok(tokens) => self.ok(net@) && tokens == net@.marking[self.index as int],
                Err(e) => e == PetriError::PlaceNotFound && !self.ok(net@),
            },
    {
        if self.index < net.initial_marking.len() {
            Ok(net.initial_marking[self.index])
        } else {
            Err(PetriError::PlaceNotFound)
        }
    }
}

// -------------------------------------------------------------------------
// Group balance: every transition must consume as many tokens from a group
// of places as it produces into it, so that a group's token sum is an
// invariant of the token game.

impl NetView {
    /// How many places of `ps` have an arc into transition `t`.
    pub open spec fn in_cnt(self, ps: Seq<usize>, t: usize) -> int
        decreases ps.len(),
    {
        if ps.len() == 0 {
            0
        } else {
            self.in_cnt(ps.drop_last(), t) + if self.has_pt(ps.last(), t) {
                1int
            } else {
                0int
            }
        }
    }

    /// How many places of `ps` transition `t` has an arc into.
    pub open spec fn out_cnt(self, ps: Seq<usize>, t: usize) -> int
        decreases ps.len(),
    {
        if ps.len() == 0 {
            0
        } else {
            self.out_cnt(ps.drop_last(), t) + if self.has_tp(t, ps.last()) {
                1int
            } else {
                0int
            }
        }
    }

    /// Transition `t` conserves the token sum of the places `ps`.
    pub open spec fn trans_balanced(self, ps: Seq<usize>, t: usize) -> bool {
        self.in_cnt(ps, t) == self.out_cnt(ps, t)
    }

    /// Every transition conserves the token sum of the places `ps`.
    pub open spec fn group_balanced(self, ps: Seq<usize>) -> bool {
        forall|t: usize| t < self.n_transitions() ==> self.trans_balanced(ps, t)
    }

    /// Every transition conserves the token sum of every registered group.
    pub open spec fn balanced(self) -> bool {
        forall|i: int| 0 <= i < self.groups.len() ==> self.group_balanced(#[trigger] self.groups[i])
    }

    /// Places `a` and `b` are members of one registered group.
    pub open spec fn same_group(self, a: usize, b: usize) -> bool {
        exists|i: int|
            0 <= i < self.groups.len() && #[trigger] self.groups[i].contains(a)
                && self.groups[i].contains(b)
    }

    /// Place `p` is a member of some registered group.
    pub open spec fn grouped(self, p: usize) -> bool {
        exists|i: int| 0 <= i < self.groups.len() && #[trigger] self.groups[i].contains(p)
    }
}

proof fn lemma_push_contains<T>(s: Seq<T>, x: T, y: T)
    ensures
        s.push(x).contains(y) <==> (s.contains(y) || x == y),
{
    if s.push(x).contains(y) {
        let j = choose|j: int| 0 <= j < s.push(x).len() && s.push(x)[j] == y;
        if j < s.len() {
            assert(s[j] == y);
        }
    }
    if s.contains(y) {
        let j = choose|j: int| 0 <= j < s.len() && s[j] == y;
        assert(s.push(x)[j] == y);
    }
    if x == y {
        assert(s.push(x)[s.len() as int] == y);
    }
}

/// `in_cnt` only reads the `pt` rows of the members.
proof fn lemma_in_cnt_rows_equal(v1: NetView, v2: NetView, ps: Seq<usize>, t: usize)
    requires
        forall|k: int| 0 <= k < ps.len() ==> v2.pt[#[trigger] ps[k] as int] == v1.pt[ps[k] as int],
    ensures
        v2.in_cnt(ps, t) == v1.in_cnt(ps, t),
    decreases ps.len(),
{
    if ps.len() > 0 {
        assert(forall|k: int|
            0 <= k < ps.drop_last().len() ==> #[trigger] ps.drop_last()[k] == ps[k]);
        lemma_in_cnt_rows_equal(v1, v2, ps.drop_last(), t);
        assert(ps.last() == ps[ps.len() - 1]);
    }
}

/// `out_cnt` at `t` only reads the row `tp[t]`.
proof fn lemma_out_cnt_row_equal(v1: NetView, v2: NetView, ps: Seq<usize>, t: usize)
    requires
        v2.tp[t as int] == v1.tp[t as int],
    ensures
        v2.out_cnt(ps, t) == v1.out_cnt(ps, t),
    decreases ps.len(),
{
    if ps.len() > 0 {
        lemma_out_cnt_row_equal(v1, v2, ps.drop_last(), t);
    }
}

/// Counts are zero for a transition no member is connected to.
proof fn lemma_cnt_zero(v: NetView, ps: Seq<usize>, t: usize)
    requires
        forall|k: int| 0 <= k < ps.len() ==> !v.has_pt(#[trigger] ps[k], t),
        forall|k: int| 0 <= k < ps.len() ==> !v.has_tp(t, #[trigger] ps[k]),
    ensures
        v.in_cnt(ps, t) == 0,
        v.out_cnt(ps, t) == 0,
    decreases ps.len(),
{
    if ps.len() > 0 {
        assert(forall|k: int|
            0 <= k < ps.drop_last().len() ==> #[trigger] ps.drop_last()[k] == ps[k]);
        lemma_cnt_zero(v, ps.drop_last(), t);
        assert(ps.last() == ps[ps.len() - 1]);
    }
}

/// Adding the arc `q -> t` raises `in_cnt` at `t` by one when `q` is a
/// member, and by nothing when it is not; counts at other transitions do
/// not move.
proof fn lemma_in_cnt_add_arc(v1: NetView, v2: NetView, ps: Seq<usize>, q: usize, t: usize)
    requires
        q < v1.pt.len(),
        !v1.pt[q as int].contains(t),
        v2.pt == v1.pt.update(q as int, v1.pt[q as int].push(t)),
        forall|j: int, k: int| 0 <= j < k < ps.len() ==> ps[j] != ps[k],
        forall|k: int| 0 <= k < ps.len() ==> #[trigger] ps[k] < v1.pt.len(),
    ensures
        v2.in_cnt(ps, t) == v1.in_cnt(ps, t) + if ps.contains(q) {
            1int
        } else {
            0int
        },
        forall|t2: usize| t2 != t ==> v2.in_cnt(ps, t2) == v1.in_cnt(ps, t2),
    decreases ps.len(),
{
    assert forall|t2: usize, k: int| 0 <= k < ps.len() implies (#[trigger] v2.has_pt(ps[k], t2)
        == (v1.has_pt(ps[k], t2) || (ps[k] == q && t2 == t))) by {
        if ps[k] == q {
            assert(v2.pt[q as int] == v1.pt[q as int].push(t));
            lemma_push_contains(v1.pt[q as int], t, t2);
        } else {
            assert(v2.pt[ps[k] as int] == v1.pt[ps[k] as int]);
        }
    }
    if ps.len() == 0 {
        assert(!ps.contains(q));
    } else {
        let prefix = ps.drop_last();
        assert(forall|k: int| 0 <= k < prefix.len() ==> #[trigger] prefix[k] == ps[k]);
        assert(forall|j: int, k: int| 0 <= j < k < prefix.len() ==> prefix[j] != prefix[k]);
        lemma_in_cnt_add_arc(v1, v2, prefix, q, t);
        assert(ps.last() == ps[ps.len() - 1]);
        if ps.last() == q {
            // the last member is q: the prefix cannot contain q again
            assert forall|k: int| 0 <= k < prefix.len() implies prefix[k] != q by {
                assert(ps[k] == prefix[k]);
            }
            assert(!prefix.contains(q));
            assert(ps.contains(q)) by {
                assert(ps[ps.len() - 1] == q);
            }
            assert(v2.has_pt(ps.last(), t));
            assert(!v1.has_pt(ps.last(), t));
        } else {
            assert(v2.has_pt(ps.last(), t) == v1.has_pt(ps.last(), t));
            if ps.contains(q) {
                let j = choose|j: int| 0 <= j < ps.len() && ps[j] == q;
                assert(prefix[j] == q);
                assert(prefix.contains(q));
            } else {
                if prefix.contains(q) {
                    let j = choose|j: int| 0 <= j < prefix.len() && prefix[j] == q;
                    assert(ps[j] == q);
                }
            }
        }
        assert forall|t2: usize| t2 != t implies v2.in_cnt(ps, t2) == v1.in_cnt(ps, t2) by {
            assert(v2.in_cnt(prefix, t2) == v1.in_cnt(prefix, t2));
            assert(v2.has_pt(ps.last(), t2) == v1.has_pt(ps.last(), t2)) by {
                assert(ps[ps.len() - 1] == ps.last());
            }
        }
    }
}

/// Adding the arc `t -> q` raises `out_cnt` at `t` by one when `q` is a
/// member, and by nothing when it is not; counts at other transitions do
/// not move.
proof fn lemma_out_cnt_add_arc(v1: NetView, v2: NetView, ps: Seq<usize>, q: usize, t: usize)
    requires
        t < v1.tp.len(),
        !v1.tp[t as int].contains(q),
        v2.tp == v1.tp.update(t as int, v1.tp[t as int].push(q)),
        forall|j: int, k: int| 0 <= j < k < ps.len() ==> ps[j] != ps[k],
    ensures
        v2.out_cnt(ps, t) == v1.out_cnt(ps, t) + if ps.contains(q) {
            1int
        } else {
            0int
        },
        forall|t2: usize| t2 != t && t2 < v1.tp.len() ==> v2.out_cnt(ps, t2) == v1.out_cnt(
            ps,
            t2,
        ),
    decreases ps.len(),
{
    assert forall|t2: usize, k: int| t2 < v1.tp.len() && 0 <= k < ps.len() implies (
    #[trigger] v2.has_tp(t2, ps[k]) == (v1.has_tp(t2, ps[k]) || (ps[k] == q && t2 == t))) by {
        if t2 == t {
            assert(v2.tp[t as int] == v1.tp[t as int].push(q));
            lemma_push_contains(v1.tp[t as int], q, ps[k]);
        } else {
            assert(v2.tp[t2 as int] == v1.tp[t2 as int]);
        }
    }
    if ps.len() == 0 {
        assert(!ps.contains(q));
    } else {
        let prefix = ps.drop_last();
        assert(forall|k: int| 0 <= k < prefix.len() ==> #[trigger] prefix[k] == ps[k]);
        assert(forall|j: int, k: int| 0 <= j < k < prefix.len() ==> prefix[j] != prefix[k]);
        lemma_out_cnt_add_arc(v1, v2, prefix, q, t);
        assert(ps.last() == ps[ps.len() - 1]);
        if ps.last() == q {
            assert forall|k: int| 0 <= k < prefix.len() implies prefix[k] != q by {
                assert(ps[k] == prefix[k]);
            }
            assert(!prefix.contains(q));
            assert(ps.contains(q)) by {
                assert(ps[ps.len() - 1] == q);
            }
            assert(v2.has_tp(t, ps.last()));
            assert(!v1.has_tp(t, ps.last()));
        } else {
            assert(v2.has_tp(t, ps.last()) == v1.has_tp(t, ps.last()));
            if ps.contains(q) {
                let j = choose|j: int| 0 <= j < ps.len() && ps[j] == q;
                assert(prefix[j] == q);
                assert(prefix.contains(q));
            } else {
                if prefix.contains(q) {
                    let j = choose|j: int| 0 <= j < prefix.len() && prefix[j] == q;
                    assert(ps[j] == q);
                }
            }
        }
        assert forall|t2: usize| t2 != t && t2 < v1.tp.len() implies v2.out_cnt(ps, t2)
            == v1.out_cnt(ps, t2) by {
            assert(v2.out_cnt(prefix, t2) == v1.out_cnt(prefix, t2));
            assert(v2.has_tp(t2, ps.last()) == v1.has_tp(t2, ps.last())) by {
                assert(ps[ps.len() - 1] == ps.last());
            }
        }
    }
}

impl PetriNet {
    /// Record a set of places as a conserved group.  The places must be
    /// fresh: no arcs touch them yet and no earlier group contains them.
    pub(crate) fn register_group(&mut self, ps: Ghost<Seq<usize>>)
        requires
            old(self)@.wf(),
            old(self)@.balanced(),
            forall|k: int| 0 <= k < ps@.len() ==> #[trigger] ps@[k] < old(self)@.n_places(),
            forall|j: int, k: int| 0 <= j < k < ps@.len() ==> ps@[j] != ps@[k],
            forall|k: int| 0 <= k < ps@.len() ==> old(self)@.is_free(#[trigger] ps@[k]),
            forall|k: int|
                0 <= k < ps@.len() ==> old(self)@.pt[#[trigger] ps@[k] as int] == Seq::<
                    usize,
                >::empty(),
            forall|t: usize, k: int|
                t < old(self)@.n_transitions() && 0 <= k < ps@.len() ==> !(#[trigger] old(
                    self,
                )@.has_tp(t, ps@[k])),
        ensures
            final(self)@.wf(),
            final(self)@.balanced(),
            final(self)@.groups == old(self)@.groups.push(ps@),
            final(self)@.place_names == old(self)@.place_names,
            final(self)@.trans_names == old(self)@.trans_names,
            final(self)@.marking == old(self)@.marking,
            final(self)@.pt == old(self)@.pt,
            final(self)@.tp == old(self)@.tp,
    {
        proof {
            let o = self@;
            let g2 = o.groups.push(ps@);
            assert(g2[g2.len() - 1] == ps@);
            assert(forall|i: int| 0 <= i < o.groups.len() ==> g2[i] == o.groups[i]);
        }
        let ghost new_groups = self.groups@.push(ps@);
        self.groups = Ghost(new_groups);
        proof {
            let o = old(self)@;
            let v = self@;
            assert(v.groups == o.groups.push(ps@));
            assert(v.pt == o.pt);
            assert(v.tp == o.tp);
            // well-formedness: the new group is in range, duplicate-free, and
            // disjoint from every earlier group because its members are free
            assert forall|i1: int, i2: int, p: usize|
                0 <= i1 < i2 < v.groups.len() && v.groups[i1].contains(p) implies !v.groups[i2].contains(
                p,
            ) by {
                if i2 == v.groups.len() - 1 {
                    assert(v.groups[i1] == o.groups[i1]);
                    if v.groups[i2].contains(p) {
                        let k = choose|k: int| 0 <= k < ps@.len() && ps@[k] == p;
                        assert(o.is_free(ps@[k]));
                    }
                } else {
                    assert(v.groups[i1] == o.groups[i1]);
                    assert(v.groups[i2] == o.groups[i2]);
                }
            }
            assert(v.wf());
            // balance: earlier groups keep their counts, and the new group
            // has no arcs at all
            assert forall|i: int| 0 <= i < v.groups.len() implies v.group_balanced(
                #[trigger] v.groups[i],
            ) by {
                if i < o.groups.len() {
                    assert(v.groups[i] == o.groups[i]);
                    assert(o.group_balanced(o.groups[i]));
                    assert forall|t: usize| t < v.n_transitions() implies v.trans_balanced(
                        v.groups[i],
                        t,
                    ) by {
                        lemma_in_cnt_rows_equal(o, v, o.groups[i], t);
                        lemma_out_cnt_row_equal(o, v, o.groups[i], t);
                        assert(o.trans_balanced(o.groups[i], t));
                    }
                } else {
                    assert(v.groups[i] == ps@);
                    assert forall|t: usize| t < v.n_transitions() implies v.trans_balanced(
                        ps@,
                        t,
                    ) by {
                        assert forall|k: int| 0 <= k < ps@.len() implies !v.has_pt(
                            #[trigger] ps@[k],
                            t,
                        ) by {
                            assert(v.pt[ps@[k] as int] == Seq::<usize>::empty());
                        }
                        assert forall|k: int| 0 <= k < ps@.len() implies !v.has_tp(
                            t,
                            #[trigger] ps@[k],
                        ) by {
                            assert(!o.has_tp(t, ps@[k]));
                            assert(v.tp[t as int] == o.tp[t as int]);
                        }
                        lemma_cnt_zero(v, ps@, t);
                    }
                }
            }
            assert(v.balanced());
        }
    }

    /// Add a control-flow arc from a free place into a transition.
    pub(crate) fn add_flow_pt(&mut self, p: Place, t: Transition) -> (r: Result<(), PetriError>)
        requires
            old(self)@.wf(),
            old(self)@.balanced(),
            p.ok(old(self)@),
            t.ok(old(self)@),
            old(self)@.is_free(p.index),
        ensures
            r is Ok,
            final(self)@.wf(),
            final(self)@.balanced(),
            final(self)@.place_names == old(self)@.place_names,
            final(self)@.trans_names == old(self)@.trans_names,
            final(self)@.marking == old(self)@.marking,
            final(self)@.groups == old(self)@.groups,
            final(self)@.tp == old(self)@.tp,
            forall|q: usize, t2: usize|
                q < old(self)@.n_places() && t2 < old(self)@.n_transitions()
                    ==> #[trigger] final(self)@.has_pt(q, t2) == (old(self)@.has_pt(q, t2) || (q
                    == p.index && t2 == t.index)),
    {
        let r = self.add_pt_edge(p, t);
        proof {
            let o = old(self)@;
            let v = self@;
            if o.has_pt(p.index, t.index) {
                assert(v.pt == o.pt);
                assert forall|q: usize, t2: usize|
                    q < o.n_places() && t2 < o.n_transitions() implies #[trigger] v.has_pt(q, t2)
                    == (o.has_pt(q, t2) || (q == p.index && t2 == t.index)) by {}
            } else {
                assert(v.pt == o.pt.update(p.index as int, o.pt[p.index as int].push(t.index)));
                assert forall|q: usize, t2: usize|
                    q < o.n_places() && t2 < o.n_transitions() implies #[trigger] v.has_pt(q, t2)
                    == (o.has_pt(q, t2) || (q == p.index && t2 == t.index)) by {
                    if q == p.index {
                        lemma_push_contains(o.pt[p.index as int], t.index, t2);
                    } else {
                        assert(v.pt[q as int] == o.pt[q as int]);
                    }
                }
            }
            // every group keeps its balance: no member row changed
            assert forall|i: int| 0 <= i < v.groups.len() implies v.group_balanced(
                #[trigger] v.groups[i],
            ) by {
                let g = v.groups[i];
                assert(o.group_balanced(g));
                assert forall|t2: usize| t2 < v.n_transitions() implies v.trans_balanced(
                    g,
                    t2,
                ) by {
                    assert forall|k: int| 0 <= k < g.len() implies v.pt[#[trigger] g[k] as int]
                        == o.pt[g[k] as int] by {
                        assert(g.contains(g[k])) by {
                            assert(g[k] == g[k]);
                        }
                        assert(g[k] != p.index);
                    }
                    lemma_in_cnt_rows_equal(o, v, g, t2);
                    lemma_out_cnt_row_equal(o, v, g, t2);
                    assert(o.trans_balanced(g, t2));
                }
            }
        }
        r
    }

    /// Add a control-flow arc from a transition into a free place.
    pub(crate) fn add_flow_tp(&mut self, t: Transition, p: Place) -> (r: Result<(), PetriError>)
        requires
            old(self)@.wf(),
            old(self)@.balanced(),
            p.ok(old(self)@),
            t.ok(old(self)@),
            old(self)@.is_free(p.index),
        ensures
            r is Ok,
            final(self)@.wf(),
            final(self)@.balanced(),
            final(self)@.place_names == old(self)@.place_names,
            final(self)@.trans_names == old(self)@.trans_names,
            final(self)@.marking == old(self)@.marking,
            final(self)@.groups == old(self)@.groups,
            final(self)@.pt == old(self)@.pt,
            forall|q: usize, t2: usize|
                q < old(self)@.n_places() && t2 < old(self)@.n_transitions()
                    ==> #[trigger] final(self)@.has_tp(t2, q) == (old(self)@.has_tp(t2, q) || (q
                    == p.index && t2 == t.index)),
    {
        let r = self.add_tp_edge(t, p);
        proof {
            let o = old(self)@;
            let v = self@;
            if o.has_tp(t.index, p.index) {
                assert(v.tp == o.tp);
                assert forall|q: usize, t2: usize|
                    q < o.n_places() && t2 < o.n_transitions() implies #[trigger] v.has_tp(t2, q)
                    == (o.has_tp(t2, q) || (q == p.index && t2 == t.index)) by {}
            } else {
                assert(v.tp == o.tp.update(t.index as int, o.tp[t.index as int].push(p.index)));
                assert forall|q: usize, t2: usize|
                    q < o.n_places() && t2 < o.n_transitions() implies #[trigger] v.has_tp(t2, q)
                    == (o.has_tp(t2, q) || (q == p.index && t2 == t.index)) by {
                    if t2 == t.index {
                        lemma_push_contains(o.tp[t.index as int], p.index, q);
                    } else {
                        assert(v.tp[t2 as int] == o.tp[t2 as int]);
                    }
                }
            }
            // every group keeps its balance: the only place gaining an
            // in-arc is free, hence no group member
            assert forall|i: int| 0 <= i < v.groups.len() implies v.group_balanced(
                #[trigger] v.groups[i],
            ) by {
                let g = v.groups[i];
                assert(o.group_balanced(g));
                assert forall|t2: usize| t2 < v.n_transitions() implies v.trans_balanced(
                    g,
                    t2,
                ) by {
                    lemma_in_cnt_rows_equal(o, v, g, t2);
                    assert forall|k: int| 0 <= k < g.len() implies (v.has_tp(
                        t2,
                        #[trigger] g[k],
                    ) == o.has_tp(t2, g[k])) by {
                        assert(g.contains(g[k])) by {
                            assert(g[k] == g[k]);
                        }
                        assert(g[k] != p.index);
                        if t2 == t.index && !o.has_tp(t.index, p.index) {
                            lemma_push_contains(o.tp[t.index as int], p.index, g[k]);
                        } else {
                            assert(v.tp[t2 as int] == o.tp[t2 as int]);
                        }
                    }
                    lemma_cnt_members(o, v, g, t2);
                    assert(o.trans_balanced(g, t2));
                }
            }
        }
        r
    }

    /// Add the read pair `p -> t` and `t -> p`: a statement that reads or
    /// writes a data place preserves its token.
    pub(crate) fn add_read_pair(&mut self, p: Place, t: Transition) -> (r: Result<(), PetriError>)
        requires
            old(self)@.wf(),
            old(self)@.balanced(),
            p.ok(old(self)@),
            t.ok(old(self)@),
            old(self)@.has_pt(p.index, t.index) <==> old(self)@.has_tp(t.index, p.index),
        ensures
            r is Ok,
            final(self)@.wf(),
            final(self)@.balanced(),
            final(self)@.place_names == old(self)@.place_names,
            final(self)@.trans_names == old(self)@.trans_names,
            final(self)@.marking == old(self)@.marking,
            final(self)@.groups == old(self)@.groups,
            forall|q: usize, t2: usize|
                q < old(self)@.n_places() && t2 < old(self)@.n_transitions()
                    ==> #[trigger] final(self)@.has_pt(q, t2) == (old(self)@.has_pt(q, t2) || (q
                    == p.index && t2 == t.index)),
            forall|q: usize, t2: usize|
                q < old(self)@.n_places() && t2 < old(self)@.n_transitions()
                    ==> #[trigger] final(self)@.has_tp(t2, q) == (old(self)@.has_tp(t2, q) || (q
                    == p.index && t2 == t.index)),
    {
        let ghost o = self@;
        let r1 = self.add_pt_edge(p, t);
        let ghost mid = self@;
        let r2 = self.add_tp_edge(t, p);
        proof {
            let v = self@;
            assert(mid.tp == o.tp);
            assert(mid.groups == o.groups);
            if o.has_pt(p.index, t.index) {
                // both arcs were already present; nothing changed
                assert(mid.pt == o.pt);
                assert(o.has_tp(t.index, p.index));
                assert(v.tp == mid.tp);
                assert forall|q: usize, t2: usize|
                    q < o.n_places() && t2 < o.n_transitions() implies #[trigger] v.has_pt(q, t2)
                    == (o.has_pt(q, t2) || (q == p.index && t2 == t.index)) by {}
                assert forall|q: usize, t2: usize|
                    q < o.n_places() && t2 < o.n_transitions() implies #[trigger] v.has_tp(t2, q)
                    == (o.has_tp(t2, q) || (q == p.index && t2 == t.index)) by {}
                assert(v.balanced()) by {
                    assert forall|i: int| 0 <= i < v.groups.len() implies v.group_balanced(
                        #[trigger] v.groups[i],
                    ) by {
                        let g = v.groups[i];
                        assert(o.group_balanced(g));
                        assert forall|t2: usize| t2 < v.n_transitions() implies v.trans_balanced(
                            g,
                            t2,
                        ) by {
                            lemma_in_cnt_rows_equal(o, v, g, t2);
                            lemma_out_cnt_row_equal(o, v, g, t2);
                            assert(o.trans_balanced(g, t2));
                        }
                    }
                }
            } else {
                assert(!o.has_tp(t.index, p.index));
                assert(mid.pt == o.pt.update(
                    p.index as int,
                    o.pt[p.index as int].push(t.index),
                ));
                assert(v.tp == mid.tp.update(
                    t.index as int,
                    mid.tp[t.index as int].push(p.index),
                ));
                assert forall|q: usize, t2: usize|
                    q < o.n_places() && t2 < o.n_transitions() implies #[trigger] v.has_pt(q, t2)
                    == (o.has_pt(q, t2) || (q == p.index && t2 == t.index)) by {
                    assert(v.pt == mid.pt);
                    if q == p.index {
                        lemma_push_contains(o.pt[p.index as int], t.index, t2);
                    } else {
                        assert(mid.pt[q as int] == o.pt[q as int]);
                    }
                }
                assert forall|q: usize, t2: usize|
                    q < o.n_places() && t2 < o.n_transitions() implies #[trigger] v.has_tp(t2, q)
                    == (o.has_tp(t2, q) || (q == p.index && t2 == t.index)) by {
                    if t2 == t.index {
                        assert(mid.tp[t2 as int] == o.tp[t2 as int]);
                        lemma_push_contains(mid.tp[t.index as int], p.index, q);
                    } else {
                        assert(v.tp[t2 as int] == o.tp[t2 as int]);
                    }
                }
                // both counts of any group containing p grow by one at t;
                // all other counts are unchanged
                assert forall|i: int| 0 <= i < v.groups.len() implies v.group_balanced(
                    #[trigger] v.groups[i],
                ) by {
                    let g = v.groups[i];
                    assert(o.group_balanced(g));
                    assert(forall|j: int, k: int| 0 <= j < k < g.len() ==> g[j] != g[k]);
                    lemma_in_cnt_add_arc(o, mid, g, p.index, t.index);
                    lemma_out_cnt_add_arc(mid, v, g, p.index, t.index);
                    assert forall|t2: usize| t2 < v.n_transitions() implies v.trans_balanced(
                        g,
                        t2,
                    ) by {
                        assert(o.trans_balanced(g, t2));
                        lemma_out_cnt_row_equal(o, mid, g, t2);
                        lemma_in_cnt_rows_equal(mid, v, g, t2);
                        if t2 == t.index {
                            assert(mid.in_cnt(g, t2) == o.in_cnt(g, t2) + if g.contains(p.index) {
                                1int
                            } else {
                                0int
                            });
                            assert(v.out_cnt(g, t2) == mid.out_cnt(g, t2) + if g.contains(
                                p.index,
                            ) {
                                1int
                            } else {
                                0int
                            });
                        } else {
                            assert(mid.in_cnt(g, t2) == o.in_cnt(g, t2));
                            assert(v.out_cnt(g, t2) == mid.out_cnt(g, t2));
                        }
                    }
                }
            }
        }
        Ok(())
    }

    /// Add the arcs `from -> t` and `t -> to` for two distinct places of
    /// one group: the transition moves the group's token from one member to
    /// another (a storage slot changing lifecycle state, a mutex changing
    /// lock state).
    pub(crate) fn add_token_shift(&mut self, from: Place, to: Place, t: Transition) -> (r: Result<
        (),
        PetriError,
    >)
        requires
            old(self)@.wf(),
            old(self)@.balanced(),
            from.ok(old(self)@),
            to.ok(old(self)@),
            t.ok(old(self)@),
            from.index != to.index,
            old(self)@.same_group(from.index, to.index),
            !old(self)@.has_pt(from.index, t.index),
            !old(self)@.has_tp(t.index, to.index),
        ensures
            r is Ok,
            final(self)@.wf(),
            final(self)@.balanced(),
            final(self)@.place_names == old(self)@.place_names,
            final(self)@.trans_names == old(self)@.trans_names,
            final(self)@.marking == old(self)@.marking,
            final(self)@.groups == old(self)@.groups,
            forall|q: usize, t2: usize|
                q < old(self)@.n_places() && t2 < old(self)@.n_transitions()
                    ==> #[trigger] final(self)@.has_pt(q, t2) == (old(self)@.has_pt(q, t2) || (q
                    == from.index && t2 == t.index)),
            forall|q: usize, t2: usize|
                q < old(self)@.n_places() && t2 < old(self)@.n_transitions()
                    ==> #[trigger] final(self)@.has_tp(t2, q) == (old(self)@.has_tp(t2, q) || (q
                    == to.index && t2 == t.index)),
    {
        let ghost o = self@;
        let r1 = self.add_pt_edge(from, t);
        let ghost mid = self@;
        let r2 = self.add_tp_edge(t, to);
        proof {
            let v = self@;
            assert(mid.pt == o.pt.update(
                from.index as int,
                o.pt[from.index as int].push(t.index),
            ));
            assert(mid.tp == o.tp);
            assert(v.tp == mid.tp.update(t.index as int, mid.tp[t.index as int].push(to.index)));
            assert(v.pt == mid.pt);
            assert forall|q: usize, t2: usize|
                q < o.n_places() && t2 < o.n_transitions() implies #[trigger] v.has_pt(q, t2) == (
            o.has_pt(q, t2) || (q == from.index && t2 == t.index)) by {
                if q == from.index {
                    lemma_push_contains(o.pt[from.index as int], t.index, t2);
                } else {
                    assert(mid.pt[q as int] == o.pt[q as int]);
                }
            }
            assert forall|q: usize, t2: usize|
                q < o.n_places() && t2 < o.n_transitions() implies #[trigger] v.has_tp(t2, q) == (
            o.has_tp(t2, q) || (q == to.index && t2 == t.index)) by {
                if t2 == t.index {
                    assert(mid.tp[t2 as int] == o.tp[t2 as int]);
                    lemma_push_contains(mid.tp[t.index as int], to.index, q);
                } else {
                    assert(v.tp[t2 as int] == o.tp[t2 as int]);
                }
            }
            let gi = choose|i: int|
                0 <= i < o.groups.len() && #[trigger] o.groups[i].contains(from.index)
                    && o.groups[i].contains(to.index);
            assert forall|i: int| 0 <= i < v.groups.len() implies v.group_balanced(
                #[trigger] v.groups[i],
            ) by {
                let g = v.groups[i];
                assert(o.group_balanced(g));
                assert(forall|j: int, k: int| 0 <= j < k < g.len() ==> g[j] != g[k]);
                lemma_in_cnt_add_arc(o, mid, g, from.index, t.index);
                lemma_out_cnt_add_arc(mid, v, g, to.index, t.index);
                // membership of `from` and `to` agrees per group: both are in
                // group gi, and groups are pairwise disjoint
                assert(g.contains(from.index) == g.contains(to.index)) by {
                    if i == gi {
                    } else {
                        if i < gi {
                            assert(!o.groups[gi].contains(from.index) || !g.contains(from.index));
                            assert(!o.groups[gi].contains(to.index) || !g.contains(to.index));
                        } else {
                            assert(!o.groups[i].contains(from.index));
                            assert(!o.groups[i].contains(to.index));
                        }
                    }
                }
                assert forall|t2: usize| t2 < v.n_transitions() implies v.trans_balanced(
                    g,
                    t2,
                ) by {
                    assert(o.trans_balanced(g, t2));
                    lemma_out_cnt_row_equal(o, mid, g, t2);
                    lemma_in_cnt_rows_equal(mid, v, g, t2);
                    if t2 == t.index {
                        assert(mid.in_cnt(g, t2) == o.in_cnt(g, t2) + if g.contains(from.index) {
                            1int
                        } else {
                            0int
                        });
                        assert(v.out_cnt(g, t2) == mid.out_cnt(g, t2) + if g.contains(to.index) {
                            1int
                        } else {
                            0int
                        });
                    } else {
                        assert(mid.in_cnt(g, t2) == o.in_cnt(g, t2));
                        assert(v.out_cnt(g, t2) == mid.out_cnt(g, t2));
                    }
                }
            }
        }
        Ok(())
    }
}

impl NetView {
    /// The net `post` grew out of `pre`: nodes were appended, markings of
    /// existing places kept, groups only appended, and every place of a new
    /// group was created after `pre`.  Advisory names and arcs may change.
    pub open spec fn extends(pre: NetView, post: NetView) -> bool {
        &&& pre.n_places() <= post.n_places()
        &&& pre.n_transitions() <= post.n_transitions()
        &&& pre.marking.len() <= post.marking.len()
        &&& forall|p: int| 0 <= p < pre.marking.len() ==> post.marking[p] == pre.marking[p]
        &&& pre.groups.len() <= post.groups.len()
        &&& forall|i: int| 0 <= i < pre.groups.len() ==> post.groups[i] == pre.groups[i]
        &&& forall|i: int, k: int|
            pre.groups.len() <= i < post.groups.len() && 0 <= k < post.groups[i].len()
                ==> post.groups[i][k] >= pre.n_places()
    }
}

/// `extends` is transitive.
pub proof fn lemma_extends_trans(a: NetView, b: NetView, c: NetView)
    requires
        NetView::extends(a, b),
        NetView::extends(b, c),
    ensures
        NetView::extends(a, c),
{
    assert forall|i: int, k: int|
        a.groups.len() <= i < c.groups.len() && 0 <= k < c.groups[i].len() implies c.groups[i][k]
        >= a.n_places() by {
        if i < b.groups.len() {
            assert(c.groups[i] == b.groups[i]);
        }
    }
}

/// A place free before an extension stays free: earlier groups are kept as
/// they were and later groups hold only newer places.
pub proof fn lemma_extends_free(pre: NetView, post: NetView, p: usize)
    requires
        NetView::extends(pre, post),
        p < pre.n_places(),
        pre.is_free(p),
    ensures
        post.is_free(p),
{
    assert forall|i: int| 0 <= i < post.groups.len() implies !post.groups[i].contains(p) by {
        if i < pre.groups.len() {
            assert(post.groups[i] == pre.groups[i]);
        } else {
            if post.groups[i].contains(p) {
                let k = choose|k: int| 0 <= k < post.groups[i].len() && post.groups[i][k] == p;
                assert(post.groups[i][k] >= pre.n_places());
            }
        }
    }
}

/// A grouped place stays grouped when the net grows.
pub proof fn lemma_extends_grouped_place(pre: NetView, post: NetView, p: usize)
    requires
        NetView::extends(pre, post),
        pre.grouped(p),
    ensures
        post.grouped(p),
{
    let gi = choose|i: int| 0 <= i < pre.groups.len() && #[trigger] pre.groups[i].contains(p);
    assert(post.groups[gi] == pre.groups[gi]);
}

/// A grouped place is not free, and a free place is not grouped.
pub proof fn lemma_grouped_not_free(v: NetView, p: usize)
    requires
        v.grouped(p),
    ensures
        !v.is_free(p),
{
}

/// Balance only depends on the flow and the groups.
proof fn lemma_balanced_same_flow(o: NetView, v: NetView)
    requires
        o.balanced(),
        v.groups == o.groups,
        v.pt == o.pt,
        v.tp == o.tp,
        v.trans_names.len() == o.trans_names.len(),
    ensures
        v.balanced(),
{
    assert forall|i: int| 0 <= i < v.groups.len() implies v.group_balanced(
        #[trigger] v.groups[i],
    ) by {
        let g = v.groups[i];
        assert(o.group_balanced(g));
        assert forall|t: usize| t < v.n_transitions() implies v.trans_balanced(g, t) by {
            lemma_in_cnt_rows_equal(o, v, g, t);
            lemma_out_cnt_row_equal(o, v, g, t);
            assert(o.trans_balanced(g, t));
        }
    }
}

/// A fresh place changes no balance.
proof fn lemma_balanced_add_place(o: NetView, v: NetView)
    requires
        o.wf(),
        o.balanced(),
        v.groups == o.groups,
        v.tp == o.tp,
        v.trans_names == o.trans_names,
        v.pt == o.pt.push(Seq::empty()),
    ensures
        v.balanced(),
{
    assert forall|i: int| 0 <= i < v.groups.len() implies v.group_balanced(
        #[trigger] v.groups[i],
    ) by {
        let g = v.groups[i];
        assert(o.group_balanced(g));
        assert forall|t: usize| t < v.n_transitions() implies v.trans_balanced(g, t) by {
            assert forall|k: int| 0 <= k < g.len() implies v.pt[#[trigger] g[k] as int]
                == o.pt[g[k] as int] by {
                assert(o.groups[i][k] < o.n_places());
            }
            lemma_in_cnt_rows_equal(o, v, g, t);
            lemma_out_cnt_row_equal(o, v, g, t);
            assert(o.trans_balanced(g, t));
        }
    }
}

/// A fresh transition has no arcs, hence is balanced; old ones keep theirs.
proof fn lemma_balanced_add_transition(o: NetView, v: NetView)
    requires
        o.wf(),
        o.balanced(),
        v.groups == o.groups,
        v.pt == o.pt,
        v.place_names == o.place_names,
        v.tp == o.tp.push(Seq::empty()),
        v.trans_names.len() == o.trans_names.len() + 1,
    ensures
        v.balanced(),
{
    assert forall|i: int| 0 <= i < v.groups.len() implies v.group_balanced(
        #[trigger] v.groups[i],
    ) by {
        let g = v.groups[i];
        assert(o.group_balanced(g));
        assert forall|t: usize| t < v.n_transitions() implies v.trans_balanced(g, t) by {
            lemma_in_cnt_rows_equal(o, v, g, t);
            if t < o.n_transitions() {
                assert(v.tp[t as int] == o.tp[t as int]);
                lemma_out_cnt_row_equal(o, v, g, t);
                assert(o.trans_balanced(g, t));
                assert(v.in_cnt(g, t) == o.in_cnt(g, t));
            } else {
                // the new transition: no place row mentions it, its own row
                // is empty
                assert forall|k: int| 0 <= k < g.len() implies !v.has_pt(#[trigger] g[k], t) by {
                    assert(o.groups[i][k] < o.n_places());
                    if v.pt[g[k] as int].contains(t) {
                        let j = choose|j: int|
                            0 <= j < v.pt[g[k] as int].len() && v.pt[g[k] as int][j] == t;
                        assert(o.pt[g[k] as int][j] < o.trans_names.len());
                    }
                }
                assert forall|k: int| 0 <= k < g.len() implies !v.has_tp(t, #[trigger] g[k]) by {
                    assert(v.tp[t as int] == Seq::<usize>::empty());
                }
                lemma_cnt_zero(v, g, t);
            }
        }
    }
}

/// Places created after the state `o` are registerable as a group in the
/// state `v`: no group and no arc of `o` can reach them.
pub proof fn lemma_fresh_places_registerable(o: NetView, v: NetView, ps: Seq<usize>)
    requires
        o.wf(),
        v.groups == o.groups,
        v.tp == o.tp,
        v.trans_names == o.trans_names,
        forall|k: int| 0 <= k < ps.len() ==> #[trigger] ps[k] >= o.n_places(),
    ensures
        forall|k: int| 0 <= k < ps.len() ==> v.is_free(#[trigger] ps[k]),
        forall|t: usize, k: int|
            t < v.n_transitions() && 0 <= k < ps.len() ==> !(#[trigger] v.has_tp(t, ps[k])),
{
    assert forall|k: int| 0 <= k < ps.len() implies v.is_free(#[trigger] ps[k]) by {
        assert forall|i: int| 0 <= i < v.groups.len() implies !v.groups[i].contains(ps[k]) by {
            if v.groups[i].contains(ps[k]) {
                let j = choose|j: int| 0 <= j < v.groups[i].len() && v.groups[i][j] == ps[k];
                assert(o.groups[i][j] < o.n_places());
            }
        }
    }
    assert forall|t: usize, k: int|
        t < v.n_transitions() && 0 <= k < ps.len() implies !(#[trigger] v.has_tp(t, ps[k])) by {
        if v.has_tp(t, ps[k]) {
            let j = choose|j: int| 0 <= j < v.tp[t as int].len() && v.tp[t as int][j] == ps[k];
            assert(o.tp[t as int][j] < o.n_places());
        }
    }
}

impl PetriNet {
    /// Append a fresh data place forming a conserved group of its own (the
    /// shared constants place, a promoted constant's place): all its arcs
    /// will be read pairs, so its token count never changes.
    pub(crate) fn add_data_place(&mut self, annotation: Option<String>, initial_tokens: Tokens) -> (p: Place)
        requires
            old(self)@.wf(),
            old(self)@.balanced(),
        ensures
            final(self)@.wf(),
            final(self)@.balanced(),
            NetView::extends(old(self)@, final(self)@),
            p.index == old(self)@.n_places(),
            final(self)@.n_places() == old(self)@.n_places() + 1,
            final(self)@.trans_names == old(self)@.trans_names,
            final(self)@.tp == old(self)@.tp,
            final(self)@.marking == old(self)@.marking.push(initial_tokens),
            final(self)@.groups == old(self)@.groups.push(seq![p.index]),
            final(self)@.grouped(p.index),
    {
        let ghost o = self@;
        let p = self.add_place(annotation, initial_tokens);
        let ghost ps: Seq<usize> = seq![p.index];
        proof {
            assert(self@.pt[p.index as int] == Seq::<usize>::empty());
            lemma_fresh_places_registerable(o, self@, ps);
        }
        self.register_group(Ghost(ps));
        proof {
            let v = self@;
            assert(v.groups[v.groups.len() - 1] == ps);
            assert(ps.contains(p.index)) by {
                assert(ps[0] == p.index);
            }
            assert(v.grouped(p.index));
            assert forall|i: int, k: int|
                o.groups.len() <= i < v.groups.len() && 0 <= k < v.groups[i].len() implies v.groups[i][k]
                >= o.n_places() by {
                assert(v.groups[i] == ps);
            }
            assert(NetView::extends(o, v));
        }
        p
    }
}

/// The arcs of transition `t` touch grouped data places symmetrically:
/// whatever it consumes from a data place it also reproduces.
pub open spec fn sym_on(v: NetView, t: Transition) -> bool {
    forall|q: usize|
        q < v.n_places() && v.grouped(q) ==> (#[trigger] v.has_pt(q, t.index) == v.has_tp(
            t.index,
            q,
        ))
}


/// Add the read pair of one data place to a statement transition.
pub(crate) fn add_data_pair(net: &mut PetriNet, p: Place, t: Transition) -> (r: Result<(), PetriError>)
    requires
        old(net)@.wf(),
        old(net)@.balanced(),
        crate::petri_net::laws::slot_sums(old(net)@),
        p.ok(old(net)@),
        old(net)@.grouped(p.index),
        t.ok(old(net)@),
        sym_on(old(net)@, t),
    ensures
        r is Ok,
        final(net)@.wf(),
        final(net)@.balanced(),
        crate::petri_net::laws::slot_sums(final(net)@),
        sym_on(final(net)@, t),
        final(net)@.place_names == old(net)@.place_names,
        final(net)@.trans_names == old(net)@.trans_names,
        final(net)@.marking == old(net)@.marking,
        final(net)@.groups == old(net)@.groups,
        NetView::extends(old(net)@, final(net)@),
        forall|q: usize, t2: usize|
            q < old(net)@.n_places() && t2 < old(net)@.n_transitions()
                ==> #[trigger] final(net)@.has_pt(q, t2) == (old(net)@.has_pt(q, t2) || (q
                == p.index && t2 == t.index)),
        forall|q: usize, t2: usize|
            q < old(net)@.n_places() && t2 < old(net)@.n_transitions()
                ==> #[trigger] final(net)@.has_tp(t2, q) == (old(net)@.has_tp(t2, q) || (q
                == p.index && t2 == t.index)),
{
    let ghost o = net@;
    let r = net.add_read_pair(p, t);
    proof {
        let v = net@;
        assert(crate::petri_net::laws::marking_of(v) == crate::petri_net::laws::marking_of(o));
        assert(crate::petri_net::laws::slot_sums(v));
        assert(NetView::extends(o, v));
        assert forall|q: usize|
            q < v.n_places() && v.grouped(q) implies (#[trigger] v.has_pt(q, t.index) == v.has_tp(
            t.index,
            q,
        )) by {
            assert(v.has_pt(q, t.index) == (o.has_pt(q, t.index) || q == p.index));
            assert(v.has_tp(t.index, q) == (o.has_tp(t.index, q) || q == p.index));
        }
    }
    r
}


/// Two distinct registered groups never share a place: members of different
/// groups are different places.
pub proof fn lemma_groups_disjoint_members(v: NetView, ps1: Seq<usize>, ps2: Seq<usize>, a: usize, b: usize)
    requires
        v.wf(),
        v.groups.contains(ps1),
        v.groups.contains(ps2),
        ps1 != ps2,
        ps1.contains(a),
        ps2.contains(b),
    ensures
        a != b,
{
    if a == b {
        let i1 = choose|i: int| 0 <= i < v.groups.len() && v.groups[i] == ps1;
        let i2 = choose|i: int| 0 <= i < v.groups.len() && v.groups[i] == ps2;
        if i1 < i2 {
            assert(!v.groups[i2].contains(a));
        } else if i2 < i1 {
            assert(!v.groups[i1].contains(b));
        }
    }
}

impl PetriNet {
    /// One transition bridging two free control places: the common shape
    /// of goto, switch branches, return, unwind, and call bridges.
    pub(crate) fn add_bridge(&mut self, annotation: Option<String>, src: Place, dst: Place) -> (t:
        Transition)
        requires
            old(self)@.wf(),
            old(self)@.balanced(),
            src.ok(old(self)@),
            old(self)@.is_free(src.index),
            dst.ok(old(self)@),
            old(self)@.is_free(dst.index),
        ensures
            final(self)@.wf(),
            final(self)@.balanced(),
            NetView::extends(old(self)@, final(self)@),
            t.index == old(self)@.n_transitions(),
            NetView::adds_transition(
                old(self)@,
                final(self)@,
                name_view(annotation),
                set![src.index],
                set![dst.index],
            ),
    {
        let ghost o0 = self@;
        let ghost av = name_view(annotation);
        let t = self.add_transition(annotation);
        let ghost ot = self@;
        let r1 = self.add_flow_pt(src, t);
        let ghost oa = self@;
        let r2 = self.add_flow_tp(t, dst);
        proof {
            broadcast use vstd::set::group_set_axioms;

            let v = self@;
            let ins: Set<usize> = set![src.index];
            let outs: Set<usize> = set![dst.index];
            assert(forall|q: usize| #[trigger] ins.contains(q) == (q == src.index));
            assert(forall|q: usize| #[trigger] outs.contains(q) == (q == dst.index));
            assert forall|q: usize, t2: usize|
                q < v.n_places() && t2 < v.n_transitions() implies #[trigger] v.has_pt(q, t2)
                == (if t2 < o0.n_transitions() {
                o0.has_pt(q, t2)
            } else {
                ins.contains(q)
            }) by {
                if t2 < o0.n_transitions() {
                    assert(oa.has_pt(q, t2) == (ot.has_pt(q, t2) || (q == src.index && t2
                        == t.index)));
                    assert(v.has_pt(q, t2) == oa.has_pt(q, t2));
                } else {
                    assert(t2 == t.index);
                    assert(!ot.has_pt(q, t2));
                    assert(oa.has_pt(q, t2) == (ot.has_pt(q, t2) || (q == src.index && t2
                        == t.index)));
                    assert(v.has_pt(q, t2) == oa.has_pt(q, t2));
                }
            }
            assert forall|q: usize, t2: usize|
                q < v.n_places() && t2 < v.n_transitions() implies #[trigger] v.has_tp(t2, q)
                == (if t2 < o0.n_transitions() {
                o0.has_tp(t2, q)
            } else {
                outs.contains(q)
            }) by {
                if t2 < o0.n_transitions() {
                    assert(oa.has_tp(t2, q) == ot.has_tp(t2, q));
                    assert(v.has_tp(t2, q) == (oa.has_tp(t2, q) || (q == dst.index && t2
                        == t.index)));
                } else {
                    assert(t2 == t.index);
                    assert(!ot.has_tp(t2, q));
                    assert(oa.has_tp(t2, q) == ot.has_tp(t2, q));
                    assert(v.has_tp(t2, q) == (oa.has_tp(t2, q) || (q == dst.index && t2
                        == t.index)));
                }
            }
            assert(ot.trans_names == o0.trans_names.push(av));
            assert(v.trans_names == ot.trans_names);
            lemma_adds_transition(o0, v, av, ins, outs);
            assert(NetView::extends(o0, v));
        }
        t
    }
}

/// `in_cnt`/`out_cnt` only depend on arc membership of the members.
proof fn lemma_cnt_members(v1: NetView, v2: NetView, ps: Seq<usize>, t: usize)
    requires
        forall|k: int|
            0 <= k < ps.len() ==> v2.has_tp(t, #[trigger] ps[k]) == v1.has_tp(t, ps[k]),
    ensures
        v2.out_cnt(ps, t) == v1.out_cnt(ps, t),
    decreases ps.len(),
{
    if ps.len() > 0 {
        assert(forall|k: int|
            0 <= k < ps.drop_last().len() ==> #[trigger] ps.drop_last()[k] == ps[k]);
        lemma_cnt_members(v1, v2, ps.drop_last(), t);
        assert(ps.last() == ps[ps.len() - 1]);
    }
}

} // verus!
