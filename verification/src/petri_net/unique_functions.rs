//! The mutex registry: the four-place state subnet of every mutex, the
//! association from storage slots to the mutexes they name, and the guard
//! objects returned by lock calls.  The registry lives outside the call
//! stack because mutex identity flows across frames.

use vstd::prelude::*;
use vstd::string::*;

use crate::petri_net::function::Local;
use crate::petri_net::laws;
use crate::petri_net::petri_net::{
    lemma_fresh_places_registerable, NetView, PetriError, PetriNet, Place,
};
use crate::util::{dec_u64, push_str, spec_dec};

verus! {

/// The registry: mutex subnets, slot-to-mutex links, and guard links.
#[derive(Debug)]
pub struct MutexList {
    pub list: Vec<Mutex>,
    pub links: Vec<(usize, MutexRef)>,
    pub guards: Vec<(usize, MutexRef)>,
}

/// A stable reference to a mutex of the registry.
#[derive(Debug, Clone, Copy, Hash, Eq, PartialEq, Structural)]
pub struct MutexRef {
    pub index: usize,
}

/// The four state places of one mutex.
#[derive(Debug, Clone, Copy)]
pub struct Mutex {
    pub uninitialized: Place,
    pub unlocked: Place,
    pub locked: Place,
    pub dead: Place,
}

impl Mutex {
    /// The state quadruple, in lifecycle order.
    pub open spec fn places(self) -> Seq<usize> {
        seq![
            self.uninitialized.index,
            self.unlocked.index,
            self.locked.index,
            self.dead.index,
        ]
    }

    /// The mutex is valid for the net model `v`: its places exist and the
    /// quadruple is registered as a conserved group.
    pub open spec fn wf(self, v: NetView) -> bool {
        &&& self.uninitialized.index < v.n_places()
        &&& self.unlocked.index < v.n_places()
        &&& self.locked.index < v.n_places()
        &&& self.dead.index < v.n_places()
        &&& v.groups.contains(self.places())
    }
}

/// The newest association for `key`, scanning the pairs youngest-first.
pub open spec fn assoc(pairs: Seq<(usize, MutexRef)>, key: usize) -> Option<MutexRef>
    decreases pairs.len(),
{
    if pairs.len() == 0 {
        None
    } else if pairs.last().0 == key {
        Some(pairs.last().1)
    } else {
        assoc(pairs.drop_last(), key)
    }
}

/// A mutex subnet stays valid when the net grows.
pub proof fn lemma_mutex_wf_extends(m: Mutex, o: NetView, v: NetView)
    requires
        m.wf(o),
        NetView::extends(o, v),
    ensures
        m.wf(v),
{
    let gi = choose|i: int| 0 <= i < o.groups.len() && o.groups[i] == m.places();
    assert(v.groups[gi] == m.places());
}

/// The registry stays valid when the net grows.
pub proof fn lemma_mutex_list_wf_extends(list: MutexList, o: NetView, v: NetView)
    requires
        list.wf(o),
        NetView::extends(o, v),
    ensures
        list.wf(v),
{
    assert forall|i: int| 0 <= i < list.list@.len() implies (#[trigger] list.list@[i]).wf(v) by {
        lemma_mutex_wf_extends(list.list@[i], o, v);
    }
}

/// A successful lookup returns the value of some stored pair.
pub proof fn lemma_assoc_found(pairs: Seq<(usize, MutexRef)>, key: usize, m: MutexRef)
    requires
        assoc(pairs, key) == Some(m),
    ensures
        exists|j: int| 0 <= j < pairs.len() && pairs[j] == (key, m),
    decreases pairs.len(),
{
    if pairs.len() > 0 {
        if pairs.last().0 == key {
            assert(pairs[pairs.len() - 1] == (key, m));
        } else {
            lemma_assoc_found(pairs.drop_last(), key, m);
            let j = choose|j: int|
                0 <= j < pairs.drop_last().len() && pairs.drop_last()[j] == (key, m);
            assert(pairs[j] == (key, m));
        }
    }
}

fn assoc_get(pairs: &Vec<(usize, MutexRef)>, key: usize) -> (r: Option<MutexRef>)
    ensures
        r == assoc(pairs@, key),
{
    proof {
        assert(pairs@.take(pairs@.len() as int) =~= pairs@);
    }
    let mut i: usize = pairs.len();
    while i > 0
        invariant
            i <= pairs@.len(),
            assoc(pairs@, key) == assoc(pairs@.take(i as int), key),
        decreases i,
    {
        i = i - 1;
        let pair = pairs[i];
        proof {
            let taken = pairs@.take(i + 1);
            assert(taken.last() == pairs@[i as int]);
            assert(taken.drop_last() =~= pairs@.take(i as int));
        }
        if pair.0 == key {
            return Some(pair.1);
        }
    }
    proof {
        assert(pairs@.take(0) =~= Seq::<(usize, MutexRef)>::empty());
    }
    None
}

impl MutexRef {
    /// The uninitialised place of the mutex.
    pub fn uninitialized(&self, list: &MutexList) -> (r: Result<Place, PetriError>)
        ensures
            match r {
                Ok(p) => self.index < list.list@.len() && p == list.list@[self.index as int].uninitialized,
                Err(e) => e == PetriError::MutexNotFound && self.index >= list.list@.len(),
            },
    {
        if self.index < list.list.len() {
            Ok(list.list[self.index].uninitialized)
        } else {
            Err(PetriError::MutexNotFound)
        }
    }

    /// The unlocked place of the mutex.
    pub fn unlocked(&self, list: &MutexList) -> (r: Result<Place, PetriError>)
        ensures
            match r {
                Ok(p) => self.index < list.list@.len() && p == list.list@[self.index as int].unlocked,
                Err(e) => e == PetriError::MutexNotFound && self.index >= list.list@.len(),
            },
    {
        if self.index < list.list.len() {
            Ok(list.list[self.index].unlocked)
        } else {
            Err(PetriError::MutexNotFound)
        }
    }

    /// The locked place of the mutex.
    pub fn locked(&self, list: &MutexList) -> (r: Result<Place, PetriError>)
        ensures
            match r {
                Ok(p) => self.index < list.list@.len() && p == list.list@[self.index as int].locked,
                Err(e) => e == PetriError::MutexNotFound && self.index >= list.list@.len(),
            },
    {
        if self.index < list.list.len() {
            Ok(list.list[self.index].locked)
        } else {
            Err(PetriError::MutexNotFound)
        }
    }

    /// The dead place of the mutex.
    pub fn dead(&self, list: &MutexList) -> (r: Result<Place, PetriError>)
        ensures
            match r {
                Ok(p) => self.index < list.list@.len() && p == list.list@[self.index as int].dead,
                Err(e) => e == PetriError::MutexNotFound && self.index >= list.list@.len(),
            },
    {
        if self.index < list.list.len() {
            Ok(list.list[self.index].dead)
        } else {
            Err(PetriError::MutexNotFound)
        }
    }
}

impl MutexList {
    /// The registry is valid for the net model `v`: every mutex is, and
    /// every link names a mutex of the registry.
    pub open spec fn wf(self, v: NetView) -> bool {
        &&& forall|i: int| 0 <= i < self.list@.len() ==> (#[trigger] self.list@[i]).wf(v)
        &&& forall|j: int|
            0 <= j < self.links@.len() ==> (#[trigger] self.links@[j]).1.index < self.list@.len()
        &&& forall|j: int|
            0 <= j < self.guards@.len() ==> (#[trigger] self.guards@[j]).1.index < self.list@.len()
    }

    pub fn new() -> (r: Self)
        ensures
            r.list@.len() == 0,
            r.links@.len() == 0,
            r.guards@.len() == 0,
            forall|v: NetView| r.wf(v),
    {
        Self { list: Vec::new(), links: Vec::new(), guards: Vec::new() }
    }

    /// The mutex a slot currently names, if any.
    pub fn get_linked(&self, local: &Local) -> (r: Option<MutexRef>)
        ensures
            r == assoc(self.links@, local.live_place.index),
    {
        assoc_get(&self.links, local.live_place.index)
    }

    /// Whether a slot names a mutex; the same lookup as `get_linked`.
    pub fn is_linked(&self, local: &Local) -> (r: Option<MutexRef>)
        ensures
            r == assoc(self.links@, local.live_place.index),
    {
        assoc_get(&self.links, local.live_place.index)
    }

    /// The mutex a guard slot protects, if the slot is a registered guard.
    pub fn get_guard(&self, local: &Local) -> (r: Option<MutexRef>)
        ensures
            r == assoc(self.guards@, local.live_place.index),
    {
        assoc_get(&self.guards, local.live_place.index)
    }

    /// Create a fresh mutex subnet: four state places registered as a
    /// conserved group, the uninitialised place holding the one token.
    pub fn add(&mut self, net: &mut PetriNet) -> (r: MutexRef)
        requires
            old(net)@.wf(),
            old(net)@.balanced(),
            laws::slot_sums(old(net)@),
            old(self).wf(old(net)@),
        ensures
            final(net)@.wf(),
            final(net)@.balanced(),
            laws::slot_sums(final(net)@),
            NetView::extends(old(net)@, final(net)@),
            final(net)@.trans_names == old(net)@.trans_names,
            final(self).wf(final(net)@),
            r.index == old(self).list@.len(),
            final(self).list@.len() == old(self).list@.len() + 1,
            final(self).list@[r.index as int].wf(final(net)@),
            final(self).list@[r.index as int].uninitialized.index == old(net)@.n_places(),
            final(self).list@[r.index as int].locked.index == old(net)@.n_places() + 1,
            final(self).list@[r.index as int].unlocked.index == old(net)@.n_places() + 2,
            final(self).list@[r.index as int].dead.index == old(net)@.n_places() + 3,
            final(net)@.place_names == old(net)@.place_names.push(
                Some("Mutex_"@ + spec_dec(r.index as int) + " uninitialized"@),
            ).push(Some("Mutex_"@ + spec_dec(r.index as int) + " locked"@)).push(
                Some("Mutex_"@ + spec_dec(r.index as int) + " unlocked"@),
            ).push(Some("Mutex_"@ + spec_dec(r.index as int) + " dead"@)),
            final(net)@.marking == old(net)@.marking.push(1).push(0).push(0).push(0),
            final(net)@.groups == old(net)@.groups.push(
                final(self).list@[r.index as int].places(),
            ),
            final(net)@.trans_names == old(net)@.trans_names,
            final(net)@.tp == old(net)@.tp,
            forall|q: int|
                0 <= q < old(net)@.n_places() ==> final(net)@.pt[q] == old(net)@.pt[q],
            forall|q: int|
                old(net)@.n_places() <= q < final(net)@.n_places() ==> final(net)@.pt[q] == Seq::<
                    usize,
                >::empty(),
            final(self).links@ == old(self).links@,
            final(self).guards@ == old(self).guards@,
            forall|i: int|
                0 <= i < old(self).list@.len() ==> final(self).list@[i] == old(self).list@[i],
            forall|t2: usize, k: int|
                t2 < final(net)@.n_transitions() && 0 <= k < 4
                    ==> !(#[trigger] final(net)@.has_pt(
                    final(self).list@[r.index as int].places()[k],
                    t2,
                )),
            forall|t2: usize, k: int|
                t2 < final(net)@.n_transitions() && 0 <= k < 4
                    ==> !(#[trigger] final(net)@.has_tp(
                    t2,
                    final(self).list@[r.index as int].places()[k],
                )),
    {
        let ghost o = net@;
        let index = self.list.len();
        let idx64 = index as u64;
        let mut n_uninit = String::from_str("Mutex_");
        push_str(&mut n_uninit, dec_u64(idx64).as_str());
        push_str(&mut n_uninit, " uninitialized");
        let mut n_locked = String::from_str("Mutex_");
        push_str(&mut n_locked, dec_u64(idx64).as_str());
        push_str(&mut n_locked, " locked");
        let mut n_unlocked = String::from_str("Mutex_");
        push_str(&mut n_unlocked, dec_u64(idx64).as_str());
        push_str(&mut n_unlocked, " unlocked");
        let mut n_dead = String::from_str("Mutex_");
        push_str(&mut n_dead, dec_u64(idx64).as_str());
        push_str(&mut n_dead, " dead");
        let uninitialized = net.add_place(Some(n_uninit), 1);
        let locked = net.add_place(Some(n_locked), 0);
        let unlocked = net.add_place(Some(n_unlocked), 0);
        let dead = net.add_place(Some(n_dead), 0);
        let mutex = Mutex { uninitialized, unlocked, locked, dead };
        let ghost ps: Seq<usize> = mutex.places();
        proof {
            assert(net@.pt[uninitialized.index as int] == Seq::<usize>::empty());
            assert(net@.pt[unlocked.index as int] == Seq::<usize>::empty());
            assert(net@.pt[locked.index as int] == Seq::<usize>::empty());
            assert(net@.pt[dead.index as int] == Seq::<usize>::empty());
            assert(forall|k: int| 0 <= k < ps.len() ==> #[trigger] ps[k] >= o.n_places());
            lemma_fresh_places_registerable(o, net@, ps);
        }
        net.register_group(Ghost(ps));
        self.list.push(mutex);
        proof {
            let v = net@;
            assert(v.groups[v.groups.len() - 1] == ps);
            assert(v.groups.contains(ps));
            assert(mutex.wf(v));
            assert forall|i: int, k: int|
                o.groups.len() <= i < v.groups.len() && 0 <= k < v.groups[i].len() implies v.groups[i][k]
                >= o.n_places() by {
                assert(v.groups[i] == ps);
            }
            assert(NetView::extends(o, v));
            // the new quadruple sums to one; older groups keep their sums
            let m = laws::marking_of(v);
            assert forall|i: int|
                0 <= i < v.groups.len() && (#[trigger] v.groups[i].len() == 3 || v.groups[i].len()
                    == 4) implies laws::msum(m, v.groups[i]) == 1 by {
                if i < o.groups.len() {
                    let g = o.groups[i];
                    assert(v.groups[i] == g);
                    assert forall|k: int| 0 <= k < g.len() implies m[#[trigger] g[k] as int]
                        == laws::marking_of(o)[g[k] as int] by {
                        assert(o.groups[i][k] < o.n_places());
                    }
                    laws::lemma_msum_agree(laws::marking_of(o), m, g);
                } else {
                    assert(v.groups[i] == ps);
                    laws::lemma_msum4(
                        m,
                        uninitialized.index,
                        unlocked.index,
                        locked.index,
                        dead.index,
                    );
                    assert(m[uninitialized.index as int] == 1);
                    assert(m[unlocked.index as int] == 0);
                    assert(m[locked.index as int] == 0);
                    assert(m[dead.index as int] == 0);
                }
            }
            assert(laws::slot_sums(v));
            // the fresh places carry no arcs yet
            assert forall|t2: usize, k: int|
                t2 < v.n_transitions() && 0 <= k < 4 implies !(#[trigger] v.has_pt(
                self.list@[index as int].places()[k],
                t2,
            )) by {
                assert(self.list@[index as int] == mutex);
                assert(v.pt[mutex.places()[k] as int] == Seq::<usize>::empty());
            }
            assert forall|t2: usize, k: int|
                t2 < v.n_transitions() && 0 <= k < 4 implies !(#[trigger] v.has_tp(
                t2,
                self.list@[index as int].places()[k],
            )) by {
                assert(self.list@[index as int] == mutex);
                assert(!o.has_tp(t2, mutex.places()[k]));
                assert(v.tp[t2 as int] == o.tp[t2 as int]);
            }
            // every older mutex keeps its group
            assert forall|i: int| 0 <= i < self.list@.len() implies (
            #[trigger] self.list@[i]).wf(v) by {
                if i < old(self).list@.len() {
                    assert(old(self).list@[i].wf(o));
                    let g = old(self).list@[i].places();
                    let gi = choose|gi: int| 0 <= gi < o.groups.len() && o.groups[gi] == g;
                    assert(v.groups[gi] == g);
                }
            }
        }
        MutexRef { index }
    }

    /// Register a guard slot for a mutex.
    pub fn add_guard(&mut self, guard: &Local, mutex: MutexRef)
        requires
            mutex.index < old(self).list@.len(),
        ensures
            final(self).guards@ == old(self).guards@.push((guard.live_place.index, mutex)),
            final(self).links@ == old(self).links@,
            final(self).list@ == old(self).list@,
    {
        self.guards.push((guard.live_place.index, mutex));
    }

    /// Link a slot to a mutex; a newer link shadows an older one.
    pub fn link(&mut self, local: &Local, mutex: MutexRef)
        requires
            mutex.index < old(self).list@.len(),
        ensures
            final(self).links@ == old(self).links@.push((local.live_place.index, mutex)),
            final(self).guards@ == old(self).guards@,
            final(self).list@ == old(self).list@,
            assoc(final(self).links@, local.live_place.index) == Some(mutex),
    {
        self.links.push((local.live_place.index, mutex));
        proof {
            assert(self.links@.last() == (local.live_place.index, mutex));
        }
    }
}

} // verus!
