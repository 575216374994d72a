//! Per-function state of the translation: the virtual memory that maps the
//! source frame's storage to data places, and the function builder that
//! lowers statements and terminators into the net.

use vstd::prelude::*;
use vstd::string::*;

use crate::llir;
use crate::petri_net::basic_block::BasicBlock;
use crate::petri_net::laws;
use crate::petri_net::petri_net::{
    lemma_extends_trans, lemma_fresh_places_registerable, NetView, PetriError, PetriNet, Place,
};
use crate::util::{contains_substr, dec_u64, push_str, spec_contains_substr};

verus! {

/// The lifecycle places of one storage slot.  A regular local owns all
/// three; a slot shared with the caller (a parameter or the return slot of
/// an inlined callee) or a constant slot carries only the live place.
#[derive(Debug, Clone, Copy)]
pub struct Local {
    pub prenatal_place: Option<Place>,
    pub live_place: Place,
    pub dead_place: Option<Place>,
}

/// How a frame addresses its storage.
#[derive(Debug, Clone, Copy, PartialEq, Eq, Structural)]
pub enum LocalKey {
    MirLocal(usize),
    MirStatic(usize),
    Constant,
}

/// One entry of the virtual memory.
#[derive(Debug, Clone, Copy)]
pub enum Data {
    Local(Local),
    Static(Place),
    Constant(Place),
}

/// The data places of one frame: locals by index, promoted constants by
/// index, and the shared constants place.
#[derive(Debug)]
pub struct VirtualMemory {
    pub locals: Vec<Data>,
    pub statics: Vec<Data>,
    pub constants: Data,
}

impl Local {
    /// The lifecycle triple, for a slot owning all three places.
    pub open spec fn triple(self) -> Seq<usize> {
        seq![
            self.prenatal_place->0.index,
            self.live_place.index,
            self.dead_place->0.index,
        ]
    }

    /// The slot is valid for the net model `v`: its places exist, the live
    /// place is a member of a conserved group, and a full slot's triple is
    /// registered as a group of its own.
    pub open spec fn wf(self, v: NetView) -> bool {
        &&& self.live_place.index < v.n_places()
        &&& v.grouped(self.live_place.index)
        &&& match (self.prenatal_place, self.dead_place) {
            (Some(u), Some(d)) => {
                &&& u.index < v.n_places()
                &&& d.index < v.n_places()
                &&& v.groups.contains(self.triple())
            },
            (None, None) => true,
            _ => false,
        }
    }

    /// Create the three lifecycle places of a regular local and register
    /// them as a conserved group; the uninitialised place starts with the
    /// slot's one token.
    pub fn new(net: &mut PetriNet, name: &str) -> (local: Local)
        requires
            old(net)@.wf(),
            old(net)@.balanced(),
            laws::slot_sums(old(net)@),
        ensures
            final(net)@.wf(),
            final(net)@.balanced(),
            laws::slot_sums(final(net)@),
            NetView::extends(old(net)@, final(net)@),
            final(net)@.n_places() == old(net)@.n_places() + 3,
            final(net)@.trans_names == old(net)@.trans_names,
            final(net)@.tp == old(net)@.tp,
            local.wf(final(net)@),
            local.prenatal_place is Some,
            local.dead_place is Some,
            local.live_place.index >= old(net)@.n_places(),
            local.prenatal_place->0.index == old(net)@.n_places(),
            local.live_place.index == old(net)@.n_places() + 1,
            local.dead_place->0.index == old(net)@.n_places() + 2,
            final(net)@.place_names == old(net)@.place_names.push(
                Some(name@ + " uninitialized"@),
            ).push(Some(name@ + " live"@)).push(Some(name@ + " dead"@)),
            final(net)@.marking == old(net)@.marking.push(1).push(0).push(0),
            final(net)@.groups == old(net)@.groups.push(local.triple()),
    {
        let ghost o = net@;
        let mut n_uninit = String::from_str(name);
        push_str(&mut n_uninit, " uninitialized");
        let mut n_live = String::from_str(name);
        push_str(&mut n_live, " live");
        let mut n_dead = String::from_str(name);
        push_str(&mut n_dead, " dead");
        let prenatal = net.add_place(Some(n_uninit), 1);
        let live = net.add_place(Some(n_live), 0);
        let dead = net.add_place(Some(n_dead), 0);
        let ghost ps: Seq<usize> = seq![prenatal.index, live.index, dead.index];
        proof {
            assert(net@.pt[prenatal.index as int] == Seq::<usize>::empty());
            assert(net@.pt[live.index as int] == Seq::<usize>::empty());
            assert(net@.pt[dead.index as int] == Seq::<usize>::empty());
            assert(forall|k: int| 0 <= k < ps.len() ==> #[trigger] ps[k] >= o.n_places());
            lemma_fresh_places_registerable(o, net@, ps);
        }
        let ghost mid = net@;
        net.register_group(Ghost(ps));
        let local = Local { prenatal_place: Some(prenatal), live_place: live, dead_place: Some(dead) };
        proof {
            let v = net@;
            assert(v.groups[v.groups.len() - 1] == ps);
            assert(v.groups.contains(ps));
            assert(ps.contains(live.index)) by {
                assert(ps[1] == live.index);
            }
            assert(local.triple() == ps);
            assert(local.wf(v));
            assert forall|i: int, k: int|
                o.groups.len() <= i < v.groups.len() && 0 <= k < v.groups[i].len() implies v.groups[i][k]
                >= o.n_places() by {
                assert(v.groups[i] == ps);
            }
            assert(NetView::extends(o, v));
            // the new triple sums to one, every older group keeps its sum
            let m = laws::marking_of(v);
            assert forall|i: int|
                0 <= i < v.groups.len() && (#[trigger] v.groups[i].len() == 3 || v.groups[i].len()
                    == 4) implies laws::msum(m, v.groups[i]) == 1 by {
                if i < o.groups.len() {
                    let g = o.groups[i];
                    assert(v.groups[i] == g);
                    assert forall|k: int| 0 <= k < g.len() implies m[#[trigger] g[k] as int]
                        == laws::marking_of(o)[g[k] as int] by {
                        assert(o.groups[i][k] < o.n_places());
                    }
                    laws::lemma_msum_agree(laws::marking_of(o), m, g);
                } else {
                    assert(v.groups[i] == ps);
                    laws::lemma_msum3(m, prenatal.index, live.index, dead.index);
                    assert(m[prenatal.index as int] == 1);
                    assert(m[live.index as int] == 0);
                    assert(m[dead.index as int] == 0);
                }
            }
            assert(laws::slot_sums(v));
        }
        local
    }

    /// A slot that only aliases an existing data place: a literal constant
    /// or a promoted constant.
    pub fn new_constant(live_place: Place) -> (local: Local)
        ensures
            local.prenatal_place is None,
            local.dead_place is None,
            local.live_place == live_place,
    {
        Self { prenatal_place: None, live_place, dead_place: None }
    }
}

impl VirtualMemory {
    /// The memory is valid for the net model `v`: every entry is of the
    /// kind its space requires and every place is a grouped data place.
    pub open spec fn wf(self, v: NetView) -> bool {
        &&& forall|i: int|
            0 <= i < self.locals@.len() ==> ((#[trigger] self.locals@[i]) matches Data::Local(l)
                && l.wf(v))
        &&& forall|i: int|
            0 <= i < self.statics@.len() ==> ((#[trigger] self.statics@[i]) matches Data::Static(
                p,
            ) && p.index < v.n_places() && v.grouped(p.index))
        &&& self.constants matches Data::Constant(c) && c.index < v.n_places() && v.grouped(
            c.index,
        )
    }

    /// Look a slot up by key.
    pub fn get(&self, key: &LocalKey) -> (r: Option<&Data>)
        ensures
            match *key {
                LocalKey::MirLocal(l) => if l < self.locals@.len() {
                    r == Some(&self.locals@[l as int])
                } else {
                    r is None
                },
                LocalKey::MirStatic(s) => if s < self.statics@.len() {
                    r == Some(&self.statics@[s as int])
                } else {
                    r is None
                },
                LocalKey::Constant => r == Some(&self.constants),
            },
    {
        match key {
            LocalKey::MirLocal(local) => {
                if *local < self.locals.len() {
                    Some(&self.locals[*local])
                } else {
                    None
                }
            },
            LocalKey::MirStatic(statik) => {
                if *statik < self.statics.len() {
                    Some(&self.statics[*statik])
                } else {
                    None
                }
            },
            LocalKey::Constant => Some(&self.constants),
        }
    }

    /// The slot of a local, if the index is in range.
    pub fn get_local(&self, local: usize) -> (r: Option<&Local>)
        ensures
            match r {
                Some(l) => local < self.locals@.len() && self.locals@[local as int]
                    == Data::Local(*l),
                None => local >= self.locals@.len() || !(self.locals@[local as int]
                    matches Data::Local(_)),
            },
    {
        if local < self.locals.len() {
            match &self.locals[local] {
                Data::Local(l) => Some(l),
                _ => None,
            }
        } else {
            None
        }
    }

    /// The place of a promoted constant, if the index is in range.
    pub fn get_static(&self, statik: usize) -> (r: Option<Place>)
        ensures
            match r {
                Some(p) => statik < self.statics@.len() && self.statics@[statik as int]
                    == Data::Static(p),
                None => statik >= self.statics@.len() || !(self.statics@[statik as int]
                    matches Data::Static(_)),
            },
    {
        if statik < self.statics.len() {
            match &self.statics[statik] {
                Data::Static(p) => Some(*p),
                _ => None,
            }
        } else {
            None
        }
    }

    /// The shared constants place.
    pub fn get_constant(&self) -> (r: Result<Place, PetriError>)
        ensures
            match r {
                Ok(p) => self.constants == Data::Constant(p),
                Err(e) => e == PetriError::LocalNotFound && !(self.constants
                    matches Data::Constant(_)),
            },
    {
        match &self.constants {
            Data::Constant(constant) => Ok(*constant),
            _ => Err(PetriError::LocalNotFound),
        }
    }
}

impl VirtualMemory {
    /// `p` is one of the memory's data places: the live place of a local,
    /// a promoted constant's place, or the constants place.
    pub open spec fn has_data_place(self, p: Place) -> bool {
        ||| exists|i: int|
            0 <= i < self.locals@.len() && ((#[trigger] self.locals@[i]) matches Data::Local(l)
                && l.live_place == p)
        ||| exists|i: int|
            0 <= i < self.statics@.len() && #[trigger] self.statics@[i] == Data::Static(p)
        ||| self.constants == Data::Constant(p)
    }
}

/// A slot stays valid when the net grows.
pub proof fn lemma_local_wf_extends(l: Local, o: NetView, v: NetView)
    requires
        l.wf(o),
        NetView::extends(o, v),
    ensures
        l.wf(v),
{
    let gi = choose|i: int|
        0 <= i < o.groups.len() && #[trigger] o.groups[i].contains(l.live_place.index);
    assert(v.groups[gi] == o.groups[gi]);
    assert(v.grouped(l.live_place.index));
    match (l.prenatal_place, l.dead_place) {
        (Some(u), Some(d)) => {
            let ti = choose|i: int| 0 <= i < o.groups.len() && o.groups[i] == l.triple();
            assert(v.groups[ti] == l.triple());
        },
        _ => {},
    }
}

/// A frame's memory stays valid when the net grows.
pub proof fn lemma_vm_wf_extends(memory: VirtualMemory, o: NetView, v: NetView)
    requires
        memory.wf(o),
        NetView::extends(o, v),
    ensures
        memory.wf(v),
{
    assert forall|i: int|
        0 <= i < memory.locals@.len() implies ((#[trigger] memory.locals@[i])
        matches Data::Local(l) && l.wf(v)) by {
        assert(memory.locals@[i] matches Data::Local(l) && l.wf(o));
        match memory.locals@[i] {
            Data::Local(l) => {
                lemma_local_wf_extends(l, o, v);
            },
            _ => {},
        }
    }
    assert forall|i: int|
        0 <= i < memory.statics@.len() implies ((#[trigger] memory.statics@[i])
        matches Data::Static(p) && p.index < v.n_places() && v.grouped(p.index)) by {
        assert(memory.statics@[i] matches Data::Static(p) && p.index < o.n_places()
            && o.grouped(p.index));
        match memory.statics@[i] {
            Data::Static(p) => {
                let gi = choose|gi: int|
                    0 <= gi < o.groups.len() && #[trigger] o.groups[gi].contains(p.index);
                assert(v.groups[gi] == o.groups[gi]);
            },
            _ => {},
        }
    }
    match memory.constants {
        Data::Constant(c) => {
            let gi = choose|gi: int|
                0 <= gi < o.groups.len() && #[trigger] o.groups[gi].contains(c.index);
            assert(v.groups[gi] == o.groups[gi]);
        },
        _ => {},
    }
}

/// In a valid memory every data place is a grouped place of the net.
pub proof fn lemma_data_place_grouped(memory: VirtualMemory, v: NetView, p: Place)
    requires
        memory.wf(v),
        memory.has_data_place(p),
    ensures
        p.index < v.n_places(),
        v.grouped(p.index),
{
}

pub(crate) fn copy_data_vec(v: &Vec<Data>) -> (r: Vec<Data>)
    ensures
        r@ == v@,
{
    let mut r: Vec<Data> = Vec::new();
    let mut i: usize = 0;
    while i < v.len()
        invariant
            i <= v@.len(),
            r@.len() == i,
            forall|k: int| 0 <= k < i ==> r@[k] == v@[k],
        decreases v@.len() - i,
    {
        r.push(v[i]);
        i = i + 1;
    }
    proof {
        assert(r@ =~= v@);
    }
    r
}

/// The builder for one stack frame: its blocks, its virtual memory, and
/// the places control enters and leaves the frame through.
#[derive(Debug)]
pub struct Function {
    pub name: String,
    pub basic_blocks: Vec<Option<BasicBlock>>,
    pub virt_memory: VirtualMemory,
    pub active_block: Option<usize>,
    pub start_place: Place,
    pub return_flow: Place,
}

impl Function {
    /// A block id is active and its block exists.
    pub open spec fn active_set(self) -> bool {
        match self.active_block {
            Some(b) => b < self.basic_blocks@.len() && self.basic_blocks@[b as int] is Some,
            None => false,
        }
    }

    /// The exit place of the active block; meaningful under `active_set`.
    pub open spec fn active_end_index(self) -> usize {
        match self.basic_blocks@[self.active_block->0 as int] {
            Some(bb) => bb.end_place.index,
            None => self.start_place.index,
        }
    }

    /// Some block of the frame has been created.
    pub open spec fn has_block(self) -> bool {
        exists|i: int|
            0 <= i < self.basic_blocks@.len() && (#[trigger] self.basic_blocks@[i]) is Some
    }

    /// Where a return terminator draws control from: the active block's
    /// exit, or the frame entry for a body that never opened a block.
    pub open spec fn return_source(self) -> usize {
        if self.active_set() {
            self.active_end_index()
        } else {
            self.start_place.index
        }
    }

    /// The frame is valid for the net model `v`.
    pub open spec fn wf(self, v: NetView) -> bool {
        &&& self.virt_memory.wf(v)
        &&& self.start_place.index < v.n_places()
        &&& v.is_free(self.start_place.index)
        &&& self.return_flow.index < v.n_places()
        &&& v.is_free(self.return_flow.index)
        &&& forall|i: int|
            0 <= i < self.basic_blocks@.len() ==> ((#[trigger] self.basic_blocks@[i])
                matches Some(bb) ==> bb.wf(v))
        &&& match self.active_block {
            Some(b) => b < self.basic_blocks@.len() && self.basic_blocks@[b as int] is Some,
            None => true,
        }
    }
}

/// A frame stays valid when the net grows.
pub proof fn lemma_function_wf_extends(f: Function, o: NetView, v: NetView)
    requires
        f.wf(o),
        NetView::extends(o, v),
    ensures
        f.wf(v),
{
    lemma_vm_wf_extends(f.virt_memory, o, v);
    crate::petri_net::petri_net::lemma_extends_free(o, v, f.start_place.index);
    crate::petri_net::petri_net::lemma_extends_free(o, v, f.return_flow.index);
    assert forall|i: int|
        0 <= i < f.basic_blocks@.len() implies ((#[trigger] f.basic_blocks@[i]) matches Some(bb)
        ==> bb.wf(v)) by {
        match f.basic_blocks@[i] {
            Some(bb) => {
                crate::petri_net::basic_block::wf_preserved_for_block(bb, o, v);
            },
            None => {},
        }
    }
}

impl Function {
    /// Open a frame: seed the virtual memory with the slots shared with
    /// the caller (the return slot, then the parameters), create the
    /// remaining locals, and copy the constants and promoted spaces.
    pub fn new(
        name: String,
        net: &mut PetriNet,
        args: &Vec<Local>,
        data_return: Local,
        start_place: Place,
        constant_memory: &Data,
        static_memory: &Vec<Data>,
        return_flow: Place,
        local_count: usize,
        n_blocks: usize,
    ) -> (f: Function)
        requires
            old(net)@.wf(),
            old(net)@.balanced(),
            laws::slot_sums(old(net)@),
            start_place.ok(old(net)@),
            old(net)@.is_free(start_place.index),
            return_flow.ok(old(net)@),
            old(net)@.is_free(return_flow.index),
            data_return.wf(old(net)@),
            forall|j: int| 0 <= j < args@.len() ==> (#[trigger] args@[j]).wf(old(net)@),
            constant_memory matches Data::Constant(c) && c.index < old(net)@.n_places() && old(net)@.grouped(c.index),
            forall|j: int|
                0 <= j < static_memory@.len() ==> ((#[trigger] static_memory@[j])
                    matches Data::Static(p) && p.index < old(net)@.n_places() && old(net)@.grouped(p.index)),
        ensures
            final(net)@.wf(),
            final(net)@.balanced(),
            laws::slot_sums(final(net)@),
            NetView::extends(old(net)@, final(net)@),
            f.wf(final(net)@),
            f.active_block is None,
            f.start_place == start_place,
            f.return_flow == return_flow,
            f.name == name,
            f.basic_blocks@.len() == n_blocks,
            forall|i: int| 0 <= i < n_blocks ==> (#[trigger] f.basic_blocks@[i]) is None,
            f.virt_memory.constants == *constant_memory,
            f.virt_memory.statics@ == static_memory@,
            f.virt_memory.locals@.len() == local_count,
            forall|i: int|
                0 <= i < local_count && i < args@.len() + 1 ==> #[trigger] f.virt_memory.locals@[i]
                    == Data::Local(if i == 0 {
                    data_return
                } else {
                    args@[i - 1]
                }),
            forall|i: int|
                args@.len() + 1 <= i < local_count ==> ((#[trigger] f.virt_memory.locals@[i])
                    matches Data::Local(loc) && loc.prenatal_place is Some && loc.dead_place is Some
                    && loc.live_place.index >= old(net)@.n_places() && final(net)@.marking[
                    loc.prenatal_place->0.index as int] == 1 && final(net)@.marking[
                    loc.live_place.index as int] == 0 && final(net)@.marking[
                    loc.dead_place->0.index as int] == 0),
    {
        let ghost o0 = net@;
        let mut locals: Vec<Data> = Vec::new();
        let mut i: usize = 0;
        while i < local_count
            invariant
                o0 == old(net)@,
                net@.wf(),
                net@.balanced(),
                laws::slot_sums(net@),
                NetView::extends(o0, net@),
                i <= local_count,
                locals@.len() == i,
                forall|k: int|
                    0 <= k < i ==> ((#[trigger] locals@[k]) matches Data::Local(l) && l.wf(net@)),
                forall|k: int|
                    0 <= k < i && k < args@.len() + 1 ==> #[trigger] locals@[k] == Data::Local(
                        if k == 0 {
                            data_return
                        } else {
                            args@[k - 1]
                        },
                    ),
                forall|k: int|
                    args@.len() + 1 <= k < i ==> ((#[trigger] locals@[k]) matches Data::Local(loc)
                        && loc.prenatal_place is Some && loc.dead_place is Some
                        && loc.live_place.index >= old(net)@.n_places() && net@.marking[
                        loc.prenatal_place->0.index as int] == 1 && net@.marking[
                        loc.live_place.index as int] == 0 && net@.marking[
                        loc.dead_place->0.index as int] == 0),
                data_return.wf(net@),
                forall|j: int| 0 <= j < args@.len() ==> (#[trigger] args@[j]).wf(net@),
            decreases local_count - i,
        {
            let ghost prev = net@;
            let local: Local = if i == 0 {
                data_return
            } else if i - 1 < args.len() {
                args[i - 1]
            } else {
                let mut nm = String::from_str(name.as_str());
                push_str(&mut nm, "_");
                push_str(&mut nm, dec_u64(i as u64).as_str());
                let fresh = Local::new(net, nm.as_str());
                proof {
                    lemma_extends_trans(o0, prev, net@);
                    lemma_local_wf_extends(data_return, prev, net@);
                    assert forall|j: int| 0 <= j < args@.len() implies (#[trigger] args@[j]).wf(
                        net@,
                    ) by {
                        lemma_local_wf_extends(args@[j], prev, net@);
                    }
                    assert forall|k: int|
                        0 <= k < i implies ((#[trigger] locals@[k]) matches Data::Local(l) && l.wf(
                        net@,
                    )) by {
                        match locals@[k] {
                            Data::Local(l) => {
                                lemma_local_wf_extends(l, prev, net@);
                            },
                            _ => {},
                        }
                    }
                }
                fresh
            };
            locals.push(Data::Local(local));
            i = i + 1;
        }
        let statics = copy_data_vec(static_memory);
        let mut basic_blocks: Vec<Option<BasicBlock>> = Vec::new();
        let mut b: usize = 0;
        while b < n_blocks
            invariant
                basic_blocks@.len() == b,
                b <= n_blocks,
                forall|k: int| 0 <= k < b ==> (#[trigger] basic_blocks@[k]) is None,
            decreases n_blocks - b,
        {
            basic_blocks.push(None);
            b = b + 1;
        }
        let f = Function {
            name,
            basic_blocks,
            virt_memory: VirtualMemory { locals, statics, constants: *constant_memory },
            active_block: None,
            start_place,
            return_flow,
        };
        proof {
            let v = net@;
            crate::petri_net::petri_net::lemma_extends_free(o0, v, start_place.index);
            crate::petri_net::petri_net::lemma_extends_free(o0, v, return_flow.index);
            match *constant_memory {
                Data::Constant(c) => {
                    let gi = choose|gi: int|
                        0 <= gi < o0.groups.len() && #[trigger] o0.groups[gi].contains(c.index);
                    assert(v.groups[gi] == o0.groups[gi]);
                },
                _ => {},
            }
            assert forall|j: int|
                0 <= j < f.virt_memory.statics@.len() implies ((
            #[trigger] f.virt_memory.statics@[j]) matches Data::Static(p) && p.index
                < v.n_places() && v.grouped(p.index)) by {
                match f.virt_memory.statics@[j] {
                    Data::Static(p) => {
                        let gi = choose|gi: int|
                            0 <= gi < o0.groups.len() && #[trigger] o0.groups[gi].contains(
                                p.index,
                            );
                        assert(v.groups[gi] == o0.groups[gi]);
                    },
                    _ => {},
                }
            }
            assert(f.wf(v));
        }
        f
    }

    /// The exit place of the active block.
    fn active_end(&self) -> (r: Result<Place, PetriError>)
        ensures
            match r {
                Ok(p) => self.active_set() && (self.basic_blocks@[self.active_block->0 as int]
                    matches Some(bb) && p == bb.end_place),
                Err(e) => e == PetriError::ActiveBlockMissing && !self.active_set(),
            },
    {
        match self.active_block {
            Some(b) => {
                if b < self.basic_blocks.len() {
                    match &self.basic_blocks[b] {
                        Some(bb) => Ok(bb.end_place()),
                        None => Err(PetriError::ActiveBlockMissing),
                    }
                } else {
                    Err(PetriError::ActiveBlockMissing)
                }
            },
            None => Err(PetriError::ActiveBlockMissing),
        }
    }

    /// Whether any block of the frame has been created yet.
    fn has_any_block(&self) -> (r: bool)
        ensures
            r == self.has_block(),
    {
        let mut i: usize = 0;
        while i < self.basic_blocks.len()
            invariant
                i <= self.basic_blocks@.len(),
                forall|k: int| 0 <= k < i ==> (#[trigger] self.basic_blocks@[k]) is None,
            decreases self.basic_blocks@.len() - i,
        {
            match &self.basic_blocks[i] {
                Some(_) => {
                    return true;
                },
                None => {},
            }
            i = i + 1;
        }
        false
    }

    /// Create the block structure for `block`.  The first block of the
    /// frame reuses the frame's entry place; later blocks get a fresh one.
    fn add_basic_block(&mut self, net: &mut PetriNet, block: usize) -> (r: Result<(), PetriError>)
        requires
            old(net)@.wf(),
            old(net)@.balanced(),
            laws::slot_sums(old(net)@),
            old(self).wf(old(net)@),
            block < old(self).basic_blocks@.len(),
        ensures
            r is Ok,
            final(net)@.wf(),
            final(net)@.balanced(),
            laws::slot_sums(final(net)@),
            NetView::extends(old(net)@, final(net)@),
            NetView::grows_quiet_places(old(net)@, final(net)@),
            final(self).wf(final(net)@),
            final(self).basic_blocks@.len() == old(self).basic_blocks@.len(),
            final(self).basic_blocks@[block as int] is Some,
            final(self).basic_blocks@[block as int] matches Some(bb) && bb.statements@.len() == 0
                && (if old(self).has_block() {
                bb.start_place.index == old(net)@.n_places() && bb.end_place.index == old(
                    net,
                )@.n_places() + 1 && final(net)@.n_places() == old(net)@.n_places() + 2
            } else {
                bb.start_place == old(self).start_place && bb.end_place.index == old(
                    net,
                )@.n_places() && final(net)@.n_places() == old(net)@.n_places() + 1
            }),
            forall|i: int|
                0 <= i < old(self).basic_blocks@.len() && i != block
                    ==> final(self).basic_blocks@[i] == #[trigger] old(self).basic_blocks@[i],
            final(self).active_block == old(self).active_block,
            final(self).start_place == old(self).start_place,
            final(self).return_flow == old(self).return_flow,
            final(self).virt_memory == old(self).virt_memory,
            final(self).name == old(self).name,
    {
        let ghost o0 = net@;
        let start_place = if !self.has_any_block() {
            self.start_place
        } else {
            let mut nm = String::from_str("bb ");
            push_str(&mut nm, dec_u64(block as u64).as_str());
            let p = net.add_place(Some(nm), 0);
            proof {
                assert(NetView::extends(o0, net@));
                laws::lemma_slot_sums_extends(o0, net@);
            }
            p
        };
        let ghost o1 = net@;
        proof {
            assert(NetView::extends(o0, o1));
            lemma_function_wf_extends(*old(self), o0, o1);
        }
        let bb = BasicBlock::new(net, start_place);
        self.basic_blocks.set(block, Some(bb));
        proof {
            lemma_extends_trans(o0, o1, net@);
            lemma_function_wf_extends(*old(self), o0, net@);
            assert(self.basic_blocks@ == old(self).basic_blocks@.update(block as int, Some(bb)));
            assert forall|i: int|
                0 <= i < self.basic_blocks@.len() implies ((#[trigger] self.basic_blocks@[i])
                matches Some(b2) ==> b2.wf(net@)) by {
                if i != block {
                    assert(self.basic_blocks@[i] == old(self).basic_blocks@[i]);
                }
            }
            match self.active_block {
                Some(b) => {
                    if b != block {
                        assert(self.basic_blocks@[b as int] == old(self).basic_blocks@[b as int]);
                    }
                },
                None => {},
            }
        }
        Ok(())
    }

    /// The entry place of `block`, creating the block on first reference.
    pub fn get_basic_block_start(&mut self, net: &mut PetriNet, block: usize) -> (r: Result<
        Place,
        PetriError,
    >)
        requires
            old(net)@.wf(),
            old(net)@.balanced(),
            laws::slot_sums(old(net)@),
            old(self).wf(old(net)@),
        ensures
            final(net)@.wf(),
            final(net)@.balanced(),
            laws::slot_sums(final(net)@),
            NetView::extends(old(net)@, final(net)@),
            NetView::grows_quiet_places(old(net)@, final(net)@),
            final(self).wf(final(net)@),
            final(self).basic_blocks@.len() == old(self).basic_blocks@.len(),
            final(self).active_block == old(self).active_block,
            final(self).start_place == old(self).start_place,
            final(self).return_flow == old(self).return_flow,
            final(self).virt_memory == old(self).virt_memory,
            final(self).name == old(self).name,
            match r {
                Ok(p) => block < old(self).basic_blocks@.len() && p.index < final(net)@.n_places()
                    && final(net)@.is_free(p.index) && (final(self).basic_blocks@[block as int]
                    matches Some(bb) && p == bb.start_place),
                Err(e) => e == PetriError::BlockNotFound && block >= old(self).basic_blocks@.len() && *final(self) == *old(self) && *final(net) == *old(net),
            },
            forall|i: int|
                0 <= i < old(self).basic_blocks@.len() && (#[trigger] old(self).basic_blocks@[i]) is Some ==> final(self).basic_blocks@[i] == old(self).basic_blocks@[i],
    {
        if block >= self.basic_blocks.len() {
            return Err(PetriError::BlockNotFound);
        }
        let ghost o0 = net@;
        let need_create = match &self.basic_blocks[block] {
            Some(_) => false,
            None => true,
        };
        if need_create {
            let r = self.add_basic_block(net, block);
        }
        match &self.basic_blocks[block] {
            Some(bb) => {
                proof {
                    assert(self.basic_blocks@[block as int] matches Some(b2) && b2.wf(net@));
                }
                Ok(bb.start_place())
            },
            None => Err(PetriError::BlockNotFound),
        }
    }

    /// Make `block` the active block, creating it on first reference.
    pub fn activate_block(&mut self, net: &mut PetriNet, block: usize) -> (r: Result<
        (),
        PetriError,
    >)
        requires
            old(net)@.wf(),
            old(net)@.balanced(),
            laws::slot_sums(old(net)@),
            old(self).wf(old(net)@),
        ensures
            final(net)@.wf(),
            final(net)@.balanced(),
            laws::slot_sums(final(net)@),
            NetView::extends(old(net)@, final(net)@),
            final(self).wf(final(net)@),
            final(self).start_place == old(self).start_place,
            final(self).return_flow == old(self).return_flow,
            final(self).virt_memory == old(self).virt_memory,
            final(self).name == old(self).name,
            match r {
                Ok(_) => block < old(self).basic_blocks@.len() && final(self).active_block
                    == Some(block) && final(self).active_set(),
                Err(e) => e == PetriError::BlockNotFound && block >= old(self).basic_blocks@.len() && *final(self) == *old(self),
            },
    {
        if block >= self.basic_blocks.len() {
            return Err(PetriError::BlockNotFound);
        }
        let need_create = match &self.basic_blocks[block] {
            Some(_) => false,
            None => true,
        };
        if need_create {
            let r = self.add_basic_block(net, block);
        }
        self.active_block = Some(block);
        Ok(())
    }

    /// Lower one statement into the active block.
    pub fn add_statement(
        &mut self,
        net: &mut PetriNet,
        statement: &llir::Stmt,
        mutexes: &crate::petri_net::unique_functions::MutexList,
    ) -> (r: Result<(), PetriError>)
        requires
            old(net)@.wf(),
            old(net)@.balanced(),
            laws::slot_sums(old(net)@),
            old(self).wf(old(net)@),
            mutexes.wf(old(net)@),
        ensures
            final(net)@.wf(),
            final(net)@.balanced(),
            laws::slot_sums(final(net)@),
            NetView::extends(old(net)@, final(net)@),
            final(self).wf(final(net)@),
            final(self).active_block == old(self).active_block,
            final(self).start_place == old(self).start_place,
            final(self).return_flow == old(self).return_flow,
            final(self).virt_memory == old(self).virt_memory,
            final(self).name == old(self).name,
            r is Ok <==> (old(self).active_set() && crate::petri_net::basic_block::spec_stmt_ok(
                *statement,
                old(self).virt_memory,
            )),
    {
        let b = match self.active_block {
            Some(b) => b,
            None => {
                return Err(PetriError::ActiveBlockMissing);
            },
        };
        if b >= self.basic_blocks.len() {
            return Err(PetriError::ActiveBlockMissing);
        }
        let ghost o0 = net@;
        let r = match &mut self.basic_blocks[b] {
            Some(bb) => bb.add_statement(net, statement, &self.virt_memory, mutexes),
            None => Err(PetriError::ActiveBlockMissing),
        };
        proof {
            lemma_function_wf_extends(*old(self), o0, net@);
            assert forall|i: int|
                0 <= i < self.basic_blocks@.len() implies ((#[trigger] self.basic_blocks@[i])
                matches Some(b2) ==> b2.wf(net@)) by {
                if i != b {
                    assert(self.basic_blocks@[i] == old(self).basic_blocks@[i]);
                }
            }
            match self.active_block {
                Some(ab) => {
                    if ab != b {
                        assert(self.basic_blocks@[ab as int] == old(self).basic_blocks@[ab as int]);
                    }
                },
                None => {},
            }
        }
        r
    }

    /// Close the active block's statement chain.
    pub fn finish_basic_block(&self, net: &mut PetriNet) -> (r: Result<(), PetriError>)
        requires
            old(net)@.wf(),
            old(net)@.balanced(),
            laws::slot_sums(old(net)@),
            self.wf(old(net)@),
        ensures
            final(net)@.wf(),
            final(net)@.balanced(),
            laws::slot_sums(final(net)@),
            NetView::extends(old(net)@, final(net)@),
            match r {
                Ok(_) => self.active_set(),
                Err(e) => e == PetriError::ActiveBlockMissing && !self.active_set(),
            },
    {
        let b = match self.active_block {
            Some(b) => b,
            None => {
                return Err(PetriError::ActiveBlockMissing);
            },
        };
        if b >= self.basic_blocks.len() {
            return Err(PetriError::ActiveBlockMissing);
        }
        match &self.basic_blocks[b] {
            Some(bb) => bb.finish_statement_block(net),
            None => Err(PetriError::ActiveBlockMissing),
        }
    }
}

/// The data place a base place resolves to: the live place of its local,
/// or its promoted constant's place.  Meaningful when `spec_place_ok`
/// holds.
pub open spec fn spec_place_node(place: llir::PlaceBase, memory: VirtualMemory) -> Place {
    match place {
        llir::PlaceBase::Local(l) => match memory.locals@[l as int] {
            Data::Local(loc) => loc.live_place,
            Data::Static(p) => p,
            Data::Constant(p) => p,
        },
        llir::PlaceBase::Promoted(s) => match memory.statics@[s as int] {
            Data::Local(loc) => loc.live_place,
            Data::Static(p) => p,
            Data::Constant(p) => p,
        },
    }
}

/// The data place an operand resolves to: its base place's data place, or
/// the shared constants place for a literal.  Meaningful when
/// `spec_op_ok` holds.
pub open spec fn spec_op_node(operand: llir::Operand, memory: VirtualMemory) -> Place {
    match operand {
        llir::Operand::Copy(place) | llir::Operand::Move(place) => spec_place_node(place, memory),
        llir::Operand::Constant => match memory.constants {
            Data::Local(loc) => loc.live_place,
            Data::Static(p) => p,
            Data::Constant(p) => p,
        },
    }
}

/// The slot a base place denotes: the local itself, or a promoted
/// constant wrapped as a constant slot.  Meaningful when `spec_place_ok`
/// holds.
pub open spec fn spec_place_local(place: llir::PlaceBase, memory: VirtualMemory) -> Local {
    match place {
        llir::PlaceBase::Local(l) => match memory.locals@[l as int] {
            Data::Local(loc) => loc,
            Data::Static(p) => (Local { prenatal_place: None, live_place: p, dead_place: None }),
            Data::Constant(p) => (Local {
                prenatal_place: None,
                live_place: p,
                dead_place: None,
            }),
        },
        llir::PlaceBase::Promoted(_) => (Local {
            prenatal_place: None,
            live_place: spec_place_node(place, memory),
            dead_place: None,
        }),
    }
}

/// The slot an operand reads, where it reads one.
pub open spec fn spec_op_local(operand: llir::Operand, memory: VirtualMemory) -> Option<Local> {
    match operand {
        llir::Operand::Copy(place) | llir::Operand::Move(place) => if spec_place_ok(
            place,
            memory,
        ) {
            Some(spec_place_local(place, memory))
        } else {
            None
        },
        llir::Operand::Constant => None,
    }
}

/// The base place can be resolved to a data place in this memory.
pub open spec fn spec_place_ok(place: llir::PlaceBase, memory: VirtualMemory) -> bool {
    match place {
        llir::PlaceBase::Local(l) => l < memory.locals@.len() && memory.locals@[l as int]
            matches Data::Local(_),
        llir::PlaceBase::Promoted(s) => s < memory.statics@.len() && memory.statics@[s as int]
            matches Data::Static(_),
    }
}

/// The callee name is one of the recognised diverging foreign entry
/// points: the allocation-error handler, the capacity-overflow handler, or
/// the unwrap-failure handler.
pub open spec fn spec_recognized_diverging(name: Seq<char>) -> bool {
    ||| spec_contains_substr(name, "std::alloc::handle_alloc_error"@)
    ||| spec_contains_substr(name, "alloc::raw_vec::capacity_overflow"@)
    ||| spec_contains_substr(name, "std::result::unwrap_failed"@)
}

/// The operand can be resolved to a data place in this memory.
pub open spec fn spec_op_ok(operand: llir::Operand, memory: VirtualMemory) -> bool {
    match operand {
        llir::Operand::Copy(place) | llir::Operand::Move(place) => spec_place_ok(place, memory),
        llir::Operand::Constant => memory.constants matches Data::Constant(_),
    }
}

/// The data place an operand reads: the base place for a copy or a move,
/// the shared constants place for a literal.
pub(crate) fn op_to_data_node(operand: &llir::Operand, memory: &VirtualMemory) -> (r: Result<
    Place,
    PetriError,
>)
    ensures
        r matches Ok(p) ==> memory.has_data_place(p),
        r is Ok <==> spec_op_ok(*operand, *memory),
        r matches Ok(p) ==> p == spec_op_node(*operand, *memory),
        r matches Err(e) ==> (e == PetriError::LocalNotFound || e == PetriError::StaticNotFound),
{
    match operand {
        llir::Operand::Copy(place) | llir::Operand::Move(place) => place_to_data_node(
            place,
            memory,
        ),
        llir::Operand::Constant => memory.get_constant(),
    }
}

/// The data place of a base place: the live place of its local, or the
/// place of its promoted constant.
pub(crate) fn place_to_data_node(place: &llir::PlaceBase, memory: &VirtualMemory) -> (r: Result<
    Place,
    PetriError,
>)
    ensures
        match *place {
            llir::PlaceBase::Local(l) => match r {
                Ok(p) => l < memory.locals@.len() && (memory.locals@[l as int]
                    matches Data::Local(loc) && loc.live_place == p),
                Err(e) => e == PetriError::LocalNotFound && (l >= memory.locals@.len() || !(
                memory.locals@[l as int] matches Data::Local(_))),
            },
            llir::PlaceBase::Promoted(s) => match r {
                Ok(p) => s < memory.statics@.len() && memory.statics@[s as int] == Data::Static(
                    p,
                ),
                Err(e) => e == PetriError::StaticNotFound && (s >= memory.statics@.len() || !(
                memory.statics@[s as int] matches Data::Static(_))),
            },
        },
        r matches Ok(p) ==> memory.has_data_place(p),
        r is Ok <==> spec_place_ok(*place, *memory),
        r matches Ok(p) ==> p == spec_place_node(*place, *memory),
{
    match place {
        llir::PlaceBase::Local(local) => {
            match memory.get_local(*local) {
                Some(l) => Ok(l.live_place),
                None => Err(PetriError::LocalNotFound),
            }
        },
        llir::PlaceBase::Promoted(promoted) => {
            match memory.get_static(*promoted) {
                Some(p) => Ok(p),
                None => Err(PetriError::StaticNotFound),
            }
        },
    }
}

impl Function {
    /// A goto terminator: one transition from the active block's exit to
    /// the target block's entry, creating the target block on first
    /// reference.
    pub fn goto(&mut self, net: &mut PetriNet, to: usize) -> (r: Result<(), PetriError>)
        requires
            old(net)@.wf(),
            old(net)@.balanced(),
            laws::slot_sums(old(net)@),
            old(self).wf(old(net)@),
        ensures
            final(net)@.wf(),
            final(net)@.balanced(),
            laws::slot_sums(final(net)@),
            NetView::extends(old(net)@, final(net)@),
            final(self).wf(final(net)@),
            final(self).active_block == old(self).active_block,
            final(self).start_place == old(self).start_place,
            final(self).return_flow == old(self).return_flow,
            final(self).virt_memory == old(self).virt_memory,
            final(self).name == old(self).name,
            final(self).basic_blocks@.len() == old(self).basic_blocks@.len(),
            match r {
                Ok(_) => old(self).active_set() && to < old(self).basic_blocks@.len() && (
                final(self).basic_blocks@[to as int] matches Some(bb)
                    && NetView::adds_blocks_and_transition(
                    old(net)@,
                    final(net)@,
                    Some("Goto"@),
                    set![old(self).active_end_index()],
                    set![bb.start_place.index],
                )),
                Err(e) => ((e == PetriError::ActiveBlockMissing && !old(self).active_set()) || (e
                    == PetriError::BlockNotFound && to >= old(self).basic_blocks@.len()))
                    && *final(net) == *old(net) && *final(self) == *old(self),
            },
    {
        let ghost o0 = net@;
        let source = match self.active_end() {
            Ok(p) => p,
            Err(e) => {
                return Err(e);
            },
        };
        proof {
            assert(self.basic_blocks@[self.active_block->0 as int] matches Some(bb) && bb.wf(o0));
            assert(source.index == old(self).active_end_index());
        }
        let target = match self.get_basic_block_start(net, to) {
            Ok(p) => p,
            Err(e) => {
                return Err(e);
            },
        };
        let ghost mid = net@;
        proof {
            crate::petri_net::petri_net::lemma_extends_free(o0, mid, source.index);
        }
        let t = net.add_bridge(Some(String::from_str("Goto")), source, target);
        proof {
            crate::petri_net::petri_net::lemma_grow_then_bridge(
                o0,
                mid,
                net@,
                Some("Goto"@),
                set![source.index],
                set![target.index],
            );
            lemma_extends_trans(o0, mid, net@);
            laws::lemma_slot_sums_extends(mid, net@);
            lemma_function_wf_extends(*self, mid, net@);
        }
        Ok(())
    }

    /// A return terminator: a transition from the active block's exit (or
    /// the frame entry, for a body that never opened a block) to the
    /// frame's return-flow place.
    pub fn retorn(&mut self, net: &mut PetriNet) -> (r: Result<(), PetriError>)
        requires
            old(net)@.wf(),
            old(net)@.balanced(),
            laws::slot_sums(old(net)@),
            old(self).wf(old(net)@),
        ensures
            r is Ok,
            final(net)@.wf(),
            final(net)@.balanced(),
            laws::slot_sums(final(net)@),
            NetView::extends(old(net)@, final(net)@),
            final(self).wf(final(net)@),
            *final(self) == *old(self),
            NetView::adds_transition(
                old(net)@,
                final(net)@,
                Some("Return"@),
                set![old(self).return_source()],
                set![old(self).return_flow.index],
            ),
    {
        let ghost o0 = net@;
        let source = match self.active_end() {
            Ok(p) => p,
            Err(_) => self.start_place,
        };
        proof {
            match self.active_block {
                Some(b) => {
                    if b < self.basic_blocks@.len() && self.basic_blocks@[b as int] is Some {
                        assert(self.basic_blocks@[b as int] matches Some(bb) && bb.wf(o0));
                    }
                },
                None => {},
            }
            assert(source.index == old(self).return_source());
        }
        let nm = String::from_str("Return");
        let t = net.add_bridge(Some(nm), source, self.return_flow);
        proof {
            assert(NetView::extends(o0, net@));
            laws::lemma_slot_sums_extends(o0, net@);
            lemma_function_wf_extends(*self, o0, net@);
        }
        Ok(())
    }

    /// A switch terminator: one transition per listed target (duplicates
    /// preserved), every branch non-deterministically enabled at the
    /// block's exit; targets are created on first reference.
    #[verifier::rlimit(80)]
    pub fn switch_int(&mut self, net: &mut PetriNet, targets: &Vec<usize>) -> (r: Result<
        (),
        PetriError,
    >)
        requires
            old(net)@.wf(),
            old(net)@.balanced(),
            laws::slot_sums(old(net)@),
            old(self).wf(old(net)@),
        ensures
            final(net)@.wf(),
            final(net)@.balanced(),
            laws::slot_sums(final(net)@),
            NetView::extends(old(net)@, final(net)@),
            final(self).wf(final(net)@),
            final(self).active_block == old(self).active_block,
            final(self).start_place == old(self).start_place,
            final(self).return_flow == old(self).return_flow,
            final(self).virt_memory == old(self).virt_memory,
            final(self).name == old(self).name,
            final(self).basic_blocks@.len() == old(self).basic_blocks@.len(),
            match r {
                Ok(_) => {
                    &&& old(self).active_set()
                    &&& forall|k: int|
                        0 <= k < targets@.len() ==> #[trigger] targets@[k] < old(self).basic_blocks@.len()
                    &&& final(net)@.n_transitions() == old(net)@.n_transitions()
                        + targets@.len()
                    &&& forall|i: int|
                        0 <= i < old(net)@.n_transitions()
                            ==> final(net)@.trans_names[i] == old(net)@.trans_names[i]
                    &&& forall|k: int|
                        0 <= k < targets@.len() ==> final(net)@.trans_names[old(net)@.n_transitions() + k] == Some(
                            "switch int"@ + crate::util::spec_dec(targets@[k] as int),
                        )
                    &&& forall|k: int|
                        0 <= k < targets@.len() ==> (
                        #[trigger] final(self).basic_blocks@[targets@[k] as int]) is Some
                    &&& old(net)@.n_places() <= final(net)@.n_places()
                    &&& forall|i: int|
                        0 <= i < old(net)@.n_places() ==> final(net)@.place_names[i] == old(net)@.place_names[i]
                    &&& forall|i: int|
                        0 <= i < old(net)@.marking.len() ==> final(net)@.marking[i] == old(net)@.marking[i]
                    &&& forall|i: int|
                        old(net)@.marking.len() <= i < final(net)@.marking.len() ==> final(net)@.marking[i] == 0
                    &&& final(net)@.groups == old(net)@.groups
                    &&& forall|q: usize, t2: usize|
                        #![trigger final(net)@.has_pt(q, t2)]
                        #![trigger final(net)@.has_tp(t2, q)]
                        q < final(net)@.n_places() && t2 < final(net)@.n_transitions() ==> (
                        final(net)@.has_pt(q, t2) == (if t2 < old(net)@.n_transitions() {
                            q < old(net)@.n_places() && old(net)@.has_pt(q, t2)
                        } else {
                            q == old(self).active_end_index()
                        })) && (final(net)@.has_tp(t2, q) == (if t2 < old(net)@.n_transitions() {
                            q < old(net)@.n_places() && old(net)@.has_tp(t2, q)
                        } else {
                            final(self).basic_blocks@[targets@[t2 - old(net)@.n_transitions()] as int] matches Some(bb) && q
                                == bb.start_place.index
                        }))
                },
                Err(e) => (e == PetriError::ActiveBlockMissing && !old(self).active_set()) || (e
                    == PetriError::BlockNotFound && exists|k: int|
                    0 <= k < targets@.len() && #[trigger] targets@[k] >= old(self).basic_blocks@.len()),
            },
    {
        let ghost o0 = net@;
        let source = match self.active_end() {
            Ok(p) => p,
            Err(e) => {
                return Err(e);
            },
        };
        proof {
            assert(self.basic_blocks@[self.active_block->0 as int] matches Some(bb) && bb.wf(o0));
            assert(source.index == old(self).active_end_index());
        }
        let mut i: usize = 0;
        while i < targets.len()
            invariant
                o0 == old(net)@,
                net@.wf(),
                net@.balanced(),
                laws::slot_sums(net@),
                NetView::extends(o0, net@),
                self.wf(net@),
                self.active_block == old(self).active_block,
                self.start_place == old(self).start_place,
                self.return_flow == old(self).return_flow,
                self.virt_memory == old(self).virt_memory,
                self.name == old(self).name,
                self.basic_blocks@.len() == old(self).basic_blocks@.len(),
                old(self).active_set(),
                i <= targets@.len(),
                source.index < net@.n_places(),
                net@.is_free(source.index),
                source.index == old(self).active_end_index(),
                source.index < o0.n_places(),
                net@.n_transitions() == o0.n_transitions() + i,
                forall|j: int|
                    0 <= j < o0.n_transitions() ==> net@.trans_names[j] == o0.trans_names[j],
                forall|k: int|
                    0 <= k < i ==> net@.trans_names[o0.n_transitions() + k] == Some(
                        "switch int"@ + crate::util::spec_dec(targets@[k] as int),
                    ),
                forall|k: int|
                    0 <= k < i ==> #[trigger] targets@[k] < old(self).basic_blocks@.len(),
                forall|k: int|
                    0 <= k < i ==> (#[trigger] self.basic_blocks@[targets@[k] as int]) is Some,
                forall|j: int|
                    0 <= j < old(self).basic_blocks@.len() && (#[trigger] old(self).basic_blocks@[j]) is Some ==> self.basic_blocks@[j] == old(self).basic_blocks@[j],
                o0.n_places() <= net@.n_places(),
                forall|j: int|
                    0 <= j < o0.n_places() ==> net@.place_names[j] == o0.place_names[j],
                forall|j: int| 0 <= j < o0.marking.len() ==> net@.marking[j] == o0.marking[j],
                forall|j: int|
                    o0.marking.len() <= j < net@.marking.len() ==> net@.marking[j] == 0,
                net@.groups == o0.groups,
                forall|q: usize, t2: usize|
                    #![trigger net@.has_pt(q, t2)]
                    #![trigger net@.has_tp(t2, q)]
                    q < net@.n_places() && t2 < net@.n_transitions() ==> (net@.has_pt(q, t2) == (
                    if t2 < o0.n_transitions() {
                        q < o0.n_places() && o0.has_pt(q, t2)
                    } else {
                        q == source.index
                    })) && (net@.has_tp(t2, q) == (if t2 < o0.n_transitions() {
                        q < o0.n_places() && o0.has_tp(t2, q)
                    } else {
                        self.basic_blocks@[targets@[t2 - o0.n_transitions()] as int]
                            matches Some(bb) && q == bb.start_place.index
                    })),
            decreases targets@.len() - i,
        {
            let ghost prev = net@;
            let ghost prev_blocks = self.basic_blocks@;
            let target = match self.get_basic_block_start(net, targets[i]) {
                Ok(p) => p,
                Err(e) => {
                    proof {
                        lemma_extends_trans(o0, prev, net@);
                    }
                    return Err(e);
                },
            };
            let ghost mid = net@;
            proof {
                crate::petri_net::petri_net::lemma_extends_free(prev, mid, source.index);
            }
            let mut nm = String::from_str("switch int");
            push_str(&mut nm, dec_u64(targets[i] as u64).as_str());
            let ghost nmv = nm@;
            let t = net.add_bridge(Some(nm), source, target);
            proof {
                broadcast use vstd::set::group_set_axioms;

                let v = net@;
                assert(nmv == "switch int"@ + crate::util::spec_dec(targets@[i as int] as int));
                crate::petri_net::petri_net::lemma_grow_then_bridge(
                    prev,
                    mid,
                    v,
                    Some(nmv),
                    set![source.index],
                    set![target.index],
                );
                lemma_extends_trans(prev, mid, v);
                lemma_extends_trans(o0, prev, v);
                lemma_function_wf_extends(*self, mid, v);
                laws::lemma_slot_sums_extends(mid, v);
                assert(self.basic_blocks@[targets@[i as int] as int] matches Some(bb) && target
                    == bb.start_place);
                assert(targets@[i as int] < old(self).basic_blocks@.len());
                assert(v.trans_names[o0.n_transitions() + i] == Some(nmv)) by {
                    assert(v.trans_names == mid.trans_names.push(Some(nmv)));
                    assert(mid.n_transitions() == o0.n_transitions() + i);
                }
                assert forall|k: int|
                    0 <= k < i + 1 implies (#[trigger] self.basic_blocks@[targets@[k] as int]) is Some by {
                    if k < i {
                        assert(prev_blocks[targets@[k] as int] is Some);
                        assert(self.basic_blocks@[targets@[k] as int] == prev_blocks[targets@[k] as int]);
                    }
                }
                // fold the branch into the accumulated characterisation
                assert forall|q: usize, t2: usize|
                    #![trigger v.has_pt(q, t2)]
                    #![trigger v.has_tp(t2, q)]
                    q < v.n_places() && t2 < v.n_transitions() implies (v.has_pt(q, t2) == (if t2
                    < o0.n_transitions() {
                    q < o0.n_places() && o0.has_pt(q, t2)
                } else {
                    q == source.index
                })) && (v.has_tp(t2, q) == (if t2 < o0.n_transitions() {
                    q < o0.n_places() && o0.has_tp(t2, q)
                } else {
                    self.basic_blocks@[targets@[t2 - o0.n_transitions()] as int]
                        matches Some(bb2) && q == bb2.start_place.index
                })) by {
                    assert(set![source.index].contains(q) == (q == source.index));
                    assert(set![target.index].contains(q) == (q == target.index));
                    if t2 < prev.n_transitions() {
                        if q < prev.n_places() {
                        } else {
                            assert(!(q < o0.n_places()));
                        }
                        if t2 >= o0.n_transitions() {
                            assert(prev_blocks[targets@[t2 - o0.n_transitions()] as int]
                                == self.basic_blocks@[targets@[t2 - o0.n_transitions()] as int]);
                        }
                    } else {
                        assert(t2 == prev.n_transitions());
                        assert(t2 - o0.n_transitions() == i);
                    }
                }
            }
            i = i + 1;
        }
        Ok(())
    }

    /// A resume terminator: unwinding leaves the frame into the shared
    /// unwind-abort place.
    pub fn resume(&mut self, net: &mut PetriNet, unwind_place: Place) -> (r: Result<
        (),
        PetriError,
    >)
        requires
            old(net)@.wf(),
            old(net)@.balanced(),
            laws::slot_sums(old(net)@),
            old(self).wf(old(net)@),
            unwind_place.ok(old(net)@),
            old(net)@.is_free(unwind_place.index),
        ensures
            final(net)@.wf(),
            final(net)@.balanced(),
            laws::slot_sums(final(net)@),
            NetView::extends(old(net)@, final(net)@),
            final(self).wf(final(net)@),
            *final(self) == *old(self),
            match r {
                Ok(_) => old(self).active_set() && NetView::adds_transition(
                    old(net)@,
                    final(net)@,
                    Some("unwind"@),
                    set![old(self).active_end_index()],
                    set![unwind_place.index],
                ),
                Err(e) => e == PetriError::ActiveBlockMissing && !old(self).active_set()
                    && *final(net) == *old(net),
            },
    {
        let ghost o0 = net@;
        let source = match self.active_end() {
            Ok(p) => p,
            Err(e) => {
                return Err(e);
            },
        };
        proof {
            assert(self.basic_blocks@[self.active_block->0 as int] matches Some(bb) && bb.wf(o0));
            assert(source.index == old(self).active_end_index());
        }
        let t = net.add_bridge(Some(String::from_str("unwind")), source, unwind_place);
        proof {
            assert(NetView::extends(o0, net@));
            laws::lemma_slot_sums_extends(o0, net@);
            lemma_function_wf_extends(*self, o0, net@);
        }
        Ok(())
    }

    /// A panicking callee or an abort: control falls into the shared
    /// unwind-abort place.
    pub fn handle_panic(&mut self, net: &mut PetriNet, panic_place: Place) -> (r: Result<
        (),
        PetriError,
    >)
        requires
            old(net)@.wf(),
            old(net)@.balanced(),
            laws::slot_sums(old(net)@),
            old(self).wf(old(net)@),
            panic_place.ok(old(net)@),
            old(net)@.is_free(panic_place.index),
        ensures
            final(net)@.wf(),
            final(net)@.balanced(),
            laws::slot_sums(final(net)@),
            NetView::extends(old(net)@, final(net)@),
            final(self).wf(final(net)@),
            *final(self) == *old(self),
            match r {
                Ok(_) => old(self).active_set() && NetView::adds_transition(
                    old(net)@,
                    final(net)@,
                    Some("panic"@),
                    set![old(self).active_end_index()],
                    set![panic_place.index],
                ),
                Err(e) => e == PetriError::ActiveBlockMissing && !old(self).active_set()
                    && *final(net) == *old(net),
            },
    {
        let ghost o0 = net@;
        let source = match self.active_end() {
            Ok(p) => p,
            Err(e) => {
                return Err(e);
            },
        };
        proof {
            assert(self.basic_blocks@[self.active_block->0 as int] matches Some(bb) && bb.wf(o0));
            assert(source.index == old(self).active_end_index());
        }
        let t = net.add_bridge(Some(String::from_str("panic")), source, panic_place);
        proof {
            assert(NetView::extends(o0, net@));
            laws::lemma_slot_sums_extends(o0, net@);
            lemma_function_wf_extends(*self, o0, net@);
        }
        Ok(())
    }

    /// The place a recursive call starts its callee from: the exit of the
    /// active block.
    pub fn function_call_start_place(&self) -> (r: Result<Place, PetriError>)
        ensures
            match r {
                Ok(p) => self.active_set() && (self.basic_blocks@[self.active_block->0 as int]
                    matches Some(bb) && p == bb.end_place),
                Err(e) => e == PetriError::ActiveBlockMissing && !self.active_set(),
            },
    {
        self.active_end()
    }

    /// The frame's constants slot.
    pub fn constants(&self) -> (r: &Data)
        ensures
            *r == self.virt_memory.constants,
    {
        &self.virt_memory.constants
    }

    /// The frame's promoted-constant slots.
    pub fn statics(&self) -> (r: &Vec<Data>)
        ensures
            r@ == self.virt_memory.statics@,
    {
        &self.virt_memory.statics
    }

    /// The slot of a local of this frame.
    pub fn get_local(&self, local: usize) -> (r: Option<&Local>)
        ensures
            match r {
                Some(l) => local < self.virt_memory.locals@.len()
                    && self.virt_memory.locals@[local as int] == Data::Local(*l),
                None => local >= self.virt_memory.locals@.len() || !(
                self.virt_memory.locals@[local as int] matches Data::Local(_)),
            },
    {
        self.virt_memory.get_local(local)
    }

    /// A promoted constant, wrapped as a constant slot.
    pub fn get_promoted(&self, statik: usize) -> (r: Option<Local>)
        ensures
            match r {
                Some(l) => statik < self.virt_memory.statics@.len()
                    && self.virt_memory.statics@[statik as int] == Data::Static(l.live_place)
                    && l.prenatal_place is None && l.dead_place is None,
                None => statik >= self.virt_memory.statics@.len() || !(
                self.virt_memory.statics@[statik as int] matches Data::Static(_)),
            },
    {
        match self.virt_memory.get_static(statik) {
            Some(node) => Some(Local::new_constant(node)),
            None => None,
        }
    }

    /// The slot a base place denotes: the local itself, or a promoted
    /// constant wrapped as a constant slot.
    pub fn place_to_local(&self, place: &llir::PlaceBase) -> (r: Result<Local, PetriError>)
        ensures
            r is Ok <==> spec_place_ok(*place, self.virt_memory),
            r matches Ok(l) ==> self.virt_memory.has_data_place(l.live_place),
            r matches Ok(l) ==> l == spec_place_local(*place, self.virt_memory),
            match *place {
                llir::PlaceBase::Local(lid) => r matches Ok(l) ==> lid
                    < self.virt_memory.locals@.len() && self.virt_memory.locals@[lid as int]
                    == Data::Local(l),
                llir::PlaceBase::Promoted(st) => r matches Ok(l) ==> st
                    < self.virt_memory.statics@.len() && self.virt_memory.statics@[st as int]
                    == Data::Static(l.live_place) && l.prenatal_place is None && l.dead_place is None,
            },
    {
        match place {
            llir::PlaceBase::Local(local) => {
                match self.get_local(*local) {
                    Some(l) => Ok(*l),
                    None => Err(PetriError::LocalNotFound),
                }
            },
            llir::PlaceBase::Promoted(statik) => {
                match self.get_promoted(*statik) {
                    Some(l) => {
                        proof {
                            let s = *statik as int;
                            assert(self.virt_memory.statics@[s] == Data::Static(l.live_place));
                        }
                        Ok(l)
                    },
                    None => Err(PetriError::StaticNotFound),
                }
            },
        }
    }

    /// A drop terminator: control moves to the target block (or, where an
    /// unwind block exists, to it).  Destroying a slot registered as a lock
    /// guard additionally releases its mutex: the drop transition consumes
    /// the locked place and produces the unlocked one.
    #[verifier::rlimit(80)]
    pub fn drop(
        &mut self,
        net: &mut PetriNet,
        place: &llir::PlaceBase,
        target: usize,
        unwind: Option<usize>,
        mutexes: &crate::petri_net::unique_functions::MutexList,
    ) -> (r: Result<(), PetriError>)
        requires
            old(net)@.wf(),
            old(net)@.balanced(),
            laws::slot_sums(old(net)@),
            old(self).wf(old(net)@),
            mutexes.wf(old(net)@),
        ensures
            final(net)@.wf(),
            final(net)@.balanced(),
            laws::slot_sums(final(net)@),
            NetView::extends(old(net)@, final(net)@),
            final(self).wf(final(net)@),
            final(self).active_block == old(self).active_block,
            final(self).start_place == old(self).start_place,
            final(self).return_flow == old(self).return_flow,
            final(self).virt_memory == old(self).virt_memory,
            final(self).name == old(self).name,
            final(self).basic_blocks@.len() == old(self).basic_blocks@.len(),
            match r {
                Ok(_) => old(self).active_set() && target < old(self).basic_blocks@.len() && (
                unwind matches Some(u) ==> u < old(self).basic_blocks@.len()),
                Err(e) => (e == PetriError::ActiveBlockMissing && !old(self).active_set()) || (e
                    == PetriError::BlockNotFound && (target >= old(self).basic_blocks@.len() || (
                unwind matches Some(u) && u >= old(self).basic_blocks@.len()))),
            },
            r is Ok ==> ({
                // one transition from the active block's exit into the
                // target block; a second one into the unwind block where
                // one exists
                &&& final(net)@.n_transitions() == old(net)@.n_transitions() + (
                if unwind is Some {
                    2int
                } else {
                    1int
                })
                &&& final(net)@.trans_names[old(net)@.n_transitions() as int] == Some("drop"@)
                &&& final(net)@.has_pt(
                    old(self).active_end_index(),
                    old(net)@.n_transitions() as usize,
                )
                &&& (final(self).basic_blocks@[target as int] matches Some(bb)
                    && final(net)@.has_tp(
                    old(net)@.n_transitions() as usize,
                    bb.start_place.index,
                ))
                &&& (unwind matches Some(u) ==> (final(net)@.has_pt(
                    old(self).active_end_index(),
                    (old(net)@.n_transitions() + 1) as usize,
                ) && (final(self).basic_blocks@[u as int] matches Some(ub)
                    && final(net)@.has_tp(
                    (old(net)@.n_transitions() + 1) as usize,
                    ub.start_place.index,
                ))))
            }),
            r is Ok ==> (match *place {
                llir::PlaceBase::Local(lid) => lid < old(self).virt_memory.locals@.len() ==> (
                match old(self).virt_memory.locals@[lid as int] {
                    Data::Local(loc) => (match crate::petri_net::unique_functions::assoc(
                        mutexes.guards@,
                        loc.live_place.index,
                    ) {
                        Some(m) => final(net)@.has_pt(
                            mutexes.list@[m.index as int].locked.index,
                            old(net)@.n_transitions() as usize,
                        ) && final(net)@.has_tp(
                            old(net)@.n_transitions() as usize,
                            mutexes.list@[m.index as int].unlocked.index,
                        ),
                        None => true,
                    }),
                    _ => true,
                }),
                llir::PlaceBase::Promoted(_) => true,
            }),
    {
        let ghost o0 = net@;
        let transition_count = net.num_transitions();
        proof {
            assert(transition_count == o0.n_transitions());
        }
        let target_start = match self.get_basic_block_start(net, target) {
            Ok(p) => p,
            Err(e) => {
                return Err(e);
            },
        };
        let ghost o1 = net@;
        let source = match self.active_end() {
            Ok(p) => p,
            Err(e) => {
                return Err(e);
            },
        };
        proof {
            assert(self.basic_blocks@[self.active_block->0 as int] matches Some(bb) && bb.wf(o1));
            assert(source.index == old(self).active_end_index());
        }
        let t = net.add_transition(Some(String::from_str("drop")));
        let ghost ot = net@;
        let r1 = net.add_flow_pt(source, t);
        let ghost oa = net@;
        let r2 = net.add_flow_tp(t, target_start);
        let ghost ob = net@;
        proof {
            assert forall|q: usize| q < ob.n_places() implies (#[trigger] ob.has_pt(q, t.index)
                == (q == source.index)) by {
                assert(!ot.has_pt(q, t.index));
                assert(oa.has_pt(q, t.index) == (ot.has_pt(q, t.index) || (q == source.index
                    && t.index == t.index)));
                assert(ob.has_pt(q, t.index) == oa.has_pt(q, t.index));
            }
            assert forall|q: usize| q < ob.n_places() implies (#[trigger] ob.has_tp(t.index, q)
                == (q == target_start.index)) by {
                assert(!ot.has_tp(t.index, q));
                assert(oa.has_tp(t.index, q) == ot.has_tp(t.index, q));
                assert(ob.has_tp(t.index, q) == (oa.has_tp(t.index, q) || (q
                    == target_start.index && t.index == t.index)));
            }
            lemma_extends_trans(o0, o1, ob);
            laws::lemma_slot_sums_extends(o1, ob);
            lemma_function_wf_extends(*self, o1, ob);
            assert(t.index == o0.n_transitions());
            assert((o0.n_transitions() as usize) == t.index);
            assert(ob.trans_names[o0.n_transitions() as int] == Some("drop"@)) by {
                assert(ot.trans_names == o1.trans_names.push(Some("drop"@)));
            }
        }
        // a guard slot being dropped releases its mutex
        let guard_local: Option<Local> = match place {
            llir::PlaceBase::Local(lid) => {
                match self.virt_memory.get_local(*lid) {
                    Some(loc) => Some(*loc),
                    None => None,
                }
            },
            llir::PlaceBase::Promoted(_) => None,
        };
        let guard: Option<crate::petri_net::unique_functions::MutexRef> = match &guard_local {
            Some(l) => mutexes.get_guard(l),
            None => None,
        };
        match guard {
            Some(m) => {
                proof {
                    match guard_local {
                        Some(l) => {
                            crate::petri_net::unique_functions::lemma_assoc_found(
                                mutexes.guards@,
                                l.live_place.index,
                                m,
                            );
                        },
                        None => {},
                    }
                }
                let locked = match m.locked(mutexes) {
                    Ok(p) => p,
                    Err(e) => {
                        proof {
                            assert(false);
                        }
                        return Err(e);
                    },
                };
                let unlocked = match m.unlocked(mutexes) {
                    Ok(p) => p,
                    Err(e) => {
                        proof {
                            assert(false);
                        }
                        return Err(e);
                    },
                };
                proof {
                    let mx = mutexes.list@[m.index as int];
                    assert(mx.wf(o0));
                    let qs = mx.places();
                    let gi = choose|i: int| 0 <= i < o0.groups.len() && o0.groups[i] == qs;
                    assert(ob.groups[gi] == qs);
                    assert(ob.groups[gi].contains(locked.index)) by {
                        assert(ob.groups[gi][2] == locked.index);
                    }
                    assert(ob.groups[gi].contains(unlocked.index)) by {
                        assert(ob.groups[gi][1] == unlocked.index);
                    }
                    assert(ob.same_group(locked.index, unlocked.index));
                    assert(ob.groups[gi][1] != ob.groups[gi][2]);
                    assert(ob.grouped(locked.index));
                    assert(ob.grouped(unlocked.index));
                    assert(locked.index != source.index);
                    assert(unlocked.index != target_start.index);
                    assert(!ob.has_pt(locked.index, t.index));
                    assert(!ob.has_tp(t.index, unlocked.index));
                }
                let r3 = net.add_token_shift(locked, unlocked, t);
                proof {
                    assert(NetView::extends(ob, net@));
                    lemma_extends_trans(o0, ob, net@);
                    lemma_function_wf_extends(*self, ob, net@);
                    laws::lemma_slot_sums_extends(ob, net@);
                    assert(net@.has_pt(mutexes.list@[m.index as int].locked.index, t.index));
                    assert(net@.has_tp(t.index, mutexes.list@[m.index as int].unlocked.index));
                    assert(net@.trans_names[o0.n_transitions() as int] == Some("drop"@));
                    assert(net@.has_pt(source.index, t.index)) by {
                        assert(net@.has_pt(source.index, t.index) == (ob.has_pt(
                            source.index,
                            t.index,
                        ) || (source.index == locked.index && t.index == t.index)));
                    }
                    assert(net@.has_tp(t.index, target_start.index)) by {
                        assert(net@.has_tp(t.index, target_start.index) == (ob.has_tp(
                            t.index,
                            target_start.index,
                        ) || (target_start.index == unlocked.index && t.index == t.index)));
                    }
                }
            },
            None => {},
        }
        match unwind {
            Some(u) => {
                let ghost oc = net@;
                proof {
                    assert(NetView::extends(o1, oc));
                    crate::petri_net::petri_net::lemma_extends_free(o1, oc, source.index);
                }
                let unwind_start = match self.get_basic_block_start(net, u) {
                    Ok(p) => p,
                    Err(e) => {
                        proof {
                            lemma_extends_trans(o0, oc, net@);
                        }
                        return Err(e);
                    },
                };
                let ghost od = net@;
                let t_unwind = net.add_transition(Some(String::from_str("drop_unwind")));
                let ghost oe = net@;
                proof {
                    crate::petri_net::petri_net::lemma_extends_free(oc, od, source.index);
                }
                let r4 = net.add_flow_pt(source, t_unwind);
                let ghost og = net@;
                let r5 = net.add_flow_tp(t_unwind, unwind_start);
                proof {
                    lemma_extends_trans(oc, od, net@);
                    lemma_extends_trans(o0, oc, net@);
                    lemma_function_wf_extends(*self, od, net@);
                    laws::lemma_slot_sums_extends(od, net@);
                    // the drop transition's name and arcs are untouched by
                    // the unwind bridge
                    assert(t_unwind.index == od.n_transitions());
                    assert(t.index < od.n_transitions());
                    assert(net@.trans_names[o0.n_transitions() as int] == Some("drop"@)) by {
                        assert(od.trans_names == oc.trans_names);
                        assert(oe.trans_names == od.trans_names.push(Some("drop_unwind"@)));
                        assert(net@.trans_names == oe.trans_names);
                    }
                    match guard {
                        Some(m) => {
                            let lk = mutexes.list@[m.index as int].locked.index;
                            let ul = mutexes.list@[m.index as int].unlocked.index;
                            assert(lk < o0.n_places() && ul < o0.n_places());
                            assert(net@.has_pt(lk, t.index)) by {
                                assert(oc.has_pt(lk, t.index));
                                assert(od.pt[lk as int] == oc.pt[lk as int]);
                                assert(oe.pt == od.pt);
                                assert(og.has_pt(lk, t.index) == (oe.has_pt(lk, t.index) || (lk
                                    == source.index && t.index == t_unwind.index)));
                                assert(net@.pt == og.pt);
                            }
                            assert(net@.has_tp(t.index, ul)) by {
                                assert(oc.has_tp(t.index, ul));
                                assert(od.tp == oc.tp);
                                assert(oe.has_tp(t.index, ul) == od.has_tp(t.index, ul)) by {
                                    assert(oe.tp == od.tp.push(Seq::<usize>::empty()));
                                }
                                assert(og.tp == oe.tp);
                                assert(net@.has_tp(t.index, ul) == (og.has_tp(t.index, ul) || (ul
                                    == unwind_start.index && t.index == t_unwind.index)));
                            }
                        },
                        None => {},
                    }
                    // the drop transition's control arcs survive the
                    // unwind bridge too
                    let v = net@;
                    assert(v.has_pt(source.index, t.index)) by {
                        assert(oc.has_pt(source.index, t.index));
                        assert(od.pt[source.index as int] == oc.pt[source.index as int]);
                        assert(oe.pt == od.pt);
                        assert(og.has_pt(source.index, t.index) == (oe.has_pt(
                            source.index,
                            t.index,
                        ) || (source.index == source.index && t.index == t_unwind.index)));
                        assert(v.pt == og.pt);
                    }
                    assert(v.has_tp(t.index, target_start.index)) by {
                        assert(oc.has_tp(t.index, target_start.index));
                        assert(od.tp == oc.tp);
                        assert(oe.has_tp(t.index, target_start.index) == od.has_tp(
                            t.index,
                            target_start.index,
                        )) by {
                            assert(oe.tp == od.tp.push(Seq::<usize>::empty()));
                        }
                        assert(og.tp == oe.tp);
                        assert(v.has_tp(t.index, target_start.index) == (og.has_tp(
                            t.index,
                            target_start.index,
                        ) || (target_start.index == unwind_start.index && t.index
                            == t_unwind.index)));
                    }
                    assert(v.has_pt(source.index, t_unwind.index)) by {
                        assert(og.has_pt(source.index, t_unwind.index) == (oe.has_pt(
                            source.index,
                            t_unwind.index,
                        ) || (source.index == source.index && t_unwind.index
                            == t_unwind.index)));
                        assert(v.pt == og.pt);
                    }
                    assert(v.has_tp(t_unwind.index, unwind_start.index)) by {
                        assert(v.has_tp(t_unwind.index, unwind_start.index) == (og.has_tp(
                            t_unwind.index,
                            unwind_start.index,
                        ) || (unwind_start.index == unwind_start.index && t_unwind.index
                            == t_unwind.index)));
                    }
                    assert((o0.n_transitions() + 1) as usize == t_unwind.index);
                }
            },
            None => {},
        }
        Ok(())
    }

    /// An assert terminator: control moves to the target block (or, where a
    /// cleanup block exists, to it), reading the condition's data place and
    /// the constants place.
    #[verifier::rlimit(100)]
    pub fn assert_term(
        &mut self,
        net: &mut PetriNet,
        condition: &llir::Operand,
        expected: bool,
        target: usize,
        cleanup: Option<usize>,
    ) -> (r: Result<(), PetriError>)
        requires
            old(net)@.wf(),
            old(net)@.balanced(),
            laws::slot_sums(old(net)@),
            old(self).wf(old(net)@),
        ensures
            final(net)@.wf(),
            final(net)@.balanced(),
            laws::slot_sums(final(net)@),
            NetView::extends(old(net)@, final(net)@),
            final(self).wf(final(net)@),
            final(self).active_block == old(self).active_block,
            final(self).start_place == old(self).start_place,
            final(self).return_flow == old(self).return_flow,
            final(self).virt_memory == old(self).virt_memory,
            final(self).name == old(self).name,
            final(self).basic_blocks@.len() == old(self).basic_blocks@.len(),
            match r {
                Ok(_) => old(self).active_set() && target < old(self).basic_blocks@.len()
                    && spec_op_ok(*condition, old(self).virt_memory) && (cleanup matches Some(u)
                    ==> u < old(self).basic_blocks@.len()),
                Err(e) => (e == PetriError::ActiveBlockMissing && !old(self).active_set()) || (e
                    == PetriError::BlockNotFound && (target >= old(self).basic_blocks@.len() || (
                cleanup matches Some(u) && u >= old(self).basic_blocks@.len()))) || ((e
                    == PetriError::LocalNotFound || e == PetriError::StaticNotFound)
                    && !spec_op_ok(*condition, old(self).virt_memory)),
            },
            r is Ok ==> ({
                // the assert transition from the active block's exit into
                // the target block, reading the condition's data place and
                // the constants place; where a cleanup block exists, a
                // second transition into it
                &&& final(net)@.n_transitions() == old(net)@.n_transitions() + (
                if cleanup is Some {
                    2int
                } else {
                    1int
                })
                &&& final(net)@.trans_names[old(net)@.n_transitions() as int] == Some("assert"@)
                &&& final(net)@.has_pt(
                    old(self).active_end_index(),
                    old(net)@.n_transitions() as usize,
                )
                &&& (final(self).basic_blocks@[target as int] matches Some(bb) && final(net)@.has_tp(old(net)@.n_transitions() as usize, bb.start_place.index))
                &&& final(net)@.has_pt(
                    spec_op_node(*condition, old(self).virt_memory).index,
                    old(net)@.n_transitions() as usize,
                )
                &&& final(net)@.has_tp(
                    old(net)@.n_transitions() as usize,
                    spec_op_node(*condition, old(self).virt_memory).index,
                )
                &&& (old(self).virt_memory.constants matches Data::Constant(cp) ==> (final(net)@.has_pt(cp.index, old(net)@.n_transitions() as usize) && final(net)@.has_tp(
                    old(net)@.n_transitions() as usize,
                    cp.index,
                )))
                &&& (cleanup matches Some(u) ==> (final(net)@.has_pt(
                    old(self).active_end_index(),
                    (old(net)@.n_transitions() + 1) as usize,
                ) && (final(self).basic_blocks@[u as int] matches Some(cb)
                    && final(net)@.has_tp(
                    (old(net)@.n_transitions() + 1) as usize,
                    cb.start_place.index,
                ))))
            }),
    {
        let ghost o0 = net@;
        let transition_count = net.num_transitions();
        proof {
            assert(transition_count == o0.n_transitions());
        }
        let target_start = match self.get_basic_block_start(net, target) {
            Ok(p) => p,
            Err(e) => {
                return Err(e);
            },
        };
        let ghost o1 = net@;
        let source = match self.active_end() {
            Ok(p) => p,
            Err(e) => {
                return Err(e);
            },
        };
        proof {
            assert(self.basic_blocks@[self.active_block->0 as int] matches Some(bb) && bb.wf(o1));
        }
        let op_place = match op_to_data_node(condition, &self.virt_memory) {
            Ok(p) => p,
            Err(e) => {
                proof {
                    assert(e == PetriError::LocalNotFound || e == PetriError::StaticNotFound);
                }
                return Err(e);
            },
        };
        let t = net.add_transition(Some(String::from_str("assert")));
        let ghost ot = net@;
        let r1 = net.add_flow_pt(source, t);
        let ghost oa = net@;
        let r2 = net.add_flow_tp(t, target_start);
        let ghost ob = net@;
        proof {
            assert forall|q: usize| q < ob.n_places() implies (#[trigger] ob.has_pt(q, t.index)
                == (q == source.index)) by {
                assert(!ot.has_pt(q, t.index));
                assert(oa.has_pt(q, t.index) == (ot.has_pt(q, t.index) || (q == source.index
                    && t.index == t.index)));
                assert(ob.has_pt(q, t.index) == oa.has_pt(q, t.index));
            }
            assert forall|q: usize| q < ob.n_places() implies (#[trigger] ob.has_tp(t.index, q)
                == (q == target_start.index)) by {
                assert(!ot.has_tp(t.index, q));
                assert(oa.has_tp(t.index, q) == ot.has_tp(t.index, q));
                assert(ob.has_tp(t.index, q) == (oa.has_tp(t.index, q) || (q
                    == target_start.index && t.index == t.index)));
            }
            assert forall|q: usize|
                q < ob.n_places() && ob.grouped(q) implies (#[trigger] ob.has_pt(q, t.index)
                == ob.has_tp(t.index, q)) by {
                assert(q != source.index);
                assert(q != target_start.index);
            }
            assert(crate::petri_net::petri_net::sym_on(ob, t));
            lemma_extends_trans(o0, o1, ob);
            laws::lemma_slot_sums_extends(o1, ob);
            lemma_function_wf_extends(*self, o1, ob);
            lemma_vm_wf_extends(self.virt_memory, o1, ob);
            lemma_data_place_grouped(self.virt_memory, ob, op_place);
        }
        let r3 = crate::petri_net::petri_net::add_data_pair(net, op_place, t);
        let constants_place = match self.virt_memory.get_constant() {
            Ok(p) => p,
            Err(e) => {
                proof {
                    assert(false);
                }
                return Err(e);
            },
        };
        let ghost oc = net@;
        proof {
            assert(oc.grouped(constants_place.index));
        }
        let r4 = crate::petri_net::petri_net::add_data_pair(net, constants_place, t);
        let ghost od = net@;
        proof {
            lemma_extends_trans(ob, oc, od);
            lemma_extends_trans(o0, ob, od);
            lemma_function_wf_extends(*self, ob, od);
            crate::petri_net::petri_net::lemma_extends_free(ob, od, source.index);
            assert(t.index == o0.n_transitions());
            assert((o0.n_transitions() as usize) == t.index);
            assert(od.trans_names[o0.n_transitions() as int] == Some("assert"@)) by {
                assert(ot.trans_names == o1.trans_names.push(Some("assert"@)));
            }
            assert(od.has_pt(source.index, t.index)) by {
                assert(oc.has_pt(source.index, t.index) == (ob.has_pt(source.index, t.index) || (
                source.index == op_place.index && t.index == t.index)));
            }
            assert(od.has_tp(t.index, target_start.index)) by {
                assert(oc.has_tp(t.index, target_start.index) == (ob.has_tp(
                    t.index,
                    target_start.index,
                ) || (target_start.index == op_place.index && t.index == t.index)));
            }
            assert(od.has_pt(op_place.index, t.index) && od.has_tp(t.index, op_place.index)) by {
                assert(oc.has_pt(op_place.index, t.index) && oc.has_tp(t.index, op_place.index));
            }
            assert(od.has_pt(constants_place.index, t.index) && od.has_tp(
                t.index,
                constants_place.index,
            ));
        }
        match cleanup {
            Some(u) => {
                let unwind_start = match self.get_basic_block_start(net, u) {
                    Ok(p) => p,
                    Err(e) => {
                        proof {
                            lemma_extends_trans(o0, od, net@);
                        }
                        return Err(e);
                    },
                };
                let ghost oe = net@;
                let t_unwind = net.add_transition(Some(String::from_str("assert_unwind")));
                let ghost og = net@;
                proof {
                    crate::petri_net::petri_net::lemma_extends_free(od, oe, source.index);
                }
                let r5 = net.add_flow_pt(source, t_unwind);
                let ghost oh = net@;
                let r6 = net.add_flow_tp(t_unwind, unwind_start);
                proof {
                    lemma_extends_trans(od, oe, net@);
                    lemma_extends_trans(o0, od, net@);
                    lemma_function_wf_extends(*self, oe, net@);
                    laws::lemma_slot_sums_extends(oe, net@);
                    // the assert transition's name and arcs are untouched
                    // by the unwind bridge
                    let v = net@;
                    assert(t_unwind.index == oe.n_transitions());
                    assert(t.index < oe.n_transitions());
                    assert(v.trans_names[o0.n_transitions() as int] == Some("assert"@)) by {
                        assert(oe.trans_names == od.trans_names);
                        assert(og.trans_names == oe.trans_names.push(Some("assert_unwind"@)));
                        assert(v.trans_names == og.trans_names);
                    }
                    assert forall|q: usize|
                        q < od.n_places() && od.has_pt(q, t.index) implies v.has_pt(
                        q,
                        t.index,
                    ) by {
                        assert(oe.pt[q as int] == od.pt[q as int]);
                        assert(og.pt == oe.pt);
                        assert(oh.has_pt(q, t.index) == (og.has_pt(q, t.index) || (q
                            == source.index && t.index == t_unwind.index)));
                        assert(v.pt == oh.pt);
                    }
                    assert forall|q: usize|
                        q < od.n_places() && od.has_tp(t.index, q) implies v.has_tp(
                        t.index,
                        q,
                    ) by {
                        assert(oe.tp == od.tp);
                        assert(og.has_tp(t.index, q) == oe.has_tp(t.index, q)) by {
                            assert(og.tp == oe.tp.push(Seq::<usize>::empty()));
                        }
                        assert(oh.tp == og.tp);
                        assert(v.has_tp(t.index, q) == (oh.has_tp(t.index, q) || (q
                            == unwind_start.index && t.index == t_unwind.index)));
                    }
                    assert(v.has_pt(source.index, t_unwind.index)) by {
                        assert(oh.has_pt(source.index, t_unwind.index) == (og.has_pt(
                            source.index,
                            t_unwind.index,
                        ) || (source.index == source.index && t_unwind.index
                            == t_unwind.index)));
                        assert(v.pt == oh.pt);
                    }
                    assert(v.has_tp(t_unwind.index, unwind_start.index)) by {
                        assert(v.has_tp(t_unwind.index, unwind_start.index) == (oh.has_tp(
                            t_unwind.index,
                            unwind_start.index,
                        ) || (unwind_start.index == unwind_start.index && t_unwind.index
                            == t_unwind.index)));
                    }
                    assert((o0.n_transitions() + 1) as usize == t_unwind.index);
                }
            },
            None => {},
        }
        Ok(())
    }

    /// Lower a call to a foreign or source-unavailable callee.  With a
    /// destination the generic over-approximation is emitted; without one
    /// the callee must be one of the recognised diverging entry points,
    /// which are lowered as a fall into the unwind-abort place.
    pub fn emulate_foreign(
        &mut self,
        net: &mut PetriNet,
        intrinsic_name: &str,
        args: &Vec<llir::Operand>,
        destination: &Option<(llir::PlaceBase, usize)>,
        cleanup: Option<usize>,
        panic_place: Place,
    ) -> (r: Result<(), PetriError>)
        requires
            old(net)@.wf(),
            old(net)@.balanced(),
            laws::slot_sums(old(net)@),
            old(self).wf(old(net)@),
            panic_place.ok(old(net)@),
            old(net)@.is_free(panic_place.index),
        ensures
            final(net)@.wf(),
            final(net)@.balanced(),
            laws::slot_sums(final(net)@),
            NetView::extends(old(net)@, final(net)@),
            final(self).wf(final(net)@),
            final(self).active_block == old(self).active_block,
            final(self).start_place == old(self).start_place,
            final(self).return_flow == old(self).return_flow,
            final(self).virt_memory == old(self).virt_memory,
            final(self).name == old(self).name,
            final(self).basic_blocks@.len() == old(self).basic_blocks@.len(),
            *destination is None ==> (r is Ok <==> (old(self).active_set()
                && spec_recognized_diverging(intrinsic_name@))),
            (*destination is None && r is Ok) ==> NetView::adds_transition(
                old(net)@,
                final(net)@,
                Some("panic"@),
                set![old(self).active_end_index()],
                set![panic_place.index],
            ),
            *destination matches Some((dp, db)) ==> (r is Ok <==> (old(self).active_set()
                && spec_place_ok(dp, old(self).virt_memory) && db < old(self).basic_blocks@.len() && (cleanup matches Some(c) ==> c < old(self).basic_blocks@.len()) && (forall|k: int|
                0 <= k < args@.len() ==> spec_op_ok(#[trigger] args@[k], old(self).virt_memory)))),
            *destination matches Some((dp, db)) ==> (r is Ok ==> ({
                // the generic-foreign subnet of the callee: a transition
                // named after it from the call site into the destination
                // block, read pairs on the destination slot and every
                // argument place, and an unwind transition to the cleanup
                // block where one exists
                &&& final(net)@.n_transitions() == old(net)@.n_transitions() + (
                if cleanup is Some {
                    2int
                } else {
                    1int
                })
                &&& final(net)@.trans_names[old(net)@.n_transitions() as int] == Some(
                    intrinsic_name@,
                )
                &&& final(net)@.has_pt(
                    old(self).active_end_index(),
                    old(net)@.n_transitions() as usize,
                )
                &&& (final(self).basic_blocks@[db as int] matches Some(bb) && final(net)@.has_tp(
                    old(net)@.n_transitions() as usize,
                    bb.start_place.index,
                ))
                &&& final(net)@.has_pt(
                    spec_place_node(dp, old(self).virt_memory).index,
                    old(net)@.n_transitions() as usize,
                )
                &&& final(net)@.has_tp(
                    old(net)@.n_transitions() as usize,
                    spec_place_node(dp, old(self).virt_memory).index,
                )
                &&& forall|k: int|
                    0 <= k < args@.len() ==> (final(net)@.has_pt(
                        spec_op_node(#[trigger] args@[k], old(self).virt_memory).index,
                        old(net)@.n_transitions() as usize,
                    ) && final(net)@.has_tp(
                        old(net)@.n_transitions() as usize,
                        spec_op_node(args@[k], old(self).virt_memory).index,
                    ))
                &&& (cleanup matches Some(c) ==> (final(net)@.has_pt(
                    old(self).active_end_index(),
                    (old(net)@.n_transitions() + 1) as usize,
                ) && (final(self).basic_blocks@[c as int] matches Some(cb)
                    && final(net)@.has_tp(
                    (old(net)@.n_transitions() + 1) as usize,
                    cb.start_place.index,
                ))))
            })),
    {
        let ghost o0 = net@;
        let transition_count = net.num_transitions();
        proof {
            assert(transition_count == o0.n_transitions());
        }
        match destination {
            Some((destination_place, destination_block)) => {
                let node = match place_to_data_node(destination_place, &self.virt_memory) {
                    Ok(p) => p,
                    Err(e) => {
                        return Err(e);
                    },
                };
                let block = match self.get_basic_block_start(net, *destination_block) {
                    Ok(p) => p,
                    Err(e) => {
                        return Err(e);
                    },
                };
                let ghost o1 = net@;
                let cleanup_place: Option<Place> = match cleanup {
                    Some(c) => {
                        match self.get_basic_block_start(net, c) {
                            Ok(p) => Some(p),
                            Err(e) => {
                                proof {
                                    lemma_extends_trans(o0, o1, net@);
                                }
                                return Err(e);
                            },
                        }
                    },
                    None => None,
                };
                let ghost o2 = net@;
                let source = match self.active_end() {
                    Ok(p) => p,
                    Err(e) => {
                        proof {
                            lemma_extends_trans(o0, o1, o2);
                        }
                        return Err(e);
                    },
                };
                let mut arg_nodes: Vec<Place> = Vec::new();
                let mut i: usize = 0;
                let mut arg_failure: Option<PetriError> = None;
                while i < args.len()
                    invariant
                        arg_failure is None ==> arg_nodes@.len() == i,
                        i <= args@.len(),
                        arg_failure is None ==> forall|k: int|
                            0 <= k < i ==> spec_op_ok(#[trigger] args@[k], self.virt_memory),
                        arg_failure is None ==> forall|k: int|
                            0 <= k < i ==> self.virt_memory.has_data_place(
                                #[trigger] arg_nodes@[k],
                            ),
                        arg_failure is None ==> forall|k: int|
                            0 <= k < i ==> #[trigger] arg_nodes@[k] == spec_op_node(
                                args@[k],
                                self.virt_memory,
                            ),
                        arg_failure matches Some(e) ==> ((e == PetriError::LocalNotFound || e
                            == PetriError::StaticNotFound) && exists|k: int|
                            0 <= k < args@.len() && !spec_op_ok(
                                #[trigger] args@[k],
                                self.virt_memory,
                            )),
                    decreases args@.len() - i,
                {
                    match op_to_data_node(&args[i], &self.virt_memory) {
                        Ok(p) => {
                            arg_nodes.push(p);
                        },
                        Err(e) => {
                            arg_failure = Some(e);
                        },
                    }
                    i = i + 1;
                }
                match arg_failure {
                    Some(e) => {
                        proof {
                            lemma_extends_trans(o0, o1, o2);
                        }
                        return Err(e);
                    },
                    None => {},
                }
                proof {
                    lemma_extends_trans(o0, o1, o2);
                    lemma_function_wf_extends(*self, o2, o2);
                    assert(self.basic_blocks@[self.active_block->0 as int] matches Some(bb)
                        && bb.wf(o2));
                    lemma_vm_wf_extends(self.virt_memory, o0, o2);
                    lemma_data_place_grouped(self.virt_memory, o2, node);
                    match cleanup_place {
                        Some(c) => {
                            crate::petri_net::petri_net::lemma_extends_free(o1, o2, block.index);
                        },
                        None => {},
                    }
                    assert forall|k: int|
                        0 <= k < arg_nodes@.len() implies (#[trigger] arg_nodes@[k]).index
                        < o2.n_places() && o2.grouped(arg_nodes@[k].index) by {
                        lemma_data_place_grouped(self.virt_memory, o2, arg_nodes@[k]);
                    }
                }
                let r = crate::petri_net::intrinsics::generic_foreign(
                    net,
                    &arg_nodes,
                    source,
                    node,
                    block,
                    cleanup_place,
                    String::from_str(intrinsic_name),
                );
                let final_count = net.num_transitions();
                proof {
                    lemma_extends_trans(o0, o2, net@);
                    lemma_function_wf_extends(*self, o2, net@);
                    // forward the subnet shape in terms of the resolved
                    // operands
                    let v = net@;
                    assert(final_count == v.n_transitions());
                    assert(o2.n_transitions() == o0.n_transitions());
                    assert(v.trans_names[o0.n_transitions() as int] == Some(intrinsic_name@));
                    let tn = o0.n_transitions() as usize;
                    assert(tn == transition_count);
                    assert(tn == o2.n_transitions());
                    assert(v.has_pt(source.index, tn));
                    assert(v.has_tp(tn, block.index));
                    assert(v.has_pt(node.index, tn));
                    assert(v.has_tp(tn, node.index));
                    assert forall|k: int| 0 <= k < args@.len() implies (v.has_pt(
                        spec_op_node(#[trigger] args@[k], old(self).virt_memory).index,
                        tn,
                    ) && v.has_tp(tn, spec_op_node(args@[k], old(self).virt_memory).index)) by {
                        assert(arg_nodes@[k] == spec_op_node(args@[k], self.virt_memory));
                        assert(crate::petri_net::intrinsics::spec_node_set(
                            arg_nodes@,
                        ).contains(arg_nodes@[k].index)) by {
                            assert(arg_nodes@[k].index == arg_nodes@[k].index);
                        }
                        assert(arg_nodes@[k].index < o2.n_places());
                    }
                    match cleanup_place {
                        Some(cp) => {
                            let tu = (o0.n_transitions() + 1) as usize;
                            assert(o0.n_transitions() + 1 <= v.n_transitions());
                            assert(tu == o2.n_transitions() + 1);
                            assert(v.has_pt(source.index, tu));
                            assert(v.has_tp(tu, cp.index));
                        },
                        None => {},
                    }
                }
                Ok(())
            },
            None => {
                // a diverging foreign callee: only the recognised catalogue
                // is accepted
                if contains_substr(intrinsic_name, "std::alloc::handle_alloc_error")
                    || contains_substr(intrinsic_name, "alloc::raw_vec::capacity_overflow")
                    || contains_substr(intrinsic_name, "std::result::unwrap_failed") {
                    let r = self.handle_panic(net, panic_place);
                    r
                } else {
                    Err(PetriError::UnrecognisedDiverging)
                }
            },
        }
    }

    /// The slot an operand reads, where it reads one.
    pub fn op_to_local(&self, operand: &llir::Operand) -> (r: Option<Local>)
        ensures
            match *operand {
                llir::Operand::Copy(place) | llir::Operand::Move(place) => r is Some
                    <==> spec_place_ok(place, self.virt_memory),
                llir::Operand::Constant => r is None,
            },
            r == spec_op_local(*operand, self.virt_memory),
    {
        match operand {
            llir::Operand::Copy(place) | llir::Operand::Move(place) => {
                match self.place_to_local(place) {
                    Ok(l) => Some(l),
                    Err(_) => None,
                }
            },
            llir::Operand::Constant => None,
        }
    }
}

} // verus!
