//! Lowering of basic blocks and their statements.  Every statement becomes
//! one transition; control enters it from the preceding statement's place
//! and leaves into the next one's.  Data places are touched only by read
//! pairs (which preserve their tokens) or by the lifecycle shifts of
//! storage and mutex-guard statements (which move a token inside one
//! conserved group), so every statement transition is balanced.

use vstd::prelude::*;
use vstd::string::*;

use crate::llir;
use crate::petri_net::function::{
    lemma_data_place_grouped, op_to_data_node, place_to_data_node, spec_place_node, Data, Local,
    VirtualMemory,
};
use crate::petri_net::laws;
use crate::petri_net::petri_net::{
    add_data_pair, lemma_adds_transition, lemma_extends_trans, lemma_groups_disjoint_members,
    sym_on, NetView, PetriError, PetriNet, Place, Transition,
};
use crate::petri_net::unique_functions::{assoc, lemma_assoc_found, MutexList};

verus! {

/// One basic block under construction: its entry and exit places and the
/// chain of statements lowered so far.
#[derive(Debug)]
pub struct BasicBlock {
    pub start_place: Place,
    pub end_place: Place,
    pub statements: Vec<Statement>,
}

/// One lowered statement: the place control waits on and the transition
/// that executes the statement's effect.
#[derive(Clone, Copy, Debug)]
pub struct Statement {
    pub start_place: Place,
    pub stmt_transition: Transition,
}

impl Statement {
    pub open spec fn wf(self, v: NetView) -> bool {
        &&& self.start_place.index < v.n_places()
        &&& v.is_free(self.start_place.index)
        &&& self.stmt_transition.index < v.n_transitions()
    }
}

impl BasicBlock {
    pub open spec fn wf(self, v: NetView) -> bool {
        &&& self.start_place.index < v.n_places()
        &&& v.is_free(self.start_place.index)
        &&& self.end_place.index < v.n_places()
        &&& v.is_free(self.end_place.index)
        &&& forall|i: int| 0 <= i < self.statements@.len() ==> (#[trigger] self.statements@[i]).wf(v)
    }

    /// Open a block: its entry place is handed in, its exit place is fresh.
    pub fn new(net: &mut PetriNet, start_place: Place) -> (bb: BasicBlock)
        requires
            old(net)@.wf(),
            old(net)@.balanced(),
            laws::slot_sums(old(net)@),
            start_place.ok(old(net)@),
            old(net)@.is_free(start_place.index),
        ensures
            final(net)@.wf(),
            final(net)@.balanced(),
            laws::slot_sums(final(net)@),
            NetView::extends(old(net)@, final(net)@),
            NetView::grows_quiet_places(old(net)@, final(net)@),
            final(net)@.groups == old(net)@.groups,
            final(net)@.trans_names == old(net)@.trans_names,
            final(net)@.n_places() == old(net)@.n_places() + 1,
            bb.wf(final(net)@),
            bb.start_place == start_place,
            bb.end_place.index == old(net)@.n_places(),
            bb.statements@.len() == 0,
    {
        let ghost o = net@;
        let end_place = net.add_place(None, 0);
        proof {
            assert(NetView::extends(o, net@));
            laws::lemma_slot_sums_extends(o, net@);
            assert(NetView::grows_quiet_places(o, net@));
        }
        BasicBlock { start_place, end_place, statements: Vec::new() }
    }

    /// Append one statement: chain a fresh waiting place after the previous
    /// statement (or reuse the block entry), then lower the statement.
    pub fn add_statement(
        &mut self,
        net: &mut PetriNet,
        statement: &llir::Stmt,
        virt_memory: &VirtualMemory,
        mutexes: &MutexList,
    ) -> (r: Result<(), PetriError>)
        requires
            old(net)@.wf(),
            old(net)@.balanced(),
            laws::slot_sums(old(net)@),
            old(self).wf(old(net)@),
            virt_memory.wf(old(net)@),
            mutexes.wf(old(net)@),
        ensures
            final(net)@.wf(),
            final(net)@.balanced(),
            laws::slot_sums(final(net)@),
            NetView::extends(old(net)@, final(net)@),
            final(net)@.groups == old(net)@.groups,
            final(self).wf(final(net)@),
            final(self).start_place == old(self).start_place,
            final(self).end_place == old(self).end_place,
            r is Ok <==> spec_stmt_ok(*statement, *virt_memory),
            r is Err ==> final(self).statements@ == old(self).statements@,
            r is Ok ==> ({
                // the statement chain grows by one: the new statement's
                // transition is fresh, and it waits on the block entry or
                // on a fresh place chained after its predecessor
                &&& final(self).statements@.len() == old(self).statements@.len() + 1
                &&& (forall|i: int|
                    0 <= i < old(self).statements@.len()
                        ==> final(self).statements@[i] == #[trigger] old(self).statements@[i])
                &&& final(self).statements@.last().stmt_transition.index == old(
                    net,
                )@.n_transitions()
                &&& (old(self).statements@.len() == 0
                    ==> final(self).statements@.last().start_place == old(self).start_place)
                &&& (old(self).statements@.len() > 0
                    ==> final(self).statements@.last().start_place.index == old(
                    net,
                )@.n_places())
            }),
    {
        let ghost o0 = net@;
        let start_place = if self.statements.len() > 0 {
            let last = self.statements[self.statements.len() - 1];
            let place = net.add_place(None, 0);
            proof {
                assert(NetView::extends(o0, net@));
            }
            let r = net.add_flow_tp(last.stmt_transition, place);
            proof {
                assert(net@.place_names == o0.place_names.push(crate::petri_net::petri_net::name_view(None)));
            }
            place
        } else {
            self.start_place
        };
        let ghost o1 = net@;
        proof {
            assert(NetView::extends(o0, o1));
            laws::lemma_slot_sums_extends(o0, o1);
            assert(start_place.ok(o1) && o1.is_free(start_place.index));
            crate::petri_net::function::lemma_vm_wf_extends(*virt_memory, o0, o1);
            crate::petri_net::unique_functions::lemma_mutex_list_wf_extends(*mutexes, o0, o1);
        }
        let stmt = match Statement::new(net, start_place, statement, virt_memory, mutexes) {
            Ok(stmt) => stmt,
            Err(e) => {
                proof {
                    lemma_extends_trans(o0, o1, net@);
                    wf_preserved_for_block(*self, o0, net@);
                }
                return Err(e);
            },
        };
        self.statements.push(stmt);
        proof {
            lemma_extends_trans(o0, o1, net@);
            wf_preserved_for_block(*old(self), o0, net@);
            assert(self.statements@ == old(self).statements@.push(stmt));
            assert forall|i: int| 0 <= i < self.statements@.len() implies (
            #[trigger] self.statements@[i]).wf(net@) by {
                if i < old(self).statements@.len() {
                    assert(self.statements@[i] == old(self).statements@[i]);
                } else {
                    assert(self.statements@[i] == stmt);
                }
            }
        }
        Ok(())
    }

    /// Close the statement chain: connect the last statement to the exit
    /// place, or bridge entry to exit with a no-op transition for a block
    /// without statements.
    pub fn finish_statement_block(&self, net: &mut PetriNet) -> (r: Result<(), PetriError>)
        requires
            old(net)@.wf(),
            old(net)@.balanced(),
            laws::slot_sums(old(net)@),
            self.wf(old(net)@),
        ensures
            r is Ok,
            final(net)@.wf(),
            final(net)@.balanced(),
            laws::slot_sums(final(net)@),
            NetView::extends(old(net)@, final(net)@),
            final(net)@.groups == old(net)@.groups,
            final(net)@.place_names == old(net)@.place_names,
            final(net)@.marking == old(net)@.marking,
            self.statements@.len() > 0 ==> ({
                &&& final(net)@.pt == old(net)@.pt
                &&& final(net)@.trans_names == old(net)@.trans_names
                &&& forall|q: usize, t2: usize|
                    q < old(net)@.n_places() && t2 < old(net)@.n_transitions()
                        ==> #[trigger] final(net)@.has_tp(t2, q) == (old(net)@.has_tp(t2, q) || (q
                        == self.end_place.index && t2
                        == self.statements@.last().stmt_transition.index))
            }),
            self.statements@.len() == 0 ==> NetView::adds_transition(
                old(net)@,
                final(net)@,
                Some("NOP"@),
                set![self.start_place.index],
                set![self.end_place.index],
            ),
    {
        let ghost o0 = net@;
        if self.statements.len() > 0 {
            let last = self.statements[self.statements.len() - 1];
            let r = net.add_flow_tp(last.stmt_transition, self.end_place);
            proof {
                assert(NetView::extends(o0, net@));
                assert(last == self.statements@.last());
            }
            Ok(())
        } else {
            let t = net.add_bridge(
                Some(String::from_str("NOP")),
                self.start_place,
                self.end_place,
            );
            proof {
                laws::lemma_slot_sums_extends(o0, net@);
            }
            Ok(())
        }
    }

    /// The place control enters the block through.
    pub fn start_place(&self) -> (p: Place)
        ensures
            p == self.start_place,
    {
        self.start_place
    }

    /// The place control leaves the block through.
    pub fn end_place(&self) -> (p: Place)
        ensures
            p == self.end_place,
    {
        self.end_place
    }
}

/// A block's places and statements stay valid when the net grows.
pub proof fn wf_preserved_for_block(bb: BasicBlock, o: NetView, v: NetView)
    requires
        bb.wf(o),
        NetView::extends(o, v),
    ensures
        bb.wf(v),
{
    crate::petri_net::petri_net::lemma_extends_free(o, v, bb.start_place.index);
    crate::petri_net::petri_net::lemma_extends_free(o, v, bb.end_place.index);
    assert forall|i: int| 0 <= i < bb.statements@.len() implies (#[trigger] bb.statements@[i]).wf(
        v,
    ) by {
        crate::petri_net::petri_net::lemma_extends_free(o, v, bb.statements@[i].start_place.index);
    }
}

/// The right-hand side's operands can all be resolved in this memory.
pub open spec fn spec_rvalue_ok(rv: llir::Rvalue, memory: VirtualMemory) -> bool {
    match rv {
        llir::Rvalue::Use(op) | llir::Rvalue::Repeat(op) | llir::Rvalue::UnaryOp(op)
            | llir::Rvalue::Cast(op) => crate::petri_net::function::spec_op_ok(op, memory),
        llir::Rvalue::Ref(p) | llir::Rvalue::Len(p) | llir::Rvalue::AddressOf(p)
            | llir::Rvalue::Discriminant(p) => crate::petri_net::function::spec_place_ok(
            p,
            memory,
        ),
        llir::Rvalue::BinaryOp(l, r2) | llir::Rvalue::CheckedBinaryOp(l, r2) => crate::petri_net::function::spec_op_ok(
            l,
            memory,
        ) && crate::petri_net::function::spec_op_ok(r2, memory),
        llir::Rvalue::NullaryOp => memory.constants is Constant,
        llir::Rvalue::Aggregate(ops) => forall|k: int|
            0 <= k < ops@.len() ==> crate::petri_net::function::spec_op_ok(
                #[trigger] ops@[k],
                memory,
            ),
    }
}

/// The statement can be lowered in this memory: its slots exist and carry
/// the lifecycle places it touches.
pub open spec fn spec_stmt_ok(s: llir::Stmt, memory: VirtualMemory) -> bool {
    match s {
        llir::Stmt::Assign(lhs, rv) => crate::petri_net::function::spec_place_ok(lhs, memory)
            && spec_rvalue_ok(rv, memory),
        llir::Stmt::StorageLive(l) => l < memory.locals@.len() && (memory.locals@[l as int]
            matches Data::Local(loc) && loc.prenatal_place is Some),
        llir::Stmt::StorageDead(l) => l < memory.locals@.len() && (memory.locals@[l as int]
            matches Data::Local(loc) && loc.dead_place is Some),
        llir::Stmt::SetDiscriminant(p) => crate::petri_net::function::spec_place_ok(p, memory),
        llir::Stmt::Nop => true,
    }
}

/// The advisory name a statement kind's transition carries.
pub open spec fn spec_stmt_kind_name(s: llir::Stmt) -> Seq<char> {
    match s {
        llir::Stmt::Assign(_, _) => "Assign"@,
        llir::Stmt::StorageLive(_) => "StorageLive"@,
        llir::Stmt::StorageDead(_) => "StorageDead"@,
        llir::Stmt::SetDiscriminant(_) => "SetDiscriminant"@,
        llir::Stmt::Nop => "Nop"@,
    }
}

impl Statement {
    /// Lower one statement into a transition with its control and data
    /// arcs.  The statement's outgoing control arc is added later, by the
    /// next statement of the chain or by `finish_statement_block`.
    #[verifier::rlimit(100)]
    pub fn new(
        net: &mut PetriNet,
        start_place: Place,
        statement: &llir::Stmt,
        virt_memory: &VirtualMemory,
        mutexes: &MutexList,
    ) -> (r: Result<Statement, PetriError>)
        requires
            old(net)@.wf(),
            old(net)@.balanced(),
            laws::slot_sums(old(net)@),
            start_place.ok(old(net)@),
            old(net)@.is_free(start_place.index),
            virt_memory.wf(old(net)@),
            mutexes.wf(old(net)@),
        ensures
            final(net)@.wf(),
            final(net)@.balanced(),
            laws::slot_sums(final(net)@),
            NetView::extends(old(net)@, final(net)@),
            final(net)@.place_names == old(net)@.place_names,
            final(net)@.marking == old(net)@.marking,
            final(net)@.groups == old(net)@.groups,
            final(net)@.trans_names == old(net)@.trans_names.push(
                Some(spec_stmt_kind_name(*statement)),
            ),
            r matches Ok(s) ==> s.start_place == start_place && s.stmt_transition.index == old(
                net,
            )@.n_transitions(),
            r is Ok <==> spec_stmt_ok(*statement, *virt_memory),
            *statement is Nop ==> (r is Ok && NetView::adds_transition(
                old(net)@,
                final(net)@,
                Some("Nop"@),
                set![start_place.index],
                Set::<usize>::empty(),
            )),
            *statement matches llir::Stmt::SetDiscriminant(place) ==> (r is Ok
                ==> NetView::adds_transition(
                old(net)@,
                final(net)@,
                Some("SetDiscriminant"@),
                set![start_place.index, spec_place_node(place, *virt_memory).index],
                set![spec_place_node(place, *virt_memory).index],
            )),
            *statement matches llir::Stmt::StorageLive(l) ==> (r is Ok ==> (
            virt_memory.locals@[l as int] matches Data::Local(loc) && loc.prenatal_place
                matches Some(u) && NetView::adds_transition(
                old(net)@,
                final(net)@,
                Some("StorageLive"@),
                set![start_place.index, u.index],
                set![loc.live_place.index],
            ))),
            *statement matches llir::Stmt::StorageDead(l) ==> (r is Ok ==> (
            virt_memory.locals@[l as int] matches Data::Local(loc) && loc.dead_place
                matches Some(d) && (match assoc(mutexes.guards@, loc.live_place.index) {
                Some(m) => m.index < mutexes.list@.len() && NetView::adds_transition(
                    old(net)@,
                    final(net)@,
                    Some("StorageDead"@),
                    set![
                        start_place.index,
                        loc.live_place.index,
                        mutexes.list@[m.index as int].locked.index,
                    ],
                    set![d.index, mutexes.list@[m.index as int].unlocked.index],
                ),
                None => NetView::adds_transition(
                    old(net)@,
                    final(net)@,
                    Some("StorageDead"@),
                    set![start_place.index, loc.live_place.index],
                    set![d.index],
                ),
            }))),
    {
        let ghost o0 = net@;
        let kind_name: &'static str = match statement {
            llir::Stmt::Assign(_, _) => "Assign",
            llir::Stmt::StorageLive(_) => "StorageLive",
            llir::Stmt::StorageDead(_) => "StorageDead",
            llir::Stmt::SetDiscriminant(_) => "SetDiscriminant",
            llir::Stmt::Nop => "Nop",
        };
        let t = net.add_transition(Some(String::from_str(kind_name)));
        let ghost o1 = net@;
        let r1 = net.add_flow_pt(start_place, t);
        let ghost o2 = net@;
        proof {
            assert forall|q: usize| q < o2.n_places() implies (#[trigger] o2.has_pt(q, t.index) == (
            q == start_place.index)) by {
                assert(!o1.has_pt(q, t.index));
            }
            assert forall|q: usize| q < o2.n_places() implies !(#[trigger] o2.has_tp(
                t.index,
                q,
            )) by {
                assert(!o1.has_tp(t.index, q));
            }
            assert(o2.groups == o0.groups);
            assert forall|q: usize| q < o2.n_places() && o2.grouped(q) implies (
            #[trigger] o2.has_pt(q, t.index) == o2.has_tp(t.index, q)) by {
                assert(o0.is_free(start_place.index));
                assert(q != start_place.index);
            }
            assert(sym_on(o2, t));
            assert forall|q: usize, t2: usize|
                q < o2.n_places() && t2 < o0.n_transitions() implies (#[trigger] o2.has_pt(q, t2)
                == o0.has_pt(q, t2)) && (#[trigger] o2.has_tp(t2, q) == o0.has_tp(t2, q)) by {
                assert(o2.has_pt(q, t2) == (o1.has_pt(q, t2) || (q == start_place.index && t2
                    == t.index)));
                assert(o2.has_tp(t2, q) == o1.has_tp(t2, q));
            }
            assert(NetView::extends(o0, o2));
            assert(kind_name@ == spec_stmt_kind_name(*statement));
            assert(o2.trans_names == o0.trans_names.push(Some(spec_stmt_kind_name(*statement))));
            laws::lemma_slot_sums_extends(o0, o2);
            crate::petri_net::function::lemma_vm_wf_extends(*virt_memory, o0, o2);
            crate::petri_net::unique_functions::lemma_mutex_list_wf_extends(*mutexes, o0, o2);
        }
        let result = Self { start_place, stmt_transition: t };
        match statement {
            llir::Stmt::Nop => {
                proof {
                    broadcast use vstd::set::group_set_axioms;

                    let v = net@;
                    let ins: Set<usize> = set![start_place.index];
                    let outs: Set<usize> = Set::empty();
                    assert(forall|q: usize|
                        #[trigger] ins.contains(q) == (q == start_place.index));
                    assert(forall|q: usize| !(#[trigger] outs.contains(q)));
                    assert forall|q: usize, t2: usize|
                        q < v.n_places() && t2 < v.n_transitions() implies #[trigger] v.has_pt(
                        q,
                        t2,
                    ) == (if t2 < o0.n_transitions() {
                        o0.has_pt(q, t2)
                    } else {
                        ins.contains(q)
                    }) by {
                        if t2 >= o0.n_transitions() {
                            assert(t2 == t.index);
                        }
                    }
                    assert forall|q: usize, t2: usize|
                        q < v.n_places() && t2 < v.n_transitions() implies #[trigger] v.has_tp(
                        t2,
                        q,
                    ) == (if t2 < o0.n_transitions() {
                        o0.has_tp(t2, q)
                    } else {
                        outs.contains(q)
                    }) by {
                        if t2 >= o0.n_transitions() {
                            assert(t2 == t.index);
                        }
                    }
                    lemma_adds_transition(o0, v, Some("Nop"@), ins, outs);
                }
            },
            llir::Stmt::SetDiscriminant(place) => {
                let node = match place_to_data_node(place, virt_memory) {
                    Ok(p) => p,
                    Err(e) => {
                        return Err(e);
                    },
                };
                proof {
                    lemma_data_place_grouped(*virt_memory, o2, node);
                }
                let r = add_data_pair(net, node, t);
                proof {
                    broadcast use vstd::set::group_set_axioms;

                    let v = net@;
                    let ins: Set<usize> = set![start_place.index, node.index];
                    let outs: Set<usize> = set![node.index];
                    assert(forall|q: usize|
                        #[trigger] ins.contains(q) == (q == start_place.index || q == node.index));
                    assert(forall|q: usize| #[trigger] outs.contains(q) == (q == node.index));
                    assert forall|q: usize, t2: usize|
                        q < v.n_places() && t2 < v.n_transitions() implies #[trigger] v.has_pt(
                        q,
                        t2,
                    ) == (if t2 < o0.n_transitions() {
                        o0.has_pt(q, t2)
                    } else {
                        ins.contains(q)
                    }) by {
                        assert(v.has_pt(q, t2) == (o2.has_pt(q, t2) || (q == node.index && t2
                            == t.index)));
                        if t2 >= o0.n_transitions() {
                            assert(t2 == t.index);
                        }
                    }
                    assert forall|q: usize, t2: usize|
                        q < v.n_places() && t2 < v.n_transitions() implies #[trigger] v.has_tp(
                        t2,
                        q,
                    ) == (if t2 < o0.n_transitions() {
                        o0.has_tp(t2, q)
                    } else {
                        outs.contains(q)
                    }) by {
                        assert(v.has_tp(t2, q) == (o2.has_tp(t2, q) || (q == node.index && t2
                            == t.index)));
                        if t2 >= o0.n_transitions() {
                            assert(t2 == t.index);
                        }
                    }
                    lemma_adds_transition(o0, v, Some("SetDiscriminant"@), ins, outs);
                }
            },
            llir::Stmt::Assign(lvalue, rvalue) => {
                let ldata = match place_to_data_node(lvalue, virt_memory) {
                    Ok(p) => p,
                    Err(e) => {
                        return Err(e);
                    },
                };
                proof {
                    lemma_data_place_grouped(*virt_memory, o2, ldata);
                }
                let r = add_data_pair(net, ldata, t);
                let ghost o3 = net@;
                match rvalue {
                    llir::Rvalue::Use(operand)
                    | llir::Rvalue::Repeat(operand)
                    | llir::Rvalue::UnaryOp(operand)
                    | llir::Rvalue::Cast(operand) => {
                        let node = match op_to_data_node(operand, virt_memory) {
                            Ok(p) => p,
                            Err(e) => {
                                return Err(e);
                            },
                        };
                        proof {
                            lemma_data_place_grouped(*virt_memory, o3, node);
                        }
                        let r = add_data_pair(net, node, t);
                    },
                    llir::Rvalue::Ref(place)
                    | llir::Rvalue::Len(place)
                    | llir::Rvalue::AddressOf(place)
                    | llir::Rvalue::Discriminant(place) => {
                        let node = match place_to_data_node(place, virt_memory) {
                            Ok(p) => p,
                            Err(e) => {
                                return Err(e);
                            },
                        };
                        proof {
                            lemma_data_place_grouped(*virt_memory, o3, node);
                        }
                        let r = add_data_pair(net, node, t);
                    },
                    llir::Rvalue::BinaryOp(lop, rop)
                    | llir::Rvalue::CheckedBinaryOp(lop, rop) => {
                        let lnode = match op_to_data_node(lop, virt_memory) {
                            Ok(p) => p,
                            Err(e) => {
                                return Err(e);
                            },
                        };
                        proof {
                            lemma_data_place_grouped(*virt_memory, o3, lnode);
                        }
                        let r = add_data_pair(net, lnode, t);
                        let rnode = match op_to_data_node(rop, virt_memory) {
                            Ok(p) => p,
                            Err(e) => {
                                return Err(e);
                            },
                        };
                        proof {
                            lemma_data_place_grouped(*virt_memory, net@, rnode);
                        }
                        let r = add_data_pair(net, rnode, t);
                    },
                    llir::Rvalue::NullaryOp => {
                        let node = match virt_memory.get_constant() {
                            Ok(p) => p,
                            Err(e) => {
                                return Err(e);
                            },
                        };
                        let r = add_data_pair(net, node, t);
                    },
                    llir::Rvalue::Aggregate(operands) => {
                        let mut i: usize = 0;
                        while i < operands.len()
                            invariant
                                o0 == old(net)@,
                                net@.wf(),
                                net@.balanced(),
                                laws::slot_sums(net@),
                                net@.place_names == o0.place_names,
                                net@.marking == o0.marking,
                                net@.groups == o0.groups,
                                net@.trans_names == o0.trans_names.push(
                                    Some(spec_stmt_kind_name(*statement)),
                                ),
                                *statement is Assign,
                                *statement matches llir::Stmt::Assign(lhs2, rv2) && (rv2
                                    matches llir::Rvalue::Aggregate(ops2) && ops2@ == operands@
                                    && crate::petri_net::function::spec_place_ok(
                                    lhs2,
                                    *virt_memory,
                                )),
                                forall|k: int|
                                    0 <= k < i ==> crate::petri_net::function::spec_op_ok(
                                        #[trigger] operands@[k],
                                        *virt_memory,
                                    ),
                                NetView::extends(o0, net@),
                                t.index < net@.n_transitions(),
                                sym_on(net@, t),
                                virt_memory.wf(net@),
                            decreases operands.len() - i,
                        {
                            let ghost prev = net@;
                            let node = match op_to_data_node(&operands[i], virt_memory) {
                                Ok(p) => p,
                                Err(e) => {
                                    proof {
                                        assert(!crate::petri_net::function::spec_op_ok(
                                            operands@[i as int],
                                            *virt_memory,
                                        ));
                                    }
                                    return Err(e);
                                },
                            };
                            proof {
                                lemma_data_place_grouped(*virt_memory, prev, node);
                            }
                            let r = add_data_pair(net, node, t);
                            proof {
                                lemma_extends_trans(o0, prev, net@);
                                crate::petri_net::function::lemma_vm_wf_extends(
                                    *virt_memory,
                                    prev,
                                    net@,
                                );
                            }
                            i = i + 1;
                        }
                    },
                }
            },
            llir::Stmt::StorageLive(local) => {
                let l = match virt_memory.get_local(*local) {
                    Some(l) => *l,
                    None => {
                        return Err(PetriError::LocalNotFound);
                    },
                };
                let u = match l.prenatal_place {
                    Some(u) => u,
                    None => {
                        return Err(PetriError::LifecyclePlaceMissing);
                    },
                };
                proof {
                    assert(l.wf(o2));
                    let ps = l.triple();
                    let gi = choose|i: int| 0 <= i < o2.groups.len() && o2.groups[i] == ps;
                    assert(ps[0] == u.index && ps[1] == l.live_place.index);
                    assert(o2.groups[gi].contains(u.index)) by {
                        assert(o2.groups[gi][0] == u.index);
                    }
                    assert(o2.groups[gi].contains(l.live_place.index)) by {
                        assert(o2.groups[gi][1] == l.live_place.index);
                    }
                    assert(o2.same_group(u.index, l.live_place.index));
                    assert(o2.groups[gi][0] != o2.groups[gi][1]);
                    assert(o2.grouped(u.index));
                    assert(u.index != start_place.index);
                    assert(!o2.has_pt(u.index, t.index));
                    assert(!o2.has_tp(t.index, l.live_place.index));
                }
                let r = net.add_token_shift(u, l.live_place, t);
                proof {
                    broadcast use vstd::set::group_set_axioms;

                    let v = net@;
                    let ins: Set<usize> = set![start_place.index, u.index];
                    let outs: Set<usize> = set![l.live_place.index];
                    assert(forall|q: usize|
                        #[trigger] ins.contains(q) == (q == start_place.index || q == u.index));
                    assert(forall|q: usize|
                        #[trigger] outs.contains(q) == (q == l.live_place.index));
                    assert forall|q: usize, t2: usize|
                        q < v.n_places() && t2 < v.n_transitions() implies #[trigger] v.has_pt(
                        q,
                        t2,
                    ) == (if t2 < o0.n_transitions() {
                        o0.has_pt(q, t2)
                    } else {
                        ins.contains(q)
                    }) by {
                        assert(v.has_pt(q, t2) == (o2.has_pt(q, t2) || (q == u.index && t2
                            == t.index)));
                        if t2 >= o0.n_transitions() {
                            assert(t2 == t.index);
                        }
                    }
                    assert forall|q: usize, t2: usize|
                        q < v.n_places() && t2 < v.n_transitions() implies #[trigger] v.has_tp(
                        t2,
                        q,
                    ) == (if t2 < o0.n_transitions() {
                        o0.has_tp(t2, q)
                    } else {
                        outs.contains(q)
                    }) by {
                        assert(v.has_tp(t2, q) == (o2.has_tp(t2, q) || (q == l.live_place.index
                            && t2 == t.index)));
                        if t2 >= o0.n_transitions() {
                            assert(t2 == t.index);
                        }
                    }
                    lemma_adds_transition(o0, v, Some("StorageLive"@), ins, outs);
                }
            },
            llir::Stmt::StorageDead(local) => {
                let l = match virt_memory.get_local(*local) {
                    Some(l) => *l,
                    None => {
                        return Err(PetriError::LocalNotFound);
                    },
                };
                let d = match l.dead_place {
                    Some(d) => d,
                    None => {
                        return Err(PetriError::LifecyclePlaceMissing);
                    },
                };
                proof {
                    assert(l.wf(o2));
                    let ps = l.triple();
                    let gi = choose|i: int| 0 <= i < o2.groups.len() && o2.groups[i] == ps;
                    assert(ps[1] == l.live_place.index && ps[2] == d.index);
                    assert(o2.groups[gi].contains(l.live_place.index)) by {
                        assert(o2.groups[gi][1] == l.live_place.index);
                    }
                    assert(o2.groups[gi].contains(d.index)) by {
                        assert(o2.groups[gi][2] == d.index);
                    }
                    assert(o2.same_group(l.live_place.index, d.index));
                    assert(o2.groups[gi][1] != o2.groups[gi][2]);
                    assert(o2.grouped(l.live_place.index));
                    assert(l.live_place.index != start_place.index);
                    assert(!o2.has_pt(l.live_place.index, t.index));
                    assert(!o2.has_tp(t.index, d.index));
                }
                let r = net.add_token_shift(l.live_place, d, t);
                let ghost o3 = net@;
                proof {
                    assert forall|q: usize| q < o3.n_places() implies (#[trigger] o3.has_pt(
                        q,
                        t.index,
                    ) == (q == start_place.index || q == l.live_place.index)) && (
                    #[trigger] o3.has_tp(t.index, q) == (q == d.index)) by {
                        assert(o3.has_pt(q, t.index) == (o2.has_pt(q, t.index) || (q
                            == l.live_place.index && t.index == t.index)));
                        assert(o3.has_tp(t.index, q) == (o2.has_tp(t.index, q) || (q == d.index
                            && t.index == t.index)));
                    }
                }
                // destroying a registered lock guard releases its mutex
                match mutexes.get_guard(&l) {
                    None => {
                        proof {
                            broadcast use vstd::set::group_set_axioms;

                            let v = net@;
                            let ins: Set<usize> = set![start_place.index, l.live_place.index];
                            let outs: Set<usize> = set![d.index];
                            assert(forall|q: usize|
                                #[trigger] ins.contains(q) == (q == start_place.index || q
                                    == l.live_place.index));
                            assert(forall|q: usize|
                                #[trigger] outs.contains(q) == (q == d.index));
                            assert forall|q: usize, t2: usize|
                                q < v.n_places() && t2 < v.n_transitions()
                                implies #[trigger] v.has_pt(q, t2) == (if t2
                                < o0.n_transitions() {
                                o0.has_pt(q, t2)
                            } else {
                                ins.contains(q)
                            }) by {
                                assert(v.has_pt(q, t2) == (o2.has_pt(q, t2) || (q
                                    == l.live_place.index && t2 == t.index)));
                                if t2 >= o0.n_transitions() {
                                    assert(t2 == t.index);
                                }
                            }
                            assert forall|q: usize, t2: usize|
                                q < v.n_places() && t2 < v.n_transitions()
                                implies #[trigger] v.has_tp(t2, q) == (if t2
                                < o0.n_transitions() {
                                o0.has_tp(t2, q)
                            } else {
                                outs.contains(q)
                            }) by {
                                assert(v.has_tp(t2, q) == (o2.has_tp(t2, q) || (q == d.index && t2
                                    == t.index)));
                                if t2 >= o0.n_transitions() {
                                    assert(t2 == t.index);
                                }
                            }
                            lemma_adds_transition(o0, v, Some("StorageDead"@), ins, outs);
                        }
                    },
                    Some(m) => {
                        proof {
                            lemma_assoc_found(mutexes.guards@, l.live_place.index, m);
                        }
                        let locked = match m.locked(mutexes) {
                            Ok(p) => p,
                            Err(e) => {
                                return Err(e);
                            },
                        };
                        let unlocked = match m.unlocked(mutexes) {
                            Ok(p) => p,
                            Err(e) => {
                                return Err(e);
                            },
                        };
                        proof {
                            let mx = mutexes.list@[m.index as int];
                            assert(mx.wf(o2));
                            let qs = mx.places();
                            assert(o3.groups == o2.groups);
                            let gi = choose|i: int| 0 <= i < o3.groups.len() && o3.groups[i] == qs;
                            assert(qs[1] == unlocked.index && qs[2] == locked.index);
                            assert(o3.groups[gi].contains(locked.index)) by {
                                assert(o3.groups[gi][2] == locked.index);
                            }
                            assert(o3.groups[gi].contains(unlocked.index)) by {
                                assert(o3.groups[gi][1] == unlocked.index);
                            }
                            assert(o3.same_group(locked.index, unlocked.index));
                            assert(o3.groups[gi][1] != o3.groups[gi][2]);
                            // the mutex quadruple and the slot triple are
                            // different groups, so their members differ
                            let ps = l.triple();
                            assert(ps.len() == 3 && qs.len() == 4);
                            assert(o3.groups.contains(qs));
                            assert(o3.groups.contains(ps)) by {
                                let si = choose|i: int|
                                    0 <= i < o2.groups.len() && o2.groups[i] == ps;
                                assert(o3.groups[si] == ps);
                            }
                            assert(ps.contains(l.live_place.index)) by {
                                assert(ps[1] == l.live_place.index);
                            }
                            assert(ps.contains(d.index)) by {
                                assert(ps[2] == d.index);
                            }
                            assert(qs.contains(locked.index)) by {
                                assert(qs[2] == locked.index);
                            }
                            assert(qs.contains(unlocked.index)) by {
                                assert(qs[1] == unlocked.index);
                            }
                            lemma_groups_disjoint_members(
                                o3,
                                qs,
                                ps,
                                locked.index,
                                l.live_place.index,
                            );
                            lemma_groups_disjoint_members(o3, qs, ps, unlocked.index, d.index);
                            assert(o3.grouped(locked.index));
                            assert(locked.index != start_place.index);
                            assert(!o3.has_pt(locked.index, t.index));
                            assert(!o3.has_tp(t.index, unlocked.index));
                        }
                        let r = net.add_token_shift(locked, unlocked, t);
                        proof {
                            broadcast use vstd::set::group_set_axioms;

                            let v = net@;
                            let ins: Set<usize> = set![
                                start_place.index,
                                l.live_place.index,
                                locked.index,
                            ];
                            let outs: Set<usize> = set![d.index, unlocked.index];
                            assert(forall|q: usize|
                                #[trigger] ins.contains(q) == (q == start_place.index || q
                                    == l.live_place.index || q == locked.index));
                            assert(forall|q: usize|
                                #[trigger] outs.contains(q) == (q == d.index || q
                                    == unlocked.index));
                            assert forall|q: usize, t2: usize|
                                q < v.n_places() && t2 < v.n_transitions()
                                implies #[trigger] v.has_pt(q, t2) == (if t2
                                < o0.n_transitions() {
                                o0.has_pt(q, t2)
                            } else {
                                ins.contains(q)
                            }) by {
                                assert(v.has_pt(q, t2) == (o3.has_pt(q, t2) || (q == locked.index
                                    && t2 == t.index)));
                                if t2 < o0.n_transitions() {
                                    assert(t2 != t.index);
                                    assert(o3.has_pt(q, t2) == (o2.has_pt(q, t2) || (q
                                        == l.live_place.index && t2 == t.index)));
                                } else {
                                    assert(t2 == t.index);
                                }
                            }
                            assert forall|q: usize, t2: usize|
                                q < v.n_places() && t2 < v.n_transitions()
                                implies #[trigger] v.has_tp(t2, q) == (if t2
                                < o0.n_transitions() {
                                o0.has_tp(t2, q)
                            } else {
                                outs.contains(q)
                            }) by {
                                assert(v.has_tp(t2, q) == (o3.has_tp(t2, q) || (q
                                    == unlocked.index && t2 == t.index)));
                                if t2 < o0.n_transitions() {
                                    assert(t2 != t.index);
                                    assert(o3.has_tp(t2, q) == (o2.has_tp(t2, q) || (q == d.index
                                        && t2 == t.index)));
                                } else {
                                    assert(t2 == t.index);
                                }
                            }
                            lemma_adds_transition(o0, v, Some("StorageDead"@), ins, outs);
                        }
                    },
                }
            },
        }
        proof {
            assert(NetView::extends(o0, net@));
        }
        Ok(result)
    }

    /// The place control waits on before this statement fires.
    pub fn start_place(&self) -> (p: Place)
        ensures
            p == self.start_place,
    {
        self.start_place
    }
}

} // verus!
