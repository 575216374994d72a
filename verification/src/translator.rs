//! The recursive control-flow-graph walker: it maintains a call stack of
//! partially built function subnets, dispatches every recognised primitive
//! to its specialised builder, and inlines every other callee at its call
//! site.  The depth of inlining is bounded; a program whose call chains
//! exceed the bound is rejected rather than walked forever.

use vstd::prelude::*;
use vstd::string::*;

use crate::llir;
use crate::petri_net::function::{
    lemma_function_wf_extends, lemma_local_wf_extends, Data, Function, Local,
};
use crate::petri_net::laws;
use crate::petri_net::petri_net::{
    lemma_extends_grouped_place, lemma_extends_trans, NetView, Node, PetriError, PetriNet, Place,
};
use crate::petri_net::unique_functions::{lemma_mutex_list_wf_extends, MutexList, MutexRef};
use crate::util::{contains_substr, spec_contains_substr};

verus! {

/// The stack of frames under construction.
pub struct CallStack<T> {
    pub stack: Vec<T>,
}

impl<T> CallStack<T> {
    pub fn new() -> (r: Self)
        ensures
            r.stack@.len() == 0,
    {
        CallStack { stack: Vec::new() }
    }

    pub fn push(&mut self, item: T)
        ensures
            final(self).stack@ == old(self).stack@.push(item),
    {
        self.stack.push(item)
    }

    pub fn pop(&mut self) -> (r: Option<T>)
        ensures
            old(self).stack@.len() == 0 ==> r is None && final(self).stack@ == old(self).stack@,
            old(self).stack@.len() > 0 ==> r == Some(old(self).stack@.last())
                && final(self).stack@ == old(self).stack@.drop_last(),
    {
        self.stack.pop()
    }

    pub fn peek(&self) -> (r: Option<&T>)
        ensures
            self.stack@.len() == 0 ==> r is None,
            self.stack@.len() > 0 ==> (r matches Some(x) && *x == self.stack@.last()),
    {
        if self.stack.len() == 0 {
            None
        } else {
            Some(&self.stack[self.stack.len() - 1])
        }
    }

    pub fn peek_mut(&mut self) -> (r: Option<&mut T>)
        ensures
            old(self).stack@.len() == 0 ==> r is None && final(self).stack@ == old(self).stack@,
            old(self).stack@.len() > 0 ==> (r matches Some(x) && *x == old(self).stack@.last()
                && final(self).stack@ == old(self).stack@.update(
                old(self).stack@.len() - 1,
                *final(x),
            )),
    {
        if self.stack.len() == 0 {
            None
        } else {
            let len = self.stack.len();
            Some(&mut self.stack[len - 1])
        }
    }

    pub fn is_empty(&self) -> (r: bool)
        ensures
            r == (self.stack@.len() == 0),
    {
        self.stack.len() == 0
    }
}

/// Every frame of the stack is valid for the net model `v`.
pub open spec fn stack_wf(stack: Seq<Function>, v: NetView) -> bool {
    forall|i: int| 0 <= i < stack.len() ==> (#[trigger] stack[i]).wf(v)
}

/// A whole stack stays valid when the net grows.
pub proof fn lemma_stack_wf_extends(stack: Seq<Function>, o: NetView, v: NetView)
    requires
        stack_wf(stack, o),
        NetView::extends(o, v),
    ensures
        stack_wf(stack, v),
{
    assert forall|i: int| 0 <= i < stack.len() implies (#[trigger] stack[i]).wf(v) by {
        lemma_function_wf_extends(stack[i], o, v);
    }
}

/// The source slot of an assignment's mutex-identity propagation: the
/// single base operand of the right-hand side, with `ref` and
/// `address-of` reading the referenced place.
pub open spec fn spec_assign_source(rv: llir::Rvalue, memory: crate::petri_net::function::VirtualMemory) -> Option<Local> {
    match rv {
        llir::Rvalue::Use(op) | llir::Rvalue::Repeat(op) | llir::Rvalue::Cast(op) => crate::petri_net::function::spec_op_local(
            op,
            memory,
        ),
        llir::Rvalue::Ref(p) | llir::Rvalue::Discriminant(p) | llir::Rvalue::AddressOf(p) => if crate::petri_net::function::spec_place_ok(
            p,
            memory,
        ) {
            Some(crate::petri_net::function::spec_place_local(p, memory))
        } else {
            None
        },
        _ => None,
    }
}

/// The callee name is one of the panic entry points of the standard
/// library.
pub open spec fn spec_is_panic(name: Seq<char>) -> bool {
    ||| spec_contains_substr(name, "std::rt::begin_panic_fmt"@)
    ||| spec_contains_substr(name, "std::rt::begin_panic"@)
    ||| spec_contains_substr(name, "core::panicking::panic_fmt"@)
    ||| spec_contains_substr(name, "core::panicking::panic"@)
}

/// The callee name is one of the mutex primitives with a dedicated subnet.
pub open spec fn spec_is_unique(name: Seq<char>) -> bool {
    ||| spec_contains_substr(name, "std::sync::Mutex::<T>::new"@)
    ||| spec_contains_substr(name, "std::sync::Mutex::<T>::lock"@)
    ||| spec_contains_substr(name, "std::sync::Mutex::<T>::try_lock"@)
}

/// The deepest chain of inlined calls the walker will follow.
pub const RECURSION_LIMIT: u64 = 128;

/// The driver of the translation.
pub struct Translator {
    pub call_stack: CallStack<Function>,
    /// Function ids already visited at least once, kept for diagnostics.
    pub visited: Vec<bool>,
    pub net: PetriNet,
    pub mutex_list: MutexList,
    pub unwind_abort_place: Place,
    pub program_end_place: Option<Place>,
}

impl Translator {
    /// All parts of the driver agree with the net under construction.
    pub open spec fn wf(self) -> bool {
        &&& self.net@.wf()
        &&& self.net@.balanced()
        &&& laws::slot_sums(self.net@)
        &&& self.mutex_list.wf(self.net@)
        &&& self.unwind_abort_place.index < self.net@.n_places()
        &&& self.net@.is_free(self.unwind_abort_place.index)
        &&& (self.program_end_place matches Some(p) ==> p.index < self.net@.n_places()
            && self.net@.is_free(p.index))
        &&& stack_wf(self.call_stack.stack@, self.net@)
    }

    pub fn new() -> (r: Translator)
        ensures
            r.wf(),
            r.call_stack.stack@.len() == 0,
            r.program_end_place is None,
            r.mutex_list.list@.len() == 0,
            r.mutex_list.links@.len() == 0,
            r.mutex_list.guards@.len() == 0,
            r.net@.n_places() == 1,
            r.net@.n_transitions() == 0,
            r.unwind_abort_place.index == 0,
            r.net@.place_names[0] == Some("unwind_abort"@),
            r.net@.marking[0] == 0,
    {
        let mut net = PetriNet::new();
        let unwind_abort_place = net.add_place(Some(String::from_str("unwind_abort")), 0);
        Translator {
            call_stack: CallStack::new(),
            visited: Vec::new(),
            net,
            mutex_list: MutexList::new(),
            unwind_abort_place,
            program_end_place: None,
        }
    }

    /// Whether a callee is a panic entry point.
    fn is_panic(name: &str) -> (r: bool)
        ensures
            r == spec_is_panic(name@),
    {
        contains_substr(name, "std::rt::begin_panic_fmt") || contains_substr(
            name,
            "std::rt::begin_panic",
        ) || contains_substr(name, "core::panicking::panic_fmt") || contains_substr(
            name,
            "core::panicking::panic",
        )
    }

    /// Whether a callee is a recognised primitive with a dedicated subnet.
    pub fn is_unique(name: &str) -> (r: bool)
        ensures
            r == spec_is_unique(name@),
    {
        contains_substr(name, "std::sync::Mutex::<T>::new") || contains_substr(
            name,
            "std::sync::Mutex::<T>::lock",
        ) || contains_substr(name, "std::sync::Mutex::<T>::try_lock")
    }

    /// Record a function id as visited.
    fn mark_visited(&mut self, function: usize)
        ensures
            final(self).call_stack == old(self).call_stack,
            final(self).net == old(self).net,
            final(self).mutex_list == old(self).mutex_list,
            final(self).unwind_abort_place == old(self).unwind_abort_place,
            final(self).program_end_place == old(self).program_end_place,
    {
        while self.visited.len() <= function
            invariant
                self.call_stack == old(self).call_stack,
                self.net == old(self).net,
                self.mutex_list == old(self).mutex_list,
                self.unwind_abort_place == old(self).unwind_abort_place,
                self.program_end_place == old(self).program_end_place,
            decreases function + 1 - self.visited.len(),
        {
            self.visited.push(false);
        }
        self.visited.set(function, true);
    }

    /// Translate a whole program, starting from its entry function: create
    /// the program-start and program-end places and walk `main`.  On
    /// success the net is well-formed and balanced: the token sum of every
    /// storage slot's lifecycle triple and of every mutex's state
    /// quadruple is one initially and is conserved by every transition.
    pub fn petrify(&mut self, program: &llir::Program, main_fn: usize) -> (r: Result<
        (),
        PetriError,
    >)
        requires
            old(self).wf(),
        ensures
            final(self).wf(),
            final(self).net@.wf(),
            final(self).net@.balanced(),
            laws::slot_sums(final(self).net@),
            NetView::extends(old(self).net@, final(self).net@),
            r is Ok ==> (final(self).program_end_place matches Some(pe) && {
                // the marked program-start place and the program-end place,
                // created first, survive into the final net
                &&& pe.index == old(self).net@.n_places() + 1
                &&& final(self).net@.marking[old(self).net@.n_places() as int] == 1
                &&& final(self).net@.marking[pe.index as int] == 0
            }),
    {
        let ghost o0 = self.net@;
        let start_place = self.net.add_place(None, 1);
        let program_end = self.net.add_place(Some(String::from_str("program end")), 0);
        self.program_end_place = Some(program_end);
        let ghost o1 = self.net@;
        proof {
            assert(NetView::extends(o0, o1));
            laws::lemma_slot_sums_extends(o0, o1);
            lemma_mutex_list_wf_extends(self.mutex_list, o0, o1);
            lemma_stack_wf_extends(self.call_stack.stack@, o0, o1);
        }
        let data_return = Local::new(&mut self.net, "main_return");
        let ghost o2 = self.net@;
        proof {
            lemma_extends_trans(o0, o1, o2);
            lemma_mutex_list_wf_extends(self.mutex_list, o1, o2);
            lemma_stack_wf_extends(self.call_stack.stack@, o1, o2);
            crate::petri_net::petri_net::lemma_extends_free(o1, o2, start_place.index);
            crate::petri_net::petri_net::lemma_extends_free(o1, o2, program_end.index);
            crate::petri_net::petri_net::lemma_extends_free(
                o1,
                o2,
                self.unwind_abort_place.index,
            );
        }
        let args: Vec<Local> = Vec::new();
        let r = self.translate(
            program,
            main_fn,
            &args,
            data_return,
            start_place,
            program_end,
            RECURSION_LIMIT,
        );
        proof {
            lemma_extends_trans(o0, o2, self.net@);
        }
        match r {
            Ok(_) => {
                proof {
                    assert(self.net@.marking[start_place.index as int] == o2.marking[start_place.index as int]);
                    assert(self.net@.marking[program_end.index as int] == o2.marking[program_end.index as int]);
                }
                Ok(())
            },
            Err(e) => Err(e),
        }
    }

    /// Translate one call of `function`: name its entry place and dispatch
    /// to the primitive builder or to the generic body walker.
    fn translate(
        &mut self,
        program: &llir::Program,
        function: usize,
        args: &Vec<Local>,
        data_return: Local,
        start_place: Place,
        return_flow: Place,
        depth: u64,
    ) -> (r: Result<(), PetriError>)
        requires
            old(self).wf(),
            start_place.index < old(self).net@.n_places(),
            old(self).net@.is_free(start_place.index),
            return_flow.index < old(self).net@.n_places(),
            old(self).net@.is_free(return_flow.index),
            data_return.wf(old(self).net@),
            forall|j: int| 0 <= j < args@.len() ==> (#[trigger] args@[j]).wf(old(self).net@),
        ensures
            final(self).wf(),
            NetView::extends(old(self).net@, final(self).net@),
            final(self).call_stack.stack@ == old(self).call_stack.stack@,
            final(self).unwind_abort_place == old(self).unwind_abort_place,
            final(self).program_end_place == old(self).program_end_place,
        decreases depth, 5int,
    {
        if depth == 0 {
            return Err(PetriError::RecursionLimit);
        }
        if function >= program.functions.len() {
            return Err(PetriError::FunctionNotFound);
        }
        let ghost o0 = self.net@;
        let fn_name = program.functions[function].name.clone();
        let r_name = self.net.set_name(Node::Place(start_place), fn_name.clone());
        proof {
            assert(self.net@.groups == o0.groups);
            assert(self.net@.marking == o0.marking);
            assert(NetView::extends(o0, self.net@));
            lemma_mutex_list_wf_extends(self.mutex_list, o0, self.net@);
            lemma_stack_wf_extends(self.call_stack.stack@, o0, self.net@);
        }
        if Translator::is_unique(fn_name.as_str()) {
            self.translate_unique(args, data_return, start_place, return_flow, fn_name.as_str())
        } else {
            self.translate_default(
                program,
                function,
                args,
                data_return,
                start_place,
                return_flow,
                fn_name,
                depth,
            )
        }
    }

    /// The dedicated subnets of the mutex primitives.  `Mutex::new`
    /// creates a fresh mutex, links the destination slot to it, and adds a
    /// bridging transition that also moves the mutex token from
    /// uninitialised to unlocked; `Mutex::lock` registers the destination
    /// slot as a guard and adds a bridging transition that also moves the
    /// token from unlocked to locked; `try_lock` has no defined semantics
    /// and is refused.
    #[verifier::rlimit(80)]
    fn translate_unique(
        &mut self,
        args: &Vec<Local>,
        data_return: Local,
        start_place: Place,
        return_flow: Place,
        fn_name: &str,
    ) -> (r: Result<(), PetriError>)
        requires
            old(self).wf(),
            start_place.index < old(self).net@.n_places(),
            old(self).net@.is_free(start_place.index),
            return_flow.index < old(self).net@.n_places(),
            old(self).net@.is_free(return_flow.index),
            data_return.wf(old(self).net@),
            forall|j: int| 0 <= j < args@.len() ==> (#[trigger] args@[j]).wf(old(self).net@),
        ensures
            final(self).wf(),
            NetView::extends(old(self).net@, final(self).net@),
            final(self).call_stack.stack@ == old(self).call_stack.stack@,
            final(self).unwind_abort_place == old(self).unwind_abort_place,
            final(self).program_end_place == old(self).program_end_place,
            spec_contains_substr(fn_name@, "std::sync::Mutex::<T>::new"@) ==> ({
                &&& r is Ok
                &&& final(self).mutex_list.list@.len() == old(self).mutex_list.list@.len() + 1
                &&& final(self).mutex_list.guards@ == old(self).mutex_list.guards@
                &&& final(self).mutex_list.links@ == old(self).mutex_list.links@.push(
                    (
                        data_return.live_place.index,
                        (MutexRef { index: old(self).mutex_list.list@.len() as usize }),
                    ),
                )
                &&& final(self).net@.trans_names == old(self).net@.trans_names.push(
                    Some(fn_name@),
                )
                &&& final(self).net@.marking == old(self).net@.marking.push(1).push(0).push(
                    0,
                ).push(0)
                &&& (final(self).mutex_list.list@.last() matches mx && {
                    &&& mx.uninitialized.index == old(self).net@.n_places()
                    &&& mx.unlocked.index == old(self).net@.n_places() + 2
                    &&& forall|q: usize, t2: usize|
                        #![trigger final(self).net@.has_pt(q, t2)]
                        #![trigger final(self).net@.has_tp(t2, q)]
                        q < final(self).net@.n_places() && t2 < final(self).net@.n_transitions()
                            ==> (final(self).net@.has_pt(q, t2) == (if t2 < old(
                            self,
                        ).net@.n_transitions() {
                            q < old(self).net@.n_places() && old(self).net@.has_pt(q, t2)
                        } else {
                            q == start_place.index || q == mx.uninitialized.index
                        })) && (final(self).net@.has_tp(t2, q) == (if t2 < old(
                            self,
                        ).net@.n_transitions() {
                            q < old(self).net@.n_places() && old(self).net@.has_tp(t2, q)
                        } else {
                            q == return_flow.index || q == mx.unlocked.index
                        }))
                })
            }),
            (!spec_contains_substr(fn_name@, "std::sync::Mutex::<T>::new"@)
                && spec_contains_substr(fn_name@, "std::sync::Mutex::<T>::lock"@)) ==> (if args@.len()
                == 0 || crate::petri_net::unique_functions::assoc(
                old(self).mutex_list.links@,
                args@[0].live_place.index,
            ) is None {
                &&& r == Result::<(), PetriError>::Err(PetriError::MutexNotFound)
                &&& *final(self) == *old(self)
            } else {
                &&& r is Ok
                &&& final(self).mutex_list.list@ == old(self).mutex_list.list@
                &&& final(self).mutex_list.links@ == old(self).mutex_list.links@
                &&& (crate::petri_net::unique_functions::assoc(
                    old(self).mutex_list.links@,
                    args@[0].live_place.index,
                ) matches Some(m) && {
                    &&& final(self).mutex_list.guards@ == old(self).mutex_list.guards@.push(
                        (data_return.live_place.index, m),
                    )
                    &&& NetView::adds_transition(
                        old(self).net@,
                        final(self).net@,
                        Some(fn_name@),
                        set![
                            start_place.index,
                            old(self).mutex_list.list@[m.index as int].unlocked.index,
                        ],
                        set![
                            return_flow.index,
                            old(self).mutex_list.list@[m.index as int].locked.index,
                        ],
                    )
                })
            }),
            (!spec_contains_substr(fn_name@, "std::sync::Mutex::<T>::new"@)
                && !spec_contains_substr(fn_name@, "std::sync::Mutex::<T>::lock"@)
                && spec_contains_substr(fn_name@, "std::sync::Mutex::<T>::try_lock"@)) ==> (r
                == Result::<(), PetriError>::Err(PetriError::TryLockUnsupported) && *final(self)
                == *old(self)),
            (!spec_contains_substr(fn_name@, "std::sync::Mutex::<T>::new"@)
                && !spec_contains_substr(fn_name@, "std::sync::Mutex::<T>::lock"@)
                && !spec_contains_substr(fn_name@, "std::sync::Mutex::<T>::try_lock"@)) ==> (r
                == Result::<(), PetriError>::Err(PetriError::UnrecognisedPrimitive)
                && *final(self) == *old(self)),
    {
        let ghost o0 = self.net@;
        if contains_substr(fn_name, "std::sync::Mutex::<T>::new") {
            let m = self.mutex_list.add(&mut self.net);
            let ghost oc = self.net@;
            proof {
                lemma_stack_wf_extends(self.call_stack.stack@, o0, oc);
                lemma_local_wf_extends(data_return, o0, oc);
                crate::petri_net::petri_net::lemma_extends_free(o0, oc, start_place.index);
                crate::petri_net::petri_net::lemma_extends_free(o0, oc, return_flow.index);
                crate::petri_net::petri_net::lemma_extends_free(
                    o0,
                    oc,
                    self.unwind_abort_place.index,
                );
                match self.program_end_place {
                    Some(pe) => {
                        crate::petri_net::petri_net::lemma_extends_free(o0, oc, pe.index);
                    },
                    None => {},
                }
            }
            self.mutex_list.link(&data_return, m);
            proof {
                assert(self.mutex_list.wf(oc));
            }
            let uninitialized = match m.uninitialized(&self.mutex_list) {
                Ok(p) => p,
                Err(e) => {
                    proof {
                        assert(false);
                    }
                    return Err(e);
                },
            };
            let unlocked = match m.unlocked(&self.mutex_list) {
                Ok(p) => p,
                Err(e) => {
                    proof {
                        assert(false);
                    }
                    return Err(e);
                },
            };
            let t = self.net.add_bridge(
                Some(String::from_str(fn_name)),
                start_place,
                return_flow,
            );
            let ghost od = self.net@;
            proof {
                broadcast use vstd::set::group_set_axioms;

                let mx = self.mutex_list.list@[m.index as int];
                assert(mx.wf(oc));
                let qs = mx.places();
                let gi = choose|i: int| 0 <= i < oc.groups.len() && oc.groups[i] == qs;
                assert(od.groups == oc.groups);
                assert(od.groups[gi].contains(uninitialized.index)) by {
                    assert(od.groups[gi][0] == uninitialized.index);
                }
                assert(od.groups[gi].contains(unlocked.index)) by {
                    assert(od.groups[gi][1] == unlocked.index);
                }
                assert(od.same_group(uninitialized.index, unlocked.index));
                assert(od.groups[gi][0] != od.groups[gi][1]);
                assert(od.grouped(uninitialized.index));
                assert(od.grouped(unlocked.index));
                assert(!od.has_pt(uninitialized.index, t.index)) by {
                    crate::petri_net::petri_net::lemma_grouped_not_free(oc, uninitialized.index);
                }
                assert(!od.has_tp(t.index, unlocked.index)) by {
                    crate::petri_net::petri_net::lemma_grouped_not_free(oc, unlocked.index);
                }
            }
            let r3 = self.net.add_token_shift(uninitialized, unlocked, t);
            proof {
                broadcast use vstd::set::group_set_axioms;

                let v = self.net@;
                let mx = self.mutex_list.list@[m.index as int];
                assert forall|q: usize, t2: usize|
                    #![trigger v.has_pt(q, t2)]
                    #![trigger v.has_tp(t2, q)]
                    q < v.n_places() && t2 < v.n_transitions() implies (v.has_pt(q, t2) == (if t2
                    < o0.n_transitions() {
                    q < o0.n_places() && o0.has_pt(q, t2)
                } else {
                    q == start_place.index || q == mx.uninitialized.index
                })) && (v.has_tp(t2, q) == (if t2 < o0.n_transitions() {
                    q < o0.n_places() && o0.has_tp(t2, q)
                } else {
                    q == return_flow.index || q == mx.unlocked.index
                })) by {
                    assert(v.has_pt(q, t2) == (od.has_pt(q, t2) || (q == uninitialized.index && t2
                        == t.index)));
                    assert(v.has_tp(t2, q) == (od.has_tp(t2, q) || (q == unlocked.index && t2
                        == t.index)));
                    if t2 < o0.n_transitions() {
                        assert(t2 != t.index);
                        assert(od.has_pt(q, t2) == oc.has_pt(q, t2));
                        assert(od.has_tp(t2, q) == oc.has_tp(t2, q));
                        if q < o0.n_places() {
                            assert(oc.pt[q as int] == o0.pt[q as int]);
                            assert(oc.tp == o0.tp);
                        } else {
                            assert(oc.pt[q as int] == Seq::<usize>::empty());
                            if o0.has_tp(t2, q) {
                                let j = choose|j: int|
                                    0 <= j < o0.tp[t2 as int].len() && o0.tp[t2 as int][j] == q;
                                assert(o0.tp[t2 as int][j] < o0.n_places());
                            }
                            assert(oc.tp == o0.tp);
                        }
                    } else {
                        assert(t2 == t.index);
                    }
                }
                lemma_extends_trans(o0, oc, od);
                lemma_extends_trans(o0, od, v);
                lemma_stack_wf_extends(self.call_stack.stack@, oc, v);
                lemma_mutex_list_wf_extends(self.mutex_list, oc, v);
                crate::petri_net::petri_net::lemma_extends_free(
                    oc,
                    v,
                    self.unwind_abort_place.index,
                );
                match self.program_end_place {
                    Some(pe) => {
                        crate::petri_net::petri_net::lemma_extends_free(oc, v, pe.index);
                    },
                    None => {},
                }
                laws::lemma_slot_sums_extends(oc, v);
            }
            Ok(())
        } else if contains_substr(fn_name, "std::sync::Mutex::<T>::lock") {
            if args.len() == 0 {
                return Err(PetriError::MutexNotFound);
            }
            let first = args[0];
            let m = match self.mutex_list.get_linked(&first) {
                Some(m) => m,
                None => {
                    return Err(PetriError::MutexNotFound);
                },
            };
            proof {
                crate::petri_net::unique_functions::lemma_assoc_found(
                    self.mutex_list.links@,
                    first.live_place.index,
                    m,
                );
            }
            self.mutex_list.add_guard(&data_return, m);
            proof {
                assert(self.mutex_list.wf(o0));
            }
            let unlocked = match m.unlocked(&self.mutex_list) {
                Ok(p) => p,
                Err(e) => {
                    proof {
                        assert(false);
                    }
                    return Err(e);
                },
            };
            let locked = match m.locked(&self.mutex_list) {
                Ok(p) => p,
                Err(e) => {
                    proof {
                        assert(false);
                    }
                    return Err(e);
                },
            };
            let t = self.net.add_bridge(
                Some(String::from_str(fn_name)),
                start_place,
                return_flow,
            );
            let ghost ob = self.net@;
            proof {
                broadcast use vstd::set::group_set_axioms;

                let mx = self.mutex_list.list@[m.index as int];
                assert(mx.wf(o0));
                let qs = mx.places();
                let gi = choose|i: int| 0 <= i < o0.groups.len() && o0.groups[i] == qs;
                assert(ob.groups == o0.groups);
                assert(ob.groups[gi].contains(unlocked.index)) by {
                    assert(ob.groups[gi][1] == unlocked.index);
                }
                assert(ob.groups[gi].contains(locked.index)) by {
                    assert(ob.groups[gi][2] == locked.index);
                }
                assert(ob.same_group(unlocked.index, locked.index));
                assert(ob.groups[gi][1] != ob.groups[gi][2]);
                assert(ob.grouped(unlocked.index));
                assert(ob.grouped(locked.index));
                assert(!ob.has_pt(unlocked.index, t.index)) by {
                    crate::petri_net::petri_net::lemma_grouped_not_free(o0, unlocked.index);
                }
                assert(!ob.has_tp(t.index, locked.index)) by {
                    crate::petri_net::petri_net::lemma_grouped_not_free(o0, locked.index);
                }
            }
            let r3 = self.net.add_token_shift(unlocked, locked, t);
            proof {
                broadcast use vstd::set::group_set_axioms;

                let v = self.net@;
                let mx = self.mutex_list.list@[m.index as int];
                let ins: Set<usize> = set![start_place.index, mx.unlocked.index];
                let outs: Set<usize> = set![return_flow.index, mx.locked.index];
                assert(forall|q: usize|
                    #[trigger] ins.contains(q) == (q == start_place.index || q
                        == mx.unlocked.index));
                assert(forall|q: usize|
                    #[trigger] outs.contains(q) == (q == return_flow.index || q
                        == mx.locked.index));
                assert forall|q: usize, t2: usize|
                    q < v.n_places() && t2 < v.n_transitions() implies #[trigger] v.has_pt(q, t2)
                    == (if t2 < o0.n_transitions() {
                    o0.has_pt(q, t2)
                } else {
                    ins.contains(q)
                }) by {
                    assert(v.has_pt(q, t2) == (ob.has_pt(q, t2) || (q == unlocked.index && t2
                        == t.index)));
                    if t2 < o0.n_transitions() {
                        assert(t2 != t.index);
                    } else {
                        assert(t2 == t.index);
                    }
                }
                assert forall|q: usize, t2: usize|
                    q < v.n_places() && t2 < v.n_transitions() implies #[trigger] v.has_tp(t2, q)
                    == (if t2 < o0.n_transitions() {
                    o0.has_tp(t2, q)
                } else {
                    outs.contains(q)
                }) by {
                    assert(v.has_tp(t2, q) == (ob.has_tp(t2, q) || (q == locked.index && t2
                        == t.index)));
                    if t2 < o0.n_transitions() {
                        assert(t2 != t.index);
                    } else {
                        assert(t2 == t.index);
                    }
                }
                crate::petri_net::petri_net::lemma_adds_transition(
                    o0,
                    v,
                    Some(fn_name@),
                    ins,
                    outs,
                );
                lemma_extends_trans(o0, ob, v);
                lemma_stack_wf_extends(self.call_stack.stack@, o0, v);
                lemma_mutex_list_wf_extends(self.mutex_list, o0, v);
                crate::petri_net::petri_net::lemma_extends_free(
                    o0,
                    v,
                    self.unwind_abort_place.index,
                );
                match self.program_end_place {
                    Some(pe) => {
                        crate::petri_net::petri_net::lemma_extends_free(o0, v, pe.index);
                    },
                    None => {},
                }
                laws::lemma_slot_sums_extends(o0, v);
            }
            Ok(())
        } else if contains_substr(fn_name, "std::sync::Mutex::<T>::try_lock") {
            // no defined net semantics yet: refuse the program
            Err(PetriError::TryLockUnsupported)
        } else {
            Err(PetriError::UnrecognisedPrimitive)
        }
    }


    /// Walk the body of a regular callee: build its frame on the stack,
    /// visit every block, pop the frame.
    fn translate_default(
        &mut self,
        program: &llir::Program,
        function: usize,
        args: &Vec<Local>,
        data_return: Local,
        start_place: Place,
        return_flow: Place,
        fn_name: String,
        depth: u64,
    ) -> (r: Result<(), PetriError>)
        requires
            old(self).wf(),
            depth >= 1,
            function < program.functions@.len(),
            start_place.index < old(self).net@.n_places(),
            old(self).net@.is_free(start_place.index),
            return_flow.index < old(self).net@.n_places(),
            old(self).net@.is_free(return_flow.index),
            data_return.wf(old(self).net@),
            forall|j: int| 0 <= j < args@.len() ==> (#[trigger] args@[j]).wf(old(self).net@),
        ensures
            final(self).wf(),
            NetView::extends(old(self).net@, final(self).net@),
            final(self).call_stack.stack@ == old(self).call_stack.stack@,
            final(self).unwind_abort_place == old(self).unwind_abort_place,
            final(self).program_end_place == old(self).program_end_place,
            (old(self).call_stack.stack@.len() == 0 && r is Ok) ==> ({
                // the root frame creates the shared constants place: a
                // conserved group of one place holding one token
                &&& final(self).net@.marking[old(self).net@.n_places() as int] == 1
                &&& final(self).net@.grouped(old(self).net@.n_places() as usize)
            }),
        decreases depth, 4int,
    {
        self.mark_visited(function);
        let n_blocks: usize;
        let local_count: usize;
        let promoted_count: usize;
        match &program.functions[function].body {
            Some(b) => {
                n_blocks = b.blocks.len();
                local_count = b.local_count;
                promoted_count = b.promoted_count;
            },
            None => {
                return Err(PetriError::FunctionNotFound);
            },
        }
        let ghost o0 = self.net@;
        // the root frame creates the constants space; every other frame
        // shares its caller's constants and promoted spaces
        let const_memory: Data;
        let mut static_memory: Vec<Data>;
        if self.call_stack.is_empty() {
            let c = self.net.add_data_place(Some(String::from_str("CONSTANTS")), 1);
            const_memory = Data::Constant(c);
            static_memory = Vec::new();
            proof {
                laws::lemma_slot_sums_extends_other(o0, self.net@);
                assert(NetView::extends(o0, self.net@));
                assert(const_memory matches Data::Constant(c2) && c2.index
                    < self.net@.n_places() && self.net@.grouped(c2.index));
            }
        } else {
            match self.call_stack.peek() {
                Some(caller) => {
                    const_memory = *caller.constants();
                    static_memory = crate::petri_net::function::copy_data_vec(caller.statics());
                    proof {
                        assert(caller.wf(o0));
                        assert(NetView::extends(o0, self.net@));
                        assert(const_memory matches Data::Constant(c2) && c2.index
                            < self.net@.n_places() && self.net@.grouped(c2.index));
                    }
                },
                None => {
                    proof {
                        assert(false);
                    }
                    return Err(PetriError::ActiveBlockMissing);
                },
            }
        }
        let ghost o1 = self.net@;
        proof {
            assert(NetView::extends(o0, o1));
            lemma_stack_wf_extends(self.call_stack.stack@, o0, o1);
            lemma_mutex_list_wf_extends(self.mutex_list, o0, o1);
            assert forall|j: int|
                0 <= j < static_memory@.len() implies ((#[trigger] static_memory@[j])
                matches Data::Static(p) && p.index < o1.n_places() && o1.grouped(p.index)) by {
                match static_memory@[j] {
                    Data::Static(p) => {
                        lemma_extends_grouped_place(o0, o1, p.index);
                    },
                    _ => {},
                }
            }
        }
        // allocate places for promoted constants this body adds
        while static_memory.len() < promoted_count
            invariant
                self.wf(),
                NetView::extends(old(self).net@, self.net@),
                NetView::extends(o1, self.net@),
                self.call_stack.stack@ == old(self).call_stack.stack@,
                self.unwind_abort_place == old(self).unwind_abort_place,
                self.program_end_place == old(self).program_end_place,
                const_memory matches Data::Constant(c) && c.index < self.net@.n_places()
                    && self.net@.grouped(c.index),
                forall|j: int|
                    0 <= j < static_memory@.len() ==> ((#[trigger] static_memory@[j])
                        matches Data::Static(p) && p.index < self.net@.n_places()
                        && self.net@.grouped(p.index)),
                start_place.index < self.net@.n_places(),
                self.net@.is_free(start_place.index),
                return_flow.index < self.net@.n_places(),
                self.net@.is_free(return_flow.index),
                data_return.wf(self.net@),
                forall|j: int| 0 <= j < args@.len() ==> (#[trigger] args@[j]).wf(self.net@),
            decreases promoted_count - static_memory@.len(),
        {
            let idx = static_memory.len();
            let mut nm = String::from_str("Promoted_");
            crate::util::push_str(&mut nm, crate::util::dec_u64(idx as u64).as_str());
            crate::util::push_str(&mut nm, " ");
            crate::util::push_str(&mut nm, fn_name.as_str());
            let ghost prev = self.net@;
            let p = self.net.add_data_place(Some(nm), 0);
            static_memory.push(Data::Static(p));
            proof {
                let v = self.net@;
                laws::lemma_slot_sums_extends_other(prev, v);
                lemma_extends_trans(old(self).net@, prev, v);
                lemma_extends_trans(o1, prev, v);
                lemma_stack_wf_extends(self.call_stack.stack@, prev, v);
                lemma_mutex_list_wf_extends(self.mutex_list, prev, v);
                crate::petri_net::petri_net::lemma_extends_free(prev, v, start_place.index);
                crate::petri_net::petri_net::lemma_extends_free(prev, v, return_flow.index);
                crate::petri_net::petri_net::lemma_extends_free(
                    prev,
                    v,
                    self.unwind_abort_place.index,
                );
                match self.program_end_place {
                    Some(pe) => {
                        crate::petri_net::petri_net::lemma_extends_free(prev, v, pe.index);
                    },
                    None => {},
                }
                match const_memory {
                    Data::Constant(c) => {
                        lemma_extends_grouped_place(prev, v, c.index);
                    },
                    _ => {},
                }
                assert forall|j: int|
                    0 <= j < static_memory@.len() implies ((#[trigger] static_memory@[j])
                    matches Data::Static(q) && q.index < v.n_places() && v.grouped(q.index)) by {
                    match static_memory@[j] {
                        Data::Static(q) => {
                            if j < static_memory@.len() - 1 {
                                lemma_extends_grouped_place(prev, v, q.index);
                            } else {
                                assert(static_memory@[j] == Data::Static(p));
                            }
                        },
                        _ => {},
                    }
                }
                lemma_local_wf_extends(data_return, prev, v);
                assert forall|j: int| 0 <= j < args@.len() implies (#[trigger] args@[j]).wf(v) by {
                    lemma_local_wf_extends(args@[j], prev, v);
                }
            }
        }
        let ghost o2 = self.net@;
        let frame = Function::new(
            fn_name,
            &mut self.net,
            args,
            data_return,
            start_place,
            &const_memory,
            &static_memory,
            return_flow,
            local_count,
            n_blocks,
        );
        let ghost o3 = self.net@;
        proof {
            lemma_extends_trans(old(self).net@, o2, o3);
            lemma_stack_wf_extends(self.call_stack.stack@, o2, o3);
            lemma_mutex_list_wf_extends(self.mutex_list, o2, o3);
            crate::petri_net::petri_net::lemma_extends_free(o2, o3, self.unwind_abort_place.index);
            match self.program_end_place {
                Some(pe) => {
                    crate::petri_net::petri_net::lemma_extends_free(o2, o3, pe.index);
                },
                None => {},
            }
        }
        self.call_stack.push(frame);
        proof {
            assert forall|i: int|
                0 <= i < self.call_stack.stack@.len() implies (
            #[trigger] self.call_stack.stack@[i]).wf(o3) by {
                if i < old(self).call_stack.stack@.len() {
                    assert(self.call_stack.stack@[i] == old(self).call_stack.stack@[i]);
                } else {
                    assert(self.call_stack.stack@[i] == frame);
                }
            }
        }
        let ghost pushed = self.call_stack.stack@;
        let r = self.visit_body(program, function, depth);
        let ghost after_visit = self.call_stack.stack@;
        let popped = self.call_stack.pop();
        proof {
            assert(after_visit.len() == pushed.len());
            assert(self.call_stack.stack@ == after_visit.drop_last());
            assert forall|i: int|
                0 <= i < old(self).call_stack.stack@.len() implies self.call_stack.stack@[i]
                == #[trigger] old(self).call_stack.stack@[i] by {
                assert(after_visit[i] == pushed[i]);
                assert(pushed[i] == old(self).call_stack.stack@[i]);
            }
            assert(self.call_stack.stack@ =~= old(self).call_stack.stack@);
            assert forall|i: int|
                0 <= i < self.call_stack.stack@.len() implies (
            #[trigger] self.call_stack.stack@[i]).wf(self.net@) by {
                assert(after_visit[i].wf(self.net@));
            }
            lemma_extends_trans(old(self).net@, o3, self.net@);
        }
        match r {
            Ok(_) => {
                proof {
                    lemma_extends_trans(o1, o2, o3);
                    lemma_extends_trans(o1, o3, self.net@);
                    if old(self).call_stack.stack@.len() == 0 {
                        match const_memory {
                            Data::Constant(c) => {
                                assert(c.index == old(self).net@.n_places());
                                assert(self.net@.marking[c.index as int] == o1.marking[c.index as int]);
                                lemma_extends_grouped_place(o1, self.net@, c.index);
                            },
                            _ => {},
                        }
                    }
                }
                Ok(())
            },
            Err(e) => Err(e),
        }
    }

    /// Visit every block of a body in index order.
    fn visit_body(&mut self, program: &llir::Program, function: usize, depth: u64) -> (r: Result<
        (),
        PetriError,
    >)
        requires
            old(self).wf(),
            depth >= 1,
            old(self).call_stack.stack@.len() > 0,
        ensures
            final(self).wf(),
            NetView::extends(old(self).net@, final(self).net@),
            final(self).call_stack.stack@.len() == old(self).call_stack.stack@.len(),
            forall|i: int|
                0 <= i < old(self).call_stack.stack@.len() - 1
                    ==> final(self).call_stack.stack@[i] == #[trigger] old(
                    self,
                ).call_stack.stack@[i],
            final(self).unwind_abort_place == old(self).unwind_abort_place,
            final(self).program_end_place == old(self).program_end_place,
        decreases depth, 3int,
    {
        if function >= program.functions.len() {
            return Err(PetriError::FunctionNotFound);
        }
        let n_blocks = match &program.functions[function].body {
            Some(b) => b.blocks.len(),
            None => {
                return Err(PetriError::FunctionNotFound);
            },
        };
        let mut b: usize = 0;
        while b < n_blocks
            invariant
                self.wf(),
                depth >= 1,
                function < program.functions@.len(),
                program.functions@[function as int].body is Some,
                NetView::extends(old(self).net@, self.net@),
                self.call_stack.stack@.len() == old(self).call_stack.stack@.len(),
                old(self).call_stack.stack@.len() > 0,
                forall|i: int|
                    0 <= i < old(self).call_stack.stack@.len() - 1
                        ==> self.call_stack.stack@[i] == #[trigger] old(
                        self,
                    ).call_stack.stack@[i],
                self.unwind_abort_place == old(self).unwind_abort_place,
                self.program_end_place == old(self).program_end_place,
            decreases n_blocks - b,
        {
            let ghost prev = self.net@;
            let r = self.visit_basic_block_data(program, function, b, depth);
            proof {
                lemma_extends_trans(old(self).net@, prev, self.net@);
            }
            match r {
                Ok(_) => {},
                Err(e) => {
                    return Err(e);
                },
            }
            b = b + 1;
        }
        Ok(())
    }

    /// Visit one block: activate it, lower its statements in order, close
    /// the statement chain, and dispatch the terminator.
    fn visit_basic_block_data(
        &mut self,
        program: &llir::Program,
        function: usize,
        block: usize,
        depth: u64,
    ) -> (r: Result<(), PetriError>)
        requires
            old(self).wf(),
            depth >= 1,
            old(self).call_stack.stack@.len() > 0,
            function < program.functions@.len(),
            program.functions@[function as int].body is Some,
        ensures
            final(self).wf(),
            NetView::extends(old(self).net@, final(self).net@),
            final(self).call_stack.stack@.len() == old(self).call_stack.stack@.len(),
            forall|i: int|
                0 <= i < old(self).call_stack.stack@.len() - 1
                    ==> final(self).call_stack.stack@[i] == #[trigger] old(
                    self,
                ).call_stack.stack@[i],
            final(self).unwind_abort_place == old(self).unwind_abort_place,
            final(self).program_end_place == old(self).program_end_place,
        decreases depth, 2int,
    {
        let ghost o0 = self.net@;
        let r_act = match self.call_stack.peek_mut() {
            Some(f) => f.activate_block(&mut self.net, block),
            None => Err(PetriError::ActiveBlockMissing),
        };
        proof {
            lemma_stack_update_wf(
                old(self).call_stack.stack@,
                self.call_stack.stack@,
                o0,
                self.net@,
            );
        }
        match r_act {
            Ok(_) => {},
            Err(e) => {
                return Err(e);
            },
        }
        let n_statements = match &program.functions[function].body {
            Some(b) => {
                if block < b.blocks.len() {
                    b.blocks[block].statements.len()
                } else {
                    return Err(PetriError::BlockNotFound);
                }
            },
            None => {
                return Err(PetriError::FunctionNotFound);
            },
        };
        let mut s: usize = 0;
        while s < n_statements
            invariant
                self.wf(),
                function < program.functions@.len(),
                program.functions@[function as int].body matches Some(body) && block
                    < body.blocks@.len() && n_statements == body.blocks@[block as int].statements@.len(),
                NetView::extends(old(self).net@, self.net@),
                self.call_stack.stack@.len() == old(self).call_stack.stack@.len(),
                old(self).call_stack.stack@.len() > 0,
                forall|i: int|
                    0 <= i < old(self).call_stack.stack@.len() - 1
                        ==> self.call_stack.stack@[i] == #[trigger] old(
                        self,
                    ).call_stack.stack@[i],
                self.unwind_abort_place == old(self).unwind_abort_place,
                self.program_end_place == old(self).program_end_place,
            decreases n_statements - s,
        {
            let ghost prev = self.net@;
            let r_s = match &program.functions[function].body {
                Some(b) => {
                    let stmt = &b.blocks[block].statements[s];
                    self.visit_statement(stmt)
                },
                None => Err(PetriError::FunctionNotFound),
            };
            proof {
                lemma_extends_trans(old(self).net@, prev, self.net@);
            }
            match r_s {
                Ok(_) => {},
                Err(e) => {
                    return Err(e);
                },
            }
            s = s + 1;
        }
        let ghost o2 = self.net@;
        let r_term = match &program.functions[function].body {
            Some(b) => {
                let term = &b.blocks[block].terminator;
                self.visit_terminator_kind(program, term, depth)
            },
            None => Err(PetriError::FunctionNotFound),
        };
        proof {
            lemma_extends_trans(old(self).net@, o2, self.net@);
        }
        r_term
    }

    /// Mutex identity propagation for one statement, then its lowering.
    /// An assignment whose source operand names a linked slot links the
    /// destination slot to the same mutex.
    fn visit_statement(&mut self, statement: &llir::Stmt) -> (r: Result<(), PetriError>)
        requires
            old(self).wf(),
            old(self).call_stack.stack@.len() > 0,
        ensures
            final(self).mutex_list.list@ == old(self).mutex_list.list@,
            final(self).mutex_list.guards@ == old(self).mutex_list.guards@,
            (match *statement {
                llir::Stmt::Assign(dest, rv) => (match spec_assign_source(
                    rv,
                    old(self).call_stack.stack@.last().virt_memory,
                ) {
                    Some(l) => (match crate::petri_net::unique_functions::assoc(
                        old(self).mutex_list.links@,
                        l.live_place.index,
                    ) {
                        Some(m) => if crate::petri_net::function::spec_place_ok(
                            dest,
                            old(self).call_stack.stack@.last().virt_memory,
                        ) {
                            final(self).mutex_list.links@ == old(self).mutex_list.links@.push(
                                (
                                    crate::petri_net::function::spec_place_local(
                                        dest,
                                        old(self).call_stack.stack@.last().virt_memory,
                                    ).live_place.index,
                                    m,
                                ),
                            )
                        } else {
                            final(self).mutex_list.links@ == old(self).mutex_list.links@
                        },
                        None => final(self).mutex_list.links@ == old(self).mutex_list.links@,
                    }),
                    None => final(self).mutex_list.links@ == old(self).mutex_list.links@,
                }),
                _ => final(self).mutex_list.links@ == old(self).mutex_list.links@,
            }),
            final(self).wf(),
            NetView::extends(old(self).net@, final(self).net@),
            final(self).call_stack.stack@.len() == old(self).call_stack.stack@.len(),
            forall|i: int|
                0 <= i < old(self).call_stack.stack@.len() - 1
                    ==> final(self).call_stack.stack@[i] == #[trigger] old(
                    self,
                ).call_stack.stack@[i],
            final(self).unwind_abort_place == old(self).unwind_abort_place,
            final(self).program_end_place == old(self).program_end_place,
    {
        let ghost o0 = self.net@;
        match statement {
            llir::Stmt::Assign(dest, rvalue) => {
                let source_local: Option<Local> = match self.call_stack.peek() {
                    Some(f) => match rvalue {
                        llir::Rvalue::Use(op) | llir::Rvalue::Repeat(op) | llir::Rvalue::Cast(
                            op,
                        ) => f.op_to_local(op),
                        llir::Rvalue::Ref(p) | llir::Rvalue::Discriminant(p)
                        | llir::Rvalue::AddressOf(p) => {
                            match f.place_to_local(p) {
                                Ok(l) => Some(l),
                                Err(_) => None,
                            }
                        },
                        _ => None,
                    },
                    None => None,
                };
                match source_local {
                    Some(l) => {
                        match self.mutex_list.is_linked(&l) {
                            Some(m) => {
                                proof {
                                    crate::petri_net::unique_functions::lemma_assoc_found(
                                        self.mutex_list.links@,
                                        l.live_place.index,
                                        m,
                                    );
                                }
                                let dest_local: Option<Local> = match self.call_stack.peek() {
                                    Some(f) => match f.place_to_local(dest) {
                                        Ok(d) => Some(d),
                                        Err(_) => None,
                                    },
                                    None => None,
                                };
                                match dest_local {
                                    Some(d) => {
                                        self.mutex_list.link(&d, m);
                                        proof {
                                            assert(self.mutex_list.wf(self.net@));
                                        }
                                    },
                                    None => {},
                                }
                            },
                            None => {},
                        }
                    },
                    None => {},
                }
            },
            _ => {},
        }
        let r = match self.call_stack.peek_mut() {
            Some(f) => f.add_statement(&mut self.net, statement, &self.mutex_list),
            None => Err(PetriError::ActiveBlockMissing),
        };
        proof {
            lemma_stack_update_wf(
                old(self).call_stack.stack@,
                self.call_stack.stack@,
                o0,
                self.net@,
            );
            lemma_mutex_list_wf_extends(self.mutex_list, o0, self.net@);
            crate::petri_net::petri_net::lemma_extends_free(
                o0,
                self.net@,
                self.unwind_abort_place.index,
            );
            match self.program_end_place {
                Some(pe) => {
                    crate::petri_net::petri_net::lemma_extends_free(o0, self.net@, pe.index);
                },
                None => {},
            }
        }
        r
    }

    /// Lower one terminator.  Call terminators first propagate mutex
    /// identity from linked arguments to the destination slot, then are
    /// classified: panic entry points fall into unwind-abort, recognised
    /// primitives get their dedicated subnets, foreign callees are
    /// emulated, and every other callee is inlined at the call site.
    fn visit_terminator_kind(
        &mut self,
        program: &llir::Program,
        terminator: &llir::Terminator,
        depth: u64,
    ) -> (r: Result<(), PetriError>)
        requires
            old(self).wf(),
            depth >= 1,
            old(self).call_stack.stack@.len() > 0,
        ensures
            final(self).wf(),
            NetView::extends(old(self).net@, final(self).net@),
            final(self).call_stack.stack@.len() == old(self).call_stack.stack@.len(),
            forall|i: int|
                0 <= i < old(self).call_stack.stack@.len() - 1
                    ==> final(self).call_stack.stack@[i] == #[trigger] old(
                    self,
                ).call_stack.stack@[i],
            final(self).unwind_abort_place == old(self).unwind_abort_place,
            final(self).program_end_place == old(self).program_end_place,
            (r is Ok && ((*terminator) is Return || (*terminator) is Goto || (*terminator)
                is Resume || (*terminator) is Abort))
                ==> final(self).net@.n_transitions() > old(self).net@.n_transitions(),
            !((*terminator) is Call) ==> final(self).mutex_list == old(self).mutex_list,
            ((*terminator) is Return || (*terminator) is Unreachable || (*terminator) is Resume
                || (*terminator) is Abort) ==> (r is Ok <==> old(
                self,
            ).call_stack.stack@.last().active_set()),
            *terminator matches llir::Terminator::Goto { target } ==> (r is Ok <==> (old(
                self,
            ).call_stack.stack@.last().active_set() && target < old(
                self,
            ).call_stack.stack@.last().basic_blocks@.len())),
            *terminator matches llir::Terminator::SwitchInt { discr: _, targets } ==> (r is Ok
                <==> (old(self).call_stack.stack@.last().active_set() && forall|k: int|
                0 <= k < targets@.len() ==> #[trigger] targets@[k] < old(
                    self,
                ).call_stack.stack@.last().basic_blocks@.len())),
            *terminator matches llir::Terminator::Drop { place: _, target, unwind } ==> (r is Ok
                <==> (old(self).call_stack.stack@.last().active_set() && target < old(
                self,
            ).call_stack.stack@.last().basic_blocks@.len() && (unwind matches Some(u) ==> u
                < old(self).call_stack.stack@.last().basic_blocks@.len()))),
            *terminator matches llir::Terminator::Assert {
                cond,
                expected: _,
                target,
                cleanup,
            } ==> (r is Ok <==> (old(self).call_stack.stack@.last().active_set() && target < old(
                self,
            ).call_stack.stack@.last().basic_blocks@.len() && (cleanup matches Some(u) ==> u
                < old(self).call_stack.stack@.last().basic_blocks@.len())
                && crate::petri_net::function::spec_op_ok(
                cond,
                old(self).call_stack.stack@.last().virt_memory,
            ))),
            *terminator matches llir::Terminator::Call {
                func: llir::Callee::FnPtr,
                args: _,
                destination: _,
                cleanup: _,
            } ==> r == (if old(self).call_stack.stack@.last().active_set() {
                Result::<(), PetriError>::Err(PetriError::IndirectCall)
            } else {
                Result::<(), PetriError>::Err(PetriError::ActiveBlockMissing)
            }),
        decreases depth, 1int,
    {
        let ghost o0 = self.net@;
        // propagate mutex identity through call arguments
        match terminator {
            llir::Terminator::Call { func: _, args, destination, cleanup: _ } => {
                let mut i: usize = 0;
                while i < args.len()
                    invariant
                        self.wf(),
                        self.net == old(self).net,
                        self.call_stack == old(self).call_stack,
                        self.unwind_abort_place == old(self).unwind_abort_place,
                        self.program_end_place == old(self).program_end_place,
                    decreases args@.len() - i,
                {
                    let source_local: Option<Local> = match self.call_stack.peek() {
                        Some(f) => f.op_to_local(&args[i]),
                        None => None,
                    };
                    match source_local {
                        Some(l) => {
                            match self.mutex_list.is_linked(&l) {
                                Some(m) => {
                                    proof {
                                        crate::petri_net::unique_functions::lemma_assoc_found(
                                            self.mutex_list.links@,
                                            l.live_place.index,
                                            m,
                                        );
                                    }
                                    let dest_local: Option<Local> = match destination {
                                        Some((dp, _)) => {
                                            match self.call_stack.peek() {
                                                Some(f) => match f.place_to_local(dp) {
                                                    Ok(d) => Some(d),
                                                    Err(_) => None,
                                                },
                                                None => None,
                                            }
                                        },
                                        None => None,
                                    };
                                    match dest_local {
                                        Some(d) => {
                                            self.mutex_list.link(&d, m);
                                            proof {
                                                assert(self.mutex_list.wf(self.net@));
                                            }
                                        },
                                        None => {},
                                    }
                                },
                                None => {},
                            }
                        },
                        None => {},
                    }
                    i = i + 1;
                }
            },
            _ => {},
        }
        // close the active block's statement chain
        let r_fin = match self.call_stack.peek() {
            Some(f) => f.finish_basic_block(&mut self.net),
            None => Err(PetriError::ActiveBlockMissing),
        };
        let ghost o1 = self.net@;
        proof {
            lemma_stack_wf_extends(self.call_stack.stack@, o0, o1);
            lemma_mutex_list_wf_extends(self.mutex_list, o0, o1);
            crate::petri_net::petri_net::lemma_extends_free(
                o0,
                o1,
                self.unwind_abort_place.index,
            );
            match self.program_end_place {
                Some(pe) => {
                    crate::petri_net::petri_net::lemma_extends_free(o0, o1, pe.index);
                },
                None => {},
            }
        }
        match r_fin {
            Ok(_) => {},
            Err(e) => {
                return Err(e);
            },
        }
        match terminator {
            llir::Terminator::Return => {
                let r = match self.call_stack.peek_mut() {
                    Some(f) => f.retorn(&mut self.net),
                    None => Err(PetriError::ActiveBlockMissing),
                };
                proof {
                    lemma_stack_update_wf(
                        old(self).call_stack.stack@,
                        self.call_stack.stack@,
                        o1,
                        self.net@,
                    );
                    lemma_extends_trans(o0, o1, self.net@);
                }
                r
            },
            llir::Terminator::Goto { target } => {
                let r = match self.call_stack.peek_mut() {
                    Some(f) => f.goto(&mut self.net, *target),
                    None => Err(PetriError::ActiveBlockMissing),
                };
                proof {
                    lemma_stack_update_wf(
                        old(self).call_stack.stack@,
                        self.call_stack.stack@,
                        o1,
                        self.net@,
                    );
                    lemma_extends_trans(o0, o1, self.net@);
                }
                r
            },
            llir::Terminator::SwitchInt { discr: _, targets } => {
                let r = match self.call_stack.peek_mut() {
                    Some(f) => f.switch_int(&mut self.net, targets),
                    None => Err(PetriError::ActiveBlockMissing),
                };
                proof {
                    lemma_stack_update_wf(
                        old(self).call_stack.stack@,
                        self.call_stack.stack@,
                        o1,
                        self.net@,
                    );
                    lemma_extends_trans(o0, o1, self.net@);
                }
                r
            },
            llir::Terminator::Resume => {
                let r = match self.call_stack.peek_mut() {
                    Some(f) => f.resume(&mut self.net, self.unwind_abort_place),
                    None => Err(PetriError::ActiveBlockMissing),
                };
                proof {
                    lemma_stack_update_wf(
                        old(self).call_stack.stack@,
                        self.call_stack.stack@,
                        o1,
                        self.net@,
                    );
                    lemma_extends_trans(o0, o1, self.net@);
                }
                r
            },
            llir::Terminator::Abort => {
                let r = match self.call_stack.peek_mut() {
                    Some(f) => f.handle_panic(&mut self.net, self.unwind_abort_place),
                    None => Err(PetriError::ActiveBlockMissing),
                };
                proof {
                    lemma_stack_update_wf(
                        old(self).call_stack.stack@,
                        self.call_stack.stack@,
                        o1,
                        self.net@,
                    );
                    lemma_extends_trans(o0, o1, self.net@);
                }
                r
            },
            llir::Terminator::Unreachable => Ok(()),
            llir::Terminator::Drop { place, target, unwind } => {
                let r = match self.call_stack.peek_mut() {
                    Some(f) => f.drop(&mut self.net, place, *target, *unwind, &self.mutex_list),
                    None => Err(PetriError::ActiveBlockMissing),
                };
                proof {
                    lemma_stack_update_wf(
                        old(self).call_stack.stack@,
                        self.call_stack.stack@,
                        o1,
                        self.net@,
                    );
                    lemma_extends_trans(o0, o1, self.net@);
                }
                r
            },
            llir::Terminator::Assert { cond, expected, target, cleanup } => {
                let r = match self.call_stack.peek_mut() {
                    Some(f) => f.assert_term(&mut self.net, cond, *expected, *target, *cleanup),
                    None => Err(PetriError::ActiveBlockMissing),
                };
                proof {
                    lemma_stack_update_wf(
                        old(self).call_stack.stack@,
                        self.call_stack.stack@,
                        o1,
                        self.net@,
                    );
                    lemma_extends_trans(o0, o1, self.net@);
                }
                r
            },
            llir::Terminator::Call { func, args, destination, cleanup } => {
                let callee = match func {
                    llir::Callee::Fn(id) => *id,
                    llir::Callee::FnPtr => {
                        return Err(PetriError::IndirectCall);
                    },
                };
                if callee >= program.functions.len() {
                    return Err(PetriError::FunctionNotFound);
                }
                if Translator::is_panic(program.functions[callee].name.as_str()) {
                    let r = match self.call_stack.peek_mut() {
                        Some(f) => f.handle_panic(&mut self.net, self.unwind_abort_place),
                        None => Err(PetriError::ActiveBlockMissing),
                    };
                    proof {
                        lemma_stack_update_wf(
                            old(self).call_stack.stack@,
                            self.call_stack.stack@,
                            o1,
                            self.net@,
                        );
                        lemma_extends_trans(o0, o1, self.net@);
                    }
                    return r;
                }
                let foreign = match &program.functions[callee].body {
                    Some(_) => false,
                    None => true,
                };
                if foreign {
                    let r = match self.call_stack.peek_mut() {
                        Some(f) => f.emulate_foreign(
                            &mut self.net,
                            program.functions[callee].name.as_str(),
                            args,
                            destination,
                            *cleanup,
                            self.unwind_abort_place,
                        ),
                        None => Err(PetriError::ActiveBlockMissing),
                    };
                    proof {
                        lemma_stack_update_wf(
                            old(self).call_stack.stack@,
                            self.call_stack.stack@,
                            o1,
                            self.net@,
                        );
                        lemma_extends_trans(o0, o1, self.net@);
                    }
                    return r;
                }
                // a regular callee: inline it at this call site
                let (return_place, return_block) = match destination {
                    Some((p, b)) => (p, *b),
                    None => {
                        return Err(PetriError::DivergingCall);
                    },
                };
                let start_place: Place;
                let data_return: Local;
                let mut args_locals: Vec<Local> = Vec::new();
                match self.call_stack.peek() {
                    Some(f) => {
                        start_place = match f.function_call_start_place() {
                            Ok(p) => p,
                            Err(e) => {
                                return Err(e);
                            },
                        };
                        data_return = match return_place {
                            llir::PlaceBase::Local(l) => {
                                match f.get_local(*l) {
                                    Some(loc) => *loc,
                                    None => {
                                        return Err(PetriError::LocalNotFound);
                                    },
                                }
                            },
                            llir::PlaceBase::Promoted(_) => {
                                return Err(PetriError::LocalNotFound);
                            },
                        };
                        let ghost snap = *self;
                        let mut i: usize = 0;
                        while i < args.len()
                            invariant
                                (*terminator) is Call,
                                !(*terminator matches llir::Terminator::Call {
                                    func: llir::Callee::FnPtr,
                                    args: _,
                                    destination: _,
                                    cleanup: _,
                                }),
                                *self == snap,
                                snap.wf(),
                                o1 == snap.net@,
                                NetView::extends(old(self).net@, snap.net@),
                                snap.call_stack.stack@.len() == old(self).call_stack.stack@.len(),
                                forall|k: int|
                                    0 <= k < old(self).call_stack.stack@.len() - 1
                                        ==> snap.call_stack.stack@[k] == #[trigger] old(
                                        self,
                                    ).call_stack.stack@[k],
                                snap.unwind_abort_place == old(self).unwind_abort_place,
                                snap.program_end_place == old(self).program_end_place,
                                f.wf(o1),
                                forall|k: int|
                                    0 <= k < args_locals@.len() ==> (#[trigger] args_locals@[k]).wf(
                                        o1,
                                    ),
                            decreases args@.len() - i,
                        {
                            match &args[i] {
                                llir::Operand::Copy(p) | llir::Operand::Move(p) => {
                                    match f.place_to_local(p) {
                                        Ok(l) => {
                                            proof {
                                                match *p {
                                                    llir::PlaceBase::Local(lid) => {
                                                        assert(f.virt_memory.locals@[lid as int]
                                                            == crate::petri_net::function::Data::Local(l));
                                                        assert(l.wf(o1));
                                                    },
                                                    llir::PlaceBase::Promoted(st) => {
                                                        assert(f.virt_memory.statics@[st as int]
                                                            == crate::petri_net::function::Data::Static(l.live_place));
                                                        assert(l.wf(o1));
                                                    },
                                                }
                                            }
                                            args_locals.push(l);
                                        },
                                        Err(e) => {
                                            return Err(e);
                                        },
                                    }
                                },
                                llir::Operand::Constant => {
                                    match f.virt_memory.get_constant() {
                                        Ok(c) => {
                                            let cl = Local::new_constant(c);
                                            proof {
                                                assert(cl.wf(o1));
                                            }
                                            args_locals.push(cl);
                                        },
                                        Err(e) => {
                                            proof {
                                                assert(false);
                                            }
                                            return Err(e);
                                        },
                                    }
                                },
                            }
                            i = i + 1;
                        }
                    },
                    None => {
                        return Err(PetriError::ActiveBlockMissing);
                    },
                }
                let return_flow = match self.call_stack.peek_mut() {
                    Some(f) => {
                        match f.get_basic_block_start(&mut self.net, return_block) {
                            Ok(p) => p,
                            Err(e) => {
                                proof {
                                    lemma_stack_update_wf(
                                        old(self).call_stack.stack@,
                                        self.call_stack.stack@,
                                        o1,
                                        self.net@,
                                    );
                                    lemma_extends_trans(o0, o1, self.net@);
                                }
                                return Err(e);
                            },
                        }
                    },
                    None => {
                        return Err(PetriError::ActiveBlockMissing);
                    },
                };
                let ghost o2 = self.net@;
                proof {
                    lemma_stack_update_wf(
                        old(self).call_stack.stack@,
                        self.call_stack.stack@,
                        o1,
                        o2,
                    );
                    lemma_mutex_list_wf_extends(self.mutex_list, o1, o2);
                    crate::petri_net::petri_net::lemma_extends_free(
                        o1,
                        o2,
                        self.unwind_abort_place.index,
                    );
                    match self.program_end_place {
                        Some(pe) => {
                            crate::petri_net::petri_net::lemma_extends_free(o1, o2, pe.index);
                        },
                        None => {},
                    }
                    crate::petri_net::petri_net::lemma_extends_free(o1, o2, start_place.index);
                    lemma_local_wf_extends(data_return, o1, o2);
                    assert forall|k: int|
                        0 <= k < args_locals@.len() implies (#[trigger] args_locals@[k]).wf(
                        o2,
                    ) by {
                        lemma_local_wf_extends(args_locals@[k], o1, o2);
                    }
                }
                let ghost stack_before = self.call_stack.stack@;
                let r = self.translate(
                    program,
                    callee,
                    &args_locals,
                    data_return,
                    start_place,
                    return_flow,
                    depth - 1,
                );
                proof {
                    lemma_extends_trans(o1, o2, self.net@);
                    lemma_extends_trans(o0, o1, self.net@);
                }
                r
            },
        }
    }
}

/// Mutex conservation for a translated net: every mutex of the registry
/// has its four state places registered as a conserved group, so exactly
/// one token sits on the quadruple initially and in every marking the
/// token game can reach.  Two lock transitions on one mutex can therefore
/// never both fire, and two frames each holding one lock while waiting for
/// the other deadlock in the over-approximation.
pub proof fn lemma_translated_mutex_conservation(t: Translator, i: int, m2: Seq<int>)
    requires
        t.wf(),
        0 <= i < t.mutex_list.list@.len(),
        laws::reachable(t.net@, laws::marking_of(t.net@), m2),
    ensures
        laws::msum(laws::marking_of(t.net@), t.mutex_list.list@[i].places()) == 1,
        laws::msum(m2, t.mutex_list.list@[i].places()) == 1,
{
    let mx = t.mutex_list.list@[i];
    assert(mx.wf(t.net@));
    laws::lemma_mutex_conservation(t.net@, mx.places(), m2);
}

/// Slot conservation for a translated net: every storage slot's lifecycle
/// triple (uninitialised, live, dead) is registered as a conserved group
/// of three places, so its token sum is one initially and in every
/// reachable marking: exactly one lifecycle state of each slot is marked.
pub proof fn lemma_translated_slot_conservation(t: Translator, ps: Seq<usize>, m2: Seq<int>)
    requires
        t.wf(),
        t.net@.groups.contains(ps),
        ps.len() == 3,
        laws::reachable(t.net@, laws::marking_of(t.net@), m2),
    ensures
        laws::msum(laws::marking_of(t.net@), ps) == 1,
        laws::msum(m2, ps) == 1,
{
    laws::lemma_slot_conservation(t.net@, ps, m2);
}

/// Updating the top frame with a frame valid for the grown net keeps the
/// whole stack valid.
pub proof fn lemma_stack_update_wf(
    old_stack: Seq<Function>,
    new_stack: Seq<Function>,
    o: NetView,
    v: NetView,
)
    requires
        stack_wf(old_stack, o),
        NetView::extends(o, v),
        old_stack.len() > 0,
        new_stack.len() == old_stack.len(),
        forall|i: int| 0 <= i < old_stack.len() - 1 ==> new_stack[i] == #[trigger] old_stack[i],
        new_stack.last().wf(v),
    ensures
        stack_wf(new_stack, v),
{
    assert forall|i: int| 0 <= i < new_stack.len() implies (#[trigger] new_stack[i]).wf(v) by {
        if i < new_stack.len() - 1 {
            lemma_function_wf_extends(old_stack[i], o, v);
        } else {
            assert(new_stack[i] == new_stack.last());
        }
    }
}

} // verus!
