//! End-to-end translations of small programs, checked against the net
//! properties the construction promises: reachability of the program-end
//! place, deadlock of a double lock, and conservation of slot and mutex
//! token sums along every explored marking.

use std::collections::HashSet;
use std::collections::VecDeque;

use granite::llir::{BlockData, Body, Callee, FnDef, Operand, PlaceBase, Program, Rvalue, Stmt, Terminator};
use granite::petri_net::petri_net::PetriNet;
use granite::translator::Translator;

/// The arc structure of a net, read out through the public getters.
struct NetShape {
    n_places: usize,
    n_transitions: usize,
    /// inputs[t]: the places consumed by transition t
    inputs: Vec<Vec<usize>>,
    /// outputs[t]: the places produced by transition t
    outputs: Vec<Vec<usize>>,
    initial: Vec<u64>,
}

fn shape_of(net: &PetriNet) -> NetShape {
    let n_places = net.num_places();
    let n_transitions = net.num_transitions();
    let mut inputs = vec![Vec::new(); n_transitions];
    let mut outputs = vec![Vec::new(); n_transitions];
    for p in 0..n_places {
        for j in 0..net.pt_row_len(p) {
            let t = net.pt_entry(p, j);
            inputs[t].push(p);
        }
    }
    for t in 0..n_transitions {
        for j in 0..net.tp_row_len(t) {
            outputs[t].push(net.tp_entry(t, j));
        }
    }
    let mut initial = Vec::new();
    for p in 0..n_places {
        initial.push(net.marking_at(p));
    }
    NetShape { n_places, n_transitions, inputs, outputs, initial }
}

/// Breadth-first exploration of the token game, bounded by a state budget.
/// Returns all markings reachable from the initial one.
fn explore(shape: &NetShape, budget: usize) -> Vec<Vec<u64>> {
    let mut seen: HashSet<Vec<u64>> = HashSet::new();
    let mut queue: VecDeque<Vec<u64>> = VecDeque::new();
    let mut out = Vec::new();
    seen.insert(shape.initial.clone());
    queue.push_back(shape.initial.clone());
    while let Some(m) = queue.pop_front() {
        out.push(m.clone());
        if out.len() >= budget {
            panic!("state budget exceeded");
        }
        for t in 0..shape.n_transitions {
            if shape.inputs[t].iter().all(|&p| m[p] >= 1) {
                let mut m2 = m.clone();
                for &p in &shape.inputs[t] {
                    m2[p] -= 1;
                }
                for &p in &shape.outputs[t] {
                    m2[p] += 1;
                }
                if seen.insert(m2.clone()) {
                    queue.push_back(m2);
                }
            }
        }
    }
    out
}

fn place_named(net: &PetriNet, wanted: &str) -> Option<usize> {
    for i in 0..net.num_places() {
        if let Some(name) = net.place_name(i) {
            if name.as_str() == wanted {
                return Some(i);
            }
        }
    }
    None
}

fn marked_reachable(states: &[Vec<u64>], place: usize) -> bool {
    states.iter().any(|m| m[place] >= 1)
}

/// A `main` whose single block only returns.
fn minimal_program() -> Program {
    Program {
        functions: vec![FnDef {
            name: String::from("main"),
            body: Some(Body {
                arg_count: 0,
                local_count: 1,
                promoted_count: 0,
                blocks: vec![BlockData { statements: vec![], terminator: Terminator::Return }],
            }),
        }],
    }
}

fn mutex_primitive(name: &str) -> FnDef {
    FnDef {
        name: String::from(name),
        body: Some(Body {
            arg_count: 1,
            local_count: 2,
            promoted_count: 0,
            blocks: vec![BlockData { statements: vec![], terminator: Terminator::Return }],
        }),
    }
}

/// One mutex, two consecutive locks; the first guard is dropped before the
/// second lock only when `drop_guard` is set.
fn double_lock_program(drop_guard: bool) -> Program {
    let mut b2_statements = vec![];
    if drop_guard {
        b2_statements.push(Stmt::StorageDead(2));
    }
    b2_statements.push(Stmt::StorageLive(3));
    Program {
        functions: vec![
            FnDef {
                name: String::from("main"),
                body: Some(Body {
                    arg_count: 0,
                    local_count: 4,
                    promoted_count: 0,
                    blocks: vec![
                        BlockData {
                            statements: vec![Stmt::StorageLive(1)],
                            terminator: Terminator::Call {
                                func: Callee::Fn(1),
                                args: vec![Operand::Constant],
                                destination: Some((PlaceBase::Local(1), 1)),
                                cleanup: None,
                            },
                        },
                        BlockData {
                            statements: vec![Stmt::StorageLive(2)],
                            terminator: Terminator::Call {
                                func: Callee::Fn(2),
                                args: vec![Operand::Copy(PlaceBase::Local(1))],
                                destination: Some((PlaceBase::Local(2), 2)),
                                cleanup: None,
                            },
                        },
                        BlockData {
                            statements: b2_statements,
                            terminator: Terminator::Call {
                                func: Callee::Fn(2),
                                args: vec![Operand::Copy(PlaceBase::Local(1))],
                                destination: Some((PlaceBase::Local(3), 3)),
                                cleanup: None,
                            },
                        },
                        BlockData { statements: vec![], terminator: Terminator::Return },
                    ],
                }),
            },
            mutex_primitive("std::sync::Mutex::<T>::new"),
            mutex_primitive("std::sync::Mutex::<T>::lock"),
        ],
    }
}

/// `main` calling a helper function that just returns.
fn function_call_program() -> Program {
    Program {
        functions: vec![
            FnDef {
                name: String::from("main"),
                body: Some(Body {
                    arg_count: 0,
                    local_count: 2,
                    promoted_count: 0,
                    blocks: vec![
                        BlockData {
                            statements: vec![Stmt::StorageLive(1)],
                            terminator: Terminator::Call {
                                func: Callee::Fn(1),
                                args: vec![Operand::Constant],
                                destination: Some((PlaceBase::Local(1), 1)),
                                cleanup: None,
                            },
                        },
                        BlockData {
                            statements: vec![Stmt::StorageDead(1)],
                            terminator: Terminator::Return,
                        },
                    ],
                }),
            },
            FnDef {
                name: String::from("helper"),
                body: Some(Body {
                    arg_count: 1,
                    local_count: 2,
                    promoted_count: 0,
                    blocks: vec![BlockData {
                        statements: vec![],
                        terminator: Terminator::Return,
                    }],
                }),
            },
        ],
    }
}

fn translate(program: &Program) -> Translator {
    let mut translator = Translator::new();
    translator.petrify(program, 0).expect("translation failed");
    translator
}

fn program_end_index(translator: &Translator) -> usize {
    translator.program_end_place.expect("no program end place").index
}

/// Slot and mutex conservation checked on every explored marking: each
/// lifecycle triple and each mutex quadruple keeps a token sum of one.
fn check_conservation(translator: &Translator, states: &[Vec<u64>]) {
    for mutex in &translator.mutex_list.list {
        let quad = [
            mutex.uninitialized.index,
            mutex.unlocked.index,
            mutex.locked.index,
            mutex.dead.index,
        ];
        for m in states {
            let sum: u64 = quad.iter().map(|&p| m[p]).sum();
            assert_eq!(sum, 1, "mutex state sum not conserved");
        }
    }
}

#[test]
fn minimal_program_test() {
    let translator = translate(&minimal_program());
    let shape = shape_of(&translator.net);
    // program start, program end, unwind-abort, constants, the return
    // slot's three lifecycle places, and the single block's exit place
    assert_eq!(shape.n_places, 8);
    // the empty block's bridging transition and the return transition
    assert_eq!(shape.n_transitions, 2);
    assert!(place_named(&translator.net, "unwind_abort").is_some());
    assert!(place_named(&translator.net, "program end").is_some());
    assert!(place_named(&translator.net, "CONSTANTS").is_some());
    assert!(place_named(&translator.net, "main_return uninitialized").is_some());
    assert!(place_named(&translator.net, "main_return live").is_some());
    assert!(place_named(&translator.net, "main_return dead").is_some());
    let states = explore(&shape, 10_000);
    let end = program_end_index(&translator);
    assert!(marked_reachable(&states, end));
    check_conservation(&translator, &states);
}

#[test]
fn minimal_nondeadlock_test() {
    let translator = translate(&double_lock_program(true));
    let shape = shape_of(&translator.net);
    let states = explore(&shape, 100_000);
    let end = program_end_index(&translator);
    // dropping the first guard releases the mutex, so the second lock and
    // the program end stay reachable
    assert!(marked_reachable(&states, end));
    check_conservation(&translator, &states);
}

#[test]
fn minimal_deadlock_test() {
    let translator = translate(&double_lock_program(false));
    let shape = shape_of(&translator.net);
    let states = explore(&shape, 100_000);
    let end = program_end_index(&translator);
    // the second lock can never fire: the program end is unreachable
    assert!(!marked_reachable(&states, end));
    // and a state with the mutex held is reachable
    assert_eq!(translator.mutex_list.list.len(), 1);
    let locked = translator.mutex_list.list[0].locked.index;
    assert!(marked_reachable(&states, locked));
    check_conservation(&translator, &states);
}

#[test]
fn function_call_test() {
    let translator = translate(&function_call_program());
    let shape = shape_of(&translator.net);
    let states = explore(&shape, 100_000);
    let end = program_end_index(&translator);
    assert!(marked_reachable(&states, end));
    check_conservation(&translator, &states);
}

/// `main` assigns a constant to a local, then returns: storage-enter,
/// assign, storage-leave, and return make four linearly chained
/// transitions, and the local is live exactly between enter and leave.
#[test]
fn single_assignment() {
    let program = Program {
        functions: vec![FnDef {
            name: String::from("main"),
            body: Some(Body {
                arg_count: 0,
                local_count: 2,
                promoted_count: 0,
                blocks: vec![BlockData {
                    statements: vec![
                        Stmt::StorageLive(1),
                        Stmt::Assign(PlaceBase::Local(1), Rvalue::Use(Operand::Constant)),
                        Stmt::StorageDead(1),
                    ],
                    terminator: Terminator::Return,
                }],
            }),
        }],
    };
    let translator = translate(&program);
    let shape = shape_of(&translator.net);
    assert_eq!(shape.n_transitions, 4);
    let live = place_named(&translator.net, "main_1 live").expect("live place");
    let states = explore(&shape, 10_000);
    let end = program_end_index(&translator);
    assert!(marked_reachable(&states, end));
    assert!(marked_reachable(&states, live));
    check_conservation(&translator, &states);
    // the live place is marked only strictly between the enter and leave
    // firings: no state holds both the live token and the end token
    assert!(states.iter().all(|m| !(m[live] >= 1 && m[end] >= 1)));
}

/// A switch with two targets both converging on return: both branch
/// transitions are enabled at the switch end, and the program end is
/// reachable through either.
#[test]
fn conditional_branch() {
    let program = Program {
        functions: vec![FnDef {
            name: String::from("main"),
            body: Some(Body {
                arg_count: 0,
                local_count: 1,
                promoted_count: 0,
                blocks: vec![
                    BlockData {
                        statements: vec![],
                        terminator: Terminator::SwitchInt {
                            discr: Operand::Constant,
                            targets: vec![1, 2],
                        },
                    },
                    BlockData { statements: vec![], terminator: Terminator::Goto { target: 3 } },
                    BlockData { statements: vec![], terminator: Terminator::Goto { target: 3 } },
                    BlockData { statements: vec![], terminator: Terminator::Return },
                ],
            }),
        }],
    };
    let translator = translate(&program);
    let shape = shape_of(&translator.net);
    // exactly one program-end place
    let mut end_count = 0;
    for i in 0..translator.net.num_places() {
        if let Some(name) = translator.net.place_name(i) {
            if name.as_str() == "program end" {
                end_count += 1;
            }
        }
    }
    assert_eq!(end_count, 1);
    // two switch transitions leave the block
    let mut switch_count = 0;
    for t in 0..translator.net.num_transitions() {
        if let Some(name) = translator.net.transition_name(t) {
            if name.starts_with("switch int") {
                switch_count += 1;
            }
        }
    }
    assert_eq!(switch_count, 2);
    let states = explore(&shape, 10_000);
    let end = program_end_index(&translator);
    assert!(marked_reachable(&states, end));
    check_conservation(&translator, &states);
}

/// Five mutexes and five call sites, each locking a left fork and then a
/// right one.  Each site alone acquires both of its forks: a state with
/// two locked places marked is reachable, and every mutex's state sum
/// stays one through every explored marking.
#[test]
fn dining_philosophers() {
    // blocks: 0..=4 create the five mutexes; 5 switches over the sites;
    // per site k: two lock calls (blocks 6+2k and 7+2k); 16 joins; 17 returns
    let mut blocks = Vec::new();
    for k in 0..5 {
        blocks.push(BlockData {
            statements: vec![Stmt::StorageLive(1 + k)],
            terminator: Terminator::Call {
                func: Callee::Fn(1),
                args: vec![Operand::Constant],
                destination: Some((PlaceBase::Local(1 + k), k + 1)),
                cleanup: None,
            },
        });
    }
    blocks.push(BlockData {
        statements: vec![],
        terminator: Terminator::SwitchInt {
            discr: Operand::Constant,
            targets: vec![6, 8, 10, 12, 14],
        },
    });
    for k in 0..5usize {
        let left = 1 + k;
        let right = 1 + ((k + 1) % 5);
        blocks.push(BlockData {
            statements: vec![Stmt::StorageLive(6 + 2 * k)],
            terminator: Terminator::Call {
                func: Callee::Fn(2),
                args: vec![Operand::Copy(PlaceBase::Local(left))],
                destination: Some((PlaceBase::Local(6 + 2 * k), 7 + 2 * k)),
                cleanup: None,
            },
        });
        blocks.push(BlockData {
            statements: vec![Stmt::StorageLive(7 + 2 * k)],
            terminator: Terminator::Call {
                func: Callee::Fn(2),
                args: vec![Operand::Copy(PlaceBase::Local(right))],
                destination: Some((PlaceBase::Local(7 + 2 * k), 16)),
                cleanup: None,
            },
        });
    }
    blocks.push(BlockData { statements: vec![], terminator: Terminator::Goto { target: 17 } });
    blocks.push(BlockData { statements: vec![], terminator: Terminator::Return });
    let program = Program {
        functions: vec![
            FnDef {
                name: String::from("main"),
                body: Some(Body {
                    arg_count: 0,
                    local_count: 16,
                    promoted_count: 0,
                    blocks,
                }),
            },
            mutex_primitive("std::sync::Mutex::<T>::new"),
            mutex_primitive("std::sync::Mutex::<T>::lock"),
        ],
    };
    let translator = translate(&program);
    assert_eq!(translator.mutex_list.list.len(), 5);
    let shape = shape_of(&translator.net);
    let states = explore(&shape, 200_000);
    let end = program_end_index(&translator);
    assert!(marked_reachable(&states, end));
    check_conservation(&translator, &states);
    // one site holds its left and right fork at once
    let locked_1 = translator.mutex_list.list[0].locked.index;
    let locked_2 = translator.mutex_list.list[1].locked.index;
    assert!(states.iter().any(|m| m[locked_1] >= 1 && m[locked_2] >= 1));
}

/// A guard destroyed by a drop terminator (rather than a storage
/// statement) also releases its mutex: the second lock stays reachable.
#[test]
fn drop_terminator_releases_guard() {
    let program = Program {
        functions: vec![
            FnDef {
                name: String::from("main"),
                body: Some(Body {
                    arg_count: 0,
                    local_count: 4,
                    promoted_count: 0,
                    blocks: vec![
                        BlockData {
                            statements: vec![Stmt::StorageLive(1)],
                            terminator: Terminator::Call {
                                func: Callee::Fn(1),
                                args: vec![Operand::Constant],
                                destination: Some((PlaceBase::Local(1), 1)),
                                cleanup: None,
                            },
                        },
                        BlockData {
                            statements: vec![Stmt::StorageLive(2)],
                            terminator: Terminator::Call {
                                func: Callee::Fn(2),
                                args: vec![Operand::Copy(PlaceBase::Local(1))],
                                destination: Some((PlaceBase::Local(2), 2)),
                                cleanup: None,
                            },
                        },
                        BlockData {
                            statements: vec![],
                            terminator: Terminator::Drop {
                                place: PlaceBase::Local(2),
                                target: 3,
                                unwind: None,
                            },
                        },
                        BlockData {
                            statements: vec![Stmt::StorageLive(3)],
                            terminator: Terminator::Call {
                                func: Callee::Fn(2),
                                args: vec![Operand::Copy(PlaceBase::Local(1))],
                                destination: Some((PlaceBase::Local(3), 4)),
                                cleanup: None,
                            },
                        },
                        BlockData { statements: vec![], terminator: Terminator::Return },
                    ],
                }),
            },
            mutex_primitive("std::sync::Mutex::<T>::new"),
            mutex_primitive("std::sync::Mutex::<T>::lock"),
        ],
    };
    let translator = translate(&program);
    let shape = shape_of(&translator.net);
    let states = explore(&shape, 100_000);
    let end = program_end_index(&translator);
    assert!(marked_reachable(&states, end));
    check_conservation(&translator, &states);
}

/// An assert terminator with a cleanup block: the target path reaches the
/// program end, the cleanup path exists and leads on to unwind-abort.
#[test]
fn assert_terminator_branches() {
    let program = Program {
        functions: vec![FnDef {
            name: String::from("main"),
            body: Some(Body {
                arg_count: 0,
                local_count: 2,
                promoted_count: 0,
                blocks: vec![
                    BlockData {
                        statements: vec![Stmt::StorageLive(1)],
                        terminator: Terminator::Assert {
                            cond: Operand::Copy(PlaceBase::Local(1)),
                            expected: true,
                            target: 1,
                            cleanup: Some(2),
                        },
                    },
                    BlockData { statements: vec![], terminator: Terminator::Return },
                    BlockData { statements: vec![], terminator: Terminator::Resume },
                ],
            }),
        }],
    };
    let translator = translate(&program);
    let shape = shape_of(&translator.net);
    let states = explore(&shape, 100_000);
    let end = program_end_index(&translator);
    let unwind = translator.unwind_abort_place.index;
    assert!(marked_reachable(&states, end));
    assert!(marked_reachable(&states, unwind));
    check_conservation(&translator, &states);
}

/// A foreign callee with a destination is bridged generically; control
/// reaches the continuation and the program end.
#[test]
fn foreign_call_is_bridged() {
    let program = Program {
        functions: vec![
            FnDef {
                name: String::from("main"),
                body: Some(Body {
                    arg_count: 0,
                    local_count: 2,
                    promoted_count: 0,
                    blocks: vec![
                        BlockData {
                            statements: vec![Stmt::StorageLive(1)],
                            terminator: Terminator::Call {
                                func: Callee::Fn(1),
                                args: vec![Operand::Constant],
                                destination: Some((PlaceBase::Local(1), 1)),
                                cleanup: None,
                            },
                        },
                        BlockData { statements: vec![], terminator: Terminator::Return },
                    ],
                }),
            },
            FnDef { name: String::from("std::intrinsics::transmute"), body: None },
        ],
    };
    let translator = translate(&program);
    let shape = shape_of(&translator.net);
    let states = explore(&shape, 10_000);
    let end = program_end_index(&translator);
    assert!(marked_reachable(&states, end));
    check_conservation(&translator, &states);
}

/// An abort terminator falls into the unwind-abort place; the program end
/// stays unreachable.
#[test]
fn abort_falls_into_unwind_abort() {
    let program = Program {
        functions: vec![FnDef {
            name: String::from("main"),
            body: Some(Body {
                arg_count: 0,
                local_count: 1,
                promoted_count: 0,
                blocks: vec![BlockData { statements: vec![], terminator: Terminator::Abort }],
            }),
        }],
    };
    let translator = translate(&program);
    let shape = shape_of(&translator.net);
    let states = explore(&shape, 10_000);
    let end = program_end_index(&translator);
    let unwind = translator.unwind_abort_place.index;
    assert!(marked_reachable(&states, unwind));
    assert!(!marked_reachable(&states, end));
}

/// A call of a panic entry point falls into the unwind-abort place.
#[test]
fn panic_callee_falls_into_unwind_abort() {
    let program = Program {
        functions: vec![
            FnDef {
                name: String::from("main"),
                body: Some(Body {
                    arg_count: 0,
                    local_count: 2,
                    promoted_count: 0,
                    blocks: vec![
                        BlockData {
                            statements: vec![],
                            terminator: Terminator::Call {
                                func: Callee::Fn(1),
                                args: vec![Operand::Constant],
                                destination: Some((PlaceBase::Local(1), 1)),
                                cleanup: None,
                            },
                        },
                        BlockData { statements: vec![], terminator: Terminator::Return },
                    ],
                }),
            },
            FnDef { name: String::from("core::panicking::panic"), body: None },
        ],
    };
    let translator = translate(&program);
    let shape = shape_of(&translator.net);
    let states = explore(&shape, 10_000);
    let unwind = translator.unwind_abort_place.index;
    assert!(marked_reachable(&states, unwind));
}

/// A switch listing one target twice emits one transition per duplicate.
#[test]
fn duplicate_switch_targets_keep_multiplicity() {
    let program = Program {
        functions: vec![FnDef {
            name: String::from("main"),
            body: Some(Body {
                arg_count: 0,
                local_count: 1,
                promoted_count: 0,
                blocks: vec![
                    BlockData {
                        statements: vec![],
                        terminator: Terminator::SwitchInt {
                            discr: Operand::Constant,
                            targets: vec![1, 1],
                        },
                    },
                    BlockData { statements: vec![], terminator: Terminator::Return },
                ],
            }),
        }],
    };
    let translator = translate(&program);
    let mut switch_count = 0;
    for t in 0..translator.net.num_transitions() {
        if let Some(name) = translator.net.transition_name(t) {
            if name.starts_with("switch int") {
                switch_count += 1;
            }
        }
    }
    assert_eq!(switch_count, 2);
}

/// A promoted constant gets a place of its own with an empty initial
/// marking: only the lifecycle places of regular locals and the shared
/// constants place start marked, so a statement reading the promoted
/// place stays disabled.
#[test]
fn promoted_constants_get_places() {
    let program = Program {
        functions: vec![FnDef {
            name: String::from("main"),
            body: Some(Body {
                arg_count: 0,
                local_count: 2,
                promoted_count: 1,
                blocks: vec![BlockData {
                    statements: vec![
                        Stmt::StorageLive(1),
                        Stmt::Assign(
                            PlaceBase::Local(1),
                            Rvalue::Ref(PlaceBase::Promoted(0)),
                        ),
                        Stmt::StorageDead(1),
                    ],
                    terminator: Terminator::Return,
                }],
            }),
        }],
    };
    let translator = translate(&program);
    let promoted = place_named(&translator.net, "Promoted_0 main").expect("promoted place");
    assert_eq!(translator.net.marking_at(promoted), 0);
    let shape = shape_of(&translator.net);
    let states = explore(&shape, 10_000);
    let end = program_end_index(&translator);
    assert!(!marked_reachable(&states, end));
    check_conservation(&translator, &states);
}
