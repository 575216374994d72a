//! Unit tests of the net core, the exporters, the argument plumbing, and
//! the error paths of the translator.

use granite::init::{check_sysroot, parse_arguments};
use granite::llir::{BlockData, Body, Callee, FnDef, Operand, PlaceBase, Program, Stmt, Terminator};
use granite::petri_net::petri_net::{Node, PetriError, PetriNet};
use granite::petri_net::unique_functions::MutexRef;
use granite::translator::Translator;

#[test]
fn add_nodes_and_edges() {
    let mut net = PetriNet::new();
    let p = net.add_place(Some(String::from("start")), 1);
    let q = net.add_place(None, 0);
    let t = net.add_transition(Some(String::from("step")));
    assert_eq!(net.num_places(), 2);
    assert_eq!(net.num_transitions(), 1);
    assert_eq!(net.marking_at(0), 1);
    assert_eq!(net.marking_at(1), 0);
    assert!(net.add_edge(Node::Place(p), Node::Transition(t)).is_ok());
    assert!(net.add_edge(Node::Transition(t), Node::Place(q)).is_ok());
    assert_eq!(net.pt_row_len(0), 1);
    assert_eq!(net.pt_entry(0, 0), 0);
    assert_eq!(net.tp_row_len(0), 1);
    assert_eq!(net.tp_entry(0, 0), 1);
    // a duplicate arc is merged
    assert!(net.add_edge(Node::Place(p), Node::Transition(t)).is_ok());
    assert_eq!(net.pt_row_len(0), 1);
}

/// Every arc connects a place and a transition: an edge between two nodes
/// of the same kind is refused.
#[test]
fn bipartition_is_enforced() {
    let mut net = PetriNet::new();
    let p = net.add_place(None, 0);
    let q = net.add_place(None, 0);
    let t = net.add_transition(None);
    assert_eq!(
        net.add_edge(Node::Place(p), Node::Place(q)),
        Err(PetriError::BipartitionViolation)
    );
    assert_eq!(
        net.add_edge(Node::Transition(t), Node::Transition(t)),
        Err(PetriError::BipartitionViolation)
    );
}

#[test]
fn unknown_references_are_refused() {
    let mut net = PetriNet::new();
    let t = net.add_transition(None);
    let mut other = PetriNet::new();
    let foreign_place = other.add_place(None, 0);
    assert_eq!(
        net.add_edge(Node::Place(foreign_place), Node::Transition(t)),
        Err(PetriError::PlaceNotFound)
    );
    let r = net.set_marking(foreign_place, 3);
    assert_eq!(r, Err(PetriError::PlaceNotFound));
}

#[test]
fn names_and_markings_can_be_set() {
    let mut net = PetriNet::new();
    let p = net.add_place(None, 0);
    assert!(net.set_name(Node::Place(p), String::from("renamed")).is_ok());
    assert_eq!(net.place_name(0).as_ref().map(|s| s.as_str()), Some("renamed"));
    assert!(net.set_marking(p, 7).is_ok());
    assert_eq!(net.marking_at(0), 7);
    let annotation = p.annotation(&net).expect("annotation");
    assert_eq!(annotation.as_ref().map(|s| s.as_str()), Some("renamed"));
}

#[test]
fn node_handles_enumerate_in_creation_order() {
    let mut net = PetriNet::new();
    net.add_place(None, 0);
    net.add_place(None, 0);
    net.add_transition(None);
    let places = net.places();
    let transitions = net.transitions();
    assert_eq!(places.len(), 2);
    assert_eq!(transitions.len(), 1);
    assert_eq!(places[0].index, 0);
    assert_eq!(places[1].index, 1);
    assert_eq!(transitions[0].index, 0);
}

#[test]
fn mutex_accessors_refuse_unknown_references() {
    let list = granite::petri_net::unique_functions::MutexList::new();
    let dangling = MutexRef { index: 0 };
    assert_eq!(dangling.uninitialized(&list), Err(PetriError::MutexNotFound));
    assert_eq!(dangling.unlocked(&list), Err(PetriError::MutexNotFound));
    assert_eq!(dangling.locked(&list), Err(PetriError::MutexNotFound));
    assert_eq!(dangling.dead(&list), Err(PetriError::MutexNotFound));
}

fn tiny_net() -> PetriNet {
    let mut net = PetriNet::new();
    let p = net.add_place(Some(String::from("a<b")), 1);
    let t = net.add_transition(None);
    net.add_edge(Node::Place(p), Node::Transition(t)).expect("edge");
    net
}

#[test]
fn pnml_output_is_exact() {
    let net = tiny_net();
    let expected = "<?xml version=\"1.0\" encoding=\"UTF-8\"?>\n<pnml>\n<net id=\"net0\">\n<place id=\"p0\"><name><text>a&lt;b</text></name><initialMarking><text>1</text></initialMarking></place>\n<transition id=\"t0\"></transition>\n<arc id=\"ap0t0\" source=\"p0\" target=\"t0\"/>\n</net>\n</pnml>\n";
    assert_eq!(net.to_pnml(), expected);
}

#[test]
fn lola_output_is_exact() {
    let net = tiny_net();
    let expected = "PLACE\n  p0;\n\nMARKING\n  p0: 1;\n\nTRANSITION t0\n  CONSUME p0: 1;\n  PRODUCE;\n";
    assert_eq!(net.to_lola(), expected);
}

#[test]
fn dot_output_is_exact() {
    let net = tiny_net();
    let expected = "digraph petrinet {\np0 [shape=circle label=\"a<b\"];\nt0 [shape=box label=\"t0\"];\np0 -> t0;\n}\n";
    assert_eq!(net.to_dot(), expected);
}

fn minimal_program() -> Program {
    Program {
        functions: vec![FnDef {
            name: String::from("main"),
            body: Some(Body {
                arg_count: 0,
                local_count: 1,
                promoted_count: 0,
                blocks: vec![BlockData { statements: vec![], terminator: Terminator::Return }],
            }),
        }],
    }
}

/// Two runs over the same input produce byte-identical output documents.
#[test]
fn exports_are_deterministic() {
    let mut first = Translator::new();
    first.petrify(&minimal_program(), 0).expect("translation failed");
    let mut second = Translator::new();
    second.petrify(&minimal_program(), 0).expect("translation failed");
    assert_eq!(first.net.to_pnml(), second.net.to_pnml());
    assert_eq!(first.net.to_lola(), second.net.to_lola());
    assert_eq!(first.net.to_dot(), second.net.to_dot());
}

fn one_block_main(terminator: Terminator, extra: Vec<FnDef>) -> Program {
    let mut functions = vec![FnDef {
        name: String::from("main"),
        body: Some(Body {
            arg_count: 0,
            local_count: 2,
            promoted_count: 0,
            blocks: vec![BlockData { statements: vec![], terminator }],
        }),
    }];
    functions.extend(extra);
    Program { functions }
}

#[test]
fn indirect_calls_are_refused() {
    let program = one_block_main(
        Terminator::Call {
            func: Callee::FnPtr,
            args: vec![],
            destination: Some((PlaceBase::Local(1), 0)),
            cleanup: None,
        },
        vec![],
    );
    let mut translator = Translator::new();
    assert_eq!(translator.petrify(&program, 0), Err(PetriError::IndirectCall));
}

#[test]
fn try_lock_is_refused() {
    let program = one_block_main(
        Terminator::Call {
            func: Callee::Fn(1),
            args: vec![Operand::Constant],
            destination: Some((PlaceBase::Local(1), 0)),
            cleanup: None,
        },
        vec![FnDef {
            name: String::from("std::sync::Mutex::<T>::try_lock"),
            body: Some(Body {
                arg_count: 1,
                local_count: 2,
                promoted_count: 0,
                blocks: vec![BlockData { statements: vec![], terminator: Terminator::Return }],
            }),
        }],
    );
    let mut translator = Translator::new();
    assert_eq!(translator.petrify(&program, 0), Err(PetriError::TryLockUnsupported));
}

#[test]
fn unknown_diverging_foreign_is_refused() {
    let program = one_block_main(
        Terminator::Call {
            func: Callee::Fn(1),
            args: vec![],
            destination: None,
            cleanup: None,
        },
        vec![FnDef { name: String::from("mystery::diverges"), body: None }],
    );
    let mut translator = Translator::new();
    assert_eq!(translator.petrify(&program, 0), Err(PetriError::UnrecognisedDiverging));
}

#[test]
fn recognised_diverging_foreign_falls_into_unwind_abort() {
    let program = one_block_main(
        Terminator::Call {
            func: Callee::Fn(1),
            args: vec![],
            destination: None,
            cleanup: None,
        },
        vec![FnDef { name: String::from("std::alloc::handle_alloc_error"), body: None }],
    );
    let mut translator = Translator::new();
    assert!(translator.petrify(&program, 0).is_ok());
}

#[test]
fn unbounded_recursion_is_refused() {
    let program = one_block_main(
        Terminator::Call {
            func: Callee::Fn(0),
            args: vec![],
            destination: Some((PlaceBase::Local(1), 0)),
            cleanup: None,
        },
        vec![],
    );
    let mut translator = Translator::new();
    assert_eq!(translator.petrify(&program, 0), Err(PetriError::RecursionLimit));
}

#[test]
fn out_of_range_blocks_are_refused() {
    let program = one_block_main(Terminator::Goto { target: 9 }, vec![]);
    let mut translator = Translator::new();
    assert_eq!(translator.petrify(&program, 0), Err(PetriError::BlockNotFound));
}

#[test]
fn missing_function_ids_are_refused() {
    let program = one_block_main(
        Terminator::Call {
            func: Callee::Fn(7),
            args: vec![],
            destination: Some((PlaceBase::Local(1), 0)),
            cleanup: None,
        },
        vec![],
    );
    let mut translator = Translator::new();
    assert_eq!(translator.petrify(&program, 0), Err(PetriError::FunctionNotFound));
}

#[test]
fn storage_of_unknown_locals_is_refused() {
    let program = Program {
        functions: vec![FnDef {
            name: String::from("main"),
            body: Some(Body {
                arg_count: 0,
                local_count: 1,
                promoted_count: 0,
                blocks: vec![BlockData {
                    statements: vec![Stmt::StorageLive(5)],
                    terminator: Terminator::Return,
                }],
            }),
        }],
    };
    let mut translator = Translator::new();
    assert_eq!(translator.petrify(&program, 0), Err(PetriError::LocalNotFound));
}

#[test]
fn error_descriptions_name_the_failure() {
    assert!(PetriError::BipartitionViolation.description().contains("places"));
    assert!(PetriError::TryLockUnsupported.description().contains("try_lock"));
    assert!(PetriError::IndirectCall.description().contains("pointers"));
}

#[test]
fn arguments_split_at_the_first_separator() {
    let args = vec![
        String::from("driver"),
        String::from("input.x"),
        String::from("--"),
        String::from("--format"),
        String::from("pnml"),
    ];
    let (front, tool) = parse_arguments(args);
    assert_eq!(front, vec![String::from("driver"), String::from("input.x")]);
    assert_eq!(tool, vec![String::from("--format"), String::from("pnml")]);
}

#[test]
fn arguments_without_separator_all_go_to_the_front_end() {
    let args = vec![String::from("driver"), String::from("input.x")];
    let (front, tool) = parse_arguments(args);
    assert_eq!(front, vec![String::from("driver"), String::from("input.x")]);
    assert!(tool.is_empty());
}

#[test]
fn a_leading_separator_is_kept_for_the_front_end() {
    let args = vec![String::from("--"), String::from("x")];
    let (front, tool) = parse_arguments(args);
    assert_eq!(front, vec![String::from("--"), String::from("x")]);
    assert!(tool.is_empty());
}

#[test]
fn sysroot_is_appended_only_when_absent() {
    let mut args = vec![String::from("driver")];
    check_sysroot(&mut args, Some(String::from("/sysroot")));
    assert_eq!(
        args,
        vec![String::from("driver"), String::from("--sysroot"), String::from("/sysroot")]
    );
    let mut args2 = vec![String::from("driver"), String::from("--sysroot"), String::from("/x")];
    check_sysroot(&mut args2, Some(String::from("/sysroot")));
    assert_eq!(
        args2,
        vec![String::from("driver"), String::from("--sysroot"), String::from("/x")]
    );
    let mut args3 = vec![String::from("driver")];
    check_sysroot(&mut args3, None);
    assert_eq!(args3, vec![String::from("driver")]);
}
