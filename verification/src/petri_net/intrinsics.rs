//! The generic lowering for foreign and source-unavailable callees: one
//! transition bridging the call site to the destination block, an optional
//! unwind transition to the cleanup block, and read pairs on the
//! destination slot and every argument.

use vstd::prelude::*;
use vstd::string::*;

use crate::petri_net::laws;
use crate::petri_net::petri_net::{
    add_data_pair, lemma_extends_trans, sym_on, NetView, PetriError, PetriNet, Place,
};
use crate::util::push_str;

verus! {

/// The indices of a list of places.
pub open spec fn spec_node_set(ns: Seq<Place>) -> Set<usize> {
    Set::new(|q: usize| exists|k: int| 0 <= k < ns.len() && ns[k].index == q)
}

/// The arc map after the control bridges of the generic-foreign subnet,
/// before the data read pairs: the main transition consumes the call site
/// and produces the destination block; the optional unwind transition
/// consumes the call site and produces the cleanup block.
pub open spec fn spec_bridge_map(
    o: NetView,
    v: NetView,
    src: usize,
    dst_blk: usize,
    cleanup: Option<Place>,
) -> bool {
    forall|q: usize, t2: usize|
        #![trigger v.has_pt(q, t2)]
        #![trigger v.has_tp(t2, q)]
        q < v.n_places() && t2 < v.n_transitions() ==> (v.has_pt(q, t2) == (if t2
            < o.n_transitions() {
            o.has_pt(q, t2)
        } else {
            q == src
        })) && (v.has_tp(t2, q) == (if t2 < o.n_transitions() {
            o.has_tp(t2, q)
        } else if t2 == o.n_transitions() {
            q == dst_blk
        } else {
            cleanup matches Some(c) && q == c.index
        }))
}

/// The generic-foreign subnet: one transition consuming the call site and
/// reading (and preserving) the destination slot and every argument place,
/// producing into the destination block; where a cleanup block exists, a
/// second transition from the call site into it.  Nothing else changes.
pub open spec fn spec_foreign_shape(
    o: NetView,
    v: NetView,
    src: usize,
    dst_node: usize,
    dst_blk: usize,
    cleanup: Option<Place>,
    argset: Set<usize>,
) -> bool {
    &&& v.n_transitions() == o.n_transitions() + (if cleanup is Some {
        2int
    } else {
        1int
    })
    &&& forall|q: usize, t2: usize|
        #![trigger v.has_pt(q, t2)]
        #![trigger v.has_tp(t2, q)]
        q < v.n_places() && t2 < v.n_transitions() ==> (v.has_pt(q, t2) == (if t2
            < o.n_transitions() {
            o.has_pt(q, t2)
        } else if t2 == o.n_transitions() {
            q == src || q == dst_node || argset.contains(q)
        } else {
            q == src
        })) && (v.has_tp(t2, q) == (if t2 < o.n_transitions() {
            o.has_tp(t2, q)
        } else if t2 == o.n_transitions() {
            q == dst_blk || q == dst_node || argset.contains(q)
        } else {
            cleanup matches Some(c) && q == c.index
        }))
}

/// Emit the over-approximating subnet of a callee whose body is not
/// visited: control may go to the destination block (and, where a cleanup
/// block exists, to it); the destination slot and the arguments are read
/// but preserved.
#[verifier::rlimit(80)]
pub(crate) fn generic_foreign(
    net: &mut PetriNet,
    arg_nodes: &Vec<Place>,
    source_node: Place,
    destination_node: Place,
    destination_block_start: Place,
    cleanup_node: Option<Place>,
    name: String,
) -> (r: Result<(), PetriError>)
    requires
        old(net)@.wf(),
        old(net)@.balanced(),
        laws::slot_sums(old(net)@),
        source_node.ok(old(net)@),
        old(net)@.is_free(source_node.index),
        destination_block_start.ok(old(net)@),
        old(net)@.is_free(destination_block_start.index),
        cleanup_node matches Some(c) ==> c.index < old(net)@.n_places() && old(net)@.is_free(
            c.index,
        ),
        destination_node.ok(old(net)@),
        old(net)@.grouped(destination_node.index),
        forall|k: int|
            0 <= k < arg_nodes@.len() ==> (#[trigger] arg_nodes@[k]).index < old(net)@.n_places()
                && old(net)@.grouped(arg_nodes@[k].index),
    ensures
        r is Ok,
        final(net)@.wf(),
        final(net)@.balanced(),
        laws::slot_sums(final(net)@),
        NetView::extends(old(net)@, final(net)@),
        final(net)@.place_names == old(net)@.place_names,
        final(net)@.marking == old(net)@.marking,
        final(net)@.groups == old(net)@.groups,
        final(net)@.trans_names == (match cleanup_node {
            Some(_) => old(net)@.trans_names.push(Some(name@)).push(
                Some("unwind_"@ + name@),
            ),
            None => old(net)@.trans_names.push(Some(name@)),
        }),
        spec_foreign_shape(
            old(net)@,
            final(net)@,
            source_node.index,
            destination_node.index,
            destination_block_start.index,
            cleanup_node,
            spec_node_set(arg_nodes@),
        ),
{
    let ghost o0 = net@;
    let mut unwind_name = String::from_str("unwind_");
    push_str(&mut unwind_name, name.as_str());
    let ghost unwind_name_view = unwind_name@;
    let t = net.add_transition(Some(name));
    let ghost o1 = net@;
    let r1 = net.add_flow_pt(source_node, t);
    let ghost oa = net@;
    let r2 = net.add_flow_tp(t, destination_block_start);
    let ghost o2 = net@;
    proof {
        assert forall|q: usize, t2: usize|
            #![trigger o2.has_pt(q, t2)]
            #![trigger o2.has_tp(t2, q)]
            q < o2.n_places() && t2 < o2.n_transitions() implies (o2.has_pt(q, t2) == (if t2
            < o0.n_transitions() {
            o0.has_pt(q, t2)
        } else {
            q == source_node.index
        })) && (o2.has_tp(t2, q) == (if t2 < o0.n_transitions() {
            o0.has_tp(t2, q)
        } else if t2 == o0.n_transitions() {
            q == destination_block_start.index
        } else {
            cleanup_node matches Some(c) && q == c.index
        })) by {
            assert(oa.has_pt(q, t2) == (o1.has_pt(q, t2) || (q == source_node.index && t2
                == t.index)));
            assert(o2.has_pt(q, t2) == oa.has_pt(q, t2));
            assert(oa.has_tp(t2, q) == o1.has_tp(t2, q));
            assert(o2.has_tp(t2, q) == (oa.has_tp(t2, q) || (q == destination_block_start.index
                && t2 == t.index)));
            if t2 >= o0.n_transitions() {
                assert(t2 == t.index);
                assert(!o1.has_pt(q, t2));
                assert(!o1.has_tp(t2, q));
            }
        }
        assert(spec_bridge_map(
            o0,
            o2,
            source_node.index,
            destination_block_start.index,
            cleanup_node,
        ));
        assert(o2.n_transitions() == o0.n_transitions() + 1);
    }
    match cleanup_node {
        Some(cleanup) => {
            let t_unwind = net.add_transition(Some(unwind_name));
            let ghost ob = net@;
            let r3 = net.add_flow_pt(source_node, t_unwind);
            let ghost oc = net@;
            let r4 = net.add_flow_tp(t_unwind, cleanup);
            proof {
                let od = net@;
                assert(t.index != t_unwind.index);
                assert forall|q: usize, t2: usize|
                    #![trigger od.has_pt(q, t2)]
                    #![trigger od.has_tp(t2, q)]
                    q < od.n_places() && t2 < od.n_transitions() implies (od.has_pt(q, t2) == (
                if t2 < o0.n_transitions() {
                    o0.has_pt(q, t2)
                } else {
                    q == source_node.index
                })) && (od.has_tp(t2, q) == (if t2 < o0.n_transitions() {
                    o0.has_tp(t2, q)
                } else if t2 == o0.n_transitions() {
                    q == destination_block_start.index
                } else {
                    cleanup_node matches Some(c) && q == c.index
                })) by {
                    assert(oc.has_pt(q, t2) == (ob.has_pt(q, t2) || (q == source_node.index && t2
                        == t_unwind.index)));
                    assert(od.has_pt(q, t2) == oc.has_pt(q, t2));
                    assert(oc.has_tp(t2, q) == ob.has_tp(t2, q));
                    assert(od.has_tp(t2, q) == (oc.has_tp(t2, q) || (q == cleanup.index && t2
                        == t_unwind.index)));
                    if t2 < o2.n_transitions() {
                        assert(ob.has_pt(q, t2) == o2.has_pt(q, t2));
                        assert(ob.has_tp(t2, q) == o2.has_tp(t2, q));
                    } else {
                        assert(t2 == t_unwind.index);
                        assert(!ob.has_pt(q, t2));
                        assert(!ob.has_tp(t2, q));
                    }
                }
                assert(spec_bridge_map(
                    o0,
                    od,
                    source_node.index,
                    destination_block_start.index,
                    cleanup_node,
                ));
                assert(od.n_transitions() == o0.n_transitions() + 2);
            }
        },
        None => {},
    }
    let ghost o3 = net@;
    proof {
        assert(spec_bridge_map(
            o0,
            o3,
            source_node.index,
            destination_block_start.index,
            cleanup_node,
        ));
        assert(o3.n_transitions() == o0.n_transitions() + (if cleanup_node is Some {
            2int
        } else {
            1int
        }));
        assert forall|q: usize| q < o3.n_places() && o3.grouped(q) implies (#[trigger] o3.has_pt(
            q,
            t.index,
        ) == o3.has_tp(t.index, q)) by {
            assert(o3.has_pt(q, t.index) == (q == source_node.index));
            assert(o3.has_tp(t.index, q) == (q == destination_block_start.index));
            assert(q != source_node.index);
            assert(q != destination_block_start.index);
        }
        assert(sym_on(o3, t));
        assert(NetView::extends(o0, o3));
        laws::lemma_slot_sums_extends(o0, o3);
        assert(spec_node_set(arg_nodes@.take(0)) =~= Set::<usize>::empty());
    }
    let r5 = add_data_pair(net, destination_node, t);
    let ghost o4 = net@;
    proof {
        assert forall|q: usize, t2: usize|
            q < o4.n_places() && t2 < o4.n_transitions() implies (#[trigger] o4.has_pt(q, t2) == (
        if t2 < o0.n_transitions() {
            o0.has_pt(q, t2)
        } else if t2 == o0.n_transitions() {
            q == source_node.index || q == destination_node.index || spec_node_set(
                arg_nodes@.take(0),
            ).contains(q)
        } else {
            q == source_node.index
        })) && (#[trigger] o4.has_tp(t2, q) == (if t2 < o0.n_transitions() {
            o0.has_tp(t2, q)
        } else if t2 == o0.n_transitions() {
            q == destination_block_start.index || q == destination_node.index || spec_node_set(
                arg_nodes@.take(0),
            ).contains(q)
        } else {
            cleanup_node matches Some(c) && q == c.index
        })) by {
            assert(o4.has_pt(q, t2) == (o3.has_pt(q, t2) || (q == destination_node.index && t2
                == t.index)));
            assert(o4.has_tp(t2, q) == (o3.has_tp(t2, q) || (q == destination_node.index && t2
                == t.index)));
            if t2 >= o0.n_transitions() && t2 != t.index {
                assert(cleanup_node is Some);
            }
        }
    }
    let mut i: usize = 0;
    while i < arg_nodes.len()
        invariant
            o0 == old(net)@,
            net@.wf(),
            net@.balanced(),
            laws::slot_sums(net@),
            net@.place_names == o0.place_names,
            net@.marking == o0.marking,
            net@.groups == o0.groups,
            net@.trans_names == o4.trans_names,
            NetView::extends(o0, net@),
            i <= arg_nodes@.len(),
            t.index == o0.n_transitions(),
            t.index < net@.n_transitions(),
            net@.n_transitions() == o0.n_transitions() + (if cleanup_node is Some {
                2int
            } else {
                1int
            }),
            sym_on(net@, t),
            forall|k: int|
                0 <= k < arg_nodes@.len() ==> (#[trigger] arg_nodes@[k]).index < o0.n_places()
                    && o0.grouped(arg_nodes@[k].index),
            forall|q: usize, t2: usize|
                #![trigger net@.has_pt(q, t2)]
                #![trigger net@.has_tp(t2, q)]
                q < net@.n_places() && t2 < net@.n_transitions() ==> (net@.has_pt(q, t2) == (if t2
                    < o0.n_transitions() {
                    o0.has_pt(q, t2)
                } else if t2 == o0.n_transitions() {
                    q == source_node.index || q == destination_node.index || spec_node_set(
                        arg_nodes@.take(i as int),
                    ).contains(q)
                } else {
                    q == source_node.index
                })) && (net@.has_tp(t2, q) == (if t2 < o0.n_transitions() {
                    o0.has_tp(t2, q)
                } else if t2 == o0.n_transitions() {
                    q == destination_block_start.index || q == destination_node.index
                        || spec_node_set(arg_nodes@.take(i as int)).contains(q)
                } else {
                    cleanup_node matches Some(c) && q == c.index
                })),
        decreases arg_nodes@.len() - i,
    {
        let ghost prev = net@;
        let node = arg_nodes[i];
        let r6 = add_data_pair(net, node, t);
        proof {
            lemma_extends_trans(o0, prev, net@);
            let v = net@;
            assert forall|q: usize|
                (#[trigger] spec_node_set(arg_nodes@.take(i + 1)).contains(q)) == (spec_node_set(
                arg_nodes@.take(i as int),
            ).contains(q) || q == node.index) by {
                if spec_node_set(arg_nodes@.take(i + 1)).contains(q) {
                    let k = choose|k: int|
                        0 <= k < arg_nodes@.take(i + 1).len() && #[trigger] arg_nodes@.take(
                            i + 1,
                        )[k].index == q;
                    if k < i {
                        assert(arg_nodes@.take(i as int)[k].index == q);
                    } else {
                        assert(arg_nodes@[i as int].index == q);
                    }
                }
                if spec_node_set(arg_nodes@.take(i as int)).contains(q) {
                    let k = choose|k: int|
                        0 <= k < arg_nodes@.take(i as int).len() && #[trigger] arg_nodes@.take(
                            i as int,
                        )[k].index == q;
                    assert(arg_nodes@.take(i + 1)[k].index == q);
                }
                if q == node.index {
                    assert(arg_nodes@.take(i + 1)[i as int].index == q);
                }
            }
            assert forall|q: usize, t2: usize|
                #![trigger v.has_pt(q, t2)]
                #![trigger v.has_tp(t2, q)]
                q < v.n_places() && t2 < v.n_transitions() implies (v.has_pt(q, t2) == (if t2
                < o0.n_transitions() {
                o0.has_pt(q, t2)
            } else if t2 == o0.n_transitions() {
                q == source_node.index || q == destination_node.index || spec_node_set(
                    arg_nodes@.take(i + 1),
                ).contains(q)
            } else {
                q == source_node.index
            })) && (v.has_tp(t2, q) == (if t2 < o0.n_transitions() {
                o0.has_tp(t2, q)
            } else if t2 == o0.n_transitions() {
                q == destination_block_start.index || q == destination_node.index
                    || spec_node_set(arg_nodes@.take(i + 1)).contains(q)
            } else {
                cleanup_node matches Some(c) && q == c.index
            })) by {
                assert(v.has_pt(q, t2) == (prev.has_pt(q, t2) || (q == node.index && t2
                    == t.index)));
                assert(v.has_tp(t2, q) == (prev.has_tp(t2, q) || (q == node.index && t2
                    == t.index)));
            }
        }
        i = i + 1;
    }
    proof {
        assert(arg_nodes@.take(arg_nodes@.len() as int) =~= arg_nodes@);
        assert(net@.trans_names == (match cleanup_node {
            Some(_) => o0.trans_names.push(Some(name@)).push(Some("unwind_"@ + name@)),
            None => o0.trans_names.push(Some(name@)),
        })) by {
            assert(o1.trans_names == o0.trans_names.push(Some(name@)));
            assert(unwind_name_view == "unwind_"@ + name@);
        }
    }
    Ok(())
}

} // verus!
