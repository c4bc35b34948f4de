//! Folds the expanded GELU, `0.5 * x * (1 + erf(x / sqrt(2)))`, into one node.
//!
//! The expansion is a Div or Mul by a constant, Erf, Add of 1 and two Muls, in
//! either of two orders. The last Mul is the node that is replaced.

use vstd::prelude::*;
use vstd::string::StringExecFns;
use crate::ir::{
    arg_models, copy_args, node_models, ArgModel, Argument, AttrModel, Attributes, NodeModel,
    NodeType, RawNode,
};
use crate::simplify::graph::{
    apply_replacements, const_scalar_of, first_consumer, hands_on, has_output,
    law_producer_is_last, lemma_first_consumer, lemma_matched_place, lemma_one_place,
    lemma_producer, lemma_same_producer, lemma_single_use_place, lemma_with_matches, other_input,
    other_of, producer, reads_at, replaced, same_value, scalar_behind, single_use,
    tensor_and_const, unique_outputs, with_matches, GraphIndex,
};
use crate::simplify::scalars::{
    is_near_half, is_near_inv_sqrt2, is_near_one, is_near_sqrt2, near_half, near_inv_sqrt2,
    near_one, near_sqrt2,
};

verus! {

/// The node that replaces `last`: the GELU of `x`, making what `last` made.
pub open spec fn gelu_model(last: NodeModel, x: ArgModel) -> NodeModel {
    NodeModel {
        node_type: NodeType::Gelu,
        name: last.name + "_gelu"@,
        inputs: seq![x],
        outputs: last.outputs,
        attrs: Map::<Seq<char>, AttrModel>::empty(),
    }
}

/// The argument is a constant that is 0.5.
pub open spec fn is_half(nodes: Seq<NodeModel>, arg: ArgModel) -> bool {
    const_scalar_of(nodes, arg) matches Some(v) && near_half(v)
}

/// What is halved, where `arg` is a Mul by 0.5 with one reader; otherwise
/// `arg` itself, and whether it was halved.
pub open spec fn halved(nodes: Seq<NodeModel>, arg: ArgModel) -> (ArgModel, bool) {
    match producer(nodes, arg.name) {
        None => (arg, false),
        Some(p) => {
            let node = nodes[p];
            if !(node.node_type is Mul) || node.inputs.len() < 2 || !single_use(
                nodes,
                node.outputs[0].name,
            ) {
                (arg, false)
            } else if is_half(nodes, node.inputs[1]) {
                (node.inputs[0], true)
            } else if is_half(nodes, node.inputs[0]) {
                (node.inputs[1], true)
            } else {
                (arg, false)
            }
        },
    }
}

/// `node` divides by `sqrt(2)` or multiplies by `1 / sqrt(2)`, with `v` the
/// constant among its inputs. What divides is the second input.
pub open spec fn scales_by_inv_sqrt2(nodes: Seq<NodeModel>, node: NodeModel, v: u64) -> bool {
    ||| node.node_type is Div && near_sqrt2(v) && const_scalar_of(nodes, node.inputs[1]) == Some(v)
    ||| node.node_type is Mul && near_inv_sqrt2(v)
}

/// What Erf `e` is taken of: the value that is scaled down by `sqrt(2)`.
pub open spec fn erf_argument(nodes: Seq<NodeModel>, e: int) -> Option<ArgModel> {
    match producer(nodes, nodes[e].inputs[0].name) {
        None => None,
        Some(s) => if !single_use(nodes, nodes[s].outputs[0].name) {
            None
        } else {
            match tensor_and_const(nodes, nodes[s]) {
                Some((x, v)) => if scales_by_inv_sqrt2(nodes, nodes[s], v) {
                    Some(x)
                } else {
                    None
                },
                None => None,
            }
        },
    }
}

/// The Mul that reads `1 + erf`, where the one reader of Erf `e` adds 1 and
/// has one reader itself.
pub open spec fn erf_plus_one_reader(nodes: Seq<NodeModel>, e: int) -> Option<(int, ArgModel)> {
    let out = nodes[e].outputs[0].name;
    let add = nodes[first_consumer(nodes, out)->0];
    if !single_use(nodes, out) || !(add.node_type is Add) || add.outputs.len() == 0 || !single_use(
        nodes,
        add.outputs[0].name,
    ) {
        None
    } else {
        match other_of(add, out) {
            None => None,
            Some(one) => match const_scalar_of(nodes, one) {
                None => None,
                Some(v) => {
                    let m = first_consumer(nodes, add.outputs[0].name)->0;
                    match other_of(nodes[m], add.outputs[0].name) {
                        Some(side) => if near_one(v) && nodes[m].node_type is Mul {
                            Some((m, side))
                        } else {
                            None
                        },
                        None => None,
                    }
                },
            },
        }
    }
}

/// The expansion around the Erf `e`: the node to replace and what goes in its
/// place.
pub open spec fn match_at(nodes: Seq<NodeModel>, e: int) -> Option<(int, NodeModel)> {
    let erf = nodes[e];
    if !(erf.node_type is Erf) || erf.inputs.len() == 0 || erf.outputs.len() == 0 {
        None
    } else {
        match (erf_argument(nodes, e), erf_plus_one_reader(nodes, e)) {
            (Some(x), Some((m, side))) => {
                let (core, half_on_x) = halved(nodes, side);
                let mul = nodes[m];
                if core.name != x.name {
                    None
                } else if half_on_x {
                    Some((m, gelu_model(mul, x)))
                } else if mul.outputs.len() == 0 || !single_use(nodes, mul.outputs[0].name) {
                    None
                } else {
                    let h = first_consumer(nodes, mul.outputs[0].name)->0;
                    match other_of(nodes[h], mul.outputs[0].name) {
                        Some(c) => if nodes[h].node_type is Mul && is_half(nodes, c) {
                            Some((h, gelu_model(nodes[h], x)))
                        } else {
                            None
                        },
                        None => None,
                    }
                }
            },
            _ => None,
        }
    }
}

/// The node that replaces `last`.
pub fn gelu_node(last: &RawNode, x: &Argument) -> (r: RawNode)
    ensures
        r@ == gelu_model(last@, x@),
{
    let mut inputs: Vec<Argument> = Vec::new();
    inputs.push(x.clone());
    assert(arg_models(inputs@) =~= seq![x@]);
    RawNode {
        node_type: NodeType::Gelu,
        name: last.name.clone().concat("_gelu"),
        inputs,
        outputs: copy_args(&last.outputs),
        attrs: Attributes::new(),
    }
}

fn is_const_half(arg: &Argument, graph: &GraphIndex<'_>) -> (r: bool)
    requires
        graph.wf(),
    ensures
        r == is_half(graph.graph(), arg@),
{
    match graph.const_scalar(arg) {
        Some(v) => is_near_half(v),
        None => false,
    }
}

/// What is halved, where `arg` is a Mul by 0.5 with one reader.
pub fn peel_half<'a>(arg: &'a Argument, graph: &GraphIndex<'a>) -> (r: (&'a Argument, bool))
    requires
        graph.wf(),
    ensures
        (r.0@, r.1) == halved(graph.graph(), arg@),
{
    let p: usize = match graph.producer_of(&arg.name) {
        Some(p) => p,
        None => return (arg, false),
    };
    let node: &'a RawNode = &graph.nodes[p];
    assert(graph.graph()[p as int] == node@);
    assert(node@.outputs[0] == node.outputs@[0]@);
    if node.node_type != NodeType::Mul || node.inputs.len() < 2 || !graph.is_single_use(
        &node.outputs[0].name,
    ) {
        return (arg, false);
    }
    assert(node@.inputs[0] == node.inputs@[0]@);
    assert(node@.inputs[1] == node.inputs@[1]@);
    if is_const_half(&node.inputs[1], graph) {
        return (&node.inputs[0], true);
    }
    if is_const_half(&node.inputs[0], graph) {
        return (&node.inputs[1], true);
    }
    (arg, false)
}

/// The expansion around the node `erf_idx`, if it is one.
pub fn try_match_gelu(erf_idx: usize, graph: &GraphIndex<'_>) -> (r: Option<(usize, RawNode)>)
    requires
        graph.wf(),
        erf_idx < graph.nodes@.len(),
    ensures
        r is Some == match_at(graph.graph(), erf_idx as int) is Some,
        r matches Some((i, node)) ==> match_at(graph.graph(), erf_idx as int) == Some(
            (i as int, node@),
        ) && i < graph.nodes@.len(),
{
    let ghost g = graph.graph();
    let erf: &RawNode = &graph.nodes[erf_idx];
    assert(g[erf_idx as int] == erf@);
    if erf.node_type != NodeType::Erf || erf.inputs.len() == 0 || erf.outputs.len() == 0 {
        return None;
    }
    assert(erf@.inputs[0] == erf.inputs@[0]@);
    assert(erf@.outputs[0] == erf.outputs@[0]@);
    let out: &String = &erf.outputs[0].name;
    if !graph.is_single_use(out) {
        return None;
    }
    let scale_idx: usize = match graph.producer_of(&erf.inputs[0].name) {
        Some(i) => i,
        None => return None,
    };
    let scale_node: &RawNode = &graph.nodes[scale_idx];
    assert(g[scale_idx as int] == scale_node@);
    assert(scale_node@.outputs[0] == scale_node.outputs@[0]@);
    if !graph.is_single_use(&scale_node.outputs[0].name) {
        return None;
    }
    let (x, scale): (&Argument, u64) = match graph.split_tensor_and_const(scale_node) {
        Some(p) => p,
        None => return None,
    };
    match scale_node.node_type {
        NodeType::Div => {
            assert(scale_node@.inputs[1] == scale_node.inputs@[1]@);
            if !is_near_sqrt2(scale) || graph.const_scalar(&scale_node.inputs[1]).is_none() {
                return None;
            }
        },
        NodeType::Mul => {
            if !is_near_inv_sqrt2(scale) {
                return None;
            }
        },
        _ => return None,
    }
    assert(erf_argument(g, erf_idx as int) == Some(x@));

    let add_idx: usize = match graph.first_consumer_of(out) {
        Some(i) => i,
        None => return None,
    };
    let add: &RawNode = &graph.nodes[add_idx];
    assert(g[add_idx as int] == add@);
    if add.node_type != NodeType::Add || add.outputs.len() == 0 {
        return None;
    }
    assert(add@.outputs[0] == add.outputs@[0]@);
    if !graph.is_single_use(&add.outputs[0].name) {
        return None;
    }
    let one: &Argument = match other_input(add, out) {
        Some(a) => a,
        None => return None,
    };
    match graph.const_scalar(one) {
        Some(v) => {
            if !is_near_one(v) {
                return None;
            }
        },
        None => return None,
    }

    let mul_idx: usize = match graph.first_consumer_of(&add.outputs[0].name) {
        Some(i) => i,
        None => return None,
    };
    let mul: &RawNode = &graph.nodes[mul_idx];
    assert(g[mul_idx as int] == mul@);
    if mul.node_type != NodeType::Mul {
        return None;
    }
    let side: &Argument = match other_input(mul, &add.outputs[0].name) {
        Some(a) => a,
        None => return None,
    };
    assert(erf_plus_one_reader(g, erf_idx as int) == Some((mul_idx as int, side@)));
    let (core, half_on_x): (&Argument, bool) = peel_half(side, graph);
    if !same_value(core, x) {
        return None;
    }
    if half_on_x {
        return Some((mul_idx, gelu_node(mul, x)));
    }
    if mul.outputs.len() == 0 {
        return None;
    }
    assert(mul@.outputs[0] == mul.outputs@[0]@);
    if !graph.is_single_use(&mul.outputs[0].name) {
        return None;
    }
    let half_idx: usize = match graph.first_consumer_of(&mul.outputs[0].name) {
        Some(i) => i,
        None => return None,
    };
    let half: &RawNode = &graph.nodes[half_idx];
    assert(g[half_idx as int] == half@);
    if half.node_type != NodeType::Mul {
        return None;
    }
    let c: &Argument = match other_input(half, &mul.outputs[0].name) {
        Some(a) => a,
        None => return None,
    };
    if !is_const_half(c, graph) {
        return None;
    }
    Some((half_idx, gelu_node(half, x)))
}

/// The graph after every expansion is folded.
pub open spec fn coalesced(nodes: Seq<NodeModel>) -> Seq<NodeModel> {
    with_matches(nodes, |i: int| match_at(nodes, i), nodes.len())
}

/// Folds every expanded GELU of the graph.
pub fn coalesce_gelu(nodes: Vec<RawNode>) -> (r: Vec<RawNode>)
    ensures
        node_models(r@) == coalesced(node_models(nodes@)),
{
    let ghost g = node_models(nodes@);
    let ghost found = |i: int| match_at(g, i);
    let mut reps: Vec<(usize, RawNode)> = Vec::new();
    let graph: GraphIndex<'_> = GraphIndex::new(&nodes);
    let mut i: usize = 0;
    while i < nodes.len()
        invariant
            i <= nodes.len(),
            graph.wf(),
            graph.nodes == nodes,
            g == node_models(nodes@),
            found == (|i: int| match_at(g, i)),
            forall|k: int| 0 <= k < reps@.len() ==> (#[trigger] reps@[k]).0 < nodes@.len(),
            replaced(g, reps@) == with_matches(g, found, i as nat),
        decreases nodes.len() - i,
    {
        if let Some((at, node)) = try_match_gelu(i, &graph) {
            let ghost before = reps@;
            reps.push((at, node));
            assert(reps@.drop_last() =~= before);
        }
        i += 1;
    }
    apply_replacements(nodes, reps)
}

/// A match replaces a Mul of the graph and keeps what it made.
proof fn lemma_match(nodes: Seq<NodeModel>, e: int)
    ensures
        match_at(nodes, e) matches Some((i, node)) ==> {
            &&& 0 <= i < nodes.len()
            &&& node.outputs == nodes[i].outputs
            &&& node.node_type is Gelu
            &&& nodes[i].node_type is Mul
        },
{
    if let Some((i, node)) = match_at(nodes, e) {
        let add = nodes[first_consumer(nodes, nodes[e].outputs[0].name)->0];
        lemma_first_consumer(nodes, add.outputs[0].name);
        let (m, side) = erf_plus_one_reader(nodes, e)->0;
        if nodes[m].outputs.len() > 0 {
            lemma_first_consumer(nodes, nodes[m].outputs[0].name);
        }
    }
}

/// Folding keeps the number of nodes and the names and types of what every
/// node makes; the only nodes that change are Muls, which become Gelus.
pub proof fn law_folding_keeps_outputs(nodes: Seq<NodeModel>, i: int)
    requires
        0 <= i < nodes.len(),
    ensures
        coalesced(nodes).len() == nodes.len(),
        coalesced(nodes)[i].outputs == nodes[i].outputs,
        coalesced(nodes)[i] == nodes[i] || (nodes[i].node_type is Mul && coalesced(
            nodes,
        )[i].node_type is Gelu),
{
    let found = |a: int| match_at(nodes, a);
    assert forall|a: int| 0 <= a < nodes.len() implies (#[trigger] found(a) matches Some((j, _))
        ==> 0 <= j < nodes.len()) by {
        lemma_match(nodes, a);
    }
    lemma_with_matches(nodes, found, nodes.len());
    if coalesced(nodes)[i] != nodes[i] {
        let a = choose|a: int|
            0 <= a < nodes.len() && #[trigger] found(a) == Some((i, coalesced(nodes)[i]));
        lemma_match(nodes, a);
    }
}

/// An operator that takes part in an expanded GELU.
pub open spec fn takes_part(t: NodeType) -> bool {
    t is Erf || t is Add || t is Mul || t is Div
}

/// Output names are unique, a Mul has two inputs and one output, and an input
/// of a Mul that carries a scalar is not computed by an operator of the
/// expansion.
pub open spec fn well_made(nodes: Seq<NodeModel>) -> bool {
    &&& unique_outputs(nodes)
    &&& forall|i: int|
        0 <= i < nodes.len() && (#[trigger] nodes[i]).node_type is Mul ==> nodes[i].inputs.len()
            == 2 && nodes[i].outputs.len() == 1
    &&& forall|i: int, j: int, p: int|
        0 <= i < nodes.len() && nodes[i].node_type is Mul && 0 <= j < nodes[i].inputs.len() && 0
            <= p < nodes.len() && takes_part(nodes[p].node_type) && #[trigger] has_output(
            nodes[p],
            (#[trigger] nodes[i].inputs[j]).name,
        ) ==> !(nodes[i].inputs[j].value matches Some(d) && d.scalar is Some)
}

/// A constant input of a Mul is not made by an operator of the expansion.
proof fn lemma_constant_input(nodes: Seq<NodeModel>, i: int, j: int, p: int)
    requires
        well_made(nodes),
        0 <= i < nodes.len(),
        nodes[i].node_type is Mul,
        0 <= j < nodes[i].inputs.len(),
        const_scalar_of(nodes, nodes[i].inputs[j]) is Some,
        0 <= p < nodes.len(),
        takes_part(nodes[p].node_type),
    ensures
        !has_output(nodes[p], nodes[i].inputs[j].name),
{
    let name = nodes[i].inputs[j].name;
    if has_output(nodes[p], name) {
        lemma_producer_is(nodes, p, name);
    }
}

/// Where names are unique, a node that makes a value is its producer.
proof fn lemma_producer_is(nodes: Seq<NodeModel>, p: int, name: Seq<char>)
    requires
        unique_outputs(nodes),
        0 <= p < nodes.len(),
        has_output(nodes[p], name),
    ensures
        producer(nodes, name) == Some(p),
{
    law_producer_is_last(nodes, name, p);
    lemma_producer(nodes, name);
    let q = producer(nodes, name)->0;
    let j = choose|j: int|
        0 <= j < nodes[p].outputs.len() && (#[trigger] nodes[p].outputs[j]).name == name;
    let l = choose|l: int|
        0 <= l < nodes[q].outputs.len() && (#[trigger] nodes[q].outputs[l]).name == name;
    assert(nodes[p].outputs[j].name == nodes[q].outputs[l].name);
}

/// What a node that is replaced reads has a single use, or is not the first
/// output of an operator of the expansion.
proof fn lemma_replaced_reads(nodes: Seq<NodeModel>, e: int, j: int, p: int)
    requires
        well_made(nodes),
        match_at(nodes, e) is Some,
        0 <= j < 2,
        0 <= p < nodes.len(),
        takes_part(nodes[p].node_type),
        nodes[p].outputs.len() > 0,
        match_at(nodes, e) matches Some((i, _)) && nodes[i].inputs[j].name
            == nodes[p].outputs[0].name,
    ensures
        single_use(nodes, nodes[p].outputs[0].name),
{
    lemma_match(nodes, e);
    let (i, node) = match_at(nodes, e)->0;
    let name = nodes[p].outputs[0].name;
    assert(has_output(nodes[p], name));
    lemma_producer_is(nodes, p, name);
    let (m, side) = erf_plus_one_reader(nodes, e)->0;
    let (core, half_on_x) = halved(nodes, side);
    let add = nodes[first_consumer(nodes, nodes[e].outputs[0].name)->0];
    if half_on_x {
        assert(i == m);
        if name != add.outputs[0].name {
            assert(name == side.name);
        }
    } else {
        let out = nodes[m].outputs[0].name;
        let c = other_of(nodes[i], out)->0;
        if name != out {
            assert(c == nodes[i].inputs[j]);
            lemma_constant_input(nodes, i, j, p);
        }
    }
}

/// What a match puts in place reads what the scaling node reads.
proof fn lemma_match_source(nodes: Seq<NodeModel>, e: int)
    ensures
        match_at(nodes, e) matches Some((_, node)) ==> node.inputs.len() == 1 && exists|s: int, j: int| #[trigger]
            reads_at(nodes, node.inputs[0].name, s, j),
{
    if let Some((_, node)) = match_at(nodes, e) {
        let x = erf_argument(nodes, e)->0;
        assert(node.inputs =~= seq![x]);
        let s = producer(nodes, nodes[e].inputs[0].name)->0;
        lemma_producer(nodes, nodes[e].inputs[0].name);
        if const_scalar_of(nodes, nodes[s].inputs[1]) is Some {
            assert(reads_at(nodes, x.name, s, 0));
        } else {
            assert(reads_at(nodes, x.name, s, 1));
        }
    }
}

/// Folding changes no constant.
proof fn lemma_scalars_stay(nodes: Seq<NodeModel>, arg: ArgModel, depth: nat)
    ensures
        scalar_behind(coalesced(nodes), arg, depth) == scalar_behind(nodes, arg, depth),
    decreases depth,
{
    let once = coalesced(nodes);
    lemma_producers_stay(nodes, arg.name);
    lemma_producer(nodes, arg.name);
    if let Some(p) = producer(nodes, arg.name) {
        law_folding_keeps_outputs(nodes, p);
        if hands_on(nodes[p].node_type) && depth > 0 && nodes[p].inputs.len() > 0 {
            lemma_scalars_stay(nodes, nodes[p].inputs[0], (depth - 1) as nat);
        }
    }
}

/// Folding changes no producer, and keeps the number of nodes.
proof fn lemma_producers_stay(nodes: Seq<NodeModel>, name: Seq<char>)
    ensures
        coalesced(nodes).len() == nodes.len(),
        producer(coalesced(nodes), name) == producer(nodes, name),
{
    lemma_coalesced_len(nodes);
    let once = coalesced(nodes);
    assert forall|i: int| 0 <= i < once.len() implies (#[trigger] once[i]).outputs
        == nodes[i].outputs by {
        law_folding_keeps_outputs(nodes, i);
    }
    lemma_same_producer(once, nodes, nodes.len() as int, name);
}

proof fn lemma_coalesced_len(nodes: Seq<NodeModel>)
    ensures
        coalesced(nodes).len() == nodes.len(),
{
    let found = |a: int| match_at(nodes, a);
    assert forall|a: int| 0 <= a < nodes.len() implies (#[trigger] found(a) matches Some((j, _))
        ==> 0 <= j < nodes.len()) by {
        lemma_match(nodes, a);
    }
    lemma_with_matches(nodes, found, nodes.len());
}

/// A node that folding changed was named by a match that put what is there.
proof fn lemma_changed(nodes: Seq<NodeModel>, i: int) -> (e: int)
    requires
        0 <= i < nodes.len(),
        coalesced(nodes)[i] != nodes[i],
    ensures
        match_at(nodes, e) == Some((i, coalesced(nodes)[i])),
{
    let found = |a: int| match_at(nodes, a);
    assert forall|a: int| 0 <= a < nodes.len() implies (#[trigger] found(a) matches Some((j, _))
        ==> 0 <= j < nodes.len()) by {
        lemma_match(nodes, a);
    }
    lemma_with_matches(nodes, found, nodes.len());
    let e = choose|a: int|
        0 <= a < nodes.len() && #[trigger] found(a) == Some((i, coalesced(nodes)[i]));
    e
}

/// The node that a match names is a Gelu after folding.
proof fn lemma_match_is_folded(nodes: Seq<NodeModel>, e: int)
    requires
        0 <= e < nodes.len(),
    ensures
        match_at(nodes, e) matches Some((i, _)) ==> coalesced(nodes)[i].node_type is Gelu,
{
    let found = |a: int| match_at(nodes, a);
    assert forall|a: int| 0 <= a < nodes.len() implies (#[trigger] found(a) matches Some((j, _))
        ==> 0 <= j < nodes.len()) by {
        lemma_match(nodes, a);
    }
    if let Some((i, _)) = match_at(nodes, e) {
        assert(found(e) matches Some((j, _)) && j == i);
        lemma_matched_place(nodes, found, nodes.len(), e, i);
        let b = choose|b: int|
            0 <= b < nodes.len() && #[trigger] found(b) == Some((i, coalesced(nodes)[i]));
        lemma_match(nodes, b);
    }
}

/// A single use after folding, of the first output of an operator of the
/// expansion, was a single use before, by the same node unless a Gelu reads
/// it now.
proof fn lemma_single_use_before(nodes: Seq<NodeModel>, p: int)
    requires
        well_made(nodes),
        0 <= p < nodes.len(),
        takes_part(nodes[p].node_type),
        nodes[p].outputs.len() > 0,
        single_use(coalesced(nodes), nodes[p].outputs[0].name),
    ensures
        single_use(nodes, nodes[p].outputs[0].name),
        ({
            let r = first_consumer(coalesced(nodes), nodes[p].outputs[0].name)->0;
            coalesced(nodes)[r].node_type is Gelu || first_consumer(
                nodes,
                nodes[p].outputs[0].name,
            ) == Some(r)
        }),
{
    let once = coalesced(nodes);
    let name = nodes[p].outputs[0].name;
    lemma_coalesced_len(nodes);
    let (r, at) = lemma_single_use_place(once, name);
    if exists|i: int, j: int| #[trigger] reads_at(nodes, name, i, j) && once[i] != nodes[i] {
        let (i, j) = choose|i: int, j: int| #[trigger]
            reads_at(nodes, name, i, j) && once[i] != nodes[i];
        let e = lemma_changed(nodes, i);
        lemma_match(nodes, e);
        lemma_replaced_reads(nodes, e, j, p);
        assert(single_use(nodes, name));
    } else {
        assert forall|i: int, j: int| #[trigger] reads_at(nodes, name, i, j) implies i == r && j
            == at by {
            assert(once[i] == nodes[i]);
            assert(reads_at(once, name, i, j));
        }
        if once[r] != nodes[r] {
            let e = lemma_changed(nodes, r);
            lemma_match_source(nodes, e);
            assert(once[r].inputs[at].name == name);
            let (s, k) = choose|s: int, k: int| #[trigger] reads_at(nodes, name, s, k);
            assert(reads_at(nodes, name, s, k));
            assert(once[s] == nodes[s]);
        }
        assert(reads_at(nodes, name, r, at));
        lemma_one_place(nodes, name, r, at);
    }
    law_folding_keeps_outputs(nodes, r);
    if !(once[r].node_type is Gelu) {
        assert(once[r] == nodes[r]);
        assert(reads_at(nodes, name, r, at));
        let (q, l) = lemma_single_use_place(nodes, name);
    }
}

/// What the scaling, the Erf and the Add give after folding, they gave
/// before.
proof fn lemma_parts_before(nodes: Seq<NodeModel>, e: int)
    requires
        well_made(nodes),
        0 <= e < nodes.len(),
        match_at(coalesced(nodes), e) is Some,
    ensures
        nodes[e] == coalesced(nodes)[e],
        erf_argument(nodes, e) == erf_argument(coalesced(nodes), e),
        erf_plus_one_reader(nodes, e) == erf_plus_one_reader(coalesced(nodes), e),
{
    let once = coalesced(nodes);
    lemma_coalesced_len(nodes);
    law_folding_keeps_outputs(nodes, e);
    let s = producer(once, once[e].inputs[0].name)->0;
    lemma_producers_stay(nodes, once[e].inputs[0].name);
    lemma_producer(nodes, once[e].inputs[0].name);
    law_folding_keeps_outputs(nodes, s);
    assert(once[s] == nodes[s]);
    lemma_scalars_stay(nodes, nodes[s].inputs[0], nodes.len());
    lemma_scalars_stay(nodes, nodes[s].inputs[1], nodes.len());
    lemma_single_use_before(nodes, s);
    assert(erf_argument(nodes, e) == erf_argument(once, e));

    let out = once[e].outputs[0].name;
    lemma_single_use_before(nodes, e);
    let a = first_consumer(once, out)->0;
    lemma_first_consumer(once, out);
    law_folding_keeps_outputs(nodes, a);
    assert(once[a] == nodes[a]);
    lemma_scalars_stay(nodes, other_of(nodes[a], out)->0, nodes.len());
    lemma_single_use_before(nodes, a);
    let sum = nodes[a].outputs[0].name;
    let m = first_consumer(once, sum)->0;
    lemma_first_consumer(once, sum);
    law_folding_keeps_outputs(nodes, m);
    assert(once[m] == nodes[m]);
}

/// A value that two nodes read has no single use.
proof fn lemma_two_readers(nodes: Seq<NodeModel>, name: Seq<char>, i: int, j: int, k: int, l: int)
    requires
        reads_at(nodes, name, i, j),
        reads_at(nodes, name, k, l),
        i != k || j != l,
    ensures
        !single_use(nodes, name),
{
    if single_use(nodes, name) {
        let (r, at) = lemma_single_use_place(nodes, name);
    }
}

/// Where the value that is multiplied is the one that is scaled, it has two
/// readers, so it is not a halved value with one.
proof fn lemma_side_is_read_twice(nodes: Seq<NodeModel>, e: int)
    requires
        well_made(nodes),
        0 <= e < nodes.len(),
        nodes[e].node_type is Erf,
        erf_argument(nodes, e) is Some,
        erf_plus_one_reader(nodes, e) is Some,
        ({
            let (m, side) = erf_plus_one_reader(nodes, e)->0;
            side.name == (erf_argument(nodes, e)->0).name
        }),
    ensures
        ({
            let (m, side) = erf_plus_one_reader(nodes, e)->0;
            halved(nodes, side) == (side, false)
        }),
{
    let x = erf_argument(nodes, e)->0;
    let (m, side) = erf_plus_one_reader(nodes, e)->0;
    let s = producer(nodes, nodes[e].inputs[0].name)->0;
    lemma_producer(nodes, nodes[e].inputs[0].name);
    let out = nodes[e].outputs[0].name;
    let a = first_consumer(nodes, out)->0;
    lemma_first_consumer(nodes, out);
    let sum = nodes[a].outputs[0].name;
    lemma_first_consumer(nodes, sum);
    assert(has_output(nodes[a], sum));
    let xj: int = if const_scalar_of(nodes, nodes[s].inputs[1]) is Some {
        0
    } else {
        1
    };
    assert(nodes[s].inputs[xj] == x);
    assert(reads_at(nodes, x.name, s, xj));
    let sj: int = if nodes[m].inputs[0].name == sum {
        1
    } else {
        0
    };
    assert(nodes[m].inputs[sj] == side);
    assert(reads_at(nodes, x.name, m, sj));
    if s == m && xj == sj {
        // The other input of the node is a constant and the sum.
        assert(nodes[m].inputs[1 - sj].name == sum);
        assert(const_scalar_of(nodes, nodes[m].inputs[1 - sj]) is Some);
        lemma_constant_input(nodes, m, 1 - sj, a);
    }
    lemma_two_readers(nodes, x.name, s, xj, m, sj);
    lemma_producer(nodes, side.name);
    if let Some(q) = producer(nodes, side.name) {
        if nodes[q].node_type is Mul {
            assert(nodes[q].outputs[0].name == side.name);
        }
    }
}

/// After folding there is nothing left to fold.
proof fn lemma_nothing_left(nodes: Seq<NodeModel>, e: int)
    requires
        well_made(nodes),
        0 <= e < nodes.len(),
    ensures
        match_at(coalesced(nodes), e) is None,
{
    let once = coalesced(nodes);
    if match_at(once, e) is Some {
        lemma_coalesced_len(nodes);
        lemma_match(once, e);
        lemma_parts_before(nodes, e);
        lemma_match_is_folded(nodes, e);
        let x = erf_argument(nodes, e)->0;
        let (m, side) = erf_plus_one_reader(nodes, e)->0;
        let out = nodes[e].outputs[0].name;
        let a = first_consumer(nodes, out)->0;
        lemma_first_consumer(nodes, out);
        lemma_first_consumer(nodes, nodes[a].outputs[0].name);
        law_folding_keeps_outputs(nodes, m);
        assert(once[m] == nodes[m]);
        lemma_producers_stay(nodes, side.name);
        lemma_producer(nodes, side.name);
        let (core, half_on_x) = halved(once, side);
        if half_on_x {
            let q = producer(nodes, side.name)->0;
            law_folding_keeps_outputs(nodes, q);
            assert(once[q] == nodes[q]);
            lemma_single_use_before(nodes, q);
            lemma_scalars_stay(nodes, nodes[q].inputs[0], nodes.len());
            lemma_scalars_stay(nodes, nodes[q].inputs[1], nodes.len());
            assert(halved(nodes, side) == halved(once, side));
        } else {
            assert(core == side);
            lemma_side_is_read_twice(nodes, e);
            lemma_single_use_before(nodes, m);
            let h = first_consumer(once, nodes[m].outputs[0].name)->0;
            lemma_first_consumer(once, nodes[m].outputs[0].name);
            law_folding_keeps_outputs(nodes, h);
            assert(once[h] == nodes[h]);
            let c = other_of(nodes[h], nodes[m].outputs[0].name)->0;
            lemma_scalars_stay(nodes, c, nodes.len());
        }
        assert(match_at(nodes, e) is Some);
    }
}

proof fn lemma_no_match_no_change(
    nodes: Seq<NodeModel>,
    found: spec_fn(int) -> Option<(int, NodeModel)>,
    upto: nat,
)
    requires
        forall|a: int| 0 <= a < upto ==> #[trigger] found(a) is None,
    ensures
        with_matches(nodes, found, upto) == nodes,
    decreases upto,
{
    if upto > 0 {
        lemma_no_match_no_change(nodes, found, (upto - 1) as nat);
        assert(found(upto - 1) is None);
    }
}

/// A second folding changes nothing.
pub proof fn law_folding_twice(nodes: Seq<NodeModel>)
    requires
        well_made(nodes),
    ensures
        coalesced(coalesced(nodes)) == coalesced(nodes),
{
    let once = coalesced(nodes);
    lemma_coalesced_len(nodes);
    let found = |a: int| match_at(once, a);
    assert forall|a: int| 0 <= a < once.len() implies #[trigger] found(a) is None by {
        lemma_nothing_left(nodes, a);
    }
    lemma_no_match_no_change(once, found, once.len());
}

} // verus!
