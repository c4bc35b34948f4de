//! Folds `Cast(int -> float) -> Mul(scale) -> Add(bias) [-> Gelu]` into one
//! `DequantAffine` node.
//!
//! The chain follows every integer matrix product. The last node of the chain
//! is the one that is replaced, so the name that later nodes read stays.

use vstd::prelude::*;
use vstd::string::StringExecFns;
use crate::ir::{
    arg_models, copy_args, node_models, ArgModel, Argument, AttrModel, AttributeValue, Attributes,
    NodeModel, NodeType, RawNode,
};
use crate::simplify::graph::{
    apply_replacements, consumers, first_consumer, lemma_consumers, lemma_first_consumer,
    lemma_with_matches, other_input, other_of, replaced, single_use,
    with_matches, GraphIndex,
};

verus! {

/// A cast of an integer tensor to a float one.
pub open spec fn int_to_float_cast(node: NodeModel) -> bool {
    &&& node.node_type is Cast
    &&& node.inputs.len() > 0
    &&& node.outputs.len() > 0
    &&& node.inputs[0].ty.on_device()
    &&& node.outputs[0].ty.on_device()
    &&& node.inputs[0].ty.elem().signed_int() || node.inputs[0].ty.elem().unsigned_int()
    &&& node.outputs[0].ty.elem().float()
}

/// The node that replaces `last`: it reads `x`, `scale` and `bias`, makes what
/// `last` made, and says whether GELU is applied.
pub open spec fn fused_model(
    last: NodeModel,
    x: ArgModel,
    scale: ArgModel,
    bias: ArgModel,
    apply_gelu: bool,
) -> NodeModel {
    NodeModel {
        node_type: NodeType::DequantAffine,
        name: last.name + "_dequant_affine"@,
        inputs: seq![x, scale, bias],
        outputs: last.outputs,
        attrs: Map::<Seq<char>, AttrModel>::empty().insert(
            "apply_gelu"@,
            AttrModel::Int64(
                if apply_gelu {
                    1
                } else {
                    0
                },
            ),
        ),
    }
}

/// The node is a Gelu of `name`.
pub open spec fn gelu_of(node: NodeModel, name: Seq<char>) -> bool {
    node.node_type is Gelu && node.inputs.len() > 0 && node.inputs[0].name == name
}

/// The first of the readers, from place `from` on, that is a Gelu of `name`.
pub open spec fn first_gelu(
    nodes: Seq<NodeModel>,
    readers: Seq<int>,
    name: Seq<char>,
    from: int,
) -> Option<int>
    decreases readers.len() - from,
{
    if from >= readers.len() {
        None
    } else if gelu_of(nodes[readers[from]], name) {
        Some(readers[from])
    } else {
        first_gelu(nodes, readers, name, from + 1)
    }
}

/// The chain that starts at the cast `c`: the node to replace and what goes
/// in its place. The cast and the product must each have one reader; the sum
/// may have more, and ends the chain unless a Gelu reads it.
pub open spec fn match_at(nodes: Seq<NodeModel>, c: int) -> Option<(int, NodeModel)> {
    let cast = nodes[c];
    if !int_to_float_cast(cast) || !single_use(nodes, cast.outputs[0].name) {
        None
    } else {
        let xf = cast.outputs[0].name;
        let mul = nodes[first_consumer(nodes, xf)->0];
        if !(mul.node_type is Mul) || mul.outputs.len() == 0 || !single_use(
            nodes,
            mul.outputs[0].name,
        ) {
            None
        } else {
            let xs = mul.outputs[0].name;
            let a = first_consumer(nodes, xs)->0;
            let add = nodes[a];
            match (other_of(mul, xf), other_of(add, xs)) {
                (Some(scale), Some(bias)) => if !(add.node_type is Add) || add.outputs.len() == 0
                    || !scale.ty.on_device() || !bias.ty.on_device() {
                    None
                } else {
                    let y = add.outputs[0].name;
                    match first_gelu(nodes, consumers(nodes, y), y, 0) {
                        Some(g) => Some(
                            (g, fused_model(nodes[g], cast.inputs[0], scale, bias, true)),
                        ),
                        None => Some((a, fused_model(add, cast.inputs[0], scale, bias, false))),
                    }
                },
                _ => None,
            }
        }
    }
}

/// Whether the node casts an integer tensor to a float one.
pub fn is_int_to_float_cast(node: &RawNode) -> (r: bool)
    ensures
        r == int_to_float_cast(node@),
{
    if node.node_type != NodeType::Cast || node.inputs.len() == 0 || node.outputs.len() == 0 {
        return false;
    }
    assert(node@.inputs[0] == node.inputs@[0]@);
    assert(node@.outputs[0] == node.outputs@[0]@);
    if !node.inputs[0].ty.is_on_device() || !node.outputs[0].ty.is_on_device() {
        return false;
    }
    let from = node.inputs[0].ty.elem_type();
    let to = node.outputs[0].ty.elem_type();
    (from.is_int() || from.is_uint()) && to.is_float()
}

/// The node that replaces `last`.
pub fn fused_node(
    last: &RawNode,
    x: &Argument,
    scale: &Argument,
    bias: &Argument,
    apply_gelu: bool,
) -> (r: RawNode)
    ensures
        r@ == fused_model(last@, x@, scale@, bias@, apply_gelu),
{
    let mut attrs: Attributes = Attributes::new();
    attrs.insert(
        String::from_str("apply_gelu"),
        AttributeValue::Int64(
            if apply_gelu {
                1
            } else {
                0
            },
        ),
    );
    let mut inputs: Vec<Argument> = Vec::new();
    inputs.push(x.clone());
    inputs.push(scale.clone());
    inputs.push(bias.clone());
    assert(arg_models(inputs@) =~= seq![x@, scale@, bias@]);
    RawNode {
        node_type: NodeType::DequantAffine,
        name: last.name.clone().concat("_dequant_affine"),
        inputs,
        outputs: copy_args(&last.outputs),
        attrs,
    }
}

/// The chain that starts at the node `cast_idx`, if there is one.
pub fn try_match(cast_idx: usize, graph: &GraphIndex<'_>) -> (r: Option<(usize, RawNode)>)
    requires
        graph.wf(),
        cast_idx < graph.nodes@.len(),
    ensures
        r is Some == match_at(graph.graph(), cast_idx as int) is Some,
        r matches Some((i, node)) ==> match_at(graph.graph(), cast_idx as int) == Some(
            (i as int, node@),
        ) && i < graph.nodes@.len(),
{
    let ghost g = graph.graph();
    let cast: &RawNode = &graph.nodes[cast_idx];
    assert(g[cast_idx as int] == cast@);
    if !is_int_to_float_cast(cast) {
        return None;
    }
    assert(cast@.inputs[0] == cast.inputs@[0]@);
    assert(cast@.outputs[0] == cast.outputs@[0]@);
    let xf: &String = &cast.outputs[0].name;
    if !graph.is_single_use(xf) {
        return None;
    }
    let mul_idx: usize = match graph.first_consumer_of(xf) {
        Some(i) => i,
        None => return None,
    };
    let mul: &RawNode = &graph.nodes[mul_idx];
    assert(g[mul_idx as int] == mul@);
    if mul.node_type != NodeType::Mul || mul.outputs.len() == 0 {
        return None;
    }
    assert(mul@.outputs[0] == mul.outputs@[0]@);
    let xs: &String = &mul.outputs[0].name;
    if !graph.is_single_use(xs) {
        return None;
    }
    let scale: &Argument = match other_input(mul, xf) {
        Some(a) => a,
        None => return None,
    };
    let add_idx: usize = match graph.first_consumer_of(xs) {
        Some(i) => i,
        None => return None,
    };
    let add: &RawNode = &graph.nodes[add_idx];
    assert(g[add_idx as int] == add@);
    let bias: &Argument = match other_input(add, xs) {
        Some(a) => a,
        None => return None,
    };
    if add.node_type != NodeType::Add || add.outputs.len() == 0 || !scale.ty.is_on_device()
        || !bias.ty.is_on_device() {
        return None;
    }
    assert(add@.outputs[0] == add.outputs@[0]@);
    let x: &Argument = &cast.inputs[0];
    let y: &String = &add.outputs[0].name;
    if let Some(readers) = graph.consumers_of(y) {
        let ghost all = consumers(g, y@);
        let mut k: usize = 0;
        while k < readers.len()
            invariant
                k <= readers.len(),
                graph.wf(),
                g == graph.graph(),
                all == consumers(g, y@),
                readers@.len() == all.len(),
                forall|z: int|
                    0 <= z < readers@.len() ==> (#[trigger] readers@[z]) as int == all[z]
                        && readers@[z] < graph.nodes@.len(),
                first_gelu(g, all, y@, k as int) == first_gelu(g, all, y@, 0),
                match_at(g, cast_idx as int) == (match first_gelu(g, all, y@, 0) {
                    Some(i) => Some((i, fused_model(g[i], x@, scale@, bias@, true))),
                    None => Some((add_idx as int, fused_model(add@, x@, scale@, bias@, false))),
                }),
            decreases readers.len() - k,
        {
            let gelu_idx: usize = readers[k];
            let gelu: &RawNode = &graph.nodes[gelu_idx];
            assert(g[gelu_idx as int] == gelu@);
            if gelu.node_type == NodeType::Gelu && gelu.inputs.len() > 0 {
                assert(gelu@.inputs[0] == gelu.inputs@[0]@);
                if gelu.inputs[0].name == *y {
                    return Some((gelu_idx, fused_node(gelu, x, scale, bias, true)));
                }
            }
            k += 1;
        }
    }
    Some((add_idx, fused_node(add, x, scale, bias, false)))
}

/// The graph after every chain is folded.
pub open spec fn coalesced(nodes: Seq<NodeModel>) -> Seq<NodeModel> {
    with_matches(nodes, |i: int| match_at(nodes, i), nodes.len())
}

/// Folds every chain of the graph.
pub fn coalesce_dequant_affine(nodes: Vec<RawNode>) -> (r: Vec<RawNode>)
    ensures
        node_models(r@) == coalesced(node_models(nodes@)),
{
    let ghost g = node_models(nodes@);
    let ghost found = |i: int| match_at(g, i);
    let mut reps: Vec<(usize, RawNode)> = Vec::new();
    let graph: GraphIndex<'_> = GraphIndex::new(&nodes);
    let mut i: usize = 0;
    while i < nodes.len()
        invariant
            i <= nodes.len(),
            graph.wf(),
            graph.nodes == nodes,
            g == node_models(nodes@),
            found == (|i: int| match_at(g, i)),
            forall|k: int| 0 <= k < reps@.len() ==> (#[trigger] reps@[k]).0 < nodes@.len(),
            replaced(g, reps@) == with_matches(g, found, i as nat),
        decreases nodes.len() - i,
    {
        if let Some((at, node)) = try_match(i, &graph) {
            let ghost before = reps@;
            reps.push((at, node));
            assert(reps@.drop_last() =~= before);
        }
        i += 1;
    }
    apply_replacements(nodes, reps)
}

/// A Gelu that is found is one of the readers.
pub proof fn lemma_first_gelu(nodes: Seq<NodeModel>, readers: Seq<int>, name: Seq<char>, from: int)
    requires
        0 <= from,
    ensures
        first_gelu(nodes, readers, name, from) matches Some(g) ==> gelu_of(nodes[g], name) && exists|
            k: int,
        |
            0 <= k < readers.len() && #[trigger] readers[k] == g,
    decreases readers.len() - from,
{
    if from < readers.len() && !gelu_of(nodes[readers[from]], name) {
        lemma_first_gelu(nodes, readers, name, from + 1);
    }
}

/// A match replaces an Add or a Gelu of the graph and keeps what it made.
proof fn lemma_match(nodes: Seq<NodeModel>, c: int)
    ensures
        match_at(nodes, c) matches Some((i, node)) ==> {
            &&& 0 <= i < nodes.len()
            &&& node.outputs == nodes[i].outputs
            &&& node.node_type is DequantAffine
            &&& nodes[i].node_type is Add || nodes[i].node_type is Gelu
        },
{
    if let Some((i, node)) = match_at(nodes, c) {
        let mul = nodes[first_consumer(nodes, nodes[c].outputs[0].name)->0];
        lemma_first_consumer(nodes, mul.outputs[0].name);
        let add = nodes[first_consumer(nodes, mul.outputs[0].name)->0];
        let y = add.outputs[0].name;
        lemma_first_gelu(nodes, consumers(nodes, y), y, 0);
        lemma_consumers(nodes, y);
    }
}

/// Folding keeps the number of nodes and every output (name and type); the only
/// nodes that change are Adds and Gelus, which become fused nodes.
pub proof fn law_folding_keeps_outputs(nodes: Seq<NodeModel>, i: int)
    requires
        0 <= i < nodes.len(),
    ensures
        coalesced(nodes).len() == nodes.len(),
        coalesced(nodes)[i].outputs == nodes[i].outputs,
        coalesced(nodes)[i] == nodes[i] || ((nodes[i].node_type is Add || nodes[i].node_type is Gelu)
            && coalesced(nodes)[i].node_type is DequantAffine),
{
    let found = |a: int| match_at(nodes, a);
    assert forall|a: int| 0 <= a < nodes.len() implies (#[trigger] found(a) matches Some((j, _))
        ==> 0 <= j < nodes.len()) by {
        lemma_match(nodes, a);
    }
    lemma_with_matches(nodes, found, nodes.len());
    if coalesced(nodes)[i] != nodes[i] {
        let a = choose|a: int|
            0 <= a < nodes.len() && #[trigger] found(a) == Some((i, coalesced(nodes)[i]));
        lemma_match(nodes, a);
    }
}

/// A graph without casts is left as it is.
pub proof fn law_no_cast_no_change(nodes: Seq<NodeModel>)
    requires
        forall|i: int| 0 <= i < nodes.len() ==> !((#[trigger] nodes[i]).node_type is Cast),
    ensures
        coalesced(nodes) == nodes,
{
    lemma_no_cast(nodes, nodes.len());
}

proof fn lemma_no_cast(nodes: Seq<NodeModel>, upto: nat)
    requires
        upto <= nodes.len(),
        forall|i: int| 0 <= i < nodes.len() ==> !((#[trigger] nodes[i]).node_type is Cast),
    ensures
        with_matches(nodes, |i: int| match_at(nodes, i), upto) == nodes,
    decreases upto,
{
    if upto > 0 {
        lemma_no_cast(nodes, (upto - 1) as nat);
        assert(match_at(nodes, upto - 1) is None);
    }
}

} // verus!
