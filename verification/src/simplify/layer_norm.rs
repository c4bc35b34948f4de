//! Folds the expanded layer normalization over the last axis into one node:
//!
//! ```text
//! mean = ReduceMean(x)            centered = x - mean
//! var  = ReduceMean(centered^2)   y = centered / sqrt(var + eps) * gamma + beta
//! ```
//!
//! The last Add is the node that is replaced.

use vstd::prelude::*;
use vstd::string::StringExecFns;
use crate::ir::{
    arg_models, copy_args, known_tensor, node_models, ArgModel, ArgType, Argument, AttrModel,
    AttributeValue, Attributes, NodeModel, NodeType, RawNode, TensorType, TypeModel,
};
use crate::simplify::graph::{
    apply_replacements, const_scalar_of, first_consumer, initializer_of, lemma_first_consumer,
    lemma_with_matches, other_input, other_of, producer, replaced, single_use, tensor_and_const, with_matches, GraphIndex,
};
use crate::simplify::scalars::{
    in_epsilon_range, is_epsilon, is_near_two, narrow, narrowed, near_two,
};

verus! {

/// The argument with the shape of its constant put on its type, where the
/// type does not know all of it.
pub open spec fn shaped(arg: ArgModel) -> ArgModel {
    if arg.ty.shape_known() {
        arg
    } else {
        match (arg.ty, arg.value) {
            (TypeModel::Tensor(t), Some(d)) => ArgModel {
                name: arg.name,
                ty: TypeModel::Tensor(known_tensor(t.dtype, d.shape)),
                value: arg.value,
            },
            _ => arg,
        }
    }
}

/// The node that replaces `last`: the normalization of `x`, making what `last`
/// made. The epsilon is narrowed to an `f32`; the scale and shift are not
/// widened first (`stash_type` 0).
pub open spec fn ln_model(
    last: NodeModel,
    x: ArgModel,
    gamma: ArgModel,
    beta: ArgModel,
    eps: u64,
) -> NodeModel {
    NodeModel {
        node_type: NodeType::LayerNormalization,
        name: last.name + "_ln"@,
        inputs: seq![x, shaped(gamma), shaped(beta)],
        outputs: last.outputs,
        attrs: Map::<Seq<char>, AttrModel>::empty().insert(
            "epsilon"@,
            AttrModel::Float32(narrowed(eps) as u32),
        ).insert("axis"@, AttrModel::Int64(-1i64)).insert("stash_type"@, AttrModel::Int64(0)),
    }
}

/// The axes that a reduction names: by attribute, or else by a constant
/// second input.
pub open spec fn axes_of(node: NodeModel) -> Option<Seq<i64>> {
    if node.attrs.contains_key("axes"@) {
        match node.attrs["axes"@] {
            AttrModel::Int64s(v) => Some(v),
            AttrModel::Int64(v) => Some(seq![v]),
            _ => None,
        }
    } else if node.inputs.len() < 2 {
        None
    } else {
        match node.inputs[1].value {
            Some(d) => d.ints,
            None => None,
        }
    }
}

/// A mean over the last axis that keeps the axis.
pub open spec fn last_axis_mean(node: NodeModel) -> bool {
    &&& node.node_type is ReduceMean
    &&& node.inputs.len() > 0
    &&& node.inputs[0].ty.ranked() >= 1
    &&& node.attrs.contains_key("keepdims"@) ==> node.attrs["keepdims"@] == AttrModel::Int64(1)
    &&& axes_of(node) matches Some(axes) && axes.len() == 1 && (axes[0] == -1 || axes[0]
        == node.inputs[0].ty.ranked() - 1)
}

/// A constant of rank 1.
pub open spec fn rank1_param(arg: ArgModel) -> bool {
    arg.value is Some && arg.ty.ranked() == 1
}

/// What the node squares, by Pow with exponent 2 or by Mul with itself, where
/// the square has one reader.
pub open spec fn squared(nodes: Seq<NodeModel>, sq: NodeModel) -> Option<ArgModel> {
    if sq.inputs.len() < 2 || !single_use(nodes, sq.outputs[0].name) {
        None
    } else if sq.node_type is Pow {
        match const_scalar_of(nodes, sq.inputs[1]) {
            Some(e) => if near_two(e) {
                Some(sq.inputs[0])
            } else {
                None
            },
            None => None,
        }
    } else if sq.node_type is Mul && sq.inputs[0].name == sq.inputs[1].name {
        Some(sq.inputs[0])
    } else {
        None
    }
}

/// The input of the mean over the last axis that makes `arg`, where that mean
/// has one reader.
pub open spec fn mean_input(nodes: Seq<NodeModel>, arg: ArgModel) -> Option<ArgModel> {
    match producer(nodes, arg.name) {
        None => None,
        Some(p) => if last_axis_mean(nodes[p]) && single_use(nodes, nodes[p].outputs[0].name) {
            Some(nodes[p].inputs[0])
        } else {
            None
        },
    }
}

/// Variance and epsilon under the Sqrt `s`.
pub open spec fn variance_and_eps(nodes: Seq<NodeModel>, s: int) -> Option<(ArgModel, u64)> {
    match producer(nodes, nodes[s].inputs[0].name) {
        None => None,
        Some(a) => if !(nodes[a].node_type is Add) || !single_use(
            nodes,
            nodes[a].outputs[0].name,
        ) {
            None
        } else {
            match tensor_and_const(nodes, nodes[a]) {
                Some((var, c)) => if is_epsilon(c) {
                    Some((var, c))
                } else {
                    None
                },
                None => None,
            }
        },
    }
}

/// What is centred, given its square's mean: `(x, centered)`.
pub open spec fn centred_by(nodes: Seq<NodeModel>, var: ArgModel) -> Option<(ArgModel, ArgModel)> {
    match mean_input(nodes, var) {
        None => None,
        Some(sq) => match producer(nodes, sq.name) {
            None => None,
            Some(q) => match squared(nodes, nodes[q]) {
                None => None,
                Some(centered) => match producer(nodes, centered.name) {
                    None => None,
                    Some(u) => {
                        let sub = nodes[u];
                        if !(sub.node_type is Sub) || sub.inputs.len() < 2 {
                            None
                        } else {
                            match mean_input(nodes, sub.inputs[1]) {
                                Some(of) => if of.name == sub.inputs[0].name {
                                    Some((sub.inputs[0], centered))
                                } else {
                                    None
                                },
                                None => None,
                            }
                        }
                    },
                },
            },
        },
    }
}

/// The first reader of `name`, where it is a `t`, and the rank-1 constant that
/// it combines `name` with.
pub open spec fn with_param(nodes: Seq<NodeModel>, name: Seq<char>, t: NodeType) -> Option<
    (int, ArgModel),
> {
    match first_consumer(nodes, name) {
        None => None,
        Some(i) => match other_of(nodes[i], name) {
            None => None,
            Some(raw) => match initializer_of(nodes, raw) {
                Some(param) => if nodes[i].node_type == t && rank1_param(param) {
                    Some((i, param))
                } else {
                    None
                },
                None => None,
            },
        },
    }
}

/// The expansion around the Sqrt `s`: the node to replace and what goes in
/// its place.
pub open spec fn match_at(nodes: Seq<NodeModel>, s: int) -> Option<(int, NodeModel)> {
    let sqrt = nodes[s];
    if !(sqrt.node_type is Sqrt) || sqrt.inputs.len() == 0 || sqrt.outputs.len() == 0 || !single_use(
        nodes,
        sqrt.outputs[0].name,
    ) {
        None
    } else {
        match variance_and_eps(nodes, s) {
            None => None,
            Some((var, eps)) => match centred_by(nodes, var) {
                None => None,
                Some((x, centered)) => {
                    let sd = sqrt.outputs[0].name;
                    let div = nodes[first_consumer(nodes, sd)->0];
                    if !(div.node_type is Div) || div.inputs.len() < 2 || div.outputs.len() == 0
                        || !single_use(nodes, div.outputs[0].name) || div.inputs[0].name
                        != centered.name || div.inputs[1].name != sd {
                        None
                    } else {
                        match with_param(nodes, div.outputs[0].name, NodeType::Mul) {
                            None => None,
                            Some((m, gamma)) => if nodes[m].outputs.len() == 0 || !single_use(
                                nodes,
                                nodes[m].outputs[0].name,
                            ) {
                                None
                            } else {
                                match with_param(nodes, nodes[m].outputs[0].name, NodeType::Add) {
                                    None => None,
                                    Some((a, beta)) => Some(
                                        (a, ln_model(nodes[a], x, gamma, beta, eps)),
                                    ),
                                }
                            },
                        }
                    }
                },
            },
        }
    }
}

/// The argument with the shape of its constant put on its type.
pub fn with_static_shape(arg: &Argument) -> (r: Argument)
    ensures
        r@ == shaped(arg@),
{
    if arg.ty.static_shape_known() {
        return arg.clone();
    }
    match (&arg.ty, &arg.value) {
        (ArgType::Tensor(t), Some(d)) => Argument {
            name: arg.name.clone(),
            ty: ArgType::Tensor(TensorType::new_known(t.dtype, &d.shape)),
            value: Some(d.clone()),
        },
        _ => arg.clone(),
    }
}

/// The node that replaces `last`.
pub fn ln_node(
    last: &RawNode,
    x: &Argument,
    gamma: &Argument,
    beta: &Argument,
    eps: u64,
) -> (r: RawNode)
    requires
        is_epsilon(eps),
    ensures
        r@ == ln_model(last@, x@, gamma@, beta@, eps),
{
    let mut attrs: Attributes = Attributes::new();
    attrs.insert(String::from_str("epsilon"), AttributeValue::Float32(narrow(eps)));
    attrs.insert(String::from_str("axis"), AttributeValue::Int64(-1));
    attrs.insert(String::from_str("stash_type"), AttributeValue::Int64(0));
    let mut inputs: Vec<Argument> = Vec::new();
    inputs.push(x.clone());
    inputs.push(with_static_shape(gamma));
    inputs.push(with_static_shape(beta));
    assert(arg_models(inputs@) =~= seq![x@, shaped(gamma@), shaped(beta@)]);
    RawNode {
        node_type: NodeType::LayerNormalization,
        name: last.name.clone().concat("_ln"),
        inputs,
        outputs: copy_args(&last.outputs),
        attrs,
    }
}

/// Whether the only axis of a list is the last one of a tensor of that rank.
fn is_last_axis(axes: &Vec<i64>, rank: usize) -> (r: bool)
    requires
        rank >= 1,
    ensures
        r == (axes@.len() == 1 && (axes@[0] == -1 || axes@[0] == rank - 1)),
{
    if axes.len() != 1 {
        return false;
    }
    let ax: i64 = axes[0];
    ax == -1 || (ax >= 0 && ax as u64 == (rank - 1) as u64)
}

/// Whether the node is a mean over the last axis that keeps the axis.
pub fn is_last_axis_reducemean(node: &RawNode) -> (r: bool)
    ensures
        r == last_axis_mean(node@),
{
    if node.node_type != NodeType::ReduceMean || node.inputs.len() == 0 {
        return false;
    }
    assert(node@.inputs[0] == node.inputs@[0]@);
    let rank: usize = node.inputs[0].ty.rank();
    if rank < 1 {
        return false;
    }
    match node.attrs.get("keepdims") {
        Some(AttributeValue::Int64(v)) => {
            if *v != 1 {
                return false;
            }
        },
        Some(_) => return false,
        None => {},
    }
    match node.attrs.get("axes") {
        Some(AttributeValue::Int64s(v)) => is_last_axis(v, rank),
        Some(AttributeValue::Int64(v)) => {
            assert(axes_of(node@)->0[0] == *v);
            *v == -1 || (*v >= 0 && *v as u64 == (rank - 1) as u64)
        },
        Some(_) => false,
        None => {
            if node.inputs.len() < 2 {
                return false;
            }
            assert(node@.inputs[1] == node.inputs@[1]@);
            match &node.inputs[1].value {
                Some(d) => match &d.ints {
                    Some(v) => is_last_axis(v, rank),
                    None => false,
                },
                None => false,
            }
        },
    }
}

/// Whether the argument is a constant of rank 1.
pub fn is_rank1_param(arg: &Argument) -> (r: bool)
    ensures
        r == rank1_param(arg@),
{
    arg.value.is_some() && arg.ty.rank() == 1
}

/// What the node squares.
pub fn square_input<'a>(sq: &'a RawNode, graph: &GraphIndex<'a>) -> (r: Option<&'a Argument>)
    requires
        graph.wf(),
        sq.outputs@.len() > 0,
    ensures
        r is Some == squared(graph.graph(), sq@) is Some,
        r matches Some(a) ==> squared(graph.graph(), sq@) == Some(a@),
{
    if sq.inputs.len() < 2 {
        return None;
    }
    assert(sq@.inputs[0] == sq.inputs@[0]@);
    assert(sq@.inputs[1] == sq.inputs@[1]@);
    assert(sq@.outputs[0] == sq.outputs@[0]@);
    if !graph.is_single_use(&sq.outputs[0].name) {
        return None;
    }
    match sq.node_type {
        NodeType::Pow => match graph.const_scalar(&sq.inputs[1]) {
            Some(e) => if is_near_two(e) {
                Some(&sq.inputs[0])
            } else {
                None
            },
            None => None,
        },
        NodeType::Mul => if sq.inputs[0].name == sq.inputs[1].name {
            Some(&sq.inputs[0])
        } else {
            None
        },
        _ => None,
    }
}

/// The input of the mean over the last axis that makes `arg`.
fn find_mean<'a>(arg: &Argument, graph: &GraphIndex<'a>) -> (r: Option<&'a Argument>)
    requires
        graph.wf(),
    ensures
        r is Some == mean_input(graph.graph(), arg@) is Some,
        r matches Some(a) ==> mean_input(graph.graph(), arg@) == Some(a@),
{
    let p: usize = match graph.producer_of(&arg.name) {
        Some(p) => p,
        None => return None,
    };
    let node: &'a RawNode = &graph.nodes[p];
    assert(graph.graph()[p as int] == node@);
    assert(node@.outputs[0] == node.outputs@[0]@);
    if !is_last_axis_reducemean(node) || !graph.is_single_use(&node.outputs[0].name) {
        return None;
    }
    assert(node@.inputs[0] == node.inputs@[0]@);
    Some(&node.inputs[0])
}

/// What is centred and the centred value, given the variance.
fn find_centred<'a>(var: &Argument, graph: &GraphIndex<'a>) -> (r: Option<
    (&'a Argument, &'a Argument),
>)
    requires
        graph.wf(),
    ensures
        r is Some == centred_by(graph.graph(), var@) is Some,
        r matches Some((x, c)) ==> centred_by(graph.graph(), var@) == Some((x@, c@)),
{
    let sq_arg: &'a Argument = match find_mean(var, graph) {
        Some(a) => a,
        None => return None,
    };
    let sq_idx: usize = match graph.producer_of(&sq_arg.name) {
        Some(i) => i,
        None => return None,
    };
    assert(graph.graph()[sq_idx as int] == graph.nodes@[sq_idx as int]@);
    let centered: &'a Argument = match square_input(&graph.nodes[sq_idx], graph) {
        Some(a) => a,
        None => return None,
    };
    let sub_idx: usize = match graph.producer_of(&centered.name) {
        Some(i) => i,
        None => return None,
    };
    let sub: &'a RawNode = &graph.nodes[sub_idx];
    assert(graph.graph()[sub_idx as int] == sub@);
    if sub.node_type != NodeType::Sub || sub.inputs.len() < 2 {
        return None;
    }
    assert(sub@.inputs[0] == sub.inputs@[0]@);
    assert(sub@.inputs[1] == sub.inputs@[1]@);
    match find_mean(&sub.inputs[1], graph) {
        Some(of) => if of.name == sub.inputs[0].name {
            Some((&sub.inputs[0], centered))
        } else {
            None
        },
        None => None,
    }
}

/// The first reader of `name` and the rank-1 constant it is combined with.
fn find_param<'a>(name: &String, t: NodeType, graph: &GraphIndex<'a>) -> (r: Option<
    (usize, &'a Argument),
>)
    requires
        graph.wf(),
    ensures
        r is Some == with_param(graph.graph(), name@, t) is Some,
        r matches Some((i, a)) ==> with_param(graph.graph(), name@, t) == Some((i as int, a@)) && i
            < graph.nodes@.len(),
{
    let i: usize = match graph.first_consumer_of(name) {
        Some(i) => i,
        None => return None,
    };
    let node: &'a RawNode = &graph.nodes[i];
    assert(graph.graph()[i as int] == node@);
    let raw: &'a Argument = match other_input(node, name) {
        Some(a) => a,
        None => return None,
    };
    match graph.peel_initializer(raw) {
        Some(param) => if node.node_type == t && is_rank1_param(param) {
            Some((i, param))
        } else {
            None
        },
        None => None,
    }
}

/// The expansion around the node `sqrt_idx`, if it is one.
pub fn try_match_ln(sqrt_idx: usize, graph: &GraphIndex<'_>) -> (r: Option<(usize, RawNode)>)
    requires
        graph.wf(),
        sqrt_idx < graph.nodes@.len(),
    ensures
        r is Some == match_at(graph.graph(), sqrt_idx as int) is Some,
        r matches Some((i, node)) ==> match_at(graph.graph(), sqrt_idx as int) == Some(
            (i as int, node@),
        ) && i < graph.nodes@.len(),
{
    let ghost g = graph.graph();
    let sqrt: &RawNode = &graph.nodes[sqrt_idx];
    assert(g[sqrt_idx as int] == sqrt@);
    if sqrt.node_type != NodeType::Sqrt || sqrt.inputs.len() == 0 || sqrt.outputs.len() == 0 {
        return None;
    }
    assert(sqrt@.inputs[0] == sqrt.inputs@[0]@);
    assert(sqrt@.outputs[0] == sqrt.outputs@[0]@);
    let sd: &String = &sqrt.outputs[0].name;
    if !graph.is_single_use(sd) {
        return None;
    }

    let add_idx: usize = match graph.producer_of(&sqrt.inputs[0].name) {
        Some(i) => i,
        None => return None,
    };
    let add: &RawNode = &graph.nodes[add_idx];
    assert(g[add_idx as int] == add@);
    assert(add@.outputs[0] == add.outputs@[0]@);
    if add.node_type != NodeType::Add || !graph.is_single_use(&add.outputs[0].name) {
        return None;
    }
    let (var, eps): (&Argument, u64) = match graph.split_tensor_and_const(add) {
        Some(p) => p,
        None => return None,
    };
    if !in_epsilon_range(eps) {
        return None;
    }
    assert(variance_and_eps(g, sqrt_idx as int) == Some((var@, eps)));

    let (x, centered): (&Argument, &Argument) = match find_centred(var, graph) {
        Some(p) => p,
        None => return None,
    };

    let div_idx: usize = match graph.first_consumer_of(sd) {
        Some(i) => i,
        None => return None,
    };
    let div: &RawNode = &graph.nodes[div_idx];
    assert(g[div_idx as int] == div@);
    if div.node_type != NodeType::Div || div.inputs.len() < 2 || div.outputs.len() == 0 {
        return None;
    }
    assert(div@.inputs[0] == div.inputs@[0]@);
    assert(div@.inputs[1] == div.inputs@[1]@);
    assert(div@.outputs[0] == div.outputs@[0]@);
    if !graph.is_single_use(&div.outputs[0].name) || !(div.inputs[0].name == centered.name) || !(
    div.inputs[1].name == *sd) {
        return None;
    }

    let (mul_idx, gamma): (usize, &Argument) = match find_param(
        &div.outputs[0].name,
        NodeType::Mul,
        graph,
    ) {
        Some(p) => p,
        None => return None,
    };
    let mul: &RawNode = &graph.nodes[mul_idx];
    assert(g[mul_idx as int] == mul@);
    if mul.outputs.len() == 0 {
        return None;
    }
    assert(mul@.outputs[0] == mul.outputs@[0]@);
    if !graph.is_single_use(&mul.outputs[0].name) {
        return None;
    }

    let (last_idx, beta): (usize, &Argument) = match find_param(
        &mul.outputs[0].name,
        NodeType::Add,
        graph,
    ) {
        Some(p) => p,
        None => return None,
    };
    let last: &RawNode = &graph.nodes[last_idx];
    assert(g[last_idx as int] == last@);
    Some((last_idx, ln_node(last, x, gamma, beta, eps)))
}

/// The graph after every expansion is folded.
pub open spec fn coalesced(nodes: Seq<NodeModel>) -> Seq<NodeModel> {
    with_matches(nodes, |i: int| match_at(nodes, i), nodes.len())
}

/// Folds every expanded layer normalization of the graph.
pub fn coalesce_layer_norm(nodes: Vec<RawNode>) -> (r: Vec<RawNode>)
    ensures
        node_models(r@) == coalesced(node_models(nodes@)),
{
    let ghost g = node_models(nodes@);
    let ghost found = |i: int| match_at(g, i);
    let mut reps: Vec<(usize, RawNode)> = Vec::new();
    let graph: GraphIndex<'_> = GraphIndex::new(&nodes);
    let mut i: usize = 0;
    while i < nodes.len()
        invariant
            i <= nodes.len(),
            graph.wf(),
            graph.nodes == nodes,
            g == node_models(nodes@),
            found == (|i: int| match_at(g, i)),
            forall|k: int| 0 <= k < reps@.len() ==> (#[trigger] reps@[k]).0 < nodes@.len(),
            replaced(g, reps@) == with_matches(g, found, i as nat),
        decreases nodes.len() - i,
    {
        if let Some((at, node)) = try_match_ln(i, &graph) {
            let ghost before = reps@;
            reps.push((at, node));
            assert(reps@.drop_last() =~= before);
        }
        i += 1;
    }
    apply_replacements(nodes, reps)
}

/// A match replaces an Add of the graph and keeps what it made.
proof fn lemma_match(nodes: Seq<NodeModel>, s: int)
    ensures
        match_at(nodes, s) matches Some((i, node)) ==> {
            &&& 0 <= i < nodes.len()
            &&& node.outputs == nodes[i].outputs
            &&& node.node_type is LayerNormalization
            &&& nodes[i].node_type is Add
        },
{
    if let Some((i, node)) = match_at(nodes, s) {
        let (var, eps) = variance_and_eps(nodes, s)->0;
        let (x, centered) = centred_by(nodes, var)->0;
        let div = nodes[first_consumer(nodes, nodes[s].outputs[0].name)->0];
        let (m, gamma) = with_param(nodes, div.outputs[0].name, NodeType::Mul)->0;
        lemma_first_consumer(nodes, nodes[m].outputs[0].name);
    }
}

/// Folding keeps the number of nodes and every output (name and type); the only
/// nodes that change are Adds, which become normalizations.
pub proof fn law_folding_keeps_outputs(nodes: Seq<NodeModel>, i: int)
    requires
        0 <= i < nodes.len(),
    ensures
        coalesced(nodes).len() == nodes.len(),
        coalesced(nodes)[i].outputs == nodes[i].outputs,
        coalesced(nodes)[i] == nodes[i] || (nodes[i].node_type is Add && coalesced(
            nodes,
        )[i].node_type is LayerNormalization),
{
    let found = |a: int| match_at(nodes, a);
    assert forall|a: int| 0 <= a < nodes.len() implies (#[trigger] found(a) matches Some((j, _))
        ==> 0 <= j < nodes.len()) by {
        lemma_match(nodes, a);
    }
    lemma_with_matches(nodes, found, nodes.len());
    if coalesced(nodes)[i] != nodes[i] {
        let a = choose|a: int|
            0 <= a < nodes.len() && #[trigger] found(a) == Some((i, coalesced(nodes)[i]));
        lemma_match(nodes, a);
    }
}

} // verus!
