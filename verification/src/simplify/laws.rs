//! The folds keep what a graph computes.
//!
//! A reading gives every value of a graph a meaning. Where every node of a
//! graph holds under a reading, every node of the folded graph does too,
//! whatever the operators mean beyond the few equations that are named here.

use vstd::prelude::*;
use crate::ir::{
    node_models, ArgModel, Argument, AttrModel, DType, NodeModel, NodeType, RawNode, TypeModel,
};
use crate::simplify::graph::{
    const_scalar_of, constant_behind, consumers, first_consumer, has_output, initializer_of,
    law_lookup_is_complete, law_producer_is_last, lemma_consumers, lemma_first_consumer, lemma_one_place, lemma_producer,
    lemma_single_use_place, lemma_with_matches, other_input, other_of, producer, reads_at, scalar_behind,
    single_use, tensor_and_const, GraphIndex,
};
use crate::simplify::scalars::{
    is_epsilon, narrowed, near_half, near_inv_sqrt2, near_one, near_sqrt2, near_two,
};
use crate::simplify::{dequant_affine, gelu, layer_norm};

verus! {

/// What the values and the operators of a graph mean.
#[verifier::reject_recursive_types(V)]
pub struct Reading<V> {
    /// The value of each name.
    pub value: spec_fn(Seq<char>) -> V,
    /// The value of a constant scalar, by the bits of its `f64`.
    pub lit: spec_fn(u64) -> V,
    pub cast: spec_fn(V) -> V,
    pub plus: spec_fn(V, V) -> V,
    pub minus: spec_fn(V, V) -> V,
    pub times: spec_fn(V, V) -> V,
    pub over: spec_fn(V, V) -> V,
    pub power: spec_fn(V, V) -> V,
    /// The mean over the last axis, which stays.
    pub mean: spec_fn(V) -> V,
    pub root: spec_fn(V) -> V,
    pub erf: spec_fn(V) -> V,
    pub gelu: spec_fn(V) -> V,
}

/// The bits of an `f32` lie within half a step of the bits of an `f64`, once
/// the `f64` is taken to the exponent bias and the mantissa of an `f32`.
pub open spec fn is_nearest_f32(single: u32, double: u64) -> bool {
    -0x1000_0000 <= single * 0x2000_0000 + 0x3800_0000_0000_0000 - double <= 0x1000_0000
}

/// The node averages over one axis, the last one of its input, and keeps it.
pub open spec fn averages_last_axis(node: NodeModel) -> bool {
    let rank = match node.inputs[0].ty {
        TypeModel::Tensor(t) => t.rank as int,
        TypeModel::Shape(_) => 1,
        _ => 0,
    };
    &&& node.inputs.len() > 0
    &&& rank >= 1
    &&& node.attrs.contains_key("keepdims"@) ==> node.attrs["keepdims"@] == AttrModel::Int64(1)
    &&& exists|axis: i64|
        {
            &&& axis == -1 || axis == rank - 1
            &&& #[trigger] names_axis(node, axis)
        }
}

/// The one axis that the node names is `axis`: by its attribute, or else by a
/// constant second input.
pub open spec fn names_axis(node: NodeModel, axis: i64) -> bool {
    if node.attrs.contains_key("axes"@) {
        node.attrs["axes"@] == AttrModel::Int64(axis) || node.attrs["axes"@] == AttrModel::Int64s(
            seq![axis],
        )
    } else {
        node.inputs.len() > 1 && (node.inputs[1].value matches Some(d) && d.ints == Some(seq![axis]))
    }
}

impl<V> Reading<V> {
    /// Sums and products do not depend on the order of their operands.
    pub open spec fn commutes(self) -> bool {
        &&& forall|x: V, y: V| #[trigger] (self.plus)(x, y) == (self.plus)(y, x)
        &&& forall|x: V, y: V| #[trigger] (self.times)(x, y) == (self.times)(y, x)
    }

    /// The value of input `j` of a node.
    pub open spec fn input(self, node: NodeModel, j: int) -> V {
        (self.value)(node.inputs[j].name)
    }

    /// A scalar constant has the value of its bits.
    pub open spec fn arg_holds(self, arg: ArgModel) -> bool {
        arg.value matches Some(d) ==> (d.scalar matches Some(v) ==> (self.value)(arg.name) == (
        self.lit)(v))
    }

    /// Constants that are equal to about four digits have one value, dividing
    /// by `sqrt(2)` is multiplying by its inverse, and a second power is a
    /// product.
    pub open spec fn rounds(self) -> bool {
        &&& forall|v: u64| near_half(v) ==> #[trigger] (self.lit)(v) == self.half()
        &&& forall|v: u64| near_one(v) ==> #[trigger] (self.lit)(v) == self.one()
        &&& forall|v: u64| near_inv_sqrt2(v) ==> #[trigger] (self.lit)(v) == self.inv_sqrt2()
        &&& forall|v: u64, x: V|
            near_sqrt2(v) ==> #[trigger] (self.over)(x, (self.lit)(v)) == (self.times)(
                x,
                self.inv_sqrt2(),
            )
        &&& forall|v: u64, x: V|
            near_two(v) ==> #[trigger] (self.power)(x, (self.lit)(v)) == (self.times)(x, x)
        &&& forall|x: V, y: V, z: V| #[trigger]
            (self.times)((self.times)(x, y), z) == (self.times)(x, (self.times)(y, z))
    }

    /// The value of 0.5.
    pub open spec fn half(self) -> V {
        (self.lit)(0x3fe0_0000_0000_0000)
    }

    /// The value of 1.
    pub open spec fn one(self) -> V {
        (self.lit)(0x3ff0_0000_0000_0000)
    }

    /// The value of `1 / sqrt(2)`.
    pub open spec fn inv_sqrt2(self) -> V {
        (self.lit)(0x3fe6_a09e_667f_3bcd)
    }

    /// GELU is `0.5 * x * (1 + erf(x / sqrt(2)))`.
    pub open spec fn knows_gelu(self) -> bool {
        forall|x: V|
            #[trigger] (self.gelu)(x) == (self.times)(
                (self.times)(self.half(), x),
                (self.plus)(self.one(), (self.erf)((self.times)(x, self.inv_sqrt2()))),
            )
    }

    /// `(x - mean) / sqrt(mean of squares + eps) * gamma + beta`.
    pub open spec fn normal(self, x: V, gamma: V, beta: V, eps: V) -> V {
        let c = (self.minus)(x, (self.mean)(x));
        let var = (self.mean)((self.times)(c, c));
        (self.plus)(
            (self.times)((self.over)(c, (self.root)((self.plus)(var, eps))), gamma),
            beta,
        )
    }

    /// Every output of the node has this value.
    pub open spec fn makes(self, node: NodeModel, v: V) -> bool {
        forall|j: int|
            0 <= j < node.outputs.len() ==> (self.value)(#[trigger] node.outputs[j].name) == v
    }

    /// The affine of a dequantized product: its value times the scale plus the
    /// bias.
    pub open spec fn affine(self, x: V, scale: V, bias: V) -> V {
        (self.plus)((self.times)((self.cast)(x), scale), bias)
    }

    /// The node makes what its operator makes of its inputs.
    pub open spec fn holds(self, node: NodeModel) -> bool {
        &&& forall|j: int| 0 <= j < node.inputs.len() ==> self.arg_holds(#[trigger] node.inputs[j])
        &&& node.node_type is Constant ==> node.outputs.len() == 1 && self.arg_holds(
            node.outputs[0],
        )
        &&& match node.node_type {
            NodeType::Unsqueeze | NodeType::Squeeze | NodeType::Identity | NodeType::Reshape =>
            node.inputs.len() > 0 ==> self.makes(node, self.input(node, 0)),
            NodeType::Cast => node.inputs.len() > 0 ==> self.makes(
                node,
                (self.cast)(self.input(node, 0)),
            ),
            NodeType::Add => node.inputs.len() >= 2 ==> self.makes(
                node,
                (self.plus)(self.input(node, 0), self.input(node, 1)),
            ),
            NodeType::Mul => node.inputs.len() >= 2 ==> self.makes(
                node,
                (self.times)(self.input(node, 0), self.input(node, 1)),
            ),
            NodeType::Gelu => node.inputs.len() > 0 && self.makes(
                node,
                (self.gelu)(self.input(node, 0)),
            ),
            NodeType::DequantAffine => {
                &&& node.inputs.len() == 3
                &&& node.attrs.contains_key("apply_gelu"@)
                &&& {
                    let y = self.affine(
                        self.input(node, 0),
                        self.input(node, 1),
                        self.input(node, 2),
                    );
                    ||| node.attrs["apply_gelu"@] == AttrModel::Int64(1) && self.makes(
                        node,
                        (self.gelu)(y),
                    )
                    ||| node.attrs["apply_gelu"@] == AttrModel::Int64(0) && self.makes(node, y)
                }
            },
            NodeType::Sub => node.inputs.len() >= 2 ==> self.makes(
                node,
                (self.minus)(self.input(node, 0), self.input(node, 1)),
            ),
            NodeType::Div => node.inputs.len() >= 2 ==> self.makes(
                node,
                (self.over)(self.input(node, 0), self.input(node, 1)),
            ),
            NodeType::Pow => node.inputs.len() >= 2 ==> self.makes(
                node,
                (self.power)(self.input(node, 0), self.input(node, 1)),
            ),
            NodeType::Sqrt => node.inputs.len() > 0 ==> self.makes(
                node,
                (self.root)(self.input(node, 0)),
            ),
            NodeType::Erf => node.inputs.len() > 0 ==> self.makes(
                node,
                (self.erf)(self.input(node, 0)),
            ),
            NodeType::ReduceMean => averages_last_axis(node) ==> self.makes(
                node,
                (self.mean)(self.input(node, 0)),
            ),
            NodeType::LayerNormalization => {
                &&& node.inputs.len() == 3
                &&& node.attrs.contains_key("axis"@) && node.attrs["axis"@] == AttrModel::Int64(
                    -1i64,
                )
                &&& node.attrs.contains_key("stash_type"@) && node.attrs["stash_type"@]
                    == AttrModel::Int64(0)
                &&& node.attrs.contains_key("epsilon"@) && node.attrs["epsilon"@] is Float32
                &&& exists|eps: u64|
                    is_nearest_f32(node.attrs["epsilon"@]->Float32_0, eps) && self.makes(
                        node,
                        self.normal(
                            self.input(node, 0),
                            self.input(node, 1),
                            self.input(node, 2),
                            #[trigger] (self.lit)(eps),
                        ),
                    )
            },
            _ => true,
        }
    }

    /// Every node of the graph holds.
    pub open spec fn fits(self, nodes: Seq<NodeModel>) -> bool {
        forall|i: int| 0 <= i < nodes.len() ==> self.holds(#[trigger] nodes[i])
    }
}

/// An input of the node has the value of the one beside it combined.
proof fn lemma_other<V>(m: Reading<V>, node: NodeModel, known: Seq<char>, other: ArgModel)
    requires
        m.commutes(),
        m.holds(node),
        other_of(node, known) == Some(other),
    ensures
        node.node_type is Add ==> m.makes(
            node,
            (m.plus)((m.value)(known), (m.value)(other.name)),
        ),
        node.node_type is Mul ==> m.makes(
            node,
            (m.times)((m.value)(known), (m.value)(other.name)),
        ),
        exists|p: int|
            0 <= p < 2 && (#[trigger] node.inputs[p]).name == known && node.inputs[1 - p] == other,
{
    if node.inputs[0].name == known {
        assert(node.inputs[1 - 0] == other);
    } else {
        assert(node.inputs[1 - 1] == other);
    }
}

/// The fold of one chain. The first input of the new node is what the cast
/// reads, the second the factor of the Mul beside the cast's output, and the
/// third the term of the Add beside the product, each as the chain has it. The
/// node takes the place of the Gelu of the sum where there is one, and then
/// says so, or else of the Add.
pub proof fn law_dequant_affine_inputs(
    c: usize,
    graph: &GraphIndex<'_>,
    r: Option<(usize, RawNode)>,
)
    requires
        call_ensures(dequant_affine::try_match, (c, graph), r),
        graph.wf(),
        c < graph.nodes@.len(),
        r is Some,
    ensures
        ({
            let nodes = node_models(graph.nodes@);
            let (at, made) = r->0;
            let cast = nodes[c as int];
            exists|mi: int, p: int, ai: int, q: int|
                #![trigger nodes[mi].inputs[p], nodes[ai].inputs[q]]
                {
                    let mul = nodes[mi];
                    let sum = nodes[ai];
                    &&& 0 <= mi < nodes.len() && 0 <= ai < nodes.len()
                    &&& 0 <= p < 2 && 0 <= q < 2
                    &&& cast.node_type is Cast && mul.node_type is Mul && sum.node_type is Add
                    &&& mul.inputs[p].name == cast.outputs[0].name
                    &&& sum.inputs[q].name == mul.outputs[0].name
                    &&& made@.node_type is DequantAffine
                    &&& made@.name == nodes[at as int].name + "_dequant_affine"@
                    &&& made@.inputs == seq![cast.inputs[0], mul.inputs[1 - p], sum.inputs[1 - q]]
                    &&& at < nodes.len()
                    &&& made@.outputs == nodes[at as int].outputs
                    &&& nodes[at as int].node_type is Gelu ==> nodes[at as int].inputs[0].name
                        == sum.outputs[0].name && made@.attrs == map![
                        "apply_gelu"@ => AttrModel::Int64(1)
                    ]
                    &&& !(nodes[at as int].node_type is Gelu) ==> at == ai && made@.attrs == map![
                        "apply_gelu"@ => AttrModel::Int64(0)
                    ]
                }
        }),
{
    let nodes = node_models(graph.nodes@);
    let (at, made) = r->0;
    let cast = nodes[c as int];
    let xf = cast.outputs[0].name;
    let (mi, p) = lemma_single_use_place(nodes, xf);
    let mul = nodes[mi];
    let xs = mul.outputs[0].name;
    let (ai, q) = lemma_single_use_place(nodes, xs);
    let sum = nodes[ai];
    let scale = other_of(mul, xf)->0;
    let bias = other_of(sum, xs)->0;
    let p2 = if mul.inputs[0].name == xf { 0int } else { 1 };
    let q2 = if sum.inputs[0].name == xs { 0int } else { 1 };
    assert(mul.inputs[p2].name == xf && mul.inputs[1 - p2] == scale);
    assert(sum.inputs[q2].name == xs && sum.inputs[1 - q2] == bias);
    let y = sum.outputs[0].name;
    dequant_affine::lemma_first_gelu(nodes, consumers(nodes, y), y, 0);
    lemma_consumers(nodes, y);
    match dequant_affine::first_gelu(nodes, consumers(nodes, y), y, 0) {
        Some(g) => {
            assert(at == g);
            assert(made@.attrs =~= map!["apply_gelu"@ => AttrModel::Int64(1)]);
        },
        None => {
            assert(at == ai);
            assert(made@.attrs =~= map!["apply_gelu"@ => AttrModel::Int64(0)]);
        },
    }
    assert(made@.inputs =~= seq![cast.inputs[0], mul.inputs[1 - p2], sum.inputs[1 - q2]]);
}

/// Folding chains of Cast, Mul, Add and Gelu keeps every reading: the new
/// nodes compute what the chains computed.
pub proof fn law_dequant_affine_keeps_the_meaning<V>(
    m: Reading<V>,
    nodes: Vec<RawNode>,
    r: Vec<RawNode>,
)
    requires
        call_ensures(dequant_affine::coalesce_dequant_affine, (nodes,), r),
        m.commutes(),
        m.fits(node_models(nodes@)),
    ensures
        r@.len() == nodes@.len(),
        m.fits(node_models(r@)),
{
    let g = node_models(nodes@);
    let after = node_models(r@);
    let found = |a: int| dequant_affine::match_at(g, a);
    assert forall|a: int| 0 <= a < g.len() implies (#[trigger] found(a) matches Some((j, n)) ==> 0
        <= j < g.len() && m.holds(n)) by {
        if found(a) is Some {
            lemma_chain_holds(m, g, a);
        }
    }
    lemma_with_matches(g, found, g.len());
    assert(after == dequant_affine::coalesced(g));
    assert(r@.len() == after.len());
    assert forall|i: int| 0 <= i < after.len() implies m.holds(#[trigger] after[i]) by {
        if after[i] != g[i] {
            let a = choose|a: int| 0 <= a < g.len() && #[trigger] found(a) == Some((i, after[i]));
        }
    }
}

proof fn lemma_chain_holds<V>(m: Reading<V>, nodes: Seq<NodeModel>, c: int)
    requires
        0 <= c < nodes.len(),
        m.commutes(),
        m.fits(nodes),
        dequant_affine::match_at(nodes, c) is Some,
    ensures
        dequant_affine::match_at(nodes, c) matches Some((i, n)) && 0 <= i < nodes.len() && m.holds(
            n,
        ),
{
    let cast = nodes[c];
    let xf = cast.outputs[0].name;
    let (mi, p) = lemma_single_use_place(nodes, xf);
    let mul = nodes[mi];
    let xs = mul.outputs[0].name;
    let (ai, q) = lemma_single_use_place(nodes, xs);
    let sum = nodes[ai];
    assert(m.holds(cast) && m.holds(mul) && m.holds(sum));
    let scale = other_of(mul, xf)->0;
    let bias = other_of(sum, xs)->0;
    lemma_other(m, mul, xf, scale);
    lemma_other(m, sum, xs, bias);
    let x = cast.inputs[0];
    let y = sum.outputs[0].name;
    assert(cast.outputs[0].name == xf);
    assert(mul.outputs[0].name == xs);
    assert((m.value)(xf) == (m.cast)((m.value)(x.name)));
    assert((m.value)(xs) == (m.times)((m.value)(xf), (m.value)(scale.name)));
    let v = m.affine((m.value)(x.name), (m.value)(scale.name), (m.value)(bias.name));
    assert(m.makes(sum, v));
    assert((m.value)(y) == v);
    assert(m.arg_holds(x) && m.arg_holds(scale) && m.arg_holds(bias));
    dequant_affine::lemma_first_gelu(nodes, consumers(nodes, y), y, 0);
    lemma_consumers(nodes, y);
    match dequant_affine::first_gelu(nodes, consumers(nodes, y), y, 0) {
        Some(gi) => {
            assert(m.holds(nodes[gi]));
            assert(m.makes(nodes[gi], (m.gelu)(v)));
            let n = dequant_affine::fused_model(nodes[gi], x, scale, bias, true);
            assert(n.outputs == nodes[gi].outputs);
            assert(m.makes(n, (m.gelu)(v)));
            assert(m.holds(n));
        },
        None => {
            let n = dequant_affine::fused_model(sum, x, scale, bias, false);
            assert(m.makes(n, v));
            assert(m.holds(n));
        },
    }
}

/// What is made under a name has the value of the name.
proof fn lemma_made<V>(m: Reading<V>, nodes: Seq<NodeModel>, name: Seq<char>, p: int, v: V)
    requires
        producer(nodes, name) == Some(p),
        m.makes(nodes[p], v),
    ensures
        0 <= p < nodes.len(),
        (m.value)(name) == v,
{
    lemma_producer(nodes, name);
}

/// A constant that is found behind an argument is its value.
proof fn lemma_scalar_value<V>(
    m: Reading<V>,
    nodes: Seq<NodeModel>,
    arg: ArgModel,
    depth: nat,
    v: u64,
)
    requires
        m.fits(nodes),
        m.arg_holds(arg),
        scalar_behind(nodes, arg, depth) == Some(v),
    ensures
        (m.value)(arg.name) == (m.lit)(v),
    decreases depth,
{
    if !(arg.value matches Some(d) && d.scalar is Some) {
        let p = producer(nodes, arg.name)->0;
        lemma_producer(nodes, arg.name);
        let node = nodes[p];
        assert(m.holds(node));
        if node.node_type is Constant {
            assert(node.outputs[0].name == arg.name);
        } else {
            lemma_scalar_value(m, nodes, node.inputs[0], (depth - 1) as nat, v);
            assert(m.makes(node, m.input(node, 0)));
            lemma_made(m, nodes, arg.name, p, m.input(node, 0));
        }
    }
}

/// A constant that is found behind an argument has its value, and is one.
proof fn lemma_initializer_value<V>(
    m: Reading<V>,
    nodes: Seq<NodeModel>,
    arg: ArgModel,
    depth: nat,
    c: ArgModel,
)
    requires
        m.fits(nodes),
        m.arg_holds(arg),
        constant_behind(nodes, arg, depth) == Some(c),
    ensures
        (m.value)(arg.name) == (m.value)(c.name),
        m.arg_holds(c),
    decreases depth,
{
    if !(arg.value is Some) {
        let p = producer(nodes, arg.name)->0;
        lemma_producer(nodes, arg.name);
        let node = nodes[p];
        assert(m.holds(node));
        if node.node_type is Constant {
            assert(node.outputs[0].name == arg.name);
        } else {
            lemma_initializer_value(m, nodes, node.inputs[0], (depth - 1) as nat, c);
            assert(m.makes(node, m.input(node, 0)));
            lemma_made(m, nodes, arg.name, p, m.input(node, 0));
        }
    }
}

/// The tensor and the constant of a Mul or an Add are its two operands.
proof fn lemma_tensor_and_const<V>(
    m: Reading<V>,
    nodes: Seq<NodeModel>,
    node: NodeModel,
    x: ArgModel,
    v: u64,
)
    requires
        m.fits(nodes),
        m.commutes(),
        m.holds(node),
        tensor_and_const(nodes, node) == Some((x, v)),
    ensures
        m.arg_holds(x),
        node.node_type is Add ==> m.makes(node, (m.plus)((m.value)(x.name), (m.lit)(v))),
        node.node_type is Mul ==> m.makes(node, (m.times)((m.value)(x.name), (m.lit)(v))),
        node.node_type is Div && const_scalar_of(nodes, node.inputs[1]) is Some ==> m.makes(
            node,
            (m.over)((m.value)(x.name), (m.lit)(v)),
        ),
{
    assert(m.arg_holds(node.inputs[0]) && m.arg_holds(node.inputs[1]));
    if const_scalar_of(nodes, node.inputs[1]) is Some {
        lemma_scalar_value(m, nodes, node.inputs[1], nodes.len(), v);
    } else {
        lemma_scalar_value(m, nodes, node.inputs[0], nodes.len(), v);
    }
}

proof fn lemma_gelu_holds<V>(m: Reading<V>, nodes: Seq<NodeModel>, e: int)
    requires
        0 <= e < nodes.len(),
        m.commutes(),
        m.rounds(),
        m.knows_gelu(),
        m.fits(nodes),
        gelu::match_at(nodes, e) is Some,
    ensures
        gelu::match_at(nodes, e) matches Some((i, n)) && 0 <= i < nodes.len() && m.holds(n),
{
    let erf = nodes[e];
    let x = gelu::erf_argument(nodes, e)->0;
    let (mi, side) = gelu::erf_plus_one_reader(nodes, e)->0;
    let s = producer(nodes, erf.inputs[0].name)->0;
    lemma_producer(nodes, erf.inputs[0].name);
    let (x2, v) = tensor_and_const(nodes, nodes[s])->0;
    assert(x2 == x);
    assert(m.holds(erf) && m.holds(nodes[s]));
    lemma_tensor_and_const(m, nodes, nodes[s], x, v);
    let vx = (m.value)(x.name);
    let scaled = (m.times)(vx, m.inv_sqrt2());
    assert(m.makes(nodes[s], scaled));
    lemma_made(m, nodes, erf.inputs[0].name, s, scaled);
    let out = erf.outputs[0].name;
    assert((m.value)(out) == (m.erf)(scaled));

    let (ai, p) = lemma_single_use_place(nodes, out);
    let sum = nodes[ai];
    assert(m.holds(sum));
    let one = other_of(sum, out)->0;
    lemma_other(m, sum, out, one);
    let w = const_scalar_of(nodes, one)->0;
    lemma_scalar_value(m, nodes, one, nodes.len(), w);
    let y = sum.outputs[0].name;
    let inner = (m.plus)(m.one(), (m.erf)(scaled));
    assert((m.value)(y) == inner);

    let (mi2, q) = lemma_single_use_place(nodes, y);
    assert(mi2 == mi);
    let mul = nodes[mi];
    assert(m.holds(mul));
    lemma_other(m, mul, y, side);
    let (core, half_on_x) = gelu::halved(nodes, side);
    let n_value = (m.gelu)(vx);
    if half_on_x {
        let hp = producer(nodes, side.name)->0;
        lemma_producer(nodes, side.name);
        let hn = nodes[hp];
        assert(m.holds(hn));
        assert(m.arg_holds(hn.inputs[0]) && m.arg_holds(hn.inputs[1]));
        if gelu::is_half(nodes, hn.inputs[1]) {
            lemma_scalar_value(
                m,
                nodes,
                hn.inputs[1],
                nodes.len(),
                const_scalar_of(nodes, hn.inputs[1])->0,
            );
        } else {
            lemma_scalar_value(
                m,
                nodes,
                hn.inputs[0],
                nodes.len(),
                const_scalar_of(nodes, hn.inputs[0])->0,
            );
        }
        assert(m.makes(hn, (m.times)(m.half(), vx)));
        lemma_made(m, nodes, side.name, hp, (m.times)(m.half(), vx));
        assert(m.makes(mul, n_value));
        assert(m.makes(gelu::gelu_model(mul, x), n_value));
        assert(m.holds(gelu::gelu_model(mul, x)));
    } else {
        assert(core == side);
        let z = mul.outputs[0].name;
        assert((m.value)(z) == (m.times)(inner, vx));
        let (h, t) = lemma_single_use_place(nodes, z);
        let last = nodes[h];
        assert(m.holds(last));
        let c = other_of(last, z)->0;
        lemma_other(m, last, z, c);
        lemma_scalar_value(m, nodes, c, nodes.len(), const_scalar_of(nodes, c)->0);
        assert(m.makes(last, (m.times)((m.times)(inner, vx), m.half())));
        assert((m.times)((m.times)(inner, vx), m.half()) == (m.times)(
            inner,
            (m.times)(vx, m.half()),
        ));
        assert(m.makes(last, n_value));
        assert(m.makes(gelu::gelu_model(last, x), n_value));
        assert(m.holds(gelu::gelu_model(last, x)));
    }
}

/// Folding expanded GELUs keeps every reading: the new nodes compute what the
/// expansions computed.
pub proof fn law_gelu_keeps_the_meaning<V>(m: Reading<V>, nodes: Vec<RawNode>, r: Vec<RawNode>)
    requires
        call_ensures(gelu::coalesce_gelu, (nodes,), r),
        m.commutes(),
        m.rounds(),
        m.knows_gelu(),
        m.fits(node_models(nodes@)),
    ensures
        r@.len() == nodes@.len(),
        m.fits(node_models(r@)),
{
    let g = node_models(nodes@);
    let after = node_models(r@);
    let found = |a: int| gelu::match_at(g, a);
    assert forall|a: int| 0 <= a < g.len() implies (#[trigger] found(a) matches Some((j, n)) ==> 0
        <= j < g.len() && m.holds(n)) by {
        if found(a) is Some {
            lemma_gelu_holds(m, g, a);
        }
    }
    lemma_with_matches(g, found, g.len());
    assert(after == gelu::coalesced(g));
    assert(r@.len() == after.len());
    assert forall|i: int| 0 <= i < after.len() implies m.holds(#[trigger] after[i]) by {
        if after[i] != g[i] {
            let a = choose|a: int| 0 <= a < g.len() && #[trigger] found(a) == Some((i, after[i]));
        }
    }
}

/// A mean over the last axis that is found makes the mean of its input.
proof fn lemma_mean_value<V>(m: Reading<V>, nodes: Seq<NodeModel>, arg: ArgModel, of: ArgModel)
    requires
        m.fits(nodes),
        layer_norm::mean_input(nodes, arg) == Some(of),
    ensures
        (m.value)(arg.name) == (m.mean)((m.value)(of.name)),
        m.arg_holds(of),
{
    let p = producer(nodes, arg.name)->0;
    lemma_producer(nodes, arg.name);
    let node = nodes[p];
    assert(m.holds(node));
    lemma_last_axis(node);
    lemma_made(m, nodes, arg.name, p, (m.mean)((m.value)(of.name)));
}

/// What passes for a mean over the last axis is one.
proof fn lemma_last_axis(node: NodeModel)
    requires
        layer_norm::last_axis_mean(node),
    ensures
        node.node_type is ReduceMean,
        averages_last_axis(node),
{
    let axes = layer_norm::axes_of(node)->0;
    assert(axes =~= seq![axes[0]]);
    assert(names_axis(node, axes[0]));
}

proof fn lemma_norm_holds<V>(m: Reading<V>, nodes: Seq<NodeModel>, s: int)
    requires
        0 <= s < nodes.len(),
        m.commutes(),
        m.rounds(),
        m.fits(nodes),
        layer_norm::match_at(nodes, s) is Some,
    ensures
        layer_norm::match_at(nodes, s) matches Some((i, n)) && 0 <= i < nodes.len() && m.holds(n),
{
    let sqrt = nodes[s];
    assert(m.holds(sqrt));
    let (var, eps) = layer_norm::variance_and_eps(nodes, s)->0;
    let (x, centered) = layer_norm::centred_by(nodes, var)->0;
    let vx = (m.value)(x.name);
    let mean = (m.mean)(vx);
    let c = (m.minus)(vx, mean);

    let a0 = producer(nodes, sqrt.inputs[0].name)->0;
    lemma_producer(nodes, sqrt.inputs[0].name);
    assert(m.holds(nodes[a0]));
    lemma_tensor_and_const(m, nodes, nodes[a0], var, eps);
    let sum = (m.plus)((m.value)(var.name), (m.lit)(eps));
    lemma_made(m, nodes, sqrt.inputs[0].name, a0, sum);

    let sq = layer_norm::mean_input(nodes, var)->0;
    lemma_mean_value(m, nodes, var, sq);
    let q = producer(nodes, sq.name)->0;
    lemma_producer(nodes, sq.name);
    assert(m.holds(nodes[q]));
    let vc = (m.value)(centered.name);
    assert(m.arg_holds(nodes[q].inputs[1]));
    if nodes[q].node_type is Pow {
        lemma_scalar_value(
            m,
            nodes,
            nodes[q].inputs[1],
            nodes.len(),
            const_scalar_of(nodes, nodes[q].inputs[1])->0,
        );
    }
    assert(m.makes(nodes[q], (m.times)(vc, vc)));
    lemma_made(m, nodes, sq.name, q, (m.times)(vc, vc));
    let u = producer(nodes, centered.name)->0;
    lemma_producer(nodes, centered.name);
    let diff = nodes[u];
    assert(m.holds(diff));
    lemma_mean_value(m, nodes, diff.inputs[1], layer_norm::mean_input(nodes, diff.inputs[1])->0);
    assert(m.makes(diff, c));
    lemma_made(m, nodes, centered.name, u, c);
    assert(m.arg_holds(x));

    let sd = sqrt.outputs[0].name;
    let (di, p) = lemma_single_use_place(nodes, sd);
    let div = nodes[di];
    assert(m.holds(div));
    let scaled = (m.over)(c, (m.root)(sum));
    assert(m.makes(div, scaled));
    let z = div.outputs[0].name;
    let (mi, gamma) = layer_norm::with_param(nodes, z, NodeType::Mul)->0;
    lemma_first_consumer(nodes, z);
    let mul = nodes[mi];
    assert(m.holds(mul));
    let raw = other_of(mul, z)->0;
    lemma_other(m, mul, z, raw);
    lemma_initializer_value(m, nodes, raw, nodes.len(), gamma);
    let w = mul.outputs[0].name;
    let (ai, beta) = layer_norm::with_param(nodes, w, NodeType::Add)->0;
    lemma_first_consumer(nodes, w);
    let last = nodes[ai];
    assert(m.holds(last));
    let raw2 = other_of(last, w)->0;
    lemma_other(m, last, w, raw2);
    lemma_initializer_value(m, nodes, raw2, nodes.len(), beta);

    let n = layer_norm::ln_model(last, x, gamma, beta, eps);
    assert(n.inputs.len() == 3);
    assert(n.inputs[1].name == gamma.name && n.inputs[1].value == gamma.value);
    assert(n.inputs[2].name == beta.name && n.inputs[2].value == beta.value);
    let value = m.normal(vx, (m.value)(gamma.name), (m.value)(beta.name), (m.lit)(eps));
    assert(m.makes(last, value));
    assert(m.makes(n, value));
    lemma_epsilon(eps);
    lemma_attr_names();
    assert(m.holds(n));
}

/// An epsilon is narrowed to the nearest `f32`.
proof fn lemma_epsilon(eps: u64)
    requires
        is_epsilon(eps),
    ensures
        0 <= narrowed(eps) <= u32::MAX,
        is_nearest_f32(narrowed(eps) as u32, eps),
{
}

/// The attributes of a normalization have different names.
proof fn lemma_attr_names()
    ensures
        "axis"@ != "epsilon"@,
        "axis"@ != "stash_type"@,
        "epsilon"@ != "stash_type"@,
{
    reveal_strlit("axis");
    reveal_strlit("epsilon");
    reveal_strlit("stash_type");
    assert("axis"@.len() == 4 && "epsilon"@.len() == 7 && "stash_type"@.len() == 10);
}

/// Folding expanded layer normalizations keeps every reading: the new nodes
/// normalize over the last axis, with the epsilon that was added under the
/// Sqrt, and compute what the expansions computed.
pub proof fn law_layer_norm_keeps_the_meaning<V>(
    m: Reading<V>,
    nodes: Vec<RawNode>,
    r: Vec<RawNode>,
)
    requires
        call_ensures(layer_norm::coalesce_layer_norm, (nodes,), r),
        m.commutes(),
        m.rounds(),
        m.fits(node_models(nodes@)),
    ensures
        r@.len() == nodes@.len(),
        m.fits(node_models(r@)),
{
    let g = node_models(nodes@);
    let after = node_models(r@);
    let found = |a: int| layer_norm::match_at(g, a);
    assert forall|a: int| 0 <= a < g.len() implies (#[trigger] found(a) matches Some((j, n)) ==> 0
        <= j < g.len() && m.holds(n)) by {
        if found(a) is Some {
            lemma_norm_holds(m, g, a);
        }
    }
    lemma_with_matches(g, found, g.len());
    assert(after == layer_norm::coalesced(g));
    assert(r@.len() == after.len());
    assert forall|i: int| 0 <= i < after.len() implies m.holds(#[trigger] after[i]) by {
        if after[i] != g[i] {
            let a = choose|a: int| 0 <= a < g.len() && #[trigger] found(a) == Some((i, after[i]));
        }
    }
}

/// Input `p` of node `i` is the only one in the graph that reads `name`.
pub open spec fn only_read_at(nodes: Seq<NodeModel>, name: Seq<char>, i: int, p: int) -> bool {
    &&& 0 <= i < nodes.len()
    &&& 0 <= p < nodes[i].inputs.len()
    &&& nodes[i].inputs[p].name == name
    &&& forall|k: int, l: int|
        #![trigger nodes[k].inputs[l]]
        0 <= k < nodes.len() && 0 <= l < nodes[k].inputs.len() && nodes[k].inputs[l].name == name
            ==> k == i && l == p
}

/// Node `i` makes `name` as its first output, and nothing else in the graph
/// makes it.
pub open spec fn only_made_by(nodes: Seq<NodeModel>, name: Seq<char>, i: int) -> bool {
    &&& 0 <= i < nodes.len()
    &&& 0 < nodes[i].outputs.len()
    &&& nodes[i].outputs[0].name == name
    &&& forall|k: int, l: int|
        #![trigger nodes[k].outputs[l]]
        0 <= k < nodes.len() && 0 <= l < nodes[k].outputs.len() && nodes[k].outputs[l].name == name
            ==> k == i
}

/// A value that is read in one place has that one reader.
pub proof fn law_only_reader(nodes: Seq<NodeModel>, name: Seq<char>, i: int, p: int)
    requires
        only_read_at(nodes, name, i, p),
    ensures
        single_use(nodes, name),
        first_consumer(nodes, name) == Some(i),
{
    assert(reads_at(nodes, name, i, p));
    assert forall|k: int, l: int| #[trigger] reads_at(nodes, name, k, l) implies k == i && l == p by {
        assert(nodes[k].inputs[l].name == name);
    }
    lemma_one_place(nodes, name, i, p);
}

/// A value that one node makes is made by it.
pub proof fn law_only_maker(nodes: Seq<NodeModel>, name: Seq<char>, i: int)
    requires
        only_made_by(nodes, name, i),
    ensures
        producer(nodes, name) == Some(i),
{
    assert(has_output(nodes[i], name));
    law_producer_is_last(nodes, name, i);
    let p = producer(nodes, name)->0;
    lemma_producer(nodes, name);
    let j = choose|j: int|
        0 <= j < nodes[p].outputs.len() && (#[trigger] nodes[p].outputs[j]).name == name;
    assert(nodes[p].outputs[j].name == name);
}

/// A chain of Cast, Mul and Add is folded wherever it stands: an integer
/// tensor cast to a float one, whose only reader multiplies it by a tensor,
/// whose only reader adds a tensor, with the operands in either order.
pub proof fn law_dequant_affine_is_found(
    c: usize,
    graph: &GraphIndex<'_>,
    r: Option<(usize, RawNode)>,
    from: DType,
    to: DType,
    mi: int,
    p: int,
    ai: int,
    q: int,
)
    requires
        call_ensures(dequant_affine::try_match, (c, graph), r),
        c < graph.nodes@.len(),
        ({
            let nodes = node_models(graph.nodes@);
            let cast = nodes[c as int];
            let mul = nodes[mi];
            let sum = nodes[ai];
            &&& cast.node_type is Cast && cast.inputs.len() > 0 && cast.outputs.len() > 0
            &&& cast.inputs[0].ty matches TypeModel::Tensor(t) && t.dtype == from
            &&& cast.outputs[0].ty matches TypeModel::Tensor(t) && t.dtype == to
            &&& from is I8 || from is U8 || from is I16 || from is U16 || from is I32 || from is U32
                || from is I64 || from is U64
            &&& to is F32 || to is F64 || to is F16 || to is BF16
            &&& only_read_at(nodes, cast.outputs[0].name, mi, p)
            &&& mul.node_type is Mul && mul.inputs.len() == 2 && mul.outputs.len() > 0
            &&& mul.inputs[1 - p].ty is Tensor || mul.inputs[1 - p].ty is ScalarTensor
            &&& only_read_at(nodes, mul.outputs[0].name, ai, q)
            &&& sum.node_type is Add && sum.inputs.len() == 2 && sum.outputs.len() > 0
            &&& sum.inputs[1 - q].ty is Tensor || sum.inputs[1 - q].ty is ScalarTensor
        }),
    ensures
        r is Some,
{
    let nodes = node_models(graph.nodes@);
    let cast = nodes[c as int];
    let mul = nodes[mi];
    law_only_reader(nodes, cast.outputs[0].name, mi, p);
    law_only_reader(nodes, mul.outputs[0].name, ai, q);
    let sum = nodes[ai];
    assert(mul.inputs[0].name == cast.outputs[0].name ==> p == 0);
    assert(mul.inputs[1].name == cast.outputs[0].name ==> p == 1);
    assert(sum.inputs[0].name == mul.outputs[0].name ==> q == 0);
    assert(sum.inputs[1].name == mul.outputs[0].name ==> q == 1);
}

/// Where the sum of a chain is read by a Gelu, the Gelu is folded in.
pub proof fn law_dequant_affine_takes_the_gelu(
    c: usize,
    graph: &GraphIndex<'_>,
    r: Option<(usize, RawNode)>,
    mi: int,
    p: int,
    ai: int,
    q: int,
    gi: int,
)
    requires
        call_ensures(dequant_affine::try_match, (c, graph), r),
        c < graph.nodes@.len(),
        r is Some,
        ({
            let nodes = node_models(graph.nodes@);
            &&& only_read_at(nodes, nodes[c as int].outputs[0].name, mi, p)
            &&& only_read_at(nodes, nodes[mi].outputs[0].name, ai, q)
            &&& only_read_at(nodes, nodes[ai].outputs[0].name, gi, 0)
            &&& nodes[gi].node_type is Gelu
        }),
    ensures
        r matches Some((at, made)) && at == gi && made@.attrs["apply_gelu"@] == AttrModel::Int64(1),
{
    let nodes = node_models(graph.nodes@);
    law_only_reader(nodes, nodes[c as int].outputs[0].name, mi, p);
    law_only_reader(nodes, nodes[mi].outputs[0].name, ai, q);
    let y = nodes[ai].outputs[0].name;
    law_only_reader(nodes, y, gi, 0);
    assert(consumers(nodes, y)[0] == gi);
    assert(dequant_affine::first_gelu(nodes, consumers(nodes, y), y, 0) == Some(gi));
}

/// An expanded GELU is folded where its values have one reader each: `x`
/// divided by `sqrt(2)`, Erf, plus 1, times `x`, times 0.5.
pub proof fn law_gelu_is_found(
    e: usize,
    graph: &GraphIndex<'_>,
    r: Option<(usize, RawNode)>,
    si: int,
    ai: int,
    a: int,
    mi: int,
    p: int,
    hi: int,
    q: int,
)
    requires
        call_ensures(gelu::try_match_gelu, (e, graph), r),
        e < graph.nodes@.len(),
        ({
            let nodes = node_models(graph.nodes@);
            let div = nodes[si];
            let erf = nodes[e as int];
            let sum = nodes[ai];
            let mul = nodes[mi];
            let last = nodes[hi];
            &&& div.node_type is Div && div.inputs.len() == 2
            &&& div.inputs[1].value matches Some(d) && d.scalar == Some(0x3ff6_a09e_667f_3bcdu64)
            &&& erf.node_type is Erf && erf.inputs.len() == 1 && erf.outputs.len() > 0
            &&& only_made_by(nodes, erf.inputs[0].name, si)
            &&& only_read_at(nodes, erf.inputs[0].name, e as int, 0)
            &&& only_read_at(nodes, erf.outputs[0].name, ai, a)
            &&& sum.node_type is Add && sum.inputs.len() == 2 && sum.outputs.len() > 0
            &&& sum.inputs[1 - a].value matches Some(d) && d.scalar == Some(
                0x3ff0_0000_0000_0000u64,
            )
            &&& only_read_at(nodes, sum.outputs[0].name, mi, p)
            &&& mul.node_type is Mul && mul.inputs.len() == 2 && mul.outputs.len() > 0
            &&& mul.inputs[1 - p] == div.inputs[0]
            &&& producer(nodes, div.inputs[0].name) is None
            &&& only_read_at(nodes, mul.outputs[0].name, hi, q)
            &&& last.node_type is Mul && last.inputs.len() == 2
            &&& last.inputs[1 - q].value matches Some(d) && d.scalar == Some(
                0x3fe0_0000_0000_0000u64,
            )
        }),
    ensures
        r matches Some((at, made)) && at == hi && made@.node_type is Gelu && made@.inputs == seq![
            node_models(graph.nodes@)[si].inputs[0],
        ],
{
    let nodes = node_models(graph.nodes@);
    let div = nodes[si];
    let erf = nodes[e as int];
    let sum = nodes[ai];
    let mul = nodes[mi];
    let last = nodes[hi];
    law_only_maker(nodes, erf.inputs[0].name, si);
    law_only_reader(nodes, erf.inputs[0].name, e as int, 0);
    law_only_reader(nodes, erf.outputs[0].name, ai, a);
    law_only_reader(nodes, sum.outputs[0].name, mi, p);
    law_only_reader(nodes, mul.outputs[0].name, hi, q);
    assert(const_scalar_of(nodes, div.inputs[1]) == Some(0x3ff6_a09e_667f_3bcdu64));
    assert(gelu::erf_argument(nodes, e as int) == Some(div.inputs[0]));
    assert(sum.inputs[0].name == erf.outputs[0].name ==> a == 0);
    assert(sum.inputs[1].name == erf.outputs[0].name ==> a == 1);
    let one = sum.inputs[1 - a];
    assert(other_of(sum, erf.outputs[0].name) == Some(one));
    assert(const_scalar_of(nodes, one) == Some(0x3ff0_0000_0000_0000u64));
    assert(mul.inputs[0].name == sum.outputs[0].name ==> p == 0);
    assert(mul.inputs[1].name == sum.outputs[0].name ==> p == 1);
    assert(other_of(mul, sum.outputs[0].name) == Some(mul.inputs[1 - p]));
    assert(gelu::erf_plus_one_reader(nodes, e as int) == Some((mi, div.inputs[0])));
    assert(gelu::halved(nodes, div.inputs[0]) == (div.inputs[0], false));
    assert(last.inputs[0].name == mul.outputs[0].name ==> q == 0);
    assert(last.inputs[1].name == mul.outputs[0].name ==> q == 1);
    let c = last.inputs[1 - q];
    assert(other_of(last, mul.outputs[0].name) == Some(c));
    assert(const_scalar_of(nodes, c) == Some(0x3fe0_0000_0000_0000u64));
    assert(gelu::is_half(nodes, c));
    assert(gelu::match_at(nodes, e as int) == Some((hi, gelu::gelu_model(last, div.inputs[0]))));
    let (at, made) = r->0;
    assert(made@.inputs =~= seq![div.inputs[0]]);
}

/// A mean over the last axis passes for one.
pub proof fn law_last_axis_mean(node: &RawNode, r: bool)
    requires
        call_ensures(layer_norm::is_last_axis_reducemean, (node,), r),
    ensures
        r == (node.node_type is ReduceMean && averages_last_axis(node@)),
{
    let n = node@;
    if r {
        lemma_last_axis(n);
    } else if n.node_type is ReduceMean && averages_last_axis(n) {
        lemma_averages(n);
    }
}

proof fn lemma_averages(node: NodeModel)
    requires
        node.node_type is ReduceMean,
        averages_last_axis(node),
    ensures
        layer_norm::last_axis_mean(node),
{
    let rank = node.inputs[0].ty.ranked();
    let axis = choose|axis: i64|
        (axis == -1 || axis == rank - 1) && #[trigger] names_axis(node, axis);
    assert(layer_norm::axes_of(node) == Some(seq![axis]));
}

/// A rank-1 constant.
pub open spec fn is_vector_constant(arg: ArgModel) -> bool {
    arg.value is Some && (arg.ty matches TypeModel::Tensor(t) && t.rank == 1)
}

/// An expanded layer normalization is folded where its values are made once
/// and read where they should be: the mean taken off `x`, the mean of the
/// second power or of the square plus an epsilon under the Sqrt, the quotient times a vector
/// plus a vector, with the operands of the last two in either order.
pub proof fn law_layer_norm_is_found(
    s: usize,
    graph: &GraphIndex<'_>,
    r: Option<(usize, RawNode)>,
    eps: u64,
    m1: int,
    u: int,
    w: int,
    m2: int,
    a0: int,
    di: int,
    mi: int,
    p: int,
    ai: int,
    q: int,
)
    requires
        call_ensures(layer_norm::try_match_ln, (s, graph), r),
        s < graph.nodes@.len(),
        0x3d71_9799_812d_ea11 <= eps <= 0x3ee4_f8b5_88e3_68f1,
        ({
            let nodes = node_models(graph.nodes@);
            let sqrt = nodes[s as int];
            let sum = nodes[a0];
            let square = nodes[w];
            let diff = nodes[u];
            let div = nodes[di];
            let mul = nodes[mi];
            let last = nodes[ai];
            &&& diff.node_type is Sub && diff.inputs.len() == 2
            &&& only_made_by(nodes, diff.inputs[1].name, m1)
            &&& only_read_at(nodes, diff.inputs[1].name, u, 1)
            &&& nodes[m1].node_type is ReduceMean && averages_last_axis(nodes[m1])
            &&& nodes[m1].inputs[0].name == diff.inputs[0].name
            &&& square.inputs.len() == 2
            &&& {
                ||| square.node_type is Mul && square.inputs[1].name == square.inputs[0].name
                ||| square.node_type is Pow && (square.inputs[1].value matches Some(d) && d.scalar
                    == Some(0x4000_0000_0000_0000u64))
            }
            &&& only_made_by(nodes, square.inputs[0].name, u)
            &&& nodes[m2].node_type is ReduceMean && averages_last_axis(nodes[m2])
            &&& only_made_by(nodes, nodes[m2].inputs[0].name, w)
            &&& only_read_at(nodes, nodes[m2].inputs[0].name, m2, 0)
            &&& sum.node_type is Add && sum.inputs.len() == 2
            &&& sum.inputs[1].value matches Some(d) && d.scalar == Some(eps)
            &&& only_made_by(nodes, sum.inputs[0].name, m2)
            &&& only_read_at(nodes, sum.inputs[0].name, a0, 0)
            &&& sqrt.node_type is Sqrt && sqrt.inputs.len() == 1 && sqrt.outputs.len() > 0
            &&& only_made_by(nodes, sqrt.inputs[0].name, a0)
            &&& only_read_at(nodes, sqrt.inputs[0].name, s as int, 0)
            &&& only_read_at(nodes, sqrt.outputs[0].name, di, 1)
            &&& div.node_type is Div && div.inputs.len() == 2 && div.outputs.len() > 0
            &&& div.inputs[0].name == square.inputs[0].name
            &&& only_read_at(nodes, div.outputs[0].name, mi, p)
            &&& mul.node_type is Mul && mul.inputs.len() == 2 && mul.outputs.len() > 0
            &&& is_vector_constant(mul.inputs[1 - p])
            &&& only_read_at(nodes, mul.outputs[0].name, ai, q)
            &&& last.node_type is Add && last.inputs.len() == 2
            &&& is_vector_constant(last.inputs[1 - q])
        }),
    ensures
        ({
            let nodes = node_models(graph.nodes@);
            &&& r matches Some((at, made)) && {
                &&& at == ai
                &&& made@.node_type is LayerNormalization
                &&& made@.name == nodes[ai].name + "_ln"@
                &&& made@.outputs == nodes[ai].outputs
                &&& made@.inputs.len() == 3
                &&& made@.inputs[0] == nodes[u].inputs[0]
                &&& made@.inputs[1].name == nodes[mi].inputs[1 - p].name
                &&& made@.inputs[2].name == nodes[ai].inputs[1 - q].name
                &&& made@.attrs["axis"@] == AttrModel::Int64(-1i64)
                &&& made@.attrs["epsilon"@] matches AttrModel::Float32(e) && is_nearest_f32(e, eps)
            }
        }),
{
    let nodes = node_models(graph.nodes@);
    let sqrt = nodes[s as int];
    let sum = nodes[a0];
    let square = nodes[w];
    let diff = nodes[u];
    let div = nodes[di];
    let mul = nodes[mi];
    let last = nodes[ai];
    lemma_averages(nodes[m1]);
    lemma_averages(nodes[m2]);
    law_only_maker(nodes, diff.inputs[1].name, m1);
    law_only_reader(nodes, diff.inputs[1].name, u, 1);
    law_only_maker(nodes, square.inputs[0].name, u);
    law_only_maker(nodes, nodes[m2].inputs[0].name, w);
    law_only_reader(nodes, nodes[m2].inputs[0].name, m2, 0);
    law_only_maker(nodes, sum.inputs[0].name, m2);
    law_only_reader(nodes, sum.inputs[0].name, a0, 0);
    law_only_maker(nodes, sqrt.inputs[0].name, a0);
    law_only_reader(nodes, sqrt.inputs[0].name, s as int, 0);
    law_only_reader(nodes, sqrt.outputs[0].name, di, 1);
    law_only_reader(nodes, div.outputs[0].name, mi, p);
    law_only_reader(nodes, mul.outputs[0].name, ai, q);
    assert(const_scalar_of(nodes, sum.inputs[1]) == Some(eps));
    assert(layer_norm::variance_and_eps(nodes, s as int) == Some((sum.inputs[0], eps)));
    assert(layer_norm::mean_input(nodes, sum.inputs[0]) == Some(nodes[m2].inputs[0]));
    if square.node_type is Pow {
        assert(const_scalar_of(nodes, square.inputs[1]) == Some(0x4000_0000_0000_0000u64));
    }
    assert(layer_norm::squared(nodes, square) == Some(square.inputs[0]));
    assert(layer_norm::mean_input(nodes, diff.inputs[1]) == Some(nodes[m1].inputs[0]));
    assert(layer_norm::centred_by(nodes, sum.inputs[0]) == Some(
        (diff.inputs[0], square.inputs[0]),
    ));
    assert(mul.inputs[0].name == div.outputs[0].name ==> p == 0);
    assert(mul.inputs[1].name == div.outputs[0].name ==> p == 1);
    let gamma = mul.inputs[1 - p];
    assert(other_of(mul, div.outputs[0].name) == Some(gamma));
    assert(initializer_of(nodes, gamma) == Some(gamma));
    assert(last.inputs[0].name == mul.outputs[0].name ==> q == 0);
    assert(last.inputs[1].name == mul.outputs[0].name ==> q == 1);
    let beta = last.inputs[1 - q];
    assert(other_of(last, mul.outputs[0].name) == Some(beta));
    assert(initializer_of(nodes, beta) == Some(beta));
    let n = layer_norm::ln_model(last, diff.inputs[0], gamma, beta, eps);
    assert(layer_norm::match_at(nodes, s as int) == Some((ai, n)));
    lemma_epsilon(eps);
    lemma_attr_names();
}

/// An expanded GELU is folded too where `x` is scaled by a product with
/// `1 / sqrt(2)` and halved on its own, with the operands in either order.
pub proof fn law_gelu_with_half_on_x_is_found(
    e: usize,
    graph: &GraphIndex<'_>,
    r: Option<(usize, RawNode)>,
    si: int,
    b: int,
    ai: int,
    a: int,
    mi: int,
    p: int,
    hi: int,
    q: int,
)
    requires
        call_ensures(gelu::try_match_gelu, (e, graph), r),
        e < graph.nodes@.len(),
        0 <= b < 2,
        0 <= q < 2,
        ({
            let nodes = node_models(graph.nodes@);
            let scaling = nodes[si];
            let erf = nodes[e as int];
            let sum = nodes[ai];
            let mul = nodes[mi];
            let halving = nodes[hi];
            let x = scaling.inputs[b];
            &&& scaling.node_type is Mul && scaling.inputs.len() == 2
            &&& scaling.inputs[1 - b].value matches Some(d) && d.scalar == Some(
                0x3fe6_a09e_667f_3bcdu64,
            )
            &&& const_scalar_of(nodes, x) is None
            &&& erf.node_type is Erf && erf.inputs.len() == 1 && erf.outputs.len() > 0
            &&& only_made_by(nodes, erf.inputs[0].name, si)
            &&& only_read_at(nodes, erf.inputs[0].name, e as int, 0)
            &&& only_read_at(nodes, erf.outputs[0].name, ai, a)
            &&& sum.node_type is Add && sum.inputs.len() == 2 && sum.outputs.len() > 0
            &&& sum.inputs[1 - a].value matches Some(d) && d.scalar == Some(
                0x3ff0_0000_0000_0000u64,
            )
            &&& only_read_at(nodes, sum.outputs[0].name, mi, p)
            &&& mul.node_type is Mul && mul.inputs.len() == 2
            &&& only_made_by(nodes, mul.inputs[1 - p].name, hi)
            &&& only_read_at(nodes, mul.inputs[1 - p].name, mi, 1 - p)
            &&& halving.node_type is Mul && halving.inputs.len() == 2
            &&& halving.inputs[q].name == x.name && const_scalar_of(nodes, halving.inputs[q])
                is None
            &&& halving.inputs[1 - q].value matches Some(d) && d.scalar == Some(
                0x3fe0_0000_0000_0000u64,
            )
        }),
    ensures
        r matches Some((at, made)) && at == mi && made@.node_type is Gelu && made@.inputs == seq![
            node_models(graph.nodes@)[si].inputs[b],
        ] && made@.outputs == node_models(graph.nodes@)[mi].outputs && made@.name
            == node_models(graph.nodes@)[mi].name + "_gelu"@,
{
    let nodes = node_models(graph.nodes@);
    let scaling = nodes[si];
    let erf = nodes[e as int];
    let sum = nodes[ai];
    let mul = nodes[mi];
    let halving = nodes[hi];
    let x = scaling.inputs[b];
    law_only_maker(nodes, erf.inputs[0].name, si);
    law_only_reader(nodes, erf.inputs[0].name, e as int, 0);
    law_only_reader(nodes, erf.outputs[0].name, ai, a);
    law_only_reader(nodes, sum.outputs[0].name, mi, p);
    law_only_maker(nodes, mul.inputs[1 - p].name, hi);
    law_only_reader(nodes, mul.inputs[1 - p].name, mi, 1 - p);
    assert(const_scalar_of(nodes, scaling.inputs[1 - b]) == Some(0x3fe6_a09e_667f_3bcdu64));
    assert(tensor_and_const(nodes, scaling) == Some((x, 0x3fe6_a09e_667f_3bcdu64)));
    assert(gelu::erf_argument(nodes, e as int) == Some(x));
    assert(sum.inputs[0].name == erf.outputs[0].name ==> a == 0);
    assert(sum.inputs[1].name == erf.outputs[0].name ==> a == 1);
    let one = sum.inputs[1 - a];
    assert(other_of(sum, erf.outputs[0].name) == Some(one));
    assert(const_scalar_of(nodes, one) == Some(0x3ff0_0000_0000_0000u64));
    assert(mul.inputs[0].name == sum.outputs[0].name ==> p == 0);
    assert(mul.inputs[1].name == sum.outputs[0].name ==> p == 1);
    let side = mul.inputs[1 - p];
    assert(other_of(mul, sum.outputs[0].name) == Some(side));
    assert(gelu::erf_plus_one_reader(nodes, e as int) == Some((mi, side)));
    assert(const_scalar_of(nodes, halving.inputs[1 - q]) == Some(0x3fe0_0000_0000_0000u64));
    assert(gelu::is_half(nodes, halving.inputs[1 - q]));
    assert(!gelu::is_half(nodes, halving.inputs[q]));
    assert(gelu::halved(nodes, side) == (halving.inputs[q], true));
    assert(gelu::match_at(nodes, e as int) == Some((mi, gelu::gelu_model(mul, x))));
    let (at, made) = r->0;
    assert(made@.inputs =~= seq![x]);
}

/// A constant is found through every node that hands its input on: what is
/// found behind the input is found behind the output.
pub proof fn law_constants_behind_reshapes(nodes: Seq<NodeModel>, arg: ArgModel, p: int)
    requires
        only_made_by(nodes, arg.name, p),
        nodes[p].inputs.len() > 0,
        nodes[p].node_type is Reshape || nodes[p].node_type is Squeeze || nodes[p].node_type
            is Unsqueeze || nodes[p].node_type is Identity,
        arg.value is None,
    ensures
        const_scalar_of(nodes, nodes[p].inputs[0]) is Some ==> const_scalar_of(nodes, arg)
            == const_scalar_of(nodes, nodes[p].inputs[0]),
        initializer_of(nodes, nodes[p].inputs[0]) is Some ==> initializer_of(nodes, arg)
            == initializer_of(nodes, nodes[p].inputs[0]),
{
    law_only_maker(nodes, arg.name, p);
    let n = nodes.len();
    law_lookup_is_complete(nodes, arg, n + 1);
    assert(scalar_behind(nodes, arg, n + 1) == scalar_behind(nodes, nodes[p].inputs[0], n));
    assert(constant_behind(nodes, arg, n + 1) == constant_behind(nodes, nodes[p].inputs[0], n));
}

/// A constant is its own, or that of the constant node that makes it.
pub proof fn law_constants_themselves(nodes: Seq<NodeModel>, arg: ArgModel, v: u64, p: int)
    ensures
        arg.value matches Some(d) && d.scalar == Some(v) ==> const_scalar_of(nodes, arg) == Some(v),
        arg.value is Some ==> initializer_of(nodes, arg) == Some(arg),
        arg.value is None && only_made_by(nodes, arg.name, p) && nodes[p].node_type is Constant
            ==> initializer_of(nodes, arg) == Some(nodes[p].outputs[0]),
        arg.value is None && only_made_by(nodes, arg.name, p) && nodes[p].node_type is Constant && (
        nodes[p].outputs[0].value matches Some(d) && d.scalar == Some(v)) ==> const_scalar_of(
            nodes,
            arg,
        ) == Some(v),
        arg.value is None && only_made_by(nodes, arg.name, p) && (nodes[p].node_type is Add
            || nodes[p].node_type is Mul || nodes[p].node_type is Other) ==> const_scalar_of(
            nodes,
            arg,
        ) is None && initializer_of(nodes, arg) is None,
{
    if only_made_by(nodes, arg.name, p) {
        law_only_maker(nodes, arg.name, p);
    }
}

/// A scale or shift whose shape is not known in full takes on the shape of its
/// constant; its name, its element type and its constant stay.
pub proof fn law_static_shapes(arg: &Argument, r: Argument)
    requires
        call_ensures(layer_norm::with_static_shape, (arg,), r),
    ensures
        r@.name == arg@.name,
        r@.value == arg@.value,
        !(arg@.ty is Tensor) || arg@.value is None ==> r@.ty == arg@.ty,
        match (arg@.ty, arg@.value) {
            (TypeModel::Tensor(t), Some(d)) => match t.static_shape {
                None => r@.ty matches TypeModel::Tensor(u) && u.dtype == t.dtype && (
                u.static_shape matches Some(s) && s.len() == d.shape.len() && forall|i: int|
                    0 <= i < s.len() ==> #[trigger] s[i] == Some(d.shape[i])),
                Some(s) => (forall|i: int| 0 <= i < s.len() ==> (#[trigger] s[i]) is Some) ==> r@.ty
                    == arg@.ty,
            },
            _ => true,
        },
{
}

/// The input beside a known one is the other of two, and there is none where
/// neither is the known one.
pub proof fn law_other_input<'a>(node: &'a RawNode, known: &String, r: Option<&'a Argument>)
    requires
        call_ensures(other_input, (node, known), r),
    ensures
        node@.inputs.len() < 2 ==> r is None,
        node@.inputs.len() >= 2 && node@.inputs[0].name == known@ ==> (r matches Some(a) && a@
            == node@.inputs[1]),
        node@.inputs.len() >= 2 && node@.inputs[0].name != known@ && node@.inputs[1].name == known@
            ==> (r matches Some(a) && a@ == node@.inputs[0]),
        node@.inputs.len() >= 2 && node@.inputs[0].name != known@ && node@.inputs[1].name != known@
            ==> r is None,
{
}

/// Only a cast of an integer tensor to a float one begins a chain.
pub proof fn law_casts(node: &RawNode, r: bool)
    requires
        call_ensures(dequant_affine::is_int_to_float_cast, (node,), r),
    ensures
        r ==> node.node_type is Cast && node@.inputs.len() > 0 && node@.outputs.len() > 0,
        r ==> node@.inputs[0].ty is Tensor || node@.inputs[0].ty is ScalarTensor,
        r ==> node@.outputs[0].ty is Tensor || node@.outputs[0].ty is ScalarTensor,
        node@.inputs[0].ty matches TypeModel::Tensor(t) ==> (r ==> t.dtype is I64 || t.dtype is I32
            || t.dtype is I16 || t.dtype is I8 || t.dtype is U64 || t.dtype is U32 || t.dtype is U16
            || t.dtype is U8),
        node@.outputs[0].ty matches TypeModel::Tensor(t) ==> (r ==> t.dtype is F64 || t.dtype is F32
            || t.dtype is Flex32 || t.dtype is F16 || t.dtype is BF16),
{
}

/// A scale or shift is a constant of rank 1.
pub proof fn law_rank_1_constants(arg: &Argument, r: bool)
    requires
        call_ensures(layer_norm::is_rank1_param, (arg,), r),
    ensures
        arg.value is None ==> !r,
        arg.value is Some ==> (arg@.ty matches TypeModel::Tensor(t) ==> r == (t.rank == 1)),
        arg@.ty is ScalarTensor || arg@.ty is ScalarNative ==> !r,
{
}

/// Two inputs of the graph read `name`.
pub open spec fn read_twice(nodes: Seq<NodeModel>, name: Seq<char>) -> bool {
    exists|i: int, p: int, k: int, q: int|
        #![trigger nodes[i].inputs[p], nodes[k].inputs[q]]
        {
            &&& 0 <= i < nodes.len() && 0 <= p < nodes[i].inputs.len()
            &&& 0 <= k < nodes.len() && 0 <= q < nodes[k].inputs.len()
            &&& nodes[i].inputs[p].name == name && nodes[k].inputs[q].name == name
            &&& i != k || p != q
        }
}

/// A value that is read twice has more than one use.
proof fn lemma_read_twice(nodes: Seq<NodeModel>, name: Seq<char>)
    requires
        read_twice(nodes, name),
    ensures
        !single_use(nodes, name),
{
    if single_use(nodes, name) {
        let (a, b) = lemma_single_use_place(nodes, name);
        let (i, p, k, q) = choose|i: int, p: int, k: int, q: int|
            #![trigger nodes[i].inputs[p], nodes[k].inputs[q]]
            {
                &&& 0 <= i < nodes.len() && 0 <= p < nodes[i].inputs.len()
                &&& 0 <= k < nodes.len() && 0 <= q < nodes[k].inputs.len()
                &&& nodes[i].inputs[p].name == name && nodes[k].inputs[q].name == name
                &&& i != k || p != q
            };
        assert(reads_at(nodes, name, i, p));
        assert(reads_at(nodes, name, k, q));
    }
}

/// A chain is left alone where its cast is read by more than the product, or
/// its product by more than the sum.
pub proof fn law_dequant_affine_left_alone(
    c: usize,
    graph: &GraphIndex<'_>,
    r: Option<(usize, RawNode)>,
    mi: int,
    p: int,
)
    requires
        call_ensures(dequant_affine::try_match, (c, graph), r),
        c < graph.nodes@.len(),
        ({
            let nodes = node_models(graph.nodes@);
            &&& nodes[c as int].outputs.len() > 0
            &&& {
                ||| read_twice(nodes, nodes[c as int].outputs[0].name)
                ||| only_read_at(nodes, nodes[c as int].outputs[0].name, mi, p) && read_twice(
                    nodes,
                    nodes[mi].outputs[0].name,
                )
            }
        }),
    ensures
        r is None,
{
    let nodes = node_models(graph.nodes@);
    let xf = nodes[c as int].outputs[0].name;
    if read_twice(nodes, xf) {
        lemma_read_twice(nodes, xf);
    } else {
        law_only_reader(nodes, xf, mi, p);
        lemma_read_twice(nodes, nodes[mi].outputs[0].name);
    }
}

/// Scale and bias of a fused node are on the device.
pub proof fn law_dequant_affine_operands(
    c: usize,
    graph: &GraphIndex<'_>,
    r: Option<(usize, RawNode)>,
)
    requires
        call_ensures(dequant_affine::try_match, (c, graph), r),
        c < graph.nodes@.len(),
        r is Some,
    ensures
        ({
            let (at, made) = r->0;
            &&& made@.inputs[1].ty is Tensor || made@.inputs[1].ty is ScalarTensor
            &&& made@.inputs[2].ty is Tensor || made@.inputs[2].ty is ScalarTensor
        }),
{
}

/// An expanded GELU is left alone where its Erf is read by more than the sum,
/// or what the Erf reads by more than the Erf.
pub proof fn law_gelu_left_alone(
    e: usize,
    graph: &GraphIndex<'_>,
    r: Option<(usize, RawNode)>,
    si: int,
)
    requires
        call_ensures(gelu::try_match_gelu, (e, graph), r),
        e < graph.nodes@.len(),
        ({
            let nodes = node_models(graph.nodes@);
            let erf = nodes[e as int];
            &&& erf.inputs.len() > 0 && erf.outputs.len() > 0
            &&& {
                ||| read_twice(nodes, erf.outputs[0].name)
                ||| only_made_by(nodes, erf.inputs[0].name, si) && read_twice(
                    nodes,
                    erf.inputs[0].name,
                )
            }
        }),
    ensures
        r is None,
{
    let nodes = node_models(graph.nodes@);
    let erf = nodes[e as int];
    if read_twice(nodes, erf.outputs[0].name) {
        lemma_read_twice(nodes, erf.outputs[0].name);
    } else {
        law_only_maker(nodes, erf.inputs[0].name, si);
        lemma_read_twice(nodes, erf.inputs[0].name);
    }
}

/// An expanded normalization is left alone where its deviation is read by more
/// than the quotient, or the quotient by more than the product.
pub proof fn law_layer_norm_left_alone(
    s: usize,
    graph: &GraphIndex<'_>,
    r: Option<(usize, RawNode)>,
    di: int,
    p: int,
)
    requires
        call_ensures(layer_norm::try_match_ln, (s, graph), r),
        s < graph.nodes@.len(),
        ({
            let nodes = node_models(graph.nodes@);
            &&& nodes[s as int].outputs.len() > 0
            &&& {
                ||| read_twice(nodes, nodes[s as int].outputs[0].name)
                ||| only_read_at(nodes, nodes[s as int].outputs[0].name, di, p) && read_twice(
                    nodes,
                    nodes[di].outputs[0].name,
                )
            }
        }),
    ensures
        r is None,
{
    let nodes = node_models(graph.nodes@);
    let sd = nodes[s as int].outputs[0].name;
    if read_twice(nodes, sd) {
        lemma_read_twice(nodes, sd);
    } else {
        law_only_reader(nodes, sd, di, p);
        lemma_read_twice(nodes, nodes[di].outputs[0].name);
    }
}

} // verus!
