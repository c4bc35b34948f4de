//! Who makes and who reads a value, and the constants behind it.

use vstd::prelude::*;
use vstd::hash_map::StringHashMap;
use vstd::set_lib::{lemma_int_range, lemma_len_subset, set_int_range};
use crate::ir::{node_models, ArgModel, Argument, NodeModel, NodeType, RawNode};

verus! {

/// Nodes that read `name` among nodes `0 .. i` and the first `j` inputs of
/// node `i`: in graph order, once for each input.
pub open spec fn reads(nodes: Seq<NodeModel>, i: int, j: int, name: Seq<char>) -> Seq<int>
    decreases i, j,
{
    if j > 0 {
        let before = reads(nodes, i, j - 1, name);
        if nodes[i].inputs[j - 1].name == name {
            before.push(i)
        } else {
            before
        }
    } else if i > 0 {
        reads(nodes, i - 1, nodes[i - 1].inputs.len() as int, name)
    } else {
        Seq::empty()
    }
}

/// Nodes that read `name`, in graph order, once for each input.
pub open spec fn consumers(nodes: Seq<NodeModel>, name: Seq<char>) -> Seq<int> {
    reads(nodes, nodes.len() as int, 0, name)
}

/// Exactly one input of the graph reads `name`.
pub open spec fn single_use(nodes: Seq<NodeModel>, name: Seq<char>) -> bool {
    consumers(nodes, name).len() == 1
}

/// The first node that reads `name`.
pub open spec fn first_consumer(nodes: Seq<NodeModel>, name: Seq<char>) -> Option<int> {
    if consumers(nodes, name).len() == 0 {
        None
    } else {
        Some(consumers(nodes, name)[0])
    }
}

/// Some output of the node is `name`.
pub open spec fn has_output(node: NodeModel, name: Seq<char>) -> bool {
    exists|j: int| 0 <= j < node.outputs.len() && (#[trigger] node.outputs[j]).name == name
}

/// The last of nodes `0 .. i` that makes `name`.
pub open spec fn producer_below(nodes: Seq<NodeModel>, i: int, name: Seq<char>) -> Option<int>
    decreases i,
{
    if i <= 0 {
        None
    } else if has_output(nodes[i - 1], name) {
        Some(i - 1)
    } else {
        producer_below(nodes, i - 1, name)
    }
}

/// The node that makes `name`: the last one where several do.
pub open spec fn producer(nodes: Seq<NodeModel>, name: Seq<char>) -> Option<int> {
    producer_below(nodes, nodes.len() as int, name)
}

/// The map agrees with [`consumers`].
pub open spec fn is_consumer_map(
    map: StringHashMap<Vec<usize>>,
    nodes: Seq<NodeModel>,
    i: int,
    j: int,
) -> bool {
    forall|name: Seq<char>|
        {
            &&& (#[trigger] map@.contains_key(name)) == (reads(nodes, i, j, name).len() > 0)
            &&& map@.contains_key(name) ==> map@[name]@.map_values(|x: usize| x as int) == reads(
                nodes,
                i,
                j,
                name,
            )
        }
}

/// The map agrees with [`producer`].
pub open spec fn is_producer_map(
    map: StringHashMap<usize>,
    nodes: Seq<NodeModel>,
    i: int,
) -> bool {
    forall|name: Seq<char>|
        {
            &&& (#[trigger] map@.contains_key(name)) == (producer_below(nodes, i, name) is Some)
            &&& map@.contains_key(name) ==> producer_below(nodes, i, name) == Some(
                map@[name] as int,
            )
        }
}

/// Every reader of every value.
pub fn build_consumer_map(nodes: &Vec<RawNode>) -> (map: StringHashMap<Vec<usize>>)
    ensures
        is_consumer_map(map, node_models(nodes@), nodes@.len() as int, 0),
{
    let ghost g = node_models(nodes@);
    let mut map: StringHashMap<Vec<usize>> = StringHashMap::new();
    let mut i: usize = 0;
    while i < nodes.len()
        invariant
            i <= nodes.len(),
            g == node_models(nodes@),
            is_consumer_map(map, g, i as int, 0),
        decreases nodes.len() - i,
    {
        let mut j: usize = 0;
        while j < nodes[i].inputs.len()
            invariant
                i < nodes.len(),
                j <= nodes@[i as int].inputs@.len(),
                g == node_models(nodes@),
                is_consumer_map(map, g, i as int, j as int),
            decreases nodes@[i as int].inputs@.len() - j,
        {
            let name: String = nodes[i].inputs[j].name.clone();
            let ghost key = name@;
            let ghost before = map;
            assert(g[i as int].inputs[j as int].name == key);
            let mut readers: Vec<usize> = match map.get(name.as_str()) {
                Some(v) => vstd::slice::slice_to_vec(v.as_slice()),
                None => Vec::new(),
            };
            let ghost old_readers = readers@;
            readers.push(i);
            proof {
                assert(before@.contains_key(key) ==> before@[key]@ == old_readers);
                let r0 = reads(g, i as int, j as int, key);
                assert(old_readers.map_values(|x: usize| x as int) =~= r0);
                assert(readers@.map_values(|x: usize| x as int) =~= r0.push(i as int));
            }
            map.insert(name, readers);
            proof {
                assert forall|other: Seq<char>|
                    {
                        &&& (#[trigger] map@.contains_key(other)) == (reads(
                            g,
                            i as int,
                            j + 1,
                            other,
                        ).len() > 0)
                        &&& map@.contains_key(other) ==> map@[other]@.map_values(
                            |x: usize| x as int,
                        ) == reads(g, i as int, j + 1, other)
                    } by {
                    assert(before@.contains_key(other) == (reads(g, i as int, j as int, other).len()
                        > 0));
                }
            }
            j += 1;
        }
        i += 1;
    }
    map
}

/// The maker of every value.
pub fn build_producer_map(nodes: &Vec<RawNode>) -> (map: StringHashMap<usize>)
    ensures
        is_producer_map(map, node_models(nodes@), nodes@.len() as int),
{
    let ghost g = node_models(nodes@);
    let mut map: StringHashMap<usize> = StringHashMap::new();
    let mut i: usize = 0;
    while i < nodes.len()
        invariant
            i <= nodes.len(),
            g == node_models(nodes@),
            is_producer_map(map, g, i as int),
        decreases nodes.len() - i,
    {
        let ghost start = map;
        let mut j: usize = 0;
        while j < nodes[i].outputs.len()
            invariant
                i < nodes.len(),
                j <= nodes@[i as int].outputs@.len(),
                g == node_models(nodes@),
                forall|name: Seq<char>|
                    {
                        let here = exists|k: int|
                            0 <= k < j && (#[trigger] g[i as int].outputs[k]).name == name;
                        &&& (#[trigger] map@.contains_key(name)) == (here
                            || start@.contains_key(name))
                        &&& here ==> map@[name] == i
                        &&& !here && start@.contains_key(name) ==> map@[name] == start@[name]
                    },
            decreases nodes@[i as int].outputs@.len() - j,
        {
            let name: String = nodes[i].outputs[j].name.clone();
            let ghost key = name@;
            let ghost before = map;
            assert(g[i as int].outputs[j as int].name == key);
            map.insert(name, i);
            proof {
                assert forall|other: Seq<char>|
                    {
                        let here = exists|k: int|
                            0 <= k < j + 1 && (#[trigger] g[i as int].outputs[k]).name == other;
                        &&& (#[trigger] map@.contains_key(other)) == (here
                            || start@.contains_key(other))
                        &&& here ==> map@[other] == i
                        &&& !here && start@.contains_key(other) ==> map@[other] == start@[other]
                    } by {
                    assert(before@.contains_key(other) || !before@.contains_key(other));
                    let earlier = exists|k: int|
                        0 <= k < j && (#[trigger] g[i as int].outputs[k]).name == other;
                    let here = exists|k: int|
                        0 <= k < j + 1 && (#[trigger] g[i as int].outputs[k]).name == other;
                    if other == key {
                        assert(here);
                    } else {
                        assert(here == earlier);
                    }
                }
            }
            j += 1;
        }
        proof {
            assert forall|name: Seq<char>|
                {
                    &&& (#[trigger] map@.contains_key(name)) == (producer_below(g, i + 1, name)
                        is Some)
                    &&& map@.contains_key(name) ==> producer_below(g, i + 1, name) == Some(
                        map@[name] as int,
                    )
                } by {
                assert(start@.contains_key(name) == (producer_below(g, i as int, name) is Some));
                let here = exists|k: int|
                    0 <= k < g[i as int].outputs.len() && (
                    #[trigger] g[i as int].outputs[k]).name == name;
                assert(here == has_output(g[i as int], name));
            }
        }
        i += 1;
    }
    map
}

proof fn lemma_reads_bound(nodes: Seq<NodeModel>, i: int, j: int, name: Seq<char>)
    requires
        0 <= i,
        0 <= j,
    ensures
        forall|x: int|
            0 <= x < reads(nodes, i, j, name).len() ==> {
                &&& 0 <= #[trigger] reads(nodes, i, j, name)[x] <= i
                &&& j == 0 ==> reads(nodes, i, j, name)[x] < i
            },
    decreases i, j,
{
    let all = reads(nodes, i, j, name);
    if j > 0 {
        lemma_reads_bound(nodes, i, j - 1, name);
        let before = reads(nodes, i, j - 1, name);
        assert forall|x: int| 0 <= x < all.len() implies 0 <= #[trigger] all[x] <= i by {
            if x < before.len() {
                assert(all[x] == before[x]);
            }
        }
    } else if i > 0 {
        lemma_reads_bound(nodes, i - 1, nodes[i - 1].inputs.len() as int, name);
        let before = reads(nodes, i - 1, nodes[i - 1].inputs.len() as int, name);
        assert(all == before);
        assert forall|x: int| 0 <= x < all.len() implies 0 <= #[trigger] all[x] < i by {
            assert(all[x] == before[x]);
        }
    }
}

proof fn lemma_producer_bound(nodes: Seq<NodeModel>, i: int, name: Seq<char>)
    ensures
        producer_below(nodes, i, name) matches Some(p) ==> 0 <= p < i && has_output(
            nodes[p],
            name,
        ),
    decreases i,
{
    if i > 0 && !has_output(nodes[i - 1], name) {
        lemma_producer_bound(nodes, i - 1, name);
    }
}

/// The producer is the last node with that output, and there is none only
/// where no node has it.
pub proof fn law_producer_is_last(nodes: Seq<NodeModel>, name: Seq<char>, i: int)
    requires
        0 <= i < nodes.len(),
        has_output(nodes[i], name),
    ensures
        producer(nodes, name) matches Some(p) && i <= p && has_output(nodes[p], name),
{
    lemma_producer_after(nodes, nodes.len() as int, name, i);
}

proof fn lemma_producer_after(nodes: Seq<NodeModel>, upto: int, name: Seq<char>, i: int)
    requires
        0 <= i < upto,
        has_output(nodes[i], name),
    ensures
        producer_below(nodes, upto, name) matches Some(p) && i <= p && has_output(nodes[p], name),
    decreases upto,
{
    if !has_output(nodes[upto - 1], name) {
        lemma_producer_after(nodes, upto - 1, name, i);
    }
}

/// An operator that hands its first input on, at most reshaped.
pub open spec fn hands_on(t: NodeType) -> bool {
    t is Unsqueeze || t is Squeeze || t is Identity || t is Reshape
}

/// The bits of the constant `f64` scalar behind an argument: its own, that of
/// a constant node, or that behind what it reshapes, at most `depth` nodes up.
pub open spec fn scalar_behind(nodes: Seq<NodeModel>, arg: ArgModel, depth: nat) -> Option<u64>
    decreases depth,
{
    if arg.value matches Some(d) && d.scalar is Some {
        arg.value->0.scalar
    } else {
        match producer(nodes, arg.name) {
            None => None,
            Some(p) => if hands_on(nodes[p].node_type) {
                if depth == 0 || nodes[p].inputs.len() == 0 {
                    None
                } else {
                    scalar_behind(nodes, nodes[p].inputs[0], (depth - 1) as nat)
                }
            } else if nodes[p].node_type is Constant {
                match nodes[p].outputs[0].value {
                    Some(d) => d.scalar,
                    None => None,
                }
            } else {
                None
            },
        }
    }
}

/// The bits of the constant `f64` scalar behind an argument.
pub open spec fn const_scalar_of(nodes: Seq<NodeModel>, arg: ArgModel) -> Option<u64> {
    scalar_behind(nodes, arg, nodes.len())
}

/// The constant behind an argument: itself, the output of a constant node, or
/// what is behind what it reshapes, at most `depth` nodes up.
pub open spec fn constant_behind(
    nodes: Seq<NodeModel>,
    arg: ArgModel,
    depth: nat,
) -> Option<ArgModel>
    decreases depth,
{
    if arg.value is Some {
        Some(arg)
    } else {
        match producer(nodes, arg.name) {
            None => None,
            Some(p) => if hands_on(nodes[p].node_type) {
                if depth == 0 || nodes[p].inputs.len() == 0 {
                    None
                } else {
                    constant_behind(nodes, nodes[p].inputs[0], (depth - 1) as nat)
                }
            } else if nodes[p].node_type is Constant {
                Some(nodes[p].outputs[0])
            } else {
                None
            },
        }
    }
}

/// The constant behind an argument.
pub open spec fn initializer_of(nodes: Seq<NodeModel>, arg: ArgModel) -> Option<ArgModel> {
    constant_behind(nodes, arg, nodes.len())
}

/// The input of a two-input node beside `known`; the second one where both
/// are `known`.
pub open spec fn other_of(node: NodeModel, known: Seq<char>) -> Option<ArgModel> {
    if node.inputs.len() < 2 {
        None
    } else if node.inputs[0].name == known {
        Some(node.inputs[1])
    } else if node.inputs[1].name == known {
        Some(node.inputs[0])
    } else {
        None
    }
}

/// The tensor input and the constant scalar of a two-input node, the second
/// input being tried as the constant first.
pub open spec fn tensor_and_const(nodes: Seq<NodeModel>, node: NodeModel) -> Option<
    (ArgModel, u64),
> {
    if node.inputs.len() != 2 {
        None
    } else if let Some(v) = const_scalar_of(nodes, node.inputs[1]) {
        Some((node.inputs[0], v))
    } else if let Some(v) = const_scalar_of(nodes, node.inputs[0]) {
        Some((node.inputs[1], v))
    } else {
        None
    }
}

/// The nodes of a graph with the makers and readers of its values.
pub struct GraphIndex<'a> {
    pub nodes: &'a Vec<RawNode>,
    pub consumer: StringHashMap<Vec<usize>>,
    pub producer: StringHashMap<usize>,
}

impl<'a> GraphIndex<'a> {
    pub open spec fn graph(self) -> Seq<NodeModel> {
        node_models(self.nodes@)
    }

    pub open spec fn wf(self) -> bool {
        &&& is_consumer_map(self.consumer, self.graph(), self.nodes@.len() as int, 0)
        &&& is_producer_map(self.producer, self.graph(), self.nodes@.len() as int)
    }

    pub fn new(nodes: &'a Vec<RawNode>) -> (r: Self)
        ensures
            r.wf(),
            r.nodes == nodes,
    {
        GraphIndex {
            nodes,
            consumer: build_consumer_map(nodes),
            producer: build_producer_map(nodes),
        }
    }

    /// Whether exactly one input reads `name`.
    pub fn is_single_use(&self, name: &String) -> (r: bool)
        requires
            self.wf(),
        ensures
            r == single_use(self.graph(), name@),
    {
        match self.consumer.get(name.as_str()) {
            Some(v) => {
                proof {
                    let m = v@.map_values(|x: usize| x as int);
                    assert(m.len() == v@.len());
                }
                v.len() == 1
            },
            None => {
                assert(!self.consumer@.contains_key(name@));
                false
            },
        }
    }

    /// The readers of `name`.
    pub fn consumers_of(&self, name: &String) -> (r: Option<&Vec<usize>>)
        requires
            self.wf(),
        ensures
            r is Some == (consumers(self.graph(), name@).len() > 0),
            r matches Some(v) ==> {
                &&& v@.len() == consumers(self.graph(), name@).len()
                &&& forall|x: int|
                    0 <= x < v@.len() ==> (#[trigger] v@[x]) as int == consumers(
                        self.graph(),
                        name@,
                    )[x] && v@[x] < self.nodes@.len()
            },
    {
        let r: Option<&Vec<usize>> = self.consumer.get(name.as_str());
        proof {
            lemma_reads_bound(self.graph(), self.nodes@.len() as int, 0, name@);
            if let Some(v) = r {
                let m = v@.map_values(|x: usize| x as int);
                assert(m == consumers(self.graph(), name@));
                assert forall|x: int| 0 <= x < v@.len() implies (#[trigger] v@[x]) as int
                    == consumers(self.graph(), name@)[x] && v@[x] < self.nodes@.len() by {
                    assert(m[x] == v@[x] as int);
                }
            } else {
                assert(!self.consumer@.contains_key(name@));
            }
        }
        r
    }

    /// The first reader of `name`.
    pub fn first_consumer_of(&self, name: &String) -> (r: Option<usize>)
        requires
            self.wf(),
        ensures
            r is Some == first_consumer(self.graph(), name@) is Some,
            r matches Some(i) ==> first_consumer(self.graph(), name@) == Some(i as int) && i
                < self.nodes@.len(),
    {
        match self.consumers_of(name) {
            Some(v) => {
                assert(v@[0] as int == consumers(self.graph(), name@)[0]);
                Some(v[0])
            },
            None => None,
        }
    }

    /// The node that makes `name`.
    pub fn producer_of(&self, name: &String) -> (r: Option<usize>)
        requires
            self.wf(),
        ensures
            r is Some == producer(self.graph(), name@) is Some,
            r matches Some(i) ==> producer(self.graph(), name@) == Some(i as int) && i
                < self.nodes@.len() && self.nodes@[i as int].outputs@.len() > 0,
    {
        let r: Option<&usize> = self.producer.get(name.as_str());
        proof {
            lemma_producer_bound(self.graph(), self.nodes@.len() as int, name@);
            assert(self.producer@.contains_key(name@) == (producer(self.graph(), name@) is Some));
        }
        match r {
            Some(i) => {
                assert(has_output(self.graph()[*i as int], name@));
                Some(*i)
            },
            None => None,
        }
    }

    /// The bits of the constant `f64` scalar behind an argument.
    pub fn const_scalar(&self, arg: &Argument) -> (r: Option<u64>)
        requires
            self.wf(),
        ensures
            r == const_scalar_of(self.graph(), arg@),
    {
        let mut cur: &Argument = arg;
        let mut depth: usize = self.nodes.len();
        loop
            invariant
                self.wf(),
                scalar_behind(self.graph(), cur@, depth as nat) == const_scalar_of(
                    self.graph(),
                    arg@,
                ),
            decreases depth,
        {
            if let Some(d) = &cur.value {
                if let Some(v) = d.scalar {
                    return Some(v);
                }
            }
            let p: usize = match self.producer_of(&cur.name) {
                Some(p) => p,
                None => return None,
            };
            let node: &RawNode = &self.nodes[p];
            assert(self.graph()[p as int] == node@);
            match node.node_type {
                NodeType::Unsqueeze
                | NodeType::Squeeze
                | NodeType::Identity
                | NodeType::Reshape => {
                    if depth == 0 || node.inputs.len() == 0 {
                        return None;
                    }
                    assert(node@.inputs[0] == node.inputs@[0]@);
                    cur = &node.inputs[0];
                    depth -= 1;
                },
                NodeType::Constant => {
                    assert(node@.outputs[0] == node.outputs@[0]@);
                    return match &node.outputs[0].value {
                        Some(d) => d.scalar,
                        None => None,
                    };
                },
                _ => return None,
            }
        }
    }

    /// The constant behind an argument.
    pub fn peel_initializer(&self, arg: &'a Argument) -> (r: Option<&'a Argument>)
        requires
            self.wf(),
        ensures
            r is Some == initializer_of(self.graph(), arg@) is Some,
            r matches Some(a) ==> initializer_of(self.graph(), arg@) == Some(a@),
    {
        let mut cur: &'a Argument = arg;
        let mut depth: usize = self.nodes.len();
        loop
            invariant
                self.wf(),
                constant_behind(self.graph(), cur@, depth as nat) == initializer_of(
                    self.graph(),
                    arg@,
                ),
            decreases depth,
        {
            if cur.value.is_some() {
                return Some(cur);
            }
            let p: usize = match self.producer_of(&cur.name) {
                Some(p) => p,
                None => return None,
            };
            let node: &'a RawNode = &self.nodes[p];
            assert(self.graph()[p as int] == node@);
            match node.node_type {
                NodeType::Unsqueeze
                | NodeType::Squeeze
                | NodeType::Identity
                | NodeType::Reshape => {
                    if depth == 0 || node.inputs.len() == 0 {
                        return None;
                    }
                    assert(node@.inputs[0] == node.inputs@[0]@);
                    cur = &node.inputs[0];
                    depth -= 1;
                },
                NodeType::Constant => {
                    assert(node@.outputs[0] == node.outputs@[0]@);
                    return Some(&node.outputs[0]);
                },
                _ => return None,
            }
        }
    }

    /// The tensor input and the constant scalar of a two-input node.
    pub fn split_tensor_and_const(&self, node: &'a RawNode) -> (r: Option<(&'a Argument, u64)>)
        requires
            self.wf(),
        ensures
            r is Some == tensor_and_const(self.graph(), node@) is Some,
            r matches Some((a, v)) ==> tensor_and_const(self.graph(), node@) == Some((a@, v)),
    {
        if node.inputs.len() != 2 {
            return None;
        }
        assert(node@.inputs[0] == node.inputs@[0]@);
        assert(node@.inputs[1] == node.inputs@[1]@);
        if let Some(v) = self.const_scalar(&node.inputs[1]) {
            return Some((&node.inputs[0], v));
        }
        if let Some(v) = self.const_scalar(&node.inputs[0]) {
            return Some((&node.inputs[1], v));
        }
        None
    }
}

/// The input of a two-input node beside `known`.
pub fn other_input<'a>(node: &'a RawNode, known: &String) -> (r: Option<&'a Argument>)
    ensures
        r is Some == other_of(node@, known@) is Some,
        r matches Some(a) ==> other_of(node@, known@) == Some(a@),
{
    if node.inputs.len() < 2 {
        return None;
    }
    assert(node@.inputs[0] == node.inputs@[0]@);
    assert(node@.inputs[1] == node.inputs@[1]@);
    if node.inputs[0].name == *known {
        Some(&node.inputs[1])
    } else if node.inputs[1].name == *known {
        Some(&node.inputs[0])
    } else {
        None
    }
}

/// Whether two arguments are the same value.
pub fn same_value(a: &Argument, b: &Argument) -> (r: bool)
    ensures
        r == (a@.name == b@.name),
{
    a.name == b.name
}

/// The graph with each match of nodes `0 .. upto` put in place of the node
/// that it names; where two name the same one, the later one stays.
pub open spec fn with_matches(
    nodes: Seq<NodeModel>,
    found: spec_fn(int) -> Option<(int, NodeModel)>,
    upto: nat,
) -> Seq<NodeModel>
    decreases upto,
{
    if upto == 0 {
        nodes
    } else {
        let before = with_matches(nodes, found, (upto - 1) as nat);
        match found(upto - 1) {
            Some((i, node)) => before.update(i, node),
            None => before,
        }
    }
}

/// Replacements applied in order.
pub open spec fn replaced(nodes: Seq<NodeModel>, reps: Seq<(usize, RawNode)>) -> Seq<NodeModel>
    decreases reps.len(),
{
    if reps.len() == 0 {
        nodes
    } else {
        replaced(nodes, reps.drop_last()).update(reps.last().0 as int, reps.last().1@)
    }
}

proof fn lemma_replaced_first(nodes: Seq<NodeModel>, reps: Seq<(usize, RawNode)>)
    requires
        reps.len() > 0,
        reps[0].0 < nodes.len(),
    ensures
        replaced(nodes, reps) == replaced(
            nodes.update(reps[0].0 as int, reps[0].1@),
            reps.subrange(1, reps.len() as int),
        ),
    decreases reps.len(),
{
    let rest = reps.subrange(1, reps.len() as int);
    if reps.len() == 1 {
        assert(replaced(nodes, reps.drop_last()) == nodes);
        assert(rest.len() == 0);
    } else {
        lemma_replaced_first(nodes, reps.drop_last());
        assert(reps.drop_last().subrange(1, reps.len() - 1) =~= rest.drop_last());
        assert(rest.last() == reps.last());
    }
}

/// Puts each replacement in its place, in order.
pub fn apply_replacements(nodes: Vec<RawNode>, reps: Vec<(usize, RawNode)>) -> (r: Vec<RawNode>)
    requires
        forall|i: int| 0 <= i < reps@.len() ==> (#[trigger] reps@[i]).0 < nodes@.len(),
    ensures
        node_models(r@) == replaced(node_models(nodes@), reps@),
{
    let ghost all = reps@;
    let ghost g = node_models(nodes@);
    let mut out: Vec<RawNode> = nodes;
    let mut left: Vec<(usize, RawNode)> = reps;
    while left.len() > 0
        invariant
            out@.len() == g.len(),
            forall|i: int| 0 <= i < left@.len() ==> (#[trigger] left@[i]).0 < out@.len(),
            replaced(node_models(out@), left@) == replaced(g, all),
        decreases left.len(),
    {
        let ghost before = node_models(out@);
        let ghost q = left@;
        let (i, node): (usize, RawNode) = left.remove(0);
        proof {
            lemma_replaced_first(before, q);
            assert(left@ =~= q.subrange(1, q.len() as int));
        }
        out[i] = node;
        assert(node_models(out@) =~= before.update(i as int, node@));
    }
    out
}

/// Every reader is a node of the graph.
pub proof fn lemma_consumers(nodes: Seq<NodeModel>, name: Seq<char>)
    ensures
        forall|x: int|
            0 <= x < consumers(nodes, name).len() ==> 0 <= #[trigger] consumers(nodes, name)[x]
                < nodes.len(),
{
    lemma_reads_bound(nodes, nodes.len() as int, 0, name);
}

/// The first reader is a node of the graph.
pub proof fn lemma_first_consumer(nodes: Seq<NodeModel>, name: Seq<char>)
    ensures
        first_consumer(nodes, name) matches Some(i) ==> 0 <= i < nodes.len(),
{
    lemma_consumers(nodes, name);
}

/// Input `j` of node `i` is `name`, and comes before input `bj` of node `bi`.
pub open spec fn reads_below(
    nodes: Seq<NodeModel>,
    bi: int,
    bj: int,
    name: Seq<char>,
    i: int,
    j: int,
) -> bool {
    &&& 0 <= i && 0 <= j < nodes[i].inputs.len()
    &&& i < bi || (i == bi && j < bj)
    &&& nodes[i].inputs[j].name == name
}

/// Input `j` of node `i` is `name`.
pub open spec fn reads_at(nodes: Seq<NodeModel>, name: Seq<char>, i: int, j: int) -> bool {
    reads_below(nodes, nodes.len() as int, 0, name, i, j)
}

proof fn lemma_reads_places(nodes: Seq<NodeModel>, bi: int, bj: int, name: Seq<char>)
    requires
        0 <= bi <= nodes.len(),
        0 <= bj,
        bj > 0 ==> bi < nodes.len() && bj <= nodes[bi].inputs.len(),
    ensures
        reads(nodes, bi, bj, name).len() == 0 ==> forall|i: int, j: int|
            !#[trigger] reads_below(nodes, bi, bj, name, i, j),
        reads(nodes, bi, bj, name).len() == 1 ==> exists|i: int, j: int| #[trigger]
            reads_below(nodes, bi, bj, name, i, j) && i == reads(nodes, bi, bj, name)[0],
        forall|i: int, j: int, k: int, l: int| #[trigger]
            reads_below(nodes, bi, bj, name, i, j) && #[trigger] reads_below(
                nodes,
                bi,
                bj,
                name,
                k,
                l,
            ) && (i != k || j != l) ==> reads(nodes, bi, bj, name).len() >= 2,
    decreases bi, bj,
{
    let all = reads(nodes, bi, bj, name);
    if bj > 0 {
        lemma_reads_places(nodes, bi, bj - 1, name);
        let before = reads(nodes, bi, bj - 1, name);
        let here = nodes[bi].inputs[bj - 1].name == name;
        assert(reads_below(nodes, bi, bj, name, bi, bj - 1) == here);
        assert forall|i: int, j: int| #[trigger] reads_below(nodes, bi, bj, name, i, j) == (
        reads_below(nodes, bi, bj - 1, name, i, j) || (here && i == bi && j == bj - 1)) by {}
        if here {
            assert(all == before.push(bi));
        }
        if all.len() == 1 {
            if here {
                assert(reads_below(nodes, bi, bj, name, bi, bj - 1) && bi == all[0]);
            } else {
                let (i, j) = choose|i: int, j: int| #[trigger]
                    reads_below(nodes, bi, bj - 1, name, i, j) && i == before[0];
                assert(reads_below(nodes, bi, bj, name, i, j) && i == all[0]);
            }
        }
    } else if bi > 0 {
        let n = nodes[bi - 1].inputs.len() as int;
        lemma_reads_places(nodes, bi - 1, n, name);
        assert forall|i: int, j: int| #[trigger] reads_below(nodes, bi, bj, name, i, j)
            == reads_below(nodes, bi - 1, n, name, i, j) by {}
        if all.len() == 1 {
            let (i, j) = choose|i: int, j: int| #[trigger]
                reads_below(nodes, bi - 1, n, name, i, j) && i == all[0];
            assert(reads_below(nodes, bi, bj, name, i, j));
        }
    }
}

/// A value with a single use is read at one place, which the first reader
/// holds.
pub proof fn lemma_single_use_place(nodes: Seq<NodeModel>, name: Seq<char>) -> (at: (int, int))
    requires
        single_use(nodes, name),
    ensures
        reads_at(nodes, name, at.0, at.1),
        first_consumer(nodes, name) == Some(at.0),
        forall|i: int, j: int| #[trigger] reads_at(nodes, name, i, j) ==> i == at.0 && j == at.1,
{
    lemma_reads_places(nodes, nodes.len() as int, 0, name);
    choose|i: int, j: int| #[trigger]
        reads_below(nodes, nodes.len() as int, 0, name, i, j) && i == consumers(nodes, name)[0]
}

/// A value that is read at one place only has a single use, there.
pub proof fn lemma_one_place(nodes: Seq<NodeModel>, name: Seq<char>, i: int, j: int)
    requires
        reads_at(nodes, name, i, j),
        forall|k: int, l: int| #[trigger] reads_at(nodes, name, k, l) ==> k == i && l == j,
    ensures
        single_use(nodes, name),
        first_consumer(nodes, name) == Some(i),
{
    assert forall|k: int, l: int| #[trigger]
        reads_below(nodes, nodes.len() as int, 0, name, k, l) implies k == i && l == j by {
        assert(reads_at(nodes, name, k, l));
    }
    lemma_reads_count(nodes, nodes.len() as int, 0, name, i, j);
    lemma_reads_places(nodes, nodes.len() as int, 0, name);
    if consumers(nodes, name).len() == 0 {
        assert(!reads_below(nodes, nodes.len() as int, 0, name, i, j));
    }
    let (k, l) = lemma_single_use_place(nodes, name);
}

proof fn lemma_reads_count(nodes: Seq<NodeModel>, bi: int, bj: int, name: Seq<char>, i: int, j: int)
    requires
        0 <= bi <= nodes.len(),
        0 <= bj,
        bj > 0 ==> bi < nodes.len() && bj <= nodes[bi].inputs.len(),
        forall|k: int, l: int| #[trigger]
            reads_below(nodes, bi, bj, name, k, l) ==> k == i && l == j,
    ensures
        reads(nodes, bi, bj, name).len() <= 1,
        !reads_below(nodes, bi, bj, name, i, j) ==> reads(nodes, bi, bj, name).len() == 0,
    decreases bi, bj,
{
    if bj > 0 {
        assert(forall|k: int, l: int| #[trigger]
            reads_below(nodes, bi, bj - 1, name, k, l) ==> reads_below(nodes, bi, bj, name, k, l));
        lemma_reads_count(nodes, bi, bj - 1, name, i, j);
        if nodes[bi].inputs[bj - 1].name == name {
            assert(reads_below(nodes, bi, bj, name, bi, bj - 1));
            assert(!reads_below(nodes, bi, bj - 1, name, i, j));
        } else if reads_below(nodes, bi, bj - 1, name, i, j) {
            assert(reads_below(nodes, bi, bj, name, i, j));
        }
    } else if bi > 0 {
        let n = nodes[bi - 1].inputs.len() as int;
        assert forall|k: int, l: int| #[trigger] reads_below(nodes, bi - 1, n, name, k, l) implies k
            == i && l == j by {
            assert(reads_below(nodes, bi, bj, name, k, l));
        }
        lemma_reads_count(nodes, bi - 1, n, name, i, j);
        if reads_below(nodes, bi - 1, n, name, i, j) {
            assert(reads_below(nodes, bi, bj, name, i, j));
        }
    }
}

/// No two outputs of the graph have the same name.
pub open spec fn unique_outputs(nodes: Seq<NodeModel>) -> bool {
    forall|i: int, j: int, k: int, l: int|
        #![trigger nodes[i].outputs[j], nodes[k].outputs[l]]
        0 <= i < nodes.len() && 0 <= j < nodes[i].outputs.len() && 0 <= k < nodes.len() && 0 <= l
            < nodes[k].outputs.len() && nodes[i].outputs[j].name == nodes[k].outputs[l].name ==> i
            == k && j == l
}

/// The producer of a name is a node of the graph that makes it.
pub proof fn lemma_producer(nodes: Seq<NodeModel>, name: Seq<char>)
    ensures
        producer(nodes, name) matches Some(p) ==> 0 <= p < nodes.len() && has_output(
            nodes[p],
            name,
        ),
{
    lemma_producer_bound(nodes, nodes.len() as int, name);
}

/// Who makes a value depends on the outputs alone.
pub proof fn lemma_same_producer(a: Seq<NodeModel>, b: Seq<NodeModel>, upto: int, name: Seq<char>)
    requires
        upto <= a.len(),
        a.len() == b.len(),
        forall|i: int| 0 <= i < a.len() ==> (#[trigger] a[i]).outputs == b[i].outputs,
    ensures
        producer_below(a, upto, name) == producer_below(b, upto, name),
    decreases upto,
{
    if upto > 0 {
        assert(a[upto - 1].outputs == b[upto - 1].outputs);
        lemma_same_producer(a, b, upto - 1, name);
    }
}

/// A node that some match names holds a node that some match put there.
pub proof fn lemma_matched_place(
    nodes: Seq<NodeModel>,
    found: spec_fn(int) -> Option<(int, NodeModel)>,
    upto: nat,
    a: int,
    i: int,
)
    requires
        0 <= a < upto,
        forall|b: int|
            0 <= b < upto ==> (#[trigger] found(b) matches Some((j, _)) ==> 0 <= j < nodes.len()),
        found(a) matches Some((j, _)) && j == i,
    ensures
        exists|b: int|
            0 <= b < upto && #[trigger] found(b) == Some(
                (i, with_matches(nodes, found, upto)[i]),
            ),
    decreases upto,
{
    let below = (upto - 1) as nat;
    lemma_with_matches(nodes, found, below);
    let before = with_matches(nodes, found, below);
    let after = with_matches(nodes, found, upto);
    let last = found(upto - 1) matches Some((j, _)) && j == i;
    if last {
        assert(found(upto - 1) == Some((i, after[i])));
    } else {
        lemma_matched_place(nodes, found, below, a, i);
        let b = choose|b: int| 0 <= b < below && #[trigger] found(b) == Some((i, before[i]));
        assert(after[i] == before[i]);
        assert(found(b) == Some((i, after[i])));
    }
}

/// Putting matches in place keeps the number of nodes, and a node that changed
/// is what some match put there.
pub proof fn lemma_with_matches(
    nodes: Seq<NodeModel>,
    found: spec_fn(int) -> Option<(int, NodeModel)>,
    upto: nat,
)
    requires
        forall|a: int|
            0 <= a < upto ==> (#[trigger] found(a) matches Some((j, _)) ==> 0 <= j < nodes.len()),
    ensures
        with_matches(nodes, found, upto).len() == nodes.len(),
        forall|i: int|
            0 <= i < nodes.len() ==> #[trigger] with_matches(nodes, found, upto)[i] == nodes[i]
                || exists|a: int|
                0 <= a < upto && #[trigger] found(a) == Some(
                    (i, with_matches(nodes, found, upto)[i]),
                ),
    decreases upto,
{
    if upto > 0 {
        lemma_with_matches(nodes, found, (upto - 1) as nat);
        let before = with_matches(nodes, found, (upto - 1) as nat);
        let after = with_matches(nodes, found, upto);
        let last = match found(upto - 1) {
            Some((j, _)) => j,
            None => -1,
        };
        assert forall|i: int| 0 <= i < nodes.len() implies #[trigger] after[i] == nodes[i]
            || exists|a: int| 0 <= a < upto && #[trigger] found(a) == Some((i, after[i])) by {
            if last == i {
                assert(found(upto - 1) == Some((i, after[i])));
            } else {
                assert(after[i] == before[i]);
                if before[i] != nodes[i] {
                    let a = choose|a: int|
                        0 <= a < upto - 1 && #[trigger] found(a) == Some((i, before[i]));
                    assert(found(a) == Some((i, after[i])));
                }
            }
        }
    }
}

/// Following the first inputs of reshaping nodes from `arg` ends within
/// `depth` of them, where `stop` ends it at once.
spec fn settles(
    nodes: Seq<NodeModel>,
    stop: spec_fn(ArgModel) -> bool,
    arg: ArgModel,
    depth: nat,
) -> bool
    decreases depth,
{
    if stop(arg) {
        true
    } else {
        match producer(nodes, arg.name) {
            None => true,
            Some(p) => if hands_on(nodes[p].node_type) && nodes[p].inputs.len() > 0 {
                depth > 0 && settles(nodes, stop, nodes[p].inputs[0], (depth - 1) as nat)
            } else {
                true
            },
        }
    }
}

proof fn lemma_settles_longer(
    nodes: Seq<NodeModel>,
    stop: spec_fn(ArgModel) -> bool,
    arg: ArgModel,
    d: nat,
    e: nat,
)
    requires
        settles(nodes, stop, arg, d),
        d <= e,
    ensures
        settles(nodes, stop, arg, e),
    decreases d,
{
    if !stop(arg) {
        if let Some(p) = producer(nodes, arg.name) {
            if hands_on(nodes[p].node_type) && nodes[p].inputs.len() > 0 {
                lemma_settles_longer(
                    nodes,
                    stop,
                    nodes[p].inputs[0],
                    (d - 1) as nat,
                    (e - 1) as nat,
                );
            }
        }
    }
}

/// It ends within `depth` nodes and not sooner.
spec fn settles_at(
    nodes: Seq<NodeModel>,
    stop: spec_fn(ArgModel) -> bool,
    arg: ArgModel,
    depth: nat,
) -> bool {
    settles(nodes, stop, arg, depth) && (depth > 0 ==> !settles(
        nodes,
        stop,
        arg,
        (depth - 1) as nat,
    ))
}

/// The reshaping nodes on the way.
spec fn way(nodes: Seq<NodeModel>, arg: ArgModel, depth: nat) -> Seq<int>
    decreases depth,
{
    if depth == 0 {
        Seq::empty()
    } else {
        let p = producer(nodes, arg.name)->0;
        seq![p] + way(nodes, nodes[p].inputs[0], (depth - 1) as nat)
    }
}

proof fn lemma_way(
    nodes: Seq<NodeModel>,
    stop: spec_fn(ArgModel) -> bool,
    arg: ArgModel,
    depth: nat,
)
    requires
        settles_at(nodes, stop, arg, depth),
    ensures
        way(nodes, arg, depth).len() == depth,
        forall|k: int|
            0 <= k < depth ==> 0 <= #[trigger] way(nodes, arg, depth)[k] < nodes.len()
                && settles_at(
                nodes,
                stop,
                nodes[way(nodes, arg, depth)[k]].inputs[0],
                (depth - 1 - k) as nat,
            ),
    decreases depth,
{
    if depth > 0 {
        let p = producer(nodes, arg.name)->0;
        lemma_producer_bound(nodes, nodes.len() as int, arg.name);
        let next = nodes[p].inputs[0];
        assert(settles_at(nodes, stop, next, (depth - 1) as nat));
        lemma_way(nodes, stop, next, (depth - 1) as nat);
        let w = way(nodes, arg, depth);
        let rest = way(nodes, next, (depth - 1) as nat);
        assert forall|k: int| 0 <= k < depth implies 0 <= #[trigger] w[k] < nodes.len()
            && settles_at(nodes, stop, nodes[w[k]].inputs[0], (depth - 1 - k) as nat) by {
            if k > 0 {
                assert(w[k] == rest[k - 1]);
            }
        }
    }
}

/// A way that ends passes no node twice, so it is no longer than the graph.
proof fn lemma_way_is_short(
    nodes: Seq<NodeModel>,
    stop: spec_fn(ArgModel) -> bool,
    arg: ArgModel,
    depth: nat,
)
    requires
        settles(nodes, stop, arg, depth),
    ensures
        settles(nodes, stop, arg, nodes.len()),
    decreases depth,
{
    if depth > 0 && settles(nodes, stop, arg, (depth - 1) as nat) {
        lemma_way_is_short(nodes, stop, arg, (depth - 1) as nat);
    } else {
        lemma_way(nodes, stop, arg, depth);
        let w = way(nodes, arg, depth);
        assert(w.no_duplicates()) by {
            assert forall|i: int, j: int| 0 <= i < j < w.len() implies w[i] != w[j] by {
                if w[i] == w[j] {
                    let a = nodes[w[i]].inputs[0];
                    assert(settles_at(nodes, stop, a, (depth - 1 - i) as nat));
                    assert(settles_at(nodes, stop, a, (depth - 1 - j) as nat));
                    lemma_settles_longer(
                        nodes,
                        stop,
                        a,
                        (depth - 1 - j) as nat,
                        (depth - 2 - i) as nat,
                    );
                }
            }
        }
        w.unique_seq_to_set();
        let all = set_int_range(0, nodes.len() as int);
        lemma_int_range(0, nodes.len() as int);
        assert(w.to_set().subset_of(all)) by {
            assert forall|x: int| w.to_set().contains(x) implies all.contains(x) by {
                let k = choose|k: int| 0 <= k < w.len() && w[k] == x;
                assert(0 <= w[k] < nodes.len());
            }
        }
        lemma_len_subset(w.to_set(), all);
        lemma_settles_longer(nodes, stop, arg, depth, nodes.len());
    }
}

spec fn has_scalar() -> spec_fn(ArgModel) -> bool {
    |a: ArgModel| a.value matches Some(d) && d.scalar is Some
}

spec fn has_value() -> spec_fn(ArgModel) -> bool {
    |a: ArgModel| a.value is Some
}

proof fn lemma_scalar_settled(nodes: Seq<NodeModel>, arg: ArgModel, d: nat, e: nat)
    requires
        settles(nodes, has_scalar(), arg, d),
        d <= e,
    ensures
        scalar_behind(nodes, arg, e) == scalar_behind(nodes, arg, d),
    decreases d,
{
    if !has_scalar()(arg) {
        if let Some(p) = producer(nodes, arg.name) {
            if hands_on(nodes[p].node_type) && nodes[p].inputs.len() > 0 {
                lemma_scalar_settled(nodes, nodes[p].inputs[0], (d - 1) as nat, (e - 1) as nat);
            }
        }
    }
}

proof fn lemma_scalar_unsettled(nodes: Seq<NodeModel>, arg: ArgModel, d: nat)
    requires
        !settles(nodes, has_scalar(), arg, d),
    ensures
        scalar_behind(nodes, arg, d) is None,
    decreases d,
{
    if d > 0 {
        let p = producer(nodes, arg.name)->0;
        lemma_scalar_unsettled(nodes, nodes[p].inputs[0], (d - 1) as nat);
    }
}

proof fn lemma_constant_settled(nodes: Seq<NodeModel>, arg: ArgModel, d: nat, e: nat)
    requires
        settles(nodes, has_value(), arg, d),
        d <= e,
    ensures
        constant_behind(nodes, arg, e) == constant_behind(nodes, arg, d),
    decreases d,
{
    if !has_value()(arg) {
        if let Some(p) = producer(nodes, arg.name) {
            if hands_on(nodes[p].node_type) && nodes[p].inputs.len() > 0 {
                lemma_constant_settled(nodes, nodes[p].inputs[0], (d - 1) as nat, (e - 1) as nat);
            }
        }
    }
}

proof fn lemma_constant_unsettled(nodes: Seq<NodeModel>, arg: ArgModel, d: nat)
    requires
        !settles(nodes, has_value(), arg, d),
    ensures
        constant_behind(nodes, arg, d) is None,
    decreases d,
{
    if d > 0 {
        let p = producer(nodes, arg.name)->0;
        lemma_constant_unsettled(nodes, nodes[p].inputs[0], (d - 1) as nat);
    }
}

/// Bounding the way up by the number of nodes loses nothing: a constant that
/// is found at any depth is found.
pub proof fn law_lookup_is_complete(nodes: Seq<NodeModel>, arg: ArgModel, depth: nat)
    ensures
        scalar_behind(nodes, arg, depth) is Some ==> const_scalar_of(nodes, arg) == scalar_behind(
            nodes,
            arg,
            depth,
        ),
        constant_behind(nodes, arg, depth) is Some ==> initializer_of(nodes, arg)
            == constant_behind(nodes, arg, depth),
{
    let n = nodes.len();
    if scalar_behind(nodes, arg, depth) is Some {
        if !settles(nodes, has_scalar(), arg, depth) {
            lemma_scalar_unsettled(nodes, arg, depth);
        }
        lemma_way_is_short(nodes, has_scalar(), arg, depth);
        if depth <= n {
            lemma_scalar_settled(nodes, arg, depth, n);
        } else {
            lemma_scalar_settled(nodes, arg, n, depth);
        }
    }
    if constant_behind(nodes, arg, depth) is Some {
        if !settles(nodes, has_value(), arg, depth) {
            lemma_constant_unsettled(nodes, arg, depth);
        }
        lemma_way_is_short(nodes, has_value(), arg, depth);
        if depth <= n {
            lemma_constant_settled(nodes, arg, depth, n);
        } else {
            lemma_constant_settled(nodes, arg, n, depth);
        }
    }
}

} // verus!
