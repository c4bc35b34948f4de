//! The graph that the rewrites and the code generator work on.

use vstd::prelude::*;
use vstd::string::StringExecFns;

verus! {

/// Element types.
#[derive(Clone, Copy, Debug, PartialEq, Eq, Structural)]
pub enum DType {
    F64,
    F32,
    Flex32,
    F16,
    BF16,
    I64,
    I32,
    I16,
    I8,
    U64,
    U32,
    U16,
    U8,
    Bool,
}

impl DType {
    pub open spec fn float(self) -> bool {
        self is F64 || self is F32 || self is Flex32 || self is F16 || self is BF16
    }

    pub open spec fn signed_int(self) -> bool {
        self is I64 || self is I32 || self is I16 || self is I8
    }

    pub open spec fn unsigned_int(self) -> bool {
        self is U64 || self is U32 || self is U16 || self is U8
    }

    pub fn is_float(&self) -> (r: bool)
        ensures
            r == self.float(),
    {
        matches!(self, DType::F64 | DType::F32 | DType::Flex32 | DType::F16 | DType::BF16)
    }

    pub fn is_int(&self) -> (r: bool)
        ensures
            r == self.signed_int(),
    {
        matches!(self, DType::I64 | DType::I32 | DType::I16 | DType::I8)
    }

    pub fn is_uint(&self) -> (r: bool)
        ensures
            r == self.unsigned_int(),
    {
        matches!(self, DType::U64 | DType::U32 | DType::U16 | DType::U8)
    }
}

/// Operators that the rewrites tell apart.
#[derive(Clone, Copy, Debug, PartialEq, Eq, Structural)]
pub enum NodeType {
    Add,
    Cast,
    Constant,
    DequantAffine,
    Div,
    DynamicQuantizeLinear,
    Erf,
    Gelu,
    Identity,
    LayerNormalization,
    MatMulInteger,
    Mul,
    Pow,
    ReduceMean,
    Relu,
    Reshape,
    Sqrt,
    Squeeze,
    Sub,
    Unsqueeze,
    Other,
}

/// A tensor of some rank, with as much of its shape as is known.
#[derive(Debug)]
pub struct TensorType {
    pub dtype: DType,
    pub rank: usize,
    pub static_shape: Option<Vec<Option<usize>>>,
}

/// Type of an argument.
#[derive(Debug)]
pub enum ArgType {
    Tensor(TensorType),
    ScalarTensor(DType),
    ScalarNative(DType),
    Shape(usize),
}

/// What the rewrites read of a constant: its shape, the bits of its value as
/// an `f64` where it is a scalar, and its values where they are integers.
#[derive(Debug)]
pub struct ConstData {
    pub shape: Vec<usize>,
    pub scalar: Option<u64>,
    pub ints: Option<Vec<i64>>,
}

/// An input or output of a node.
#[derive(Debug)]
pub struct Argument {
    pub name: String,
    pub ty: ArgType,
    pub value: Option<ConstData>,
}

/// Value of a node attribute. A float is held by its bits.
#[derive(Debug)]
pub enum AttributeValue {
    Float32(u32),
    Int64(i64),
    Int64s(Vec<i64>),
    Str(String),
}

/// Attributes of a node, by name.
#[derive(Debug)]
pub struct Attributes {
    entries: Vec<(String, AttributeValue)>,
}

/// A node of the graph.
#[derive(Debug)]
pub struct RawNode {
    pub node_type: NodeType,
    pub name: String,
    pub inputs: Vec<Argument>,
    pub outputs: Vec<Argument>,
    pub attrs: Attributes,
}

/// Model of a [`TensorType`].
#[verifier::ext_equal]
pub struct TensorModel {
    pub dtype: DType,
    pub rank: usize,
    pub static_shape: Option<Seq<Option<usize>>>,
}

/// Model of an [`ArgType`].
#[verifier::ext_equal]
pub enum TypeModel {
    Tensor(TensorModel),
    ScalarTensor(DType),
    ScalarNative(DType),
    Shape(usize),
}

/// Model of a [`ConstData`].
#[verifier::ext_equal]
pub struct ConstModel {
    pub shape: Seq<usize>,
    pub scalar: Option<u64>,
    pub ints: Option<Seq<i64>>,
}

/// Model of an [`Argument`].
#[verifier::ext_equal]
pub struct ArgModel {
    pub name: Seq<char>,
    pub ty: TypeModel,
    pub value: Option<ConstModel>,
}

/// Model of an [`AttributeValue`].
#[verifier::ext_equal]
pub enum AttrModel {
    Float32(u32),
    Int64(i64),
    Int64s(Seq<i64>),
    Str(Seq<char>),
}

/// Model of a [`RawNode`].
#[verifier::ext_equal]
pub struct NodeModel {
    pub node_type: NodeType,
    pub name: Seq<char>,
    pub inputs: Seq<ArgModel>,
    pub outputs: Seq<ArgModel>,
    pub attrs: Map<Seq<char>, AttrModel>,
}

impl View for TensorType {
    type V = TensorModel;

    open spec fn view(&self) -> TensorModel {
        TensorModel {
            dtype: self.dtype,
            rank: self.rank,
            static_shape: match self.static_shape {
                Some(v) => Some(v@),
                None => None,
            },
        }
    }
}

impl View for ArgType {
    type V = TypeModel;

    open spec fn view(&self) -> TypeModel {
        match *self {
            ArgType::Tensor(t) => TypeModel::Tensor(t@),
            ArgType::ScalarTensor(d) => TypeModel::ScalarTensor(d),
            ArgType::ScalarNative(d) => TypeModel::ScalarNative(d),
            ArgType::Shape(n) => TypeModel::Shape(n),
        }
    }
}

impl View for ConstData {
    type V = ConstModel;

    open spec fn view(&self) -> ConstModel {
        ConstModel {
            shape: self.shape@,
            scalar: self.scalar,
            ints: match self.ints {
                Some(v) => Some(v@),
                None => None,
            },
        }
    }
}

impl View for Argument {
    type V = ArgModel;

    open spec fn view(&self) -> ArgModel {
        ArgModel {
            name: self.name@,
            ty: self.ty@,
            value: match self.value {
                Some(d) => Some(d@),
                None => None,
            },
        }
    }
}

impl View for AttributeValue {
    type V = AttrModel;

    open spec fn view(&self) -> AttrModel {
        match *self {
            AttributeValue::Float32(b) => AttrModel::Float32(b),
            AttributeValue::Int64(v) => AttrModel::Int64(v),
            AttributeValue::Int64s(v) => AttrModel::Int64s(v@),
            AttributeValue::Str(s) => AttrModel::Str(s@),
        }
    }
}

/// Attributes in the order they were set; a later one replaces an earlier one
/// of the same name.
pub open spec fn attr_map(entries: Seq<(String, AttributeValue)>) -> Map<Seq<char>, AttrModel>
    decreases entries.len(),
{
    if entries.len() == 0 {
        Map::empty()
    } else {
        attr_map(entries.drop_last()).insert(entries.last().0@, entries.last().1@)
    }
}

impl View for Attributes {
    type V = Map<Seq<char>, AttrModel>;

    closed spec fn view(&self) -> Map<Seq<char>, AttrModel> {
        attr_map(self.entries@)
    }
}

/// Models of a list of arguments.
pub open spec fn arg_models(args: Seq<Argument>) -> Seq<ArgModel> {
    args.map_values(|a: Argument| a@)
}

impl View for RawNode {
    type V = NodeModel;

    open spec fn view(&self) -> NodeModel {
        NodeModel {
            node_type: self.node_type,
            name: self.name@,
            inputs: arg_models(self.inputs@),
            outputs: arg_models(self.outputs@),
            attrs: self.attrs@,
        }
    }
}

/// Models of a list of nodes.
pub open spec fn node_models(nodes: Seq<RawNode>) -> Seq<NodeModel> {
    nodes.map_values(|n: RawNode| n@)
}

fn copy_dims(v: &Vec<Option<usize>>) -> (r: Vec<Option<usize>>)
    ensures
        r@ == v@,
{
    let mut r: Vec<Option<usize>> = Vec::new();
    let mut i: usize = 0;
    while i < v.len()
        invariant
            i <= v.len(),
            r@ == v@.subrange(0, i as int),
        decreases v.len() - i,
    {
        r.push(v[i]);
        i += 1;
        assert(v@.subrange(0, i as int) =~= v@.subrange(0, i - 1).push(v@[i - 1]));
    }
    assert(v@.subrange(0, i as int) =~= v@);
    r
}

impl Clone for TensorType {
    fn clone(&self) -> (r: Self)
        ensures
            r@ == self@,
    {
        TensorType {
            dtype: self.dtype,
            rank: self.rank,
            static_shape: match &self.static_shape {
                Some(v) => Some(copy_dims(v)),
                None => None,
            },
        }
    }
}

impl Clone for ArgType {
    fn clone(&self) -> (r: Self)
        ensures
            r@ == self@,
    {
        match self {
            ArgType::Tensor(t) => ArgType::Tensor(t.clone()),
            ArgType::ScalarTensor(d) => ArgType::ScalarTensor(*d),
            ArgType::ScalarNative(d) => ArgType::ScalarNative(*d),
            ArgType::Shape(n) => ArgType::Shape(*n),
        }
    }
}

impl Clone for ConstData {
    fn clone(&self) -> (r: Self)
        ensures
            r@ == self@,
    {
        ConstData {
            shape: vstd::slice::slice_to_vec(self.shape.as_slice()),
            scalar: self.scalar,
            ints: match &self.ints {
                Some(v) => Some(vstd::slice::slice_to_vec(v.as_slice())),
                None => None,
            },
        }
    }
}

impl Clone for Argument {
    fn clone(&self) -> (r: Self)
        ensures
            r@ == self@,
    {
        Argument {
            name: self.name.clone(),
            ty: self.ty.clone(),
            value: match &self.value {
                Some(d) => Some(d.clone()),
                None => None,
            },
        }
    }
}

/// A copy of a list of arguments.
pub fn copy_args(args: &Vec<Argument>) -> (r: Vec<Argument>)
    ensures
        arg_models(r@) == arg_models(args@),
{
    let mut r: Vec<Argument> = Vec::new();
    let mut i: usize = 0;
    while i < args.len()
        invariant
            i <= args.len(),
            r@.len() == i,
            forall|j: int| 0 <= j < i ==> (#[trigger] r@[j])@ == args@[j]@,
        decreases args.len() - i,
    {
        r.push(args[i].clone());
        i += 1;
    }
    assert(arg_models(r@) =~= arg_models(args@));
    r
}

impl TypeModel {
    /// The value is a tensor on the device, a scalar one included.
    pub open spec fn on_device(self) -> bool {
        self is Tensor || self is ScalarTensor
    }

    pub open spec fn elem(self) -> DType {
        match self {
            TypeModel::Tensor(t) => t.dtype,
            TypeModel::ScalarTensor(d) => d,
            TypeModel::ScalarNative(d) => d,
            TypeModel::Shape(_) => DType::I64,
        }
    }

    pub open spec fn ranked(self) -> int {
        match self {
            TypeModel::Tensor(t) => t.rank as int,
            TypeModel::ScalarTensor(_) => 0,
            TypeModel::ScalarNative(_) => 0,
            TypeModel::Shape(_) => 1,
        }
    }

    /// Every dimension of a tensor is known.
    pub open spec fn shape_known(self) -> bool {
        self matches TypeModel::Tensor(t) && t.static_shape matches Some(s) && forall|i: int|
            0 <= i < s.len() ==> (#[trigger] s[i]) is Some
    }
}

impl ArgType {
    pub fn is_on_device(&self) -> (r: bool)
        ensures
            r == self@.on_device(),
    {
        matches!(self, ArgType::Tensor(_) | ArgType::ScalarTensor(_))
    }

    pub fn elem_type(&self) -> (r: DType)
        ensures
            r == self@.elem(),
    {
        match self {
            ArgType::Tensor(t) => t.dtype,
            ArgType::ScalarTensor(d) => *d,
            ArgType::ScalarNative(d) => *d,
            ArgType::Shape(_) => DType::I64,
        }
    }

    pub fn rank(&self) -> (r: usize)
        ensures
            r == self@.ranked(),
    {
        match self {
            ArgType::Tensor(t) => t.rank,
            ArgType::ScalarTensor(_) => 0,
            ArgType::ScalarNative(_) => 0,
            ArgType::Shape(_) => 1,
        }
    }

    /// Whether every dimension of a tensor is known.
    pub fn static_shape_known(&self) -> (r: bool)
        ensures
            r == self@.shape_known(),
    {
        match self {
            ArgType::Tensor(t) => match &t.static_shape {
                Some(s) => {
                    let mut i: usize = 0;
                    while i < s.len()
                        invariant
                            i <= s.len(),
                            self@ matches TypeModel::Tensor(tm) && tm.static_shape == Some(s@),
                            forall|j: int| 0 <= j < i ==> (#[trigger] s@[j]) is Some,
                        decreases s.len() - i,
                    {
                        if s[i].is_none() {
                            assert(s@[i as int] is None);
                            return false;
                        }
                        i += 1;
                    }
                    true
                },
                None => false,
            },
            _ => false,
        }
    }
}

impl TensorType {
    /// A tensor whose dimensions are all known.
    pub fn new_known(dtype: DType, dims: &Vec<usize>) -> (r: Self)
        ensures
            r@ == known_tensor(dtype, dims@),
    {
        let mut shape: Vec<Option<usize>> = Vec::new();
        let mut i: usize = 0;
        while i < dims.len()
            invariant
                i <= dims.len(),
                shape@.len() == i,
                forall|j: int| 0 <= j < i ==> #[trigger] shape@[j] == Some(dims@[j]),
            decreases dims.len() - i,
        {
            shape.push(Some(dims[i]));
            i += 1;
        }
        assert(shape@ =~= dims@.map_values(|d: usize| Some(d)));
        TensorType { dtype, rank: dims.len(), static_shape: Some(shape) }
    }
}

/// A tensor whose dimensions are all known.
pub open spec fn known_tensor(dtype: DType, dims: Seq<usize>) -> TensorModel {
    TensorModel {
        dtype,
        rank: dims.len() as usize,
        static_shape: Some(dims.map_values(|d: usize| Some(d))),
    }
}

/// Setting the value at the last place of a name sets the name.
proof fn lemma_attr_update(entries: Seq<(String, AttributeValue)>, at: int, v: AttributeValue)
    requires
        0 <= at < entries.len(),
        forall|j: int| at < j < entries.len() ==> (#[trigger] entries[j]).0@ != entries[at].0@,
    ensures
        attr_map(entries.update(at, (entries[at].0, v))) == attr_map(entries).insert(
            entries[at].0@,
            v@,
        ),
    decreases entries.len(),
{
    let changed = entries.update(at, (entries[at].0, v));
    let key = entries[at].0@;
    if at == entries.len() - 1 {
        assert(changed.drop_last() =~= entries.drop_last());
        assert(attr_map(changed) =~= attr_map(entries).insert(key, v@));
    } else {
        let head = entries.drop_last();
        assert(changed.drop_last() =~= head.update(at, (head[at].0, v)));
        lemma_attr_update(head, at, v);
        assert(entries.last().0@ != key);
        assert(attr_map(changed) =~= attr_map(entries).insert(key, v@));
    }
}

/// The last entry of a name is its value; a name without an entry is not set.
proof fn lemma_attr_lookup(entries: Seq<(String, AttributeValue)>, at: int, key: Seq<char>)
    requires
        -1 <= at < entries.len(),
        forall|j: int| at < j < entries.len() ==> (#[trigger] entries[j]).0@ != key,
        at >= 0 ==> entries[at].0@ == key,
    ensures
        attr_map(entries).contains_key(key) == (at >= 0),
        at >= 0 ==> attr_map(entries)[key] == entries[at].1@,
    decreases entries.len(),
{
    if entries.len() > 0 && at < entries.len() - 1 {
        let head = entries.drop_last();
        assert(entries.last().0@ != key);
        lemma_attr_lookup(head, at, key);
    }
}

/// A name is set exactly where it has an entry.
proof fn lemma_attr_keys(entries: Seq<(String, AttributeValue)>, key: Seq<char>)
    ensures
        attr_map(entries).contains_key(key) <==> exists|i: int|
            0 <= i < entries.len() && (#[trigger] entries[i]).0@ == key,
    decreases entries.len(),
{
    if entries.len() > 0 {
        let head = entries.drop_last();
        lemma_attr_keys(head, key);
        if attr_map(head).contains_key(key) {
            let i = choose|i: int| 0 <= i < head.len() && (#[trigger] head[i]).0@ == key;
            assert(entries[i].0@ == key);
        }
        if exists|i: int| 0 <= i < entries.len() && (#[trigger] entries[i]).0@ == key {
            let i = choose|i: int| 0 <= i < entries.len() && (#[trigger] entries[i]).0@ == key;
            if i < head.len() {
                assert(head[i].0@ == key);
            }
        }
        if entries.last().0@ == key {
            assert(entries[entries.len() - 1].0@ == key);
        }
    }
}

impl Attributes {
    pub fn new() -> (r: Self)
        ensures
            r@ == Map::<Seq<char>, AttrModel>::empty(),
    {
        Attributes { entries: Vec::new() }
    }

    /// Place of the last entry of a name.
    fn find(&self, name: &String) -> (r: Option<usize>)
        ensures
            r matches Some(i) ==> i < self.entries@.len() && self.entries@[i as int].0@ == name@
                && forall|j: int|
                i < j < self.entries@.len() ==> (#[trigger] self.entries@[j]).0@ != name@,
            r is None ==> forall|j: int|
                0 <= j < self.entries@.len() ==> (#[trigger] self.entries@[j]).0@ != name@,
    {
        let mut i: usize = self.entries.len();
        while i > 0
            invariant
                i <= self.entries.len(),
                forall|j: int|
                    i <= j < self.entries@.len() ==> (#[trigger] self.entries@[j]).0@ != name@,
            decreases i,
        {
            i -= 1;
            if self.entries[i].0 == *name {
                return Some(i);
            }
        }
        None
    }

    /// The value of the attribute `name`.
    pub fn get(&self, name: &str) -> (r: Option<&AttributeValue>)
        ensures
            r is Some == self@.contains_key(name@),
            r matches Some(v) ==> v@ == self@[name@],
    {
        let key: String = String::from_str(name);
        match self.find(&key) {
            Some(i) => {
                proof {
                    lemma_attr_lookup(self.entries@, i as int, name@);
                }
                Some(&self.entries[i].1)
            },
            None => {
                proof {
                    lemma_attr_lookup(self.entries@, -1, name@);
                }
                None
            },
        }
    }

    /// Sets the attribute `name`.
    pub fn insert(&mut self, name: String, value: AttributeValue)
        ensures
            final(self)@ == old(self)@.insert(name@, value@),
    {
        match self.find(&name) {
            Some(i) => {
                let ghost before = self.entries@;
                proof {
                    lemma_attr_update(before, i as int, value);
                }
                let key: String = self.entries[i].0.clone();
                self.entries[i] = (key, value);
                assert(self.entries@ =~= before.update(i as int, (before[i as int].0, value)));
            },
            None => {
                let ghost before = self.entries@;
                self.entries.push((name, value));
                assert(self.entries@.drop_last() =~= before);
            },
        }
    }

    /// A name that is set and is not `allowed`, if there is one.
    pub fn unexpected(&self, allowed: &str) -> (r: Option<String>)
        ensures
            r matches Some(k) ==> self@.contains_key(k@) && k@ != allowed@,
            r is None ==> forall|k: Seq<char>| #[trigger]
                self@.contains_key(k) ==> k == allowed@,
    {
        let key: String = String::from_str(allowed);
        let mut i: usize = 0;
        while i < self.entries.len()
            invariant
                i <= self.entries.len(),
                key@ == allowed@,
                forall|j: int| 0 <= j < i ==> (#[trigger] self.entries@[j]).0@ == allowed@,
            decreases self.entries.len() - i,
        {
            if !(self.entries[i].0 == key) {
                proof {
                    lemma_attr_keys(self.entries@, self.entries@[i as int].0@);
                }
                return Some(self.entries[i].0.clone());
            }
            i += 1;
        }
        proof {
            assert forall|k: Seq<char>| #[trigger] self@.contains_key(k) implies k == allowed@ by {
                lemma_attr_keys(self.entries@, k);
            }
        }
        None
    }
}

} // verus!
