//! The flat-continuation IR: every continuation is self-contained and
//! refers to its parameters, effect parameters and body nodes by local index.
use vstd::prelude::*;
use smallvec::SmallVec;
use crate::common::{
    AtomicOrdering, AtomicRMWCode, DataId, ExternDecl, ExternId, ICond, Opcode, RawType, StaticData,
    SyncScope,
};
use crate::model::{
    ContModel, EffectArgModel, FlatGraphModel, NodeModel, TermModel, ValueModel,
};
use crate::basicblock::name_model;

verus! {

#[derive(Debug, Clone, Copy, PartialEq, Eq, Structural, Hash)]
pub struct NodeId(pub u32);

#[derive(Debug, Clone, Copy, PartialEq, Eq, Structural, PartialOrd, Ord, Hash)]
pub struct ContId(pub u32);

/// An operand inside a continuation.
///
/// `Node(i)` is local index `i`: first the value parameters, then the effect
/// parameters, then the body nodes, in that order.
#[derive(Debug, PartialEq, Eq, Hash)]
pub enum Value {
    Node(NodeId),
    Const(u64, RawType),
    Param(usize),
    Effect(usize),
}

impl View for Value {
    type V = ValueModel;

    open spec fn view(&self) -> ValueModel {
        match *self {
            Value::Node(n) => ValueModel::Node(n.0),
            Value::Const(c, t) => ValueModel::Const(c, t@),
            Value::Param(i) => ValueModel::Param(i),
            Value::Effect(i) => ValueModel::Effect(i),
        }
    }
}

impl Clone for Value {
    fn clone(&self) -> (r: Self)
        ensures
            r@ == self@,
    {
        match self {
            Value::Node(n) => Value::Node(*n),
            Value::Const(c, t) => Value::Const(*c, t.clone()),
            Value::Param(i) => Value::Param(*i),
            Value::Effect(i) => Value::Effect(*i),
        }
    }
}

/// Copies a list of values.
pub fn clone_values(v: &[Value]) -> (r: Vec<Value>)
    ensures
        values_model(r@) == values_model(v@),
{
    let mut out: Vec<Value> = Vec::new();
    let mut i: usize = 0;
    while i < v.len()
        invariant
            i <= v.len(),
            out@.len() == i,
            forall|j: int| 0 <= j < i ==> out@[j]@ == v@[j]@,
        decreases v.len() - i,
    {
        let x = v[i].clone();
        out.push(x);
        i = i + 1;
    }
    assert(values_model(out@) =~= values_model(v@));
    out
}

/// Models of a list of values.
pub open spec fn values_model(v: Seq<Value>) -> Seq<ValueModel> {
    v.map_values(|x: Value| x@)
}

/// Models of a list of named effect arguments.
pub open spec fn effect_args_model(v: Seq<(String, Value)>) -> Seq<EffectArgModel> {
    v.map_values(|a: (String, Value)| (a.0@, a.1@))
}

/// The index operands of a `GEP` node; up to three are kept inline.
#[verifier::external_body]
#[derive(Debug, PartialEq, Eq, Hash)]
pub struct GepIndices {
    inner: SmallVec<[Value; 3]>,
}

/// The values a `GepIndices` holds, in order.
pub uninterp spec fn gep_index_items(v: GepIndices) -> Seq<Value>;

/// Builds the inline vector from `v` through `SmallVec::from_vec`, which
/// keeps the elements of `v` in order.
#[verifier::external_body]
fn gep_indices_from_vec(v: Vec<Value>) -> (r: GepIndices)
    ensures
        gep_index_items(r) == v@,
{
    GepIndices { inner: SmallVec::from_vec(v) }
}

/// Reads the elements through `SmallVec::as_slice`, which returns them all
/// in order.
#[verifier::external_body]
fn gep_indices_as_slice(v: &GepIndices) -> (r: &[Value])
    ensures
        r@ == gep_index_items(*v),
{
    v.inner.as_slice()
}

impl GepIndices {
    pub fn from_vec(v: Vec<Value>) -> (r: GepIndices)
        ensures
            gep_index_items(r) == v@,
    {
        gep_indices_from_vec(v)
    }

    pub fn as_slice(&self) -> (r: &[Value])
        ensures
            r@ == gep_index_items(*self),
    {
        gep_indices_as_slice(self)
    }
}

impl Clone for GepIndices {
    fn clone(&self) -> (r: Self)
        ensures
            values_model(gep_index_items(r)) == values_model(gep_index_items(*self)),
    {
        GepIndices::from_vec(clone_values(self.as_slice()))
    }
}

/// The operands of a `Compute` node; up to four are kept inline.
#[verifier::external_body]
#[derive(Debug, PartialEq, Eq, Hash)]
pub struct Operands {
    inner: SmallVec<[Value; 4]>,
}

/// The values an `Operands` holds, in order.
pub uninterp spec fn operand_items(v: Operands) -> Seq<Value>;

/// Builds the inline vector from `v` through `SmallVec::from_vec`, which
/// keeps the elements of `v` in order.
#[verifier::external_body]
fn operands_from_vec(v: Vec<Value>) -> (r: Operands)
    ensures
        operand_items(r) == v@,
{
    Operands { inner: SmallVec::from_vec(v) }
}

/// Reads the elements through `SmallVec::as_slice`, which returns them all
/// in order.
#[verifier::external_body]
fn operands_as_slice(v: &Operands) -> (r: &[Value])
    ensures
        r@ == operand_items(*v),
{
    v.inner.as_slice()
}

impl Operands {
    pub fn from_vec(v: Vec<Value>) -> (r: Operands)
        ensures
            operand_items(r) == v@,
    {
        operands_from_vec(v)
    }

    pub fn as_slice(&self) -> (r: &[Value])
        ensures
            r@ == operand_items(*self),
    {
        operands_as_slice(self)
    }
}

impl Clone for Operands {
    fn clone(&self) -> (r: Self)
        ensures
            values_model(operand_items(r)) == values_model(operand_items(*self)),
    {
        Operands::from_vec(clone_values(self.as_slice()))
    }
}

#[derive(Debug, Clone, PartialEq, Eq, Hash)]
pub enum Node {
    Const(u64, RawType),
    DataRef(DataId),
    ExternRef(ExternId),
    ContRef(ContId),
    Param(usize),
    EffectParam(usize),
    Load { data_type: RawType, effect_state: Value, addr: Value, signed: bool },
    Store { data_type: RawType, effect_state: Value, addr: Value, value: Value },
    AtomicCAS { data_type: RawType, effect_state: Value, addr: Value, old: Value, new: Value },
    AtomicRMW {
        data_type: RawType,
        effect_state: Value,
        addr: Value,
        value: Value,
        operator: AtomicRMWCode,
    },
    GEP(RawType, Value, GepIndices),
    Select(Value, Value, Value),
    Icmp(ICond, Value, Value),
    Compute(Opcode, Operands),
    Proj(Value, u8),
    TokenMerge(Vec<Value>),
    Alloc(RawType),
    Call { target: Value, effect_args: Vec<(String, Value)>, args: Vec<Value> },
}

impl View for Node {
    type V = NodeModel;

    open spec fn view(&self) -> NodeModel {
        match *self {
            Node::Const(c, t) => NodeModel::Const(c, t@),
            Node::DataRef(d) => NodeModel::DataRef(d),
            Node::ExternRef(e) => NodeModel::ExternRef(e),
            Node::ContRef(c) => NodeModel::ContRef(c.0),
            Node::Param(i) => NodeModel::Param(i),
            Node::EffectParam(i) => NodeModel::EffectParam(i),
            Node::Load { data_type, effect_state, addr, signed } => NodeModel::Load {
                data_type: data_type@,
                effect_state: effect_state@,
                addr: addr@,
                signed,
            },
            Node::Store { data_type, effect_state, addr, value } => NodeModel::Store {
                data_type: data_type@,
                effect_state: effect_state@,
                addr: addr@,
                value: value@,
            },
            Node::AtomicCAS { data_type, effect_state, addr, old, new } => NodeModel::AtomicCAS {
                data_type: data_type@,
                effect_state: effect_state@,
                addr: addr@,
                old: old@,
                new: new@,
            },
            Node::AtomicRMW { data_type, effect_state, addr, value, operator } =>
                NodeModel::AtomicRMW {
                data_type: data_type@,
                effect_state: effect_state@,
                addr: addr@,
                value: value@,
                operator,
            },
            Node::GEP(t, base, indices) => NodeModel::GEP(
                t@,
                base@,
                values_model(gep_index_items(indices)),
            ),
            Node::Select(c, t, f) => NodeModel::Select(c@, t@, f@),
            Node::Icmp(cond, a, b) => NodeModel::Icmp(cond, a@, b@),
            Node::Compute(op, ops) => NodeModel::Compute(op, values_model(operand_items(ops))),
            Node::Proj(v, k) => NodeModel::Proj(v@, k),
            Node::TokenMerge(vs) => NodeModel::TokenMerge(values_model(vs@)),
            Node::Alloc(t) => NodeModel::Alloc(t@),
            Node::Call { target, effect_args, args } => NodeModel::Call {
                target: target@,
                effect_args: effect_args_model(effect_args@),
                args: values_model(args@),
            },
        }
    }
}

#[derive(Debug, Clone, PartialEq, Eq, Hash)]
pub enum Terminator {
    Jump { effect_args: Vec<(String, Value)>, common_args: Vec<Value>, target: ContId },
    Branch {
        effect_args: Vec<(String, Value)>,
        common_args: Vec<Value>,
        cond: Value,
        then_target: ContId,
        else_target: ContId,
    },
    Switch {
        effect_args: Vec<(String, Value)>,
        common_args: Vec<Value>,
        case: Value,
        targets: Vec<ContId>,
    },
    Return { effect_args: Vec<(String, Value)>, common_args: Vec<Value> },
}

/// The ids of a list of continuation ids, as integers.
pub open spec fn cont_ids_model(v: Seq<ContId>) -> Seq<u32> {
    v.map_values(|c: ContId| c.0)
}

impl View for Terminator {
    type V = TermModel;

    open spec fn view(&self) -> TermModel {
        match *self {
            Terminator::Jump { effect_args, common_args, target } => TermModel::Jump {
                effect_args: effect_args_model(effect_args@),
                common_args: values_model(common_args@),
                target: target.0,
            },
            Terminator::Branch { effect_args, common_args, cond, then_target, else_target } =>
                TermModel::Branch {
                effect_args: effect_args_model(effect_args@),
                common_args: values_model(common_args@),
                cond: cond@,
                then_target: then_target.0,
                else_target: else_target.0,
            },
            Terminator::Switch { effect_args, common_args, case, targets } => TermModel::Switch {
                effect_args: effect_args_model(effect_args@),
                common_args: values_model(common_args@),
                case: case@,
                targets: cont_ids_model(targets@),
            },
            Terminator::Return { effect_args, common_args } => TermModel::Return {
                effect_args: effect_args_model(effect_args@),
                common_args: values_model(common_args@),
            },
        }
    }
}

/// A self-contained continuation.
///
/// Local index `i` names `params[i]` for `i < params.len()`, then
/// `effects[i - params.len()]`, then `nodes[i - params.len() - effects.len()]`.
#[derive(Debug, Clone, PartialEq, Eq, Hash)]
pub struct FlatContinuation {
    pub effects: Vec<String>,
    pub params: Vec<RawType>,
    pub nodes: Vec<Node>,
    pub terminator: Terminator,
}

impl View for FlatContinuation {
    type V = ContModel;

    open spec fn view(&self) -> ContModel {
        ContModel {
            effects: self.effects@.map_values(|s: String| s@),
            params: self.params@.map_values(|t: RawType| t@),
            nodes: self.nodes@.map_values(|n: Node| n@),
            terminator: self.terminator@,
        }
    }
}

#[derive(Debug, Clone, PartialEq, Eq, Hash)]
pub struct FlatContGraph {
    pub name: Option<String>,
    pub static_data: Vec<StaticData>,
    pub externals: Vec<ExternDecl>,
    pub continuations: Vec<FlatContinuation>,
}

impl View for FlatContGraph {
    type V = FlatGraphModel;

    open spec fn view(&self) -> FlatGraphModel {
        FlatGraphModel {
            name: name_model(self.name),
            static_data: self.static_data@.map_values(|d: StaticData| d@),
            externals: self.externals@.map_values(|d: ExternDecl| d@),
            continuations: self.continuations@.map_values(|c: FlatContinuation| c@),
        }
    }
}

/// A symbol a graph makes visible to other modules.
#[derive(Debug, Clone, PartialEq, Eq, Hash)]
pub struct ExportedSymbol {
    pub name: String,
    pub cont: ContId,
}

/// A function: its continuations and the one control enters first.
#[derive(Debug, Clone, PartialEq, Eq, Hash)]
pub struct Function {
    pub continuations: Vec<FlatContinuation>,
    pub entry: ContId,
}

// The effect-separated form of a continuation body: pure dataflow refers to
// values through `ValueRef`, memory operations thread explicit
// `EffectPath`s.

#[derive(Debug, Clone, Copy, PartialEq, Eq, Structural, PartialOrd, Ord, Hash)]
pub struct ValueId(pub u32);

#[derive(Debug, Clone, Copy, PartialEq, Eq, Structural, PartialOrd, Ord, Hash)]
pub struct EffectId(pub u32);

#[derive(Debug, Clone, PartialEq, Eq, Hash)]
pub enum ValueRef {
    /// Value parameter (index into the continuation's params).
    Param(usize),
    /// Reference to a local dataflow node.
    Value(ValueId),
    /// Compile-time constant.
    Const(u64, RawType),
    DataRef(DataId),
    ExternRef(ExternId),
    ContRef(ContId),
    /// The sole ordinary value produced by an effect node.
    ValueFromEffect(EffectId),
}

#[derive(Debug, Clone, PartialEq, Eq, PartialOrd, Ord, Hash)]
pub enum EffectPath {
    Param(usize),
    Effect(EffectId),
    NewEffect(Option<String>),
    EffectMerge(Vec<EffectId>),
}

/// Atomicity of a load or store.
#[derive(Debug, Clone, PartialEq, Eq, Hash)]
pub struct AtomicLS {
    ordering: AtomicOrdering,
    sync_scope: SyncScope,
}

#[derive(Debug, Clone, PartialEq, Eq, Hash)]
pub enum Effect {
    Load { data_type: RawType, effect_state: EffectPath, atomic: Option<AtomicLS>, addr: ValueRef },
    Store {
        data_type: RawType,
        effect_state: EffectPath,
        atomic: Option<AtomicLS>,
        addr: ValueRef,
        value: ValueRef,
    },
    AtomicCAS {
        data_type: RawType,
        effect_state: EffectPath,
        ordering: AtomicOrdering,
        sync_scope: SyncScope,
        addr: ValueRef,
        old: ValueRef,
        new: ValueRef,
        weak: bool,
    },
    AtomicRMW {
        data_type: RawType,
        effect_state: EffectPath,
        ordering: AtomicOrdering,
        sync_scope: SyncScope,
        addr: ValueRef,
        value: ValueRef,
        operator: AtomicRMWCode,
    },
    Call { target: ValueRef, effect_args: Vec<EffectPath>, args: Vec<ValueRef> },
    Alloc(RawType),
}

} // verus!
