//! The intermediate value model: a format-agnostic tagged union that every
//! decoder produces and every encoder consumes.
use vstd::prelude::*;

verus! {

broadcast use vstd::std_specs::vec::group_vec_axioms, vstd::seq::group_seq_axioms;

/// One decoded document. `Float` carries the IEEE 754 binary64 bit pattern,
/// so that the codec stays within exact integer arithmetic. `Text` carries
/// the UTF-8 bytes of the string. `Dict` keeps its entries in insertion
/// order; keys need not be text and duplicates are allowed at this layer.
#[derive(Debug, PartialEq)]
pub enum Value {
    Null,
    Bool(bool),
    Integer(i64),
    Float(u64),
    Text(Vec<u8>),
    Bytes(Vec<u8>),
    Array(Vec<Value>),
    Dict(Vec<(Value, Value)>),
}

/// The mathematical shape of a `Value`, used by all contracts.
#[verifier::ext_equal]
pub enum ValueModel {
    Null,
    Bool(bool),
    Integer(int),
    Float(u64),
    Text(Seq<u8>),
    Bytes(Seq<u8>),
    Array(Seq<ValueModel>),
    Dict(Seq<(ValueModel, ValueModel)>),
}

impl Value {
    /// The model of a value: every `Vec` becomes a `Seq`, recursively.
    pub open spec fn model(self) -> ValueModel
        decreases self, 1nat,
    {
        match self {
            Value::Null => ValueModel::Null,
            Value::Bool(b) => ValueModel::Bool(b),
            Value::Integer(i) => ValueModel::Integer(i as int),
            Value::Float(bits) => ValueModel::Float(bits),
            Value::Text(b) => ValueModel::Text(b@),
            Value::Bytes(b) => ValueModel::Bytes(b@),
            Value::Array(items) => ValueModel::Array(models_of(items@)),
            Value::Dict(pairs) => ValueModel::Dict(entry_models_of(pairs@)),
        }
    }
}

/// The models of a sequence of values, element by element.
pub open spec fn models_of(s: Seq<Value>) -> Seq<ValueModel>
    decreases s, 0nat,
{
    Seq::new(s.len(), |i: int| if 0 <= i < s.len() { s[i].model() } else { ValueModel::Null })
}

/// The models of a sequence of key-value pairs, entry by entry.
pub open spec fn entry_models_of(s: Seq<(Value, Value)>) -> Seq<(ValueModel, ValueModel)>
    decreases s, 0nat,
{
    Seq::new(
        s.len(),
        |i: int|
            if 0 <= i < s.len() {
                (s[i].0.model(), s[i].1.model())
            } else {
                (ValueModel::Null, ValueModel::Null)
            },
    )
}

/// Well-formed models: all lengths and integers fit the binary format's
/// 64-bit headers, and text is valid UTF-8.
pub open spec fn wf(v: ValueModel) -> bool
    decreases v,
{
    match v {
        ValueModel::Null => true,
        ValueModel::Bool(_) => true,
        ValueModel::Integer(i) => -0x8000_0000_0000_0000 <= i <= 0x7fff_ffff_ffff_ffff,
        ValueModel::Float(_) => true,
        ValueModel::Text(b) => b.len() < 0x1_0000_0000_0000_0000 && vstd::utf8::valid_utf8(b),
        ValueModel::Bytes(b) => b.len() < 0x1_0000_0000_0000_0000,
        ValueModel::Array(items) => items.len() < 0x1_0000_0000_0000_0000 && (forall|i: int|
            0 <= i < items.len() ==> wf(#[trigger] items[i])),
        ValueModel::Dict(pairs) => pairs.len() < 0x1_0000_0000_0000_0000 && (forall|i: int|
            0 <= i < pairs.len() ==> wf((#[trigger] pairs[i]).0) && wf(pairs[i].1)),
    }
}

} // verus!
