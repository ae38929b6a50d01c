use vstd::prelude::*;

verus! {

/// The mathematical model of a decoded document.
pub enum ValueModel {
    Null,
    Bool(bool),
    Number(Seq<char>),
    Str(Seq<char>),
    Array(Seq<ValueModel>),
    Object(Map<Seq<char>, ValueModel>),
}

/// A decoded document. A number keeps its decimal literal text.
#[derive(Debug, PartialEq)]
pub enum Value {
    Null,
    Bool(bool),
    Number(String),
    String(String),
    Array(Vec<Value>),
    Object(Vec<(String, Value)>),
}

/// The mapping that a list of members denotes: a later entry overwrites an earlier one.
pub open spec fn members_map(es: Seq<(String, Value)>) -> Map<Seq<char>, ValueModel>
    decreases es,
{
    if es.len() == 0 {
        Map::empty()
    } else {
        members_map(es.drop_last()).insert(es.last().0@, es.last().1.model())
    }
}

/// No two members share a key.
pub open spec fn keys_unique(es: Seq<(String, Value)>) -> bool {
    forall|a: int, b: int| 0 <= a < b < es.len() ==> es[a].0@ != es[b].0@
}

/// The models of a sequence of values, in order.
pub open spec fn models(vs: Seq<Value>) -> Seq<ValueModel> {
    vs.map_values(|v: Value| v.model())
}

/// Overwriting the value of a member whose key is present acts on the mapping as an insertion.
pub proof fn lemma_members_map_update(es: Seq<(String, Value)>, idx: int, e: (String, Value))
    requires
        keys_unique(es),
        0 <= idx < es.len(),
        es[idx].0@ == e.0@,
    ensures
        members_map(es.update(idx, e)) == members_map(es).insert(e.0@, e.1.model()),
        keys_unique(es.update(idx, e)),
    decreases es.len(),
{
    let es2 = es.update(idx, e);
    if idx == es.len() - 1 {
        assert(es2.drop_last() =~= es.drop_last());
        assert(members_map(es2) =~= members_map(es).insert(e.0@, e.1.model()));
    } else {
        assert(es2.drop_last() =~= es.drop_last().update(idx, e));
        lemma_members_map_update(es.drop_last(), idx, e);
        assert(es.last().0@ != e.0@);
        assert(members_map(es2) =~= members_map(es).insert(e.0@, e.1.model()));
    }
}

/// Appending a member under a new key acts on the mapping as an insertion.
pub proof fn lemma_members_map_push(es: Seq<(String, Value)>, e: (String, Value))
    requires
        keys_unique(es),
        forall|k: int| 0 <= k < es.len() ==> es[k].0@ != e.0@,
    ensures
        members_map(es.push(e)) == members_map(es).insert(e.0@, e.1.model()),
        keys_unique(es.push(e)),
{
    assert(es.push(e).drop_last() =~= es);
}

/// The model of an array is the sequence of its elements' models.
pub proof fn lemma_array_model(v: Vec<Value>)
    ensures
        Value::Array(v).model() == ValueModel::Array(models(v@)),
{
    assert(Value::Array(v).model()->Array_0 =~= models(v@));
}

impl Value {
    /// Every object in the tree, at any depth, holds each key once.
    pub open spec fn well_formed(self) -> bool
        decreases self,
    {
        match self {
            Value::Array(v) => forall|i: int| 0 <= i < v.len() ==> (#[trigger] v[i]).well_formed(),
            Value::Object(es) => keys_unique(es@) && forall|i: int|
                0 <= i < es.len() ==> (#[trigger] es[i]).1.well_formed(),
            _ => true,
        }
    }

    pub open spec fn model(self) -> ValueModel
        decreases self,
    {
        match self {
            Value::Null => ValueModel::Null,
            Value::Bool(b) => ValueModel::Bool(b),
            Value::Number(s) => ValueModel::Number(s@),
            Value::String(s) => ValueModel::Str(s@),
            Value::Array(v) => ValueModel::Array(
                Seq::new(
                    v.len() as nat,
                    |i: int|
                        if 0 <= i < v.len() {
                            v[i].model()
                        } else {
                            ValueModel::Null
                        },
                ),
            ),
            Value::Object(es) => ValueModel::Object(members_map(es@)),
        }
    }
}

} // verus!
