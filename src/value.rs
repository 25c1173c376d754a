use vstd::prelude::*;

verus! {

/// Mathematical model of a decoded JSON value.
pub enum Json {
    Null,
    Bool(bool),
    /// The number's lexeme, exactly as it stood in the input.
    Number(Seq<char>),
    Str(Seq<char>),
    Array(Seq<Json>),
    /// Members in order of first appearance; keys are unique.
    Object(Seq<(Seq<char>, Json)>),
}

/// A decoded JSON value.
#[derive(Debug, PartialEq)]
pub enum Value {
    Null,
    Bool(bool),
    /// A number, held as its validated lexeme.
    Number(String),
    String(String),
    Array(Vec<Value>),
    /// Members in order of first appearance; keys are unique.
    Object(Vec<(String, Value)>),
}

impl Value {
    /// The model of an object member.
    pub open spec fn member_view(m: &(String, Value)) -> (Seq<char>, Json)
        decreases m.1, 2int,
    {
        (m.0@, m.1.view())
    }
}

impl View for Value {
    type V = Json;

    open spec fn view(&self) -> Json
        decreases self, 1int,
    {
        match self {
            Value::Null => Json::Null,
            Value::Bool(b) => Json::Bool(*b),
            Value::Number(n) => Json::Number(n@),
            Value::String(s) => Json::Str(s@),
            Value::Array(xs) => Json::Array(
                Seq::new(xs.len() as nat, |i: int| if 0 <= i < xs.len() { xs[i].view() } else { Json::Null }),
            ),
            Value::Object(ms) => Json::Object(
                Seq::new(
                    ms.len() as nat,
                    |i: int| if 0 <= i < ms.len() { Value::member_view(&ms[i]) } else { (Seq::empty(), Json::Null) },
                ),
            ),
        }
    }
}

/// The models of a sequence of values.
pub open spec fn views(xs: Seq<Value>) -> Seq<Json> {
    Seq::new(xs.len(), |i: int| xs[i]@)
}

/// The models of a sequence of object members.
pub open spec fn member_views(ms: Seq<(String, Value)>) -> Seq<(Seq<char>, Json)> {
    Seq::new(ms.len(), |i: int| (ms[i].0@, ms[i].1@))
}

/// The model of an array is the sequence of its elements' models.
pub proof fn lemma_array_view(xs: Vec<Value>)
    ensures
        Value::Array(xs)@ == Json::Array(views(xs@)),
{
    let b = Value::Array(xs)@->Array_0;
    assert(b =~= views(xs@));
}

/// The model of an object is the sequence of its members' models.
pub proof fn lemma_object_view(ms: Vec<(String, Value)>)
    ensures
        Value::Object(ms)@ == Json::Object(member_views(ms@)),
{
    let b = Value::Object(ms)@->Object_0;
    assert forall|i: int| 0 <= i < ms.len() implies b[i] == member_views(ms@)[i] by {
        assert(b[i] == Value::member_view(&ms[i]));
    }
    assert(b =~= member_views(ms@));
}

} // verus!
