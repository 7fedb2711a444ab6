use vstd::prelude::*;

verus! {

/// A JSON number as the wire format sees it.
#[derive(Debug, Clone, Copy, PartialEq, Eq)]
pub enum JsonNumber {
    /// Any integer that fits in an `i64`.
    Int(i64),
    /// An unsigned integer above `i64::MAX`.
    UInt(u64),
    /// A finite double, held by its IEEE-754 bit pattern.
    Float(u64),
}

/// A JSON value; object fields keep their order.
#[derive(Debug)]
pub enum JsonValue {
    Null,
    Bool(bool),
    Number(JsonNumber),
    String(String),
    Array(Vec<JsonValue>),
    Object(Vec<(String, JsonValue)>),
}

/// The mathematical model of a JSON value.
pub ghost enum Json {
    Null,
    Bool(bool),
    Num(JsonNumber),
    Str(Seq<char>),
    Arr(Seq<Json>),
    Obj(Seq<(Seq<char>, Json)>),
}

pub open spec fn json_view(v: JsonValue) -> Json
    decreases v,
{
    match v {
        JsonValue::Null => Json::Null,
        JsonValue::Bool(b) => Json::Bool(b),
        JsonValue::Number(n) => Json::Num(n),
        JsonValue::String(s) => Json::Str(s@),
        JsonValue::Array(a) => Json::Arr(
            Seq::new(a@.len(), |i: int| if 0 <= i < a@.len() { json_view(a@[i]) } else { Json::Null }),
        ),
        JsonValue::Object(o) => Json::Obj(
            Seq::new(
                o@.len(),
                |i: int| if 0 <= i < o@.len() { (o@[i].0@, json_view(o@[i].1)) } else { (Seq::empty(), Json::Null) },
            ),
        ),
    }
}

impl View for JsonValue {
    type V = Json;

    open spec fn view(&self) -> Json {
        json_view(*self)
    }
}

/// The models of a sequence of values.
pub open spec fn values_view(v: Seq<JsonValue>) -> Seq<Json> {
    Seq::new(v.len(), |i: int| json_view(v[i]))
}

/// The models of a sequence of object fields.
pub open spec fn fields_view(v: Seq<(String, JsonValue)>) -> Seq<(Seq<char>, Json)> {
    Seq::new(v.len(), |i: int| (v[i].0@, json_view(v[i].1)))
}

pub proof fn lemma_array_view(a: Vec<JsonValue>)
    ensures
        JsonValue::Array(a)@ == Json::Arr(values_view(a@)),
{
    let x = json_view(JsonValue::Array(a));
    let items = x->Arr_0;
    assert(items.len() == a@.len());
    assert forall|i: int| 0 <= i < items.len() implies items[i] == json_view(a@[i]) by {}
    assert(items =~= values_view(a@));
}

pub proof fn lemma_object_view(o: Vec<(String, JsonValue)>)
    ensures
        JsonValue::Object(o)@ == Json::Obj(fields_view(o@)),
{
    let x = json_view(JsonValue::Object(o));
    let fields = x->Obj_0;
    assert(fields.len() == o@.len());
    assert forall|i: int| 0 <= i < fields.len() implies fields[i] == (o@[i].0@, json_view(o@[i].1)) by {}
    assert(fields =~= fields_view(o@));
}

pub proof fn lemma_values_view_push(v: Seq<JsonValue>, x: JsonValue)
    ensures
        values_view(v.push(x)) == values_view(v).push(x@),
{
    assert(values_view(v.push(x)) =~= values_view(v).push(x@));
}

/// A copy of a JSON value.
pub fn clone_json(v: &JsonValue) -> (r: JsonValue)
    ensures
        r@ == v@,
    decreases v@,
{
    match v {
        JsonValue::Null => JsonValue::Null,
        JsonValue::Bool(b) => JsonValue::Bool(*b),
        JsonValue::Number(n) => JsonValue::Number(*n),
        JsonValue::String(s) => JsonValue::String(s.clone()),
        JsonValue::Array(a) => {
            proof {
                lemma_array_view(*a);
            }
            let ghost vv = values_view(a@);
            let mut out: Vec<JsonValue> = Vec::new();
            let mut i: usize = 0;
            while i < a.len()
                invariant
                    i <= a@.len(),
                    vv == values_view(a@),
                    v@ == Json::Arr(vv),
                    values_view(out@) == vv.subrange(0, i as int),
                decreases a.len() - i,
            {
                proof {
                    assert(v@->Arr_0 == vv);
                    assert(decreases_to!(v@ => vv));
                    assert(decreases_to!(vv => vv[i as int]));
                    assert(vv[i as int] == a@[i as int]@);
                }
                let c = clone_json(&a[i]);
                proof {
                    lemma_values_view_push(out@, c);
                }
                out.push(c);
                i = i + 1;
                assert(values_view(out@) =~= vv.subrange(0, i as int));
            }
            proof {
                lemma_array_view(out);
                assert(vv.subrange(0, vv.len() as int) =~= vv);
            }
            JsonValue::Array(out)
        },
        JsonValue::Object(o) => {
            proof {
                lemma_object_view(*o);
            }
            let ghost fv = fields_view(o@);
            let mut out: Vec<(String, JsonValue)> = Vec::new();
            let mut i: usize = 0;
            while i < o.len()
                invariant
                    i <= o@.len(),
                    fv == fields_view(o@),
                    v@ == Json::Obj(fv),
                    fields_view(out@) == fv.subrange(0, i as int),
                decreases o.len() - i,
            {
                proof {
                    assert(v@->Obj_0 == fv);
                    assert(decreases_to!(v@ => fv));
                    assert(decreases_to!(fv => fv[i as int]));
                    assert(decreases_to!(fv[i as int] => fv[i as int].1));
                    assert(fv[i as int].1 == o@[i as int].1@);
                }
                let c = clone_json(&o[i].1);
                let k = o[i].0.clone();
                let ghost old_out = out@;
                out.push((k, c));
                assert(fields_view(out@) =~= fields_view(old_out).push((k@, c@)));
                i = i + 1;
                assert(fields_view(out@) =~= fv.subrange(0, i as int));
            }
            proof {
                lemma_object_view(out);
                assert(fv.subrange(0, fv.len() as int) =~= fv);
            }
            JsonValue::Object(out)
        },
    }
}

} // verus!
