//! Batch encoding with a table built up front: every key of every message is interned
//! first, so each message's DATA frame can be encoded on its own (in parallel, by the
//! caller), and the output is the DEF frames of the whole table followed by the DATA frames.
use vstd::prelude::*;
use crate::error::FluxPackError;
use crate::json::{Json, JsonValue, values_view, fields_view, lemma_array_view, lemma_object_view};
use crate::symbol_table::{SymbolTable, TableModel, predefined_model, intern_all, lemma_intern_all_concat,
    lemma_intern_all_one, lemma_intern_all_keeps, pairs_match};
use crate::wire::{json_keys, items_keys, fields_keys, defs_bytes, push_bytes, lemma_fields_keys_prefix,
    lemma_items_keys_prefix};
use crate::encoder::{Encoder, EncoderModel, fresh_encoder, data_only_outcome, batch_keys};
use crate::decoder::{Decoder, decode_all_frames};
use crate::varint::encode_varint;
use crate::stream::{lemma_batch_keys_prefix, lemma_unit_ok};

verus! {

/// Interns every key inside `value`, depth first.
pub fn intern_nested(table: &mut SymbolTable, value: &JsonValue) -> (r: Result<(), FluxPackError>)
    requires
        old(table).wf(),
    ensures
        final(table).wf(),
        (r, final(table)@) == intern_all(old(table)@, json_keys(value@)),
    decreases value@,
{
    match value {
        JsonValue::Object(obj) => {
            proof {
                lemma_object_view(*obj);
            }
            let ghost fv = fields_view(obj@);
            let ghost t0 = table@;
            let mut i: usize = 0;
            while i < obj.len()
                invariant
                    i <= obj@.len(),
                    fv == fields_view(obj@),
                    value@ == Json::Obj(fv),
                    table.wf(),
                    t0 == old(table)@,
                    intern_all(t0, fields_keys(fv, i as nat)).0 is Ok,
                    intern_all(t0, fields_keys(fv, i as nat)).1 == table@,
                decreases obj.len() - i,
            {
                let ghost ti = table@;
                let ghost k = obj@[i as int].0@;
                let ghost v = obj@[i as int].1@;
                let ghost pre = fields_keys(fv, i as nat);
                assert(fv[i as int] == (k, v));
                assert(fields_keys(fv, (i + 1) as nat) == pre + seq![k] + json_keys(v));
                proof {
                    lemma_intern_all_concat(t0, pre, seq![k]);
                    lemma_intern_all_one(ti, k);
                    lemma_intern_all_concat(t0, pre + seq![k], json_keys(v));
                    lemma_fields_keys_prefix(fv, (i + 1) as nat, fv.len());
                    lemma_intern_all_concat(
                        t0,
                        fields_keys(fv, (i + 1) as nat),
                        fields_keys(fv, fv.len()).skip(fields_keys(fv, (i + 1) as nat).len() as int),
                    );
                    lemma_fields_keys_prefix(fv, i as nat, fv.len());
                    lemma_intern_all_concat(t0, pre, fields_keys(fv, fv.len()).skip(pre.len() as int));
                    assert(fields_keys(fv, fv.len()).skip(pre.len() as int) =~= seq![k] + json_keys(v)
                        + fields_keys(fv, fv.len()).skip(fields_keys(fv, (i + 1) as nat).len() as int));
                    lemma_intern_all_concat(ti, seq![k],
                        json_keys(v) + fields_keys(fv, fv.len()).skip(fields_keys(fv, (i + 1) as nat).len() as int));
                }
                match table.intern(&obj[i].0) {
                    Ok(_) => {},
                    Err(e) => {
                        assert(json_keys(value@) == fields_keys(fv, fv.len()));
                        return Err(e);
                    },
                }
                proof {
                    assert(value@->Obj_0 == fv);
                    assert(decreases_to!(value@ => fv));
                    assert(decreases_to!(fv => fv[i as int]));
                    assert(decreases_to!(fv[i as int] => fv[i as int].1));
                    assert(fv[i as int].1 == obj@[i as int].1@);
                }
                match intern_nested(table, &obj[i].1) {
                    Ok(_) => {},
                    Err(e) => {
                        assert(json_keys(value@) == fields_keys(fv, fv.len()));
                        return Err(e);
                    },
                }
                i = i + 1;
            }
            assert(json_keys(value@) == fields_keys(fv, fv.len()));
            proof {
                lemma_unit_ok(intern_all(t0, json_keys(value@)).0);
            }
            Ok(())
        },
        JsonValue::Array(arr) => {
            proof {
                lemma_array_view(*arr);
            }
            let ghost vv = values_view(arr@);
            let ghost t0 = table@;
            let mut i: usize = 0;
            while i < arr.len()
                invariant
                    i <= arr@.len(),
                    vv == values_view(arr@),
                    value@ == Json::Arr(vv),
                    table.wf(),
                    t0 == old(table)@,
                    intern_all(t0, items_keys(vv, i as nat)).0 is Ok,
                    intern_all(t0, items_keys(vv, i as nat)).1 == table@,
                decreases arr.len() - i,
            {
                let ghost v = arr@[i as int]@;
                let ghost pre = items_keys(vv, i as nat);
                assert(vv[i as int] == v);
                assert(items_keys(vv, (i + 1) as nat) == pre + json_keys(v));
                proof {
                    lemma_intern_all_concat(t0, pre, json_keys(v));
                    lemma_items_keys_prefix(vv, (i + 1) as nat, vv.len());
                    lemma_intern_all_concat(
                        t0,
                        items_keys(vv, (i + 1) as nat),
                        items_keys(vv, vv.len()).skip(items_keys(vv, (i + 1) as nat).len() as int),
                    );
                    lemma_items_keys_prefix(vv, i as nat, vv.len());
                    lemma_intern_all_concat(t0, pre, items_keys(vv, vv.len()).skip(pre.len() as int));
                    assert(items_keys(vv, vv.len()).skip(pre.len() as int) =~= json_keys(v)
                        + items_keys(vv, vv.len()).skip(items_keys(vv, (i + 1) as nat).len() as int));
                    lemma_intern_all_concat(table@, json_keys(v),
                        items_keys(vv, vv.len()).skip(items_keys(vv, (i + 1) as nat).len() as int));
                    assert(value@->Arr_0 == vv);
                    assert(decreases_to!(value@ => vv));
                    assert(decreases_to!(vv => vv[i as int]));
                    assert(vv[i as int] == arr@[i as int]@);
                }
                match intern_nested(table, &arr[i]) {
                    Ok(_) => {},
                    Err(e) => {
                        assert(json_keys(value@) == items_keys(vv, vv.len()));
                        return Err(e);
                    },
                }
                i = i + 1;
            }
            assert(json_keys(value@) == items_keys(vv, vv.len()));
            proof {
                lemma_unit_ok(intern_all(t0, json_keys(value@)).0);
            }
            Ok(())
        },
        _ => {
            assert(json_keys(value@) =~= Seq::<Seq<char>>::empty());
            Ok(())
        },
    }
}

/// Interns the keys of every object among the messages (others skipped) into a table with
/// the pre-defined keys, without encoding anything.
pub fn prebuild_symbol_table(messages: &[JsonValue]) -> (r: Result<SymbolTable, FluxPackError>)
    ensures
        match intern_all(predefined_model(), batch_keys(values_view(messages@), messages@.len())) {
            (Ok(_), t) => r matches Ok(table) && table@ == t && table.wf(),
            (Err(e), _) => r matches Err(x) && x == e,
        },
{
    let ghost msgs = values_view(messages@);
    let mut table = SymbolTable::with_predefined();
    let ghost t0 = table@;
    let mut i: usize = 0;
    while i < messages.len()
        invariant
            i <= messages@.len(),
            msgs == values_view(messages@),
            t0 == predefined_model(),
            table.wf(),
            intern_all(t0, batch_keys(msgs, i as nat)).0 is Ok,
            intern_all(t0, batch_keys(msgs, i as nat)).1 == table@,
        decreases messages.len() - i,
    {
        let ghost pre = batch_keys(msgs, i as nat);
        let ghost post = match msgs[i as int] {
            Json::Obj(fields) => fields_keys(fields, fields.len()),
            _ => Seq::empty(),
        };
        assert(batch_keys(msgs, (i + 1) as nat) == pre + post);
        proof {
            lemma_intern_all_concat(t0, pre, post);
            lemma_batch_keys_prefix(msgs, (i + 1) as nat, msgs.len());
            lemma_intern_all_concat(t0, batch_keys(msgs, (i + 1) as nat),
                batch_keys(msgs, msgs.len()).skip(batch_keys(msgs, (i + 1) as nat).len() as int));
        }
        assert(msgs[i as int] == messages@[i as int]@);
        match &messages[i] {
            JsonValue::Object(o) => {
                proof {
                    lemma_object_view(*o);
                }
                match intern_nested(&mut table, &messages[i]) {
                    Ok(_) => {},
                    Err(e) => {
                        return Err(e);
                    },
                }
            },
            _ => {
                assert(post =~= Seq::<Seq<char>>::empty());
                assert(pre + post =~= pre);
            },
        }
        i = i + 1;
    }
    Ok(table)
}

/// The DATA frame of one message, encoded with a copy of `shared` (the work each message
/// gets in a parallel batch).
pub fn encode_message_data(shared: &SymbolTable, msg: &JsonValue) -> (r: Result<Vec<u8>, FluxPackError>)
    requires
        shared.wf(),
    ensures
        match msg@ {
            Json::Obj(fields) => {
                let (res, e2) = data_only_outcome(EncoderModel { table: shared@, ..fresh_encoder() }, fields);
                match r {
                    Ok(v) => res is Ok && v@ == e2.output,
                    Err(e) => res == Err::<(), FluxPackError>(e),
                }
            },
            _ => r == Err::<Vec<u8>, FluxPackError>(FluxPackError::ExpectedObject),
        },
{
    let mut encoder = Encoder::new();
    encoder.clone_table_from(shared);
    match encoder.encode_data_only(msg) {
        Ok(b) => {
            let mut v: Vec<u8> = Vec::new();
            push_bytes(&mut v, b);
            assert(v@ =~= b@);
            Ok(v)
        },
        Err(e) => Err(e),
    }
}

/// The concatenation of the first `n` parts.
pub open spec fn concat_parts(parts: Seq<Vec<u8>>, n: nat) -> Seq<u8>
    decreases n,
{
    if n == 0 || n > parts.len() {
        Seq::empty()
    } else {
        concat_parts(parts, (n - 1) as nat) + parts[n - 1]@
    }
}

/// The output of a batch: a DEF frame for every key of `shared`, in token order, then the
/// messages' DATA frames.
pub fn assemble_batch(shared: &SymbolTable, parts: &[Vec<u8>]) -> (r: Vec<u8>)
    ensures
        r@ == defs_bytes(shared@.entries()) + concat_parts(parts@, parts@.len()),
{
    let entries = shared.iter();
    let ghost es = shared@.entries();
    let mut result: Vec<u8> = Vec::new();
    let mut i: usize = 0;
    while i < entries.len()
        invariant
            i <= entries@.len(),
            pairs_match(entries@, es),
            result@ == defs_bytes(es.subrange(0, i as int)),
        decreases entries.len() - i,
    {
        let (token, key) = &entries[i];
        result.push(0x01);
        encode_varint(*token as u64, &mut result);
        let bytes = key.as_str().as_bytes();
        encode_varint(bytes.len() as u64, &mut result);
        push_bytes(&mut result, bytes);
        proof {
            assert(entries@[i as int].0 == es[i as int].0 && entries@[i as int].1@ =~= es[i as int].1);
            assert(es.subrange(0, i + 1).drop_last() =~= es.subrange(0, i as int));
            assert(es.subrange(0, i + 1).last() == es[i as int]);
        }
        i = i + 1;
        assert(result@ =~= defs_bytes(es.subrange(0, i as int)));
    }
    assert(es.subrange(0, es.len() as int) =~= es);
    let ghost defs = result@;
    let mut j: usize = 0;
    while j < parts.len()
        invariant
            j <= parts@.len(),
            result@ == defs + concat_parts(parts@, j as nat),
        decreases parts.len() - j,
    {
        push_bytes(&mut result, parts[j].as_slice());
        j = j + 1;
        assert(result@ =~= defs + concat_parts(parts@, j as nat));
    }
    result
}

/// Decode every message of a batch (with a new decoder).
pub fn decode_batch_parallel(input: &[u8]) -> (r: Result<Vec<JsonValue>, FluxPackError>)
    ensures
        match decode_all_frames(input@, 0, predefined_model(), Seq::empty()).0 {
            Ok(vs) => r matches Ok(x) && values_view(x@) == vs,
            Err(e) => r matches Err(x) && x == e,
        },
{
    let mut decoder = Decoder::new();
    decoder.decode_all(input)
}

} // verus!
