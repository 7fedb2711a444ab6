//! What zero-copy decoding gives back for what the encoder wrote: the same message, seen
//! through `to_owned`.
use vstd::prelude::*;
use vstd::utf8::{encode_utf8, encode_utf8_valid_utf8, encode_utf8_decode_utf8};
use vstd::bytes::{spec_u64_to_le_bytes, lemma_auto_spec_u64_to_from_le_bytes};
use crate::error::FluxPackError;
use crate::json::{Json, JsonNumber};
use crate::varint::{varint_bytes, signed_varint_bytes, lemma_signed_varint_roundtrip};
use crate::wire::{json_wf, items_wf, fields_wf, keys_distinct, key_wf, value_bytes, items_bytes, fields_bytes,
    json_keys, items_keys, fields_keys, str_bytes, remaining, obj_insert, token_of, parse_def, defs_bytes,
    data_frame_bytes};
use crate::symbol_table::{TableModel, intern_all, predefined_model, common_key, lemma_intern_all_keeps};
use crate::encoder::{encode_outcome, fresh_encoder};
use crate::roundtrip::{holds_at, lemma_holds_split, lemma_holds_skip, lemma_varint_at, lemma_items_bytes_prefix,
    lemma_fields_bytes_prefix, lemma_items_wf, lemma_fields_wf, lemma_items_keys_contain, lemma_fields_keys_contain,
    lemma_token_of, lemma_find_key_none, lemma_defs_bytes_concat, lemma_fresh_in_sync, lemma_intern_all_sync,
    lemma_fields_keys_wf, lemma_fp_sync, in_sync, unsent};
use crate::encoder::{batch_outcome, batch_keys, frames_bytes, lemma_leading_objects};
use crate::batch_laws::{lemma_batch_keys_wf, lemma_batch_keys_contain, lemma_frames_bytes_prefix};
use crate::zero_copy::{Zc, ZcTableModel, parse_zc_value, parse_zc_items, parse_zc_fields, parse_zc_data,
    zc_decode_frames, zc_decode_all, fresh_zc_table, zc_common_keys, zc_to_json, zc_items_json, zc_fields_json};

verus! {

/// The zero-copy value that reading back a value written by the encoder gives.
pub open spec fn zc_of(v: Json) -> Zc
    decreases v,
{
    match v {
        Json::Null => Zc::Null,
        Json::Bool(b) => Zc::Bool(b),
        Json::Num(JsonNumber::Int(i)) => Zc::Int(i),
        Json::Num(JsonNumber::UInt(u)) => Zc::Uint(u),
        Json::Num(JsonNumber::Float(b)) => Zc::Float64(b),
        Json::Str(s) => Zc::Str(s),
        Json::Arr(items) => Zc::Arr(
            Seq::new(items.len(), |i: int| if 0 <= i < items.len() { zc_of(items[i]) } else { Zc::Null }),
        ),
        Json::Obj(fields) => Zc::Obj(
            Seq::new(
                fields.len(),
                |i: int| if 0 <= i < fields.len() { (fields[i].0, zc_of(fields[i].1)) } else { (Seq::empty(), Zc::Null) },
            ),
        ),
    }
}

/// Every key of `ks` has a token in `index` under which `keys` holds that key.
pub open spec fn zc_keys_resolve(ks: Seq<Seq<char>>, index: Map<Seq<char>, u16>, keys: Map<u16, Seq<char>>) -> bool {
    forall|k: Seq<char>| #[trigger] ks.contains(k) ==> index.dom().contains(k) && keys.contains_key(index[k])
        && keys[index[k]] == k
}

/// A value written by the encoder (with ZigZag integers) reads back without copying as
/// `zc_of` of it, when every key inside it resolves.
pub proof fn lemma_parse_zc_value(v: Json, index: Map<Seq<char>, u16>, keys: Map<u16, Seq<char>>, s: Seq<u8>, pos: nat)
    requires
        json_wf(v),
        zc_keys_resolve(json_keys(v), index, keys),
        holds_at(s, pos, value_bytes(v, index, true)),
    ensures
        parse_zc_value(s, pos, keys) == Ok::<(Zc, nat), FluxPackError>((zc_of(v), value_bytes(v, index, true).len())),
    decreases v, 0nat,
{
    let b = value_bytes(v, index, true);
    assert(b.len() >= 1);
    assert(s[pos as int] == b[0]) by {
        assert(s.subrange(pos as int, (pos + b.len()) as int)[0] == s[pos as int]);
    }
    match v {
        Json::Null => {
            assert(b[0] == 0x00u8);
        },
        Json::Bool(x) => {
            assert(b[0] == if x { 0x01u8 } else { 0x02u8 });
        },
        Json::Num(n) => {
            match n {
                JsonNumber::Int(i) => {
                    lemma_holds_split(s, pos, seq![0x03u8], signed_varint_bytes(i));
                    lemma_holds_skip(s, pos + 1, signed_varint_bytes(i));
                    lemma_signed_varint_roundtrip(i, s.skip((pos + 1 + signed_varint_bytes(i).len()) as int));
                },
                JsonNumber::UInt(u) => {
                    lemma_holds_split(s, pos, seq![0x04u8], varint_bytes(u));
                    lemma_varint_at(s, pos + 1, u);
                },
                JsonNumber::Float(bits) => {
                    lemma_auto_spec_u64_to_from_le_bytes();
                    lemma_holds_split(s, pos, seq![0x06u8], spec_u64_to_le_bytes(bits));
                    assert(remaining(s, pos + 1) >= 8);
                },
            }
        },
        Json::Str(st) => {
            let u = encode_utf8(st);
            let lb = varint_bytes(u.len() as u64);
            assert(b == seq![0x05u8] + lb + u);
            lemma_holds_split(s, pos, seq![0x05u8] + lb, u);
            lemma_holds_split(s, pos, seq![0x05u8], lb);
            lemma_varint_at(s, pos + 1, u.len() as u64);
            encode_utf8_valid_utf8(st);
            encode_utf8_decode_utf8(st);
            let start = pos + 1 + lb.len();
            assert(s.subrange(start as int, (start + u.len()) as int) == u);
            assert((u.len() as u64) as nat == u.len());
        },
        Json::Arr(items) => {
            let n = items.len();
            let lb = varint_bytes(n as u64);
            let ib = items_bytes(items, n, index, true);
            assert(b == seq![0x09u8] + lb + ib);
            lemma_holds_split(s, pos, seq![0x09u8] + lb, ib);
            lemma_holds_split(s, pos, seq![0x09u8], lb);
            lemma_varint_at(s, pos + 1, n as u64);
            lemma_parse_zc_items(items, index, keys, s, pos + 1 + lb.len(), 0);
            assert(zc_items_of(items).subrange(0, 0) =~= Seq::<Zc>::empty());
            assert(zc_items_of(items) =~= zc_of(v)->Arr_0);
        },
        Json::Obj(fields) => {
            let n = fields.len();
            let lb = varint_bytes(n as u64);
            let fb = fields_bytes(fields, n, index, true);
            assert(b == seq![0x0Au8] + lb + fb);
            lemma_holds_split(s, pos, seq![0x0Au8] + lb, fb);
            lemma_holds_split(s, pos, seq![0x0Au8], lb);
            lemma_varint_at(s, pos + 1, n as u64);
            lemma_parse_zc_fields(fields, index, keys, s, pos + 1 + lb.len(), 0);
            assert(zc_fields_of(fields).subrange(0, 0) =~= Seq::<(Seq<char>, Zc)>::empty());
            assert(zc_fields_of(fields) =~= zc_of(v)->Obj_0);
        },
    }
}

/// The items of an array as `zc_of` gives them.
pub open spec fn zc_items_of(items: Seq<Json>) -> Seq<Zc> {
    Seq::new(items.len(), |i: int| zc_of(items[i]))
}

/// The fields of an object as `zc_of` gives them.
pub open spec fn zc_fields_of(fields: Seq<(Seq<char>, Json)>) -> Seq<(Seq<char>, Zc)> {
    Seq::new(fields.len(), |i: int| (fields[i].0, zc_of(fields[i].1)))
}

/// Reading the items from the `k`-th on without copying, after the first `k`, gives all of them.
proof fn lemma_parse_zc_items(items: Seq<Json>, index: Map<Seq<char>, u16>, keys: Map<u16, Seq<char>>, s: Seq<u8>,
    p: nat, k: nat)
    requires
        k <= items.len(),
        items_wf(items, items.len()),
        zc_keys_resolve(items_keys(items, items.len()), index, keys),
        holds_at(s, p, items_bytes(items, items.len(), index, true)),
    ensures
        parse_zc_items(s, p + items_bytes(items, k, index, true).len(), (items.len() - k) as nat, keys,
            zc_items_of(items).subrange(0, k as int))
            == Ok::<(Seq<Zc>, nat), FluxPackError>((
                zc_items_of(items),
                (items_bytes(items, items.len(), index, true).len() - items_bytes(items, k, index, true).len()) as nat,
            )),
    decreases items, items.len() - k,
{
    let n = items.len();
    let all = items_bytes(items, n, index, true);
    let pre = items_bytes(items, k, index, true);
    lemma_items_bytes_prefix(items, k, n, index);
    if k == n {
        assert(zc_items_of(items).subrange(0, k as int) =~= zc_items_of(items));
    } else {
        let next = items_bytes(items, k + 1, index, true);
        let vb = value_bytes(items[k as int], index, true);
        assert(next == pre + vb);
        lemma_items_bytes_prefix(items, k + 1, n, index);
        lemma_holds_split(s, p, next, all.skip(next.len() as int));
        lemma_holds_split(s, p, pre, vb);
        lemma_items_wf(items, n, k as int);
        lemma_items_keys_contain(items, n, k as int);
        assert(decreases_to!(items => items[k as int]));
        lemma_parse_zc_value(items[k as int], index, keys, s, p + pre.len());
        assert(zc_items_of(items).subrange(0, k as int).push(zc_of(items[k as int]))
            =~= zc_items_of(items).subrange(0, (k + 1) as int));
        lemma_parse_zc_items(items, index, keys, s, p, k + 1);
    }
}

/// Reading the fields from the `k`-th on without copying, after the first `k`, gives all
/// of them.
proof fn lemma_parse_zc_fields(fields: Seq<(Seq<char>, Json)>, index: Map<Seq<char>, u16>, keys: Map<u16, Seq<char>>,
    s: Seq<u8>, p: nat, k: nat)
    requires
        k <= fields.len(),
        fields_wf(fields, fields.len()),
        zc_keys_resolve(fields_keys(fields, fields.len()), index, keys),
        holds_at(s, p, fields_bytes(fields, fields.len(), index, true)),
    ensures
        parse_zc_fields(s, p + fields_bytes(fields, k, index, true).len(), (fields.len() - k) as nat, keys,
            zc_fields_of(fields).subrange(0, k as int))
            == Ok::<(Seq<(Seq<char>, Zc)>, nat), FluxPackError>((
                zc_fields_of(fields),
                (fields_bytes(fields, fields.len(), index, true).len() - fields_bytes(fields, k, index, true).len()) as nat,
            )),
    decreases fields, fields.len() - k,
{
    let n = fields.len();
    let all = fields_bytes(fields, n, index, true);
    let pre = fields_bytes(fields, k, index, true);
    lemma_fields_bytes_prefix(fields, k, n, index);
    if k == n {
        assert(zc_fields_of(fields).subrange(0, k as int) =~= zc_fields_of(fields));
    } else {
        let key = fields[k as int].0;
        let val = fields[k as int].1;
        let tb = varint_bytes(index[key] as u64);
        let vb = value_bytes(val, index, true);
        let next = fields_bytes(fields, k + 1, index, true);
        assert(next == pre + tb + vb);
        lemma_fields_bytes_prefix(fields, k + 1, n, index);
        lemma_holds_split(s, p, next, all.skip(next.len() as int));
        lemma_holds_split(s, p, pre + tb, vb);
        lemma_holds_split(s, p, pre, tb);
        lemma_fields_wf(fields, n, k as int);
        lemma_fields_keys_contain(fields, n, k as int);
        lemma_varint_at(s, p + pre.len(), index[key] as u64);
        lemma_token_of(index[key]);
        assert(decreases_to!(fields => fields[k as int]));
        assert(decreases_to!(fields[k as int] => fields[k as int].1));
        lemma_parse_zc_value(val, index, keys, s, p + pre.len() + tb.len());
        assert(zc_fields_of(fields).subrange(0, k as int).push((key, zc_of(val)))
            =~= zc_fields_of(fields).subrange(0, (k + 1) as int));
        lemma_parse_zc_fields(fields, index, keys, s, p, k + 1);
    }
}

/// The owned value of what a well-formed value reads back as without copying is the value.
pub proof fn lemma_zc_to_json(v: Json)
    requires
        json_wf(v),
    ensures
        zc_to_json(zc_of(v)) == v,
    decreases v, 1nat,
{
    match v {
        Json::Arr(items) => {
            lemma_zc_items_json(items, items.len());
            assert(zc_of(v)->Arr_0 =~= zc_items_of(items));
            assert(items.subrange(0, items.len() as int) =~= items);
        },
        Json::Obj(fields) => {
            lemma_zc_fields_json(fields, fields.len());
            assert(zc_of(v)->Obj_0 =~= zc_fields_of(fields));
            assert(fields.subrange(0, fields.len() as int) =~= fields);
        },
        _ => {},
    }
}

/// The owned values of the first `n` items, read back without copying, are those items.
proof fn lemma_zc_items_json(items: Seq<Json>, n: nat)
    requires
        n <= items.len(),
        items_wf(items, items.len()),
    ensures
        zc_items_json(zc_items_of(items), n) == items.subrange(0, n as int),
    decreases items, n,
{
    if n > 0 {
        lemma_zc_items_json(items, (n - 1) as nat);
        lemma_items_wf(items, items.len(), n - 1);
        assert(decreases_to!(items => items[n - 1]));
        lemma_zc_to_json(items[n - 1]);
        assert(items.subrange(0, n - 1).push(items[n - 1]) =~= items.subrange(0, n as int));
    } else {
        assert(items.subrange(0, 0) =~= Seq::<Json>::empty());
    }
}

/// The owned object of the first `n` fields, read back without copying, is those fields.
proof fn lemma_zc_fields_json(fields: Seq<(Seq<char>, Json)>, n: nat)
    requires
        n <= fields.len(),
        fields_wf(fields, fields.len()),
        keys_distinct(fields),
    ensures
        zc_fields_json(zc_fields_of(fields), n) == fields.subrange(0, n as int),
    decreases fields, n,
{
    if n > 0 {
        lemma_zc_fields_json(fields, (n - 1) as nat);
        lemma_fields_wf(fields, fields.len(), n - 1);
        assert(decreases_to!(fields => fields[n - 1]));
        assert(decreases_to!(fields[n - 1] => fields[n - 1].1));
        lemma_zc_to_json(fields[n - 1].1);
        let pre = fields.subrange(0, n - 1);
        assert forall|j: int| 0 <= j < pre.len() implies #[trigger] pre[j].0 != fields[n - 1].0 by {
            assert(fields[j].0 != fields[n - 1].0);
        }
        lemma_find_key_none(pre, fields[n - 1].0, 0);
        assert(pre.push((fields[n - 1].0, fields[n - 1].1)) =~= fields.subrange(0, n as int));
    } else {
        assert(fields.subrange(0, 0) =~= Seq::<(Seq<char>, Json)>::empty());
    }
}

/// The zero-copy table after storing each `(token, key)` of `q`, in order.
pub open spec fn zc_store_all(z: ZcTableModel, q: Seq<(u16, Seq<char>)>) -> ZcTableModel
    decreases q.len(),
{
    if q.len() == 0 {
        z
    } else {
        zc_store_all(z.store_def(q[0].0, q[0].1), q.drop_first())
    }
}

/// Every key the zero-copy table holds is the one the table `e` gives for its token.
pub open spec fn zc_agrees(e: TableModel, z: ZcTableModel) -> bool {
    forall|t: u16| #[trigger] z.keys.contains_key(t) ==> e.resolve(t) == Some(z.keys[t])
}

/// Reading the DEF frames of `q` without copying stores their keys in order, then goes on
/// after them; a table agreeing with `e` keeps agreeing when `q` does.
proof fn lemma_zc_defs(s: Seq<u8>, pos: nat, q: Seq<(u16, Seq<char>)>, z: ZcTableModel, e: TableModel)
    requires
        holds_at(s, pos, defs_bytes(q)),
        forall|i: int| 0 <= i < q.len() ==> encode_utf8(#[trigger] q[i].1).len() <= u64::MAX,
        forall|i: int| 0 <= i < q.len() ==> e.resolve(#[trigger] q[i].0) == Some(q[i].1),
        zc_agrees(e, z),
    ensures
        zc_decode_frames(s, pos, z) == zc_decode_frames(s, pos + defs_bytes(q).len(), zc_store_all(z, q)),
        zc_agrees(e, zc_store_all(z, q)),
        forall|i: int| 0 <= i < q.len() ==> zc_store_all(z, q).keys.contains_key(#[trigger] q[i].0),
        forall|t: u16| #[trigger] z.keys.contains_key(t) ==> zc_store_all(z, q).keys.contains_key(t),
    decreases q.len(),
{
    if q.len() > 0 {
        let x = q[0];
        let rest = q.drop_first();
        assert(q =~= seq![x] + rest);
        lemma_defs_bytes_concat(seq![x], rest);
        assert(seq![x].drop_last() =~= Seq::<(u16, Seq<char>)>::empty());
        let xb = defs_bytes(seq![x]);
        let tb = varint_bytes(x.0 as u64);
        let kb = str_bytes(x.1);
        assert(seq![x].last() == x);
        assert(defs_bytes(Seq::<(u16, Seq<char>)>::empty()) == Seq::<u8>::empty());
        assert(xb =~= seq![0x01u8] + tb + kb);
        lemma_holds_split(s, pos, xb, defs_bytes(rest));
        lemma_holds_split(s, pos, seq![0x01u8] + tb, kb);
        lemma_holds_split(s, pos, seq![0x01u8], tb);
        assert(s[pos as int] == 0x01u8) by {
            assert(s.subrange(pos as int, (pos + 1) as int)[0] == s[pos as int]);
        }
        lemma_varint_at(s, pos + 1, x.0 as u64);
        let u = encode_utf8(x.1);
        let lb = varint_bytes(u.len() as u64);
        assert(kb == lb + u);
        lemma_holds_split(s, pos + 1 + tb.len(), lb, u);
        lemma_varint_at(s, pos + 1 + tb.len(), u.len() as u64);
        encode_utf8_valid_utf8(x.1);
        encode_utf8_decode_utf8(x.1);
        let start = pos + 1 + tb.len() + lb.len();
        assert(s.subrange(start as int, (start + u.len()) as int) == u);
        assert(encode_utf8(q[0].1).len() <= u64::MAX);
        assert((u.len() as u64) as nat == u.len());
        assert(parse_def(s, pos + 1) == Ok::<(u64, Seq<char>, nat), FluxPackError>(
            (x.0 as u64, x.1, tb.len() + kb.len())));
        lemma_token_of(x.0);
        let z1 = z.store_def(x.0, x.1);
        assert(e.resolve(q[0].0) == Some(q[0].1));
        assert forall|t: u16| #[trigger] z1.keys.contains_key(t) implies e.resolve(t) == Some(z1.keys[t]) by {
            if t != x.0 {
                assert(z.keys.contains_key(t));
            }
        }
        assert forall|i: int| 0 <= i < rest.len() implies encode_utf8(#[trigger] rest[i].1).len() <= u64::MAX
            && e.resolve(rest[i].0) == Some(rest[i].1) by {
            assert(rest[i] == q[i + 1]);
        }
        lemma_zc_defs(s, pos + xb.len(), rest, z1, e);
        let z2 = zc_store_all(z, q);
        assert(z2 == zc_store_all(z1, rest));
        assert forall|i: int| 0 <= i < q.len() implies z2.keys.contains_key(#[trigger] q[i].0) by {
            if i > 0 {
                assert(rest[i - 1] == q[i]);
            } else {
                assert(z1.keys.contains_key(x.0));
            }
        }
        assert forall|t: u16| #[trigger] z.keys.contains_key(t) implies z2.keys.contains_key(t) by {
            assert(z1.keys.contains_key(t));
        }
    } else {
        assert(defs_bytes(q) =~= Seq::<u8>::empty());
    }
}

/// Every pending entry of a table is a token it resolves to the entry's key.
pub proof fn lemma_pending_resolve(e: TableModel, i: int)
    requires
        0 <= i,
    ensures
        forall|j: int| 0 <= j < e.pending_from(i).len() ==>
            e.resolve((#[trigger] e.pending_from(i)[j]).0) == Some(e.pending_from(i)[j].1),
    decreases e.cache.len() - i,
{
    if i < e.cache.len() {
        lemma_pending_resolve(e, i + 1);
        let t = e.cache[i];
        let rest = e.pending_from(i + 1);
        if !e.def_emitted(t) && e.resolve(t) is Some {
            assert forall|j: int| 0 <= j < e.pending_from(i).len() implies
                e.resolve((#[trigger] e.pending_from(i)[j]).0) == Some(e.pending_from(i)[j].1) by {
                if j > 0 {
                    assert(e.pending_from(i)[j] == rest[j - 1]);
                }
            }
        }
    }
}

/// A token of the cache at or after position `i`, with a key and no DEF sent, has an entry
/// among the pending ones from `i`.
pub proof fn lemma_pending_has(e: TableModel, i: int, c: int)
    requires
        0 <= i <= c < e.cache.len(),
        !e.def_emitted(e.cache[c]),
        e.resolve(e.cache[c]) is Some,
    ensures
        exists|j: int| 0 <= j < e.pending_from(i).len() && (#[trigger] e.pending_from(i)[j]).0 == e.cache[c],
    decreases c - i,
{
    let t = e.cache[i];
    let rest = e.pending_from(i + 1);
    if i == c {
        assert(e.pending_from(i)[0].0 == e.cache[c]);
    } else {
        lemma_pending_has(e, i + 1, c);
        let j = choose|j: int| 0 <= j < rest.len() && (#[trigger] rest[j]).0 == e.cache[c];
        if !e.def_emitted(t) && e.resolve(t) is Some {
            assert(e.pending_from(i)[j + 1] == rest[j]);
        } else {
            assert(e.pending_from(i)[j] == rest[j]);
        }
    }
}

/// The common ML keys of a new zero-copy table are under tokens 1 to `n`.
proof fn lemma_zc_common_keys(n: nat, t: u16)
    requires
        n <= 20,
    ensures
        zc_common_keys(n).contains_key(t) <==> 1 <= t <= n,
        zc_common_keys(n).contains_key(t) ==> zc_common_keys(n)[t] == common_key(t - 1),
    decreases n,
{
    if n > 0 {
        lemma_zc_common_keys((n - 1) as nat, t);
    }
}

/// The common ML keys are not empty.
pub proof fn lemma_common_key_nonempty(i: int)
    requires
        0 <= i < 20,
    ensures
        common_key(i).len() > 0,
{
    reveal_strlit("epoch");
    reveal_strlit("loss");
    reveal_strlit("accuracy");
    reveal_strlit("val_loss");
    reveal_strlit("val_accuracy");
    reveal_strlit("learning_rate");
    reveal_strlit("batch_size");
    reveal_strlit("step");
    reveal_strlit("timestamp");
    reveal_strlit("status");
    reveal_strlit("model_type");
    reveal_strlit("optimizer");
    reveal_strlit("lr");
    reveal_strlit("metrics");
    reveal_strlit("config");
    reveal_strlit("train_loss");
    reveal_strlit("test_loss");
    reveal_strlit("f1");
    reveal_strlit("precision");
    reveal_strlit("recall");
}

/// After the DEF frames of `e`'s pending entries, a new zero-copy table holds, for every
/// key of `ks`, that key under its token in `e`.
proof fn lemma_zc_covers(e: TableModel, ks: Seq<Seq<char>>, z2: ZcTableModel)
    requires
        in_sync(e, predefined_model()),
        forall|k: Seq<char>| #[trigger] ks.contains(k) ==> key_wf(k) && e.index.dom().contains(k),
        zc_agrees(e, z2),
        forall|t: u16| #[trigger] fresh_zc_table().keys.contains_key(t) ==> z2.keys.contains_key(t),
        forall|i: int| 0 <= i < e.pending().len() ==> z2.keys.contains_key(#[trigger] e.pending()[i].0),
    ensures
        zc_keys_resolve(ks, e.index, z2.keys),
{
    let pm = predefined_model();
    let p = e.pending();
    assert forall|k: Seq<char>| #[trigger] ks.contains(k) implies e.index.dom().contains(k)
        && z2.keys.contains_key(e.index[k]) && z2.keys[e.index[k]] == k by {
        let t = e.index[k];
        assert(key_wf(k));
        assert(e.resolve(t) == Some(k));
        if 1 <= t <= 20 {
            lemma_zc_common_keys(20, t);
            assert(fresh_zc_table().keys.contains_key(t));
        } else {
            assert(t != 0) by {
                assert(pm.keys[0] == e.keys[0]);
            }
            assert(unsent(e, t as int));
            assert(e.cache[t - 1] == t);
            lemma_pending_has(e, 0, t - 1);
            let j = choose|j: int| 0 <= j < p.len() && (#[trigger] p[j]).0 == t;
            assert(z2.keys.contains_key(p[j].0));
        }
        assert(z2.keys.contains_key(t));
        assert(e.resolve(t) == Some(z2.keys[t]));
    }
}

/// A new zero-copy table agrees with a table in sync with a new decoder's.
proof fn lemma_zc_fresh_agrees(e: TableModel)
    requires
        in_sync(e, predefined_model()),
    ensures
        zc_agrees(e, fresh_zc_table()),
{
    let pm = predefined_model();
    let z0 = fresh_zc_table();
    assert forall|t: u16| #[trigger] z0.keys.contains_key(t) implies e.resolve(t) == Some(z0.keys[t]) by {
        lemma_zc_common_keys(20, t);
        lemma_common_key_nonempty(t - 1);
        assert(pm.keys[t as int] == e.keys[t as int]);
        assert(pm.keys[t as int] == common_key(t - 1));
    }
}

/// A DATA frame written by the encoder at `pos` reads back without copying as `zc_of` of
/// its object.
proof fn lemma_zc_data_frame(s: Seq<u8>, pos: nat, fields: Seq<(Seq<char>, Json)>, index: Map<Seq<char>, u16>,
    keys: Map<u16, Seq<char>>)
    requires
        json_wf(Json::Obj(fields)),
        zc_keys_resolve(fields_keys(fields, fields.len()), index, keys),
        holds_at(s, pos, data_frame_bytes(fields, index, true)),
    ensures
        s[pos as int] == 0x02u8,
        parse_zc_data(s, pos + 1, keys) == Ok::<(Zc, nat), FluxPackError>(
            (zc_of(Json::Obj(fields)), (data_frame_bytes(fields, index, true).len() - 1) as nat)),
{
    let n = fields.len();
    let lb = varint_bytes(n as u64);
    let fb = fields_bytes(fields, n, index, true);
    lemma_holds_split(s, pos, seq![0x02u8] + lb, fb);
    lemma_holds_split(s, pos, seq![0x02u8], lb);
    assert(s[pos as int] == 0x02u8) by {
        assert(s.subrange(pos as int, (pos + 1) as int)[0] == s[pos as int]);
    }
    lemma_varint_at(s, pos + 1, n as u64);
    lemma_parse_zc_fields(fields, index, keys, s, pos + 1 + lb.len(), 0);
    assert(zc_fields_of(fields).subrange(0, 0) =~= Seq::<(Seq<char>, Zc)>::empty());
    assert(zc_fields_of(fields) =~= zc_of(Json::Obj(fields))->Obj_0);
}

/// Law: zero-copy decoding of what a new encoder wrote for a well-formed object gives, seen
/// through `to_owned`, the object back.
pub proof fn law_fresh_zero_copy_roundtrip(fields: Seq<(Seq<char>, Json)>, fp: u64)
    requires
        json_wf(Json::Obj(fields)),
        encode_outcome(fresh_encoder(), fields, fp).0 is Ok,
    ensures
        zc_decode_frames(encode_outcome(fresh_encoder(), fields, fp).1.output, 0, fresh_zc_table())
            == Ok::<Zc, FluxPackError>(zc_of(Json::Obj(fields))),
        zc_to_json(zc_of(Json::Obj(fields))) == Json::Obj(fields),
{
    let pm = predefined_model();
    let n = fields.len();
    let ks = fields_keys(fields, n);
    let t1 = intern_all(pm, ks).1;
    let t2 = TableModel { fp, ..t1 };
    let p = t2.pending();
    let out = encode_outcome(fresh_encoder(), fields, fp).1.output;
    let defs = defs_bytes(p);
    let dfb = data_frame_bytes(fields, t1.index, true);
    assert(out == defs + dfb);
    lemma_fresh_in_sync();
    lemma_fields_keys_wf(fields, n);
    lemma_intern_all_keeps(pm, ks);
    lemma_intern_all_sync(pm, pm, ks);
    lemma_fp_sync(t1, pm, fp);
    let z0 = fresh_zc_table();
    lemma_zc_fresh_agrees(t2);
    // the DEF frames
    lemma_pending_resolve(t2, 0);
    assert forall|i: int| 0 <= i < p.len() implies encode_utf8(#[trigger] p[i].1).len() <= u64::MAX by {
        assert(t2.resolve(p[i].0) == Some(p[i].1));
    }
    assert(holds_at(out, 0, defs)) by {
        assert(out.subrange(0, defs.len() as int) =~= defs);
    }
    lemma_zc_defs(out, 0, p, z0, t2);
    let z2 = zc_store_all(z0, p);
    assert forall|k: Seq<char>| #[trigger] ks.contains(k) implies key_wf(k) && t2.index.dom().contains(k) by {}
    lemma_zc_covers(t2, ks, z2);
    // the DATA frame
    assert(holds_at(out, defs.len(), dfb)) by {
        assert(out.subrange(defs.len() as int, (defs.len() + dfb.len()) as int) =~= dfb);
    }
    lemma_zc_data_frame(out, defs.len(), fields, t1.index, z2.keys);
    lemma_zc_to_json(Json::Obj(fields));
}

/// Reading the DEF frames of `q` with `zc_decode_all` stores their keys in order, then goes
/// on after them.
proof fn lemma_zc_all_defs(s: Seq<u8>, pos: nat, q: Seq<(u16, Seq<char>)>, z: ZcTableModel, acc: Seq<Zc>)
    requires
        holds_at(s, pos, defs_bytes(q)),
        forall|i: int| 0 <= i < q.len() ==> encode_utf8(#[trigger] q[i].1).len() <= u64::MAX,
    ensures
        zc_decode_all(s, pos, z, acc) == zc_decode_all(s, pos + defs_bytes(q).len(), zc_store_all(z, q), acc),
    decreases q.len(),
{
    if q.len() > 0 {
        let x = q[0];
        let rest = q.drop_first();
        assert(q =~= seq![x] + rest);
        lemma_defs_bytes_concat(seq![x], rest);
        assert(seq![x].drop_last() =~= Seq::<(u16, Seq<char>)>::empty());
        let xb = defs_bytes(seq![x]);
        let tb = varint_bytes(x.0 as u64);
        let kb = str_bytes(x.1);
        assert(seq![x].last() == x);
        assert(defs_bytes(Seq::<(u16, Seq<char>)>::empty()) == Seq::<u8>::empty());
        assert(xb =~= seq![0x01u8] + tb + kb);
        lemma_holds_split(s, pos, xb, defs_bytes(rest));
        lemma_holds_split(s, pos, seq![0x01u8] + tb, kb);
        lemma_holds_split(s, pos, seq![0x01u8], tb);
        assert(s[pos as int] == 0x01u8) by {
            assert(s.subrange(pos as int, (pos + 1) as int)[0] == s[pos as int]);
        }
        lemma_varint_at(s, pos + 1, x.0 as u64);
        let u = encode_utf8(x.1);
        let lb = varint_bytes(u.len() as u64);
        assert(kb == lb + u);
        lemma_holds_split(s, pos + 1 + tb.len(), lb, u);
        lemma_varint_at(s, pos + 1 + tb.len(), u.len() as u64);
        encode_utf8_valid_utf8(x.1);
        encode_utf8_decode_utf8(x.1);
        let start = pos + 1 + tb.len() + lb.len();
        assert(s.subrange(start as int, (start + u.len()) as int) == u);
        assert(encode_utf8(q[0].1).len() <= u64::MAX);
        assert((u.len() as u64) as nat == u.len());
        assert(parse_def(s, pos + 1) == Ok::<(u64, Seq<char>, nat), FluxPackError>(
            (x.0 as u64, x.1, tb.len() + kb.len())));
        lemma_token_of(x.0);
        assert forall|i: int| 0 <= i < rest.len() implies encode_utf8(#[trigger] rest[i].1).len() <= u64::MAX by {
            assert(rest[i] == q[i + 1]);
        }
        lemma_zc_all_defs(s, pos + xb.len(), rest, z.store_def(x.0, x.1), acc);
    } else {
        assert(defs_bytes(q) =~= Seq::<u8>::empty());
    }
}

/// The zero-copy values of the messages.
pub open spec fn zc_all_of(msgs: Seq<Json>) -> Seq<Zc> {
    Seq::new(msgs.len(), |i: int| zc_of(msgs[i]))
}

/// Reading the DATA frames of the messages from the `k`-th on without copying, after the
/// first `k`, gives all of them.
proof fn lemma_zc_frames_from(s: Seq<u8>, p: nat, msgs: Seq<Json>, index: Map<Seq<char>, u16>, z: ZcTableModel, k: nat)
    requires
        k <= msgs.len(),
        forall|i: int| 0 <= i < msgs.len() ==> json_wf(#[trigger] msgs[i]) && msgs[i] is Obj,
        zc_keys_resolve(batch_keys(msgs, msgs.len()), index, z.keys),
        holds_at(s, p, frames_bytes(msgs, msgs.len(), index, true)),
        s.len() == p + frames_bytes(msgs, msgs.len(), index, true).len(),
    ensures
        zc_decode_all(s, p + frames_bytes(msgs, k, index, true).len(), z, zc_all_of(msgs).subrange(0, k as int))
            == Ok::<Seq<Zc>, FluxPackError>(zc_all_of(msgs)),
    decreases msgs.len() - k,
{
    let n = msgs.len();
    let all = frames_bytes(msgs, n, index, true);
    let pre = frames_bytes(msgs, k, index, true);
    lemma_frames_bytes_prefix(msgs, k, n, index);
    if k == n {
        assert(zc_all_of(msgs).subrange(0, k as int) =~= zc_all_of(msgs));
    } else {
        let m = msgs[k as int];
        assert(json_wf(m) && m is Obj);
        let fields = m->Obj_0;
        let dfb = data_frame_bytes(fields, index, true);
        let next = frames_bytes(msgs, k + 1, index, true);
        assert(next == pre + dfb);
        lemma_frames_bytes_prefix(msgs, k + 1, n, index);
        lemma_holds_split(s, p, next, all.skip(next.len() as int));
        lemma_holds_split(s, p, pre, dfb);
        lemma_batch_keys_contain(msgs, n, k as int);
        assert(json_keys(m) == fields_keys(fields, fields.len()));
        assert forall|key: Seq<char>| #[trigger] fields_keys(fields, fields.len()).contains(key) implies
            index.dom().contains(key) && z.keys.contains_key(index[key]) && z.keys[index[key]] == key by {
            assert(batch_keys(msgs, n).contains(key));
        }
        lemma_zc_data_frame(s, p + pre.len(), fields, index, z.keys);
        assert(zc_all_of(msgs).subrange(0, k as int).push(zc_of(m)) =~= zc_all_of(msgs).subrange(0, (k + 1) as int));
        lemma_zc_frames_from(s, p, msgs, index, z, k + 1);
    }
}

/// Law: zero-copy decoding of every message of what a new encoder's `encode_batch` wrote
/// for well-formed objects gives, seen through `to_owned`, the objects back, in order.
pub proof fn law_fresh_zero_copy_batch(msgs: Seq<Json>)
    requires
        forall|i: int| 0 <= i < msgs.len() ==> json_wf(#[trigger] msgs[i]) && msgs[i] is Obj,
        batch_outcome(fresh_encoder(), msgs).0 is Ok,
    ensures
        zc_decode_all(batch_outcome(fresh_encoder(), msgs).1.output, 0, fresh_zc_table(), Seq::empty())
            == Ok::<Seq<Zc>, FluxPackError>(zc_all_of(msgs)),
        forall|i: int| 0 <= i < msgs.len() ==> zc_to_json(#[trigger] zc_all_of(msgs)[i]) == msgs[i],
{
    assert forall|i: int| 0 <= i < msgs.len() implies zc_to_json(#[trigger] zc_all_of(msgs)[i]) == msgs[i] by {
        lemma_zc_to_json(msgs[i]);
    }
    let n = msgs.len();
    let out = batch_outcome(fresh_encoder(), msgs).1.output;
    if n == 0 {
        assert(out =~= Seq::<u8>::empty());
        assert(zc_all_of(msgs) =~= Seq::<Zc>::empty());
        return;
    }
    let pm = predefined_model();
    let ks = batch_keys(msgs, n);
    let t1 = intern_all(pm, ks).1;
    let p = t1.pending();
    lemma_leading_objects(msgs, 0, n as int);
    let frames = frames_bytes(msgs, n, t1.index, true);
    let defs = defs_bytes(p);
    assert(out == defs + frames);
    lemma_fresh_in_sync();
    lemma_batch_keys_wf(msgs, n);
    lemma_intern_all_keeps(pm, ks);
    lemma_intern_all_sync(pm, pm, ks);
    let z0 = fresh_zc_table();
    lemma_zc_fresh_agrees(t1);
    lemma_pending_resolve(t1, 0);
    assert forall|i: int| 0 <= i < p.len() implies encode_utf8(#[trigger] p[i].1).len() <= u64::MAX by {
        assert(t1.resolve(p[i].0) == Some(p[i].1));
    }
    assert(holds_at(out, 0, defs)) by {
        assert(out.subrange(0, defs.len() as int) =~= defs);
    }
    lemma_zc_defs(out, 0, p, z0, t1);
    lemma_zc_all_defs(out, 0, p, z0, Seq::empty());
    let z2 = zc_store_all(z0, p);
    assert forall|k: Seq<char>| #[trigger] ks.contains(k) implies key_wf(k) && t1.index.dom().contains(k) by {}
    lemma_zc_covers(t1, ks, z2);
    assert(holds_at(out, defs.len(), frames)) by {
        assert(out.subrange(defs.len() as int, (defs.len() + frames.len()) as int) =~= frames);
    }
    assert(frames_bytes(msgs, 0, t1.index, true) =~= Seq::<u8>::empty());
    assert(zc_all_of(msgs).subrange(0, 0) =~= Seq::<Zc>::empty());
    lemma_zc_frames_from(out, defs.len(), msgs, t1.index, z2, 0);
}

} // verus!
