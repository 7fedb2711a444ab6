//! What a decoder reads back of what an encoder wrote.
use vstd::prelude::*;
use vstd::bytes::{spec_u64_to_le_bytes, spec_u64_from_le_bytes, lemma_auto_spec_u64_to_from_le_bytes};
use vstd::utf8::{encode_utf8, encode_scalar, encode_utf8_valid_utf8, encode_utf8_decode_utf8};
use crate::error::FluxPackError;
use crate::json::{Json, JsonNumber};
use crate::symbol_table::{TableModel, intern_all, mark_all, keys_in, predefined_model, predefined_index,
    common_key, lemma_predefined_wf, lemma_intern_all_keeps, lemma_mark_all_keeps, lemma_intern_keeps, lemma_pending_tokens};
use crate::decoder::decode_frames;
use crate::encoder::{EncoderModel, encode_outcome, fresh_encoder};
use crate::MAX_TOKENS;
use crate::varint::{varint_bytes, varint_parse, lemma_varint_roundtrip, lemma_signed_varint_roundtrip,
    signed_varint_bytes};
use crate::wire::{
    json_wf, items_wf, fields_wf, keys_distinct, key_wf, value_bytes, items_bytes, fields_bytes, json_keys,
    items_keys, fields_keys, parse_value, parse_items, parse_fields, str_bytes, number_bytes,
    find_key_from, obj_insert, token_of, f64_bits_finite, float_value, number_from_u64, remaining,
    defs_bytes, data_frame_bytes, parse_def, parse_data_frame,
};

verus! {

/// Every key of `ks` has a token in `index`, and the table `d` gives that key back for it.
pub open spec fn keys_resolve(ks: Seq<Seq<char>>, index: Map<Seq<char>, u16>, d: TableModel) -> bool {
    forall|k: Seq<char>| #[trigger] ks.contains(k) ==> index.dom().contains(k) && d.resolve(index[k]) == Some(k)
}

/// `s` holds the bytes `b` at position `pos`.
pub open spec fn holds_at(s: Seq<u8>, pos: nat, b: Seq<u8>) -> bool {
    pos + b.len() <= s.len() && s.subrange(pos as int, (pos + b.len()) as int) == b
}

pub proof fn lemma_holds_split(s: Seq<u8>, pos: nat, a: Seq<u8>, b: Seq<u8>)
    requires
        holds_at(s, pos, a + b),
    ensures
        holds_at(s, pos, a),
        holds_at(s, pos + a.len(), b),
        s.skip(pos as int) == a + s.skip((pos + a.len()) as int),
{
    assert(s.subrange(pos as int, (pos + a.len()) as int) =~= (a + b).subrange(0, a.len() as int));
    assert((a + b).subrange(0, a.len() as int) =~= a);
    assert(s.subrange((pos + a.len()) as int, (pos + a.len() + b.len()) as int) =~= (a + b).subrange(a.len() as int, (a + b).len() as int));
    assert((a + b).subrange(a.len() as int, (a + b).len() as int) =~= b);
    assert(s.skip(pos as int) =~= a + s.skip((pos + a.len()) as int));
}

pub proof fn lemma_holds_skip(s: Seq<u8>, pos: nat, a: Seq<u8>)
    requires
        holds_at(s, pos, a),
    ensures
        s.skip(pos as int) == a + s.skip((pos + a.len()) as int),
{
    assert(s.skip(pos as int) =~= a + s.skip((pos + a.len()) as int));
}

/// A varint at `pos` reads back as its value.
pub proof fn lemma_varint_at(s: Seq<u8>, pos: nat, v: u64)
    requires
        holds_at(s, pos, varint_bytes(v)),
    ensures
        varint_parse(s.skip(pos as int)) == Ok::<(u64, nat), FluxPackError>((v, varint_bytes(v).len())),
{
    lemma_holds_skip(s, pos, varint_bytes(v));
    lemma_varint_roundtrip(v, s.skip((pos + varint_bytes(v).len()) as int));
}

/// The bytes of the first `j` items begin those of the first `n`.
pub proof fn lemma_items_bytes_prefix(items: Seq<Json>, j: nat, n: nat, index: Map<Seq<char>, u16>)
    requires
        j <= n <= items.len(),
    ensures
        items_bytes(items, n, index, true)
            =~= items_bytes(items, j, index, true) + items_bytes(items, n, index, true).skip(
                items_bytes(items, j, index, true).len() as int),
        items_bytes(items, j, index, true).len() <= items_bytes(items, n, index, true).len(),
    decreases n,
{
    if j < n {
        lemma_items_bytes_prefix(items, j, (n - 1) as nat, index);
    }
}

/// The bytes of the first `j` fields begin those of the first `n`.
pub proof fn lemma_fields_bytes_prefix(fields: Seq<(Seq<char>, Json)>, j: nat, n: nat, index: Map<Seq<char>, u16>)
    requires
        j <= n <= fields.len(),
    ensures
        fields_bytes(fields, n, index, true)
            =~= fields_bytes(fields, j, index, true) + fields_bytes(fields, n, index, true).skip(
                fields_bytes(fields, j, index, true).len() as int),
        fields_bytes(fields, j, index, true).len() <= fields_bytes(fields, n, index, true).len(),
    decreases n,
{
    if j < n {
        lemma_fields_bytes_prefix(fields, j, (n - 1) as nat, index);
    }
}

pub proof fn lemma_items_wf(items: Seq<Json>, n: nat, j: int)
    requires
        0 <= j < n <= items.len(),
        items_wf(items, n),
    ensures
        json_wf(items[j]),
    decreases n,
{
    if j < n - 1 {
        lemma_items_wf(items, (n - 1) as nat, j);
    }
}

pub proof fn lemma_fields_wf(fields: Seq<(Seq<char>, Json)>, n: nat, j: int)
    requires
        0 <= j < n <= fields.len(),
        fields_wf(fields, n),
    ensures
        json_wf(fields[j].1),
        key_wf(fields[j].0),
    decreases n,
{
    if j < n - 1 {
        lemma_fields_wf(fields, (n - 1) as nat, j);
    }
}

/// The keys inside item `j` are among the keys of the first `n` items.
pub proof fn lemma_items_keys_contain(items: Seq<Json>, n: nat, j: int)
    requires
        0 <= j < n <= items.len(),
    ensures
        forall|k: Seq<char>| #[trigger] json_keys(items[j]).contains(k) ==> items_keys(items, n).contains(k),
    decreases n,
{
    let pre = items_keys(items, (n - 1) as nat);
    let post = json_keys(items[n - 1]);
    assert(items_keys(items, n) == pre + post);
    if j < n - 1 {
        lemma_items_keys_contain(items, (n - 1) as nat, j);
    }
    assert forall|k: Seq<char>| #[trigger] json_keys(items[j]).contains(k) implies items_keys(items, n).contains(k) by {
        if j == n - 1 {
            let i = choose|i: int| 0 <= i < post.len() && post[i] == k;
            assert((pre + post)[pre.len() + i] == k);
        } else {
            assert(pre.contains(k));
            let i = choose|i: int| 0 <= i < pre.len() && pre[i] == k;
            assert((pre + post)[i] == k);
        }
    }
}

/// The key of field `j`, and the keys inside its value, are among the keys of the first `n`
/// fields.
pub proof fn lemma_fields_keys_contain(fields: Seq<(Seq<char>, Json)>, n: nat, j: int)
    requires
        0 <= j < n <= fields.len(),
    ensures
        fields_keys(fields, n).contains(fields[j].0),
        forall|k: Seq<char>| #[trigger] json_keys(fields[j].1).contains(k) ==> fields_keys(fields, n).contains(k),
    decreases n,
{
    let pre = fields_keys(fields, (n - 1) as nat);
    let mid = seq![fields[n - 1].0];
    let post = json_keys(fields[n - 1].1);
    let all = pre + mid + post;
    assert(fields_keys(fields, n) == all);
    if j < n - 1 {
        lemma_fields_keys_contain(fields, (n - 1) as nat, j);
        let i = choose|i: int| 0 <= i < pre.len() && pre[i] == fields[j].0;
        assert(all[i] == fields[j].0);
    } else {
        assert(all[pre.len() as int] == fields[j].0);
    }
    assert forall|k: Seq<char>| #[trigger] json_keys(fields[j].1).contains(k) implies all.contains(k) by {
        if j == n - 1 {
            let i = choose|i: int| 0 <= i < post.len() && post[i] == k;
            assert(all[pre.len() + 1 + i] == k);
        } else {
            assert(pre.contains(k));
            let i = choose|i: int| 0 <= i < pre.len() && pre[i] == k;
            assert(all[i] == k);
        }
    }
}

/// A key absent from the fields at `i` and after is not found there.
pub proof fn lemma_find_key_none(fields: Seq<(Seq<char>, Json)>, k: Seq<char>, i: int)
    requires
        0 <= i,
        forall|j: int| i <= j < fields.len() ==> #[trigger] fields[j].0 != k,
    ensures
        find_key_from(fields, k, i) is None,
    decreases fields.len() - i,
{
    if i < fields.len() {
        lemma_find_key_none(fields, k, i + 1);
    }
}

/// A string written as its length and UTF-8 bytes reads back as itself.
proof fn lemma_parse_str(s: Seq<u8>, pos: nat, st: Seq<char>, d: TableModel)
    requires
        holds_at(s, pos, seq![0x05u8] + str_bytes(st)),
        encode_utf8(st).len() <= u64::MAX,
    ensures
        parse_value(s, pos, d) == Ok::<(Json, nat), FluxPackError>((Json::Str(st), 1 + str_bytes(st).len())),
{
    let u = encode_utf8(st);
    let lb = varint_bytes(u.len() as u64);
    assert(seq![0x05u8] + str_bytes(st) == seq![0x05u8] + lb + u);
    lemma_holds_split(s, pos, seq![0x05u8] + lb, u);
    lemma_holds_split(s, pos, seq![0x05u8], lb);
    assert(s[pos as int] == 0x05u8) by {
        assert(s.subrange(pos as int, (pos + 1) as int)[0] == s[pos as int]);
    }
    lemma_varint_at(s, pos + 1, u.len() as u64);
    encode_utf8_valid_utf8(st);
    encode_utf8_decode_utf8(st);
    let start = pos + 1 + lb.len();
    assert(remaining(s, start) >= u.len());
    assert(s.subrange(start as int, (start + u.len()) as int) == u);
    assert((u.len() as u64) as nat == u.len());
}

/// A value written by the standard encoder (with ZigZag integers) reads back as itself,
/// when every key inside it resolves in the reading table.
pub proof fn lemma_parse_value(v: Json, index: Map<Seq<char>, u16>, d: TableModel, s: Seq<u8>, pos: nat)
    requires
        json_wf(v),
        keys_resolve(json_keys(v), index, d),
        holds_at(s, pos, value_bytes(v, index, true)),
    ensures
        parse_value(s, pos, d) == Ok::<(Json, nat), FluxPackError>((v, value_bytes(v, index, true).len())),
    decreases v, 0nat,
{
    let b = value_bytes(v, index, true);
    assert(b.len() >= 1);
    assert(s[pos as int] == b[0]) by {
        assert(s.subrange(pos as int, (pos + b.len()) as int)[0] == s[pos as int]);
    }
    match v {
        Json::Null => {
            assert(b == seq![0x00u8]);
            assert(b[0] == 0x00u8);
        },
        Json::Bool(x) => {
            assert(b[0] == if x { 0x01u8 } else { 0x02u8 });
        },
        Json::Num(n) => {
            match n {
                JsonNumber::Int(i) => {
                    lemma_holds_split(s, pos, seq![0x03u8], signed_varint_bytes(i));
                    lemma_holds_skip(s, pos + 1, signed_varint_bytes(i));
                    lemma_signed_varint_roundtrip(i, s.skip((pos + 1 + signed_varint_bytes(i).len()) as int));
                },
                JsonNumber::UInt(u) => {
                    lemma_holds_split(s, pos, seq![0x04u8], varint_bytes(u));
                    lemma_varint_at(s, pos + 1, u);
                },
                JsonNumber::Float(bits) => {
                    lemma_auto_spec_u64_to_from_le_bytes();
                    lemma_holds_split(s, pos, seq![0x06u8], spec_u64_to_le_bytes(bits));
                    assert(remaining(s, pos + 1) >= 8);
                },
            }
        },
        Json::Str(st) => {
            lemma_parse_str(s, pos, st, d);
        },
        Json::Arr(items) => {
            let n = items.len();
            let lb = varint_bytes(n as u64);
            let ib = items_bytes(items, n, index, true);
            assert(b == seq![0x09u8] + lb + ib);
            lemma_holds_split(s, pos, seq![0x09u8] + lb, ib);
            lemma_holds_split(s, pos, seq![0x09u8], lb);
            lemma_varint_at(s, pos + 1, n as u64);
            assert(items.subrange(0, 0) =~= Seq::<Json>::empty());
            lemma_parse_items(items, index, d, s, pos + 1 + lb.len(), 0);
        },
        Json::Obj(fields) => {
            let n = fields.len();
            let lb = varint_bytes(n as u64);
            let fb = fields_bytes(fields, n, index, true);
            assert(b == seq![0x0Au8] + lb + fb);
            lemma_holds_split(s, pos, seq![0x0Au8] + lb, fb);
            lemma_holds_split(s, pos, seq![0x0Au8], lb);
            lemma_varint_at(s, pos + 1, n as u64);
            assert(fields.subrange(0, 0) =~= Seq::<(Seq<char>, Json)>::empty());
            lemma_parse_fields(fields, index, d, s, pos + 1 + lb.len(), 0);
        },
    }
}

/// Reading the items from the `k`-th on, after the first `k`, gives all of them.
proof fn lemma_parse_items(items: Seq<Json>, index: Map<Seq<char>, u16>, d: TableModel, s: Seq<u8>, p: nat, k: nat)
    requires
        k <= items.len(),
        items_wf(items, items.len()),
        keys_resolve(items_keys(items, items.len()), index, d),
        holds_at(s, p, items_bytes(items, items.len(), index, true)),
    ensures
        parse_items(
            s,
            p + items_bytes(items, k, index, true).len(),
            (items.len() - k) as nat,
            d,
            items.subrange(0, k as int),
        ) == Ok::<(Seq<Json>, nat), FluxPackError>((
            items,
            (items_bytes(items, items.len(), index, true).len() - items_bytes(items, k, index, true).len()) as nat,
        )),
    decreases items, items.len() - k,
{
    let n = items.len();
    let all = items_bytes(items, n, index, true);
    let pre = items_bytes(items, k, index, true);
    lemma_items_bytes_prefix(items, k, n, index);
    if k == n {
        assert(items.subrange(0, k as int) =~= items);
    } else {
        let next = items_bytes(items, k + 1, index, true);
        let vb = value_bytes(items[k as int], index, true);
        assert(next == pre + vb);
        lemma_items_bytes_prefix(items, k + 1, n, index);
        lemma_holds_split(s, p, next, all.skip(next.len() as int));
        lemma_holds_split(s, p, pre, vb);
        lemma_items_wf(items, n, k as int);
        lemma_items_keys_contain(items, n, k as int);
        assert(decreases_to!(items => items[k as int]));
        lemma_parse_value(items[k as int], index, d, s, p + pre.len());
        assert(items.subrange(0, k as int).push(items[k as int]) =~= items.subrange(0, (k + 1) as int));
        lemma_parse_items(items, index, d, s, p, k + 1);
    }
}

/// A token written as a varint reads back as itself.
pub proof fn lemma_token_of(t: u16)
    ensures
        token_of(t as u64) == t,
{
    assert((t as u64) as u16 == t) by (bit_vector);
}

/// Reading the fields from the `k`-th on, after the first `k`, gives all of them, when
/// their keys are distinct.
proof fn lemma_parse_fields(
    fields: Seq<(Seq<char>, Json)>,
    index: Map<Seq<char>, u16>,
    d: TableModel,
    s: Seq<u8>,
    p: nat,
    k: nat,
)
    requires
        k <= fields.len(),
        fields_wf(fields, fields.len()),
        keys_distinct(fields),
        keys_resolve(fields_keys(fields, fields.len()), index, d),
        holds_at(s, p, fields_bytes(fields, fields.len(), index, true)),
    ensures
        parse_fields(
            s,
            p + fields_bytes(fields, k, index, true).len(),
            (fields.len() - k) as nat,
            d,
            fields.subrange(0, k as int),
        ) == Ok::<(Seq<(Seq<char>, Json)>, nat), FluxPackError>((
            fields,
            (fields_bytes(fields, fields.len(), index, true).len() - fields_bytes(fields, k, index, true).len()) as nat,
        )),
    decreases fields, fields.len() - k,
{
    let n = fields.len();
    let all = fields_bytes(fields, n, index, true);
    let pre = fields_bytes(fields, k, index, true);
    lemma_fields_bytes_prefix(fields, k, n, index);
    if k == n {
        assert(fields.subrange(0, k as int) =~= fields);
    } else {
        let key = fields[k as int].0;
        let val = fields[k as int].1;
        let tb = varint_bytes(index[key] as u64);
        let vb = value_bytes(val, index, true);
        let next = fields_bytes(fields, k + 1, index, true);
        assert(next == pre + tb + vb);
        lemma_fields_bytes_prefix(fields, k + 1, n, index);
        lemma_holds_split(s, p, next, all.skip(next.len() as int));
        lemma_holds_split(s, p, pre + tb, vb);
        lemma_holds_split(s, p, pre, tb);
        lemma_fields_wf(fields, n, k as int);
        lemma_fields_keys_contain(fields, n, k as int);
        lemma_varint_at(s, p + pre.len(), index[key] as u64);
        let t = index[key];
        lemma_token_of(t);
        assert(decreases_to!(fields => fields[k as int]));
        assert(decreases_to!(fields[k as int] => fields[k as int].1));
        lemma_parse_value(val, index, d, s, p + pre.len() + tb.len());
        let acc = fields.subrange(0, k as int);
        assert forall|j: int| 0 <= j < acc.len() implies #[trigger] acc[j].0 != key by {
            assert(acc[j] == fields[j]);
        }
        lemma_find_key_none(acc, key, 0);
        assert(obj_insert(acc, key, val) =~= fields.subrange(0, (k + 1) as int));
        lemma_parse_fields(fields, index, d, s, p, k + 1);
    }
}

/// The keys of DEF entries, in order.
pub open spec fn def_keys(q: Seq<(u16, Seq<char>)>) -> Seq<Seq<char>> {
    Seq::new(q.len(), |i: int| q[i].1)
}

pub proof fn lemma_defs_bytes_concat(a: Seq<(u16, Seq<char>)>, b: Seq<(u16, Seq<char>)>)
    ensures
        defs_bytes(a + b) =~= defs_bytes(a) + defs_bytes(b),
    decreases b.len(),
{
    if b.len() > 0 {
        assert((a + b).drop_last() =~= a + b.drop_last());
        assert((a + b).last() == b.last());
        lemma_defs_bytes_concat(a, b.drop_last());
    } else {
        assert(a + b =~= a);
    }
}

/// Reading the DEF frames of `q` interns their keys in order, then goes on after them.
proof fn lemma_decode_defs(s: Seq<u8>, pos: nat, q: Seq<(u16, Seq<char>)>, d: TableModel)
    requires
        holds_at(s, pos, defs_bytes(q)),
        forall|i: int| 0 <= i < q.len() ==> encode_utf8(#[trigger] q[i].1).len() <= u64::MAX,
    ensures
        decode_frames(s, pos, d) == (match intern_all(d, def_keys(q)).0 {
            Ok(_) => decode_frames(s, pos + defs_bytes(q).len(), intern_all(d, def_keys(q)).1),
            Err(e) => (Err::<Json, FluxPackError>(e), intern_all(d, def_keys(q)).1),
        }),
    decreases q.len(),
{
    if q.len() == 0 {
        assert(def_keys(q) =~= Seq::<Seq<char>>::empty());
    } else {
        let x = q[0];
        let rest = q.drop_first();
        assert(q =~= seq![x] + rest);
        lemma_defs_bytes_concat(seq![x], rest);
        assert(seq![x].drop_last() =~= Seq::<(u16, Seq<char>)>::empty());
        let xb = defs_bytes(seq![x]);
        let tb = varint_bytes(x.0 as u64);
        let kb = str_bytes(x.1);
        assert(seq![x].last() == x);
        assert(defs_bytes(Seq::<(u16, Seq<char>)>::empty()) == Seq::<u8>::empty());
        assert(xb =~= seq![0x01u8] + tb + kb);
        lemma_holds_split(s, pos, xb, defs_bytes(rest));
        lemma_holds_split(s, pos, seq![0x01u8] + tb, kb);
        lemma_holds_split(s, pos, seq![0x01u8], tb);
        assert(s[pos as int] == 0x01u8) by {
            assert(s.subrange(pos as int, (pos + 1) as int)[0] == s[pos as int]);
        }
        lemma_varint_at(s, pos + 1, x.0 as u64);
        let u = encode_utf8(x.1);
        let lb = varint_bytes(u.len() as u64);
        assert(kb == lb + u);
        lemma_holds_split(s, pos + 1 + tb.len(), lb, u);
        lemma_varint_at(s, pos + 1 + tb.len(), u.len() as u64);
        encode_utf8_valid_utf8(x.1);
        encode_utf8_decode_utf8(x.1);
        let start = pos + 1 + tb.len() + lb.len();
        assert(s.subrange(start as int, (start + u.len()) as int) == u);
        assert(encode_utf8(q[0].1).len() <= u64::MAX);
        assert((u.len() as u64) as nat == u.len());
        assert(parse_def(s, pos + 1) == Ok::<(u64, Seq<char>, nat), FluxPackError>(
            (x.0 as u64, x.1, tb.len() + kb.len())));
        assert(def_keys(q) =~= seq![x.1] + def_keys(rest));
        assert((seq![x.1] + def_keys(rest)).drop_first() =~= def_keys(rest));
        assert forall|i: int| 0 <= i < rest.len() implies encode_utf8(#[trigger] rest[i].1).len() <= u64::MAX by {
            assert(rest[i] == q[i + 1]);
        }
        let (r1, d1) = d.intern(x.1);
        if r1 is Ok {
            lemma_decode_defs(s, pos + xb.len(), rest, d1);
        }
    }
}

/// An encoder's table `e` and a decoder's table `d` agree on every token the decoder has,
/// and every token the decoder lacks is one whose DEF the encoder has still to send.
pub open spec fn in_sync(e: TableModel, d: TableModel) -> bool {
    &&& e.wf()
    &&& d.wf()
    &&& e.cache == Seq::new((e.next - 1) as nat, |i: int| (i + 1) as u16)
    &&& e.emitted.len() <= e.next
    &&& forall|t: int| 0 <= t < e.keys.len() ==> encode_utf8(#[trigger] e.keys[t]).len() <= u64::MAX
    &&& d.next <= e.next
    &&& forall|t: int| 0 <= t < d.next ==> #[trigger] d.keys[t] == e.keys[t]
    &&& forall|t: int| 1 <= t < d.next && e.keys[t].len() > 0 ==> d.index.dom().contains(#[trigger] e.keys[t])
    &&& forall|k: Seq<char>| #[trigger] d.index.dom().contains(k) ==>
            e.index.dom().contains(k) && e.index[k] == d.index[k]
    &&& forall|t: int| d.next <= t < e.next ==> #[trigger] unsent(e, t)
}

/// Token `t` of `e` has a key, the index gives `t` for it, and its DEF is still to be sent.
pub open spec fn unsent(e: TableModel, t: int) -> bool {
    &&& !e.def_emitted(t as u16)
    &&& e.keys[t].len() > 0
    &&& e.index.dom().contains(e.keys[t])
    &&& e.index[e.keys[t]] == t
}

pub proof fn lemma_contains_concat(a: Seq<Seq<char>>, b: Seq<Seq<char>>, k: Seq<char>)
    ensures
        (a + b).contains(k) <==> a.contains(k) || b.contains(k),
{
    if (a + b).contains(k) {
        let i = choose|i: int| 0 <= i < (a + b).len() && (a + b)[i] == k;
        if i < a.len() {
            assert(a[i] == k);
        } else {
            assert(b[i - a.len()] == k);
        }
    }
    if a.contains(k) {
        let i = choose|i: int| 0 <= i < a.len() && a[i] == k;
        assert((a + b)[i] == k);
    }
    if b.contains(k) {
        let i = choose|i: int| 0 <= i < b.len() && b[i] == k;
        assert((a + b)[a.len() + i] == k);
    }
}

/// Every key inside a well-formed value is one the wire format carries.
pub proof fn lemma_json_keys_wf(v: Json)
    requires
        json_wf(v),
    ensures
        forall|k: Seq<char>| #[trigger] json_keys(v).contains(k) ==> key_wf(k),
    decreases v, 0nat,
{
    match v {
        Json::Arr(items) => {
            assert(json_keys(v) == items_keys(items, items.len()));
            lemma_items_keys_wf(items, items.len());
        },
        Json::Obj(fields) => {
            assert(json_keys(v) == fields_keys(fields, fields.len()));
            lemma_fields_keys_wf(fields, fields.len());
        },
        _ => {},
    }
}

proof fn lemma_items_keys_wf(items: Seq<Json>, n: nat)
    requires
        n <= items.len(),
        items_wf(items, n),
    ensures
        forall|k: Seq<char>| #[trigger] items_keys(items, n).contains(k) ==> key_wf(k),
    decreases items, n,
{
    if n > 0 {
        lemma_items_keys_wf(items, (n - 1) as nat);
        assert(decreases_to!(items => items[n - 1]));
        lemma_json_keys_wf(items[n - 1]);
        assert forall|k: Seq<char>| #[trigger] items_keys(items, n).contains(k) implies key_wf(k) by {
            lemma_contains_concat(items_keys(items, (n - 1) as nat), json_keys(items[n - 1]), k);
        }
    }
}

pub proof fn lemma_fields_keys_wf(fields: Seq<(Seq<char>, Json)>, n: nat)
    requires
        n <= fields.len(),
        fields_wf(fields, n),
    ensures
        forall|k: Seq<char>| #[trigger] fields_keys(fields, n).contains(k) ==> key_wf(k),
    decreases fields, n,
{
    if n > 0 {
        lemma_fields_keys_wf(fields, (n - 1) as nat);
        assert(decreases_to!(fields => fields[n - 1]));
        assert(decreases_to!(fields[n - 1] => fields[n - 1].1));
        lemma_json_keys_wf(fields[n - 1].1);
        let pre = fields_keys(fields, (n - 1) as nat);
        let mid = seq![fields[n - 1].0];
        let post = json_keys(fields[n - 1].1);
        assert forall|k: Seq<char>| #[trigger] fields_keys(fields, n).contains(k) implies key_wf(k) by {
            lemma_contains_concat(pre + mid, post, k);
            lemma_contains_concat(pre, mid, k);
            if mid.contains(k) {
                assert(mid[0] == k);
            }
        }
    }
}

/// Interning a key on the encoder's side keeps the pair in sync.
proof fn lemma_intern_sync(e: TableModel, d: TableModel, k: Seq<char>)
    requires
        in_sync(e, d),
        key_wf(k),
        e.intern(k).0 is Ok,
    ensures
        in_sync(e.intern(k).1, d),
{
    lemma_intern_keeps(e, k);
    let e1 = e.intern(k).1;
    if !e.index.dom().contains(k) {
        assert(e1.cache =~= Seq::new((e1.next - 1) as nat, |i: int| (i + 1) as u16));
        assert forall|t: int| 0 <= t < e1.keys.len() implies encode_utf8(#[trigger] e1.keys[t]).len() <= u64::MAX by {
            if t < e.keys.len() {
                assert(e1.keys[t] == e.keys[t]);
            }
        }
        assert forall|t: int| 0 <= t < d.next implies #[trigger] d.keys[t] == e1.keys[t] by {
            assert(e1.keys[t] == e.keys[t]);
        }
        assert forall|t: int| 1 <= t < d.next && e1.keys[t].len() > 0 implies d.index.dom().contains(#[trigger] e1.keys[t]) by {
            assert(e1.keys[t] == e.keys[t]);
        }
        assert forall|k2: Seq<char>| #[trigger] d.index.dom().contains(k2) implies
            e1.index.dom().contains(k2) && e1.index[k2] == d.index[k2] by {
            assert(k2 != k);
        }
        assert forall|t: int| d.next <= t < e1.next implies #[trigger] unsent(e1, t) by {
            if t < e.next {
                assert(unsent(e, t));
                assert(e1.keys[t] == e.keys[t]);
                assert(e.keys[t] != k);
                if t < e.emitted.len() {
                    assert(e1.emitted[t] == e.emitted[t]);
                }
            } else {
                assert(t == e.next);
                assert(e1.keys[t] == k);
            }
        }
    }
}

/// Interning well-formed keys on the encoder's side keeps the pair in sync.
pub proof fn lemma_intern_all_sync(e: TableModel, d: TableModel, ks: Seq<Seq<char>>)
    requires
        in_sync(e, d),
        forall|k: Seq<char>| #[trigger] ks.contains(k) ==> key_wf(k),
        intern_all(e, ks).0 is Ok,
    ensures
        in_sync(intern_all(e, ks).1, d),
    decreases ks.len(),
{
    if ks.len() > 0 {
        assert(ks.contains(ks[0]));
        lemma_intern_sync(e, d, ks[0]);
        assert forall|k: Seq<char>| #[trigger] ks.drop_first().contains(k) implies key_wf(k) by {
            let i = choose|i: int| 0 <= i < ks.drop_first().len() && ks.drop_first()[i] == k;
            assert(ks[i + 1] == k);
            assert(ks.contains(k));
        }
        lemma_intern_all_sync(e.intern(ks[0]).1, d, ks.drop_first());
    }
}

/// Each pending entry is an assigned token with its key.
pub proof fn lemma_pending_entries(e: TableModel, i: int)
    requires
        e.wf(),
        0 <= i,
    ensures
        forall|j: int| 0 <= j < e.pending_from(i).len() ==> {
            &&& (#[trigger] e.pending_from(i)[j]).0 < e.next
            &&& e.pending_from(i)[j].1 == e.keys[e.pending_from(i)[j].0 as int]
        },
    decreases e.cache.len() - i,
{
    if i < e.cache.len() {
        lemma_pending_entries(e, i + 1);
        let rest = e.pending_from(i + 1);
        let tok = e.cache[i];
        if !e.def_emitted(tok) && e.resolve(tok) is Some {
            let p = seq![(tok, e.keys[tok as int])] + rest;
            assert forall|j: int| 0 <= j < p.len() implies (#[trigger] p[j]).0 < e.next
                && p[j].1 == e.keys[p[j].0 as int] by {
                if j > 0 {
                    assert(p[j] == rest[j - 1]);
                }
            }
        }
    }
}

/// The decoder reading the DEF frames of every pending token, from the `i`-th assigned one
/// on, catches up with the encoder.
pub proof fn lemma_pending_sync(e: TableModel, d: TableModel, i: int)
    requires
        in_sync(e, d),
        0 <= i <= e.cache.len(),
        d.next >= i + 1,
    ensures
        intern_all(d, def_keys(e.pending_from(i))).0 is Ok,
        in_sync(e, intern_all(d, def_keys(e.pending_from(i))).1),
        intern_all(d, def_keys(e.pending_from(i))).1.next == e.next,
    decreases e.cache.len() - i,
{
    if i == e.cache.len() {
        assert(def_keys(e.pending_from(i)) =~= Seq::<Seq<char>>::empty());
    } else {
        let t = e.cache[i];
        assert(t == i + 1);
        let rest = e.pending_from(i + 1);
        if !e.def_emitted(t) && e.resolve(t) is Some {
            let key = e.keys[t as int];
            assert(e.pending_from(i) == seq![(t, key)] + rest);
            assert(def_keys(seq![(t, key)] + rest) =~= seq![key] + def_keys(rest));
            assert((seq![key] + def_keys(rest)).drop_first() =~= def_keys(rest));
            if t < d.next {
                assert(d.index.dom().contains(e.keys[t as int]));
                lemma_pending_sync(e, d, i + 1);
            } else {
                assert(t == d.next);
                assert(unsent(e, t as int));
                assert(!d.index.dom().contains(key)) by {
                    if d.index.dom().contains(key) {
                        assert(e.index[key] == d.index[key]);
                        assert((d.index[key] as nat) < d.keys.len());
                    }
                }
                lemma_intern_keeps(d, key);
                let d1 = d.intern(key).1;
                assert(d1.next == t + 1);
                assert forall|t2: int| 0 <= t2 < d1.next implies #[trigger] d1.keys[t2] == e.keys[t2] by {
                    if t2 < d.next {
                        assert(d1.keys[t2] == d.keys[t2]);
                    }
                }
                assert forall|t2: int| 1 <= t2 < d1.next && e.keys[t2].len() > 0 implies
                    d1.index.dom().contains(#[trigger] e.keys[t2]) by {
                    if t2 < d.next {
                        assert(d.index.dom().contains(e.keys[t2]));
                    }
                }
                assert forall|k2: Seq<char>| #[trigger] d1.index.dom().contains(k2) implies
                    e.index.dom().contains(k2) && e.index[k2] == d1.index[k2] by {
                    if k2 != key {
                        assert(d.index.dom().contains(k2));
                    }
                }
                assert forall|t2: int| d1.next <= t2 < e.next implies #[trigger] unsent(e, t2) by {
                    assert(unsent(e, t2));
                }
                lemma_pending_sync(e, d1, i + 1);
            }
        } else {
            assert(e.pending_from(i) == rest);
            if t >= d.next {
                assert(unsent(e, t as int));
                assert(e.resolve(t) is Some);
            }
            lemma_pending_sync(e, d, i + 1);
        }
    }
}

/// Marking assigned tokens as emitted keeps the emitted flags within the assigned tokens.
pub proof fn lemma_mark_all_len(e: TableModel, p: Seq<(u16, Seq<char>)>)
    requires
        e.emitted.len() <= e.next,
        forall|j: int| 0 <= j < p.len() ==> (#[trigger] p[j]).0 < e.next,
    ensures
        mark_all(e, p).emitted.len() <= e.next,
    decreases p.len(),
{
    if p.len() > 0 {
        assert forall|j: int| 0 <= j < p.drop_last().len() implies (#[trigger] p.drop_last()[j]).0 < e.next by {
            assert(p.drop_last()[j] == p[j]);
        }
        lemma_mark_all_len(e, p.drop_last());
        lemma_mark_all_keeps(e, p.drop_last());
        assert(p.last() == p[p.len() - 1]);
    }
}

/// Caching a fingerprint changes nothing the pair agrees on.
pub proof fn lemma_fp_sync(e: TableModel, d: TableModel, fp: u64)
    requires
        in_sync(e, d),
    ensures
        in_sync(TableModel { fp, ..e }, d),
{
    let e2 = TableModel { fp, ..e };
    assert forall|t: int| d.next <= t < e2.next implies #[trigger] unsent(e2, t) by {
        assert(unsent(e, t));
    }
}

/// Once the decoder has every token of the encoder, each key the encoder interned resolves
/// in the decoder's table to its token.
pub proof fn lemma_keys_resolve(e: TableModel, d: TableModel, ks: Seq<Seq<char>>)
    requires
        in_sync(e, d),
        d.next == e.next,
        keys_in(ks, e.index),
        forall|k: Seq<char>| #[trigger] ks.contains(k) ==> key_wf(k),
    ensures
        keys_resolve(ks, e.index, d),
{
    assert forall|k: Seq<char>| #[trigger] ks.contains(k) implies e.index.dom().contains(k)
        && d.resolve(e.index[k]) == Some(k) by {
        let j = choose|j: int| 0 <= j < ks.len() && ks[j] == k;
        assert(e.index.dom().contains(ks[j]));
        let t = e.index[k];
        assert(e.keys[t as int] == k);
        assert(d.keys[t as int] == e.keys[t as int]);
    }
}

/// A DATA frame for a well-formed object whose keys resolve reads back as the object.
pub proof fn lemma_decode_data_frame(
    s: Seq<u8>,
    pos: nat,
    fields: Seq<(Seq<char>, Json)>,
    index: Map<Seq<char>, u16>,
    d: TableModel,
)
    requires
        json_wf(Json::Obj(fields)),
        keys_resolve(fields_keys(fields, fields.len()), index, d),
        holds_at(s, pos, data_frame_bytes(fields, index, true)),
    ensures
        decode_frames(s, pos, d) == (Ok::<Json, FluxPackError>(Json::Obj(fields)), d),
        s[pos as int] == 0x02u8,
        parse_data_frame(s, pos + 1, d) == Ok::<(Json, nat), FluxPackError>(
            (Json::Obj(fields), (data_frame_bytes(fields, index, true).len() - 1) as nat)),
{
    let n = fields.len();
    let lb = varint_bytes(n as u64);
    let fb = fields_bytes(fields, n, index, true);
    assert(data_frame_bytes(fields, index, true) == seq![0x02u8] + lb + fb);
    lemma_holds_split(s, pos, seq![0x02u8] + lb, fb);
    lemma_holds_split(s, pos, seq![0x02u8], lb);
    assert(s[pos as int] == 0x02u8) by {
        assert(s.subrange(pos as int, (pos + 1) as int)[0] == s[pos as int]);
    }
    lemma_varint_at(s, pos + 1, n as u64);
    assert(fields.subrange(0, 0) =~= Seq::<(Seq<char>, Json)>::empty());
    lemma_parse_fields(fields, index, d, s, pos + 1 + lb.len(), 0);
    assert(parse_data_frame(s, pos + 1, d) == Ok::<(Json, nat), FluxPackError>((Json::Obj(fields), lb.len() + fb.len())));
}

/// The decoder reading the pending DEF frames of `e` catches up with it, and marking them
/// as sent keeps the pair in sync.
pub proof fn lemma_defs_then_sync(e: TableModel, d: TableModel, s: Seq<u8>)
    requires
        in_sync(e, d),
        holds_at(s, 0, defs_bytes(e.pending())),
    ensures
        intern_all(d, def_keys(e.pending())).0 is Ok,
        intern_all(d, def_keys(e.pending())).1.next == e.next,
        in_sync(e, intern_all(d, def_keys(e.pending())).1),
        in_sync(mark_all(e, e.pending()), intern_all(d, def_keys(e.pending())).1),
        decode_frames(s, 0, d) == decode_frames(s, defs_bytes(e.pending()).len(), intern_all(d, def_keys(e.pending())).1),
{
    let p = e.pending();
    let d2 = intern_all(d, def_keys(p)).1;
    lemma_pending_sync(e, d, 0);
    lemma_pending_entries(e, 0);
    assert forall|i: int| 0 <= i < p.len() implies encode_utf8(#[trigger] p[i].1).len() <= u64::MAX by {
        assert(p[i].1 == e.keys[p[i].0 as int]);
    }
    lemma_decode_defs(s, 0, p, d);
    lemma_pending_tokens(e, 0);
    lemma_mark_all_keeps(e, p);
    lemma_mark_all_len(e, p);
    let e3 = mark_all(e, p);
    assert forall|t: int| 0 <= t < e3.keys.len() implies encode_utf8(#[trigger] e3.keys[t]).len() <= u64::MAX by {
        assert(e3.keys[t] == e.keys[t]);
    }
}

/// Law: when an encoder's table and a decoder's table are in sync, decoding the output of
/// `encode` on a well-formed object gives the object back and leaves the tables in sync.
/// This holds whenever the DEF frames were sent; when the schema fingerprint matched the
/// previous one and they were skipped, it holds if the decoder already knew every key.
pub proof fn law_encode_then_decode(e: EncoderModel, d: TableModel, fields: Seq<(Seq<char>, Json)>, fp: u64)
    requires
        in_sync(e.table, d),
        e.zigzag,
        json_wf(Json::Obj(fields)),
        encode_outcome(e, fields, fp).0 is Ok,
        e.prev_fp != 0 && e.prev_fp == fp ==>
            intern_all(e.table, fields_keys(fields, fields.len())).1.next == d.next,
    ensures
        decode_frames(encode_outcome(e, fields, fp).1.output, 0, d).0 == Ok::<Json, FluxPackError>(Json::Obj(fields)),
        in_sync(encode_outcome(e, fields, fp).1.table, decode_frames(encode_outcome(e, fields, fp).1.output, 0, d).1),
{
    let n = fields.len();
    let ks = fields_keys(fields, n);
    let t1 = intern_all(e.table, ks).1;
    let t2 = TableModel { fp, ..t1 };
    let skip = e.prev_fp != 0 && e.prev_fp == fp;
    let p = t2.pending();
    let e2 = encode_outcome(e, fields, fp).1;
    let out = e2.output;
    lemma_fields_keys_wf(fields, n);
    lemma_intern_all_keeps(e.table, ks);
    lemma_intern_all_sync(e.table, d, ks);
    lemma_fp_sync(t1, d, fp);
    let dfb = data_frame_bytes(fields, t1.index, true);
    if skip {
        assert(out == dfb);
        assert(holds_at(out, 0, dfb)) by {
            assert(out.subrange(0, dfb.len() as int) =~= dfb);
        }
        lemma_keys_resolve(t2, d, ks);
        lemma_decode_data_frame(out, 0, fields, t1.index, d);
    } else {
        let defs = defs_bytes(p);
        assert(out == defs + dfb);
        assert(holds_at(out, 0, defs)) by {
            assert(out.subrange(0, defs.len() as int) =~= defs);
        }
        lemma_defs_then_sync(t2, d, out);
        let d2 = intern_all(d, def_keys(p)).1;
        assert(holds_at(out, defs.len(), dfb)) by {
            assert(out.subrange(defs.len() as int, (defs.len() + dfb.len()) as int) =~= dfb);
        }
        lemma_keys_resolve(t2, d2, ks);
        lemma_decode_data_frame(out, defs.len(), fields, t1.index, d2);
    }
}

proof fn lemma_encode_utf8_len(c: Seq<char>)
    ensures
        encode_utf8(c).len() <= 4 * c.len(),
    decreases c.len(),
{
    if c.len() > 0 {
        assert(encode_scalar(c[0] as u32).len() <= 4);
        lemma_encode_utf8_len(c.drop_first());
    }
}

proof fn lemma_common_key_len(i: int)
    requires
        0 <= i < 20,
    ensures
        common_key(i).len() <= 13,
{
    reveal_strlit("epoch");
    reveal_strlit("loss");
    reveal_strlit("accuracy");
    reveal_strlit("val_loss");
    reveal_strlit("val_accuracy");
    reveal_strlit("learning_rate");
    reveal_strlit("batch_size");
    reveal_strlit("step");
    reveal_strlit("timestamp");
    reveal_strlit("status");
    reveal_strlit("model_type");
    reveal_strlit("optimizer");
    reveal_strlit("lr");
    reveal_strlit("metrics");
    reveal_strlit("config");
    reveal_strlit("train_loss");
    reveal_strlit("test_loss");
    reveal_strlit("f1");
    reveal_strlit("precision");
    reveal_strlit("recall");
}

proof fn lemma_predefined_contains(n: nat, i: int)
    requires
        0 <= i < n,
    ensures
        predefined_index(n).dom().contains(common_key(i)),
    decreases n,
{
    if i < n - 1 {
        lemma_predefined_contains((n - 1) as nat, i);
    }
}

/// A fresh encoder's table and a fresh decoder's table are in sync.
pub proof fn lemma_fresh_in_sync()
    ensures
        in_sync(predefined_model(), predefined_model()),
{
    let m = predefined_model();
    lemma_predefined_wf();
    assert(m.cache =~= Seq::new((m.next - 1) as nat, |i: int| (i + 1) as u16));
    assert forall|t: int| 0 <= t < m.keys.len() implies encode_utf8(#[trigger] m.keys[t]).len() <= u64::MAX by {
        if t > 0 {
            assert(m.keys[t] == common_key(t - 1));
            lemma_common_key_len(t - 1);
        }
        lemma_encode_utf8_len(m.keys[t]);
    }
    assert forall|t: int| 1 <= t < m.next && m.keys[t].len() > 0 implies m.index.dom().contains(#[trigger] m.keys[t]) by {
        assert(m.keys[t] == common_key(t - 1));
        lemma_predefined_contains(20, t - 1);
    }
}

/// Law: a new encoder and a new decoder carry any well-formed object: decoding what the
/// encoder's first `encode` wrote gives the object back.
pub proof fn law_fresh_roundtrip(fields: Seq<(Seq<char>, Json)>, fp: u64)
    requires
        json_wf(Json::Obj(fields)),
        encode_outcome(fresh_encoder(), fields, fp).0 is Ok,
    ensures
        decode_frames(encode_outcome(fresh_encoder(), fields, fp).1.output, 0, predefined_model()).0
            == Ok::<Json, FluxPackError>(Json::Obj(fields)),
{
    lemma_fresh_in_sync();
    law_encode_then_decode(fresh_encoder(), predefined_model(), fields, fp);
}

} // verus!
