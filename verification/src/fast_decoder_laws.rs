//! What the fast decoder gives back for what the encoder wrote: the same message.
use vstd::prelude::*;
use vstd::utf8::{encode_utf8, encode_utf8_valid_utf8, encode_utf8_decode_utf8};
use vstd::bytes::{spec_u64_to_le_bytes, lemma_auto_spec_u64_to_from_le_bytes};
use crate::error::FluxPackError;
use crate::json::{Json, JsonNumber};
use crate::varint::{varint_bytes, signed_varint_bytes, lemma_signed_varint_roundtrip};
use crate::wire::{json_wf, items_wf, fields_wf, keys_distinct, key_wf, value_bytes, items_bytes, fields_bytes,
    json_keys, items_keys, fields_keys, str_bytes, remaining, obj_insert, token_of, parse_def, defs_bytes,
    data_frame_bytes};
use crate::symbol_table::{TableModel, intern_all, predefined_model, common_key, lemma_intern_all_keeps};
use crate::encoder::{encode_outcome, fresh_encoder};
use crate::roundtrip::{holds_at, lemma_holds_split, lemma_holds_skip, lemma_varint_at, lemma_items_bytes_prefix,
    lemma_fields_bytes_prefix, lemma_items_wf, lemma_fields_wf, lemma_items_keys_contain, lemma_fields_keys_contain,
    lemma_token_of, lemma_find_key_none, lemma_defs_bytes_concat, lemma_fresh_in_sync, lemma_intern_all_sync,
    lemma_fields_keys_wf, lemma_fp_sync, in_sync, unsent};
use crate::fast_decoder::{FastModel, parse_fast_value, parse_fast_items, parse_fast_fields, parse_fast_data,
    fast_decode_frames, fresh_fast_model, cache_get, cache_put, common_keys};
use crate::inline::INLINE_MAGIC;
use crate::zero_copy_laws::{lemma_pending_resolve, lemma_pending_has, lemma_common_key_nonempty};
use crate::MAX_TOKENS;

verus! {

/// Every key of `ks` has a token in `index` under which the key cache holds that key.
pub open spec fn fast_keys_resolve(ks: Seq<Seq<char>>, index: Map<Seq<char>, u16>, cache: Seq<Seq<char>>) -> bool {
    forall|k: Seq<char>| #[trigger] ks.contains(k) ==> index.dom().contains(k) && cache_get(cache, index[k]) == Some(k)
}

/// A value written by the encoder (with ZigZag integers) reads back with the fast decoder's
/// grammar as itself, when every key inside it is cached under its token.
pub proof fn lemma_parse_fast_value(v: Json, index: Map<Seq<char>, u16>, cache: Seq<Seq<char>>, s: Seq<u8>, pos: nat)
    requires
        json_wf(v),
        fast_keys_resolve(json_keys(v), index, cache),
        holds_at(s, pos, value_bytes(v, index, true)),
    ensures
        parse_fast_value(s, pos, cache) == Ok::<(Json, nat), FluxPackError>((v, value_bytes(v, index, true).len())),
    decreases v, 0nat,
{
    let b = value_bytes(v, index, true);
    assert(b.len() >= 1);
    assert(s[pos as int] == b[0]) by {
        assert(s.subrange(pos as int, (pos + b.len()) as int)[0] == s[pos as int]);
    }
    match v {
        Json::Null => {
            assert(b[0] == 0x00u8);
        },
        Json::Bool(x) => {
            assert(b[0] == if x { 0x01u8 } else { 0x02u8 });
        },
        Json::Num(n) => {
            match n {
                JsonNumber::Int(i) => {
                    lemma_holds_split(s, pos, seq![0x03u8], signed_varint_bytes(i));
                    lemma_holds_skip(s, pos + 1, signed_varint_bytes(i));
                    lemma_signed_varint_roundtrip(i, s.skip((pos + 1 + signed_varint_bytes(i).len()) as int));
                },
                JsonNumber::UInt(u) => {
                    lemma_holds_split(s, pos, seq![0x04u8], varint_bytes(u));
                    lemma_varint_at(s, pos + 1, u);
                },
                JsonNumber::Float(bits) => {
                    lemma_auto_spec_u64_to_from_le_bytes();
                    lemma_holds_split(s, pos, seq![0x06u8], spec_u64_to_le_bytes(bits));
                    assert(remaining(s, pos + 1) >= 8);
                },
            }
        },
        Json::Str(st) => {
            let u = encode_utf8(st);
            let lb = varint_bytes(u.len() as u64);
            assert(b == seq![0x05u8] + lb + u);
            lemma_holds_split(s, pos, seq![0x05u8] + lb, u);
            lemma_holds_split(s, pos, seq![0x05u8], lb);
            lemma_varint_at(s, pos + 1, u.len() as u64);
            encode_utf8_valid_utf8(st);
            encode_utf8_decode_utf8(st);
            let start = pos + 1 + lb.len();
            assert(s.subrange(start as int, (start + u.len()) as int) == u);
            assert((u.len() as u64) as nat == u.len());
        },
        Json::Arr(items) => {
            let n = items.len();
            let lb = varint_bytes(n as u64);
            let ib = items_bytes(items, n, index, true);
            assert(b == seq![0x09u8] + lb + ib);
            lemma_holds_split(s, pos, seq![0x09u8] + lb, ib);
            lemma_holds_split(s, pos, seq![0x09u8], lb);
            lemma_varint_at(s, pos + 1, n as u64);
            assert(items.subrange(0, 0) =~= Seq::<Json>::empty());
            lemma_parse_fast_items(items, index, cache, s, pos + 1 + lb.len(), 0);
        },
        Json::Obj(fields) => {
            let n = fields.len();
            let lb = varint_bytes(n as u64);
            let fb = fields_bytes(fields, n, index, true);
            assert(b == seq![0x0Au8] + lb + fb);
            lemma_holds_split(s, pos, seq![0x0Au8] + lb, fb);
            lemma_holds_split(s, pos, seq![0x0Au8], lb);
            lemma_varint_at(s, pos + 1, n as u64);
            assert(fields.subrange(0, 0) =~= Seq::<(Seq<char>, Json)>::empty());
            lemma_parse_fast_fields(fields, index, cache, s, pos + 1 + lb.len(), 0);
        },
    }
}

/// Reading the items from the `k`-th on, after the first `k`, gives all of them.
proof fn lemma_parse_fast_items(items: Seq<Json>, index: Map<Seq<char>, u16>, cache: Seq<Seq<char>>, s: Seq<u8>,
    p: nat, k: nat)
    requires
        k <= items.len(),
        items_wf(items, items.len()),
        fast_keys_resolve(items_keys(items, items.len()), index, cache),
        holds_at(s, p, items_bytes(items, items.len(), index, true)),
    ensures
        parse_fast_items(s, p + items_bytes(items, k, index, true).len(), (items.len() - k) as nat, cache,
            items.subrange(0, k as int))
            == Ok::<(Seq<Json>, nat), FluxPackError>((
                items,
                (items_bytes(items, items.len(), index, true).len() - items_bytes(items, k, index, true).len()) as nat,
            )),
    decreases items, items.len() - k,
{
    let n = items.len();
    let all = items_bytes(items, n, index, true);
    let pre = items_bytes(items, k, index, true);
    lemma_items_bytes_prefix(items, k, n, index);
    if k == n {
        assert(items.subrange(0, k as int) =~= items);
    } else {
        let next = items_bytes(items, k + 1, index, true);
        let vb = value_bytes(items[k as int], index, true);
        assert(next == pre + vb);
        lemma_items_bytes_prefix(items, k + 1, n, index);
        lemma_holds_split(s, p, next, all.skip(next.len() as int));
        lemma_holds_split(s, p, pre, vb);
        lemma_items_wf(items, n, k as int);
        lemma_items_keys_contain(items, n, k as int);
        assert(decreases_to!(items => items[k as int]));
        lemma_parse_fast_value(items[k as int], index, cache, s, p + pre.len());
        assert(items.subrange(0, k as int).push(items[k as int]) =~= items.subrange(0, (k + 1) as int));
        lemma_parse_fast_items(items, index, cache, s, p, k + 1);
    }
}

/// Reading the fields from the `k`-th on, after the first `k`, gives all of them, when
/// their keys are distinct.
proof fn lemma_parse_fast_fields(fields: Seq<(Seq<char>, Json)>, index: Map<Seq<char>, u16>, cache: Seq<Seq<char>>,
    s: Seq<u8>, p: nat, k: nat)
    requires
        k <= fields.len(),
        fields_wf(fields, fields.len()),
        keys_distinct(fields),
        fast_keys_resolve(fields_keys(fields, fields.len()), index, cache),
        holds_at(s, p, fields_bytes(fields, fields.len(), index, true)),
    ensures
        parse_fast_fields(s, p + fields_bytes(fields, k, index, true).len(), (fields.len() - k) as nat, cache,
            fields.subrange(0, k as int))
            == Ok::<(Seq<(Seq<char>, Json)>, nat), FluxPackError>((
                fields,
                (fields_bytes(fields, fields.len(), index, true).len() - fields_bytes(fields, k, index, true).len()) as nat,
            )),
    decreases fields, fields.len() - k,
{
    let n = fields.len();
    let all = fields_bytes(fields, n, index, true);
    let pre = fields_bytes(fields, k, index, true);
    lemma_fields_bytes_prefix(fields, k, n, index);
    if k == n {
        assert(fields.subrange(0, k as int) =~= fields);
    } else {
        let key = fields[k as int].0;
        let val = fields[k as int].1;
        let tb = varint_bytes(index[key] as u64);
        let vb = value_bytes(val, index, true);
        let next = fields_bytes(fields, k + 1, index, true);
        assert(next == pre + tb + vb);
        lemma_fields_bytes_prefix(fields, k + 1, n, index);
        lemma_holds_split(s, p, next, all.skip(next.len() as int));
        lemma_holds_split(s, p, pre + tb, vb);
        lemma_holds_split(s, p, pre, tb);
        lemma_fields_wf(fields, n, k as int);
        lemma_fields_keys_contain(fields, n, k as int);
        lemma_varint_at(s, p + pre.len(), index[key] as u64);
        lemma_token_of(index[key]);
        assert(decreases_to!(fields => fields[k as int]));
        assert(decreases_to!(fields[k as int] => fields[k as int].1));
        lemma_parse_fast_value(val, index, cache, s, p + pre.len() + tb.len());
        let acc = fields.subrange(0, k as int);
        assert forall|j: int| 0 <= j < acc.len() implies #[trigger] acc[j].0 != key by {
            assert(acc[j] == fields[j]);
        }
        lemma_find_key_none(acc, key, 0);
        assert(obj_insert(acc, key, val) =~= fields.subrange(0, (k + 1) as int));
        lemma_parse_fast_fields(fields, index, cache, s, p, k + 1);
    }
}

/// The fast decoder's state after storing each `(token, key)` of `q`, in order.
pub open spec fn fast_store_all(m: FastModel, q: Seq<(u16, Seq<char>)>) -> FastModel
    decreases q.len(),
{
    if q.len() == 0 {
        m
    } else {
        fast_store_all(m.store_def(q[0].0, q[0].1).1, q.drop_first())
    }
}

/// The cache holds the common keys under tokens 1 to 20, and from token 21 on only keys
/// that the table `e` gives for their tokens.
pub open spec fn fast_agrees(e: TableModel, cache: Seq<Seq<char>>) -> bool {
    &&& cache.len() >= 21
    &&& forall|t: int| 1 <= t <= 20 ==> #[trigger] cache[t] == common_key(t - 1)
    &&& forall|t: int| 21 <= t < cache.len() && cache[t].len() > 0 ==> e.resolve(t as u16) == Some(#[trigger] cache[t])
}

/// Reading the DEF frames of `q` (tokens from 21 on, each with the key `e` gives it) with
/// the fast decoder caches their keys, then goes on after them.
proof fn lemma_fast_defs(s: Seq<u8>, pos: nat, q: Seq<(u16, Seq<char>)>, m: FastModel, e: TableModel)
    requires
        holds_at(s, pos, defs_bytes(q)),
        forall|i: int| 0 <= i < q.len() ==> encode_utf8(#[trigger] q[i].1).len() <= u64::MAX,
        forall|i: int| 0 <= i < q.len() ==> e.resolve(#[trigger] q[i].0) == Some(q[i].1) && 21 <= q[i].0 <= MAX_TOKENS,
        fast_agrees(e, m.keys),
    ensures
        fast_decode_frames(s, pos, m) == fast_decode_frames(s, pos + defs_bytes(q).len(), fast_store_all(m, q)),
        fast_agrees(e, fast_store_all(m, q).keys),
        forall|i: int| 0 <= i < q.len() ==> cache_get(fast_store_all(m, q).keys, #[trigger] q[i].0) == Some(q[i].1),
    decreases q.len(),
{
    if q.len() > 0 {
        let x = q[0];
        let rest = q.drop_first();
        assert(q =~= seq![x] + rest);
        lemma_defs_bytes_concat(seq![x], rest);
        assert(seq![x].drop_last() =~= Seq::<(u16, Seq<char>)>::empty());
        let xb = defs_bytes(seq![x]);
        let tb = varint_bytes(x.0 as u64);
        let kb = str_bytes(x.1);
        assert(seq![x].last() == x);
        assert(defs_bytes(Seq::<(u16, Seq<char>)>::empty()) == Seq::<u8>::empty());
        assert(xb =~= seq![0x01u8] + tb + kb);
        lemma_holds_split(s, pos, xb, defs_bytes(rest));
        lemma_holds_split(s, pos, seq![0x01u8] + tb, kb);
        lemma_holds_split(s, pos, seq![0x01u8], tb);
        assert(s[pos as int] == 0x01u8) by {
            assert(s.subrange(pos as int, (pos + 1) as int)[0] == s[pos as int]);
        }
        lemma_varint_at(s, pos + 1, x.0 as u64);
        let u = encode_utf8(x.1);
        let lb = varint_bytes(u.len() as u64);
        assert(kb == lb + u);
        lemma_holds_split(s, pos + 1 + tb.len(), lb, u);
        lemma_varint_at(s, pos + 1 + tb.len(), u.len() as u64);
        encode_utf8_valid_utf8(x.1);
        encode_utf8_decode_utf8(x.1);
        let start = pos + 1 + tb.len() + lb.len();
        assert(s.subrange(start as int, (start + u.len()) as int) == u);
        assert(encode_utf8(q[0].1).len() <= u64::MAX);
        assert((u.len() as u64) as nat == u.len());
        assert(parse_def(s, pos + 1) == Ok::<(u64, Seq<char>, nat), FluxPackError>(
            (x.0 as u64, x.1, tb.len() + kb.len())));
        lemma_token_of(x.0);
        assert(e.resolve(q[0].0) == Some(q[0].1) && 21 <= q[0].0 <= MAX_TOKENS);
        let m1 = m.store_def(x.0, x.1).1;
        let c0 = m.keys;
        let c1 = m1.keys;
        assert(c1 == cache_put(c0, x.0, x.1));
        assert(cache_get(c1, x.0) == Some(x.1)) by {
            if (x.0 as int) < c0.len() && c0[x.0 as int].len() > 0 {
                assert(e.resolve(x.0) == Some(c0[x.0 as int]));
            }
        }
        assert forall|t: int| 21 <= t < c1.len() && c1[t].len() > 0 implies e.resolve(t as u16) == Some(#[trigger] c1[t]) by {
            if t != x.0 as int {
                assert(c1[t] == (if t < c0.len() { c0[t] } else { Seq::<char>::empty() }));
            }
        }
        assert forall|t: int| 1 <= t <= 20 implies #[trigger] c1[t] == common_key(t - 1) by {
            assert(c1[t] == c0[t]);
        }
        assert forall|i: int| 0 <= i < rest.len() implies encode_utf8(#[trigger] rest[i].1).len() <= u64::MAX
            && e.resolve(rest[i].0) == Some(rest[i].1) && 21 <= rest[i].0 <= MAX_TOKENS by {
            assert(rest[i] == q[i + 1]);
        }
        lemma_fast_defs(s, pos + xb.len(), rest, m1, e);
        let m2 = fast_store_all(m, q);
        assert(m2 == fast_store_all(m1, rest));
        assert forall|i: int| 0 <= i < q.len() implies cache_get(m2.keys, #[trigger] q[i].0) == Some(q[i].1) by {
            if i > 0 {
                assert(rest[i - 1] == q[i]);
            } else {
                // a cached key stays: the agreement pins it
                let t = x.0 as int;
                assert(t < c1.len() && c1[t].len() > 0);
                lemma_fast_keeps(m1, rest, e, t);
            }
        }
    } else {
        assert(defs_bytes(q) =~= Seq::<u8>::empty());
    }
}

/// A key the cache holds from token 21 on stays through more DEF frames that agree with `e`.
proof fn lemma_fast_keeps(m: FastModel, q: Seq<(u16, Seq<char>)>, e: TableModel, t: int)
    requires
        fast_agrees(e, m.keys),
        forall|i: int| 0 <= i < q.len() ==> e.resolve(#[trigger] q[i].0) == Some(q[i].1) && 21 <= q[i].0 <= MAX_TOKENS,
        21 <= t < m.keys.len(),
        m.keys[t].len() > 0,
    ensures
        t < fast_store_all(m, q).keys.len(),
        fast_store_all(m, q).keys[t] == m.keys[t],
    decreases q.len(),
{
    if q.len() > 0 {
        let x = q[0];
        let m1 = m.store_def(x.0, x.1).1;
        let c0 = m.keys;
        let c1 = m1.keys;
        assert(e.resolve(q[0].0) == Some(q[0].1) && 21 <= q[0].0 <= MAX_TOKENS);
        assert(c1[t] == c0[t]);
        assert forall|t2: int| 21 <= t2 < c1.len() && c1[t2].len() > 0 implies e.resolve(t2 as u16) == Some(#[trigger] c1[t2]) by {
            if t2 != x.0 as int {
                assert(c1[t2] == (if t2 < c0.len() { c0[t2] } else { Seq::<char>::empty() }));
            } else if (x.0 as int) < c0.len() && c0[x.0 as int].len() > 0 {
                assert(c1[t2] == c0[t2]);
            }
        }
        assert forall|t2: int| 1 <= t2 <= 20 implies #[trigger] c1[t2] == common_key(t2 - 1) by {
            assert(c1[t2] == c0[t2]);
        }
        assert forall|i: int| 0 <= i < q.drop_first().len() implies e.resolve(#[trigger] q.drop_first()[i].0)
            == Some(q.drop_first()[i].1) && 21 <= q.drop_first()[i].0 <= MAX_TOKENS by {
            assert(q.drop_first()[i] == q[i + 1]);
        }
        lemma_fast_keeps(m1, q.drop_first(), e, t);
    }
}

/// Interning keys keeps the DEF flags already there and adds clear ones.
proof fn lemma_intern_all_emitted(t: TableModel, ks: Seq<Seq<char>>)
    ensures
        intern_all(t, ks).1.emitted.len() >= t.emitted.len(),
        forall|i: int| 0 <= i < t.emitted.len() ==> #[trigger] intern_all(t, ks).1.emitted[i] == t.emitted[i],
        forall|i: int| t.emitted.len() <= i < intern_all(t, ks).1.emitted.len() ==> !#[trigger] intern_all(t, ks).1.emitted[i],
    decreases ks.len(),
{
    if ks.len() > 0 {
        let t1 = t.intern(ks[0]).1;
        lemma_intern_all_emitted(t1, ks.drop_first());
        let t2 = intern_all(t1, ks.drop_first()).1;
        if t.intern(ks[0]).0 is Ok {
            assert forall|i: int| 0 <= i < t.emitted.len() implies #[trigger] t2.emitted[i] == t.emitted[i] by {
                assert(t1.emitted[i] == t.emitted[i]);
            }
            assert forall|i: int| t.emitted.len() <= i < t2.emitted.len() implies !#[trigger] t2.emitted[i] by {
                if i < t1.emitted.len() {
                    assert(!t1.emitted[i]);
                }
            }
        }
    }
}

/// Law: the fast decoder, new, reads back what a new encoder wrote for a well-formed object.
#[verifier::rlimit(60)]
pub proof fn law_fresh_fast_decode(fields: Seq<(Seq<char>, Json)>, fp: u64)
    requires
        json_wf(Json::Obj(fields)),
        encode_outcome(fresh_encoder(), fields, fp).0 is Ok,
    ensures
        encode_outcome(fresh_encoder(), fields, fp).1.output.len() > 0,
        encode_outcome(fresh_encoder(), fields, fp).1.output[0] != INLINE_MAGIC,
        fast_decode_frames(encode_outcome(fresh_encoder(), fields, fp).1.output, 0, fresh_fast_model()).0
            == Ok::<Json, FluxPackError>(Json::Obj(fields)),
{
    let pm = predefined_model();
    let n = fields.len();
    let ks = fields_keys(fields, n);
    let t1 = intern_all(pm, ks).1;
    let t2 = TableModel { fp, ..t1 };
    let p = t2.pending();
    let out = encode_outcome(fresh_encoder(), fields, fp).1.output;
    let defs = defs_bytes(p);
    let dfb = data_frame_bytes(fields, t1.index, true);
    assert(out == defs + dfb);
    lemma_fresh_in_sync();
    lemma_fields_keys_wf(fields, n);
    lemma_intern_all_keeps(pm, ks);
    lemma_intern_all_sync(pm, pm, ks);
    lemma_fp_sync(t1, pm, fp);
    lemma_intern_all_emitted(pm, ks);
    lemma_pending_resolve(t2, 0);
    // the pre-defined tokens count as sent; a token from 21 on does not
    assert forall|t: int| 0 <= t <= 20 implies #[trigger] t2.def_emitted(t as u16) by {
        assert(t2.emitted[t] == pm.emitted[t]);
    }
    assert forall|t: int| 21 <= t < t2.next implies !#[trigger] t2.def_emitted(t as u16) by {
        if t < t2.emitted.len() {
            assert(!t2.emitted[t]);
        }
    }
    // the pending entries: tokens from 21 on, each with its key
    assert forall|i: int| 0 <= i < p.len() implies encode_utf8(#[trigger] p[i].1).len() <= u64::MAX
        && t2.resolve(p[i].0) == Some(p[i].1) && 21 <= p[i].0 <= MAX_TOKENS by {
        assert(t2.resolve(p[i].0) == Some(p[i].1));
        let t = p[i].0;
        lemma_pending_entries_flagged(t2, 0, i);
        if t <= 20 {
            assert(t2.def_emitted(t as int as u16));
        }
    }
    // the output begins with a DEF frame, or with the DATA frame when nothing is pending
    assert(dfb[0] == 0x02u8);
    if p.len() > 0 {
        lemma_defs_bytes_concat(seq![p[0]], p.drop_first());
        assert(p =~= seq![p[0]] + p.drop_first());
        assert(seq![p[0]].drop_last() =~= Seq::<(u16, Seq<char>)>::empty());
        assert(defs_bytes(Seq::<(u16, Seq<char>)>::empty()) == Seq::<u8>::empty());
        assert(defs_bytes(seq![p[0]])[0] == 0x01u8);
        assert(out[0] == 0x01u8);
    } else {
        assert(defs =~= Seq::<u8>::empty());
        assert(out =~= dfb);
    }
    // the DEF frames
    assert(holds_at(out, 0, defs)) by {
        assert(out.subrange(0, defs.len() as int) =~= defs);
    }
    let m0 = fresh_fast_model();
    lemma_fast_defs(out, 0, p, m0, t2);
    let m2 = fast_store_all(m0, p);
    // every key of the message is cached under its token
    assert forall|k: Seq<char>| #[trigger] ks.contains(k) implies t1.index.dom().contains(k)
        && cache_get(m2.keys, t1.index[k]) == Some(k) by {
        let t = t1.index[k];
        assert(key_wf(k));
        assert(t2.resolve(t) == Some(k));
        if t <= 20 {
            assert(pm.keys[t as int] == t2.keys[t as int]);
            assert(t >= 1);
            assert(k == common_key(t - 1));
            lemma_common_key_nonempty(t - 1);
            assert(m2.keys[t as int] == common_key(t - 1));
        } else {
            assert(t2.cache[t - 1] == t);
            assert(!t2.def_emitted(t));
            lemma_pending_has(t2, 0, t - 1);
            let j = choose|j: int| 0 <= j < p.len() && (#[trigger] p[j]).0 == t;
            assert(cache_get(m2.keys, p[j].0) == Some(p[j].1));
        }
    }
    // the DATA frame
    assert(holds_at(out, defs.len(), dfb)) by {
        assert(out.subrange(defs.len() as int, (defs.len() + dfb.len()) as int) =~= dfb);
    }
    let lb = varint_bytes(n as u64);
    let fb = fields_bytes(fields, n, t1.index, true);
    lemma_holds_split(out, defs.len(), seq![0x02u8] + lb, fb);
    lemma_holds_split(out, defs.len(), seq![0x02u8], lb);
    assert(out[defs.len() as int] == 0x02u8) by {
        assert(out.subrange(defs.len() as int, (defs.len() + 1) as int)[0] == out[defs.len() as int]);
    }
    lemma_varint_at(out, defs.len() + 1, n as u64);
    assert(fields.subrange(0, 0) =~= Seq::<(Seq<char>, Json)>::empty());
    lemma_parse_fast_fields(fields, t1.index, m2.keys, out, defs.len() + 1 + lb.len(), 0);
}

/// A pending entry's token has no DEF sent and a key.
proof fn lemma_pending_entries_flagged(e: TableModel, i: int, j: int)
    requires
        0 <= i,
        0 <= j < e.pending_from(i).len(),
    ensures
        !e.def_emitted(e.pending_from(i)[j].0),
        e.resolve(e.pending_from(i)[j].0) is Some,
    decreases e.cache.len() - i,
{
    if i < e.cache.len() {
        let t = e.cache[i];
        let rest = e.pending_from(i + 1);
        if !e.def_emitted(t) && e.resolve(t) is Some {
            if j > 0 {
                assert(e.pending_from(i)[j] == rest[j - 1]);
                lemma_pending_entries_flagged(e, i + 1, j - 1);
            }
        } else {
            lemma_pending_entries_flagged(e, i + 1, j);
        }
    }
}

} // verus!
