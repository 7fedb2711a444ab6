//! What a decoder reads back of a batch: `decode_all` on the output of `encode_batch`.
use vstd::prelude::*;
use vstd::utf8::{encode_utf8, encode_utf8_valid_utf8, encode_utf8_decode_utf8};
use crate::error::FluxPackError;
use crate::json::Json;
use crate::symbol_table::{TableModel, intern_all, mark_all, lemma_intern_all_keeps, lemma_pending_tokens};
use crate::varint::varint_bytes;
use crate::wire::{json_wf, key_wf, json_keys, fields_keys, str_bytes, defs_bytes, data_frame_bytes, parse_def};
use crate::decoder::decode_all_frames;
use crate::encoder::{EncoderModel, batch_keys, frames_bytes, leading_objects, batch_outcome, encode_outcome, fp_fits,
    fresh_encoder, data_only_outcome};
use crate::parallel::concat_parts;
use crate::symbol_table::{predefined_model, keys_in, lemma_mark_all_keeps};
use crate::roundtrip::{holds_at, lemma_holds_split, lemma_varint_at, keys_resolve, in_sync, def_keys,
    lemma_defs_bytes_concat, lemma_contains_concat, lemma_json_keys_wf, lemma_intern_all_sync, lemma_pending_sync,
    lemma_pending_entries, lemma_keys_resolve, lemma_decode_data_frame, lemma_fresh_in_sync, unsent};

verus! {

/// Reading the DEF frames of `q` with `decode_all` interns their keys in order, then goes on
/// after them.
proof fn lemma_decode_all_defs(s: Seq<u8>, pos: nat, q: Seq<(u16, Seq<char>)>, d: TableModel, acc: Seq<Json>)
    requires
        holds_at(s, pos, defs_bytes(q)),
        forall|i: int| 0 <= i < q.len() ==> encode_utf8(#[trigger] q[i].1).len() <= u64::MAX,
        intern_all(d, def_keys(q)).0 is Ok,
    ensures
        decode_all_frames(s, pos, d, acc) == decode_all_frames(s, pos + defs_bytes(q).len(),
            intern_all(d, def_keys(q)).1, acc),
    decreases q.len(),
{
    if q.len() == 0 {
        assert(def_keys(q) =~= Seq::<Seq<char>>::empty());
    } else {
        let x = q[0];
        let rest = q.drop_first();
        assert(q =~= seq![x] + rest);
        lemma_defs_bytes_concat(seq![x], rest);
        assert(seq![x].drop_last() =~= Seq::<(u16, Seq<char>)>::empty());
        let xb = defs_bytes(seq![x]);
        let tb = varint_bytes(x.0 as u64);
        let kb = str_bytes(x.1);
        assert(seq![x].last() == x);
        assert(defs_bytes(Seq::<(u16, Seq<char>)>::empty()) == Seq::<u8>::empty());
        assert(xb =~= seq![0x01u8] + tb + kb);
        lemma_holds_split(s, pos, xb, defs_bytes(rest));
        lemma_holds_split(s, pos, seq![0x01u8] + tb, kb);
        lemma_holds_split(s, pos, seq![0x01u8], tb);
        assert(s[pos as int] == 0x01u8) by {
            assert(s.subrange(pos as int, (pos + 1) as int)[0] == s[pos as int]);
        }
        lemma_varint_at(s, pos + 1, x.0 as u64);
        let u = encode_utf8(x.1);
        let lb = varint_bytes(u.len() as u64);
        assert(kb == lb + u);
        lemma_holds_split(s, pos + 1 + tb.len(), lb, u);
        lemma_varint_at(s, pos + 1 + tb.len(), u.len() as u64);
        encode_utf8_valid_utf8(x.1);
        encode_utf8_decode_utf8(x.1);
        let start = pos + 1 + tb.len() + lb.len();
        assert(s.subrange(start as int, (start + u.len()) as int) == u);
        assert(encode_utf8(q[0].1).len() <= u64::MAX);
        assert((u.len() as u64) as nat == u.len());
        assert(parse_def(s, pos + 1) == Ok::<(u64, Seq<char>, nat), FluxPackError>(
            (x.0 as u64, x.1, tb.len() + kb.len())));
        assert(def_keys(q) =~= seq![x.1] + def_keys(rest));
        assert((seq![x.1] + def_keys(rest)).drop_first() =~= def_keys(rest));
        assert forall|i: int| 0 <= i < rest.len() implies encode_utf8(#[trigger] rest[i].1).len() <= u64::MAX by {
            assert(rest[i] == q[i + 1]);
        }
        let (r1, d1) = d.intern(x.1);
        assert(r1 is Ok);
        lemma_decode_all_defs(s, pos + xb.len(), rest, d1, acc);
    }
}

/// Every key of the first `n` messages' objects is one the wire format carries.
pub proof fn lemma_batch_keys_wf(msgs: Seq<Json>, n: nat)
    requires
        n <= msgs.len(),
        forall|i: int| 0 <= i < msgs.len() ==> json_wf(#[trigger] msgs[i]),
    ensures
        forall|k: Seq<char>| #[trigger] batch_keys(msgs, n).contains(k) ==> key_wf(k),
    decreases n,
{
    if n > 0 {
        lemma_batch_keys_wf(msgs, (n - 1) as nat);
        let pre = batch_keys(msgs, (n - 1) as nat);
        let post = match msgs[n - 1] {
            Json::Obj(fields) => fields_keys(fields, fields.len()),
            _ => Seq::empty(),
        };
        assert(json_wf(msgs[n - 1]));
        lemma_json_keys_wf(msgs[n - 1]);
        assert forall|k: Seq<char>| #[trigger] batch_keys(msgs, n).contains(k) implies key_wf(k) by {
            lemma_contains_concat(pre, post, k);
            if post.contains(k) {
                assert(msgs[n - 1] is Obj);
                assert(json_keys(msgs[n - 1]) == post);
            }
        }
    }
}

/// The keys of message `i` are among the keys of the first `n` messages.
pub proof fn lemma_batch_keys_contain(msgs: Seq<Json>, n: nat, i: int)
    requires
        0 <= i < n <= msgs.len(),
        msgs[i] is Obj,
    ensures
        forall|k: Seq<char>| #[trigger] json_keys(msgs[i]).contains(k) ==> batch_keys(msgs, n).contains(k),
    decreases n,
{
    let pre = batch_keys(msgs, (n - 1) as nat);
    let post = match msgs[n - 1] {
        Json::Obj(fields) => fields_keys(fields, fields.len()),
        _ => Seq::empty(),
    };
    if i < n - 1 {
        lemma_batch_keys_contain(msgs, (n - 1) as nat, i);
    }
    assert forall|k: Seq<char>| #[trigger] json_keys(msgs[i]).contains(k) implies batch_keys(msgs, n).contains(k) by {
        lemma_contains_concat(pre, post, k);
    }
}

/// The DATA frames of the first `j` messages begin those of the first `n`.
pub proof fn lemma_frames_bytes_prefix(msgs: Seq<Json>, j: nat, n: nat, index: Map<Seq<char>, u16>)
    requires
        j <= n <= msgs.len(),
    ensures
        frames_bytes(msgs, n, index, true) =~= frames_bytes(msgs, j, index, true)
            + frames_bytes(msgs, n, index, true).skip(frames_bytes(msgs, j, index, true).len() as int),
        frames_bytes(msgs, j, index, true).len() <= frames_bytes(msgs, n, index, true).len(),
    decreases n,
{
    if j < n {
        lemma_frames_bytes_prefix(msgs, j, (n - 1) as nat, index);
    }
}

/// Reading the DATA frames of the messages from the `k`-th on, after the first `k`, gives
/// all of them.
proof fn lemma_decode_frames_from(s: Seq<u8>, p: nat, msgs: Seq<Json>, index: Map<Seq<char>, u16>, d: TableModel, k: nat)
    requires
        k <= msgs.len(),
        forall|i: int| 0 <= i < msgs.len() ==> json_wf(#[trigger] msgs[i]) && msgs[i] is Obj,
        keys_resolve(batch_keys(msgs, msgs.len()), index, d),
        holds_at(s, p, frames_bytes(msgs, msgs.len(), index, true)),
        s.len() == p + frames_bytes(msgs, msgs.len(), index, true).len(),
    ensures
        decode_all_frames(s, p + frames_bytes(msgs, k, index, true).len(), d, msgs.subrange(0, k as int)).0
            == Ok::<Seq<Json>, FluxPackError>(msgs),
    decreases msgs.len() - k,
{
    let n = msgs.len();
    let all = frames_bytes(msgs, n, index, true);
    let pre = frames_bytes(msgs, k, index, true);
    lemma_frames_bytes_prefix(msgs, k, n, index);
    if k == n {
        assert(msgs.subrange(0, k as int) =~= msgs);
    } else {
        let m = msgs[k as int];
        assert(json_wf(m) && m is Obj);
        let fields = m->Obj_0;
        let dfb = data_frame_bytes(fields, index, true);
        let next = frames_bytes(msgs, k + 1, index, true);
        assert(next == pre + dfb);
        lemma_frames_bytes_prefix(msgs, k + 1, n, index);
        lemma_holds_split(s, p, next, all.skip(next.len() as int));
        lemma_holds_split(s, p, pre, dfb);
        lemma_batch_keys_contain(msgs, n, k as int);
        assert(json_keys(m) == fields_keys(fields, fields.len()));
        assert forall|key: Seq<char>| #[trigger] fields_keys(fields, fields.len()).contains(key) implies
            index.dom().contains(key) && d.resolve(index[key]) == Some(key) by {
            assert(batch_keys(msgs, n).contains(key));
        }
        lemma_decode_data_frame(s, p + pre.len(), fields, index, d);
        assert(msgs.subrange(0, k as int).push(m) =~= msgs.subrange(0, (k + 1) as int));
        lemma_decode_frames_from(s, p, msgs, index, d, k + 1);
    }
}

/// Law: a decoder in sync with an encoder reads back a batch: `decode_all` on what
/// `encode_batch` wrote for well-formed objects gives the objects, in order.
pub proof fn law_batch_roundtrip(e: EncoderModel, d: TableModel, msgs: Seq<Json>)
    requires
        in_sync(e.table, d),
        e.zigzag,
        forall|i: int| 0 <= i < msgs.len() ==> json_wf(#[trigger] msgs[i]) && msgs[i] is Obj,
        batch_outcome(e, msgs).0 is Ok,
    ensures
        decode_all_frames(batch_outcome(e, msgs).1.output, 0, d, Seq::empty()).0 == Ok::<Seq<Json>, FluxPackError>(msgs),
{
    let n = msgs.len();
    let out = batch_outcome(e, msgs).1.output;
    if n == 0 {
        assert(out =~= Seq::<u8>::empty());
        assert(msgs =~= Seq::<Json>::empty());
    } else {
        let ks = batch_keys(msgs, n);
        let t1 = intern_all(e.table, ks).1;
        let p = t1.pending();
        lemma_batch_keys_wf(msgs, n);
        lemma_intern_all_keeps(e.table, ks);
        lemma_intern_all_sync(e.table, d, ks);
        assert(leading_objects(msgs, 0) == n) by {
            crate::encoder::lemma_leading_objects(msgs, 0, n as int);
        }
        let defs = defs_bytes(p);
        let fb = frames_bytes(msgs, n, t1.index, true);
        assert(out == defs + fb);
        assert(holds_at(out, 0, defs + fb)) by {
            assert(out.subrange(0, out.len() as int) =~= out);
        }
        lemma_holds_split(out, 0, defs, fb);
        lemma_pending_sync(t1, d, 0);
        lemma_pending_entries(t1, 0);
        assert forall|i: int| 0 <= i < p.len() implies encode_utf8(#[trigger] p[i].1).len() <= u64::MAX by {
            assert(p[i].1 == t1.keys[p[i].0 as int]);
        }
        lemma_decode_all_defs(out, 0, p, d, Seq::empty());
        let d2 = intern_all(d, def_keys(p)).1;
        lemma_keys_resolve(t1, d2, ks);
        assert(msgs.subrange(0, 0) =~= Seq::<Json>::empty());
        assert(frames_bytes(msgs, 0, t1.index, true) =~= Seq::<u8>::empty());
        lemma_decode_frames_from(out, defs.len(), msgs, t1.index, d2, 0);
    }
}

/// Law: a new decoder reads back what a new encoder's `encode_batch` wrote for well-formed
/// objects.
pub proof fn law_fresh_batch_roundtrip(msgs: Seq<Json>)
    requires
        forall|i: int| 0 <= i < msgs.len() ==> json_wf(#[trigger] msgs[i]) && msgs[i] is Obj,
        batch_outcome(fresh_encoder(), msgs).0 is Ok,
    ensures
        decode_all_frames(batch_outcome(fresh_encoder(), msgs).1.output, 0, predefined_model(), Seq::empty()).0
            == Ok::<Seq<Json>, FluxPackError>(msgs),
{
    lemma_fresh_in_sync();
    law_batch_roundtrip(fresh_encoder(), predefined_model(), msgs);
}

/// Interning keys that all have tokens changes nothing.
proof fn lemma_intern_all_present(t: TableModel, ks: Seq<Seq<char>>)
    requires
        keys_in(ks, t.index),
    ensures
        intern_all(t, ks) == (Ok::<(), FluxPackError>(()), t),
    decreases ks.len(),
{
    if ks.len() > 0 {
        assert(t.index.dom().contains(ks[0]));
        assert forall|i: int| 0 <= i < ks.drop_first().len() implies t.index.dom().contains(#[trigger] ks.drop_first()[i]) by {
            assert(ks.drop_first()[i] == ks[i + 1]);
        }
        lemma_intern_all_present(t, ks.drop_first());
    }
}

/// Law: once a message has been encoded, a message whose keys are all among its keys is
/// encoded as its DATA frame alone: every key has a token and the schema fingerprint is the
/// one seen last, so no DEF frame is written.
pub proof fn law_schema_reuse_skips_defs(
    e: EncoderModel,
    f1: Seq<(Seq<char>, Json)>,
    fp1: u64,
    f2: Seq<(Seq<char>, Json)>,
    fp2: u64,
)
    requires
        e.table.wf(),
        encode_outcome(e, f1, fp1).0 is Ok,
        fp_fits(e, f1, fp1),
        forall|k: Seq<char>| #[trigger] fields_keys(f2, f2.len()).contains(k) ==> fields_keys(f1, f1.len()).contains(k),
        fp_fits(encode_outcome(e, f1, fp1).1, f2, fp2),
    ensures
        encode_outcome(encode_outcome(e, f1, fp1).1, f2, fp2).0 is Ok,
        encode_outcome(encode_outcome(e, f1, fp1).1, f2, fp2).1.output
            == data_frame_bytes(f2, encode_outcome(e, f1, fp1).1.table.index, e.zigzag),
{
    let ks1 = fields_keys(f1, f1.len());
    let ks2 = fields_keys(f2, f2.len());
    let t1 = intern_all(e.table, ks1).1;
    lemma_intern_all_keeps(e.table, ks1);
    let t2 = TableModel { fp: fp1, ..t1 };
    let p = t2.pending();
    lemma_mark_all_keeps(t2, p);
    let e1 = encode_outcome(e, f1, fp1).1;
    assert(e1.table.fp == fp1);
    assert(e1.table.index == t1.index);
    assert(e1.prev_fp == fp1);
    assert(fp1 != 0);
    assert forall|i: int| 0 <= i < ks2.len() implies e1.table.index.dom().contains(#[trigger] ks2[i]) by {
        assert(ks2.contains(ks2[i]));
        assert(ks1.contains(ks2[i]));
        let j = choose|j: int| 0 <= j < ks1.len() && ks1[j] == ks2[i];
        assert(t1.index.dom().contains(ks1[j]));
    }
    lemma_intern_all_present(e1.table, ks2);
    assert(fp2 == fp1);
}

/// Each part being its message's DATA frame, the parts one after the other are the DATA
/// frames of the messages.
proof fn lemma_parts_are_frames(msgs: Seq<Json>, parts: Seq<Vec<u8>>, sh: TableModel, j: nat)
    requires
        j <= msgs.len(),
        parts.len() == msgs.len(),
        forall|i: int| 0 <= i < msgs.len() ==> (#[trigger] msgs[i]) is Obj,
        keys_in(batch_keys(msgs, msgs.len()), sh.index),
        forall|i: int| 0 <= i < msgs.len() ==> (#[trigger] parts[i])@
            == data_only_outcome(EncoderModel { table: sh, ..fresh_encoder() }, msgs[i]->Obj_0).1.output,
    ensures
        concat_parts(parts, j) == frames_bytes(msgs, j, sh.index, true),
    decreases j,
{
    if j > 0 {
        lemma_parts_are_frames(msgs, parts, sh, (j - 1) as nat);
        let i = j - 1;
        let f = msgs[i]->Obj_0;
        let fk = fields_keys(f, f.len());
        lemma_batch_keys_contain(msgs, msgs.len(), i);
        assert(json_keys(msgs[i]) == fk);
        assert forall|x: int| 0 <= x < fk.len() implies sh.index.dom().contains(#[trigger] fk[x]) by {
            assert(fk.contains(fk[x]));
            assert(batch_keys(msgs, msgs.len()).contains(fk[x]));
        }
        lemma_intern_all_present(sh, fk);
        assert(parts[i]@ == data_frame_bytes(f, sh.index, true));
    }
}

/// A table's entries are its pending entries once no DEF counts as sent.
proof fn lemma_entries_all_pending(e: TableModel, i: int)
    requires
        e.emitted.len() == 0,
        0 <= i,
    ensures
        e.pending_from(i) == e.entries_from(i),
    decreases e.cache.len() - i,
{
    if i < e.cache.len() {
        lemma_entries_all_pending(e, i + 1);
    }
}

/// Tables with the same tokens and keys have the same entries.
proof fn lemma_entries_same(a: TableModel, b: TableModel, i: int)
    requires
        a.cache == b.cache,
        a.keys == b.keys,
        0 <= i,
    ensures
        a.entries_from(i) == b.entries_from(i),
    decreases a.cache.len() - i,
{
    if i < a.cache.len() {
        lemma_entries_same(a, b, i + 1);
    }
}

/// Law: decoding, with a new decoder, what the parallel batch encoder assembles (the DEF
/// frames of the table of every message's keys, then each message's DATA frame written
/// with that table) gives the messages back, in order.
pub proof fn law_parallel_batch_roundtrip(msgs: Seq<Json>, parts: Seq<Vec<u8>>)
    requires
        forall|i: int| 0 <= i < msgs.len() ==> json_wf(#[trigger] msgs[i]) && msgs[i] is Obj,
        intern_all(predefined_model(), batch_keys(msgs, msgs.len())).0 is Ok,
        parts.len() == msgs.len(),
        forall|i: int| 0 <= i < msgs.len() ==> (#[trigger] parts[i])@ == data_only_outcome(
            EncoderModel { table: intern_all(predefined_model(), batch_keys(msgs, msgs.len())).1, ..fresh_encoder() },
            msgs[i]->Obj_0).1.output,
    ensures
        decode_all_frames(
            defs_bytes(intern_all(predefined_model(), batch_keys(msgs, msgs.len())).1.entries())
                + concat_parts(parts, parts.len()),
            0,
            predefined_model(),
            Seq::empty(),
        ).0 == Ok::<Seq<Json>, FluxPackError>(msgs),
{
    let pm = predefined_model();
    let n = msgs.len();
    let ks = batch_keys(msgs, n);
    let sh = intern_all(pm, ks).1;
    lemma_fresh_in_sync();
    lemma_batch_keys_wf(msgs, n);
    lemma_intern_all_keeps(pm, ks);
    lemma_intern_all_sync(pm, pm, ks);
    // the parts are the DATA frames
    lemma_parts_are_frames(msgs, parts, sh, n);
    let frames = frames_bytes(msgs, n, sh.index, true);
    // the DEF frames of every entry bring a new decoder level with the table
    let e2 = TableModel { emitted: Seq::empty(), ..sh };
    lemma_entries_all_pending(e2, 0);
    lemma_entries_same(e2, sh, 0);
    assert forall|t: int| pm.next <= t < e2.next implies #[trigger] unsent(e2, t) by {
        assert(unsent(sh, t));
    }
    assert(in_sync(e2, pm));
    lemma_pending_sync(e2, pm, 0);
    let q = e2.pending();
    let d2 = intern_all(pm, def_keys(q)).1;
    lemma_keys_resolve(e2, d2, ks);
    lemma_pending_entries(e2, 0);
    assert forall|i: int| 0 <= i < q.len() implies encode_utf8(#[trigger] q[i].1).len() <= u64::MAX by {
        assert(q[i].1 == e2.keys[q[i].0 as int]);
    }
    let defs = defs_bytes(q);
    let out = defs + frames;
    assert(holds_at(out, 0, defs)) by {
        assert(out.subrange(0, defs.len() as int) =~= defs);
    }
    assert(holds_at(out, defs.len(), frames)) by {
        assert(out.subrange(defs.len() as int, (defs.len() + frames.len()) as int) =~= frames);
    }
    lemma_decode_all_defs(out, 0, q, pm, Seq::empty());
    assert(frames_bytes(msgs, 0, sh.index, true) =~= Seq::<u8>::empty());
    assert(msgs.subrange(0, 0) =~= Seq::<Json>::empty());
    lemma_decode_frames_from(out, defs.len(), msgs, sh.index, d2, 0);
}

} // verus!
