//! What a stream reader reads back of what a stream writer wrote.
use vstd::prelude::*;
use vstd::utf8::{encode_utf8, encode_utf8_valid_utf8, encode_utf8_decode_utf8};
use crate::error::FluxPackError;
use crate::json::{Json, JsonNumber};
use crate::symbol_table::{TableModel, predefined_model, common_key, keys_in, lemma_intern_keeps, lemma_predefined_wf};
use crate::varint::{varint_bytes, signed_varint_bytes};
use crate::wire::{json_wf, items_wf, fields_wf, key_wf, value_bytes, items_bytes, fields_bytes, json_keys,
    items_keys, fields_keys, str_bytes, data_frame_bytes, parse_def, remaining};
use crate::roundtrip::{holds_at, lemma_holds_split, lemma_varint_at, keys_resolve, lemma_decode_data_frame,
    lemma_json_keys_wf, lemma_fresh_in_sync};
use crate::stream::{WriterModel, def_frame_bytes, write_def_step, write_defs, stream_value_bytes, stream_items_bytes,
    stream_fields_bytes, stream_data_bytes, write_data_outcome, write_all_outcome, fresh_writer, FrameModel, read_step, read_all_frames,
    lemma_write_defs_keeps, lemma_unit_ok, stream_frames_bytes, write_batch_outcome, lemma_leading_bounds};
use crate::encoder::{batch_keys, leading_objects};
use crate::batch_laws::{lemma_batch_keys_wf, lemma_batch_keys_contain};
use crate::MAX_TOKENS;

verus! {

/// No integer above `i64::MAX` anywhere in the value (the stream writer sends those as
/// doubles).
pub open spec fn no_uint(v: Json) -> bool
    decreases v, 0nat,
{
    match v {
        Json::Num(JsonNumber::UInt(_)) => false,
        Json::Arr(items) => items_no_uint(items, items.len()),
        Json::Obj(fields) => fields_no_uint(fields, fields.len()),
        _ => true,
    }
}

pub open spec fn items_no_uint(items: Seq<Json>, n: nat) -> bool
    decreases items, n,
{
    if n == 0 || n > items.len() {
        true
    } else {
        items_no_uint(items, (n - 1) as nat) && no_uint(items[n - 1])
    }
}

pub open spec fn fields_no_uint(fields: Seq<(Seq<char>, Json)>, n: nat) -> bool
    decreases fields, n,
{
    if n == 0 || n > fields.len() {
        true
    } else {
        fields_no_uint(fields, (n - 1) as nat) && no_uint(fields[n - 1].1)
    }
}

/// Without such integers, the stream writer writes a value as the standard encoder does.
pub proof fn lemma_stream_value_bytes(v: Json, index: Map<Seq<char>, u16>)
    requires
        no_uint(v),
    ensures
        stream_value_bytes(v, index) == value_bytes(v, index, true),
    decreases v, 0nat,
{
    match v {
        Json::Arr(items) => {
            lemma_stream_items_bytes(items, items.len(), index);
        },
        Json::Obj(fields) => {
            lemma_stream_fields_bytes(fields, fields.len(), index);
        },
        _ => {},
    }
}

proof fn lemma_stream_items_bytes(items: Seq<Json>, n: nat, index: Map<Seq<char>, u16>)
    requires
        items_no_uint(items, n),
    ensures
        stream_items_bytes(items, n, index) == items_bytes(items, n, index, true),
    decreases items, n,
{
    if n > 0 && n <= items.len() {
        lemma_stream_items_bytes(items, (n - 1) as nat, index);
        assert(decreases_to!(items => items[n - 1]));
        lemma_stream_value_bytes(items[n - 1], index);
    }
}

proof fn lemma_stream_fields_bytes(fields: Seq<(Seq<char>, Json)>, n: nat, index: Map<Seq<char>, u16>)
    requires
        fields_no_uint(fields, n),
    ensures
        stream_fields_bytes(fields, n, index) == fields_bytes(fields, n, index, true),
    decreases fields, n,
{
    if n > 0 && n <= fields.len() {
        lemma_stream_fields_bytes(fields, (n - 1) as nat, index);
        assert(decreases_to!(fields => fields[n - 1]));
        assert(decreases_to!(fields[n - 1] => fields[n - 1].1));
        lemma_stream_value_bytes(fields[n - 1].1, index);
    }
}

/// A writer's table `w` and a reader's table `r` agree: every token the reader has a key
/// for carries the same key in the writer, and every token whose DEF the writer counts as
/// sent resolves in the reader to the writer's key.
pub open spec fn stream_sync(w: TableModel, r: TableModel) -> bool {
    &&& w.wf()
    &&& w.emitted.len() <= w.next
    &&& forall|t: int| 0 <= t < w.keys.len() ==> encode_utf8(#[trigger] w.keys[t]).len() <= u64::MAX
    &&& forall|t: int| 0 <= t < r.keys.len() && (#[trigger] r.keys[t]).len() > 0 ==>
            t < w.keys.len() && w.keys[t] == r.keys[t]
    &&& forall|t: int| 0 <= t < w.keys.len() && #[trigger] w.def_emitted(t as u16) && w.keys[t].len() > 0 ==>
            r.resolve(t as u16) == Some(w.keys[t])
}

/// A fresh writer and a fresh reader agree.
pub proof fn lemma_fresh_stream_sync()
    ensures
        stream_sync(predefined_model(), predefined_model()),
{
    lemma_predefined_wf();
    lemma_fresh_in_sync();
    let m = predefined_model();
    assert forall|t: int| 0 <= t < m.keys.len() && #[trigger] m.def_emitted(t as u16) && m.keys[t].len() > 0 implies
        m.resolve(t as u16) == Some(m.keys[t]) by {
        assert((t as u16) as int == t);
    }
}

/// Writing the DEF of one key, and the reader storing what was written, keeps the pair in
/// sync; afterwards the key has a token whose DEF counts as sent, and what counted as sent
/// still does.
proof fn lemma_def_step_sync(w: TableModel, r: TableModel, k: Seq<char>)
    requires
        stream_sync(w, r),
        key_wf(k),
        write_def_step(w, k).0 is Ok,
    ensures
        ({
            let (res, w1, b) = write_def_step(w, k);
            let tok = res->Ok_0;
            &&& w1.index.dom().contains(k) && w1.index[k] == tok && w1.def_emitted(tok)
            &&& forall|t: u16| #[trigger] w.def_emitted(t) ==> w1.def_emitted(t)
            &&& forall|k2: Seq<char>| #[trigger] w.index.dom().contains(k2) ==>
                    w1.index.dom().contains(k2) && w1.index[k2] == w.index[k2]
            &&& b.len() == 0 ==> stream_sync(w1, r)
            &&& b.len() > 0 ==> b == def_frame_bytes(tok, k) && tok <= MAX_TOKENS
                    && r.store_def(tok, k).0 is Ok && stream_sync(w1, r.store_def(tok, k).1)
        }),
{
    let (ri, wi) = w.intern(k);
    lemma_intern_keeps(w, k);
    let tok = ri->Ok_0;
    assert(wi.keys[tok as int] == k);
    let fresh = !w.index.dom().contains(k);
    assert forall|t: u16| #[trigger] w.def_emitted(t) implies wi.def_emitted(t) by {
        if fresh {
            assert(wi.emitted[t as int] == w.emitted[t as int]);
        }
    }
    assert(fresh ==> !wi.def_emitted(tok));
    assert(wi.emitted.len() <= wi.next);
    assert forall|t: int| 0 <= t < wi.keys.len() implies encode_utf8(#[trigger] wi.keys[t]).len() <= u64::MAX by {
        if t < w.keys.len() {
            assert(wi.keys[t] == w.keys[t]);
        } else {
            assert(wi.keys[t] == k);
        }
    }
    if wi.def_emitted(tok) {
        assert(!fresh);
        assert(wi == w);
    } else {
        assert(tok <= MAX_TOKENS);
        let w1 = wi.mark(tok);
        let (rs, r1) = r.store_def(tok, k);
        if (tok as int) < r.keys.len() && r.keys[tok as int].len() > 0 {
            assert(tok < w.keys.len() && w.keys[tok as int] == r.keys[tok as int]);
            assert(!fresh);
            assert(r.keys[tok as int] == k);
            assert(r1 == r);
        }
        assert(rs is Ok);
        assert(r1.keys[tok as int] == k);
        assert(w1.keys == wi.keys);
        assert(w1.index == wi.index);
        assert(w1.wf());
        assert forall|t: int| 0 <= t < r1.keys.len() && (#[trigger] r1.keys[t]).len() > 0 implies
            t < w1.keys.len() && w1.keys[t] == r1.keys[t] by {
            if t != tok {
                if t < r.keys.len() {
                    assert(r1.keys[t] == r.keys[t]);
                    assert(w1.keys[t] == w.keys[t]);
                } else {
                    assert(r1.keys[t].len() == 0);
                }
            }
        }
        assert forall|t: int| 0 <= t < w1.keys.len() && #[trigger] w1.def_emitted(t as u16) && w1.keys[t].len() > 0 implies
            r1.resolve(t as u16) == Some(w1.keys[t]) by {
            assert((t as u16) as int == t);
            if t != tok {
                assert(wi.def_emitted(t as u16));
                assert(w.def_emitted(t as u16)) by {
                    if fresh {
                        assert(wi.emitted[t] == if t < w.emitted.len() { w.emitted[t] } else { false });
                    }
                }
                assert(t < w.keys.len());
                assert(w1.keys[t] == w.keys[t]);
                assert(r.resolve(t as u16) == Some(w.keys[t]));
                assert(r1.keys[t] == r.keys[t]);
            }
        }
        assert forall|t: u16| #[trigger] w.def_emitted(t) implies w1.def_emitted(t) by {
            assert(wi.def_emitted(t));
        }
    }
}

/// A DEF frame reads back as its token and key, stored in the reader's table.
proof fn lemma_read_def_frame(s: Seq<u8>, pos: nat, tok: u16, k: Seq<char>, r: TableModel)
    requires
        holds_at(s, pos, def_frame_bytes(tok, k)),
        encode_utf8(k).len() <= u64::MAX,
    ensures
        read_step(s, pos, r) == (
            match r.store_def(tok, k).0 {
                Ok(_) => Ok::<Option<FrameModel>, FluxPackError>(Some(FrameModel::Def(tok, k))),
                Err(e) => Err::<Option<FrameModel>, FluxPackError>(e),
            },
            pos + def_frame_bytes(tok, k).len(),
            r.store_def(tok, k).1,
        ),
{
    let tb = varint_bytes(tok as u64);
    let u = encode_utf8(k);
    let lb = varint_bytes(u.len() as u64);
    assert(def_frame_bytes(tok, k) == seq![0x01u8] + tb + lb + u);
    lemma_holds_split(s, pos, seq![0x01u8] + tb + lb, u);
    lemma_holds_split(s, pos, seq![0x01u8] + tb, lb);
    lemma_holds_split(s, pos, seq![0x01u8], tb);
    assert(s[pos as int] == 0x01u8) by {
        assert(s.subrange(pos as int, (pos + 1) as int)[0] == s[pos as int]);
    }
    lemma_varint_at(s, pos + 1, tok as u64);
    lemma_varint_at(s, pos + 1 + tb.len(), u.len() as u64);
    encode_utf8_valid_utf8(k);
    encode_utf8_decode_utf8(k);
    let start = pos + 1 + tb.len() + lb.len();
    assert(s.subrange(start as int, (start + u.len()) as int) == u);
    assert((u.len() as u64) as nat == u.len());
    assert(((tok as u64) % 0x10000) as u16 == tok) by (bit_vector);
}

/// What a reader does with the DEF frames `write_defs` wrote for `ks`: its table after, and
/// the frames it gives.
pub open spec fn read_defs(w: TableModel, r: TableModel, ks: Seq<Seq<char>>) -> (TableModel, Seq<FrameModel>)
    decreases ks.len(),
{
    if ks.len() == 0 {
        (r, Seq::empty())
    } else {
        let (res, w1, b) = write_def_step(w, ks[0]);
        if b.len() == 0 {
            read_defs(w1, r, ks.drop_first())
        } else {
            let tok = res->Ok_0;
            let r1 = r.store_def(tok, ks[0]).1;
            let (r2, fs) = read_defs(w1, r1, ks.drop_first());
            (r2, seq![FrameModel::Def(tok, ks[0])] + fs)
        }
    }
}

/// The objects of the DATA frames among `fs`, in order.
pub open spec fn data_of(fs: Seq<FrameModel>) -> Seq<Json>
    decreases fs.len(),
{
    if fs.len() == 0 {
        Seq::empty()
    } else {
        data_of(fs.drop_last()) + match fs.last() {
            FrameModel::Data(v) => seq![v],
            _ => Seq::empty(),
        }
    }
}

pub proof fn lemma_data_of_concat(a: Seq<FrameModel>, b: Seq<FrameModel>)
    ensures
        data_of(a + b) == data_of(a) + data_of(b),
    decreases b.len(),
{
    if b.len() == 0 {
        assert(a + b =~= a);
        assert(data_of(a) + Seq::<Json>::empty() =~= data_of(a));
    } else {
        assert((a + b).drop_last() =~= a + b.drop_last());
        assert((a + b).last() == b.last());
        lemma_data_of_concat(a, b.drop_last());
        let tail = match b.last() {
            FrameModel::Data(v) => seq![v],
            _ => Seq::<Json>::empty(),
        };
        assert(data_of(a) + data_of(b.drop_last()) + tail =~= data_of(a) + (data_of(b.drop_last()) + tail));
    }
}

/// The reader goes through the DEF frames `write_defs` wrote, keeping the pair in sync; it
/// gives DEF frames only, and afterwards every key has a token whose DEF counts as sent.
proof fn lemma_read_defs(s: Seq<u8>, pos: nat, w: TableModel, r: TableModel, ks: Seq<Seq<char>>, acc: Seq<FrameModel>)
    requires
        stream_sync(w, r),
        forall|k: Seq<char>| #[trigger] ks.contains(k) ==> key_wf(k),
        write_defs(w, ks).0 is Ok,
        holds_at(s, pos, write_defs(w, ks).2),
    ensures
        stream_sync(write_defs(w, ks).1, read_defs(w, r, ks).0),
        data_of(read_defs(w, r, ks).1) == Seq::<Json>::empty(),
        read_all_frames(s, pos, r, acc) == read_all_frames(s, pos + write_defs(w, ks).2.len(),
            read_defs(w, r, ks).0, acc + read_defs(w, r, ks).1),
        forall|k: Seq<char>| #[trigger] ks.contains(k) ==> write_defs(w, ks).1.index.dom().contains(k)
            && write_defs(w, ks).1.def_emitted(write_defs(w, ks).1.index[k]),
        forall|t: u16| #[trigger] w.def_emitted(t) ==> write_defs(w, ks).1.def_emitted(t),
        forall|k2: Seq<char>| #[trigger] w.index.dom().contains(k2) ==>
            write_defs(w, ks).1.index.dom().contains(k2) && write_defs(w, ks).1.index[k2] == w.index[k2],
    decreases ks.len(),
{
    if ks.len() == 0 {
        assert(acc + Seq::<FrameModel>::empty() =~= acc);
    } else {
        let k = ks[0];
        let rest = ks.drop_first();
        assert(ks.contains(k));
        lemma_def_step_sync(w, r, k);
        let (res, w1, b) = write_def_step(w, k);
        let tok = res->Ok_0;
        assert forall|k2: Seq<char>| #[trigger] rest.contains(k2) implies key_wf(k2) by {
            let i = choose|i: int| 0 <= i < rest.len() && rest[i] == k2;
            assert(ks[i + 1] == k2);
            assert(ks.contains(k2));
        }
        let wb = write_defs(w1, rest).2;
        assert(write_defs(w, ks).2 == b + wb);
        lemma_holds_split(s, pos, b, wb);
        let wf_ = write_defs(w1, rest).1;
        if b.len() == 0 {
            assert(b + wb =~= wb);
            lemma_read_defs(s, pos, w1, r, rest, acc);
        } else {
            let r1 = r.store_def(tok, k).1;
            lemma_read_def_frame(s, pos, tok, k, r);
            let f = FrameModel::Def(tok, k);
            assert(read_all_frames(s, pos, r, acc) == read_all_frames(s, pos + b.len(), r1, acc.push(f)));
            lemma_read_defs(s, pos + b.len(), w1, r1, rest, acc.push(f));
            let fs = read_defs(w1, r1, rest).1;
            assert(acc.push(f) + fs =~= acc + (seq![f] + fs));
            lemma_data_of_concat(seq![f], fs);
            assert(data_of(seq![f]) =~= Seq::<Json>::empty()) by {
                assert(seq![f].drop_last() =~= Seq::<FrameModel>::empty());
                assert(seq![f].last() == f);
                assert(data_of(Seq::<FrameModel>::empty()) == Seq::<Json>::empty());
            }
            assert(Seq::<Json>::empty() + Seq::<Json>::empty() =~= Seq::<Json>::empty());
        }
        assert forall|k2: Seq<char>| #[trigger] ks.contains(k2) implies wf_.index.dom().contains(k2)
            && wf_.def_emitted(wf_.index[k2]) by {
            if k2 == k {
                assert(w1.index.dom().contains(k));
                assert(wf_.index[k] == w1.index[k]);
                assert(wf_.def_emitted(w1.index[k]));
            } else {
                let i = choose|i: int| 0 <= i < ks.len() && ks[i] == k2;
                assert(i > 0);
                assert(rest[i - 1] == k2);
                assert(rest.contains(k2));
            }
        }
    }
}

/// The reader goes through what `write_data` wrote for one message: the DEF frames, then a
/// DATA frame holding the message.
proof fn lemma_read_message(s: Seq<u8>, w: WriterModel, r: TableModel, msg: Json, acc: Seq<FrameModel>)
    requires
        stream_sync(w.table, r),
        json_wf(msg),
        no_uint(msg),
        write_data_outcome(w, msg).0 is Ok,
        holds_at(s, 0, write_data_outcome(w, msg).1.buffer),
    ensures
        ({
            let w1 = write_data_outcome(w, msg).1;
            let (r1, fs) = read_defs(w.table, r, json_keys(msg));
            &&& stream_sync(w1.table, r1)
            &&& read_all_frames(s, w.buffer.len(), r, acc)
                == read_all_frames(s, w1.buffer.len(), r1, acc + fs.push(FrameModel::Data(msg)))
            &&& data_of(fs.push(FrameModel::Data(msg))) == seq![msg]
        }),
{
    let fields = msg->Obj_0;
    let n = fields.len();
    let ks = fields_keys(fields, n);
    assert(json_keys(msg) == ks);
    let (rr, t1, b1) = write_defs(w.table, ks);
    let dfb = stream_data_bytes(fields, t1.index);
    let w1 = write_data_outcome(w, msg).1;
    assert(w1.buffer == w.buffer + b1 + dfb);
    let pos = w.buffer.len();
    lemma_holds_split(s, 0, w.buffer + b1, dfb);
    lemma_holds_split(s, 0, w.buffer, b1);
    lemma_json_keys_wf(msg);
    lemma_read_defs(s, pos, w.table, r, ks, acc);
    let (r1, fs) = read_defs(w.table, r, ks);
    lemma_write_defs_keeps(w.table, ks);
    assert forall|k: Seq<char>| #[trigger] ks.contains(k) implies t1.index.dom().contains(k)
        && r1.resolve(t1.index[k]) == Some(k) by {
        assert(key_wf(k));
        let t = t1.index[k];
        assert(t1.keys[t as int] == k);
        assert(t1.def_emitted(t));
        assert((t as int) as u16 == t);
    }
    assert(keys_resolve(ks, t1.index, r1));
    lemma_stream_fields_bytes(fields, n, t1.index);
    assert(dfb == data_frame_bytes(fields, t1.index, true));
    let pos2 = pos + b1.len();
    lemma_decode_data_frame(s, pos2, fields, t1.index, r1);
    assert(read_step(s, pos2, r1) == (Ok::<Option<FrameModel>, FluxPackError>(Some(FrameModel::Data(msg))),
        pos2 + dfb.len(), r1));
    assert((acc + fs).push(FrameModel::Data(msg)) =~= acc + fs.push(FrameModel::Data(msg)));
    lemma_data_of_concat(fs, seq![FrameModel::Data(msg)]);
    assert(fs.push(FrameModel::Data(msg)) =~= fs + seq![FrameModel::Data(msg)]);
    assert(data_of(seq![FrameModel::Data(msg)]) =~= seq![msg]) by {
        assert(seq![FrameModel::Data(msg)].drop_last() =~= Seq::<FrameModel>::empty());
        assert(seq![FrameModel::Data(msg)].last() == FrameModel::Data(msg));
        assert(data_of(Seq::<FrameModel>::empty()) == Seq::<Json>::empty());
    }
    assert(Seq::<Json>::empty() + seq![msg] =~= seq![msg]);
}

/// Whatever the writes did, the buffer still begins with what it held before them.
proof fn lemma_write_all_prefix(w: WriterModel, msgs: Seq<Json>)
    ensures
        holds_at(write_all_outcome(w, msgs).1.buffer, 0, w.buffer),
    decreases msgs.len(),
{
    if msgs.len() == 0 {
        assert(w.buffer.subrange(0, w.buffer.len() as int) =~= w.buffer);
    } else {
        let (r, w1) = write_data_outcome(w, msgs[0]);
        let x = write_all_outcome(w, msgs).1.buffer;
        assert(holds_at(w1.buffer, 0, w.buffer)) by {
            assert(w1.buffer.subrange(0, w.buffer.len() as int) =~= w.buffer);
        }
        if r is Ok {
            lemma_write_all_prefix(w1, msgs.drop_first());
            assert(x.subrange(0, w.buffer.len() as int) =~= w1.buffer.subrange(0, w.buffer.len() as int));
        }
    }
}

/// Reading on from where a writer's earlier output ended gives, among its DATA frames, the
/// messages written since.
proof fn lemma_read_written(s: Seq<u8>, w: WriterModel, r: TableModel, msgs: Seq<Json>, acc: Seq<FrameModel>)
    requires
        stream_sync(w.table, r),
        forall|i: int| 0 <= i < msgs.len() ==> json_wf(#[trigger] msgs[i]) && no_uint(msgs[i]),
        write_all_outcome(w, msgs).0 is Ok,
        s == write_all_outcome(w, msgs).1.buffer,
    ensures
        read_all_frames(s, w.buffer.len(), r, acc).0 matches Ok(fs) && data_of(fs) == data_of(acc) + msgs,
    decreases msgs.len(),
{
    if msgs.len() == 0 {
        assert(data_of(acc) + msgs =~= data_of(acc));
    } else {
        let m = msgs[0];
        let rest = msgs.drop_first();
        let w1 = write_data_outcome(w, m).1;
        lemma_write_all_prefix(w1, rest);
        assert(json_wf(msgs[0]) && no_uint(msgs[0]));
        lemma_read_message(s, w, r, m, acc);
        let (r1, fs) = read_defs(w.table, r, json_keys(m));
        let acc2 = acc + fs.push(FrameModel::Data(m));
        assert forall|i: int| 0 <= i < rest.len() implies json_wf(#[trigger] rest[i]) && no_uint(rest[i]) by {
            assert(rest[i] == msgs[i + 1]);
        }
        lemma_read_written(s, w1, r1, rest, acc2);
        lemma_data_of_concat(acc, fs.push(FrameModel::Data(m)));
        assert(data_of(acc) + seq![m] + rest =~= data_of(acc) + msgs);
    }
}

/// Law: a fresh stream reader reads back what a fresh stream writer wrote for messages, one
/// `write_data` call each: among the frames `read_all` gives, the DATA frames are the
/// messages, in order. It holds for well-formed messages without integers above `i64::MAX`
/// (the writer sends those as doubles).
pub proof fn law_stream_roundtrip(msgs: Seq<Json>)
    requires
        forall|i: int| 0 <= i < msgs.len() ==> json_wf(#[trigger] msgs[i]) && no_uint(msgs[i]),
        write_all_outcome(fresh_writer(), msgs).0 is Ok,
    ensures
        read_all_frames(write_all_outcome(fresh_writer(), msgs).1.buffer, 0, predefined_model(), Seq::empty()).0
            matches Ok(fs) && data_of(fs) == msgs,
{
    lemma_fresh_stream_sync();
    lemma_read_written(write_all_outcome(fresh_writer(), msgs).1.buffer, fresh_writer(), predefined_model(), msgs,
        Seq::empty());
    assert(data_of(Seq::<FrameModel>::empty()) == Seq::<Json>::empty());
    assert(Seq::<Json>::empty() + msgs =~= msgs);
}


/// The DATA frames the stream writer writes for the first `j` messages begin those for the
/// first `n`.
proof fn lemma_stream_frames_prefix(msgs: Seq<Json>, j: nat, n: nat, index: Map<Seq<char>, u16>)
    requires
        j <= n <= msgs.len(),
    ensures
        stream_frames_bytes(msgs, n, index) =~= stream_frames_bytes(msgs, j, index)
            + stream_frames_bytes(msgs, n, index).skip(stream_frames_bytes(msgs, j, index).len() as int),
        stream_frames_bytes(msgs, j, index).len() <= stream_frames_bytes(msgs, n, index).len(),
    decreases n,
{
    if j < n {
        lemma_stream_frames_prefix(msgs, j, (n - 1) as nat, index);
    }
}

/// When the leading objects reach the end, every message is an object.
proof fn lemma_all_objects(msgs: Seq<Json>, k: int, i: int)
    requires
        0 <= k <= i < msgs.len(),
        leading_objects(msgs, k) == msgs.len(),
    ensures
        msgs[i] is Obj,
    decreases i - k,
{
    if k < i {
        lemma_all_objects(msgs, k + 1, i);
    }
}

/// Reading on through the DATA frames of a batch from its `k`-th message, after frames
/// whose objects are the first `k` messages, gives all the messages.
proof fn lemma_read_batch_from(
    s: Seq<u8>,
    p: nat,
    msgs: Seq<Json>,
    index: Map<Seq<char>, u16>,
    r: TableModel,
    k: nat,
    acc: Seq<FrameModel>,
)
    requires
        k <= msgs.len(),
        forall|i: int| 0 <= i < msgs.len() ==> json_wf(#[trigger] msgs[i]) && no_uint(msgs[i]) && msgs[i] is Obj,
        keys_resolve(batch_keys(msgs, msgs.len()), index, r),
        holds_at(s, p, stream_frames_bytes(msgs, msgs.len(), index)),
        s.len() == p + stream_frames_bytes(msgs, msgs.len(), index).len(),
        data_of(acc) == msgs.subrange(0, k as int),
    ensures
        read_all_frames(s, p + stream_frames_bytes(msgs, k, index).len(), r, acc).0 matches Ok(fs)
            && data_of(fs) == msgs,
    decreases msgs.len() - k,
{
    let n = msgs.len();
    let all = stream_frames_bytes(msgs, n, index);
    let pre = stream_frames_bytes(msgs, k, index);
    lemma_stream_frames_prefix(msgs, k, n, index);
    if k == n {
        assert(msgs.subrange(0, k as int) =~= msgs);
    } else {
        let m = msgs[k as int];
        assert(json_wf(m) && no_uint(m) && m is Obj);
        let fields = m->Obj_0;
        let dfb = stream_data_bytes(fields, index);
        let next = stream_frames_bytes(msgs, k + 1, index);
        assert(next == pre + dfb);
        lemma_stream_frames_prefix(msgs, k + 1, n, index);
        lemma_holds_split(s, p, next, all.skip(next.len() as int));
        lemma_holds_split(s, p, pre, dfb);
        lemma_batch_keys_contain(msgs, n, k as int);
        assert(json_keys(m) == fields_keys(fields, fields.len()));
        assert forall|key: Seq<char>| #[trigger] fields_keys(fields, fields.len()).contains(key) implies
            index.dom().contains(key) && r.resolve(index[key]) == Some(key) by {
            assert(batch_keys(msgs, n).contains(key));
        }
        lemma_stream_fields_bytes(fields, fields.len(), index);
        assert(dfb == data_frame_bytes(fields, index, true));
        let q = p + pre.len();
        lemma_decode_data_frame(s, q, fields, index, r);
        assert(read_step(s, q, r) == (Ok::<Option<FrameModel>, FluxPackError>(Some(FrameModel::Data(m))),
            q + dfb.len(), r));
        let acc2 = acc.push(FrameModel::Data(m));
        assert(acc2.drop_last() =~= acc);
        assert(data_of(acc2) == data_of(acc) + seq![m]);
        assert(msgs.subrange(0, k as int).push(m) =~= msgs.subrange(0, (k + 1) as int));
        assert(data_of(acc) + seq![m] =~= msgs.subrange(0, k as int).push(m));
        lemma_read_batch_from(s, p, msgs, index, r, k + 1, acc2);
    }
}

/// Law: a fresh stream reader reads back what a fresh stream writer's `write_batch` wrote:
/// among the frames `read_all` gives, the DATA frames are the messages, in order. It holds
/// for well-formed messages without integers above `i64::MAX` (the writer sends those as
/// doubles).
pub proof fn law_stream_batch_roundtrip(msgs: Seq<Json>)
    requires
        forall|i: int| 0 <= i < msgs.len() ==> json_wf(#[trigger] msgs[i]) && no_uint(msgs[i]),
        write_batch_outcome(fresh_writer(), msgs).0 is Ok,
    ensures
        read_all_frames(write_batch_outcome(fresh_writer(), msgs).1.buffer, 0, predefined_model(), Seq::empty()).0
            matches Ok(fs) && data_of(fs) == msgs,
{
    let w = fresh_writer();
    let n = msgs.len();
    lemma_leading_bounds(msgs, 0);
    let j = leading_objects(msgs, 0);
    assert(j == n);
    assert forall|i: int| 0 <= i < n implies (#[trigger] msgs[i]) is Obj by {
        lemma_all_objects(msgs, 0, i);
    }
    let ks = batch_keys(msgs, n);
    lemma_batch_keys_wf(msgs, n);
    lemma_fresh_stream_sync();
    let r0 = predefined_model();
    let (rr, t1, b1) = write_defs(w.table, ks);
    assert(rr is Ok);
    let fb = stream_frames_bytes(msgs, n, t1.index);
    let s = write_batch_outcome(w, msgs).1.buffer;
    assert(s == w.buffer + b1 + fb);
    assert(w.buffer + b1 + fb =~= b1 + fb);
    assert(holds_at(s, 0, b1 + fb)) by {
        assert(s.subrange(0, s.len() as int) =~= s);
    }
    lemma_holds_split(s, 0, b1, fb);
    lemma_read_defs(s, 0, w.table, r0, ks, Seq::empty());
    let (r1, fs) = read_defs(w.table, r0, ks);
    lemma_write_defs_keeps(w.table, ks);
    assert forall|k: Seq<char>| #[trigger] ks.contains(k) implies t1.index.dom().contains(k)
        && r1.resolve(t1.index[k]) == Some(k) by {
        assert(key_wf(k));
        let t = t1.index[k];
        assert(t1.keys[t as int] == k);
        assert(t1.def_emitted(t));
        assert((t as int) as u16 == t);
    }
    assert(Seq::<FrameModel>::empty() + fs =~= fs);
    assert(msgs.subrange(0, 0) =~= Seq::<Json>::empty());
    assert(stream_frames_bytes(msgs, 0, t1.index) =~= Seq::<u8>::empty());
    lemma_read_batch_from(s, b1.len(), msgs, t1.index, r1, 0, fs);
}

} // verus!
