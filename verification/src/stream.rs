//! Streaming: a writer that emits DEF and DATA frames one message at a time into a
//! growing buffer, and a reader that parses them back frame by frame.
use vstd::prelude::*;
use vstd::bytes::spec_u64_to_le_bytes;
use vstd::utf8::{encode_utf8, decode_utf8, valid_utf8};
use crate::error::FluxPackError;
use crate::json::{Json, JsonNumber, JsonValue, values_view, fields_view, lemma_array_view, lemma_object_view};
use crate::symbol_table::{SymbolTable, TableModel, predefined_model, keys_in, lemma_intern_keeps};
use crate::varint::{encode_varint, encode_signed_varint, varint_bytes, signed_varint_bytes, varint_parse,
    decode_varint_at};
use crate::wire::{str_bytes, json_keys, items_keys, fields_keys, push_bytes, parse_data_frame, remaining,
    decode_data_frame_at, lemma_fields_keys_in, lemma_items_keys_in, lemma_fields_keys_prefix,
    lemma_items_keys_prefix};
use crate::encoder::{batch_keys, leading_objects, lemma_leading_objects, lemma_batch_keys_in};
use crate::columnar::{columns_of, columnar_bytes, try_columnarize, encode_columnar};
use crate::float_bits::{u64_to_f64, u64_to_f64_bits};
use crate::outside::utf8_str;
use crate::MAX_TOKENS;

verus! {

/// The state of a stream writer.
pub ghost struct WriterModel {
    pub table: TableModel,
    pub buffer: Seq<u8>,
    pub prev_fp: u64,
}

/// A new writer: the pre-defined table (their DEFs counted as sent), an empty buffer, no
/// fingerprint seen.
pub open spec fn fresh_writer() -> WriterModel {
    WriterModel { table: predefined_model(), buffer: Seq::empty(), prev_fp: 0 }
}

/// What writing the messages one after the other with `write_data` does, stopping at the
/// first failure.
pub open spec fn write_all_outcome(w: WriterModel, msgs: Seq<Json>) -> (Result<(), FluxPackError>, WriterModel)
    decreases msgs.len(),
{
    if msgs.len() == 0 {
        (Ok(()), w)
    } else {
        let (r, w1) = write_data_outcome(w, msgs[0]);
        match r {
            Err(e) => (Err(e), w1),
            Ok(_) => write_all_outcome(w1, msgs.drop_first()),
        }
    }
}

/// A DEF frame for token `t` and key `k`.
pub open spec fn def_frame_bytes(t: u16, k: Seq<char>) -> Seq<u8> {
    seq![0x01u8] + varint_bytes(t as u64) + str_bytes(k)
}

/// `write_def` on a table: intern the key, and if its DEF frame is not out yet, write it
/// (tokens above `MAX_TOKENS` refused) and mark it sent. The result, the table after, and
/// the bytes written.
pub open spec fn write_def_step(t: TableModel, k: Seq<char>) -> (Result<u16, FluxPackError>, TableModel, Seq<u8>) {
    let (r, t1) = t.intern(k);
    match r {
        Err(e) => (Err(e), t1, Seq::empty()),
        Ok(tok) => if t1.def_emitted(tok) {
            (Ok(tok), t1, Seq::empty())
        } else if tok > MAX_TOKENS {
            (Err(FluxPackError::TableOverflow), t1, Seq::empty())
        } else {
            (Ok(tok), t1.mark(tok), def_frame_bytes(tok, k))
        },
    }
}

/// `write_def` on each key of `ks` in order, stopping at the first failure: the result,
/// the table after, and the bytes written.
pub open spec fn write_defs(t: TableModel, ks: Seq<Seq<char>>) -> (Result<(), FluxPackError>, TableModel, Seq<u8>)
    decreases ks.len(),
{
    if ks.len() == 0 {
        (Ok(()), t, Seq::empty())
    } else {
        let (r, t1, b1) = write_def_step(t, ks[0]);
        match r {
            Ok(_) => {
                let (r2, t2, b2) = write_defs(t1, ks.drop_first());
                (r2, t2, b1 + b2)
            },
            Err(e) => (Err(e), t1, b1),
        }
    }
}

/// A number as the stream writer writes it: an integer as a ZigZag varint, anything else
/// as the little-endian bits of the double it reads as.
pub open spec fn stream_number_bytes(n: JsonNumber) -> Seq<u8> {
    match n {
        JsonNumber::Int(i) => seq![0x03u8] + signed_varint_bytes(i),
        JsonNumber::UInt(u) => seq![0x06u8] + spec_u64_to_le_bytes(u64_to_f64(u)),
        JsonNumber::Float(b) => seq![0x06u8] + spec_u64_to_le_bytes(b),
    }
}

/// A value as the stream writer writes it, object keys by their tokens in `index`.
pub open spec fn stream_value_bytes(v: Json, index: Map<Seq<char>, u16>) -> Seq<u8>
    decreases v, 0nat,
{
    match v {
        Json::Null => seq![0x00u8],
        Json::Bool(b) => if b { seq![0x01u8] } else { seq![0x02u8] },
        Json::Num(n) => stream_number_bytes(n),
        Json::Str(s) => seq![0x05u8] + str_bytes(s),
        Json::Arr(items) => seq![0x09u8] + varint_bytes(items.len() as u64) + stream_items_bytes(items, items.len(), index),
        Json::Obj(fields) => seq![0x0Au8] + varint_bytes(fields.len() as u64)
            + stream_fields_bytes(fields, fields.len(), index),
    }
}

/// The first `n` items as the stream writer writes them.
pub open spec fn stream_items_bytes(items: Seq<Json>, n: nat, index: Map<Seq<char>, u16>) -> Seq<u8>
    decreases items, n,
{
    if n == 0 || n > items.len() {
        Seq::empty()
    } else {
        stream_items_bytes(items, (n - 1) as nat, index) + stream_value_bytes(items[n - 1], index)
    }
}

/// The first `n` fields as the stream writer writes them.
pub open spec fn stream_fields_bytes(fields: Seq<(Seq<char>, Json)>, n: nat, index: Map<Seq<char>, u16>) -> Seq<u8>
    decreases fields, n,
{
    if n == 0 || n > fields.len() {
        Seq::empty()
    } else {
        stream_fields_bytes(fields, (n - 1) as nat, index) + varint_bytes(index[fields[n - 1].0] as u64)
            + stream_value_bytes(fields[n - 1].1, index)
    }
}

/// A DATA frame as the stream writer writes it.
pub open spec fn stream_data_bytes(fields: Seq<(Seq<char>, Json)>, index: Map<Seq<char>, u16>) -> Seq<u8> {
    seq![0x02u8] + varint_bytes(fields.len() as u64) + stream_fields_bytes(fields, fields.len(), index)
}

/// The DATA frames of the first `n` messages (objects).
pub open spec fn stream_frames_bytes(msgs: Seq<Json>, n: nat, index: Map<Seq<char>, u16>) -> Seq<u8>
    decreases n,
{
    if n == 0 || n > msgs.len() {
        Seq::empty()
    } else {
        stream_frames_bytes(msgs, (n - 1) as nat, index) + match msgs[n - 1] {
            Json::Obj(fields) => stream_data_bytes(fields, index),
            _ => Seq::empty(),
        }
    }
}

/// What `write_data` does: the DEF frames its keys need (depth first), then its DATA frame;
/// a message that is not an object is refused with nothing written.
pub open spec fn write_data_outcome(w: WriterModel, msg: Json) -> (Result<(), FluxPackError>, WriterModel) {
    match msg {
        Json::Obj(fields) => {
            let (r, t1, b1) = write_defs(w.table, fields_keys(fields, fields.len()));
            match r {
                Err(e) => (Err(e), WriterModel { table: t1, buffer: w.buffer + b1, ..w }),
                Ok(_) => (
                    Ok(()),
                    WriterModel { table: t1, buffer: w.buffer + b1 + stream_data_bytes(fields, t1.index), ..w },
                ),
            }
        },
        _ => (Err(FluxPackError::ExpectedObject), w),
    }
}

/// What `write_batch` does: the DEF frames of every message's keys first, then a DATA
/// frame per message; the first message that is not an object stops it with
/// `ExpectedObject`, after the DEF frames of the messages before it.
pub open spec fn write_batch_outcome(w: WriterModel, msgs: Seq<Json>) -> (Result<(), FluxPackError>, WriterModel) {
    let j = leading_objects(msgs, 0);
    let (r, t1, b1) = write_defs(w.table, batch_keys(msgs, j as nat));
    match r {
        Err(e) => (Err(e), WriterModel { table: t1, buffer: w.buffer + b1, ..w }),
        Ok(_) => if j < msgs.len() {
            (Err(FluxPackError::ExpectedObject), WriterModel { table: t1, buffer: w.buffer + b1, ..w })
        } else {
            (
                Ok(()),
                WriterModel { table: t1, buffer: w.buffer + b1 + stream_frames_bytes(msgs, msgs.len(), t1.index), ..w },
            )
        },
    }
}

/// Writing DEFs for a concatenation is writing them for its first part, then (unless that
/// failed) for the second.
pub proof fn lemma_write_defs_concat(t: TableModel, a: Seq<Seq<char>>, b: Seq<Seq<char>>)
    ensures
        write_defs(t, a + b) == (match write_defs(t, a).0 {
            Ok(_) => {
                let (r2, t2, b2) = write_defs(write_defs(t, a).1, b);
                (r2, t2, write_defs(t, a).2 + b2)
            },
            Err(e) => write_defs(t, a),
        }),
    decreases a.len(),
{
    if a.len() == 0 {
        assert(a + b =~= b);
        assert(Seq::<u8>::empty() + write_defs(t, b).2 =~= write_defs(t, b).2);
    } else {
        let (r, t1, b1) = write_def_step(t, a[0]);
        assert((a + b).drop_first() =~= a.drop_first() + b);
        assert((a + b)[0] == a[0]);
        if r is Ok {
            lemma_write_defs_concat(t1, a.drop_first(), b);
            let (ra, ta, ba) = write_defs(t1, a.drop_first());
            if ra is Ok {
                assert(b1 + (ba + write_defs(ta, b).2) =~= (b1 + ba) + write_defs(ta, b).2);
            }
        }
    }
}

/// Writing the DEF of one key is `write_def_step`.
pub proof fn lemma_write_defs_one(t: TableModel, k: Seq<char>)
    ensures
        write_defs(t, seq![k]) == (match write_def_step(t, k).0 {
            Ok(_) => (Ok::<(), FluxPackError>(()), write_def_step(t, k).1, write_def_step(t, k).2),
            Err(e) => (Err::<(), FluxPackError>(e), write_def_step(t, k).1, write_def_step(t, k).2),
        }),
{
    reveal_with_fuel(write_defs, 2);
    assert(seq![k].drop_first() =~= Seq::<Seq<char>>::empty());
    assert(seq![k][0] == k);
    assert(write_def_step(t, k).2 + Seq::<u8>::empty() =~= write_def_step(t, k).2);
}

/// Writing DEFs keeps a well-formed table well-formed and every token it had; a success
/// leaves every key with a token.
pub proof fn lemma_write_defs_keeps(t: TableModel, ks: Seq<Seq<char>>)
    requires
        t.wf(),
    ensures
        write_defs(t, ks).1.wf(),
        forall|k: Seq<char>| #[trigger] t.index.dom().contains(k) ==>
            write_defs(t, ks).1.index.dom().contains(k) && write_defs(t, ks).1.index[k] == t.index[k],
        write_defs(t, ks).0 is Ok ==> keys_in(ks, write_defs(t, ks).1.index),
    decreases ks.len(),
{
    if ks.len() > 0 {
        let (r, t1, b1) = write_def_step(t, ks[0]);
        lemma_intern_keeps(t, ks[0]);
        if r is Ok {
            lemma_write_defs_keeps(t1, ks.drop_first());
            let t2 = write_defs(t1, ks.drop_first()).1;
            if write_defs(t1, ks.drop_first()).0 is Ok {
                assert forall|i: int| 0 <= i < ks.len() implies t2.index.dom().contains(#[trigger] ks[i]) by {
                    if i > 0 {
                        assert(ks.drop_first()[i - 1] == ks[i]);
                    } else {
                        assert(t1.index.dom().contains(ks[0]));
                    }
                }
            }
        }
    }
}

/// The keys of the first `a` messages begin those of the first `b`.
pub proof fn lemma_batch_keys_prefix(msgs: Seq<Json>, a: nat, b: nat)
    requires
        a <= b <= msgs.len(),
    ensures
        batch_keys(msgs, b) =~= batch_keys(msgs, a) + batch_keys(msgs, b).skip(batch_keys(msgs, a).len() as int),
        batch_keys(msgs, a).len() <= batch_keys(msgs, b).len(),
    decreases b,
{
    if a < b {
        lemma_batch_keys_prefix(msgs, a, (b - 1) as nat);
    }
}

/// A success that carries nothing is `Ok(())`.
pub proof fn lemma_unit_ok(r: Result<(), FluxPackError>)
    requires
        r is Ok,
    ensures
        r == Ok::<(), FluxPackError>(()),
{
    let x: () = r->Ok_0;
    assert(x == ());
}

/// The streaming encoder.
pub struct StreamWriter {
    symbol_table: SymbolTable,
    buffer: Vec<u8>,
    previous_schema_fingerprint: u64,
}

impl View for StreamWriter {
    type V = WriterModel;

    closed spec fn view(&self) -> WriterModel {
        WriterModel { table: self.symbol_table@, buffer: self.buffer@, prev_fp: self.previous_schema_fingerprint }
    }
}

impl StreamWriter {
    pub open spec fn wf(&self) -> bool {
        self@.table.wf()
    }

    /// A writer with the pre-defined keys (their DEFs counted as sent) and an empty buffer.
    pub fn new() -> (w: Self)
        ensures
            w.wf(),
            w@ == fresh_writer(),
    {
        StreamWriter {
            symbol_table: SymbolTable::with_predefined(),
            buffer: Vec::with_capacity(4096),
            previous_schema_fingerprint: 0,
        }
    }

    /// Write a DEF frame for a key unless one was written already; returns its token.
    pub fn write_def(&mut self, key: &str) -> (r: Result<u16, FluxPackError>)
        requires
            old(self).wf(),
        ensures
            final(self).wf(),
            ({
                let (sr, t1, b) = write_def_step(old(self)@.table, key@);
                &&& r == sr
                &&& final(self)@ == (WriterModel { table: t1, buffer: old(self)@.buffer + b, ..old(self)@ })
            }),
    {
        proof {
            lemma_intern_keeps(self@.table, key@);
        }
        let token = match self.symbol_table.intern(key) {
            Ok(t) => t,
            Err(e) => {
                assert(self.buffer@ =~= old(self)@.buffer + Seq::<u8>::empty());
                return Err(e);
            },
        };
        if !self.symbol_table.def_emitted(token) {
            match self.emit_def_frame(token, key) {
                Ok(_) => {},
                Err(e) => {
                    assert(self.buffer@ =~= old(self)@.buffer + Seq::<u8>::empty());
                    return Err(e);
                },
            }
            self.symbol_table.mark_def_emitted(token);
        } else {
            assert(self.buffer@ =~= old(self)@.buffer + Seq::<u8>::empty());
        }
        Ok(token)
    }

    /// Appends a DEF frame.
    fn emit_def_frame(&mut self, token: u16, key: &str) -> (r: Result<(), FluxPackError>)
        ensures
            token > MAX_TOKENS ==> r == Err::<(), FluxPackError>(FluxPackError::TableOverflow)
                && final(self)@ == old(self)@,
            token <= MAX_TOKENS ==> r is Ok
                && final(self)@ == (WriterModel { buffer: old(self)@.buffer + def_frame_bytes(token, key@), ..old(self)@ }),
    {
        if token > MAX_TOKENS {
            return Err(FluxPackError::TableOverflow);
        }
        self.buffer.push(0x01);
        encode_varint(token as u64, &mut self.buffer);
        let bytes = key.as_bytes();
        encode_varint(bytes.len() as u64, &mut self.buffer);
        push_bytes(&mut self.buffer, bytes);
        assert(self.buffer@ =~= old(self)@.buffer + def_frame_bytes(token, key@));
        Ok(())
    }

    /// Writes the DEF frames of every key inside `value`, depth first.
    fn collect_nested_defs(&mut self, value: &JsonValue) -> (r: Result<(), FluxPackError>)
        requires
            old(self).wf(),
        ensures
            final(self).wf(),
            ({
                let (sr, t1, b) = write_defs(old(self)@.table, json_keys(value@));
                &&& r == sr
                &&& final(self)@ == (WriterModel { table: t1, buffer: old(self)@.buffer + b, ..old(self)@ })
            }),
        decreases value@,
    {
        match value {
            JsonValue::Object(obj) => {
                proof {
                    lemma_object_view(*obj);
                }
                let ghost fv = fields_view(obj@);
                let ghost t0 = self@.table;
                let ghost b0 = self@.buffer;
                let mut i: usize = 0;
                while i < obj.len()
                    invariant
                        i <= obj@.len(),
                        fv == fields_view(obj@),
                        value@ == Json::Obj(fv),
                        self.wf(),
                        t0 == old(self)@.table,
                        b0 == old(self)@.buffer,
                        write_defs(t0, fields_keys(fv, i as nat)).0 is Ok,
                        self@ == (WriterModel {
                            table: write_defs(t0, fields_keys(fv, i as nat)).1,
                            buffer: b0 + write_defs(t0, fields_keys(fv, i as nat)).2,
                            ..old(self)@
                        }),
                    decreases obj.len() - i,
                {
                    let ghost ti = self@.table;
                    let ghost k = obj@[i as int].0@;
                    let ghost v = obj@[i as int].1@;
                    let ghost pre = fields_keys(fv, i as nat);
                    assert(fv[i as int] == (k, v));
                    assert(fields_keys(fv, (i + 1) as nat) == pre + seq![k] + json_keys(v));
                    proof {
                        lemma_write_defs_concat(t0, pre, seq![k]);
                        lemma_write_defs_one(ti, k);
                        lemma_write_defs_concat(t0, pre + seq![k], json_keys(v));
                        lemma_fields_keys_prefix(fv, (i + 1) as nat, fv.len());
                        lemma_write_defs_concat(
                            t0,
                            fields_keys(fv, (i + 1) as nat),
                            fields_keys(fv, fv.len()).skip(fields_keys(fv, (i + 1) as nat).len() as int),
                        );
                        lemma_fields_keys_prefix(fv, i as nat, fv.len());
                        lemma_write_defs_concat(
                            t0,
                            pre,
                            fields_keys(fv, fv.len()).skip(pre.len() as int),
                        );
                        assert(fields_keys(fv, fv.len()).skip(pre.len() as int) =~= seq![k] + json_keys(v)
                            + fields_keys(fv, fv.len()).skip(fields_keys(fv, (i + 1) as nat).len() as int));
                        lemma_write_defs_concat(ti, seq![k],
                            json_keys(v) + fields_keys(fv, fv.len()).skip(fields_keys(fv, (i + 1) as nat).len() as int));
                    }
                    match self.write_def(&obj[i].0) {
                        Ok(_) => {},
                        Err(e) => {
                            assert(json_keys(value@) == fields_keys(fv, fv.len()));
                            assert(self.buffer@ =~= b0 + write_defs(t0, json_keys(value@)).2);
                            return Err(e);
                        },
                    }
                    proof {
                        assert(value@->Obj_0 == fv);
                        assert(decreases_to!(value@ => fv));
                        assert(decreases_to!(fv => fv[i as int]));
                        assert(decreases_to!(fv[i as int] => fv[i as int].1));
                        assert(fv[i as int].1 == obj@[i as int].1@);
                        assert(self.buffer@ =~= b0 + write_defs(t0, pre + seq![k]).2);
                    }
                    let ghost b1 = self@.buffer;
                    match self.collect_nested_defs(&obj[i].1) {
                        Ok(_) => {},
                        Err(e) => {
                            assert(json_keys(value@) == fields_keys(fv, fv.len()));
                            assert(self.buffer@ =~= b0 + write_defs(t0, json_keys(value@)).2);
                            return Err(e);
                        },
                    }
                    assert(self.buffer@ =~= b0 + write_defs(t0, fields_keys(fv, (i + 1) as nat)).2);
                    i = i + 1;
                }
                assert(json_keys(value@) == fields_keys(fv, fv.len()));
                assert(fields_keys(fv, i as nat) == json_keys(value@));
                assert(self@.table == write_defs(old(self)@.table, json_keys(value@)).1);
                proof { lemma_unit_ok(write_defs(old(self)@.table, json_keys(value@)).0); }
                assert(self@.buffer == old(self)@.buffer + write_defs(old(self)@.table, json_keys(value@)).2);
                Ok(())
            },
            JsonValue::Array(arr) => {
                proof {
                    lemma_array_view(*arr);
                }
                let ghost vv = values_view(arr@);
                let ghost t0 = self@.table;
                let ghost b0 = self@.buffer;
                let mut i: usize = 0;
                while i < arr.len()
                    invariant
                        i <= arr@.len(),
                        vv == values_view(arr@),
                        value@ == Json::Arr(vv),
                        self.wf(),
                        t0 == old(self)@.table,
                        b0 == old(self)@.buffer,
                        write_defs(t0, items_keys(vv, i as nat)).0 is Ok,
                        self@ == (WriterModel {
                            table: write_defs(t0, items_keys(vv, i as nat)).1,
                            buffer: b0 + write_defs(t0, items_keys(vv, i as nat)).2,
                            ..old(self)@
                        }),
                    decreases arr.len() - i,
                {
                    let ghost v = arr@[i as int]@;
                    let ghost pre = items_keys(vv, i as nat);
                    assert(vv[i as int] == v);
                    assert(items_keys(vv, (i + 1) as nat) == pre + json_keys(v));
                    proof {
                        lemma_write_defs_concat(t0, pre, json_keys(v));
                        lemma_items_keys_prefix(vv, (i + 1) as nat, vv.len());
                        lemma_write_defs_concat(
                            t0,
                            items_keys(vv, (i + 1) as nat),
                            items_keys(vv, vv.len()).skip(items_keys(vv, (i + 1) as nat).len() as int),
                        );
                        lemma_items_keys_prefix(vv, i as nat, vv.len());
                        lemma_write_defs_concat(t0, pre, items_keys(vv, vv.len()).skip(pre.len() as int));
                        assert(items_keys(vv, vv.len()).skip(pre.len() as int) =~= json_keys(v)
                            + items_keys(vv, vv.len()).skip(items_keys(vv, (i + 1) as nat).len() as int));
                        lemma_write_defs_concat(write_defs(t0, pre).1, json_keys(v),
                            items_keys(vv, vv.len()).skip(items_keys(vv, (i + 1) as nat).len() as int));
                    }
                    proof {
                        assert(value@->Arr_0 == vv);
                        assert(decreases_to!(value@ => vv));
                        assert(decreases_to!(vv => vv[i as int]));
                        assert(vv[i as int] == arr@[i as int]@);
                    }
                    match self.collect_nested_defs(&arr[i]) {
                        Ok(_) => {},
                        Err(e) => {
                            assert(json_keys(value@) == items_keys(vv, vv.len()));
                            assert(self.buffer@ =~= b0 + write_defs(t0, json_keys(value@)).2);
                            return Err(e);
                        },
                    }
                    assert(self.buffer@ =~= b0 + write_defs(t0, items_keys(vv, (i + 1) as nat)).2);
                    i = i + 1;
                }
                assert(json_keys(value@) == items_keys(vv, vv.len()));
                assert(items_keys(vv, i as nat) == json_keys(value@));
                assert(self@.table == write_defs(old(self)@.table, json_keys(value@)).1);
                proof { lemma_unit_ok(write_defs(old(self)@.table, json_keys(value@)).0); }
                Ok(())
            },
            _ => {
                assert(json_keys(value@) =~= Seq::<Seq<char>>::empty());
                assert(self.buffer@ =~= old(self)@.buffer + Seq::<u8>::empty());
                assert(write_defs(old(self)@.table, json_keys(value@)).1 == old(self)@.table);
                Ok(())
            },
        }
    }

    /// Appends one value as the stream writer writes it; every key inside it has a token.
    fn encode_value(&mut self, value: &JsonValue) -> (r: Result<(), FluxPackError>)
        requires
            old(self).wf(),
            keys_in(json_keys(value@), old(self)@.table.index),
        ensures
            r is Ok,
            final(self).wf(),
            final(self)@ == (WriterModel {
                buffer: old(self)@.buffer + stream_value_bytes(value@, old(self)@.table.index),
                ..old(self)@
            }),
        decreases value@,
    {
        let ghost index = self@.table.index;
        match value {
            JsonValue::Null => {
                self.buffer.push(0x00);
            },
            JsonValue::Bool(b) => {
                if *b {
                    self.buffer.push(0x01);
                } else {
                    self.buffer.push(0x02);
                }
            },
            JsonValue::Number(n) => {
                match n {
                    JsonNumber::Int(i) => {
                        self.buffer.push(0x03);
                        encode_signed_varint(*i, &mut self.buffer);
                    },
                    JsonNumber::UInt(u) => {
                        self.buffer.push(0x06);
                        let le = vstd::bytes::u64_to_le_bytes(u64_to_f64_bits(*u));
                        push_bytes(&mut self.buffer, le.as_slice());
                    },
                    JsonNumber::Float(bits) => {
                        self.buffer.push(0x06);
                        let le = vstd::bytes::u64_to_le_bytes(*bits);
                        push_bytes(&mut self.buffer, le.as_slice());
                    },
                }
                assert(self.buffer@ =~= old(self)@.buffer + stream_number_bytes(*n));
                assert(value@ == Json::Num(*n));
            },
            JsonValue::String(s) => {
                self.buffer.push(0x05);
                let bytes = s.as_str().as_bytes();
                encode_varint(bytes.len() as u64, &mut self.buffer);
                push_bytes(&mut self.buffer, bytes);
                assert(self.buffer@ =~= old(self)@.buffer + seq![0x05u8] + str_bytes(s@));
                assert(value@ == Json::Str(s@));
            },
            JsonValue::Array(arr) => {
                proof {
                    lemma_array_view(*arr);
                }
                let ghost vv = values_view(arr@);
                self.buffer.push(0x09);
                encode_varint(arr.len() as u64, &mut self.buffer);
                let ghost start = self.buffer@;
                let mut i: usize = 0;
                while i < arr.len()
                    invariant
                        i <= arr@.len(),
                        vv == values_view(arr@),
                        value@ == Json::Arr(vv),
                        keys_in(items_keys(vv, vv.len()), index),
                        self.wf(),
                        self@ == (WriterModel { buffer: self@.buffer, ..old(self)@ }),
                        index == old(self)@.table.index,
                        start == old(self)@.buffer + seq![0x09u8] + varint_bytes(arr@.len() as u64),
                        self.buffer@ == start + stream_items_bytes(vv, i as nat, index),
                    decreases arr.len() - i,
                {
                    proof {
                        lemma_items_keys_in(vv, vv.len(), i as int, index);
                        assert(value@->Arr_0 == vv);
                        assert(decreases_to!(value@ => vv));
                        assert(decreases_to!(vv => vv[i as int]));
                        assert(vv[i as int] == arr@[i as int]@);
                    }
                    let _ = self.encode_value(&arr[i]);
                    i = i + 1;
                    assert(stream_items_bytes(vv, i as nat, index) == stream_items_bytes(vv, (i - 1) as nat, index)
                        + stream_value_bytes(vv[i - 1], index));
                }
            },
            JsonValue::Object(obj) => {
                proof {
                    lemma_object_view(*obj);
                }
                let ghost fv = fields_view(obj@);
                self.buffer.push(0x0A);
                encode_varint(obj.len() as u64, &mut self.buffer);
                let ghost start = self.buffer@;
                let mut i: usize = 0;
                while i < obj.len()
                    invariant
                        i <= obj@.len(),
                        fv == fields_view(obj@),
                        value@ == Json::Obj(fv),
                        keys_in(fields_keys(fv, fv.len()), index),
                        self.wf(),
                        self@ == (WriterModel { buffer: self@.buffer, ..old(self)@ }),
                        index == old(self)@.table.index,
                        start == old(self)@.buffer + seq![0x0Au8] + varint_bytes(obj@.len() as u64),
                        self.buffer@ == start + stream_fields_bytes(fv, i as nat, index),
                    decreases obj.len() - i,
                {
                    proof {
                        lemma_fields_keys_in(fv, fv.len(), i as int, index);
                    }
                    assert(fv[i as int] == (obj@[i as int].0@, obj@[i as int].1@));
                    let token = match self.symbol_table.intern(&obj[i].0) {
                        Ok(t) => t,
                        Err(e) => {
                            return Err(e);
                        },
                    };
                    encode_varint(token as u64, &mut self.buffer);
                    proof {
                        assert(value@->Obj_0 == fv);
                        assert(decreases_to!(value@ => fv));
                        assert(decreases_to!(fv => fv[i as int]));
                        assert(decreases_to!(fv[i as int] => fv[i as int].1));
                        assert(fv[i as int].1 == obj@[i as int].1@);
                    }
                    let _ = self.encode_value(&obj[i].1);
                    i = i + 1;
                    assert(stream_fields_bytes(fv, i as nat, index) == stream_fields_bytes(fv, (i - 1) as nat, index)
                        + varint_bytes(index[fv[i - 1].0] as u64) + stream_value_bytes(fv[i - 1].1, index));
                }
            },
        }
        assert(self.buffer@ =~= old(self)@.buffer + stream_value_bytes(value@, index));
        Ok(())
    }

    /// Appends a DATA frame for the object with these fields; every key inside it has a token.
    fn write_data_frame(&mut self, obj: &Vec<(String, JsonValue)>)
        requires
            old(self).wf(),
            keys_in(fields_keys(fields_view(obj@), obj@.len()), old(self)@.table.index),
        ensures
            final(self).wf(),
            final(self)@ == (WriterModel {
                buffer: old(self)@.buffer + stream_data_bytes(fields_view(obj@), old(self)@.table.index),
                ..old(self)@
            }),
    {
        let ghost index = self@.table.index;
        let ghost fv = fields_view(obj@);
        self.buffer.push(0x02);
        encode_varint(obj.len() as u64, &mut self.buffer);
        let ghost start = self.buffer@;
        let mut i: usize = 0;
        while i < obj.len()
            invariant
                i <= obj@.len(),
                fv == fields_view(obj@),
                fv.len() == obj@.len(),
                keys_in(fields_keys(fv, fv.len()), index),
                self.wf(),
                self@ == (WriterModel { buffer: self@.buffer, ..old(self)@ }),
                index == old(self)@.table.index,
                start == old(self)@.buffer + seq![0x02u8] + varint_bytes(obj@.len() as u64),
                self.buffer@ == start + stream_fields_bytes(fv, i as nat, index),
            decreases obj.len() - i,
        {
            proof {
                lemma_fields_keys_in(fv, fv.len(), i as int, index);
            }
            assert(fv[i as int] == (obj@[i as int].0@, obj@[i as int].1@));
            let token = match self.symbol_table.intern(&obj[i].0) {
                Ok(t) => t,
                Err(_) => {
                    return;
                },
            };
            encode_varint(token as u64, &mut self.buffer);
            let _ = self.encode_value(&obj[i].1);
            i = i + 1;
            assert(stream_fields_bytes(fv, i as nat, index) == stream_fields_bytes(fv, (i - 1) as nat, index)
                + varint_bytes(index[fv[i - 1].0] as u64) + stream_value_bytes(fv[i - 1].1, index));
        }
        assert(self.buffer@ =~= old(self)@.buffer + stream_data_bytes(fv, index));
    }

    /// Write a DATA frame for a JSON object, after DEF frames for any of its keys (nested
    /// ones too) not sent yet.
    pub fn write_data(&mut self, message: &JsonValue) -> (r: Result<(), FluxPackError>)
        requires
            old(self).wf(),
        ensures
            final(self).wf(),
            (r, final(self)@) == write_data_outcome(old(self)@, message@),
    {
        let obj = match message {
            JsonValue::Object(o) => o,
            _ => {
                return Err(FluxPackError::ExpectedObject);
            },
        };
        proof {
            lemma_object_view(*obj);
        }
        let ghost fv = fields_view(obj@);
        let ghost ks = fields_keys(fv, fv.len());
        proof {
            lemma_write_defs_keeps(self@.table, ks);
        }
        match self.collect_nested_defs(message) {
            Ok(_) => {},
            Err(e) => {
                return Err(e);
            },
        }
        self.write_data_frame(obj);
        assert(self.buffer@ =~= old(self)@.buffer + write_defs(old(self)@.table, ks).2
            + stream_data_bytes(fv, write_defs(old(self)@.table, ks).1.index));
        proof {
            lemma_unit_ok(write_defs(old(self)@.table, ks).0);
        }
        Ok(())
    }

    /// Write several messages: the DEF frames of all their keys first, then their DATA frames.
    pub fn write_batch(&mut self, messages: &[JsonValue]) -> (r: Result<(), FluxPackError>)
        requires
            old(self).wf(),
        ensures
            final(self).wf(),
            (r, final(self)@) == write_batch_outcome(old(self)@, values_view(messages@)),
    {
        let ghost msgs = values_view(messages@);
        let ghost t0 = self@.table;
        let ghost b0 = self@.buffer;
        let mut i: usize = 0;
        while i < messages.len()
            invariant
                i <= messages@.len(),
                msgs == values_view(messages@),
                t0 == old(self)@.table,
                b0 == old(self)@.buffer,
                self.wf(),
                forall|j: int| 0 <= j < i ==> (#[trigger] msgs[j]) is Obj,
                write_defs(t0, batch_keys(msgs, i as nat)).0 == Ok::<(), FluxPackError>(()),
                self@ == (WriterModel {
                    table: write_defs(t0, batch_keys(msgs, i as nat)).1,
                    buffer: b0 + write_defs(t0, batch_keys(msgs, i as nat)).2,
                    ..old(self)@
                }),
            decreases messages.len() - i,
        {
            let ghost pre = batch_keys(msgs, i as nat);
            match &messages[i] {
                JsonValue::Object(o) => {
                    proof {
                        lemma_object_view(*o);
                    }
                    let ghost post = json_keys(msgs[i as int]);
                    assert(msgs[i as int] == messages@[i as int]@);
                    assert(batch_keys(msgs, (i + 1) as nat) == pre + post);
                    proof {
                        lemma_write_defs_concat(t0, pre, post);
                    }
                    match self.collect_nested_defs(&messages[i]) {
                        Ok(_) => {},
                        Err(e) => {
                            proof {
                                let j = leading_objects(msgs, 0);
                                assert(j >= i + 1) by {
                                    lemma_leading_from(msgs, 0, i as int);
                                }
                                lemma_leading_bounds(msgs, 0);
                                lemma_batch_keys_prefix(msgs, (i + 1) as nat, j as nat);
                                lemma_write_defs_concat(t0, batch_keys(msgs, (i + 1) as nat),
                                    batch_keys(msgs, j as nat).skip(batch_keys(msgs, (i + 1) as nat).len() as int));
                            }
                            assert(self.buffer@ =~= b0 + write_defs(t0, batch_keys(msgs, (i + 1) as nat)).2);
                            return Err(e);
                        },
                    }
                    assert(self.buffer@ =~= b0 + write_defs(t0, batch_keys(msgs, (i + 1) as nat)).2);
                    proof {
                        lemma_unit_ok(write_defs(t0, batch_keys(msgs, (i + 1) as nat)).0);
                    }
                },
                _ => {
                    proof {
                        assert(!(msgs[i as int] is Obj));
                        lemma_leading_objects(msgs, 0, i as int);
                    }
                    return Err(FluxPackError::ExpectedObject);
                },
            }
            i = i + 1;
        }
        proof {
            lemma_leading_objects(msgs, 0, msgs.len() as int);
            lemma_write_defs_keeps(t0, batch_keys(msgs, msgs.len()));
        }
        let ghost index = self@.table.index;
        let ghost start = self.buffer@;
        let mut i: usize = 0;
        while i < messages.len()
            invariant
                i <= messages@.len(),
                msgs == values_view(messages@),
                forall|j: int| 0 <= j < msgs.len() ==> (#[trigger] msgs[j]) is Obj,
                keys_in(batch_keys(msgs, msgs.len()), index),
                self.wf(),
                index == self@.table.index,
                self@ == (WriterModel { buffer: self@.buffer, table: write_defs(t0, batch_keys(msgs, msgs.len())).1, ..old(self)@ }),
                self.buffer@ == start + stream_frames_bytes(msgs, i as nat, index),
            decreases messages.len() - i,
        {
            assert(msgs[i as int] is Obj);
            match &messages[i] {
                JsonValue::Object(o) => {
                    proof {
                        lemma_object_view(*o);
                        assert(msgs[i as int] == messages@[i as int]@);
                        lemma_batch_keys_in(msgs, msgs.len(), i as int, index);
                    }
                    self.write_data_frame(o);
                },
                _ => {},
            }
            i = i + 1;
            assert(self.buffer@ =~= start + stream_frames_bytes(msgs, i as nat, index));
        }
        assert(self.buffer@ =~= b0 + write_defs(t0, batch_keys(msgs, msgs.len())).2
            + stream_frames_bytes(msgs, msgs.len(), index));
        Ok(())
    }

    /// Write an array of objects that share their keys as a columnar frame (after the key's
    /// DEF frame): `0x0D`, the key's token, the length of the columnar bytes, the bytes.
    /// Returns whether the array was written; any other array writes nothing.
    pub fn write_columnar_data(&mut self, key: &str, arr: &[JsonValue]) -> (r: Result<bool, FluxPackError>)
        requires
            old(self).wf(),
        ensures
            final(self).wf(),
            match columns_of(values_view(arr@)) {
                None => r == Ok::<bool, FluxPackError>(false) && final(self)@ == old(self)@,
                Some(cols) => {
                    let (sr, t1, b1) = write_def_step(old(self)@.table, key@);
                    match sr {
                        Err(e) => r == Err::<bool, FluxPackError>(e)
                            && final(self)@ == (WriterModel { table: t1, buffer: old(self)@.buffer + b1, ..old(self)@ }),
                        Ok(tok) => {
                            let cb = columnar_bytes(values_view(arr@), cols);
                            &&& r == Ok::<bool, FluxPackError>(true)
                            &&& final(self)@ == (WriterModel {
                                table: t1,
                                buffer: old(self)@.buffer + b1 + seq![0x0Du8] + varint_bytes(tok as u64)
                                    + varint_bytes(cb.len() as u64) + cb,
                                ..old(self)@
                            })
                        },
                    }
                },
            },
    {
        match try_columnarize(arr) {
            Some(columns) => {
                let token = match self.write_def(key) {
                    Ok(t) => t,
                    Err(e) => {
                        return Err(e);
                    },
                };
                let ghost after_def = self.buffer@;
                self.buffer.push(0x0D);
                let mut col_buf: Vec<u8> = Vec::new();
                encode_columnar(arr, columns.as_slice(), &mut col_buf);
                encode_varint(token as u64, &mut self.buffer);
                encode_varint(col_buf.len() as u64, &mut self.buffer);
                push_bytes(&mut self.buffer, col_buf.as_slice());
                assert(col_buf@ =~= columnar_bytes(values_view(arr@), columns_of(values_view(arr@))->Some_0));
                assert(self.buffer@ =~= after_def + seq![0x0Du8] + varint_bytes(token as u64)
                    + varint_bytes(col_buf@.len() as u64) + col_buf@);
                Ok(true)
            },
            None => Ok(false),
        }
    }

    /// The frames written so far.
    pub fn buffer(&self) -> (r: &[u8])
        ensures
            r@ == self@.buffer,
    {
        self.buffer.as_slice()
    }

    /// The frames written, taking the writer.
    pub fn into_buffer(self) -> (r: Vec<u8>)
        ensures
            r@ == self@.buffer,
    {
        self.buffer
    }

    /// The schema fingerprint of the keys interned so far (cached in the table). Its value is
    /// not stated beyond being non-zero and equal to an already cached one.
    pub fn schema_fingerprint(&mut self) -> (fp: u64)
        requires
            old(self).wf(),
        ensures
            final(self).wf(),
            fp != 0,
            old(self)@.table.fp != 0 ==> fp == old(self)@.table.fp,
            final(self)@ == (WriterModel { table: TableModel { fp, ..old(self)@.table }, ..old(self)@ }),
    {
        self.symbol_table.schema_fingerprint()
    }

    /// Whether the schema fingerprint equals the one seen by the previous call (0: none);
    /// remembers the current one.
    pub fn schema_unchanged(&mut self) -> (r: bool)
        requires
            old(self).wf(),
        ensures
            final(self).wf(),
            final(self)@.prev_fp != 0,
            old(self)@.table.fp != 0 ==> final(self)@.prev_fp == old(self)@.table.fp,
            final(self)@ == (WriterModel {
                table: TableModel { fp: final(self)@.prev_fp, ..old(self)@.table },
                prev_fp: final(self)@.prev_fp,
                ..old(self)@
            }),
            r == (old(self)@.prev_fp != 0 && old(self)@.prev_fp == final(self)@.prev_fp),
    {
        let fp = self.symbol_table.schema_fingerprint();
        let unchanged = self.previous_schema_fingerprint != 0 && self.previous_schema_fingerprint == fp;
        self.previous_schema_fingerprint = fp;
        unchanged
    }

    /// Reset the writer: the pre-defined table, an empty buffer, no fingerprint seen.
    pub fn reset(&mut self)
        ensures
            final(self).wf(),
            final(self)@ == fresh_writer(),
    {
        self.symbol_table.reset();
        self.buffer.clear();
        self.previous_schema_fingerprint = 0;
    }
}

impl Default for StreamWriter {
    fn default() -> (w: Self)
        ensures
            w.wf(),
            w@ == fresh_writer(),
    {
        Self::new()
    }
}

/// The leading objects from `x` end between `x` and the end.
pub proof fn lemma_leading_bounds(msgs: Seq<Json>, x: int)
    requires
        0 <= x <= msgs.len(),
    ensures
        x <= leading_objects(msgs, x) <= msgs.len(),
    decreases msgs.len() - x,
{
    if x < msgs.len() && msgs[x] is Obj {
        lemma_leading_bounds(msgs, x + 1);
    }
}

/// From a message that is an object, the leading objects reach past it.
proof fn lemma_leading_from(msgs: Seq<Json>, k: int, i: int)
    requires
        0 <= k <= i < msgs.len(),
        forall|j: int| k <= j <= i ==> (#[trigger] msgs[j]) is Obj,
    ensures
        leading_objects(msgs, k) >= i + 1,
    decreases i - k,
{
    if k < i {
        lemma_leading_from(msgs, k + 1, i);
    } else {
        lemma_leading_bounds(msgs, i + 1);
    }
}

/// A frame of a stream.
#[derive(Debug)]
pub enum Frame {
    /// A DEF frame: a token and its key.
    Def { token: u16, key: String },
    /// A DATA frame: one object.
    Data(JsonValue),
    /// A columnar frame: its bytes (the row count is left for the columnar decoder).
    Columnar { row_count: usize, data: Vec<u8> },
    /// The end of the stream.
    Eos,
}

/// The mathematical model of a frame.
pub ghost enum FrameModel {
    Def(u16, Seq<char>),
    Data(Json),
    Columnar(nat, Seq<u8>),
    Eos,
}

impl View for Frame {
    type V = FrameModel;

    open spec fn view(&self) -> FrameModel {
        match self {
            Frame::Def { token, key } => FrameModel::Def(*token, key@),
            Frame::Data(v) => FrameModel::Data(v@),
            Frame::Columnar { row_count, data } => FrameModel::Columnar(*row_count as nat, data@),
            Frame::Eos => FrameModel::Eos,
        }
    }
}

/// The models of a sequence of frames.
pub open spec fn frames_view(v: Seq<Frame>) -> Seq<FrameModel> {
    Seq::new(v.len(), |i: int| v[i]@)
}

/// Reading one frame at `pos` with the table `t`: the frame (none at the end of the
/// input), where the reader's cursor is afterwards, and the table afterwards. A DEF frame
/// stores its key under its token; a failure leaves the cursor where the reading stopped.
pub open spec fn read_step(s: Seq<u8>, pos: nat, t: TableModel) -> (Result<Option<FrameModel>, FluxPackError>, nat, TableModel) {
    if pos >= s.len() {
        (Ok(None), pos, t)
    } else {
        let tag = s[pos as int];
        let p = pos + 1;
        if tag == 0x01 {
            match varint_parse(s.skip(p as int)) {
                Err(e) => (Err(e), p, t),
                Ok((tok, c1)) => match varint_parse(s.skip((p + c1) as int)) {
                    Err(e) => (Err(e), p + c1, t),
                    Ok((len, c2)) => {
                        let start = p + c1 + c2;
                        if len > remaining(s, start) {
                            (Err(FluxPackError::BufferOverrun), start, t)
                        } else if !valid_utf8(s.subrange(start as int, start + len)) {
                            (Err(FluxPackError::InvalidUtf8), start, t)
                        } else {
                            let key = decode_utf8(s.subrange(start as int, start + len));
                            let token = (tok % 0x10000) as u16;
                            let (r, t2) = t.store_def(token, key);
                            match r {
                                Err(e) => (Err(e), (start + len) as nat, t2),
                                Ok(_) => (Ok(Some(FrameModel::Def(token, key))), (start + len) as nat, t2),
                            }
                        }
                    },
                },
            }
        } else if tag == 0x02 {
            match parse_data_frame(s, p, t) {
                Ok((v, c)) => (Ok(Some(FrameModel::Data(v))), p + c, t),
                Err(e) => (Err(e), p, t),
            }
        } else if tag == 0x0D {
            match varint_parse(s.skip(p as int)) {
                Err(e) => (Err(e), p, t),
                Ok((_tok, c1)) => match varint_parse(s.skip((p + c1) as int)) {
                    Err(e) => (Err(e), p + c1, t),
                    Ok((len, c2)) => {
                        let start = p + c1 + c2;
                        if len > remaining(s, start) {
                            (Err(FluxPackError::BufferOverrun), start, t)
                        } else {
                            (Ok(Some(FrameModel::Columnar(0, s.subrange(start as int, start + len)))),
                                (start + len) as nat, t)
                        }
                    },
                },
            }
        } else if tag == 0xFF {
            (Ok(Some(FrameModel::Eos)), p, t)
        } else {
            (Err(FluxPackError::InvalidValueType(tag)), p, t)
        }
    }
}

/// A frame read inside the input moves the cursor forward.
pub proof fn lemma_read_step_advances(s: Seq<u8>, pos: nat, t: TableModel)
    ensures
        pos < s.len() ==> read_step(s, pos, t).1 > pos,
        read_step(s, pos, t).0 matches Ok(Some(_)) ==> pos < s.len(),
{
}

/// Reading frames from `pos` until the end of the input, an EOS frame or a failure:
/// the frames before, where the cursor is afterwards, and the table afterwards.
pub open spec fn read_all_frames(s: Seq<u8>, pos: nat, t: TableModel, acc: Seq<FrameModel>)
    -> (Result<Seq<FrameModel>, FluxPackError>, nat, TableModel)
    decreases remaining(s, pos),
{
    let (r, p2, t2) = read_step(s, pos, t);
    match r {
        Err(e) => (Err(e), p2, t2),
        Ok(None) => (Ok(acc), p2, t2),
        Ok(Some(f)) => if f is Eos {
            (Ok(acc), p2, t2)
        } else {
            proof {
                lemma_read_step_advances(s, pos, t);
            }
            read_all_frames(s, p2, t2, acc.push(f))
        },
    }
}

/// Like `read_all_frames`, with a failure ending the frames quietly.
pub open spec fn collect_frames(s: Seq<u8>, pos: nat, t: TableModel, acc: Seq<FrameModel>)
    -> (Seq<FrameModel>, nat, TableModel)
    decreases remaining(s, pos),
{
    let (r, p2, t2) = read_step(s, pos, t);
    match r {
        Err(_) => (acc, p2, t2),
        Ok(None) => (acc, p2, t2),
        Ok(Some(f)) => if f is Eos {
            (acc, p2, t2)
        } else {
            proof {
                lemma_read_step_advances(s, pos, t);
            }
            collect_frames(s, p2, t2, acc.push(f))
        },
    }
}

/// The state of a stream reader: its table and its cursor in the input.
pub ghost struct ReaderModel {
    pub table: TableModel,
    pub cursor: nat,
}

/// The streaming decoder.
pub struct StreamReader {
    symbol_table: SymbolTable,
    cursor: usize,
}

impl View for StreamReader {
    type V = ReaderModel;

    closed spec fn view(&self) -> ReaderModel {
        ReaderModel { table: self.symbol_table@, cursor: self.cursor as nat }
    }
}

impl StreamReader {
    pub open spec fn wf(&self) -> bool {
        self@.table.wf()
    }

    /// A reader at the start of its input, with the pre-defined keys.
    pub fn new() -> (r: Self)
        ensures
            r.wf(),
            r@ == (ReaderModel { table: predefined_model(), cursor: 0 }),
    {
        StreamReader { symbol_table: SymbolTable::new(), cursor: 0 }
    }

    /// Parse the next frame from the input, at the reader's cursor; none at its end.
    pub fn read_frame(&mut self, input: &[u8]) -> (r: Result<Option<Frame>, FluxPackError>)
        requires
            old(self).wf(),
        ensures
            final(self).wf(),
            ({
                let (sr, p, t) = read_step(input@, old(self)@.cursor, old(self)@.table);
                &&& final(self)@ == (ReaderModel { table: t, cursor: p })
                &&& match r {
                    Ok(None) => sr == Ok::<Option<FrameModel>, FluxPackError>(None),
                    Ok(Some(f)) => sr == Ok::<Option<FrameModel>, FluxPackError>(Some(f@)),
                    Err(e) => sr == Err::<Option<FrameModel>, FluxPackError>(e),
                }
            }),
    {
        let ilen = input.len();
        if self.cursor >= ilen {
            return Ok(None);
        }
        let frame_type = input[self.cursor];
        self.cursor = self.cursor + 1;
        if frame_type == 0x01 {
            let (tok, c1) = match decode_varint_at(input, self.cursor) {
                Ok(x) => x,
                Err(e) => {
                    return Err(e);
                },
            };
            self.cursor = self.cursor + c1;
            let (len, c2) = match decode_varint_at(input, self.cursor) {
                Ok(x) => x,
                Err(e) => {
                    return Err(e);
                },
            };
            self.cursor = self.cursor + c2;
            let start = self.cursor;
            if len > (ilen - start) as u64 {
                return Err(FluxPackError::BufferOverrun);
            }
            let end = start + len as usize;
            let key = match utf8_str(input, start, end) {
                Ok(k) => k.to_owned(),
                Err(_) => {
                    return Err(FluxPackError::InvalidUtf8);
                },
            };
            self.cursor = end;
            #[verifier::truncate]
            let token = tok as u16;
            assert(token == (tok % 0x10000) as u16) by (bit_vector)
                requires token == tok as u16;
            match self.symbol_table.store_def(token, key.as_str()) {
                Ok(_) => {},
                Err(e) => {
                    return Err(e);
                },
            }
            Ok(Some(Frame::Def { token, key }))
        } else if frame_type == 0x02 {
            match decode_data_frame_at(input, self.cursor, &self.symbol_table) {
                Ok((v, c)) => {
                    self.cursor = self.cursor + c;
                    Ok(Some(Frame::Data(v)))
                },
                Err(e) => Err(e),
            }
        } else if frame_type == 0x0D {
            let (_tok, c1) = match decode_varint_at(input, self.cursor) {
                Ok(x) => x,
                Err(e) => {
                    return Err(e);
                },
            };
            self.cursor = self.cursor + c1;
            let (len, c2) = match decode_varint_at(input, self.cursor) {
                Ok(x) => x,
                Err(e) => {
                    return Err(e);
                },
            };
            self.cursor = self.cursor + c2;
            let start = self.cursor;
            if len > (ilen - start) as u64 {
                return Err(FluxPackError::BufferOverrun);
            }
            let end = start + len as usize;
            let part = vstd::slice::slice_subrange(input, start, end);
            let mut data: Vec<u8> = Vec::new();
            push_bytes(&mut data, part);
            assert(data@ =~= part@);
            self.cursor = end;
            Ok(Some(Frame::Columnar { row_count: 0, data }))
        } else if frame_type == 0xFF {
            Ok(Some(Frame::Eos))
        } else {
            Err(FluxPackError::InvalidValueType(frame_type))
        }
    }

    /// Read every frame up to the end of the input or an EOS frame.
    pub fn read_all(&mut self, input: &[u8]) -> (r: Result<Vec<Frame>, FluxPackError>)
        requires
            old(self).wf(),
        ensures
            final(self).wf(),
            ({
                let (sr, p, t) = read_all_frames(input@, old(self)@.cursor, old(self)@.table, Seq::empty());
                &&& final(self)@ == (ReaderModel { table: t, cursor: p })
                &&& match r {
                    Ok(fs) => sr == Ok::<Seq<FrameModel>, FluxPackError>(frames_view(fs@)),
                    Err(e) => sr == Err::<Seq<FrameModel>, FluxPackError>(e),
                }
            }),
    {
        let mut frames: Vec<Frame> = Vec::new();
        let ghost s = input@;
        assert(frames_view(frames@) =~= Seq::<FrameModel>::empty());
        loop
            invariant
                s == input@,
                self.wf(),
                read_all_frames(s, old(self)@.cursor, old(self)@.table, Seq::empty())
                    == read_all_frames(s, self@.cursor, self@.table, frames_view(frames@)),
            decreases remaining(s, self@.cursor),
        {
            let ghost before = self@;
            proof {
                lemma_read_step_advances(s, before.cursor, before.table);
            }
            match self.read_frame(input) {
                Ok(Some(frame)) => {
                    if let Frame::Eos = frame {
                        return Ok(frames);
                    }
                    let ghost fs = frames@;
                    frames.push(frame);
                    assert(frames_view(frames@) =~= frames_view(fs).push(frame@));
                },
                Ok(None) => {
                    return Ok(frames);
                },
                Err(e) => {
                    return Err(e);
                },
            }
        }
    }

    /// Every frame up to the end of the input, an EOS frame or a failure (which ends the
    /// frames quietly).
    pub fn frames(&mut self, input: &[u8]) -> (r: Vec<Frame>)
        requires
            old(self).wf(),
        ensures
            final(self).wf(),
            ({
                let (fs, p, t) = collect_frames(input@, old(self)@.cursor, old(self)@.table, Seq::empty());
                &&& final(self)@ == (ReaderModel { table: t, cursor: p })
                &&& frames_view(r@) == fs
            }),
    {
        let mut frames: Vec<Frame> = Vec::new();
        let ghost s = input@;
        assert(frames_view(frames@) =~= Seq::<FrameModel>::empty());
        loop
            invariant
                s == input@,
                self.wf(),
                collect_frames(s, old(self)@.cursor, old(self)@.table, Seq::empty())
                    == collect_frames(s, self@.cursor, self@.table, frames_view(frames@)),
            decreases remaining(s, self@.cursor),
        {
            let ghost before = self@;
            proof {
                lemma_read_step_advances(s, before.cursor, before.table);
            }
            match self.read_frame(input) {
                Ok(Some(frame)) => {
                    if let Frame::Eos = frame {
                        return frames;
                    }
                    let ghost fs = frames@;
                    frames.push(frame);
                    assert(frames_view(frames@) =~= frames_view(fs).push(frame@));
                },
                Ok(None) => {
                    return frames;
                },
                Err(_) => {
                    return frames;
                },
            }
        }
    }

    /// Reset the reader: the pre-defined table, the cursor at the start.
    pub fn reset(&mut self)
        ensures
            final(self).wf(),
            final(self)@ == (ReaderModel { table: predefined_model(), cursor: 0 }),
    {
        self.symbol_table.reset();
        self.cursor = 0;
    }

    /// The reader's symbol table.
    pub fn symbol_table(&self) -> (r: &SymbolTable)
        ensures
            r@ == self@.table,
    {
        &self.symbol_table
    }
}

impl Default for StreamReader {
    fn default() -> (r: Self)
        ensures
            r.wf(),
            r@ == (ReaderModel { table: predefined_model(), cursor: 0 }),
    {
        Self::new()
    }
}

} // verus!
