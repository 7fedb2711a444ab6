//! The FluxPack encoder: takes a JSON object and emits a FluxPack binary stream.
use vstd::prelude::*;
use crate::inline::{encode_inline, inline_eligible, inline_bytes, lemma_inline_bytes_len, INLINE_THRESHOLD};
use vstd::bytes::spec_u64_to_le_bytes;
use crate::error::FluxPackError;
use crate::json::{Json, JsonNumber, JsonValue, values_view, fields_view, lemma_array_view, lemma_object_view};
use crate::symbol_table::{
    SymbolTable, TableModel, predefined_model, intern_all, keys_in, mark_all, lemma_intern_all_concat,
    lemma_intern_all_keeps, lemma_intern_all_one, lemma_pending_tokens, lemma_mark_all_keeps, pairs_match,
};
use crate::varint::{encode_varint, encode_signed_varint, varint_bytes, signed_varint_bytes};
use crate::wire::{
    value_bytes, items_bytes, fields_bytes, number_bytes, str_bytes, json_keys, items_keys, fields_keys,
    defs_bytes, data_frame_bytes, push_bytes, lemma_fields_keys_in, lemma_items_keys_in,
    lemma_fields_keys_prefix, lemma_items_keys_prefix,
};
use crate::MAX_TOKENS;
use crate::columnar::{columns_of, columnar_bytes, try_columnarize, encode_columnar};

verus! {

/// The state of an encoder.
pub ghost struct EncoderModel {
    pub table: TableModel,
    /// The bytes of the last encode call.
    pub output: Seq<u8>,
    /// Schema fingerprint seen by the previous encode call (0: none).
    pub prev_fp: u64,
    pub zigzag: bool,
    pub inline_mode: bool,
    pub columnar_threshold: usize,
    pub debug_mode: bool,
    pub skip_defs: bool,
}

/// What `encode` does to an encoder in state `e` with the object `fields`, once the
/// schema fingerprint has come out as `fp`: intern every key, emit the pending DEF frames
/// unless the fingerprint equals the previous one, then one DATA frame.
pub open spec fn encode_outcome(e: EncoderModel, fields: Seq<(Seq<char>, Json)>, fp: u64)
    -> (Result<(), FluxPackError>, EncoderModel)
{
    let (r1, t1) = intern_all(e.table, fields_keys(fields, fields.len()));
    match r1 {
        Err(err) => (Err(err), EncoderModel { table: t1, output: Seq::empty(), ..e }),
        Ok(_) => {
            let t2 = TableModel { fp, ..t1 };
            let skip = e.prev_fp != 0 && e.prev_fp == fp;
            let p = t2.pending();
            let t3 = if skip { t2 } else { mark_all(t2, p) };
            let defs = if skip { Seq::empty() } else { defs_bytes(p) };
            (
                Ok(()),
                EncoderModel {
                    table: t3,
                    output: defs + data_frame_bytes(fields, t1.index, e.zigzag),
                    prev_fp: fp,
                    ..e
                },
            )
        },
    }
}

/// A new encoder: the pre-defined table, nothing written, no fingerprint seen, ZigZag on,
/// inline mode off, columnar arrays from 3 elements.
pub open spec fn fresh_encoder() -> EncoderModel {
    EncoderModel {
        table: predefined_model(),
        output: Seq::empty(),
        prev_fp: 0,
        zigzag: true,
        inline_mode: false,
        columnar_threshold: 3,
        debug_mode: false,
        skip_defs: false,
    }
}

/// A field value as `encode_with_columnar` writes it: an array of at least `threshold`
/// objects sharing their keys as a columnar value, anything else as `encode` writes it.
pub open spec fn col_value_bytes(v: Json, index: Map<Seq<char>, u16>, zigzag: bool, threshold: usize) -> Seq<u8> {
    match v {
        Json::Arr(items) => if items.len() >= threshold && columns_of(items) is Some {
            let cb = columnar_bytes(items, columns_of(items)->Some_0);
            seq![0x0Du8] + varint_bytes(cb.len() as u64) + cb
        } else {
            value_bytes(v, index, zigzag)
        },
        _ => value_bytes(v, index, zigzag),
    }
}

/// The first `n` fields as `encode_with_columnar` writes them.
pub open spec fn col_fields_bytes(
    fields: Seq<(Seq<char>, Json)>,
    n: nat,
    index: Map<Seq<char>, u16>,
    zigzag: bool,
    threshold: usize,
) -> Seq<u8>
    decreases n,
{
    if n == 0 || n > fields.len() {
        Seq::empty()
    } else {
        col_fields_bytes(fields, (n - 1) as nat, index, zigzag, threshold)
            + varint_bytes(index[fields[n - 1].0] as u64) + col_value_bytes(fields[n - 1].1, index, zigzag, threshold)
    }
}

/// What `encode_with_columnar` does: as `encode`, with arrays of objects as columns.
pub open spec fn columnar_outcome(e: EncoderModel, fields: Seq<(Seq<char>, Json)>, fp: u64)
    -> (Result<(), FluxPackError>, EncoderModel)
{
    let (r1, t1) = intern_all(e.table, fields_keys(fields, fields.len()));
    match r1 {
        Err(err) => (Err(err), EncoderModel { table: t1, output: Seq::empty(), ..e }),
        Ok(_) => {
            let t2 = TableModel { fp, ..t1 };
            let skip = e.prev_fp != 0 && e.prev_fp == fp;
            let p = t2.pending();
            let t3 = if skip { t2 } else { mark_all(t2, p) };
            let defs = if skip { Seq::empty() } else { defs_bytes(p) };
            (
                Ok(()),
                EncoderModel {
                    table: t3,
                    output: defs + seq![0x02u8] + varint_bytes(fields.len() as u64)
                        + col_fields_bytes(fields, fields.len(), t1.index, e.zigzag, e.columnar_threshold),
                    prev_fp: fp,
                    ..e
                },
            )
        },
    }
}

/// What the schema fingerprint of a successful `encode` is known to be: never 0, and the
/// table's cached one when interning the message's keys left it in place.
pub open spec fn fp_fits(e: EncoderModel, fields: Seq<(Seq<char>, Json)>, fp: u64) -> bool {
    let (r1, t1) = intern_all(e.table, fields_keys(fields, fields.len()));
    r1 is Ok ==> fp != 0 && (t1.fp != 0 ==> fp == t1.fp)
}

/// What `encode_data_only` does: intern every key, then one DATA frame and no DEF frame.
pub open spec fn data_only_outcome(e: EncoderModel, fields: Seq<(Seq<char>, Json)>)
    -> (Result<(), FluxPackError>, EncoderModel)
{
    let (r1, t1) = intern_all(e.table, fields_keys(fields, fields.len()));
    match r1 {
        Err(err) => (Err(err), EncoderModel { table: t1, output: Seq::empty(), ..e }),
        Ok(_) => (Ok(()), EncoderModel { table: t1, output: data_frame_bytes(fields, t1.index, e.zigzag), ..e }),
    }
}

/// The keys of the objects among the first `n` messages, in order.
pub open spec fn batch_keys(msgs: Seq<Json>, n: nat) -> Seq<Seq<char>>
    decreases n,
{
    if n == 0 || n > msgs.len() {
        Seq::empty()
    } else {
        batch_keys(msgs, (n - 1) as nat) + match msgs[n - 1] {
            Json::Obj(fields) => fields_keys(fields, fields.len()),
            _ => Seq::empty(),
        }
    }
}

/// The DATA frames of the first `n` messages (objects).
pub open spec fn frames_bytes(msgs: Seq<Json>, n: nat, index: Map<Seq<char>, u16>, zigzag: bool) -> Seq<u8>
    decreases n,
{
    if n == 0 || n > msgs.len() {
        Seq::empty()
    } else {
        frames_bytes(msgs, (n - 1) as nat, index, zigzag) + match msgs[n - 1] {
            Json::Obj(fields) => data_frame_bytes(fields, index, zigzag),
            _ => Seq::empty(),
        }
    }
}

/// How many messages from the `i`-th on are objects before the first that is not.
pub open spec fn leading_objects(msgs: Seq<Json>, i: int) -> int
    decreases msgs.len() - i,
{
    if i < 0 || i >= msgs.len() || !(msgs[i] is Obj) {
        i
    } else {
        leading_objects(msgs, i + 1)
    }
}

/// What `encode_batch` does: intern the keys of every object message; if a message is not
/// an object, fail with `ExpectedObject`, no bytes written and no DEF counted as sent;
/// otherwise emit every pending DEF frame, then a DATA frame per message.
pub open spec fn batch_outcome(e: EncoderModel, msgs: Seq<Json>) -> (Result<(), FluxPackError>, EncoderModel) {
    if msgs.len() == 0 {
        (Ok(()), EncoderModel { output: Seq::empty(), ..e })
    } else {
        let (r1, t1) = intern_all(e.table, batch_keys(msgs, msgs.len()));
        match r1 {
            Err(err) => (Err(err), EncoderModel { table: t1, output: Seq::empty(), ..e }),
            Ok(_) => if leading_objects(msgs, 0) != msgs.len() {
                (Err(FluxPackError::ExpectedObject), EncoderModel { table: t1, output: Seq::empty(), ..e })
            } else {
                let p = t1.pending();
                (
                    Ok(()),
                    EncoderModel {
                        table: mark_all(t1, p),
                        output: defs_bytes(p) + frames_bytes(msgs, msgs.len(), t1.index, e.zigzag),
                        ..e
                    },
                )
            },
        }
    }
}

pub proof fn lemma_leading_objects(msgs: Seq<Json>, k: int, i: int)
    requires
        0 <= k <= i <= msgs.len(),
        forall|j: int| k <= j < i ==> (#[trigger] msgs[j]) is Obj,
        i == msgs.len() || !(msgs[i] is Obj),
    ensures
        leading_objects(msgs, k) == i,
    decreases i - k,
{
    if k < i {
        lemma_leading_objects(msgs, k + 1, i);
    }
}

/// The keys of an object message are among the batch's keys.
pub proof fn lemma_batch_keys_in(msgs: Seq<Json>, n: nat, i: int, index: Map<Seq<char>, u16>)
    requires
        0 <= i < n <= msgs.len(),
        keys_in(batch_keys(msgs, n), index),
        msgs[i] is Obj,
    ensures
        keys_in(fields_keys(msgs[i]->Obj_0, msgs[i]->Obj_0.len()), index),
    decreases n,
{
    let pre = batch_keys(msgs, (n - 1) as nat);
    let post = match msgs[n - 1] {
        Json::Obj(fields) => fields_keys(fields, fields.len()),
        _ => Seq::empty(),
    };
    assert(batch_keys(msgs, n) == pre + post);
    if i == n - 1 {
        assert forall|j: int| 0 <= j < post.len() implies index.dom().contains(#[trigger] post[j]) by {
            assert((pre + post)[pre.len() + j] == post[j]);
        }
    } else {
        assert forall|j: int| 0 <= j < pre.len() implies index.dom().contains(#[trigger] pre[j]) by {
            assert((pre + post)[j] == pre[j]);
        }
        lemma_batch_keys_in(msgs, (n - 1) as nat, i, index);
    }
}


/// When interning the first `n` messages' keys failed, interning all of them fails the same way.
proof fn lemma_intern_all_prefix_err(t: TableModel, pre: Seq<Seq<char>>, msgs: Seq<Json>, n: nat)
    requires
        pre == batch_keys(msgs, n),
        n <= msgs.len(),
        intern_all(t, pre).0 is Err,
    ensures
        intern_all(t, batch_keys(msgs, msgs.len())) == intern_all(t, pre),
    decreases msgs.len() - n,
{
    if n < msgs.len() {
        let post = match msgs[n as int] {
            Json::Obj(fields) => fields_keys(fields, fields.len()),
            _ => Seq::empty(),
        };
        assert(batch_keys(msgs, n + 1) == pre + post);
        lemma_intern_all_concat(t, pre, post);
        lemma_intern_all_prefix_err(t, pre + post, msgs, n + 1);
    }
}

/// The FluxPack encoder.
pub struct Encoder {
    symbol_table: SymbolTable,
    output: Vec<u8>,
    /// Scratch buffer for columnar encoding (reused across calls).
    col_buf: Vec<u8>,
    debug_mode: bool,
    /// Minimum array length for columnar encoding.
    columnar_threshold: usize,
    /// Previous schema fingerprint, for skipping DEF frames.
    previous_schema_fp: u64,
    /// ZigZag encoding for signed integers (default: true).
    zigzag: bool,
    /// Skip DEF frame emission (for parallel batch encoding).
    skip_defs: bool,
    /// Compact inline format for small payloads.
    inline_mode: bool,
}

impl View for Encoder {
    type V = EncoderModel;

    closed spec fn view(&self) -> EncoderModel {
        EncoderModel {
            table: self.symbol_table@,
            output: self.output@,
            prev_fp: self.previous_schema_fp,
            zigzag: self.zigzag,
            inline_mode: self.inline_mode,
            columnar_threshold: self.columnar_threshold,
            debug_mode: self.debug_mode,
            skip_defs: self.skip_defs,
        }
    }
}

impl Encoder {
    pub open spec fn wf(&self) -> bool {
        self@.table.wf()
    }

    pub fn new() -> (e: Self)
        ensures
            e.wf(),
            e@ == fresh_encoder(),
    {
        Encoder {
            symbol_table: SymbolTable::with_predefined(),
            output: Vec::with_capacity(4096),
            col_buf: Vec::with_capacity(2048),
            debug_mode: false,
            columnar_threshold: 3,
            previous_schema_fp: 0,
            zigzag: true,
            skip_defs: false,
            inline_mode: false,
        }
    }

    /// Enable or disable inline mode for small payloads.
    pub fn set_inline_mode(&mut self, enabled: bool)
        ensures
            final(self)@ == (EncoderModel { inline_mode: enabled, ..old(self)@ }),
    {
        self.inline_mode = enabled;
    }

    /// Enable debug mode.
    pub fn set_debug_mode(&mut self, enabled: bool)
        ensures
            final(self)@ == (EncoderModel { debug_mode: enabled, ..old(self)@ }),
    {
        self.debug_mode = enabled;
    }

    /// Set the minimum array length for columnar encoding (0 = disabled).
    pub fn set_columnar_threshold(&mut self, threshold: usize)
        ensures
            final(self)@ == (EncoderModel { columnar_threshold: threshold, ..old(self)@ }),
    {
        self.columnar_threshold = threshold;
    }

    /// Enable/disable ZigZag encoding for signed integers.
    pub fn set_zigzag(&mut self, enabled: bool)
        ensures
            final(self)@ == (EncoderModel { zigzag: enabled, ..old(self)@ }),
    {
        self.zigzag = enabled;
    }

    /// Enable/disable skipping DEF frame emission.
    pub fn set_skip_defs(&mut self, skip: bool)
        ensures
            final(self)@ == (EncoderModel { skip_defs: skip, ..old(self)@ }),
    {
        self.skip_defs = skip;
    }

    /// Get the current symbol table size.
    pub fn symbol_table_size(&self) -> (n: usize)
        ensures
            n == (if self@.table.keys.len() >= 1 { self@.table.keys.len() - 1 } else { 0 }),
    {
        self.symbol_table.size()
    }

    /// Reset the encoder state (clears symbol table and buffers).
    pub fn reset(&mut self)
        ensures
            final(self).wf(),
            final(self)@ == (EncoderModel {
                table: predefined_model(),
                output: Seq::empty(),
                prev_fp: 0,
                ..old(self)@
            }),
    {
        self.symbol_table.reset();
        self.output.clear();
        self.col_buf.clear();
        self.previous_schema_fp = 0;
    }

    /// Interns every key inside `value`, depth first.
    fn intern_nested_keys(&mut self, value: &JsonValue) -> (r: Result<(), FluxPackError>)
        requires
            old(self).wf(),
        ensures
            final(self).wf(),
            r is Ok <==> intern_all(old(self)@.table, json_keys(value@)).0 is Ok,
            r matches Err(e) ==> intern_all(old(self)@.table, json_keys(value@)).0 == Err::<(), FluxPackError>(e),
            final(self)@.table == intern_all(old(self)@.table, json_keys(value@)).1,
            final(self)@ == (EncoderModel { table: final(self)@.table, ..old(self)@ }),
        decreases value@,
    {
        match value {
            JsonValue::Object(obj) => {
                proof {
                    lemma_object_view(*obj);
                }
                let ghost fv = fields_view(obj@);
                let ghost t0 = self@.table;
                let mut i: usize = 0;
                while i < obj.len()
                    invariant
                        i <= obj@.len(),
                        fv == fields_view(obj@),
                        value@ == Json::Obj(fv),
                        self.wf(),
                        intern_all(t0, fields_keys(fv, i as nat)).0 is Ok,
                        intern_all(t0, fields_keys(fv, i as nat)).1 == self@.table,
                        self@ == (EncoderModel { table: self@.table, ..old(self)@ }),
                        t0 == old(self)@.table,
                    decreases obj.len() - i,
                {
                    let ghost ti = self@.table;
                    let ghost k = obj@[i as int].0@;
                    let ghost v = obj@[i as int].1@;
                    assert(fv[i as int] == (k, v));
                    assert(fields_keys(fv, (i + 1) as nat) == fields_keys(fv, i as nat) + seq![k] + json_keys(v));
                    proof {
                        lemma_intern_all_concat(t0, fields_keys(fv, i as nat), seq![k]);
                        lemma_intern_all_one(ti, k);
                        lemma_intern_all_concat(t0, fields_keys(fv, i as nat) + seq![k], json_keys(v));
                        lemma_fields_keys_prefix(fv, (i + 1) as nat, fv.len());
                        lemma_intern_all_concat(
                            t0,
                            fields_keys(fv, (i + 1) as nat),
                            fields_keys(fv, fv.len()).skip(fields_keys(fv, (i + 1) as nat).len() as int),
                        );
                    }
                    match self.symbol_table.intern(&obj[i].0) {
                        Ok(_) => {},
                        Err(e) => {
                            return Err(e);
                        },
                    }
                    proof {
                        assert(value@->Obj_0 == fv);
                        assert(decreases_to!(value@ => fv));
                        assert(decreases_to!(fv => fv[i as int]));
                        assert(decreases_to!(fv[i as int] => fv[i as int].1));
                        assert(fv[i as int].1 == obj@[i as int].1@);
                    }
                    let ghost t1 = self@.table;
                    match self.intern_nested_keys(&obj[i].1) {
                        Ok(_) => {},
                        Err(e) => {
                            return Err(e);
                        },
                    }
                    i = i + 1;
                }
                Ok(())
            },
            JsonValue::Array(arr) => {
                proof {
                    lemma_array_view(*arr);
                }
                let ghost vv = values_view(arr@);
                let ghost t0 = self@.table;
                let mut i: usize = 0;
                while i < arr.len()
                    invariant
                        i <= arr@.len(),
                        vv == values_view(arr@),
                        value@ == Json::Arr(vv),
                        self.wf(),
                        intern_all(t0, items_keys(vv, i as nat)).0 is Ok,
                        intern_all(t0, items_keys(vv, i as nat)).1 == self@.table,
                        self@ == (EncoderModel { table: self@.table, ..old(self)@ }),
                        t0 == old(self)@.table,
                    decreases arr.len() - i,
                {
                    let ghost v = arr@[i as int]@;
                    assert(vv[i as int] == v);
                    assert(items_keys(vv, (i + 1) as nat) == items_keys(vv, i as nat) + json_keys(v));
                    proof {
                        lemma_intern_all_concat(t0, items_keys(vv, i as nat), json_keys(v));
                        lemma_items_keys_prefix(vv, (i + 1) as nat, vv.len());
                        lemma_intern_all_concat(
                            t0,
                            items_keys(vv, (i + 1) as nat),
                            items_keys(vv, vv.len()).skip(items_keys(vv, (i + 1) as nat).len() as int),
                        );
                    }
                    proof {
                        assert(value@->Arr_0 == vv);
                        assert(decreases_to!(value@ => vv));
                        assert(decreases_to!(vv => vv[i as int]));
                        assert(vv[i as int] == arr@[i as int]@);
                    }
                    match self.intern_nested_keys(&arr[i]) {
                        Ok(_) => {},
                        Err(e) => {
                            return Err(e);
                        },
                    }
                    i = i + 1;
                }
                Ok(())
            },
            _ => {
                Ok(())
            },
        }
    }

    /// Appends one value in the standard format; every key inside it already has a token.
    fn encode_value(&mut self, value: &JsonValue) -> (r: Result<(), FluxPackError>)
        requires
            old(self).wf(),
            keys_in(json_keys(value@), old(self)@.table.index),
        ensures
            r is Ok,
            final(self)@ == (EncoderModel {
                output: old(self)@.output + value_bytes(value@, old(self)@.table.index, old(self)@.zigzag),
                ..old(self)@
            }),
        decreases value@,
    {
        let ghost index = self@.table.index;
        let ghost zz = self@.zigzag;
        match value {
            JsonValue::Null => {
                self.output.push(0x00);
                assert(self.output@ =~= old(self)@.output + seq![0x00u8]);
            },
            JsonValue::Bool(b) => {
                if *b {
                    self.output.push(0x01);
                    assert(self.output@ =~= old(self)@.output + seq![0x01u8]);
                } else {
                    self.output.push(0x02);
                    assert(self.output@ =~= old(self)@.output + seq![0x02u8]);
                }
            },
            JsonValue::Number(n) => {
                match n {
                    JsonNumber::Int(i) => {
                        self.output.push(0x03);
                        if self.zigzag {
                            encode_signed_varint(*i, &mut self.output);
                        } else {
                            encode_varint(*i as u64, &mut self.output);
                        }
                    },
                    JsonNumber::UInt(u) => {
                        self.output.push(0x04);
                        encode_varint(*u, &mut self.output);
                    },
                    JsonNumber::Float(bits) => {
                        self.output.push(0x06);
                        let le = vstd::bytes::u64_to_le_bytes(*bits);
                        push_bytes(&mut self.output, le.as_slice());
                    },
                }
                assert(self.output@ =~= old(self)@.output + number_bytes(*n, zz));
                assert(value@ == Json::Num(*n));
                assert(value_bytes(value@, index, zz) == number_bytes(*n, zz));
            },
            JsonValue::String(s) => {
                self.output.push(0x05);
                let bytes = s.as_str().as_bytes();
                encode_varint(bytes.len() as u64, &mut self.output);
                push_bytes(&mut self.output, bytes);
                assert(self.output@ =~= old(self)@.output + seq![0x05u8] + str_bytes(s@));
                assert(value@ == Json::Str(s@));
            },
            JsonValue::Array(arr) => {
                proof {
                    lemma_array_view(*arr);
                }
                let ghost vv = values_view(arr@);
                self.output.push(0x09);
                encode_varint(arr.len() as u64, &mut self.output);
                let ghost start = self.output@;
                let mut i: usize = 0;
                while i < arr.len()
                    invariant
                        i <= arr@.len(),
                        vv == values_view(arr@),
                        value@ == Json::Arr(vv),
                        keys_in(items_keys(vv, vv.len()), index),
                        self.wf(),
                        self@ == (EncoderModel { output: self@.output, ..old(self)@ }),
                        index == old(self)@.table.index,
                        zz == old(self)@.zigzag,
                        self.output@ == start + items_bytes(vv, i as nat, index, zz),
                    decreases arr.len() - i,
                {
                    proof {
                        lemma_items_keys_in(vv, vv.len(), i as int, index);
                    }
                    assert(vv[i as int] == arr@[i as int]@);
                    proof {
                        assert(value@->Arr_0 == vv);
                        assert(decreases_to!(value@ => vv));
                        assert(decreases_to!(vv => vv[i as int]));
                        assert(vv[i as int] == arr@[i as int]@);
                    }
                    match self.encode_value(&arr[i]) {
                        Ok(_) => {},
                        Err(e) => {
                            return Err(e);
                        },
                    }
                    i = i + 1;
                    assert(items_bytes(vv, i as nat, index, zz) == items_bytes(vv, (i - 1) as nat, index, zz)
                        + value_bytes(vv[i - 1], index, zz));
                }
                assert(self.output@ =~= old(self)@.output + value_bytes(value@, index, zz));
            },
            JsonValue::Object(obj) => {
                proof {
                    lemma_object_view(*obj);
                }
                let ghost fv = fields_view(obj@);
                self.output.push(0x0A);
                encode_varint(obj.len() as u64, &mut self.output);
                let ghost start = self.output@;
                let mut i: usize = 0;
                while i < obj.len()
                    invariant
                        i <= obj@.len(),
                        fv == fields_view(obj@),
                        value@ == Json::Obj(fv),
                        keys_in(fields_keys(fv, fv.len()), index),
                        self.wf(),
                        self@ == (EncoderModel { output: self@.output, ..old(self)@ }),
                        index == old(self)@.table.index,
                        zz == old(self)@.zigzag,
                        self.output@ == start + fields_bytes(fv, i as nat, index, zz),
                    decreases obj.len() - i,
                {
                    proof {
                        lemma_fields_keys_in(fv, fv.len(), i as int, index);
                    }
                    assert(fv[i as int] == (obj@[i as int].0@, obj@[i as int].1@));
                    let token = match self.symbol_table.intern(&obj[i].0) {
                        Ok(t) => t,
                        Err(e) => {
                            return Err(e);
                        },
                    };
                    encode_varint(token as u64, &mut self.output);
                    proof {
                        assert(value@->Obj_0 == fv);
                        assert(decreases_to!(value@ => fv));
                        assert(decreases_to!(fv => fv[i as int]));
                        assert(decreases_to!(fv[i as int] => fv[i as int].1));
                        assert(fv[i as int].1 == obj@[i as int].1@);
                    }
                    match self.encode_value(&obj[i].1) {
                        Ok(_) => {},
                        Err(e) => {
                            return Err(e);
                        },
                    }
                    i = i + 1;
                    assert(fields_bytes(fv, i as nat, index, zz) == fields_bytes(fv, (i - 1) as nat, index, zz)
                        + varint_bytes(index[fv[i - 1].0] as u64) + value_bytes(fv[i - 1].1, index, zz));
                }
                assert(self.output@ =~= old(self)@.output + value_bytes(value@, index, zz));
            },
        }
        assert(self.output@ =~= old(self)@.output + value_bytes(value@, index, zz));
        Ok(())
    }

    /// Appends a DATA frame for the object with these fields; every key inside it already
    /// has a token.
    fn write_data_frame(&mut self, obj: &Vec<(String, JsonValue)>) -> (r: Result<(), FluxPackError>)
        requires
            old(self).wf(),
            keys_in(fields_keys(fields_view(obj@), obj@.len()), old(self)@.table.index),
        ensures
            r is Ok,
            final(self)@ == (EncoderModel {
                output: old(self)@.output + data_frame_bytes(fields_view(obj@), old(self)@.table.index, old(self)@.zigzag),
                ..old(self)@
            }),
    {
        let ghost index = self@.table.index;
        let ghost zz = self@.zigzag;
        let ghost fv = fields_view(obj@);
        self.output.push(0x02);
        encode_varint(obj.len() as u64, &mut self.output);
        let ghost start = self.output@;
        let mut i: usize = 0;
        while i < obj.len()
            invariant
                i <= obj@.len(),
                fv == fields_view(obj@),
                fv.len() == obj@.len(),
                keys_in(fields_keys(fv, fv.len()), index),
                self.wf(),
                self@ == (EncoderModel { output: self@.output, ..old(self)@ }),
                index == old(self)@.table.index,
                zz == old(self)@.zigzag,
                start == old(self)@.output + seq![0x02u8] + varint_bytes(obj@.len() as u64),
                self.output@ == start + fields_bytes(fv, i as nat, index, zz),
            decreases obj.len() - i,
        {
            proof {
                lemma_fields_keys_in(fv, fv.len(), i as int, index);
            }
            assert(fv[i as int] == (obj@[i as int].0@, obj@[i as int].1@));
            let token = match self.symbol_table.intern(&obj[i].0) {
                Ok(t) => t,
                Err(e) => {
                    return Err(e);
                },
            };
            encode_varint(token as u64, &mut self.output);
            match self.encode_value(&obj[i].1) {
                Ok(_) => {},
                Err(e) => {
                    return Err(e);
                },
            }
            i = i + 1;
            assert(fields_bytes(fv, i as nat, index, zz) == fields_bytes(fv, (i - 1) as nat, index, zz)
                + varint_bytes(index[fv[i - 1].0] as u64) + value_bytes(fv[i - 1].1, index, zz));
        }
        assert(self.output@ =~= old(self)@.output + data_frame_bytes(fv, index, zz));
        Ok(())
    }

    /// Encode a JSON message into a FluxPack binary stream.
    /// DEF frames are emitted for new keys only; a message whose schema fingerprint equals
    /// the previous one's skips them.
    pub fn encode(&mut self, message: &JsonValue) -> (r: Result<&[u8], FluxPackError>)
        requires
            old(self).wf(),
        ensures
            final(self).wf(),
            match message@ {
                Json::Obj(fields) => if old(self)@.inline_mode && inline_eligible(fields) {
                    &&& final(self)@ == (EncoderModel { output: inline_bytes(fields), ..old(self)@ })
                    &&& r matches Ok(b) && b@ == final(self)@.output
                } else {
                    let (res, e2) = encode_outcome(old(self)@, fields, final(self)@.prev_fp);
                    &&& final(self)@ == e2
                    &&& fp_fits(old(self)@, fields, final(self)@.prev_fp)
                    &&& match r {
                        Ok(b) => res is Ok && b@ == final(self)@.output,
                        Err(e) => res == Err::<(), FluxPackError>(e),
                    }
                },
                _ => {
                    &&& r == Err::<&[u8], FluxPackError>(FluxPackError::ExpectedObject)
                    &&& final(self)@ == (EncoderModel { output: Seq::empty(), ..old(self)@ })
                },
            },
    {
        self.output.clear();
        let obj = match message {
            JsonValue::Object(o) => o,
            _ => {
                return Err(FluxPackError::ExpectedObject);
            },
        };
        proof {
            lemma_object_view(*obj);
        }
        let ghost fv = fields_view(obj@);
        if self.inline_mode {
            let inline_result = encode_inline(obj);
            proof {
                if inline_eligible(fv) {
                    lemma_inline_bytes_len(fv);
                }
            }
            if inline_result.len() > 0 && inline_result.len() <= INLINE_THRESHOLD {
                self.output = inline_result;
                return Ok(self.output.as_slice());
            }
        }
        let ghost e0 = old(self)@;
        let ghost ks = fields_keys(fv, fv.len());
        proof {
            lemma_intern_all_keeps(e0.table, ks);
        }
        match self.intern_nested_keys(message) {
            Ok(_) => {},
            Err(e) => {
                return Err(e);
            },
        }
        let current_fp = self.symbol_table.schema_fingerprint();
        let schema_unchanged = self.previous_schema_fp != 0 && self.previous_schema_fp == current_fp;
        self.previous_schema_fp = current_fp;
        if !schema_unchanged {
            match self.emit_pending_defs() {
                Ok(_) => {},
                Err(e) => {
                    return Err(e);
                },
            }
        }
        proof {
            lemma_mark_all_keeps(TableModel { fp: current_fp, ..intern_all(e0.table, ks).1 },
                TableModel { fp: current_fp, ..intern_all(e0.table, ks).1 }.pending());
        }
        match self.write_data_frame(obj) {
            Ok(_) => {},
            Err(e) => {
                return Err(e);
            },
        }
        assert(self.output@ =~= encode_outcome(e0, fv, current_fp).1.output);
        Ok(self.output.as_slice())
    }

    /// Encode multiple messages with a shared schema: the DEF frames once for the batch,
    /// then all DATA frames.
    pub fn encode_batch(&mut self, messages: &[JsonValue]) -> (r: Result<&[u8], FluxPackError>)
        requires
            old(self).wf(),
        ensures
            final(self).wf(),
            ({
                let (res, e2) = batch_outcome(old(self)@, values_view(messages@));
                &&& final(self)@ == e2
                &&& match r {
                    Ok(b) => res is Ok && b@ == final(self)@.output,
                    Err(e) => res == Err::<(), FluxPackError>(e),
                }
            }),
    {
        self.output.clear();
        let ghost msgs = values_view(messages@);
        let ghost e0 = old(self)@;
        if messages.len() == 0 {
            return Ok(self.output.as_slice());
        }
        let mut i: usize = 0;
        while i < messages.len()
            invariant
                i <= messages@.len(),
                msgs == values_view(messages@),
                messages@.len() > 0,
                e0 == old(self)@,
                self.wf(),
                intern_all(e0.table, batch_keys(msgs, i as nat)).0 is Ok,
                intern_all(e0.table, batch_keys(msgs, i as nat)).1 == self@.table,
                self@ == (EncoderModel { table: self@.table, output: Seq::empty(), ..e0 }),
            decreases messages.len() - i,
        {
            let ghost ti = self@.table;
            let ghost post = match msgs[i as int] {
                Json::Obj(fields) => fields_keys(fields, fields.len()),
                _ => Seq::empty(),
            };
            assert(batch_keys(msgs, (i + 1) as nat) == batch_keys(msgs, i as nat) + post);
            proof {
                lemma_intern_all_concat(e0.table, batch_keys(msgs, i as nat), post);
            }
            match &messages[i] {
                JsonValue::Object(o) => {
                    proof {
                        lemma_object_view(*o);
                    }
                    match self.intern_nested_keys(&messages[i]) {
                        Ok(_) => {},
                        Err(e) => {
                            assert(json_keys(messages@[i as int]@) == post);
                            assert(intern_all(ti, post).0 == Err::<(), FluxPackError>(e));
                            assert(intern_all(e0.table, batch_keys(msgs, (i + 1) as nat)) == intern_all(ti, post));
                            proof {
                                lemma_intern_all_prefix_err(e0.table, batch_keys(msgs, (i + 1) as nat), msgs, (i + 1) as nat);
                            }
                            assert(intern_all(e0.table, batch_keys(msgs, msgs.len())).0 == Err::<(), FluxPackError>(e));
                            assert(intern_all(e0.table, batch_keys(msgs, msgs.len())).1 == self@.table);
                            assert(batch_outcome(e0, msgs).0 == Err::<(), FluxPackError>(e));
                            assert(self@ == batch_outcome(e0, msgs).1);
                            return Err(e);
                        },
                    }
                },
                _ => {
                    assert(post =~= Seq::<Seq<char>>::empty());
                    assert(batch_keys(msgs, i as nat) + post =~= batch_keys(msgs, i as nat));
                },
            }
            i = i + 1;
        }
        let ghost t1 = self@.table;
        proof {
            lemma_intern_all_keeps(e0.table, batch_keys(msgs, msgs.len()));
        }
        // a message that is not an object fails the batch before any DEF counts as sent
        let mut c: usize = 0;
        while c < messages.len()
            invariant
                c <= messages@.len(),
                msgs == values_view(messages@),
                msgs.len() == messages@.len(),
                forall|k: int| 0 <= k < c ==> (#[trigger] msgs[k]) is Obj,
                e0 == old(self)@,
                self.wf(),
                t1 == self@.table,
                intern_all(e0.table, batch_keys(msgs, msgs.len())).0 is Ok,
                intern_all(e0.table, batch_keys(msgs, msgs.len())).1 == t1,
                self@ == (EncoderModel { table: t1, output: Seq::empty(), ..e0 }),
            decreases messages.len() - c,
        {
            match &messages[c] {
                JsonValue::Object(o) => {
                    proof {
                        lemma_object_view(*o);
                    }
                },
                _ => {
                    assert(!(msgs[c as int] is Obj));
                    proof {
                        lemma_leading_objects(msgs, 0, c as int);
                    }
                    assert(batch_outcome(e0, msgs).1 == (EncoderModel { table: t1, output: Seq::empty(), ..e0 }));
                    return Err(FluxPackError::ExpectedObject);
                },
            }
            c = c + 1;
        }
        proof {
            lemma_leading_objects(msgs, 0, msgs.len() as int);
        }
        match self.emit_pending_defs() {
            Ok(_) => {},
            Err(e) => {
                return Err(e);
            },
        }
        proof {
            lemma_mark_all_keeps(t1, t1.pending());
        }
        let ghost out0 = self@.output;
        let mut j: usize = 0;
        while j < messages.len()
            invariant
                j <= messages@.len(),
                msgs == values_view(messages@),
                msgs.len() == messages@.len(),
                messages@.len() > 0,
                e0 == old(self)@,
                self.wf(),
                keys_in(batch_keys(msgs, msgs.len()), t1.index),
                self@.table.index == t1.index,
                self@ == (EncoderModel { output: self@.output, ..batch_outcome(e0, msgs).1 }),
                out0 == defs_bytes(t1.pending()),
                self@.output == out0 + frames_bytes(msgs, j as nat, t1.index, e0.zigzag),
                forall|k: int| 0 <= k < msgs.len() ==> (#[trigger] msgs[k]) is Obj,
                leading_objects(msgs, 0) == msgs.len(),
                t1 == intern_all(e0.table, batch_keys(msgs, msgs.len())).1,
                intern_all(e0.table, batch_keys(msgs, msgs.len())).0 is Ok,
            decreases messages.len() - j,
        {
            match &messages[j] {
                JsonValue::Object(o) => {
                    proof {
                        lemma_object_view(*o);
                        lemma_batch_keys_in(msgs, msgs.len(), j as int, t1.index);
                    }
                    assert(msgs[j as int] == Json::Obj(fields_view(o@)));
                    match self.write_data_frame(o) {
                        Ok(_) => {},
                        Err(e) => {
                            return Err(e);
                        },
                    }
                    assert(frames_bytes(msgs, (j + 1) as nat, t1.index, e0.zigzag)
                        == frames_bytes(msgs, j as nat, t1.index, e0.zigzag) + data_frame_bytes(fields_view(o@), t1.index, e0.zigzag));
                    assert(self@.output =~= out0 + frames_bytes(msgs, (j + 1) as nat, t1.index, e0.zigzag));
                },
                _ => {
                    assert(msgs[j as int] == messages@[j as int]@);
                    assert(!(msgs[j as int] is Obj));
                    return Err(FluxPackError::ExpectedObject);
                },
            }
            j = j + 1;
        }
        proof {
            lemma_leading_objects(msgs, 0, msgs.len() as int);
        }
        Ok(self.output.as_slice())
    }

    /// Encode only the DATA frame of a message (no DEF frames), for parallel batch encoding.
    pub fn encode_data_only(&mut self, message: &JsonValue) -> (r: Result<&[u8], FluxPackError>)
        requires
            old(self).wf(),
        ensures
            final(self).wf(),
            match message@ {
                Json::Obj(fields) => {
                    let (res, e2) = data_only_outcome(old(self)@, fields);
                    &&& final(self)@ == e2
                    &&& match r {
                        Ok(b) => res is Ok && b@ == final(self)@.output,
                        Err(e) => res == Err::<(), FluxPackError>(e),
                    }
                },
                _ => {
                    &&& r == Err::<&[u8], FluxPackError>(FluxPackError::ExpectedObject)
                    &&& final(self)@ == (EncoderModel { output: Seq::empty(), ..old(self)@ })
                },
            },
    {
        self.output.clear();
        let obj = match message {
            JsonValue::Object(o) => o,
            _ => {
                return Err(FluxPackError::ExpectedObject);
            },
        };
        proof {
            lemma_object_view(*obj);
        }
        let ghost fv = fields_view(obj@);
        let ghost e0 = old(self)@;
        proof {
            lemma_intern_all_keeps(e0.table, fields_keys(fv, fv.len()));
        }
        match self.intern_nested_keys(message) {
            Ok(_) => {},
            Err(e) => {
                return Err(e);
            },
        }
        match self.write_data_frame(obj) {
            Ok(_) => {},
            Err(e) => {
                return Err(e);
            },
        }
        Ok(self.output.as_slice())
    }

    /// Encode a JSON message, using columnar encoding for arrays of objects when
    /// beneficial.
    pub fn encode_with_columnar(&mut self, message: &JsonValue) -> (r: Result<&[u8], FluxPackError>)
        requires
            old(self).wf(),
        ensures
            final(self).wf(),
            match message@ {
                Json::Obj(fields) => {
                    let (res, e2) = columnar_outcome(old(self)@, fields, final(self)@.prev_fp);
                    &&& final(self)@ == e2
                    &&& fp_fits(old(self)@, fields, final(self)@.prev_fp)
                    &&& match r {
                        Ok(b) => res is Ok && b@ == final(self)@.output,
                        Err(e) => res == Err::<(), FluxPackError>(e),
                    }
                },
                _ => {
                    &&& r == Err::<&[u8], FluxPackError>(FluxPackError::ExpectedObject)
                    &&& final(self)@ == (EncoderModel { output: Seq::empty(), ..old(self)@ })
                },
            },
    {
        self.output.clear();
        let obj = match message {
            JsonValue::Object(o) => o,
            _ => {
                return Err(FluxPackError::ExpectedObject);
            },
        };
        proof {
            lemma_object_view(*obj);
        }
        let ghost fv = fields_view(obj@);
        let ghost e0 = old(self)@;
        let ghost ks = fields_keys(fv, fv.len());
        proof {
            lemma_intern_all_keeps(e0.table, ks);
        }
        match self.intern_nested_keys(message) {
            Ok(_) => {},
            Err(e) => {
                return Err(e);
            },
        }
        let current_fp = self.symbol_table.schema_fingerprint();
        let schema_unchanged = self.previous_schema_fp != 0 && self.previous_schema_fp == current_fp;
        self.previous_schema_fp = current_fp;
        if !schema_unchanged {
            match self.emit_pending_defs() {
                Ok(_) => {},
                Err(e) => {
                    return Err(e);
                },
            }
        }
        proof {
            lemma_mark_all_keeps(TableModel { fp: current_fp, ..intern_all(e0.table, ks).1 },
                TableModel { fp: current_fp, ..intern_all(e0.table, ks).1 }.pending());
        }
        match self.write_col_data_frame(obj) {
            Ok(_) => {},
            Err(e) => {
                return Err(e);
            },
        }
        assert(self.output@ =~= columnar_outcome(e0, fv, current_fp).1.output);
        Ok(self.output.as_slice())
    }

    /// Appends a field value as `encode_with_columnar` writes it.
    fn write_col_value(&mut self, v: &JsonValue) -> (r: Result<(), FluxPackError>)
        requires
            old(self).wf(),
            keys_in(json_keys(v@), old(self)@.table.index),
        ensures
            r is Ok,
            final(self)@ == (EncoderModel {
                output: old(self)@.output + col_value_bytes(v@, old(self)@.table.index, old(self)@.zigzag,
                    old(self)@.columnar_threshold),
                ..old(self)@
            }),
    {
        match v {
            JsonValue::Array(arr) => {
                proof {
                    lemma_array_view(*arr);
                }
                if arr.len() >= self.columnar_threshold {
                    match try_columnarize(arr.as_slice()) {
                        Some(columns) => {
                            self.output.push(0x0D);
                            self.col_buf.clear();
                            encode_columnar(arr.as_slice(), columns.as_slice(), &mut self.col_buf);
                            encode_varint(self.col_buf.len() as u64, &mut self.output);
                            push_bytes(&mut self.output, self.col_buf.as_slice());
                            assert(self.output@ =~= old(self)@.output + col_value_bytes(v@, old(self)@.table.index,
                                old(self)@.zigzag, old(self)@.columnar_threshold));
                            return Ok(());
                        },
                        None => {},
                    }
                }
            },
            _ => {},
        }
        self.encode_value(v)
    }

    /// Appends a DATA frame as `encode_with_columnar` writes it; every key inside the object
    /// already has a token.
    fn write_col_data_frame(&mut self, obj: &Vec<(String, JsonValue)>) -> (r: Result<(), FluxPackError>)
        requires
            old(self).wf(),
            keys_in(fields_keys(fields_view(obj@), obj@.len()), old(self)@.table.index),
        ensures
            r is Ok,
            final(self)@ == (EncoderModel {
                output: old(self)@.output + seq![0x02u8] + varint_bytes(obj@.len() as u64)
                    + col_fields_bytes(fields_view(obj@), obj@.len(), old(self)@.table.index, old(self)@.zigzag,
                        old(self)@.columnar_threshold),
                ..old(self)@
            }),
    {
        let ghost index = self@.table.index;
        let ghost zz = self@.zigzag;
        let ghost thr = self@.columnar_threshold;
        let ghost fv = fields_view(obj@);
        self.output.push(0x02);
        encode_varint(obj.len() as u64, &mut self.output);
        let ghost start = self.output@;
        let mut i: usize = 0;
        while i < obj.len()
            invariant
                i <= obj@.len(),
                fv == fields_view(obj@),
                fv.len() == obj@.len(),
                keys_in(fields_keys(fv, fv.len()), index),
                self.wf(),
                self@ == (EncoderModel { output: self@.output, ..old(self)@ }),
                index == old(self)@.table.index,
                zz == old(self)@.zigzag,
                thr == old(self)@.columnar_threshold,
                start == old(self)@.output + seq![0x02u8] + varint_bytes(obj@.len() as u64),
                self.output@ == start + col_fields_bytes(fv, i as nat, index, zz, thr),
            decreases obj.len() - i,
        {
            proof {
                lemma_fields_keys_in(fv, fv.len(), i as int, index);
            }
            assert(fv[i as int] == (obj@[i as int].0@, obj@[i as int].1@));
            let token = match self.symbol_table.intern(&obj[i].0) {
                Ok(t) => t,
                Err(e) => {
                    return Err(e);
                },
            };
            encode_varint(token as u64, &mut self.output);
            match self.write_col_value(&obj[i].1) {
                Ok(_) => {},
                Err(e) => {
                    return Err(e);
                },
            }
            i = i + 1;
            assert(col_fields_bytes(fv, i as nat, index, zz, thr) == col_fields_bytes(fv, (i - 1) as nat, index, zz, thr)
                + varint_bytes(index[fv[i - 1].0] as u64) + col_value_bytes(fv[i - 1].1, index, zz, thr));
        }
        assert(self.output@ =~= old(self)@.output + seq![0x02u8] + varint_bytes(obj@.len() as u64)
            + col_fields_bytes(fv, fv.len(), index, zz, thr));
        Ok(())
    }

    /// Copy the symbol table of another encoder (for parallel encoding).
    pub fn clone_table_from(&mut self, other: &SymbolTable)
        ensures
            final(self)@ == (EncoderModel { table: other@, ..old(self)@ }),
            other.wf() ==> final(self).wf(),
    {
        self.symbol_table = other.clone();
    }

    /// Emit all pending DEF frames in a single contiguous batch.
    fn emit_pending_defs(&mut self) -> (r: Result<(), FluxPackError>)
        requires
            old(self).wf(),
        ensures
            r is Ok,
            final(self).wf(),
            final(self)@ == (EncoderModel {
                table: mark_all(old(self)@.table, old(self)@.table.pending()),
                output: old(self)@.output + defs_bytes(old(self)@.table.pending()),
                ..old(self)@
            }),
    {
        let ghost t0 = self@.table;
        let ghost p = t0.pending();
        let pending = self.symbol_table.pending_defs();
        proof {
            lemma_pending_tokens(t0, 0);
        }
        let mut i: usize = 0;
        while i < pending.len()
            invariant
                i <= pending@.len(),
                pairs_match(pending@, p),
                p == t0.pending(),
                forall|j: int| 0 <= j < p.len() ==> #[trigger] p[j].0 < t0.next,
                t0.next <= MAX_TOKENS + 1,
                self.wf(),
                self@ == (EncoderModel {
                    table: mark_all(t0, p.subrange(0, i as int)),
                    output: old(self)@.output + defs_bytes(p.subrange(0, i as int)),
                    ..old(self)@
                }),
                t0 == old(self)@.table,
            decreases pending.len() - i,
        {
            let token = pending[i].0;
            assert(pending@[i as int].0 == p[i as int].0);
            if token > MAX_TOKENS {
                return Err(FluxPackError::TableOverflow);
            }
            let ghost out0 = self.output@;
            self.output.push(0x01);
            encode_varint(token as u64, &mut self.output);
            let key: &str = pending[i].1.as_str();
            let bytes = key.as_bytes();
            encode_varint(bytes.len() as u64, &mut self.output);
            push_bytes(&mut self.output, bytes);
            self.symbol_table.mark_def_emitted(token);
            proof {
                let q = p.subrange(0, i + 1);
                assert(q.drop_last() =~= p.subrange(0, i as int));
                assert(q.last() == p[i as int]);
                assert(key@ =~= p[i as int].1);
                assert(self.output@ =~= out0 + seq![0x01u8] + varint_bytes(token as u64) + str_bytes(p[i as int].1));
                lemma_mark_all_keeps(t0, p.subrange(0, i as int));
                assert(mark_all(t0, q) == mark_all(t0, p.subrange(0, i as int)).mark(token));
                assert(self@.table == mark_all(t0, q));
                assert(defs_bytes(q) == defs_bytes(p.subrange(0, i as int)) + seq![0x01u8] + varint_bytes(token as u64) + str_bytes(p[i as int].1));
                assert(self@.output == old(self)@.output + defs_bytes(q));
            }
            i = i + 1;
        }
        proof {
            assert(p.subrange(0, p.len() as int) =~= p);
        }
        Ok(())
    }
}

} // verus!
