//! The FluxPack decoder: takes a FluxPack stream and rebuilds the JSON.
use vstd::prelude::*;
use crate::error::FluxPackError;
use crate::json::{Json, JsonValue, values_view, lemma_values_view_push};
use crate::symbol_table::{SymbolTable, TableModel, predefined_model};
use crate::wire::{parse_def, parse_data_frame, remaining, decode_data_frame_at, read_def_at};

verus! {

/// Decoding frames from `pos`: DEF frames intern their keys, the first DATA frame gives
/// the result. The result and the table afterwards.
pub open spec fn decode_frames(s: Seq<u8>, pos: nat, table: TableModel) -> (Result<Json, FluxPackError>, TableModel)
    decreases remaining(s, pos),
{
    if pos >= s.len() {
        (Err(FluxPackError::MalformedFrame), table)
    } else {
        let tag = s[pos as int];
        if tag == 0x01 {
            match parse_def(s, pos + 1) {
                Ok((_t, key, c)) => {
                    let (r, t2) = table.intern(key);
                    match r {
                        Ok(_) => decode_frames(s, pos + 1 + c, t2),
                        Err(e) => (Err(e), t2),
                    }
                },
                Err(e) => (Err(e), table),
            }
        } else if tag == 0x02 {
            match parse_data_frame(s, pos + 1, table) {
                Ok((v, _c)) => (Ok(v), table),
                Err(e) => (Err(e), table),
            }
        } else {
            (Err(FluxPackError::InvalidValueType(tag)), table)
        }
    }
}

/// Decoding every frame from `pos`: DEF frames intern their keys, each DATA frame adds a
/// value to `acc`, an EOS frame (0xFF) ends the stream.
pub open spec fn decode_all_frames(s: Seq<u8>, pos: nat, table: TableModel, acc: Seq<Json>)
    -> (Result<Seq<Json>, FluxPackError>, TableModel)
    decreases remaining(s, pos),
{
    if pos >= s.len() {
        (Ok(acc), table)
    } else {
        let tag = s[pos as int];
        if tag == 0x01 {
            match parse_def(s, pos + 1) {
                Ok((_t, key, c)) => {
                    let (r, t2) = table.intern(key);
                    match r {
                        Ok(_) => decode_all_frames(s, pos + 1 + c, t2, acc),
                        Err(e) => (Err(e), t2),
                    }
                },
                Err(e) => (Err(e), table),
            }
        } else if tag == 0x02 {
            match parse_data_frame(s, pos + 1, table) {
                Ok((v, c)) => decode_all_frames(s, pos + 1 + c, table, acc.push(v)),
                Err(e) => (Err(e), table),
            }
        } else if tag == 0xFF {
            (Ok(acc), table)
        } else {
            (Err(FluxPackError::InvalidValueType(tag)), table)
        }
    }
}

/// The FluxPack decoder.
pub struct Decoder {
    symbol_table: SymbolTable,
}

impl View for Decoder {
    type V = TableModel;

    closed spec fn view(&self) -> TableModel {
        self.symbol_table@
    }
}

impl Decoder {
    pub open spec fn wf(&self) -> bool {
        self@.wf()
    }

    pub fn new() -> (d: Self)
        ensures
            d@ == predefined_model(),
            d.wf(),
    {
        Decoder { symbol_table: SymbolTable::new() }
    }

    /// Decode a FluxPack stream into a JSON value: DEF frames first, then one DATA frame.
    pub fn decode(&mut self, input: &[u8]) -> (r: Result<JsonValue, FluxPackError>)
        requires
            old(self).wf(),
        ensures
            final(self).wf(),
            ({
                let (sr, st) = decode_frames(input@, 0, old(self)@);
                &&& final(self)@ == st
                &&& match r {
                    Ok(v) => sr == Ok::<Json, FluxPackError>(v@),
                    Err(e) => sr == Err::<Json, FluxPackError>(e),
                }
            }),
    {
        let ilen = input.len();
        let mut cursor: usize = 0;
        while cursor < ilen
            invariant
                ilen == input@.len(),
                cursor <= ilen,
                self.wf(),
                decode_frames(input@, 0, old(self)@) == decode_frames(input@, cursor as nat, self@),
            decreases ilen - cursor,
        {
            let frame_type = input[cursor];
            cursor = cursor + 1;
            if frame_type == 0x01 {
                let (_token, key, consumed) = match read_def_at(input, cursor) {
                    Ok(x) => x,
                    Err(e) => {
                        return Err(e);
                    },
                };
                match self.symbol_table.intern(key) {
                    Ok(_) => {},
                    Err(e) => {
                        return Err(e);
                    },
                }
                cursor = cursor + consumed;
            } else if frame_type == 0x02 {
                return match decode_data_frame_at(input, cursor, &self.symbol_table) {
                    Ok((v, _)) => Ok(v),
                    Err(e) => Err(e),
                };
            } else {
                return Err(FluxPackError::InvalidValueType(frame_type));
            }
        }
        Err(FluxPackError::MalformedFrame)
    }

    /// Decode every DATA frame of a stream, in order.
    pub fn decode_all(&mut self, input: &[u8]) -> (r: Result<Vec<JsonValue>, FluxPackError>)
        requires
            old(self).wf(),
        ensures
            final(self).wf(),
            ({
                let (sr, st) = decode_all_frames(input@, 0, old(self)@, Seq::empty());
                &&& final(self)@ == st
                &&& match r {
                    Ok(vs) => sr == Ok::<Seq<Json>, FluxPackError>(values_view(vs@)),
                    Err(e) => sr == Err::<Seq<Json>, FluxPackError>(e),
                }
            }),
    {
        let ilen = input.len();
        let mut cursor: usize = 0;
        let mut results: Vec<JsonValue> = Vec::new();
        assert(values_view(results@) =~= Seq::<Json>::empty());
        while cursor < ilen
            invariant
                ilen == input@.len(),
                cursor <= ilen,
                self.wf(),
                decode_all_frames(input@, 0, old(self)@, Seq::empty())
                    == decode_all_frames(input@, cursor as nat, self@, values_view(results@)),
            decreases ilen - cursor,
        {
            let frame_type = input[cursor];
            cursor = cursor + 1;
            if frame_type == 0x01 {
                let (_token, key, consumed) = match read_def_at(input, cursor) {
                    Ok(x) => x,
                    Err(e) => {
                        return Err(e);
                    },
                };
                match self.symbol_table.intern(key) {
                    Ok(_) => {},
                    Err(e) => {
                        return Err(e);
                    },
                }
                cursor = cursor + consumed;
            } else if frame_type == 0x02 {
                match decode_data_frame_at(input, cursor, &self.symbol_table) {
                    Ok((v, consumed)) => {
                        proof {
                            lemma_values_view_push(results@, v);
                        }
                        results.push(v);
                        cursor = cursor + consumed;
                    },
                    Err(e) => {
                        return Err(e);
                    },
                }
            } else if frame_type == 0xFF {
                return Ok(results);
            } else {
                return Err(FluxPackError::InvalidValueType(frame_type));
            }
        }
        Ok(results)
    }

    /// Reset the decoder state (the table goes back to its pre-defined keys).
    pub fn reset(&mut self)
        ensures
            final(self)@ == predefined_model(),
            final(self).wf(),
    {
        self.symbol_table.reset();
    }
}

impl Default for Decoder {
    fn default() -> (d: Self)
        ensures
            d@ == predefined_model(),
    {
        Self::new()
    }
}

} // verus!
