//! What a columnar encoding gives back: an array written column by column is rebuilt, row
//! by row, as itself when every value survives its column's type.
use vstd::prelude::*;
use vstd::utf8::{encode_utf8, encode_utf8_valid_utf8, encode_utf8_decode_utf8};
use vstd::bytes::{spec_u64_to_le_bytes, spec_u64_from_le_bytes, lemma_auto_spec_u64_to_from_le_bytes};
use crate::error::FluxPackError;
use crate::json::{Json, JsonNumber};
use crate::varint::{varint_bytes, signed_varint_bytes, lemma_signed_varint_roundtrip};
use crate::wire::{json_wf, str_bytes, f64_bits_finite, obj_get, find_key_from, keys_distinct, fields_wf,
    key_wf, remaining, items_wf, json_keys, fields_keys, value_bytes, parse_value, parse_fields, parse_data_frame,
    obj_insert, defs_bytes};
use crate::columnar::{ColType, cell_bytes, cells_bytes, parse_cell, parse_cells, column_f64, column_f32, mixed_bytes,
    parse_mixed, number_f64_bits, as_i64_or_zero, as_u64_or_zero, lemma_f64_fields, lemma_flag_bits, flag_byte,
    row_flag, packed_flags, bool_column, parse_column, column_bytes, columns_bytes, columnar_bytes, parse_columns,
    parse_columnar, col_tag, col_of_tag, rebuilt_array, row_object, columns_of, classify, kinds};
use crate::roundtrip::{holds_at, lemma_holds_split, lemma_holds_skip, lemma_varint_at, lemma_fields_wf,
    lemma_find_key_none, lemma_items_wf, lemma_parse_value, lemma_fields_keys_contain, lemma_fields_keys_wf,
    lemma_fp_sync, lemma_defs_then_sync, lemma_keys_resolve, lemma_intern_all_sync, lemma_token_of,
    lemma_fresh_in_sync, keys_resolve, in_sync, def_keys};
use crate::symbol_table::{TableModel, intern_all, mark_all, predefined_model, lemma_intern_all_keeps};
use crate::encoder::{EncoderModel, col_value_bytes, col_fields_bytes, columnar_outcome, fresh_encoder};
use crate::decoder::decode_frames;
use crate::float_bits::{f64_fits_f32, narrow_f64, widen_f32, f32_bits_finite, lemma_widen_not_finite};
use vstd::bytes::{spec_u32_to_le_bytes, spec_u32_from_le_bytes, lemma_auto_spec_u32_to_from_le_bytes};

verus! {

/// Whether a value of a column of type `t` reads back as itself: a `Float32` column keeps
/// the finite doubles that a single holds exactly, an empty string reads back as `null`, and a mixed column carries no array,
/// object or integer above `i64::MAX`.
pub open spec fn cell_exact(t: ColType, v: Json) -> bool {
    match t {
        ColType::Null => v == Json::Null,
        ColType::Bool => v is Bool,
        ColType::Int => v matches Json::Num(JsonNumber::Int(_)),
        ColType::UInt => (v matches Json::Num(JsonNumber::Int(i)) && i >= 0)
            || (v matches Json::Num(JsonNumber::UInt(u)) && u > i64::MAX),
        ColType::Float64 => v matches Json::Num(JsonNumber::Float(b)) && f64_bits_finite(b),
        ColType::Float32 => v matches Json::Num(JsonNumber::Float(b)) && f64_bits_finite(b) && f64_fits_f32(b),
        ColType::String => v matches Json::Str(s) && s.len() > 0,
        ColType::Mixed => match v {
            Json::Null | Json::Bool(_) | Json::Str(_) => true,
            Json::Num(JsonNumber::Int(_)) => true,
            Json::Num(JsonNumber::Float(b)) => f64_bits_finite(b),
            _ => false,
        },
    }
}

/// The value of field `j` of each row.
pub open spec fn field_column(rows: Seq<Json>, j: int) -> Seq<Json> {
    Seq::new(rows.len(), |r: int| match rows[r] {
        Json::Obj(f) => f[j].1,
        _ => Json::Null,
    })
}

/// Every row holds field `j` under the key `k`, with a value exact for type `t`.
pub open spec fn column_ok(rows: Seq<Json>, j: int, k: Seq<char>, t: ColType) -> bool {
    forall|r: int| 0 <= r < rows.len() ==> ((#[trigger] rows[r]) matches Json::Obj(f) && 0 <= j < f.len()
        && f[j].0 == k && keys_distinct(f) && json_wf(f[j].1) && cell_exact(t, f[j].1))
}

/// In an object whose keys are distinct, the key of field `j` is found at `j`.
pub proof fn lemma_find_distinct(f: Seq<(Seq<char>, Json)>, j: int, i: int)
    requires
        keys_distinct(f),
        0 <= i <= j < f.len(),
    ensures
        find_key_from(f, f[j].0, i) == Some(j),
    decreases j - i,
{
    if i < j {
        assert(f[i].0 != f[j].0);
        lemma_find_distinct(f, j, i + 1);
    }
}

/// `mid` lies at `pos + pre.len()` when `pre + mid` begins what lies at `pos`.
pub proof fn lemma_holds_within(s: Seq<u8>, pos: nat, whole: Seq<u8>, pre: Seq<u8>, mid: Seq<u8>)
    requires
        holds_at(s, pos, whole),
        pre.len() + mid.len() <= whole.len(),
        whole.subrange(0, (pre.len() + mid.len()) as int) == pre + mid,
    ensures
        holds_at(s, pos + pre.len(), mid),
{
    assert forall|i: int| 0 <= i < mid.len() implies s.subrange((pos + pre.len()) as int, (pos + pre.len() + mid.len()) as int)[i]
        == mid[i] by {
        assert(whole[pre.len() + i] == (pre + mid)[pre.len() + i]);
        assert(s.subrange(pos as int, (pos + whole.len()) as int)[pre.len() + i] == whole[pre.len() + i]);
    }
    assert(s.subrange((pos + pre.len()) as int, (pos + pre.len() + mid.len()) as int) =~= mid);
}

/// A non-empty string has non-empty UTF-8 bytes.
proof fn lemma_utf8_nonempty(c: Seq<char>)
    requires
        c.len() > 0,
    ensures
        encode_utf8(c).len() > 0,
{
}

/// One cell written for a value exact for its column's type reads back as the value.
pub proof fn lemma_parse_exact_cell(t: ColType, f: Seq<(Seq<char>, Json)>, k: Seq<char>, v: Json, s: Seq<u8>, pos: nat)
    requires
        t != ColType::Null,
        t != ColType::Bool,
        obj_get(f, k) == Some(v),
        cell_exact(t, v),
        json_wf(v),
        holds_at(s, pos, cell_bytes(t, Json::Obj(f), k)),
    ensures
        parse_cell(t, s, pos) == Ok::<(Json, nat), FluxPackError>((v, cell_bytes(t, Json::Obj(f), k).len())),
{
    let b = cell_bytes(t, Json::Obj(f), k);
    match t {
        ColType::Int => {
            let i = as_i64_or_zero(v);
            lemma_holds_skip(s, pos, b);
            lemma_signed_varint_roundtrip(i, s.skip((pos + b.len()) as int));
        },
        ColType::UInt => {
            lemma_varint_at(s, pos, as_u64_or_zero(v));
        },
        ColType::Float64 => {
            let bits = number_f64_bits(v->Num_0);
            lemma_auto_spec_u64_to_from_le_bytes();
            assert(s.subrange(pos as int, (pos + 8) as int) == b);
            lemma_f64_fields(bits);
            assert(column_f64(bits) == v);
        },
        ColType::Float32 => {
            let bits = number_f64_bits(v->Num_0);
            let x = narrow_f64(bits);
            lemma_auto_spec_u32_to_from_le_bytes();
            assert(s.subrange(pos as int, (pos + 4) as int) == b);
            lemma_single_reads_back(bits);
            assert(column_f32(x) == v);
        },
        ColType::String => {
            let st = v->Str_0;
            let u = encode_utf8(st);
            let lb = varint_bytes(u.len() as u64);
            lemma_utf8_nonempty(st);
            lemma_holds_split(s, pos, lb, u);
            lemma_varint_at(s, pos, u.len() as u64);
            encode_utf8_valid_utf8(st);
            encode_utf8_decode_utf8(st);
            assert((u.len() as u64) as nat == u.len());
        },
        _ => {
            let m = s.skip(pos as int);
            lemma_holds_skip(s, pos, b);
            assert(m[0] == b[0]);
            match v {
                Json::Num(JsonNumber::Int(i)) => {
                    assert(m.skip(1) =~= signed_varint_bytes(i) + s.skip((pos + b.len()) as int));
                    lemma_signed_varint_roundtrip(i, s.skip((pos + b.len()) as int));
                },
                Json::Num(JsonNumber::Float(bits)) => {
                    lemma_auto_spec_u64_to_from_le_bytes();
                    assert(m.subrange(1, 9) =~= spec_u64_to_le_bytes(bits));
                },
                Json::Str(st) => {
                    let u = encode_utf8(st);
                    let lb = varint_bytes(u.len() as u64);
                    assert(m =~= seq![0x05u8] + lb + u + s.skip((pos + b.len()) as int));
                    assert(m.subrange(1, (1 + (lb + u).len()) as int) =~= lb + u);
                    assert(holds_at(m, 1, lb + u));
                    lemma_holds_split(m, 1, lb, u);
                    lemma_varint_at(m, 1, u.len() as u64);
                    encode_utf8_valid_utf8(st);
                    encode_utf8_decode_utf8(st);
                    assert((u.len() as u64) as nat == u.len());
                    assert(m.subrange((1 + lb.len()) as int, (1 + lb.len() + u.len()) as int) == u);
                },
                _ => {},
            }
        },
    }
}

/// The cells of the first `i` rows begin those of the first `n`.
pub proof fn lemma_cells_prefix(t: ColType, rows: Seq<Json>, k: Seq<char>, i: nat, n: nat)
    requires
        i <= n <= rows.len(),
    ensures
        cells_bytes(t, rows, k, i).len() <= cells_bytes(t, rows, k, n).len(),
        cells_bytes(t, rows, k, n).subrange(0, cells_bytes(t, rows, k, i).len() as int) == cells_bytes(t, rows, k, i),
    decreases n,
{
    if i < n {
        lemma_cells_prefix(t, rows, k, i, (n - 1) as nat);
        let a = cells_bytes(t, rows, k, (n - 1) as nat);
        assert(cells_bytes(t, rows, k, n) == a + cell_bytes(t, rows[n - 1], k));
        assert(cells_bytes(t, rows, k, n).subrange(0, cells_bytes(t, rows, k, i).len() as int)
            =~= a.subrange(0, cells_bytes(t, rows, k, i).len() as int));
    } else {
        assert(cells_bytes(t, rows, k, n).subrange(0, cells_bytes(t, rows, k, n).len() as int) =~= cells_bytes(t, rows, k, n));
    }
}

/// The cells of a column whose values are all exact read back, from row `i` on, as the
/// column's values.
pub proof fn lemma_parse_exact_cells(t: ColType, rows: Seq<Json>, j: int, k: Seq<char>, s: Seq<u8>, base: nat, i: nat)
    requires
        t != ColType::Null,
        t != ColType::Bool,
        column_ok(rows, j, k, t),
        i <= rows.len(),
        holds_at(s, base, cells_bytes(t, rows, k, rows.len())),
    ensures
        parse_cells(t, s, base + cells_bytes(t, rows, k, i).len(), (rows.len() - i) as nat, field_column(rows, j).subrange(0, i as int))
            == Ok::<(Seq<Json>, nat), FluxPackError>((field_column(rows, j), base + cells_bytes(t, rows, k, rows.len()).len())),
    decreases rows.len() - i,
{
    let n = rows.len();
    let col = field_column(rows, j);
    if i == n {
        assert(col.subrange(0, n as int) =~= col);
    } else {
        assert(rows[i as int] matches Json::Obj(_));
        let f = rows[i as int]->Obj_0;
        lemma_find_distinct(f, j, 0);
        lemma_cells_prefix(t, rows, k, i + 1, n);
        let pre = cells_bytes(t, rows, k, i);
        let cell = cell_bytes(t, rows[i as int], k);
        assert(cells_bytes(t, rows, k, i + 1) == pre + cell);
        lemma_holds_within(s, base, cells_bytes(t, rows, k, n), pre, cell);
        lemma_parse_exact_cell(t, f, k, f[j].1, s, base + pre.len());
        assert(col.subrange(0, i as int).push(f[j].1) =~= col.subrange(0, (i + 1) as int));
        lemma_parse_exact_cells(t, rows, j, k, s, base, i + 1);
    }
}

/// A `Null` column takes no bytes.
pub proof fn lemma_null_cells(rows: Seq<Json>, k: Seq<char>, n: nat)
    ensures
        cells_bytes(ColType::Null, rows, k, n) == Seq::<u8>::empty(),
    decreases n,
{
    if n > 0 && n <= rows.len() {
        lemma_null_cells(rows, k, (n - 1) as nat);
        assert(cells_bytes(ColType::Null, rows, k, n) =~= Seq::<u8>::empty());
    }
}

/// Bit `b` of the byte of group `g` built from its first `j` rows is set exactly when row
/// `8g + b` is among them, exists, and has `true` for `k`; the byte stays below bit `j`.
pub proof fn lemma_flag_byte_bits(rows: Seq<Json>, k: Seq<char>, g: int, j: nat, b: u8)
    requires
        j <= 8,
        g >= 0,
        b < 8,
    ensures
        flag_byte(rows, k, g, j) < 256,
        j < 8 ==> (flag_byte(rows, k, g, j) as u8) < (1u8 << (j as u8)),
        ((((flag_byte(rows, k, g, j) as u8) >> b) & 1 == 1)
            == ((b as nat) < j && 8 * g + b < rows.len() && row_flag(rows, k, 8 * g + b))),
    decreases j,
{
    lemma_flag_bits(0, 0, b);
    if j > 0 {
        let m = (j - 1) as u8;
        lemma_flag_byte_bits(rows, k, g, (j - 1) as nat, b);
        let x = flag_byte(rows, k, g, (j - 1) as nat) as u8;
        assert(x as nat == flag_byte(rows, k, g, (j - 1) as nat));
        lemma_flag_bits(x, m, b);
        assert((m + 1) as u8 == j as u8);
        if 8 * g + j - 1 < rows.len() && row_flag(rows, k, 8 * g + j - 1) {
            assert(flag_byte(rows, k, g, j) == (x | (1u8 << m)) as nat);
        } else {
            assert(flag_byte(rows, k, g, j) == x as nat);
        }
    }
}

/// A `Bool` column of booleans reads back as its values.
pub proof fn lemma_parse_bool_column(rows: Seq<Json>, j: int, k: Seq<char>, s: Seq<u8>, p: nat)
    requires
        column_ok(rows, j, k, ColType::Bool),
        holds_at(s, p, packed_flags(rows, k)),
    ensures
        parse_column(ColType::Bool, rows.len(), s.skip(p as int))
            == Ok::<(Seq<Json>, nat), FluxPackError>((field_column(rows, j), packed_flags(rows, k).len())),
{
    let n = rows.len();
    let t = s.skip(p as int);
    let packed = packed_flags(rows, k);
    assert(n / 8 + (if n % 8 != 0 { 1nat } else { 0 }) == (n + 7) / 8);
    assert(packed.len() == (n + 7) / 8);
    assert forall|i: int| 0 <= i < n implies #[trigger] bool_column(n, t)[i] == field_column(rows, j)[i] by {
        let g = i / 8;
        let b = (i % 8) as u8;
        assert(t[g] == packed[g]) by {
            assert(s.subrange(p as int, (p + packed.len()) as int)[g] == s[p + g]);
        }
        lemma_flag_byte_bits(rows, k, g, 8, b);
        assert(8 * g + b == i);
        assert(rows[i] matches Json::Obj(_));
        let f = rows[i]->Obj_0;
        lemma_find_distinct(f, j, 0);
    }
    assert(bool_column(n, t) =~= field_column(rows, j));
}

/// A column whose values are all exact reads back as its values, all its bytes taken.
pub proof fn lemma_parse_exact_column(t: ColType, rows: Seq<Json>, j: int, k: Seq<char>, s: Seq<u8>, p: nat)
    requires
        column_ok(rows, j, k, t),
        holds_at(s, p, column_bytes(t, rows, k)),
    ensures
        parse_column(t, rows.len(), s.skip(p as int))
            == Ok::<(Seq<Json>, nat), FluxPackError>((field_column(rows, j), column_bytes(t, rows, k).len())),
{
    let n = rows.len();
    let col = field_column(rows, j);
    if t == ColType::Null {
        lemma_null_cells(rows, k, n);
        assert forall|i: int| 0 <= i < n implies #[trigger] col[i] == Json::Null by {
            assert(rows[i] matches Json::Obj(_));
        }
        assert(Seq::new(n, |i: int| Json::Null) =~= col);
    } else if t == ColType::Bool {
        lemma_parse_bool_column(rows, j, k, s, p);
    } else {
        let b = cells_bytes(t, rows, k, n);
        let m = s.skip(p as int);
        assert(m.subrange(0, b.len() as int) =~= s.subrange(p as int, (p + b.len()) as int));
        lemma_parse_exact_cells(t, rows, j, k, m, 0, 0);
        assert(cells_bytes(t, rows, k, 0) =~= Seq::<u8>::empty());
        assert(col.subrange(0, 0) =~= Seq::<Json>::empty());
    }
}

/// An array that a columnar encoding with the columns `cols` carries unchanged: every row
/// an object with exactly the columns' keys, in the columns' order, each value exact for
/// its column's type.
pub open spec fn columnar_exact(rows: Seq<Json>, cols: Seq<(Seq<char>, ColType)>) -> bool {
    forall|r: int| 0 <= r < rows.len() ==> ((#[trigger] rows[r]) matches Json::Obj(f) && f.len() == cols.len()
        && forall|j: int| 0 <= j < cols.len() ==> f[j].0 == cols[j].0 && cell_exact(cols[j].1, #[trigger] f[j].1))
}

/// The first `n` columns as read back: each column's key and type with its values.
pub open spec fn exact_columns(rows: Seq<Json>, cols: Seq<(Seq<char>, ColType)>, n: nat) -> Seq<(Seq<char>, ColType, Seq<Json>)> {
    Seq::new(n, |j: int| (cols[j].0, cols[j].1, field_column(rows, j)))
}

/// Each column of an exact array meets `column_ok`.
proof fn lemma_exact_column_ok(rows: Seq<Json>, cols: Seq<(Seq<char>, ColType)>, j: int)
    requires
        forall|r: int| 0 <= r < rows.len() ==> json_wf(#[trigger] rows[r]),
        columnar_exact(rows, cols),
        0 <= j < cols.len(),
    ensures
        column_ok(rows, j, cols[j].0, cols[j].1),
{
    assert forall|r: int| 0 <= r < rows.len() implies ((#[trigger] rows[r]) matches Json::Obj(f) && 0 <= j < f.len()
        && f[j].0 == cols[j].0 && keys_distinct(f) && json_wf(f[j].1) && cell_exact(cols[j].1, f[j].1)) by {
        assert(json_wf(rows[r]));
        let f = rows[r]->Obj_0;
        lemma_fields_wf(f, f.len(), j);
        assert(cell_exact(cols[j].1, f[j].1));
    }
}

/// The columns before the `i`-th begin the columns before the `n`-th.
proof fn lemma_columns_prefix(rows: Seq<Json>, cols: Seq<(Seq<char>, ColType)>, i: nat, n: nat)
    requires
        i <= n <= cols.len(),
    ensures
        columns_bytes(rows, cols, i).len() <= columns_bytes(rows, cols, n).len(),
        columns_bytes(rows, cols, n).subrange(0, columns_bytes(rows, cols, i).len() as int) == columns_bytes(rows, cols, i),
    decreases n,
{
    if i < n {
        lemma_columns_prefix(rows, cols, i, (n - 1) as nat);
        let a = columns_bytes(rows, cols, (n - 1) as nat);
        let (k, t) = cols[n - 1];
        assert(columns_bytes(rows, cols, n) == a + (str_bytes(k) + seq![col_tag(t)] + varint_bytes(rows.len() as u64)
            + column_bytes(t, rows, k)));
        assert(columns_bytes(rows, cols, n).subrange(0, columns_bytes(rows, cols, i).len() as int)
            =~= a.subrange(0, columns_bytes(rows, cols, i).len() as int));
    } else {
        assert(columns_bytes(rows, cols, n).subrange(0, columns_bytes(rows, cols, n).len() as int) =~= columns_bytes(rows, cols, n));
    }
}

/// Law: the tag of a column type names it.
pub proof fn lemma_col_tag(t: ColType)
    ensures
        col_of_tag(col_tag(t)) == Some(t),
{
}

/// One column on the wire: its key, its type's tag, the row count, and its values.
pub open spec fn column_entry_bytes(rows: Seq<Json>, k: Seq<char>, t: ColType) -> Seq<u8> {
    str_bytes(k) + seq![col_tag(t)] + varint_bytes(rows.len() as u64) + column_bytes(t, rows, k)
}

/// Reading column `i` of an exact array at `pos`, where it lies: the column, then the rest.
proof fn lemma_parse_exact_entry(rows: Seq<Json>, cols: Seq<(Seq<char>, ColType)>, s: Seq<u8>, pos: nat, i: int,
    left: nat, acc: Seq<(Seq<char>, ColType, Seq<Json>)>)
    requires
        rows.len() > 0,
        rows.len() <= usize::MAX,
        forall|r: int| 0 <= r < rows.len() ==> json_wf(#[trigger] rows[r]),
        columnar_exact(rows, cols),
        0 <= i < cols.len(),
        left > 0,
        holds_at(s, pos, column_entry_bytes(rows, cols[i].0, cols[i].1)),
    ensures
        parse_columns(s, pos, left, acc) == parse_columns(s, pos + column_entry_bytes(rows, cols[i].0, cols[i].1).len(),
            (left - 1) as nat, acc.push((cols[i].0, cols[i].1, field_column(rows, i)))),
{
    let (k, t) = cols[i];
    let u = encode_utf8(k);
    let lb = varint_bytes(u.len() as u64);
    let tag = seq![col_tag(t)];
    let vb = varint_bytes(rows.len() as u64);
    let colb = column_bytes(t, rows, k);
    assert(column_entry_bytes(rows, k, t) =~= lb + u + tag + vb + colb);
    lemma_holds_split(s, pos, lb + u + tag + vb, colb);
    lemma_holds_split(s, pos, lb + u + tag, vb);
    lemma_holds_split(s, pos, lb + u, tag);
    lemma_holds_split(s, pos, lb, u);
    // the key
    assert(rows[0] matches Json::Obj(_));
    let f0 = rows[0]->Obj_0;
    assert(json_wf(rows[0]));
    lemma_fields_wf(f0, f0.len(), i);
    assert(f0[i].0 == k);
    lemma_varint_at(s, pos, u.len() as u64);
    encode_utf8_valid_utf8(k);
    encode_utf8_decode_utf8(k);
    assert((u.len() as u64) as nat == u.len());
    let ks = pos + lb.len();
    assert(s.subrange(ks as int, (ks + u.len()) as int) == u);
    // the type
    let p2 = ks + u.len();
    assert(s[p2 as int] == col_tag(t)) by {
        assert(s.subrange(p2 as int, (p2 + 1) as int)[0] == s[p2 as int]);
    }
    lemma_col_tag(t);
    // the row count and the values
    lemma_varint_at(s, p2 + 1, rows.len() as u64);
    let p3 = p2 + 1 + vb.len();
    assert(((rows.len() as u64) as usize) as nat == rows.len());
    lemma_exact_column_ok(rows, cols, i);
    lemma_parse_exact_column(t, rows, i, k, s, p3);
}

/// The columns of an exact array read back, from the `i`-th on, as its columns.
proof fn lemma_parse_exact_columns(rows: Seq<Json>, cols: Seq<(Seq<char>, ColType)>, s: Seq<u8>, base: nat, i: nat)
    requires
        rows.len() > 0,
        rows.len() <= usize::MAX,
        forall|r: int| 0 <= r < rows.len() ==> json_wf(#[trigger] rows[r]),
        columnar_exact(rows, cols),
        i <= cols.len(),
        holds_at(s, base, columns_bytes(rows, cols, cols.len())),
    ensures
        parse_columns(s, base + columns_bytes(rows, cols, i).len(), (cols.len() - i) as nat, exact_columns(rows, cols, i))
            == Ok::<(Seq<(Seq<char>, ColType, Seq<Json>)>, nat), FluxPackError>(
                (exact_columns(rows, cols, cols.len()), base + columns_bytes(rows, cols, cols.len()).len())),
    decreases cols.len() - i,
{
    let m = cols.len();
    if i == m {
        return;
    }
    let (k, t) = cols[i as int];
    let one = column_entry_bytes(rows, k, t);
    assert(columns_bytes(rows, cols, i + 1) =~= columns_bytes(rows, cols, i) + one);
    lemma_columns_prefix(rows, cols, i + 1, m);
    lemma_holds_within(s, base, columns_bytes(rows, cols, m), columns_bytes(rows, cols, i), one);
    lemma_parse_exact_entry(rows, cols, s, base + columns_bytes(rows, cols, i).len(), i as int, (m - i) as nat,
        exact_columns(rows, cols, i));
    assert(exact_columns(rows, cols, i).push((k, t, field_column(rows, i as int))) =~= exact_columns(rows, cols, i + 1));
    lemma_parse_exact_columns(rows, cols, s, base, i + 1);
}

/// Row `r` rebuilt from the first `n` columns is the first `n` fields of the row.
proof fn lemma_rebuilt_row(rows: Seq<Json>, cols: Seq<(Seq<char>, ColType)>, r: int, n: nat)
    requires
        forall|i: int| 0 <= i < rows.len() ==> json_wf(#[trigger] rows[i]),
        columnar_exact(rows, cols),
        0 <= r < rows.len(),
        n <= cols.len(),
    ensures
        row_object(exact_columns(rows, cols, cols.len()), r, n) == rows[r]->Obj_0.subrange(0, n as int),
    decreases n,
{
    assert(rows[r] matches Json::Obj(_));
    let f = rows[r]->Obj_0;
    if n == 0 {
        assert(f.subrange(0, 0) =~= Seq::<(Seq<char>, Json)>::empty());
    } else {
        lemma_rebuilt_row(rows, cols, r, (n - 1) as nat);
        let pre = f.subrange(0, n - 1);
        assert(json_wf(rows[r]));
        assert forall|j: int| 0 <= j < pre.len() implies #[trigger] pre[j].0 != f[n - 1].0 by {
            assert(f[j].0 != f[n - 1].0);
        }
        lemma_find_key_none(pre, f[n - 1].0, 0);
        let d = exact_columns(rows, cols, cols.len());
        assert(d[n - 1].2[r] == f[n - 1].1);
        assert(pre.push((f[n - 1].0, f[n - 1].1)) =~= f.subrange(0, n as int));
    }
}

/// Law: an array of objects written column by column reads back as itself, all its bytes
/// taken, whatever follows, when every row has the columns' keys in their order and every
/// value survives its column's type (see `cell_exact`).
pub proof fn law_columnar_roundtrip(rows: Seq<Json>, cols: Seq<(Seq<char>, ColType)>, rest: Seq<u8>)
    requires
        rows.len() > 0,
        cols.len() > 0,
        cols.len() <= usize::MAX,
        rows.len() <= usize::MAX,
        forall|r: int| 0 <= r < rows.len() ==> json_wf(#[trigger] rows[r]),
        columnar_exact(rows, cols),
    ensures
        parse_columnar(columnar_bytes(rows, cols) + rest)
            == Ok::<(nat, Seq<(Seq<char>, ColType, Seq<Json>)>, nat), FluxPackError>(
                (rows.len(), exact_columns(rows, cols, cols.len()), columnar_bytes(rows, cols).len())),
        rebuilt_array(rows.len(), exact_columns(rows, cols, cols.len())) == Json::Arr(rows),
{
    let m = cols.len();
    let s = columnar_bytes(rows, cols) + rest;
    let hb = varint_bytes(m as u64);
    let body = columns_bytes(rows, cols, m);
    assert(s =~= hb + body + rest);
    assert(holds_at(s, 0, hb + body)) by {
        assert(s.subrange(0, (hb + body).len() as int) =~= hb + body);
    }
    lemma_holds_split(s, 0, hb, body);
    lemma_varint_at(s, 0, m as u64);
    assert(s.skip(0) =~= s);
    let d = exact_columns(rows, cols, m);
    {
        lemma_parse_exact_columns(rows, cols, s, hb.len(), 0);
        assert(columns_bytes(rows, cols, 0) =~= Seq::<u8>::empty());
        assert(exact_columns(rows, cols, 0) =~= Seq::<(Seq<char>, ColType, Seq<Json>)>::empty());
        assert forall|r: int| 0 <= r < rows.len() implies
            #[trigger] rebuilt_array(rows.len(), d)->Arr_0[r] == rows[r] by {
            lemma_rebuilt_row(rows, cols, r, m);
            assert(rows[r] matches Json::Obj(_));
            assert(rows[r]->Obj_0.subrange(0, m as int) =~= rows[r]->Obj_0);
        }
        assert(rebuilt_array(rows.len(), d)->Arr_0 =~= rows);
    }
}

/// A field value that `encode_with_columnar` writes as columns (an array of at least
/// `threshold` objects sharing their keys) survives them: its rows are exact for the
/// columns, and its sizes fit the machine.
pub open spec fn col_value_exact(v: Json, threshold: usize) -> bool {
    match v {
        Json::Arr(items) => items.len() >= threshold && columns_of(items) is Some ==> {
            let cols = columns_of(items)->Some_0;
            &&& items.len() <= usize::MAX
            &&& cols.len() <= usize::MAX
            &&& columnar_bytes(items, cols).len() <= u64::MAX
            &&& columnar_exact(items, cols)
        },
        _ => true,
    }
}

/// Every field value survives `encode_with_columnar`.
pub open spec fn col_fields_exact(fields: Seq<(Seq<char>, Json)>, threshold: usize) -> bool {
    forall|j: int| 0 <= j < fields.len() ==> col_value_exact(#[trigger] fields[j].1, threshold)
}

/// A field value written by `encode_with_columnar` reads back as itself.
proof fn lemma_parse_col_value(v: Json, index: Map<Seq<char>, u16>, d: TableModel, s: Seq<u8>, pos: nat, thr: usize)
    requires
        json_wf(v),
        keys_resolve(json_keys(v), index, d),
        col_value_exact(v, thr),
        holds_at(s, pos, col_value_bytes(v, index, true, thr)),
    ensures
        parse_value(s, pos, d) == Ok::<(Json, nat), FluxPackError>((v, col_value_bytes(v, index, true, thr).len())),
{
    match v {
        Json::Arr(items) => {
            if items.len() >= thr && columns_of(items) is Some {
                let cols = columns_of(items)->Some_0;
                let cb = columnar_bytes(items, cols);
                let lb = varint_bytes(cb.len() as u64);
                assert(col_value_bytes(v, index, true, thr) == seq![0x0Du8] + lb + cb);
                lemma_holds_split(s, pos, seq![0x0Du8] + lb, cb);
                lemma_holds_split(s, pos, seq![0x0Du8], lb);
                assert(s[pos as int] == 0x0Du8) by {
                    assert(s.subrange(pos as int, (pos + 1) as int)[0] == s[pos as int]);
                }
                lemma_varint_at(s, pos + 1, cb.len() as u64);
                assert((cb.len() as u64) as nat == cb.len());
                let start = pos + 1 + lb.len();
                assert forall|r: int| 0 <= r < items.len() implies json_wf(#[trigger] items[r]) by {
                    lemma_items_wf(items, items.len(), r);
                }
                assert(items[0] matches Json::Obj(_));
                law_columnar_roundtrip(items, cols, Seq::empty());
                assert(cb + Seq::<u8>::empty() =~= cb);
                assert(s.subrange(start as int, (start + cb.len()) as int) == cb);
            } else {
                lemma_parse_value(v, index, d, s, pos);
            }
        },
        _ => {
            lemma_parse_value(v, index, d, s, pos);
        },
    }
}

/// The fields before the `j`-th, as `encode_with_columnar` writes them, begin those before
/// the `n`-th.
proof fn lemma_col_fields_prefix(fields: Seq<(Seq<char>, Json)>, j: nat, n: nat, index: Map<Seq<char>, u16>, thr: usize)
    requires
        j <= n <= fields.len(),
    ensures
        col_fields_bytes(fields, n, index, true, thr)
            =~= col_fields_bytes(fields, j, index, true, thr) + col_fields_bytes(fields, n, index, true, thr).skip(
                col_fields_bytes(fields, j, index, true, thr).len() as int),
        col_fields_bytes(fields, j, index, true, thr).len() <= col_fields_bytes(fields, n, index, true, thr).len(),
    decreases n,
{
    if j < n {
        lemma_col_fields_prefix(fields, j, (n - 1) as nat, index, thr);
    }
}

/// Reading the fields written by `encode_with_columnar` from the `k`-th on gives all of them.
proof fn lemma_parse_col_fields(
    fields: Seq<(Seq<char>, Json)>,
    index: Map<Seq<char>, u16>,
    d: TableModel,
    s: Seq<u8>,
    p: nat,
    k: nat,
    thr: usize,
)
    requires
        k <= fields.len(),
        fields_wf(fields, fields.len()),
        keys_distinct(fields),
        col_fields_exact(fields, thr),
        keys_resolve(fields_keys(fields, fields.len()), index, d),
        holds_at(s, p, col_fields_bytes(fields, fields.len(), index, true, thr)),
    ensures
        parse_fields(s, p + col_fields_bytes(fields, k, index, true, thr).len(), (fields.len() - k) as nat, d,
            fields.subrange(0, k as int))
            == Ok::<(Seq<(Seq<char>, Json)>, nat), FluxPackError>((
                fields,
                (col_fields_bytes(fields, fields.len(), index, true, thr).len()
                    - col_fields_bytes(fields, k, index, true, thr).len()) as nat,
            )),
    decreases fields.len() - k,
{
    let n = fields.len();
    let all = col_fields_bytes(fields, n, index, true, thr);
    let pre = col_fields_bytes(fields, k, index, true, thr);
    lemma_col_fields_prefix(fields, k, n, index, thr);
    if k == n {
        assert(fields.subrange(0, k as int) =~= fields);
    } else {
        let key = fields[k as int].0;
        let val = fields[k as int].1;
        let tb = varint_bytes(index[key] as u64);
        let vb = col_value_bytes(val, index, true, thr);
        let next = col_fields_bytes(fields, k + 1, index, true, thr);
        assert(next == pre + tb + vb);
        lemma_col_fields_prefix(fields, k + 1, n, index, thr);
        lemma_holds_split(s, p, next, all.skip(next.len() as int));
        lemma_holds_split(s, p, pre + tb, vb);
        lemma_holds_split(s, p, pre, tb);
        lemma_fields_wf(fields, n, k as int);
        lemma_fields_keys_contain(fields, n, k as int);
        lemma_varint_at(s, p + pre.len(), index[key] as u64);
        lemma_token_of(index[key]);
        assert(col_value_exact(fields[k as int].1, thr));
        lemma_parse_col_value(val, index, d, s, p + pre.len() + tb.len(), thr);
        let acc = fields.subrange(0, k as int);
        assert forall|j: int| 0 <= j < acc.len() implies #[trigger] acc[j].0 != key by {
            assert(acc[j] == fields[j]);
        }
        lemma_find_key_none(acc, key, 0);
        assert(obj_insert(acc, key, val) =~= fields.subrange(0, (k + 1) as int));
        lemma_parse_col_fields(fields, index, d, s, p, k + 1, thr);
    }
}

/// The DATA frame that `encode_with_columnar` writes.
pub open spec fn col_data_frame_bytes(fields: Seq<(Seq<char>, Json)>, index: Map<Seq<char>, u16>, thr: usize) -> Seq<u8> {
    seq![0x02u8] + varint_bytes(fields.len() as u64) + col_fields_bytes(fields, fields.len(), index, true, thr)
}

/// Decoding a DATA frame written by `encode_with_columnar` gives the object back.
proof fn lemma_decode_col_data_frame(s: Seq<u8>, pos: nat, fields: Seq<(Seq<char>, Json)>, index: Map<Seq<char>, u16>,
    d: TableModel, thr: usize)
    requires
        json_wf(Json::Obj(fields)),
        col_fields_exact(fields, thr),
        keys_resolve(fields_keys(fields, fields.len()), index, d),
        holds_at(s, pos, col_data_frame_bytes(fields, index, thr)),
    ensures
        decode_frames(s, pos, d) == (Ok::<Json, FluxPackError>(Json::Obj(fields)), d),
{
    let n = fields.len();
    let lb = varint_bytes(n as u64);
    let fb = col_fields_bytes(fields, n, index, true, thr);
    lemma_holds_split(s, pos, seq![0x02u8] + lb, fb);
    lemma_holds_split(s, pos, seq![0x02u8], lb);
    assert(s[pos as int] == 0x02u8) by {
        assert(s.subrange(pos as int, (pos + 1) as int)[0] == s[pos as int]);
    }
    lemma_varint_at(s, pos + 1, n as u64);
    assert(fields.subrange(0, 0) =~= Seq::<(Seq<char>, Json)>::empty());
    lemma_parse_col_fields(fields, index, d, s, pos + 1 + lb.len(), 0, thr);
    assert(parse_data_frame(s, pos + 1, d) == Ok::<(Json, nat), FluxPackError>((Json::Obj(fields), lb.len() + fb.len())));
}

/// Law: when an encoder's table and a decoder's table are in sync, decoding the output of
/// `encode_with_columnar` on a well-formed object whose columnar arrays survive their
/// columns gives the object back and leaves the tables in sync (with the DEF frames sent,
/// or skipped when the decoder already knew every key).
pub proof fn law_columnar_encode_then_decode(e: EncoderModel, d: TableModel, fields: Seq<(Seq<char>, Json)>, fp: u64)
    requires
        in_sync(e.table, d),
        e.zigzag,
        json_wf(Json::Obj(fields)),
        col_fields_exact(fields, e.columnar_threshold),
        columnar_outcome(e, fields, fp).0 is Ok,
        e.prev_fp != 0 && e.prev_fp == fp ==>
            intern_all(e.table, fields_keys(fields, fields.len())).1.next == d.next,
    ensures
        decode_frames(columnar_outcome(e, fields, fp).1.output, 0, d).0 == Ok::<Json, FluxPackError>(Json::Obj(fields)),
        in_sync(columnar_outcome(e, fields, fp).1.table, decode_frames(columnar_outcome(e, fields, fp).1.output, 0, d).1),
{
    let n = fields.len();
    let thr = e.columnar_threshold;
    let ks = fields_keys(fields, n);
    let t1 = intern_all(e.table, ks).1;
    let t2 = TableModel { fp, ..t1 };
    let skip = e.prev_fp != 0 && e.prev_fp == fp;
    let p = t2.pending();
    let e2 = columnar_outcome(e, fields, fp).1;
    let out = e2.output;
    lemma_fields_keys_wf(fields, n);
    lemma_intern_all_keeps(e.table, ks);
    lemma_intern_all_sync(e.table, d, ks);
    lemma_fp_sync(t1, d, fp);
    let dfb = col_data_frame_bytes(fields, t1.index, thr);
    if skip {
        assert(out =~= dfb);
        assert(holds_at(out, 0, dfb)) by {
            assert(out.subrange(0, dfb.len() as int) =~= dfb);
        }
        lemma_keys_resolve(t2, d, ks);
        lemma_decode_col_data_frame(out, 0, fields, t1.index, d, thr);
    } else {
        let defs = defs_bytes(p);
        assert(out =~= defs + dfb);
        assert(holds_at(out, 0, defs)) by {
            assert(out.subrange(0, defs.len() as int) =~= defs);
        }
        lemma_defs_then_sync(t2, d, out);
        let d2 = intern_all(d, def_keys(p)).1;
        assert(holds_at(out, defs.len(), dfb)) by {
            assert(out.subrange(defs.len() as int, (defs.len() + dfb.len()) as int) =~= dfb);
        }
        lemma_keys_resolve(t2, d2, ks);
        lemma_decode_col_data_frame(out, defs.len(), fields, t1.index, d2, thr);
    }
}

/// Law: a new decoder reads back what a new encoder's `encode_with_columnar` wrote for a
/// well-formed object whose columnar arrays survive their columns.
pub proof fn law_fresh_columnar_roundtrip(fields: Seq<(Seq<char>, Json)>, fp: u64)
    requires
        json_wf(Json::Obj(fields)),
        col_fields_exact(fields, fresh_encoder().columnar_threshold),
        columnar_outcome(fresh_encoder(), fields, fp).0 is Ok,
    ensures
        decode_frames(columnar_outcome(fresh_encoder(), fields, fp).1.output, 0, predefined_model()).0
            == Ok::<Json, FluxPackError>(Json::Obj(fields)),
{
    lemma_fresh_in_sync();
    law_columnar_encode_then_decode(fresh_encoder(), predefined_model(), fields, fp);
}


/// The kind flag of each of the first `n` values is set.
proof fn lemma_kinds_has(vals: Seq<Json>, n: nat, i: int)
    requires
        0 <= i < n <= vals.len(),
    ensures
        vals[i] is Null ==> kinds(vals, n).0,
        vals[i] is Bool ==> kinds(vals, n).1,
        (vals[i] matches Json::Num(JsonNumber::Int(x)) && x < 0) ==> kinds(vals, n).2,
        (vals[i] matches Json::Num(JsonNumber::Int(x)) && x >= 0) ==> kinds(vals, n).3,
        (vals[i] matches Json::Num(JsonNumber::Float(_))) ==> kinds(vals, n).4,
        vals[i] is Str ==> kinds(vals, n).5,
    decreases n,
{
    if i < n - 1 {
        lemma_kinds_has(vals, (n - 1) as nat, i);
    }
}

/// Law: the type a column gets keeps each of its values. A boolean, a non-empty string and
/// a finite double always read back as themselves; an integer does too, unless the column
/// mixes numbers and so holds doubles. A column with a string in it holds strings or mixed
/// values, never numbers.
pub proof fn law_classify_keeps_values(vals: Seq<Json>)
    requires
        forall|i: int| 0 <= i < vals.len() ==> !((#[trigger] vals[i]) is Arr) && !(vals[i] is Obj),
    ensures
        forall|i: int| 0 <= i < vals.len() ==> {
            &&& ((#[trigger] vals[i]) is Bool ==> cell_exact(classify(vals), vals[i]))
            &&& ((vals[i] matches Json::Str(st) && st.len() > 0) ==> cell_exact(classify(vals), vals[i]))
            &&& ((vals[i] matches Json::Num(JsonNumber::Float(b)) && f64_bits_finite(b))
                ==> cell_exact(classify(vals), vals[i]))
            &&& ((vals[i] matches Json::Num(JsonNumber::Int(_)))
                ==> cell_exact(classify(vals), vals[i]) || classify(vals) == ColType::Float64)
            &&& (vals[i] is Str ==> classify(vals) == ColType::String || classify(vals) == ColType::Mixed)
        },
{
    assert(!crate::columnar::has_nested(vals));
    assert forall|i: int| 0 <= i < vals.len() implies {
        &&& ((#[trigger] vals[i]) is Bool ==> cell_exact(classify(vals), vals[i]))
        &&& ((vals[i] matches Json::Str(st) && st.len() > 0) ==> cell_exact(classify(vals), vals[i]))
        &&& ((vals[i] matches Json::Num(JsonNumber::Float(b)) && f64_bits_finite(b))
            ==> cell_exact(classify(vals), vals[i]))
        &&& ((vals[i] matches Json::Num(JsonNumber::Int(_)))
            ==> cell_exact(classify(vals), vals[i]) || classify(vals) == ColType::Float64)
        &&& (vals[i] is Str ==> classify(vals) == ColType::String || classify(vals) == ColType::Mixed)
    } by {
        lemma_kinds_has(vals, vals.len(), i);
    }
}


/// A finite double that a single holds exactly reads back from that single as itself.
proof fn lemma_single_reads_back(b: u64)
    requires
        f64_bits_finite(b),
        f64_fits_f32(b),
    ensures
        f32_bits_finite(narrow_f64(b)),
        column_f32(narrow_f64(b)) == Json::Num(JsonNumber::Float(b)),
{
    let x = narrow_f64(b);
    lemma_widen_not_finite(x);
    assert(widen_f32(x) == b);
}

/// Law: a `Float32` column keeps every finite double that a single holds exactly: the cell
/// written for it (the nearest single's little-endian bytes) reads back as that double,
/// whatever follows.
pub proof fn law_float32_cell_roundtrip(b: u64, rest: Seq<u8>)
    requires
        f64_bits_finite(b),
        f64_fits_f32(b),
    ensures
        parse_cell(ColType::Float32, spec_u32_to_le_bytes(narrow_f64(b)) + rest, 0)
            == Ok::<(Json, nat), FluxPackError>((Json::Num(JsonNumber::Float(b)), 4)),
{
    let x = narrow_f64(b);
    let s = spec_u32_to_le_bytes(x) + rest;
    lemma_auto_spec_u32_to_from_le_bytes();
    assert(s.subrange(0, 4) =~= spec_u32_to_le_bytes(x));
    lemma_single_reads_back(b);
}

} // verus!
