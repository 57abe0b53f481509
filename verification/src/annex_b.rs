//! The two byte formats of an encoded H.264 access unit.
//!
//! An encoder may give its units each behind a start code (Annex B of the
//! standard) or each behind its length in four bytes (AVC). Decoders on the other
//! side take the former.

use vstd::prelude::*;
use vstd::slice::slice_subrange;
use crate::bytes::{get_be32, put_bytes};
#[allow(unused_imports)]
use crate::bytes::{be32, be32_at, lemma_be32_at};

verus! {

/// The start code that is written before a unit.
pub open spec fn start_code() -> Seq<u8> {
    seq![0u8, 0, 0, 1]
}

/// Data begins with a start code of four bytes.
pub open spec fn begins_with_start_code(data: Seq<u8>) -> bool {
    data.len() >= 4 && data.take(4) == start_code()
}

/// The units of data that is made of units each behind its length and of nothing
/// else; `None` for other data. No unit is empty.
pub open spec fn avc_units(data: Seq<u8>) -> Option<Seq<Seq<u8>>>
    decreases data.len(),
{
    if data.len() == 0 {
        Some(seq![])
    } else if data.len() < 4 || be32_at(data, 0) == 0 || 4 + be32_at(data, 0) > data.len() {
        None
    } else {
        let n = be32_at(data, 0);
        match avc_units(data.skip(4 + n)) {
            Some(rest) => Some(seq![data.subrange(4, 4 + n)] + rest),
            None => None,
        }
    }
}

/// Units, each behind a start code.
pub open spec fn with_start_codes(units: Seq<Seq<u8>>) -> Seq<u8>
    decreases units.len(),
{
    if units.len() == 0 {
        seq![]
    } else {
        with_start_codes(units.drop_last()) + start_code() + units.last()
    }
}

/// Encoder output in the format with start codes: rewritten where it is made of units
/// behind their lengths, and as it is otherwise. Data that begins with a start code
/// is taken to be in that format already, although a length of 1 looks the same.
pub open spec fn annex_b(data: Seq<u8>) -> Seq<u8> {
    match avc_units(data) {
        Some(units) if !begins_with_start_code(data) => with_start_codes(units),
        _ => data,
    }
}

fn starts_with_code(data: &[u8]) -> (r: bool)
    ensures
        r == begins_with_start_code(data@),
{
    if data.len() < 4 {
        return false;
    }
    let same: bool = data[0] == 0 && data[1] == 0 && data[2] == 0 && data[3] == 1;
    proof {
        let head = data@.take(4);
        let code = start_code();
        if same {
            assert(head =~= code);
        } else if head == code {
            assert(head[0] == code[0] && head[1] == code[1] && head[2] == code[2] && head[3]
                == code[3]);
        }
    }
    same
}

fn copy(data: &[u8]) -> (r: Vec<u8>)
    ensures
        r@ == data@,
{
    let mut out: Vec<u8> = Vec::new();
    put_bytes(&mut out, data);
    assert(out@ =~= data@);
    out
}

/// Brings encoder output into the format with start codes.
pub fn to_annex_b(data: &[u8]) -> (r: Vec<u8>)
    ensures
        r@ == annex_b(data@),
{
    if starts_with_code(data) {
        return copy(data);
    }
    let mut out: Vec<u8> = Vec::new();
    let mut pos: usize = 0;
    let n: usize = data.len();
    let ghost mut done: Seq<Seq<u8>> = seq![];
    proof {
        assert(data@.skip(0) =~= data@);
        if let Some(units) = avc_units(data@) {
            assert(done + units =~= units);
        }
    }
    while n - pos >= 4
        invariant
            n == data@.len(),
            pos <= n,
            !begins_with_start_code(data@),
            out@ == with_start_codes(done),
            match avc_units(data@.skip(pos as int)) {
                Some(rest) => avc_units(data@) == Some(done + rest),
                None => avc_units(data@) is None,
            },
        decreases n - pos,
    {
        let ghost tail = data@.skip(pos as int);
        let len: usize = get_be32(data, pos) as usize;
        proof {
            assert(be32_at(tail, 0) == len);
        }
        if len == 0 || len > n - pos - 4 {
            return copy(data);
        }
        let unit: &[u8] = slice_subrange(data, pos + 4, pos + 4 + len);
        out.push(0);
        out.push(0);
        out.push(0);
        out.push(1);
        put_bytes(&mut out, unit);
        proof {
            let next = done.push(unit@);
            assert(next.drop_last() =~= done);
            assert(out@ =~= with_start_codes(done) + start_code() + unit@);
            assert(unit@ =~= tail.subrange(4, 4 + len));
            assert(tail.skip(4 + len) =~= data@.skip(pos + 4 + len));
            if let Some(rest) = avc_units(data@.skip(pos + 4 + len)) {
                assert(done + (seq![unit@] + rest) =~= next + rest);
            }
            done = next;
        }
        pos = pos + 4 + len;
    }
    if pos != n {
        return copy(data);
    }
    proof {
        assert(avc_units(data@.skip(pos as int)) == Some(Seq::<Seq<u8>>::empty()));
        assert(done + Seq::<Seq<u8>>::empty() =~= done);
    }
    out
}

/// Units, each behind its length.
pub open spec fn with_lengths(units: Seq<Seq<u8>>) -> Seq<u8>
    decreases units.len(),
{
    if units.len() == 0 {
        seq![]
    } else {
        be32(units[0].len() as int) + units[0] + with_lengths(units.drop_first())
    }
}

proof fn lemma_with_lengths_parses(units: Seq<Seq<u8>>)
    requires
        forall|i: int| 0 <= i < units.len() ==> 0 < (#[trigger] units[i]).len() <= u32::MAX,
    ensures
        avc_units(with_lengths(units)) == Some(units),
    decreases units.len(),
{
    if units.len() == 0 {
        assert(units =~= seq![]);
    } else {
        let rest = units.drop_first();
        assert forall|i: int| 0 <= i < rest.len() implies 0 < (#[trigger] rest[i]).len() <= u32::MAX by {
            assert(rest[i] == units[i + 1]);
        }
        lemma_with_lengths_parses(rest);
        lemma_first_length(units[0], with_lengths(rest));
        assert(seq![units[0]] + rest =~= units);
    }
}

proof fn lemma_first_length(unit: Seq<u8>, tail: Seq<u8>)
    requires
        0 < unit.len() <= u32::MAX,
    ensures
        avc_units(be32(unit.len() as int) + unit + tail) == (match avc_units(tail) {
            Some(rest) => Some(seq![unit] + rest),
            None => None,
        }),
{
    let n = unit.len() as int;
    let data = be32(n) + unit + tail;
    assert(be32(n).len() == 4);
    assert(data.subrange(0, 4) =~= be32(n));
    lemma_be32_at(data, 0, n);
    assert(data.skip(4 + n) =~= tail);
    assert(data.subrange(4, 4 + n) =~= unit);
}

/// Units behind their lengths come out behind start codes, the same units in the
/// same order, unless the first length is that of a single byte, which looks like a
/// start code.
pub proof fn lemma_avc_is_converted(units: Seq<Seq<u8>>)
    requires
        forall|i: int| 0 <= i < units.len() ==> 0 < (#[trigger] units[i]).len() <= u32::MAX,
        !begins_with_start_code(with_lengths(units)),
    ensures
        annex_b(with_lengths(units)) == with_start_codes(units),
{
    lemma_with_lengths_parses(units);
}

/// A first unit of two bytes or more does not look like a start code.
pub proof fn lemma_first_length_is_no_start_code(units: Seq<Seq<u8>>)
    requires
        units.len() > 0,
        2 <= units[0].len() <= u32::MAX,
    ensures
        !begins_with_start_code(with_lengths(units)),
{
    let n = units[0].len() as int;
    let data = with_lengths(units);
    assert(data.subrange(0, 4) =~= be32(n));
    lemma_be32_at(data, 0, n);
    if begins_with_start_code(data) {
        let head = data.take(4);
        assert(head[0] == 0 && head[1] == 0 && head[2] == 0 && head[3] == 1);
    }
}

/// Units behind start codes are left as they are, and so is everything else that
/// begins with a start code or is not made of units behind their lengths.
pub proof fn lemma_annex_b_is_kept(data: Seq<u8>, units: Seq<Seq<u8>>)
    ensures
        annex_b(with_start_codes(units)) == with_start_codes(units),
        begins_with_start_code(data) || avc_units(data) is None ==> annex_b(data) == data,
{
    if units.len() > 0 {
        lemma_start_code_first(units);
    }
}

proof fn lemma_start_code_first(units: Seq<Seq<u8>>)
    requires
        units.len() > 0,
    ensures
        begins_with_start_code(with_start_codes(units)),
    decreases units.len(),
{
    let data = with_start_codes(units);
    let head = with_start_codes(units.drop_last());
    if units.len() == 1 {
        assert(head =~= seq![]);
        assert(data.take(4) =~= start_code());
    } else {
        lemma_start_code_first(units.drop_last());
        assert(data.take(4) =~= head.take(4));
    }
}

/// Converting twice is the same as converting once.
pub proof fn lemma_conversion_is_idempotent(data: Seq<u8>)
    ensures
        annex_b(annex_b(data)) == annex_b(data),
{
    if let Some(units) = avc_units(data) {
        if !begins_with_start_code(data) && units.len() > 0 {
            lemma_start_code_first(units);
        }
    }
}

proof fn lemma_unit_lengths(data: Seq<u8>)
    ensures
        avc_units(data) matches Some(units) ==> with_start_codes(units).len() == data.len(),
    decreases data.len(),
{
    if let Some(units) = avc_units(data) {
        if data.len() > 0 {
            let n = be32_at(data, 0);
            lemma_unit_lengths(data.skip(4 + n));
            let rest = avc_units(data.skip(4 + n)).unwrap();
            lemma_first_unit(data.subrange(4, 4 + n), rest);
        }
    }
}

proof fn lemma_first_unit(unit: Seq<u8>, rest: Seq<Seq<u8>>)
    ensures
        with_start_codes(seq![unit] + rest).len() == 4 + unit.len() + with_start_codes(rest).len(),
    decreases rest.len(),
{
    let all = seq![unit] + rest;
    if rest.len() == 0 {
        assert(all.drop_last() =~= seq![]);
        assert(all.last() == unit);
        assert(with_start_codes(all.drop_last()).len() == 0);
    } else {
        lemma_first_unit(unit, rest.drop_last());
        assert(all.drop_last() =~= seq![unit] + rest.drop_last());
        assert(all.last() == rest.last());
    }
}

/// A start code is as long as the length it replaces: conversion keeps the number
/// of bytes, and so never loses a frame or makes one up.
pub proof fn lemma_conversion_keeps_length(data: Seq<u8>)
    ensures
        annex_b(data).len() == data.len(),
{
    lemma_unit_lengths(data);
}

/// Where unit `i` begins, its four bytes in front included: behind all units before it
/// and four bytes for each of them.
pub open spec fn offset(units: Seq<Seq<u8>>, i: int) -> int
    decreases i,
{
    if i <= 0 {
        0
    } else {
        offset(units, i - 1) + 4 + units[i - 1].len()
    }
}

/// A unit stands behind its length: the length at `at`, in four bytes with the highest
/// first, and the unit behind it.
pub open spec fn behind_length(data: Seq<u8>, at: int, unit: Seq<u8>) -> bool {
    &&& unit.len() > 0
    &&& 0 <= at && at + 4 + unit.len() <= data.len()
    &&& data[at] * 0x100_0000 + data[at + 1] * 0x1_0000 + data[at + 2] * 0x100 + data[at + 3]
        == unit.len()
    &&& data.subrange(at + 4, at + 4 + unit.len()) == unit
}

/// A unit stands behind four bytes `0 0 0 1`: these at `at`, and the unit behind them.
pub open spec fn behind_code(data: Seq<u8>, at: int, unit: Seq<u8>) -> bool {
    &&& 0 <= at && at + 4 + unit.len() <= data.len()
    &&& data[at] == 0 && data[at + 1] == 0 && data[at + 2] == 0 && data[at + 3] == 1
    &&& data.subrange(at + 4, at + 4 + unit.len()) == unit
}

/// Data is made of these units, each behind its length, and of nothing else.
pub open spec fn made_of(data: Seq<u8>, units: Seq<Seq<u8>>) -> bool {
    &&& data.len() == offset(units, units.len() as int)
    &&& forall|i: int|
        0 <= i < units.len() ==> #[trigger] behind_length(data, offset(units, i), units[i])
}

/// Data is made of these units, each behind `0 0 0 1`, and of nothing else.
pub open spec fn marked(data: Seq<u8>, units: Seq<Seq<u8>>) -> bool {
    &&& data.len() == offset(units, units.len() as int)
    &&& forall|i: int|
        0 <= i < units.len() ==> #[trigger] behind_code(data, offset(units, i), units[i])
}

proof fn lemma_offset_grows(units: Seq<Seq<u8>>, i: int, j: int)
    requires
        0 <= i <= j <= units.len(),
    ensures
        0 <= offset(units, i) <= offset(units, j),
        i < j ==> offset(units, i) + 4 + units[i].len() <= offset(units, j),
    decreases j,
{
    if j > 0 {
        if i < j {
            lemma_offset_grows(units, i, j - 1);
        } else {
            lemma_offset_grows(units, i - 1, j - 1);
        }
    }
}

proof fn lemma_offset_of_tail(first: Seq<u8>, rest: Seq<Seq<u8>>, i: int)
    requires
        0 <= i <= rest.len(),
    ensures
        offset(seq![first] + rest, i + 1) == 4 + first.len() + offset(rest, i),
    decreases i,
{
    let all = seq![first] + rest;
    if i == 0 {
        assert(offset(all, 0) == 0);
        assert(all[0] == first);
    } else {
        lemma_offset_of_tail(first, rest, i - 1);
        assert(all[i] == rest[i - 1]);
    }
}

proof fn lemma_offset_of_head(units: Seq<Seq<u8>>, i: int)
    requires
        units.len() > 0,
        0 <= i < units.len(),
    ensures
        offset(units.drop_last(), i) == offset(units, i),
    decreases i,
{
    if i > 0 {
        lemma_offset_of_head(units, i - 1);
    }
}

proof fn lemma_marked(units: Seq<Seq<u8>>)
    ensures
        marked(with_start_codes(units), units),
    decreases units.len(),
{
    if units.len() > 0 {
        let head = units.drop_last();
        let n = head.len() as int;
        let before = with_start_codes(head);
        let data = with_start_codes(units);
        lemma_marked(head);
        lemma_offset_of_head(units, n);
        assert forall|i: int| 0 <= i < units.len() implies #[trigger] behind_code(
            data,
            offset(units, i),
            units[i],
        ) by {
            let at = offset(units, i);
            lemma_offset_of_head(units, i);
            if i < n {
                assert(behind_code(before, offset(head, i), head[i]));
                assert(head[i] == units[i]);
                assert(data.subrange(at + 4, at + 4 + units[i].len()) =~= before.subrange(
                    at + 4,
                    at + 4 + units[i].len(),
                ));
            } else {
                assert(at == before.len());
                assert(data.subrange(at + 4, at + 4 + units[i].len()) =~= units[i]);
            }
        }
    }
}

proof fn lemma_units_are_those(data: Seq<u8>, units: Seq<Seq<u8>>)
    requires
        made_of(data, units),
    ensures
        avc_units(data) == Some(units),
    decreases units.len(),
{
    if units.len() == 0 {
        assert(units =~= seq![]);
    } else {
        let rest = units.drop_first();
        let n = units[0].len() as int;
        let tail = data.skip(4 + n);
        assert(seq![units[0]] + rest =~= units);
        assert(offset(units, 0) == 0);
        lemma_offset_of_tail(units[0], rest, rest.len() as int);
        assert(behind_length(data, offset(units, 0), units[0]));
        assert forall|i: int| 0 <= i < rest.len() implies #[trigger] behind_length(
            tail,
            offset(rest, i),
            rest[i],
        ) by {
            let at = offset(rest, i);
            lemma_offset_of_tail(units[0], rest, i);
            lemma_offset_grows(rest, 0, i);
            assert(behind_length(data, offset(units, i + 1), units[i + 1]));
            assert(rest[i] == units[i + 1]);
            assert(tail.subrange(at + 4, at + 4 + rest[i].len()) =~= data.subrange(
                4 + n + at + 4,
                4 + n + at + 4 + rest[i].len(),
            ));
        }
        assert(units.len() == rest.len() + 1);
        lemma_offset_grows(rest, 0, rest.len() as int);
        lemma_units_are_those(tail, rest);
        assert(be32_at(data, 0) == n);
        assert(data.subrange(4, 4 + n) == units[0]);
    }
}

proof fn lemma_units_make_data(data: Seq<u8>)
    ensures
        avc_units(data) matches Some(units) ==> made_of(data, units),
    decreases data.len(),
{
    if let Some(units) = avc_units(data) {
        if data.len() > 0 {
            let n = be32_at(data, 0);
            let tail = data.skip(4 + n);
            let first = data.subrange(4, 4 + n);
            lemma_units_make_data(tail);
            let rest = avc_units(tail).unwrap();
            assert(units == seq![first] + rest);
            lemma_offset_of_tail(first, rest, rest.len() as int);
            assert forall|i: int| 0 <= i < units.len() implies #[trigger] behind_length(
                data,
                offset(units, i),
                units[i],
            ) by {
                if i == 0 {
                    assert(units[0] == first);
                } else {
                    let at = offset(rest, i - 1);
                    lemma_offset_of_tail(first, rest, i - 1);
                    assert(units[i] == rest[i - 1]);
                    assert(behind_length(tail, at, rest[i - 1]));
                    assert(tail.subrange(at + 4, at + 4 + units[i].len()) =~= data.subrange(
                        4 + n + at + 4,
                        4 + n + at + 4 + units[i].len(),
                    ));
                }
            }
        }
    }
}

/// What the conversion does to every input. Data that is made of units behind their
/// lengths has each of these four bytes replaced by `0 0 0 1`, for every number of
/// units, and not a byte else changed. Data that is not, or that begins with
/// `0 0 0 1` itself, is not changed at all.
pub proof fn lemma_every_unit_is_marked(data: Seq<u8>, units: Seq<Seq<u8>>)
    ensures
        ({
            let begins = data.len() >= 4 && data[0] == 0 && data[1] == 0 && data[2] == 0 && data[3]
                == 1;
            &&& made_of(data, units) && !begins ==> marked(annex_b(data), units)
            &&& begins ==> annex_b(data) == data
            &&& (forall|other: Seq<Seq<u8>>| !made_of(data, other)) ==> annex_b(data) == data
        }),
{
    let begins = data.len() >= 4 && data[0] == 0 && data[1] == 0 && data[2] == 0 && data[3] == 1;
    assert(begins == begins_with_start_code(data)) by {
        if begins {
            assert(data.take(4) =~= start_code());
        } else if begins_with_start_code(data) {
            let head = data.take(4);
            assert(head[0] == data[0] && head[1] == data[1] && head[2] == data[2] && head[3]
                == data[3]);
        }
    }
    if made_of(data, units) {
        lemma_units_are_those(data, units);
        lemma_marked(units);
    }
    lemma_units_make_data(data);
}

/// Units before and units behind are converted alike: each part comes out as it would
/// alone.
pub proof fn lemma_start_codes_compose(first: Seq<Seq<u8>>, second: Seq<Seq<u8>>, unit: Seq<u8>)
    ensures
        with_start_codes(first + second) == with_start_codes(first) + with_start_codes(second),
        with_start_codes(seq![unit]) == seq![0u8, 0, 0, 1] + unit,
    decreases second.len(),
{
    assert(seq![unit].drop_last() =~= Seq::<Seq<u8>>::empty());
    assert(with_start_codes(seq![unit].drop_last()) =~= Seq::<u8>::empty());
    assert(with_start_codes(seq![unit]) =~= seq![0u8, 0, 0, 1] + unit);
    if second.len() == 0 {
        assert(first + second =~= first);
        assert(with_start_codes(first) + Seq::<u8>::empty() =~= with_start_codes(first));
    } else {
        let all = first + second;
        lemma_start_codes_compose(first, second.drop_last(), unit);
        assert(all.drop_last() =~= first + second.drop_last());
        assert(all.last() == second.last());
        assert(with_start_codes(all) =~= with_start_codes(first) + with_start_codes(second));
    }
}

} // verus!
