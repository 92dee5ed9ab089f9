//! The two variable-length integer encodings of the pack format.
//!
//! The size encoding is little-endian: each byte gives 7 bits, lowest group
//! first, and bit 7 says that another byte follows. The offset encoding used
//! by offset deltas is big-endian and adds one before each shift, so that no
//! value has two encodings.
use vstd::prelude::*;

verus! {

/// What a decoder reports for the value `v`: `v` itself up to `2^64`, and
/// `2^64` for anything larger, so that no length is ever mistaken for it.
pub open spec fn saturate(v: nat) -> nat {
    if v > 0x1_0000_0000_0000_0000 { 0x1_0000_0000_0000_0000 } else { v }
}

/// The size varint that starts at `pos`: its value and the position after it,
/// or `None` if the data ends before the last byte.
pub open spec fn size_varint(data: Seq<u8>, pos: int) -> Option<(nat, int)>
    decreases data.len() - pos,
{
    if pos < 0 || pos >= data.len() {
        None
    } else if data[pos] < 128 {
        Some((data[pos] as nat, pos + 1))
    } else {
        match size_varint(data, pos + 1) {
            Some((v, next)) => Some(((data[pos] - 128) as nat + 128 * v, next)),
            None => None,
        }
    }
}

/// Continues an offset varint whose groups read so far give `acc`.
pub open spec fn ofs_varint_rest(data: Seq<u8>, pos: int, acc: nat) -> Option<(nat, int)>
    decreases data.len() - pos,
{
    if pos < 0 || pos >= data.len() {
        None
    } else {
        let v = (acc + 1) * 128 + (data[pos] % 128) as nat;
        if data[pos] < 128 {
            Some((v, pos + 1))
        } else {
            ofs_varint_rest(data, pos + 1, v)
        }
    }
}

/// The offset varint that starts at `pos`: its value and the position after it.
pub open spec fn ofs_varint(data: Seq<u8>, pos: int) -> Option<(nat, int)> {
    if pos < 0 || pos >= data.len() {
        None
    } else if data[pos] < 128 {
        Some((data[pos] as nat, pos + 1))
    } else {
        ofs_varint_rest(data, pos + 1, (data[pos] - 128) as nat)
    }
}

proof fn lemma_size_varint_next(data: Seq<u8>, pos: int)
    requires
        size_varint(data, pos) is Some,
    ensures
        pos < size_varint(data, pos).unwrap().1 <= data.len(),
    decreases data.len() - pos,
{
    if data[pos] >= 128 {
        lemma_size_varint_next(data, pos + 1);
    }
}

proof fn lemma_ofs_varint_rest_next(data: Seq<u8>, pos: int, acc: nat)
    requires
        ofs_varint_rest(data, pos, acc) is Some,
    ensures
        pos < ofs_varint_rest(data, pos, acc).unwrap().1 <= data.len(),
    decreases data.len() - pos,
{
    let v = (acc + 1) * 128 + (data[pos] % 128) as nat;
    if data[pos] >= 128 {
        lemma_ofs_varint_rest_next(data, pos + 1, v);
    }
}

/// The position after a varint lies past its start and within the data.
pub proof fn lemma_varints_advance(data: Seq<u8>, pos: int)
    ensures
        size_varint(data, pos) is Some ==> pos < size_varint(data, pos).unwrap().1 <= data.len(),
        ofs_varint(data, pos) is Some ==> pos < ofs_varint(data, pos).unwrap().1 <= data.len(),
{
    if size_varint(data, pos) is Some {
        lemma_size_varint_next(data, pos);
    }
    if ofs_varint(data, pos) is Some && data[pos] >= 128 {
        lemma_ofs_varint_rest_next(data, pos + 1, (data[pos] - 128) as nat);
    }
}

/// Reads the size varint at `pos`: its value (saturated at `2^64`) and the
/// position after it; `None` when the data ends first.
pub fn read_size_varint(data: &[u8], pos: usize) -> (r: Option<(u128, usize)>)
    ensures
        match r {
            Some((v, next)) => size_varint(data@, pos as int) matches Some((exact, end)) && v == saturate(exact)
                && next == end,
            None => size_varint(data@, pos as int) is None,
        },
{
    if pos >= data.len() {
        return None;
    }
    let mut i = pos;
    let mut acc: u128 = 0;
    let mut weight: u128 = 1;
    let ghost mut exact: nat = 0;
    let ghost mut w: nat = 1;
    while i < data.len()
        invariant
            pos <= i <= data.len(),
            w >= 1,
            weight == if w > 0x1_0000_0000_0000_0000 { 0x1_0000_0000_0000_0000 } else { w },
            acc as nat == saturate(exact),
            size_varint(data@, pos as int) == match size_varint(data@, i as int) {
                Some((v, next)) => Some((exact + w * v, next)),
                None => None::<(nat, int)>,
            },
        decreases data.len() - i,
    {
        let b = data[i];
        let group: u128 = (b % 128) as u128;
        proof {
            assert(group * weight <= 127 * 0x1_0000_0000_0000_0000) by (nonlinear_arith)
                requires
                    group <= 127,
                    weight <= 0x1_0000_0000_0000_0000,
            ;
        }
        let sum: u128 = acc + group * weight;
        proof {
            let term: nat = (group * w) as nat;
            assert(group > 0 ==> group * weight >= weight) by (nonlinear_arith)
                requires
                    weight >= 1,
            ;
            assert(group > 0 ==> group * w >= w) by (nonlinear_arith)
                requires
                    w >= 1,
            ;
            assert(group * w >= 0) by (nonlinear_arith)
                requires
                    w >= 1,
                    group >= 0,
            ;
            if b >= 128 {
                let g: nat = (b - 128) as nat;
                assert(g == group);
                if let Some((v, next)) = size_varint(data@, i + 1) {
                    assert(w * (g + 128 * v) == g * w + (w * 128) * v) by (nonlinear_arith);
                }
            } else {
                assert(group == b);
                assert(size_varint(data@, i as int) == Some((b as nat, i + 1)));
                assert(w * (b as nat) == term) by (nonlinear_arith)
                    requires
                        term == group * w,
                        group == b,
                ;
            }
            assert(group == 0 ==> group * w == 0 && group * weight == 0) by (nonlinear_arith);
            if weight == w {
                assert(group * weight == term);
            } else {
                assert(weight == 0x1_0000_0000_0000_0000);
                assert(group > 0 ==> sum >= 0x1_0000_0000_0000_0000);
                assert(group > 0 ==> term > 0x1_0000_0000_0000_0000);
            }
            assert(saturate(exact + term) == if sum > 0x1_0000_0000_0000_0000 { 0x1_0000_0000_0000_0000 } else { sum });
            exact = exact + term;
            w = w * 128;
        }
        acc = if sum > 0x1_0000_0000_0000_0000 { 0x1_0000_0000_0000_0000 } else { sum };
        weight = if weight >= 0x200_0000_0000_0000 { 0x1_0000_0000_0000_0000 } else { weight * 128 };
        i = i + 1;
        if b < 128 {
            return Some((acc, i));
        }
    }
    None
}

/// Reads the offset varint at `pos`: its value (saturated at `2^64`) and
/// the position after it; `None` when the data ends first.
pub fn read_ofs_varint(data: &[u8], pos: usize) -> (r: Option<(u128, usize)>)
    ensures
        match r {
            Some((v, next)) => ofs_varint(data@, pos as int) matches Some((exact, end)) && v == saturate(exact)
                && next == end,
            None => ofs_varint(data@, pos as int) is None,
        },
{
    if pos >= data.len() {
        return None;
    }
    let first = data[pos];
    if first < 128 {
        return Some((first as u128, pos + 1));
    }
    let mut acc: u128 = (first - 128) as u128;
    let ghost mut exact: nat = (first - 128) as nat;
    let mut i = pos + 1;
    while i < data.len()
        invariant
            pos < i <= data.len(),
            acc as nat == saturate(exact),
            ofs_varint(data@, pos as int) == ofs_varint_rest(data@, i as int, exact),
        decreases data.len() - i,
    {
        let b = data[i];
        let next: u128 = (acc + 1) * 128 + (b % 128) as u128;
        proof {
            exact = (exact + 1) * 128 + (b % 128) as nat;
        }
        acc = if next > 0x1_0000_0000_0000_0000 { 0x1_0000_0000_0000_0000 } else { next };
        i = i + 1;
        if b < 128 {
            return Some((acc, i));
        }
    }
    None
}

} // verus!
