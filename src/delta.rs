//! Rebuilding an object from a base and a delta instruction stream.
use vstd::prelude::*;
use crate::bytes::append_range;
use crate::error::Error;
use crate::varint::{lemma_varints_advance, read_size_varint, saturate, size_varint};

verus! {

/// `256` to the power `n`: one more than the largest value of `n` bytes.
pub open spec fn byte_span(n: nat) -> nat
    decreases n,
{
    if n == 0 { 1 } else { 256 * byte_span((n - 1) as nat) }
}

/// Whether bit `k` of an instruction byte is set.
pub open spec fn has_bit(op: u8, k: u8) -> bool {
    op & (1u8 << k) != 0
}

/// The little-endian operand of a copy instruction made of the bytes that bits
/// `k .. end` of `op` select, starting at `pos`; an absent byte counts as zero.
pub open spec fn operand(d: Seq<u8>, pos: int, op: u8, k: u8, end: u8) -> Option<(nat, int)>
    decreases end - k,
{
    if k >= end || end > 8 {
        Some((0, pos))
    } else if has_bit(op, k) {
        if 0 <= pos < d.len() {
            match operand(d, pos + 1, op, (k + 1) as u8, end) {
                Some((v, next)) => Some(((d[pos] + 256 * v) as nat, next)),
                None => None,
            }
        } else {
            None
        }
    } else {
        match operand(d, pos, op, (k + 1) as u8, end) {
            Some((v, next)) => Some((256 * v, next)),
            None => None,
        }
    }
}

/// An operand ends at or after its start, and its value fits the bytes it may use.
pub proof fn lemma_operand(d: Seq<u8>, pos: int, op: u8, k: u8, end: u8)
    requires
        k <= end <= 8,
        operand(d, pos, op, k, end) is Some,
    ensures
        pos <= operand(d, pos, op, k, end).unwrap().1,
        pos <= d.len() ==> operand(d, pos, op, k, end).unwrap().1 <= d.len(),
        operand(d, pos, op, k, end).unwrap().0 < byte_span((end - k) as nat),
    decreases end - k,
{
    if k < end {
        let next_pos = if has_bit(op, k) { pos + 1 } else { pos };
        lemma_operand(d, next_pos, op, (k + 1) as u8, end);
        let v = operand(d, next_pos, op, (k + 1) as u8, end).unwrap().0;
        let s = byte_span((end - k - 1) as nat);
        assert(byte_span((end - k) as nat) == 256 * s);
        assert(256 * v + 255 < 256 * s) by (nonlinear_arith)
            requires
                v < s,
        ;
    }
}

/// The operand bytes of a copy instruction at `pos`: offset, size, and the
/// position after them. A size of zero stands for `0x10000`.
pub open spec fn copy_operands(d: Seq<u8>, pos: int, op: u8) -> Option<(nat, nat, int)> {
    match operand(d, pos, op, 0, 4) {
        Some((offset, p)) => match operand(d, p, op, 4, 7) {
            Some((size, next)) => Some((offset, if size == 0 { 0x10000 } else { size }, next)),
            None => None,
        },
        None => None,
    }
}

/// Runs the instructions from `pos` on, appending to `out`.
pub open spec fn delta_ops(delta: Seq<u8>, pos: int, base: Seq<u8>, out: Seq<u8>) -> Result<Seq<u8>, Error>
    decreases delta.len() - pos,
{
    if pos < 0 || pos >= delta.len() {
        Ok(out)
    } else {
        let op = delta[pos];
        if op >= 128 {
            match copy_operands(delta, pos + 1, op) {
                None => Err(Error::UnexpectedEof),
                Some((offset, size, next)) => {
                    if offset + size > base.len() {
                        Err(Error::DeltaOutOfBounds)
                    } else {
                        proof {
                            lemma_operand(delta, pos + 1, op, 0, 4);
                            lemma_operand(delta, operand(delta, pos + 1, op, 0, 4).unwrap().1, op, 4, 7);
                        }
                        delta_ops(delta, next, base, out + base.subrange(offset as int, (offset + size) as int))
                    }
                },
            }
        } else if op != 0 {
            if pos + 1 + op > delta.len() {
                Err(Error::UnexpectedEof)
            } else {
                delta_ops(delta, pos + 1 + op, base, out + delta.subrange(pos + 1, pos + 1 + op))
            }
        } else {
            Err(Error::InvalidDeltaOpcode)
        }
    }
}

/// What applying `delta` to `base` gives: the two size varints, then the
/// instructions, then the check of the declared result size.
pub open spec fn delta_result(delta: Seq<u8>, base: Seq<u8>) -> Result<Seq<u8>, Error> {
    match size_varint(delta, 0) {
        None => Err(Error::UnexpectedEof),
        Some((base_size, p)) => if base_size != base.len() {
            Err(Error::BaseSizeMismatch)
        } else {
            match size_varint(delta, p) {
                None => Err(Error::UnexpectedEof),
                Some((result_size, start)) => match delta_ops(delta, start, base, seq![]) {
                    Err(e) => Err(e),
                    Ok(out) => if out.len() == result_size {
                        Ok(out)
                    } else {
                        Err(Error::ResultSizeMismatch)
                    },
                },
            }
        },
    }
}

proof fn lemma_byte_span_small(n: nat)
    requires
        n <= 3,
    ensures
        byte_span(n) <= 0x100_0000,
{
    reveal_with_fuel(byte_span, 4);
}

/// Reads the operand bytes that bits `k .. end` of `op` select, from `pos` on.
fn read_operand(d: &[u8], pos: usize, op: u8, k: u8, end: u8) -> (r: Option<(u64, usize)>)
    requires
        k <= end <= 8,
        end - k <= 4,
    ensures
        match operand(d@, pos as int, op, k, end) {
            Some((v, next)) => r == Some((v as u64, next as usize)),
            None => r is None,
        },
    decreases end - k,
{
    if k >= end {
        return Some((0, pos));
    }
    proof {
        lemma_byte_span_small((end - k - 1) as nat);
    }
    if op & (1u8 << k) != 0 {
        if pos < d.len() {
            match read_operand(d, pos + 1, op, k + 1, end) {
                Some((v, next)) => {
                    proof {
                        lemma_operand(d@, pos + 1, op, (k + 1) as u8, end);
                    }
                    Some((d[pos] as u64 + 256 * v, next))
                },
                None => None,
            }
        } else {
            None
        }
    } else {
        match read_operand(d, pos, op, k + 1, end) {
            Some((v, next)) => {
                proof {
                    lemma_operand(d@, pos as int, op, (k + 1) as u8, end);
                }
                Some((256 * v, next))
            },
            None => None,
        }
    }
}

/// Applies the delta instruction stream `delta` to `base`.
///
/// The stream starts with the base size and the result size as size varints;
/// copy and insert instructions follow. Fails with `BaseSizeMismatch` when the
/// base size disagrees with `base`, `DeltaOutOfBounds` when a copy reaches past
/// the base, `InvalidDeltaOpcode` on a zero instruction byte, `UnexpectedEof`
/// when a field is cut off, and `ResultSizeMismatch` when the output length is
/// not the declared result size.
pub fn apply_delta(delta: &[u8], base: &[u8]) -> (r: Result<Vec<u8>, Error>)
    ensures
        match r {
            Ok(out) => delta_result(delta@, base@) == Ok::<Seq<u8>, Error>(out@),
            Err(e) => delta_result(delta@, base@) == Err::<Seq<u8>, Error>(e),
        },
{
    if delta.len() == 0 {
        return Err(Error::UnexpectedEof);
    }
    let (base_size, p) = match read_size_varint(delta, 0) {
        Some(x) => x,
        None => return Err(Error::UnexpectedEof),
    };
    proof {
        lemma_varints_advance(delta@, 0);
    }
    if base_size != base.len() as u128 {
        return Err(Error::BaseSizeMismatch);
    }
    let (result_size, start) = match read_size_varint(delta, p) {
        Some(x) => x,
        None => return Err(Error::UnexpectedEof),
    };
    proof {
        lemma_varints_advance(delta@, p as int);
    }
    let mut out: Vec<u8> = Vec::new();
    let mut i = start;
    while i < delta.len()
        invariant
            start <= i <= delta@.len(),
            size_varint(delta@, 0) == Some((base@.len() as nat, p as int)),
            size_varint(delta@, p as int) is Some,
            size_varint(delta@, p as int).unwrap().1 == start,
            result_size == saturate(size_varint(delta@, p as int).unwrap().0),
            delta_ops(delta@, start as int, base@, seq![]) == delta_ops(delta@, i as int, base@, out@),
        decreases delta.len() - i,
    {
        let op = delta[i];
        if op >= 128 {
            let (offset, size_at) = match read_operand(delta, i + 1, op, 0, 4) {
                Some(x) => x,
                None => return Err(Error::UnexpectedEof),
            };
            proof {
                lemma_operand(delta@, i + 1, op, 0, 4);
            }
            let (size0, next) = match read_operand(delta, size_at, op, 4, 7) {
                Some(x) => x,
                None => return Err(Error::UnexpectedEof),
            };
            proof {
                lemma_operand(delta@, size_at as int, op, 4, 7);
                lemma_byte_span_small(3);
            }
            let size: u64 = if size0 == 0 { 0x10000 } else { size0 };
            if offset + size > base.len() as u64 {
                return Err(Error::DeltaOutOfBounds);
            }
            append_range(&mut out, base, offset as usize, (offset + size) as usize);
            i = next;
        } else if op != 0 {
            let len = op as usize;
            if len > delta.len() - i - 1 {
                return Err(Error::UnexpectedEof);
            }
            append_range(&mut out, delta, i + 1, i + 1 + len);
            i = i + 1 + len;
        } else {
            return Err(Error::InvalidDeltaOpcode);
        }
    }
    if result_size != out.len() as u128 {
        return Err(Error::ResultSizeMismatch);
    }
    Ok(out)
}

/// Applies `delta` to `base`, exactly as [`apply_delta`] does, under its
/// Spanish name.
pub fn aplicar_delta(delta: &[u8], base: &[u8]) -> (r: Result<Vec<u8>, Error>)
    ensures
        match r {
            Ok(out) => delta_result(delta@, base@) == Ok::<Seq<u8>, Error>(out@),
            Err(e) => delta_result(delta@, base@) == Err::<Seq<u8>, Error>(e),
        },
{
    apply_delta(delta, base)
}

/// Where the instruction at `pos` ends, when it is whole: a copy after its
/// operand bytes, an insert after its literal bytes.
pub open spec fn instruction_end(d: Seq<u8>, pos: int) -> Option<int> {
    if pos < 0 || pos >= d.len() {
        None
    } else if d[pos] >= 128 {
        match copy_operands(d, pos + 1, d[pos]) {
            Some((_, _, next)) => Some(next),
            None => None,
        }
    } else if d[pos] != 0 && pos + 1 + d[pos] <= d.len() {
        Some(pos + 1 + d[pos])
    } else {
        None
    }
}

/// Whether `c` is where one of the instructions read from `pos` on starts,
/// or where the last of them ends.
pub open spec fn is_boundary(d: Seq<u8>, pos: int, c: int) -> bool
    decreases c - pos,
{
    if pos == c {
        true
    } else if pos > c {
        false
    } else {
        match instruction_end(d, pos) {
            Some(next) => if next > pos && next <= c {
                is_boundary(d, next, c)
            } else {
                false
            },
            None => false,
        }
    }
}

/// Where the instructions of a delta start, after its two size varints.
pub open spec fn instruction_start(d: Seq<u8>) -> int {
    match size_varint(d, 0) {
        Some((_, p)) => match size_varint(d, p) {
            Some((_, start)) => start,
            None => d.len() as int,
        },
        None => d.len() as int,
    }
}

proof fn lemma_operand_cut(d: Seq<u8>, p: int, op: u8, k: u8, end: u8, c: int)
    requires
        k <= end <= 8,
        0 <= p <= c <= d.len(),
        operand(d, p, op, k, end) is Some,
    ensures
        operand(d, p, op, k, end).unwrap().1 <= c ==> operand(d.take(c), p, op, k, end) == operand(d, p, op, k, end),
        operand(d, p, op, k, end).unwrap().1 > c ==> operand(d.take(c), p, op, k, end) is None,
    decreases end - k,
{
    lemma_operand(d, p, op, k, end);
    if k < end {
        if has_bit(op, k) {
            if p < c {
                assert(d.take(c)[p] == d[p]);
                lemma_operand_cut(d, p + 1, op, (k + 1) as u8, end, c);
            } else {
                lemma_operand(d, p + 1, op, (k + 1) as u8, end);
            }
        } else {
            lemma_operand_cut(d, p, op, (k + 1) as u8, end, c);
        }
    }
}

proof fn lemma_ops_cut(d: Seq<u8>, base: Seq<u8>, pos: int, out: Seq<u8>, c: int)
    requires
        0 <= pos <= c <= d.len(),
        delta_ops(d, pos, base, out) is Ok,
        !is_boundary(d, pos, c),
    ensures
        delta_ops(d.take(c), pos, base, out) == Err::<Seq<u8>, Error>(Error::UnexpectedEof),
    decreases c - pos,
{
    let t = d.take(c);
    let op = d[pos];
    assert(t[pos] == op);
    if op >= 128 {
        let (offset, size, next) = copy_operands(d, pos + 1, op).unwrap();
        let mid = operand(d, pos + 1, op, 0, 4).unwrap().1;
        lemma_operand(d, pos + 1, op, 0, 4);
        lemma_operand(d, mid, op, 4, 7);
        lemma_operand_cut(d, pos + 1, op, 0, 4, c);
        if mid <= c {
            lemma_operand_cut(d, mid, op, 4, 7, c);
        }
        if next <= c {
            assert(copy_operands(t, pos + 1, op) == copy_operands(d, pos + 1, op));
            lemma_ops_cut(d, base, next, out + base.subrange(offset as int, (offset + size) as int), c);
        }
    } else {
        let next = pos + 1 + op;
        if next <= c {
            assert(t.subrange(pos + 1, next) == d.subrange(pos + 1, next));
            lemma_ops_cut(d, base, next, out + d.subrange(pos + 1, next), c);
        }
    }
}

proof fn lemma_size_varint_cut(d: Seq<u8>, p: int, c: int)
    requires
        0 <= p,
        c <= d.len(),
        size_varint(d, p) matches Some((_, next)) && next <= c,
    ensures
        size_varint(d.take(c), p) == size_varint(d, p),
    decreases d.len() - p,
{
    lemma_varints_advance(d, p);
    assert(d.take(c)[p] == d[p]);
    if d[p] >= 128 {
        lemma_size_varint_cut(d, p + 1, c);
    }
}

/// A delta that applies, cut anywhere after its size varints but inside one
/// of its instructions (among a copy's operand bytes or an insert's literal
/// bytes), fails with `UnexpectedEof`: it never yields the output of the
/// instructions before the cut.
pub proof fn lemma_cut_delta_fails(d: Seq<u8>, base: Seq<u8>, c: int)
    requires
        delta_result(d, base) is Ok,
        instruction_start(d) <= c <= d.len(),
        !is_boundary(d, instruction_start(d), c),
    ensures
        delta_result(d.take(c), base) == Err::<Seq<u8>, Error>(Error::UnexpectedEof),
{
    let p = size_varint(d, 0).unwrap().1;
    let start = instruction_start(d);
    lemma_varints_advance(d, 0);
    lemma_varints_advance(d, p);
    lemma_size_varint_cut(d, 0, c);
    lemma_size_varint_cut(d, p, c);
    lemma_ops_cut(d, base, start, seq![], c);
}

} // verus!
