use vstd::prelude::*;
use vstd::arithmetic::div_mod::{lemma_div_is_ordered_by_denominator, lemma_fundamental_div_mod};

verus! {

/// The largest block requested from a peer in one message.
pub const BLOCK_MAX: usize = 16384;

/// How many chunks of at most `unit` bytes make up `total` bytes.
pub open spec fn chunk_count(total: int, unit: int) -> int {
    total / unit + if total % unit == 0 {
        0int
    } else {
        1int
    }
}

/// The size of chunk `i`: `unit`, except the last, which holds what remains
/// (a whole `unit` where `unit` divides `total`).
pub open spec fn chunk_size(total: int, unit: int, i: int) -> int {
    if i == chunk_count(total, unit) - 1 && total % unit != 0 {
        total % unit
    } else {
        unit
    }
}

fn count_chunks(total: usize, unit: usize) -> (r: usize)
    requires
        unit > 0,
    ensures
        r == chunk_count(total as int, unit as int),
{
    let q = total / unit;
    if total % unit == 0 {
        q
    } else {
        proof {
            if unit >= 2 {
                lemma_div_is_ordered_by_denominator(total as int, 2, unit as int);
            }
        }
        q + 1
    }
}

fn size_of_chunk(total: usize, unit: usize, i: usize) -> (r: usize)
    requires
        unit > 0,
        i < chunk_count(total as int, unit as int),
    ensures
        r == chunk_size(total as int, unit as int, i as int),
{
    let n = count_chunks(total, unit);
    if i == n - 1 && total % unit != 0 {
        total % unit
    } else {
        unit
    }
}

/// How many pieces of `piece_length` bytes hold `total_length` bytes: the quotient rounded up.
pub fn piece_count(total_length: usize, piece_length: usize) -> (r: usize)
    requires
        piece_length > 0,
    ensures
        r == chunk_count(total_length as int, piece_length as int),
{
    count_chunks(total_length, piece_length)
}

/// The size of piece `index`: `piece_length`, except the last piece, which holds
/// `total_length mod piece_length` bytes (`piece_length` where that is zero).
pub fn piece_size(total_length: usize, piece_length: usize, index: usize) -> (r: usize)
    requires
        piece_length > 0,
        index < chunk_count(total_length as int, piece_length as int),
    ensures
        r == chunk_size(total_length as int, piece_length as int, index as int),
{
    size_of_chunk(total_length, piece_length, index)
}

/// How many blocks of at most `block_max` bytes make up a piece of `piece_size` bytes.
pub fn block_count(piece_size: usize, block_max: usize) -> (r: usize)
    requires
        block_max > 0,
    ensures
        r == chunk_count(piece_size as int, block_max as int),
{
    count_chunks(piece_size, block_max)
}

/// The size of block `block` of a piece: `block_max`, except the last block, which holds
/// `piece_size mod block_max` bytes (`block_max` where that is zero).
pub fn block_size(piece_size: usize, block_max: usize, block: usize) -> (r: usize)
    requires
        block_max > 0,
        block < chunk_count(piece_size as int, block_max as int),
    ensures
        r == chunk_size(piece_size as int, block_max as int, block as int),
{
    size_of_chunk(piece_size, block_max, block)
}

/// A non-empty whole has at least one chunk and no more chunks than bytes.
pub proof fn lemma_chunk_count_bounds(total: int, unit: int)
    requires
        total > 0,
        unit > 0,
    ensures
        1 <= chunk_count(total, unit) <= total,
{
    lemma_fundamental_div_mod(total, unit);
    let q = total / unit;
    let r = total % unit;
    assert(total == unit * q + r);
    assert(0 <= r < unit);
    if q == 0 {
        assert(unit * q == 0) by (nonlinear_arith)
            requires q == 0;
        assert(r == total);
    } else {
        assert(q >= 1);
        if unit == 1 {
            assert(unit * q == q) by (nonlinear_arith)
                requires unit == 1;
            assert(r == 0);
        } else {
            assert(unit * q >= 2 * q) by (nonlinear_arith)
                requires q >= 1, unit >= 2;
        }
    }
}

/// Chunks tile the whole: every chunk is non-empty and at most `unit` long, chunk `i`
/// starts at `i * unit` and ends within `total`, the last one ends exactly at `total`,
/// and where `unit` divides `total` the last chunk is a whole `unit`.
pub proof fn lemma_chunks_tile(total: int, unit: int, i: int)
    requires
        total >= 0,
        unit > 0,
        0 <= i < chunk_count(total, unit),
    ensures
        0 < chunk_size(total, unit, i) <= unit,
        i * unit + chunk_size(total, unit, i) <= total,
        i == chunk_count(total, unit) - 1 ==> i * unit + chunk_size(total, unit, i) == total,
        total % unit == 0 ==> chunk_size(total, unit, i) == unit,
{
    lemma_fundamental_div_mod(total, unit);
    let q = total / unit;
    let r = total % unit;
    assert(total == unit * q + r);
    assert(0 <= r < unit);
    assert(i * unit + unit == (i + 1) * unit) by (nonlinear_arith);
    if r == 0 {
        assert(i + 1 <= q);
        assert((i + 1) * unit <= q * unit) by (nonlinear_arith)
            requires i + 1 <= q, unit > 0;
        if i == q - 1 {
            assert((i + 1) * unit == q * unit);
        }
    } else if i == q {
        assert(i * unit == q * unit);
    } else {
        assert(i + 1 <= q);
        assert((i + 1) * unit <= q * unit) by (nonlinear_arith)
            requires i + 1 <= q, unit > 0;
    }
}

} // verus!
