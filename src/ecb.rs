//! The per-row error-check byte.
use vstd::prelude::*;

verus! {

/// The 16-bit accumulator of the error-check fold over a non-empty sequence.
///
/// It starts at the first byte. Each further byte `b` turns the accumulator
/// `a` into `(a mod 256) + b + carry`, where the carry is the inverse of bit 8
/// of `a`: one when `a < 256`, zero otherwise.
pub open spec fn ecb_acc(s: Seq<u8>) -> int
    decreases s.len(),
{
    if s.len() == 0 {
        0
    } else if s.len() == 1 {
        s[0] as int
    } else {
        let a = ecb_acc(s.drop_last());
        a % 256 + s.last() as int + (if a < 256 { 1int } else { 0int })
    }
}

/// The error-check byte of a non-empty sequence: the low eight bits of the
/// accumulator.
pub open spec fn ecb(s: Seq<u8>) -> u8 {
    (ecb_acc(s) % 256) as u8
}

/// A row is valid when its last byte is the error-check byte of the rest.
pub open spec fn row_valid(row: Seq<u8>) -> bool {
    row.len() >= 2 && ecb(row.drop_last()) == row.last()
}

/// The accumulator never leaves `0..512`.
pub proof fn lemma_ecb_acc_bound(s: Seq<u8>)
    ensures
        0 <= ecb_acc(s) < 512,
    decreases s.len(),
{
    if s.len() > 1 {
        lemma_ecb_acc_bound(s.drop_last());
    }
}

proof fn lemma_fold_step_bits(a: u16)
    requires
        a < 512,
    ensures
        a & 0xff == a % 256,
        (a >> 8u16) ^ 1u16 == (if a < 256 { 1u16 } else { 0u16 }),
{
    assert(a & 0xff == a % 256) by (bit_vector);
    assert((a >> 8u16) ^ 1u16 == (if a < 256 { 1u16 } else { 0u16 })) by (bit_vector)
        requires
            a < 512,
    ;
}

/// Error-check byte of `data[start..end]`.
pub(crate) fn ecb_of_range(data: &[u8], start: usize, end: usize) -> (r: u8)
    requires
        start < end <= data@.len(),
    ensures
        r == ecb(data@.subrange(start as int, end as int)),
{
    let mut acc: u16 = data[start] as u16;
    let mut i: usize = start + 1;
    assert(data@.subrange(start as int, i as int) =~= seq![data@[start as int]]);
    while i < end
        invariant
            start < i <= end <= data@.len(),
            acc as int == ecb_acc(data@.subrange(start as int, i as int)),
        decreases end - i,
    {
        proof {
            lemma_ecb_acc_bound(data@.subrange(start as int, i as int));
            lemma_fold_step_bits(acc);
            assert(data@.subrange(start as int, i + 1).drop_last()
                =~= data@.subrange(start as int, i as int));
        }
        let carry: u16 = (acc >> 8u16) ^ 1u16;
        let low: u16 = acc & 0xff;
        acc = low + data[i] as u16 + carry;
        i = i + 1;
    }
    proof {
        lemma_ecb_acc_bound(data@.subrange(start as int, end as int));
        lemma_fold_step_bits(acc);
    }
    (acc & 0xff) as u8
}

/// Error-check byte of a non-empty row payload.
pub fn ecb_calc(row: &[u8]) -> (r: u8)
    requires
        row@.len() >= 1,
    ensures
        r == ecb(row@),
{
    let r = ecb_of_range(row, 0, row.len());
    assert(row@.subrange(0, row@.len() as int) =~= row@);
    r
}

/// The check byte depends on the bytes alone: equal sequences give equal
/// check bytes, so repeated computations agree.
pub proof fn lemma_ecb_deterministic(p: Seq<u8>, q: Seq<u8>)
    requires
        p.len() >= 1,
        p =~= q,
    ensures
        ecb(p) == ecb(q),
{
}

/// The check byte depends on the order of the bytes: some sequence and its
/// reverse have different check bytes.
pub proof fn lemma_ecb_order_sensitive()
    ensures
        exists|p: Seq<u8>| p.len() > 1 && #[trigger] ecb(p) != ecb(p.reverse()),
{
    let p: Seq<u8> = seq![255u8, 1u8, 0u8];
    let q: Seq<u8> = seq![0u8, 1u8, 255u8];
    assert(p.reverse() =~= q);
    assert(p.drop_last() =~= seq![255u8, 1u8]);
    assert(p.drop_last().drop_last() =~= seq![255u8]);
    assert(q.drop_last() =~= seq![0u8, 1u8]);
    assert(q.drop_last().drop_last() =~= seq![0u8]);
    assert(ecb_acc(seq![255u8]) == 255);
    assert(ecb_acc(seq![255u8, 1u8]) == 257);
    assert(ecb_acc(p) == 1);
    assert(ecb_acc(seq![0u8]) == 0);
    assert(ecb_acc(seq![0u8, 1u8]) == 2);
    assert(ecb_acc(q) == 258);
    assert(ecb(p) != ecb(p.reverse()));
}

/// A row whose last byte is set to the check byte of the payload before it
/// is valid.
pub proof fn lemma_row_round_trip(payload: Seq<u8>)
    requires
        payload.len() >= 1,
    ensures
        row_valid(payload.push(ecb(payload))),
{
    assert(payload.push(ecb(payload)).drop_last() =~= payload);
}

} // verus!
