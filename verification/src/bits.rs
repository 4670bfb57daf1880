//! Bit-level helpers: the number of address bits a count needs, and
//! contiguous bit fields inside an address.
use vstd::prelude::*;
use vstd::arithmetic::power2::{pow2, lemma_pow2_pos, lemma_pow2_unfold, lemma_pow2_strictly_increases, lemma2_to64};
use vstd::bits::{lemma_usize_shr_is_div, lemma_usize_shl_is_mul, lemma_usize_low_bits_mask_is_mod, lemma_usize_pow2_no_overflow, low_bits_mask};

verus! {

/// `k` is the number of address bits needed to tell `n` items apart:
/// the least `k` with `2^k >= n`.
pub open spec fn is_count_log(n: nat, k: nat) -> bool {
    &&& pow2(k) >= n
    &&& (k == 0 || pow2((k - 1) as nat) < n)
}

/// The number of address bits needed for `n` items.
pub open spec fn count_log(n: nat) -> nat {
    choose|k: nat| is_count_log(n, k)
}

/// `2^e` fits in a word plus one when `e` is at most the word width.
pub proof fn lemma_pow2_le_word(e: nat)
    requires
        e <= usize::BITS,
    ensures
        pow2(e) <= usize::MAX + 1,
{
    lemma_pow2_bits_exceeds_usize();
    lemma2_to64();
    vstd::arithmetic::power2::lemma2_to64_rest();
    if e < usize::BITS {
        lemma_pow2_strictly_increases(e, usize::BITS as nat);
    }
}

/// At most one `k` is the bit count of `n`.
pub proof fn lemma_count_log_unique(n: nat, k1: nat, k2: nat)
    requires
        is_count_log(n, k1),
        is_count_log(n, k2),
    ensures
        k1 == k2,
{
    if k1 < k2 {
        if k1 < (k2 - 1) as nat {
            lemma_pow2_strictly_increases(k1, (k2 - 1) as nat);
        }
    } else if k2 < k1 {
        if k2 < (k1 - 1) as nat {
            lemma_pow2_strictly_increases(k2, (k1 - 1) as nat);
        }
    }
}

/// The value of the `bits`-wide field that starts at bit `offset` of `addr`.
pub open spec fn field_value(addr: nat, offset: nat, bits: nat) -> nat {
    (addr / pow2(offset)) % pow2(bits)
}

/// The number of address bits needed for `count` items, i.e. `ceil(log2(count))`
/// (0 for a count of 0 or 1).
pub fn count_to_log(count: usize) -> (k: usize)
    ensures
        is_count_log(count as nat, k as nat),
        k == count_log(count as nat),
        k <= usize::BITS,
{
    let mut k: usize = 0;
    let mut p: usize = 1;
    proof {
        lemma2_to64();
    }
    while p < count
        invariant
            k < usize::BITS,
            p == pow2(k as nat),
            k == 0 || pow2((k - 1) as nat) < count,
        decreases usize::BITS - k,
    {
        proof {
            lemma_pow2_unfold((k + 1) as nat);
        }
        if k == usize::BITS as usize - 1 {
            proof {
                lemma_pow2_bits_exceeds_usize();
            }
            proof {
                lemma_count_log_unique(count as nat, usize::BITS as nat, count_log(count as nat));
            }
            return usize::BITS as usize;
        }
        proof {
            lemma_usize_pow2_no_overflow((k + 1) as nat);
        }
        p = p * 2;
        k = k + 1;
    }
    proof {
        lemma_count_log_unique(count as nat, k as nat, count_log(count as nat));
    }
    k
}

/// `2^BITS` is larger than every `usize`.
proof fn lemma_pow2_bits_exceeds_usize()
    ensures
        pow2(usize::BITS as nat) > usize::MAX,
{
    lemma2_to64();
    vstd::arithmetic::power2::lemma2_to64_rest();
}

/// A contiguous run of `bits` bits starting at bit `offset`.
#[derive(Debug, Clone, Copy, PartialEq, Eq, Structural)]
pub struct BitsField {
    pub bits: usize,
    pub offset: usize,
}

impl BitsField {
    /// Extracts this field from `addr`.
    pub fn get(&self, addr: usize) -> (r: usize)
        requires
            self.bits < usize::BITS,
            self.offset < usize::BITS,
        ensures
            r == field_value(addr as nat, self.offset as nat, self.bits as nat),
    {
        let one: usize = 1;
        proof {
            lemma_usize_pow2_no_overflow(self.bits as nat);
            lemma_usize_shl_is_mul(one, self.bits);
            lemma_usize_shr_is_div(addr, self.offset);
            lemma_pow2_pos(self.offset as nat);
        }
        let mask = (one << self.bits) - 1;
        let shifted = addr >> self.offset;
        proof {
            lemma_usize_low_bits_mask_is_mod(shifted, self.bits as nat);
        }
        shifted & mask
    }
}

} // verus!
