//! The same-bank mapping: a logical row id is split into bit fields that
//! name the channel, bank and subarray holding the row and the row inside
//! the subarray; dense result columns share the same layout.
use vstd::prelude::*;
use vstd::arithmetic::power2::{pow2, lemma_pow2_pos, lemma_pow2_adds};
use vstd::bits::{lemma_usize_shl_is_mul, lemma_usize_pow2_no_overflow, lemma_usize_shr_is_div};
use crate::bits::{count_to_log, count_log, field_value, lemma_pow2_le_word, BitsField};
use crate::row_cycle::{LogicColId, LogicRowId, PhysicRowId, RingBufferId, RingId, RingPort, SubarrayId, TsvId};

verus! {

/// the row and dense col share the same mapping
#[derive(Debug)]
pub struct SameBankMapping {
    pub subarray_bits: BitsField,
    pub inner_insubarray_bits: BitsField,
    pub bank_bits: BitsField,
    pub channel_bits: BitsField,
    pub outer_insubarray_bits: BitsField,
}

/// `(a << k) | b` is `a * 2^k + b` when `b` fits in `k` bits and nothing overflows.
pub proof fn lemma_shift_or(a: usize, b: usize, k: usize)
    requires
        k < usize::BITS,
        b < pow2(k as nat),
        a * pow2(k as nat) + b <= usize::MAX,
    ensures
        (a << k) | b == a * pow2(k as nat) + b,
{
    lemma_usize_pow2_no_overflow(k as nat);
    lemma_pow2_pos(k as nat);
    assert(a * pow2(k as nat) <= usize::MAX);
    lemma_usize_shl_is_mul(a, k);
    let one: usize = 1;
    lemma_usize_shl_is_mul(one, k);
    assert(b < (one << k));
    let s = a << k;
    assert(s == a * pow2(k as nat));
    assert((a << k) | b == (a << k) + b) by (bit_vector)
        requires
            one == 1,
            k < usize::BITS,
            b < (one << k),
    ;
}

impl SameBankMapping {
    /// Lays out `total_rows` rows over `total_channels` channels of
    /// `total_banks` banks of `total_subarrays` subarrays: from the lowest
    /// bit up, the subarray, the row inside the subarray, the bank, the
    /// channel, and one more row bit on top.
    pub fn new(total_rows: usize, total_banks: usize, total_channels: usize, total_subarrays: usize) -> (r: Self)
        requires
            count_log(total_rows as nat) >= 1 + count_log(total_banks as nat) + count_log(total_subarrays as nat)
                + count_log(total_channels as nat),
        ensures
            r.wf(),
            r.subarray_bits == (BitsField { bits: count_log(total_subarrays as nat) as usize, offset: 0 }),
            r.inner_insubarray_bits == (BitsField {
                bits: (count_log(total_rows as nat) - 1 - count_log(total_banks as nat) - count_log(total_subarrays as nat)
                    - count_log(total_channels as nat)) as usize,
                offset: count_log(total_subarrays as nat) as usize,
            }),
            r.bank_bits == (BitsField {
                bits: count_log(total_banks as nat) as usize,
                offset: (count_log(total_rows as nat) - 1 - count_log(total_banks as nat) - count_log(total_channels as nat)) as usize,
            }),
            r.channel_bits == (BitsField {
                bits: count_log(total_channels as nat) as usize,
                offset: (count_log(total_rows as nat) - 1 - count_log(total_channels as nat)) as usize,
            }),
            r.outer_insubarray_bits == (BitsField { bits: 1, offset: (count_log(total_rows as nat) - 1) as usize }),
    {
        let bank_bits = count_to_log(total_banks);
        let total_bits = count_to_log(total_rows);
        let subarray_bits = count_to_log(total_subarrays);
        let channel_bits = count_to_log(total_channels);
        let row_bits = total_bits - 1 - bank_bits - subarray_bits - channel_bits;
        let subarray_bits = BitsField { bits: subarray_bits, offset: 0 };
        let inner_insubarray_bits = BitsField { bits: row_bits, offset: subarray_bits.offset + subarray_bits.bits };
        let bank_bits = BitsField { bits: bank_bits, offset: inner_insubarray_bits.offset + inner_insubarray_bits.bits };
        let channel_bits = BitsField { bits: channel_bits, offset: bank_bits.offset + bank_bits.bits };
        let outer_insubarray_bits = BitsField { bits: 1, offset: channel_bits.offset + channel_bits.bits };
        SameBankMapping { subarray_bits, inner_insubarray_bits, bank_bits, channel_bits, outer_insubarray_bits }
    }

    /// Every field fits in a word and the fields after the subarray field
    /// lie above it without overlapping.
    pub open spec fn wf(self) -> bool {
        &&& self.subarray_bits.bits < usize::BITS
        &&& self.subarray_bits.offset < usize::BITS
        &&& self.inner_insubarray_bits.bits < usize::BITS
        &&& self.inner_insubarray_bits.offset < usize::BITS
        &&& self.bank_bits.bits < usize::BITS
        &&& self.bank_bits.offset < usize::BITS
        &&& self.channel_bits.bits < usize::BITS
        &&& self.channel_bits.offset < usize::BITS
        &&& self.outer_insubarray_bits.bits == 1
        &&& self.outer_insubarray_bits.offset < usize::BITS
        &&& self.inner_insubarray_bits.bits + 1 <= usize::BITS
        &&& self.bank_bits.bits + self.subarray_bits.bits + self.channel_bits.bits < usize::BITS
    }

    /// The row of the subarray that holds id `id`: the outer bit above the inner row bits.
    pub open spec fn in_subarray_id(self, id: usize) -> nat {
        field_value(id as nat, self.outer_insubarray_bits.offset as nat, 1) * pow2(self.inner_insubarray_bits.bits as nat)
            + field_value(id as nat, self.inner_insubarray_bits.offset as nat, self.inner_insubarray_bits.bits as nat)
    }

    /// The global subarray id that holds id `id`: channel, bank, subarray.
    pub open spec fn global_subarray_id(self, id: usize) -> nat {
        field_value(id as nat, self.channel_bits.offset as nat, self.channel_bits.bits as nat)
            * pow2((self.bank_bits.bits + self.subarray_bits.bits) as nat)
            + field_value(id as nat, self.bank_bits.offset as nat, self.bank_bits.bits as nat)
            * pow2(self.subarray_bits.bits as nat)
            + field_value(id as nat, self.subarray_bits.offset as nat, self.subarray_bits.bits as nat)
    }

    fn in_subarray_bits(&self, id: usize) -> (r: usize)
        requires
            self.wf(),
        ensures
            r == self.in_subarray_id(id),
    {
        let inner_bits = self.inner_insubarray_bits.get(id);
        let outer_bits = self.outer_insubarray_bits.get(id);
        let inner_offset = self.inner_insubarray_bits.bits;
        proof {
            let k = inner_offset as nat;
            lemma_pow2_adds(k, 1);
            vstd::arithmetic::power2::lemma2_to64();
            assert(pow2(1) == 2);
            lemma_pow2_le_word(k + 1);
            lemma_pow2_pos(k);
            assert(outer_bits <= 1);
            assert(outer_bits * pow2(k) <= pow2(k)) by (nonlinear_arith)
                requires outer_bits <= 1;
            lemma_shift_or(outer_bits, inner_bits, inner_offset);
        }
        outer_bits << inner_offset | inner_bits
    }

    /// return the row_id of some dense col
    pub fn get_col_rowid(&self, col_id: usize) -> (r: usize)
        requires
            self.wf(),
        ensures
            r == self.in_subarray_id(col_id) / 64,
    {
        let total_bits = self.in_subarray_bits(col_id);
        // each row holds 256 / 4 = 64 words
        proof {
            lemma_usize_shr_is_div(total_bits, 6);
            vstd::arithmetic::power2::lemma2_to64();
        }
        total_bits >> 6
    }

    /// return the col_id of some dense col: the byte offset of its word in the row
    pub fn get_col_colid(&self, col_id: usize) -> (r: usize)
        requires
            self.wf(),
        ensures
            r == (self.in_subarray_id(col_id) % 64) * 4,
    {
        let total_bits = self.in_subarray_bits(col_id);
        // the low 6 bits: (1 << 6) - 1
        let mask: usize = 63;
        let low = total_bits & mask;
        assert(low == total_bits % 64) by (bit_vector)
            requires
                mask == 63,
                low == total_bits & mask,
        ;
        assert(low << 2 == low * 4) by (bit_vector)
            requires low < 64;
        low << 2
    }

    /// return the row_id of some sparse row; a sparse row occupies a whole row
    pub fn get_row_rowid(&self, row_id: usize) -> (r: usize)
        requires
            self.wf(),
        ensures
            r == self.in_subarray_id(row_id),
    {
        self.in_subarray_bits(row_id)
    }

    /// return the col_id of some sparse row, always 0: a sparse row starts its row
    pub fn get_row_colid(&self, _row_id: usize) -> (r: usize)
        ensures
            r == 0,
    {
        0
    }

    /// return the global subarray id
    pub fn get_global_subarray_id(&self, row_id: usize) -> (r: usize)
        requires
            self.wf(),
        ensures
            r == self.global_subarray_id(row_id),
    {
        let channel_id = self.channel_bits.get(row_id);
        let bank_id = self.bank_bits.get(row_id);
        let subarray_id = self.subarray_bits.get(row_id);
        let sb = self.subarray_bits.bits;
        let bb = self.bank_bits.bits;
        proof {
            lemma_pow2_adds(bb as nat, sb as nat);
            lemma_pow2_pos(bb as nat);
            lemma_pow2_pos(sb as nat);
            lemma_pow2_pos(self.channel_bits.bits as nat);
            lemma_pow2_adds((self.channel_bits.bits) as nat, (bb + sb) as nat);
            vstd::bits::lemma_usize_pow2_no_overflow((self.channel_bits.bits + bb + sb) as nat);
            vstd::bits::lemma_usize_pow2_no_overflow((bb + sb) as nat);
            assert(bank_id * pow2(sb as nat) + subarray_id < pow2((bb + sb) as nat)) by (nonlinear_arith)
                requires
                    bank_id < pow2(bb as nat),
                    subarray_id < pow2(sb as nat),
                    pow2((bb + sb) as nat) == pow2(bb as nat) * pow2(sb as nat),
            ;
            assert(channel_id * pow2((bb + sb) as nat) + (bank_id * pow2(sb as nat) + subarray_id)
                < pow2((self.channel_bits.bits + bb + sb) as nat)) by (nonlinear_arith)
                requires
                    channel_id < pow2(self.channel_bits.bits as nat),
                    bank_id * pow2(sb as nat) + subarray_id < pow2((bb + sb) as nat),
                    pow2((self.channel_bits.bits + bb + sb) as nat) == pow2(self.channel_bits.bits as nat) * pow2((bb + sb) as nat),
            ;
            lemma_shift_or(bank_id, subarray_id, sb);
        }
        let low = (bank_id << sb) | subarray_id;
        let k = bb + sb;
        proof {
            lemma_shift_or(channel_id, low, k);
        }
        (channel_id << k) | low
    }
}

impl SameBankMapping {
    /// if the row is evil row, get the physic row id: evil rows keep their id
    pub fn get_row_id_evil(&self, mat_b_row_id: LogicRowId, _col_id: LogicColId) -> (r: PhysicRowId)
        ensures
            r.0 == mat_b_row_id.0,
    {
        PhysicRowId(mat_b_row_id.0)
    }

    /// The channel of a subarray.
    pub fn get_tsv_id_from_subarray(&self, sub_array_id: SubarrayId) -> (r: TsvId)
        requires
            self.wf(),
        ensures
            r.0 == sub_array_id.0 as nat / pow2(self.subarray_bits.bits as nat) / pow2(self.bank_bits.bits as nat),
    {
        proof {
            lemma_usize_shr_is_div(sub_array_id.0, self.subarray_bits.bits);
            lemma_usize_shr_is_div(sub_array_id.0 >> self.subarray_bits.bits, self.bank_bits.bits);
        }
        TsvId(sub_array_id.0 >> self.subarray_bits.bits >> self.bank_bits.bits)
    }

    /// The channel of a ring: the ring id is the channel id.
    pub fn get_tsv_id_from_ring(&self, ring_id: RingId) -> (r: TsvId)
        ensures
            r.0 == ring_id.0,
    {
        TsvId(ring_id.0)
    }

    /// The ring port of a subarray: its bank inside the channel (as a byte).
    pub fn ring_port_from_subarray(&self, subarray_id: SubarrayId) -> (r: RingPort)
        requires
            self.wf(),
        ensures
            r.0 == field_value(subarray_id.0 as nat, self.subarray_bits.bits as nat, self.bank_bits.bits as nat) % 256,
    {
        let field = BitsField { bits: self.bank_bits.bits, offset: self.subarray_bits.bits };
        let id = field.get(subarray_id.0);
        RingPort((id % 256) as u8)
    }

    /// The ring buffer of a subarray: its absolute bank.
    pub fn ring_buffer_id(&self, subarray_id: SubarrayId) -> (r: RingBufferId)
        requires
            self.wf(),
        ensures
            r.0 == subarray_id.0 as nat / pow2(self.subarray_bits.bits as nat),
    {
        proof {
            lemma_usize_shr_is_div(subarray_id.0, self.subarray_bits.bits);
        }
        RingBufferId(subarray_id.0 >> self.subarray_bits.bits)
    }

    /// The ring of a subarray: its channel.
    pub fn ring_id_from_subarray(&self, partition_id: SubarrayId) -> (r: RingId)
        requires
            self.wf(),
        ensures
            r.0 == partition_id.0 as nat / pow2(self.subarray_bits.bits as nat) / pow2(self.bank_bits.bits as nat),
    {
        proof {
            lemma_usize_shr_is_div(partition_id.0, self.subarray_bits.bits);
            lemma_usize_shr_is_div(partition_id.0 >> self.subarray_bits.bits, self.bank_bits.bits);
        }
        RingId(partition_id.0 >> self.subarray_bits.bits >> self.bank_bits.bits)
    }

    /// The row of a matrix B row in its subarray.
    pub fn get_row_id(&self, mat_b_row_id: LogicRowId, _col_id: LogicColId) -> (r: PhysicRowId)
        requires
            self.wf(),
        ensures
            r.0 == self.in_subarray_id(mat_b_row_id.0),
    {
        PhysicRowId(self.get_row_rowid(mat_b_row_id.0))
    }

    /// The row of a dense result column in its subarray.
    pub fn get_row_id_dense(&self, _target_row_id: LogicRowId, col_id: LogicColId) -> (r: PhysicRowId)
        requires
            self.wf(),
        ensures
            r.0 == self.in_subarray_id(col_id.0) / 64,
    {
        PhysicRowId(self.get_col_rowid(col_id.0))
    }

    /// The byte column of a dense result column in its row.
    pub fn get_col_id_dense(&self, _target_row_id: LogicRowId, col_id: LogicColId) -> (r: usize)
        requires
            self.wf(),
        ensures
            r == (self.in_subarray_id(col_id.0) % 64) * 4,
    {
        self.get_col_colid(col_id.0)
    }

    /// The subarray holding a matrix B row.
    pub fn get_partition_id_row(&self, row_id: LogicRowId) -> (r: SubarrayId)
        requires
            self.wf(),
        ensures
            r.0 == self.global_subarray_id(row_id.0),
    {
        SubarrayId(self.get_global_subarray_id(row_id.0))
    }

    /// The subarray holding a dense result column.
    pub fn get_partition_id_col(&self, col_id: LogicColId) -> (r: SubarrayId)
        requires
            self.wf(),
        ensures
            r.0 == self.global_subarray_id(col_id.0),
    {
        SubarrayId(self.get_global_subarray_id(col_id.0))
    }
}

} // verus!
