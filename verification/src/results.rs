//! Per-subarray cycle statistics.
use vstd::prelude::*;

verus! {

/// The cycles one subarray spent, by kind of access.
#[derive(Clone, Debug)]
pub struct SubArrayResult {
    /// total local cycle
    pub cycle: usize,
    /// for normal rows
    pub local_row_open_cycle: usize,
    /// row hit for read
    pub local_row_read_cycle: usize,
    /// row hit for write
    pub local_row_write_cycle: usize,
    /// cycle for compuation
    pub comp_cycle: usize,
    /// for evil row read/write miss
    pub local_row_open_cycle_evil: usize,
    /// row hit for read
    pub local_row_read_cycle_evil: usize,
    /// row hit for write
    pub local_row_write_cycle_evil: usize,
    // for remote rows that read by local subarray
    pub remote_row_read_cycle: usize,
    // remote result write by target subarray
    pub remote_row_write_cycle: usize,
    /// remote total cycle
    pub cycle_remote: usize,
}

impl SubArrayResult {
    /// The fields of `a` and `b` added one by one, as numbers.
    pub open spec fn sum_fields(a: Self, b: Self) -> Seq<int> {
        seq![
            a.cycle + b.cycle,
            a.local_row_open_cycle + b.local_row_open_cycle,
            a.local_row_read_cycle + b.local_row_read_cycle,
            a.local_row_write_cycle + b.local_row_write_cycle,
            a.comp_cycle + b.comp_cycle,
            a.local_row_open_cycle_evil + b.local_row_open_cycle_evil,
            a.local_row_read_cycle_evil + b.local_row_read_cycle_evil,
            a.local_row_write_cycle_evil + b.local_row_write_cycle_evil,
            a.remote_row_read_cycle + b.remote_row_read_cycle,
            a.remote_row_write_cycle + b.remote_row_write_cycle,
            a.cycle_remote + b.cycle_remote,
        ]
    }

    /// The fields of `r`, in declaration order.
    pub open spec fn fields(r: Self) -> Seq<int> {
        seq![
            r.cycle as int,
            r.local_row_open_cycle as int,
            r.local_row_read_cycle as int,
            r.local_row_write_cycle as int,
            r.comp_cycle as int,
            r.local_row_open_cycle_evil as int,
            r.local_row_read_cycle_evil as int,
            r.local_row_write_cycle_evil as int,
            r.remote_row_read_cycle as int,
            r.remote_row_write_cycle as int,
            r.cycle_remote as int,
        ]
    }

    /// Adds every counter of `self` into `other`.
    pub fn accumulate(&self, other: &mut SubArrayResult)
        requires
            forall|i: int| 0 <= i < 11 ==> #[trigger] Self::sum_fields(*self, *old(other))[i] <= usize::MAX,
        ensures
            Self::fields(*final(other)) == Self::sum_fields(*self, *old(other)),
    {
        proof {
            let s = Self::sum_fields(*self, *other);
            assert(s[0] <= usize::MAX && s[1] <= usize::MAX && s[2] <= usize::MAX && s[3] <= usize::MAX);
            assert(s[4] <= usize::MAX && s[5] <= usize::MAX && s[6] <= usize::MAX && s[7] <= usize::MAX);
            assert(s[8] <= usize::MAX && s[9] <= usize::MAX && s[10] <= usize::MAX);
        }
        other.cycle += self.cycle;
        other.local_row_open_cycle += self.local_row_open_cycle;
        other.local_row_read_cycle += self.local_row_read_cycle;
        other.local_row_write_cycle += self.local_row_write_cycle;
        other.comp_cycle += self.comp_cycle;
        other.local_row_open_cycle_evil += self.local_row_open_cycle_evil;
        other.local_row_read_cycle_evil += self.local_row_read_cycle_evil;
        other.local_row_write_cycle_evil += self.local_row_write_cycle_evil;
        other.remote_row_read_cycle += self.remote_row_read_cycle;
        other.remote_row_write_cycle += self.remote_row_write_cycle;
        other.cycle_remote += self.cycle_remote;
        proof {
            assert(Self::fields(*other) =~= Self::sum_fields(*self, *old(other)));
        }
    }

    /// Sets every counter to zero.
    pub fn reset(&mut self)
        ensures
            forall|i: int| 0 <= i < 11 ==> #[trigger] Self::fields(*final(self))[i] == 0,
    {
        self.cycle = 0;
        self.local_row_open_cycle = 0;
        self.local_row_read_cycle = 0;
        self.local_row_write_cycle = 0;
        self.comp_cycle = 0;
        self.local_row_open_cycle_evil = 0;
        self.local_row_read_cycle_evil = 0;
        self.local_row_write_cycle_evil = 0;
        self.remote_row_read_cycle = 0;
        self.remote_row_write_cycle = 0;
        self.cycle_remote = 0;
    }
}

impl Default for SubArrayResult {
    fn default() -> (r: Self)
        ensures
            forall|i: int| 0 <= i < 11 ==> #[trigger] Self::fields(r)[i] == 0,
    {
        SubArrayResult {
            cycle: 0,
            local_row_open_cycle: 0,
            local_row_read_cycle: 0,
            local_row_write_cycle: 0,
            comp_cycle: 0,
            local_row_open_cycle_evil: 0,
            local_row_read_cycle_evil: 0,
            local_row_write_cycle_evil: 0,
            remote_row_read_cycle: 0,
            remote_row_write_cycle: 0,
            cycle_remote: 0,
        }
    }
}

} // verus!
