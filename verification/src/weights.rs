//! Benchmarked weights of the allychains inherent, for the Axia runtime.
use vstd::prelude::*;
use crate::primitives::Weight;

verus! {

/// `a + b`, capped at the largest weight.
pub open spec fn sat_add(a: u64, b: u64) -> u64 {
    if a + b > u64::MAX { u64::MAX } else { (a + b) as u64 }
}

/// `a * b`, capped at the largest weight.
pub open spec fn sat_mul(a: u64, b: u64) -> u64 {
    if a * b > u64::MAX { u64::MAX } else { (a * b) as u64 }
}

fn saturating_add_u64(a: u64, b: u64) -> (r: u64)
    ensures
        r == sat_add(a, b),
{
    match a.checked_add(b) {
        Some(r) => r,
        None => u64::MAX,
    }
}

fn saturating_mul_u64(a: u64, b: u64) -> (r: u64)
    ensures
        r == sat_mul(a, b),
{
    match a.checked_mul(b) {
        Some(r) => r,
        None => u64::MAX,
    }
}

/// The weight of one database read and of one database write.
#[derive(Clone, Copy, Debug, PartialEq, Eq)]
pub struct RuntimeDbWeight {
    /// The weight of a read.
    pub read: Weight,
    /// The weight of a write.
    pub write: Weight,
}

impl RuntimeDbWeight {
    /// The weight of `r` reads.
    pub fn reads(&self, r: Weight) -> (w: Weight)
        ensures
            w == sat_mul(self.read, r),
    {
        saturating_mul_u64(self.read, r)
    }

    /// The weight of `w` writes.
    pub fn writes(&self, w: Weight) -> (weight: Weight)
        ensures
            weight == sat_mul(self.write, w),
    {
        saturating_mul_u64(self.write, w)
    }
}

/// A benchmarked weight: a base, plus a cost per unit of a component, plus database reads
/// and writes, each step capped.
pub open spec fn benchmarked(db: RuntimeDbWeight, base: u64, per_unit: u64, units: u64, reads: u64, writes: u64) -> u64 {
    sat_add(sat_add(sat_add(base, sat_mul(per_unit, units)), sat_mul(db.read, reads)), sat_mul(db.write, writes))
}

/// Weight functions for the allychains inherent.
#[derive(Clone, Copy, Debug, PartialEq, Eq)]
pub struct WeightInfo {
    /// The database weights of the runtime.
    pub db_weight: RuntimeDbWeight,
}

impl WeightInfo {
    /// The weight of entering an inherent with `v` disputes.
    pub fn enter_variable_disputes(&self, v: u32) -> (w: Weight)
        ensures
            w == benchmarked(self.db_weight, 404_051_000, 309_000, v as u64, 23, 14),
    {
        saturating_add_u64(
            saturating_add_u64(
                saturating_add_u64(404_051_000, saturating_mul_u64(309_000, v as u64)),
                self.db_weight.reads(23),
            ),
            self.db_weight.writes(14),
        )
    }

    /// The weight of entering an inherent with bitfields.
    pub fn enter_bitfields(&self) -> (w: Weight)
        ensures
            w == sat_add(sat_add(446_635_000, sat_mul(self.db_weight.read, 23)), sat_mul(self.db_weight.write, 15)),
    {
        saturating_add_u64(
            saturating_add_u64(446_635_000, self.db_weight.reads(23)),
            self.db_weight.writes(15),
        )
    }

    /// The weight of entering an inherent with `v` backed candidates.
    pub fn enter_backed_candidates_variable(&self, v: u32) -> (w: Weight)
        ensures
            w == benchmarked(self.db_weight, 1_103_699_000, 49_128_000, v as u64, 25, 14),
    {
        saturating_add_u64(
            saturating_add_u64(
                saturating_add_u64(1_103_699_000, saturating_mul_u64(49_128_000, v as u64)),
                self.db_weight.reads(25),
            ),
            self.db_weight.writes(14),
        )
    }

    /// The weight of entering an inherent with a backed candidate that upgrades code.
    pub fn enter_backed_candidate_code_upgrade(&self) -> (w: Weight)
        ensures
            w == sat_add(sat_add(42_700_804_000, sat_mul(self.db_weight.read, 27)), sat_mul(self.db_weight.write, 14)),
    {
        saturating_add_u64(
            saturating_add_u64(42_700_804_000, self.db_weight.reads(27)),
            self.db_weight.writes(14),
        )
    }
}

} // verus!
