use vstd::prelude::*;

verus! {

/// Distance between the unsigned and the signed encodings of a timestamp.
pub open spec fn signed_shift() -> int {
    0x8000_0000_0000_0000int
}

/// A point in time: nanoseconds since an epoch, ordered as unsigned integers.
#[derive(Debug, Clone, Copy, PartialEq, Eq, Structural, PartialOrd, Ord)]
pub struct Timestamp(pub u64);

impl Timestamp {
    /// The signed integer that stands for this timestamp in the catalog:
    /// shifting by `i64::MIN` keeps the order of unsigned values.
    pub fn to_sqlite(&self) -> (r: i64)
        ensures
            r as int == signed_of(self.0),
    {
        if self.0 >= 0x8000_0000_0000_0000u64 {
            (self.0 - 0x8000_0000_0000_0000u64) as i64
        } else {
            (self.0 as i64) - i64::MAX - 1
        }
    }

    /// The timestamp that a signed catalog value stands for.
    pub fn from_sqlite(v: i64) -> (r: Timestamp)
        ensures
            r.0 as int == unsigned_of(v),
    {
        if v >= 0 {
            Timestamp(v as u64 + 0x8000_0000_0000_0000u64)
        } else {
            Timestamp((v + i64::MAX + 1) as u64)
        }
    }
}

/// The signed catalog value of the timestamp `t`.
pub open spec fn signed_of(t: u64) -> int {
    t - signed_shift()
}

/// The timestamp that the signed catalog value `v` stands for.
pub open spec fn unsigned_of(v: i64) -> int {
    v + signed_shift()
}

/// Every timestamp has a signed form, and decoding it gives the timestamp
/// back; the extremes `0` and `u64::MAX` map to `i64::MIN` and `i64::MAX`.
pub proof fn lemma_sqlite_round_trip(t: u64)
    ensures
        i64::MIN <= signed_of(t) <= i64::MAX,
        unsigned_of(signed_of(t) as i64) == t,
        t == 0 ==> signed_of(t) == i64::MIN,
        t == u64::MAX ==> signed_of(t) == i64::MAX,
{
}

/// Every signed catalog value stands for a timestamp, whose signed form is
/// that value again.
pub proof fn lemma_sqlite_round_trip_signed(v: i64)
    ensures
        0 <= unsigned_of(v) <= u64::MAX,
        signed_of(unsigned_of(v) as u64) == v,
{
}

/// The signed form orders timestamps as their unsigned values are ordered.
pub proof fn lemma_sqlite_order(a: u64, b: u64)
    ensures
        (a < b) == (signed_of(a) < signed_of(b)),
        (a == b) == (signed_of(a) == signed_of(b)),
{
}

} // verus!
