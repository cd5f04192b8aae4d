use vstd::prelude::*;
use byteorder::ByteOrder;

verus! {

/// The unsigned integer that a byte sequence spells in big-endian order.
pub open spec fn be_value(s: Seq<u8>) -> nat
    decreases s.len(),
{
    if s.len() == 0 {
        0
    } else {
        be_value(s.drop_last()) * 256 + s.last() as nat
    }
}

/// The timestamp prefix of a stored row: its first eight bytes, big-endian.
pub open spec fn row_ts(row: Seq<u8>) -> nat {
    be_value(row.take(8))
}

spec fn byte_bound(n: nat) -> nat
    decreases n,
{
    if n == 0 {
        1
    } else {
        byte_bound((n - 1) as nat) * 256
    }
}

proof fn lemma_be_value_bound(s: Seq<u8>)
    ensures
        be_value(s) < byte_bound(s.len()),
    decreases s.len(),
{
    if s.len() > 0 {
        lemma_be_value_bound(s.drop_last());
        let v = be_value(s.drop_last());
        let b = byte_bound(s.drop_last().len());
        assert(v * 256 + s.last() < b * 256) by (nonlinear_arith)
            requires
                v < b,
                s.last() < 256,
        ;
    }
}

/// A timestamp prefix fits in 64 bits.
pub proof fn lemma_row_ts_bound(row: Seq<u8>)
    requires
        row.len() >= 8,
    ensures
        row_ts(row) <= u64::MAX,
{
    lemma_be_value_bound(row.take(8));
    reveal_with_fuel(byte_bound, 9);
}

/// Relies on byteorder's `BigEndian::read_u64`: the first eight bytes of the
/// slice read as a big-endian integer (it panics on a shorter slice).
#[verifier::external_body]
pub(crate) fn read_be_u64(buf: &[u8]) -> (r: u64)
    requires
        buf@.len() >= 8,
    ensures
        r as nat == be_value(buf@.take(8)),
{
    byteorder::BigEndian::read_u64(buf)
}

} // verus!
