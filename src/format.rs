use vstd::prelude::*;

verus! {

/// The default allocation unit for new blocks, in bytes.
pub const PREFERRED_BLOCK_SIZE: u64 = 4096;

/// Bytes of the timestamp prefix that starts every row.
pub const TIMESTAMP_BYTES: u64 = 8;

/// The stored width of one field type: one of `u8 i8 u16 i16 u32 i32 f32 u64 i64 f64`;
/// zero for any other text.
pub open spec fn field_width(f: Seq<char>) -> nat {
    if f.len() == 2 && (f[0] == 'u' || f[0] == 'i') && f[1] == '8' {
        1
    } else if f.len() == 3 && (f[0] == 'u' || f[0] == 'i') && f[1] == '1' && f[2] == '6' {
        2
    } else if f.len() == 3 && (f[0] == 'u' || f[0] == 'i' || f[0] == 'f') && f[1] == '3' && f[2]
        == '2' {
        4
    } else if f.len() == 3 && (f[0] == 'u' || f[0] == 'i' || f[0] == 'f') && f[1] == '6' && f[2]
        == '4' {
        8
    } else {
        0
    }
}

/// The length of the first comma-separated field of `s`.
pub open spec fn first_field_len(s: Seq<char>) -> nat
    decreases s.len(),
{
    if s.len() == 0 || s[0] == ',' {
        0
    } else {
        1 + first_field_len(s.drop_first())
    }
}

/// The total width of the comma-separated field types of a format string, or
/// `None` when one of them is not a known type.
pub open spec fn fields_width(s: Seq<char>) -> Option<nat>
    decreases s.len(),
{
    let n = first_field_len(s);
    let w = field_width(s.take(n as int));
    if w == 0 {
        None
    } else if n >= s.len() {
        Some(w)
    } else {
        match fields_width(s.skip(n + 1int)) {
            Some(rest) => Some(w + rest),
            None => None,
        }
    }
}

/// The allocation unit of blocks of rows of `r` bytes: the preferred block
/// size rounded up to a whole number of rows.
pub open spec fn block_unit(r: nat) -> nat
    recommends
        r > 0,
{
    (((PREFERRED_BLOCK_SIZE + r - 1) as nat) / r) * r
}

/// The layout of the rows of a series, parsed from its format string.
#[derive(Debug, Clone, Copy, PartialEq, Eq, Structural)]
pub struct RowFormat {
    pub row_size: u64,
    pub preferred_block_size: u64,
}

proof fn lemma_first_field_len(s: Seq<char>, n: nat)
    requires
        n <= s.len(),
        forall|t: int| 0 <= t < n ==> s[t] != ',',
        n == s.len() || s[n as int] == ',',
    ensures
        first_field_len(s) == n,
    decreases n,
{
    if n > 0 {
        lemma_first_field_len(s.drop_first(), (n - 1) as nat);
    }
}

/// The width of the field type spelled by `s[start..end]`, zero if unknown.
fn width_of(s: &str, start: usize, end: usize) -> (w: u64)
    requires
        start <= end <= s@.len(),
    ensures
        w as nat == field_width(s@.subrange(start as int, end as int)),
{
    let ghost f = s@.subrange(start as int, end as int);
    let n = end - start;
    if n == 2 {
        let a = s.get_char(start);
        let b = s.get_char(start + 1);
        if (a == 'u' || a == 'i') && b == '8' {
            return 1;
        }
        return 0;
    }
    if n != 3 {
        return 0;
    }
    let a = s.get_char(start);
    let b = s.get_char(start + 1);
    let c = s.get_char(start + 2);
    assert(f[0] == a && f[1] == b && f[2] == c);
    if (a == 'u' || a == 'i') && b == '1' && c == '6' {
        2
    } else if (a == 'u' || a == 'i' || a == 'f') && b == '3' && c == '2' {
        4
    } else if (a == 'u' || a == 'i' || a == 'f') && b == '6' && c == '4' {
        8
    } else {
        0
    }
}

/// The largest total field width whose rows and blocks sizes fit in 64 bits.
pub const WIDTH_LIMIT: u64 = 0xffff_ffff_ffff_eff7;

/// A total field width small enough for rows and blocks of 64-bit sizes.
pub open spec fn width_fits(w: nat) -> bool {
    w <= WIDTH_LIMIT
}

/// The total width of the fields of `s` from character `start` on, when it fits.
fn fields_width_from(s: &str, len: usize, start: usize) -> (r: Option<u64>)
    requires
        len == s@.len(),
        start <= len,
    ensures
        r is Some <==> (fields_width(s@.skip(start as int)) is Some && width_fits(
            fields_width(s@.skip(start as int))->0,
        )),
        r matches Some(w) ==> w as nat == fields_width(s@.skip(start as int))->0,
    decreases len - start,
{
    let ghost t = s@.skip(start as int);
    let mut j: usize = start;
    while j < len && s.get_char(j) != ','
        invariant
            start <= j <= len,
            len == s@.len(),
            forall|x: int| start <= x < j ==> s@[x] != ',',
        decreases len - j,
    {
        j = j + 1;
    }
    proof {
        lemma_first_field_len(t, (j - start) as nat);
        assert(t.take((j - start) as int) =~= s@.subrange(start as int, j as int));
    }
    let w = width_of(s, start, j);
    if w == 0 {
        None
    } else if j >= len {
        Some(w)
    } else {
        assert(t.skip((j - start) + 1) =~= s@.skip(j + 1));
        match fields_width_from(s, len, j + 1) {
            Some(rest) => if rest <= WIDTH_LIMIT - w {
                Some(w + rest)
            } else {
                None
            },
            None => None,
        }
    }
}

impl RowFormat {
    /// Parses a format string: comma-separated field types, each of
    /// `u8 i8 u16 i16 u32 i32 f32 u64 i64 f64`, of a total width up to
    /// `WIDTH_LIMIT`. Every row starts with an
    /// 8-byte timestamp, so the row size is 8 plus the fields' widths; the
    /// preferred block size is 4096 rounded up to a whole number of rows.
    pub fn parse(format: &str) -> (r: Option<RowFormat>)
        ensures
            r is Some <==> (fields_width(format@) is Some && width_fits(fields_width(format@)->0)),
            r matches Some(f) ==> {
                &&& f.row_size == TIMESTAMP_BYTES + fields_width(format@)->0
                &&& f.preferred_block_size == block_unit(f.row_size as nat)
            },
    {
        let len = format.unicode_len();
        assert(format@.skip(0) =~= format@);
        match fields_width_from(format, len, 0) {
            None => None,
            Some(w) => {
                let r = TIMESTAMP_BYTES + w;
                let units = (PREFERRED_BLOCK_SIZE + r - 1) / r;
                proof {
                    let ru = r as int;
                    let u = units as int;
                    assert(u * ru <= 4096 + ru) by (nonlinear_arith)
                        requires
                            u == (4096 + ru - 1) / ru,
                            ru > 0,
                    ;
                }
                Some(RowFormat { row_size: r, preferred_block_size: units * r })
            },
        }
    }

    /// Bytes of one stored row, timestamp prefix included.
    pub fn row_size(&self) -> (r: u64)
        ensures
            r == self.row_size,
    {
        self.row_size
    }

    /// The allocation unit of new blocks.
    pub fn preferred_block_size(&self) -> (r: u64)
        ensures
            r == self.preferred_block_size,
    {
        self.preferred_block_size
    }
}

} // verus!
