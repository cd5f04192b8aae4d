//! The text protocol of ingestion and export: one record per line, written
//! `key<WS>timestamp<WS>value...`, optionally with the format string between
//! the timestamp and the values; whitespace inside a word is escaped with a
//! backslash.
use vstd::prelude::*;
use std::fmt::Write;

verus! {

/// What `escape_string::split_one` returns for a text: its first word, with
/// escapes resolved, and what follows the whitespace after it.
pub uninterp spec fn split_one_of(s: Seq<char>) -> Option<(Seq<char>, Seq<char>)>;

/// The letter that follows a backslash in the escaped form of `c`, for the
/// characters that `escape_string::escape` escapes.
pub open spec fn escape_letter(c: char) -> Option<char> {
    if c == '\x07' {
        Some('a')
    } else if c == '\x08' {
        Some('b')
    } else if c == '\t' {
        Some('t')
    } else if c == '\n' {
        Some('n')
    } else if c == '\x0b' {
        Some('v')
    } else if c == '\x0c' {
        Some('f')
    } else if c == '\r' {
        Some('r')
    } else if c == ' ' {
        Some(' ')
    } else if c == '\\' {
        Some('\\')
    } else {
        None
    }
}

/// `s` with each of those characters written as a backslash and its letter.
pub open spec fn escaped(s: Seq<char>) -> Seq<char>
    decreases s.len(),
{
    if s.len() == 0 {
        s
    } else {
        escaped(s.drop_last()) + match escape_letter(s.last()) {
            Some(l) => seq!['\\', l],
            None => seq![s.last()],
        }
    }
}

/// Nanoseconds since the epoch of the date and time that chrono parses from
/// `s` by the strftime-like format `f`, if it parses and fits in an `i64`.
pub uninterp spec fn parsed_nanos(s: Seq<char>, f: Seq<char>) -> Option<i64>;

/// chrono's rendering by the format `f` of the time `secs` seconds and
/// `nanos` nanoseconds after the epoch, if the time and the format are valid.
pub uninterp spec fn formatted_time(secs: i64, nanos: u32, f: Seq<char>) -> Option<Seq<char>>;

/// Relies on `escape_string::split_one`: the first word of `s` and the text
/// after the whitespace that ends it; `None` when `s` ends in a lone backslash.
#[verifier::external_body]
fn split_word(s: &str) -> (r: Option<(String, String)>)
    ensures
        match r {
            Some((w, rest)) => split_one_of(s@) == Some((w@, rest@)),
            None => split_one_of(s@) is None,
        },
{
    match escape_string::split_one(s) {
        Some((w, rest)) => Some((w.into_owned(), rest.to_string())),
        None => None,
    }
}

/// Relies on `escape_string::escape`: `s` with its whitespace, control
/// characters and backslashes escaped (the escaped characters are ASCII, so
/// working on bytes or on characters gives the same text).
#[verifier::external_body]
fn escape_text(s: &str) -> (r: String)
    ensures
        r@ == escaped(s@),
{
    escape_string::escape(s).into_owned()
}

/// Relies on chrono's `NaiveDateTime::parse_from_str` and
/// `timestamp_nanos_opt`: the date and time in `s` by the format `f`, as
/// nanoseconds since the epoch.
#[verifier::external_body]
fn nanos_from_text(s: &str, f: &str) -> (r: Option<i64>)
    ensures
        r == parsed_nanos(s@, f@),
{
    match chrono::NaiveDateTime::parse_from_str(s, f) {
        Ok(t) => t.and_utc().timestamp_nanos_opt(),
        Err(_) => None,
    }
}

/// Relies on chrono's `DateTime::from_timestamp` and `format`: the time
/// `secs` seconds and `nanos` nanoseconds after the epoch, rendered by `f`.
#[verifier::external_body]
fn time_text(secs: i64, nanos: u32, f: &str) -> (r: Option<String>)
    ensures
        match r {
            Some(t) => formatted_time(secs, nanos, f@) == Some(t@),
            None => formatted_time(secs, nanos, f@) is None,
        },
{
    let t = chrono::DateTime::from_timestamp(secs, nanos)?.naive_utc();
    let mut out = String::new();
    write!(out, "{}", t.format(f)).ok()?;
    Some(out)
}

/// A whitespace character, as `char::is_whitespace` has it (Unicode's
/// `White_Space` property).
pub open spec fn is_space(c: char) -> bool {
    ('\u{9}' <= c <= '\u{d}') || c == ' ' || c == '\u{85}' || c == '\u{a0}' || c == '\u{1680}'
        || ('\u{2000}' <= c <= '\u{200a}') || c == '\u{2028}' || c == '\u{2029}' || c == '\u{202f}'
        || c == '\u{205f}' || c == '\u{3000}'
}

/// `s` without its trailing whitespace.
pub open spec fn trim_end(s: Seq<char>) -> Seq<char>
    decreases s.len(),
{
    if s.len() > 0 && is_space(s.last()) {
        trim_end(s.drop_last())
    } else {
        s
    }
}

/// The value of a run of decimal digits.
pub open spec fn digits_value(s: Seq<char>) -> nat
    decreases s.len(),
{
    if s.len() == 0 {
        0
    } else {
        digits_value(s.drop_last()) * 10 + (s.last() as nat - '0' as nat) as nat
    }
}

/// Every character is a decimal digit.
pub open spec fn all_digits(s: Seq<char>) -> bool {
    forall|i: int| 0 <= i < s.len() ==> '0' <= #[trigger] s[i] <= '9'
}

/// The `u64` written in decimal by `s`, with an optional leading `+`, if it fits.
pub open spec fn decimal_u64(s: Seq<char>) -> Option<u64> {
    let d = if s.len() > 0 && s[0] == '+' {
        s.drop_first()
    } else {
        s
    };
    if d.len() > 0 && all_digits(d) && digits_value(d) <= u64::MAX {
        Some(digits_value(d) as u64)
    } else {
        None
    }
}

/// The length of `s` once its trailing ASCII whitespace is cut.
fn trimmed_len(s: &str) -> (n: usize)
    ensures
        n <= s@.len(),
        s@.take(n as int) == trim_end(s@),
{
    let mut n = s.unicode_len();
    assert(s@.take(n as int) =~= s@);
    while n > 0 && is_space_char(s.get_char(n - 1))
        invariant
            n <= s@.len(),
            trim_end(s@.take(n as int)) == trim_end(s@),
        decreases n,
    {
        assert(s@.take(n as int).drop_last() =~= s@.take(n - 1));
        n = n - 1;
    }
    n
}

fn is_space_char(c: char) -> (b: bool)
    ensures
        b == is_space(c),
{
    ('\u{9}' <= c && c <= '\u{d}') || c == ' ' || c == '\u{85}' || c == '\u{a0}' || c == '\u{1680}'
        || ('\u{2000}' <= c && c <= '\u{200a}') || c == '\u{2028}' || c == '\u{2029}' || c == '\u{202f}'
        || c == '\u{205f}' || c == '\u{3000}'
}

/// Parses a decimal `u64` as `str::parse::<u64>` does: an optional `+`,
/// then one or more digits, whose value must fit.
pub fn parse_decimal(s: &str) -> (r: Option<u64>)
    ensures
        r == decimal_u64(s@),
{
    let n = s.unicode_len();
    let mut i: usize = 0;
    if n > 0 && s.get_char(0) == '+' {
        i = 1;
    }
    let start = i;
    let ghost d = s@.skip(start as int);
    assert(d =~= if s@.len() > 0 && s@[0] == '+' { s@.drop_first() } else { s@ });
    if i == n {
        assert(d.len() == 0);
        assert(decimal_u64(s@) is None);
        return None;
    }
    let mut acc: u64 = 0;
    let mut over = false;
    while i < n
        invariant
            n == s@.len(),
            start <= i <= n,
            d == s@.skip(start as int),
            d == if s@.len() > 0 && s@[0] == '+' {
                s@.drop_first()
            } else {
                s@
            },
            all_digits(d.take(i - start)),
            !over ==> acc == digits_value(d.take(i - start)),
            over ==> digits_value(d.take(i - start)) > u64::MAX,
        decreases n - i,
    {
        let c = s.get_char(i);
        if c < '0' || c > '9' {
            assert(d[i - start] == c);
            assert(!all_digits(d));
            assert(decimal_u64(s@) is None);
            return None;
        }
        let ghost prev = d.take(i - start);
        assert(d.take(i - start + 1).drop_last() =~= prev);
        assert(d.take(i - start + 1).last() == c);
        let v = (c as u32 - '0' as u32) as u64;
        let ghost next_value = digits_value(d.take(i - start + 1));
        assert(next_value == digits_value(prev) * 10 + v);
        if !over {
            if acc > (u64::MAX - v) / 10 {
                assert(acc * 10 + v > u64::MAX) by (nonlinear_arith)
                    requires
                        acc > (u64::MAX - v) / 10,
                        v <= 9,
                ;
                over = true;
            } else {
                assert(acc * 10 + v <= u64::MAX) by (nonlinear_arith)
                    requires
                        acc <= (u64::MAX - v) / 10,
                        v <= 9,
                ;
                acc = acc * 10 + v;
            }
        } else {
            assert(next_value >= digits_value(prev));
        }
        i = i + 1;
        assert(all_digits(d.take(i - start))) by {
            assert forall|x: int| 0 <= x < d.take(i - start).len() implies '0' <= #[trigger] d.take(i - start)[x] <= '9' by {
                if x < prev.len() {
                    assert(prev[x] == d.take(i - start)[x]);
                }
            }
        }
    }
    assert(d.take(n - start) =~= d);
    assert(all_digits(d) && d.len() > 0);
    if over {
        None
    } else {
        Some(acc)
    }
}

/// Why a line of the text protocol was refused.
#[derive(Debug, Clone, Copy, PartialEq, Eq, Structural)]
pub enum LineError {
    /// A word is missing, or the line ends in a lone backslash.
    Malformed,
    /// The timestamp does not parse.
    BadTimestamp,
}

/// One record of the text protocol.
pub struct RecordLine {
    pub key: String,
    pub timestamp: u64,
    pub format: Option<String>,
    pub values: String,
}

/// What a record line is, as the contracts see it.
pub struct RecordLineModel {
    pub key: Seq<char>,
    pub timestamp: u64,
    pub format: Option<Seq<char>>,
    pub values: Seq<char>,
}

impl View for RecordLine {
    type V = RecordLineModel;

    open spec fn view(&self) -> RecordLineModel {
        RecordLineModel {
            key: self.key@,
            timestamp: self.timestamp,
            format: match self.format {
                Some(f) => Some(f@),
                None => None,
            },
            values: self.values@,
        }
    }
}

/// The view of an optional text.
pub open spec fn text_opt(o: Option<&str>) -> Option<Seq<char>> {
    match o {
        Some(t) => Some(t@),
        None => None,
    }
}

/// The timestamp that the word `t` stands for: parsed by the strftime-like
/// format `tf` when there is one (nanoseconds since the epoch; none before
/// it), else as decimal nanoseconds.
pub open spec fn timestamp_of(t: Seq<char>, tf: Option<Seq<char>>) -> Option<u64> {
    match tf {
        Some(f) => match parsed_nanos(t, f) {
            Some(n) => if n >= 0 {
                Some(n as u64)
            } else {
                None
            },
            None => None,
        },
        None => decimal_u64(t),
    }
}

/// The record assembled from the three splits of a trimmed, non-blank line:
/// `first` splits off the key, `second` the timestamp word from what follows
/// the key, `stamp` is that word read as a timestamp, and `third` splits the
/// format word from what follows the timestamp. A line that carries its
/// format (`with_format`) takes the rest after the format as its values;
/// otherwise everything after the timestamp is the values.
pub open spec fn record_from_splits(
    first: Option<(Seq<char>, Seq<char>)>,
    second: Option<(Seq<char>, Seq<char>)>,
    stamp: Option<u64>,
    third: Option<(Seq<char>, Seq<char>)>,
    with_format: bool,
) -> Result<RecordLineModel, LineError> {
    match (first, second) {
        (Some((key, _)), Some((_, rest2))) => match stamp {
            None => Err(LineError::BadTimestamp),
            Some(ts) => if with_format {
                match third {
                    None => Err(LineError::Malformed),
                    Some((format, values)) => Ok(
                        RecordLineModel { key, timestamp: ts, format: Some(format), values },
                    ),
                }
            } else {
                Ok(RecordLineModel { key, timestamp: ts, format: None, values: rest2 })
            },
        },
        _ => Err(LineError::Malformed),
    }
}

/// The record that a line holds: `Ok(None)` for a blank line. The key and the
/// timestamp are the first two words; then the format word when the line
/// carries one (`with_format`), and everything after as the values.
pub open spec fn record_line(line: Seq<char>, tf: Option<Seq<char>>, with_format: bool) -> Result<
    Option<RecordLineModel>,
    LineError,
> {
    let t = trim_end(line);
    if t.len() == 0 {
        Ok(None)
    } else {
        let first = split_one_of(t);
        let second = match first {
            Some((_, rest)) => split_one_of(rest),
            None => None,
        };
        let stamp = match second {
            Some((word, _)) => timestamp_of(word, tf),
            None => None,
        };
        let third = match second {
            Some((_, rest2)) => split_one_of(rest2),
            None => None,
        };
        match record_from_splits(first, second, stamp, third, with_format) {
            Ok(r) => Ok(Some(r)),
            Err(e) => Err(e),
        }
    }
}

/// The view of a split result.
pub open spec fn split_view(o: Option<(String, String)>) -> Option<(Seq<char>, Seq<char>)> {
    match o {
        Some((a, b)) => Some((a@, b@)),
        None => None,
    }
}

/// Assembles a record from the splits of a line (see `record_from_splits`).
pub fn record_from_words(
    first: Option<(String, String)>,
    second: Option<(String, String)>,
    stamp: Option<u64>,
    third: Option<(String, String)>,
    with_format: bool,
) -> (r: Result<RecordLine, LineError>)
    ensures
        match (r, record_from_splits(split_view(first), split_view(second), stamp, split_view(third), with_format)) {
            (Ok(x), Ok(y)) => x@ == y,
            (Err(e), Err(f)) => e == f,
            _ => false,
        },
{
    match (first, second) {
        (Some((key, _)), Some((_, rest2))) => match stamp {
            None => Err(LineError::BadTimestamp),
            Some(timestamp) => if with_format {
                match third {
                    None => Err(LineError::Malformed),
                    Some((format, values)) => Ok(RecordLine { key, timestamp, format: Some(format), values }),
                }
            } else {
                Ok(RecordLine { key, timestamp, format: None, values: rest2 })
            },
        },
        _ => Err(LineError::Malformed),
    }
}

/// The word `t` read as a timestamp.
fn parse_timestamp(t: &str, timestamp_format: Option<&str>) -> (r: Option<u64>)
    ensures
        r == timestamp_of(t@, text_opt(timestamp_format)),
{
    match timestamp_format {
        Some(f) => match nanos_from_text(t, f) {
            Some(n) => if n >= 0 {
                Some(n as u64)
            } else {
                None
            },
            None => None,
        },
        None => parse_decimal(t),
    }
}

/// Parses one line of the text protocol (see `record_line`). Trailing
/// whitespace, the line's end included, is ignored.
pub fn parse_record_line(line: &str, timestamp_format: Option<&str>, with_format: bool) -> (r: Result<
    Option<RecordLine>,
    LineError,
>)
    ensures
        match (r, record_line(line@, text_opt(timestamp_format), with_format)) {
            (Ok(None), Ok(None)) => true,
            (Ok(Some(x)), Ok(Some(y))) => x@ == y,
            (Err(e), Err(f)) => e == f,
            _ => false,
        },
{
    let n = trimmed_len(line);
    if n == 0 {
        return Ok(None);
    }
    let t = line.substring_char(0, n);
    assert(t@ == trim_end(line@)) by {
        assert(t@ =~= line@.take(n as int));
    }
    let first = split_word(t);
    let second = match &first {
        Some((_, rest)) => split_word(rest.as_str()),
        None => None,
    };
    let stamp = match &second {
        Some((word, _)) => parse_timestamp(word.as_str(), timestamp_format),
        None => None,
    };
    let third = match &second {
        Some((_, rest2)) => split_word(rest2.as_str()),
        None => None,
    };
    match record_from_words(first, second, stamp, third, with_format) {
        Ok(r) => Ok(Some(r)),
        Err(e) => Err(e),
    }
}

/// The character of a decimal digit.
pub open spec fn digit_char(d: nat) -> char {
    (('0' as nat) + d) as char
}

/// The decimal rendering of `n`, without leading zeros.
pub open spec fn decimal_text(n: nat) -> Seq<char>
    decreases n,
{
    if n < 10 {
        seq![digit_char(n)]
    } else {
        decimal_text(n / 10).push(digit_char(n % 10))
    }
}

fn digit_text(d: u64) -> (r: &'static str)
    requires
        d < 10,
    ensures
        r@ == seq![digit_char(d as nat)],
{
    let r = match d {
        0 => "0",
        1 => "1",
        2 => "2",
        3 => "3",
        4 => "4",
        5 => "5",
        6 => "6",
        7 => "7",
        8 => "8",
        _ => "9",
    };
    proof {
        reveal_strlit("0");
        reveal_strlit("1");
        reveal_strlit("2");
        reveal_strlit("3");
        reveal_strlit("4");
        reveal_strlit("5");
        reveal_strlit("6");
        reveal_strlit("7");
        reveal_strlit("8");
        reveal_strlit("9");
    }
    assert(r@ =~= seq![digit_char(d as nat)]);
    r
}

/// Appends the decimal rendering of `n` to `out`.
fn push_decimal(out: &mut String, n: u64)
    ensures
        final(out)@ == old(out)@ + decimal_text(n as nat),
    decreases n,
{
    if n >= 10 {
        push_decimal(out, n / 10);
    }
    out.append(digit_text(n % 10));
    proof {
        if n >= 10 {
            assert(old(out)@ + decimal_text(n as nat) =~= old(out)@ + decimal_text((n / 10) as nat) + seq![digit_char((n % 10) as nat)]);
        } else {
            assert(old(out)@ + decimal_text(n as nat) =~= old(out)@ + seq![digit_char((n % 10) as nat)]);
        }
    }
}

/// The export prefix of a record: the escaped key, a tab, the timestamp as
/// decimal nanoseconds, a tab.
pub fn record_prefix_nanos(key: &str, timestamp: u64) -> (r: String)
    ensures
        r@ == escaped(key@) + seq!['\t'] + decimal_text(timestamp as nat) + seq!['\t'],
{
    let mut out = escape_text(key);
    proof {
        reveal_strlit("\t");
    }
    out.append("\t");
    push_decimal(&mut out, timestamp);
    out.append("\t");
    out
}

/// The export prefix of a record: the escaped key, a tab, the timestamp
/// rendered by the strftime-like `timestamp_format`, a tab, and then, when
/// there is one, the format string and a tab. `None` when chrono cannot
/// render the time by that format.
pub fn record_prefix_time(key: &str, timestamp: u64, timestamp_format: &str, format: Option<&str>) -> (r: Option<
    String,
>)
    ensures
        ({
            let secs = (timestamp / 1_000_000_000) as i64;
            let nanos = (timestamp % 1_000_000_000) as u32;
            match formatted_time(secs, nanos, timestamp_format@) {
                None => r is None,
                Some(t) => r is Some && r->0@ == escaped(key@) + seq!['\t'] + t + seq!['\t'] + match format {
                    Some(f) => f@ + seq!['\t'],
                    None => Seq::<char>::empty(),
                },
            }
        }),
{
    let secs = (timestamp / 1_000_000_000) as i64;
    let nanos = (timestamp % 1_000_000_000) as u32;
    let t = match time_text(secs, nanos, timestamp_format) {
        None => return None,
        Some(t) => t,
    };
    let mut out = escape_text(key);
    proof {
        reveal_strlit("\t");
    }
    out.append("\t");
    out.append(t.as_str());
    out.append("\t");
    match format {
        Some(f) => {
            out.append(f);
            out.append("\t");
        },
        None => {
            assert(out@ =~= out@ + Seq::<char>::empty());
        },
    }
    Some(out)
}

} // verus!
