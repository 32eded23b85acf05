use vstd::prelude::*;

use crate::text::same_text;
use crate::value::Value;

verus! {

/// The boolean that `s` spells: exactly `true` or `false`.
pub open spec fn bool_of(s: Seq<char>) -> Option<bool> {
    if s == seq!['t', 'r', 'u', 'e'] {
        Some(true)
    } else if s == seq!['f', 'a', 'l', 's', 'e'] {
        Some(false)
    } else {
        None
    }
}

pub open spec fn is_digit(c: char) -> bool {
    '0' <= c && c <= '9'
}

/// A non-empty run of decimal digits.
pub open spec fn is_digits(s: Seq<char>) -> bool {
    s.len() > 0 && forall|i: int| 0 <= i < s.len() ==> is_digit(#[trigger] s[i])
}

/// The number that a run of decimal digits spells.
pub open spec fn digits_value(s: Seq<char>) -> nat
    decreases s.len(),
{
    if s.len() == 0 {
        0
    } else {
        digits_value(s.drop_last()) * 10 + ((s.last() as u32) - ('0' as u32)) as nat
    }
}

/// The number that `s` spells, where `s` is a run of decimal digits whose value
/// is at most `limit`.
pub open spec fn digits_within(s: Seq<char>, limit: nat) -> Option<nat> {
    if is_digits(s) && digits_value(s) <= limit {
        Some(digits_value(s))
    } else {
        None
    }
}

/// The unsigned 64-bit integer that `s` spells: decimal digits only.
pub open spec fn u64_of(s: Seq<char>) -> Option<u64> {
    match digits_within(s, u64::MAX as nat) {
        Some(n) => Some(n as u64),
        None => None,
    }
}

/// The signed 64-bit integer that `s` spells: decimal digits, with an optional
/// leading `-`.
pub open spec fn i64_of(s: Seq<char>) -> Option<i64> {
    if s.len() > 0 && s[0] == '-' {
        match digits_within(s.drop_first(), 0x8000_0000_0000_0000) {
            Some(n) => Some((-n) as i64),
            None => None,
        }
    } else {
        match digits_within(s, i64::MAX as nat) {
            Some(n) => Some(n as i64),
            None => None,
        }
    }
}

/// A prefix of a run of digits spells no more than the whole run.
proof fn lemma_prefix_value(s: Seq<char>, k: int)
    requires
        0 <= k <= s.len(),
        forall|i: int| 0 <= i < s.len() ==> is_digit(#[trigger] s[i]),
    ensures
        digits_value(s.take(k)) <= digits_value(s),
    decreases s.len(),
{
    if k < s.len() {
        assert(s.drop_last().take(k) =~= s.take(k));
        lemma_prefix_value(s.drop_last(), k);
    } else {
        assert(s.take(k) =~= s);
    }
}

/// Reads the digits of `s` from the character `start` on: their value where
/// they are a non-empty run of digits whose value is at most `limit`.
fn read_digits(s: &str, start: usize, limit: u64) -> (r: Option<u64>)
    requires
        start <= s@.len(),
    ensures
        r == (match digits_within(s@.skip(start as int), limit as nat) {
            Some(n) => Some(n as u64),
            None => None::<u64>,
        }),
{
    let n = s.unicode_len();
    let ghost t = s@.skip(start as int);
    if start == n {
        return None;
    }
    let mut acc: u64 = 0;
    let mut i: usize = start;
    while i < n
        invariant
            start <= i <= n,
            n == s@.len(),
            t == s@.skip(start as int),
            forall|j: int| 0 <= j < i - start ==> is_digit(#[trigger] t[j]),
            acc as nat == digits_value(t.take(i - start)),
            acc <= limit,
        decreases n - i,
    {
        let c = s.get_char(i);
        if !('0' <= c && c <= '9') {
            assert(t[i - start] == c);
            return None;
        }
        let d: u64 = (c as u32 - '0' as u32) as u64;
        assert(t.take(i - start + 1).drop_last() =~= t.take(i - start));
        assert(t.take(i - start + 1).last() == c);
        if d > limit || acc > (limit - d) / 10 {
            proof {
                assert(digits_value(t.take(i - start + 1)) > limit) by (nonlinear_arith)
                    requires
                        digits_value(t.take(i - start + 1)) == acc * 10 + d,
                        d > limit || acc > (limit - d) / 10,
                        d <= 9,
                ;
                if is_digits(t) {
                    lemma_prefix_value(t, i - start + 1);
                }
            }
            return None;
        }
        assert(acc * 10 + d <= limit) by (nonlinear_arith)
            requires
                acc <= (limit - d) / 10,
                d <= limit,
        ;
        acc = acc * 10 + d;
        i = i + 1;
    }
    assert(t.take(n - start) =~= t);
    Some(acc)
}

/// The boolean that `raw` spells.
pub fn read_bool(raw: &str) -> (r: Option<bool>)
    ensures
        r == bool_of(raw@),
{
    proof {
        reveal_strlit("true");
        reveal_strlit("false");
        assert("true"@ =~= seq!['t', 'r', 'u', 'e']);
        assert("false"@ =~= seq!['f', 'a', 'l', 's', 'e']);
    }
    if same_text(raw, "true") {
        Some(true)
    } else if same_text(raw, "false") {
        Some(false)
    } else {
        None
    }
}

/// The unsigned 64-bit integer that `raw` spells.
pub fn read_u64(raw: &str) -> (r: Option<u64>)
    ensures
        r == u64_of(raw@),
{
    assert(raw@.skip(0) =~= raw@);
    read_digits(raw, 0, u64::MAX)
}

/// The signed 64-bit integer that `raw` spells.
pub fn read_i64(raw: &str) -> (r: Option<i64>)
    ensures
        r == i64_of(raw@),
{
    let n = raw.unicode_len();
    if n > 0 && raw.get_char(0) == '-' {
        assert(raw@.skip(1) =~= raw@.drop_first());
        match read_digits(raw, 1, 0x8000_0000_0000_0000) {
            Some(m) => {
                if m == 0x8000_0000_0000_0000 {
                    Some(i64::MIN)
                } else {
                    Some(-(m as i64))
                }
            },
            None => None,
        }
    } else {
        assert(raw@.skip(0) =~= raw@);
        match read_digits(raw, 0, i64::MAX as u64) {
            Some(m) => Some(m as i64),
            None => None,
        }
    }
}

/// Infers the type of a raw string, trying in turn a boolean (`true` or
/// `false`), an unsigned 64-bit integer, a signed 64-bit integer, and a 64-bit
/// floating-point number, and falling back to the string itself.
///
/// `float_bits` is the bit pattern of `raw` read as a 64-bit floating-point
/// number, or `None` where `raw` does not read as one.
pub fn try_detect_type(raw: &str, float_bits: Option<u64>) -> (r: Value)
    ensures
        r is Bool || r is U64 || r is I64 || r is F64 || r is String,
        bool_of(raw@) matches Some(b) ==> r == Value::Bool(b),
        bool_of(raw@) is None ==> (u64_of(raw@) matches Some(n) ==> r == Value::U64(n)),
        bool_of(raw@) is None && u64_of(raw@) is None ==> (i64_of(raw@) matches Some(n) ==> r
            == Value::I64(n)),
        bool_of(raw@) is None && u64_of(raw@) is None && i64_of(raw@) is None ==> (
        float_bits matches Some(f) ==> r == Value::F64(f)),
        bool_of(raw@) is None && u64_of(raw@) is None && i64_of(raw@) is None && float_bits is None
            ==> (r matches Value::String(s) && s@ == raw@),
{
    if let Some(b) = read_bool(raw) {
        return Value::Bool(b);
    }
    if let Some(n) = read_u64(raw) {
        return Value::U64(n);
    }
    if let Some(n) = read_i64(raw) {
        return Value::I64(n);
    }
    match float_bits {
        Some(f) => Value::F64(f),
        None => Value::String(String::from_str(raw)),
    }
}

} // verus!
