//! A single table cell and the numeric-literal parser used by filters.

use vstd::prelude::*;
use vstd::string::StrSliceExecFns;

verus! {

/// One cell of a column: absent, a 64-bit signed integer, or text.
///
/// Numeric data is held as 64-bit integers: every comparison and every
/// reduction on numbers is exact.
#[derive(Debug)]
pub enum Value {
    Null,
    Int(i64),
    Str(String),
}

/// The mathematical model of a cell: an unbounded integer or a character
/// sequence.
pub enum ValueModel {
    Null,
    Int(int),
    Str(Seq<char>),
}

impl View for Value {
    type V = ValueModel;

    open spec fn view(&self) -> ValueModel {
        match self {
            Value::Null => ValueModel::Null,
            Value::Int(i) => ValueModel::Int(*i as int),
            Value::Str(s) => ValueModel::Str(s@),
        }
    }
}

impl Value {
    /// True exactly when the two cells model the same value.
    pub fn eq_value(&self, other: &Value) -> (r: bool)
        ensures
            r == (self@ == other@),
    {
        match (self, other) {
            (Value::Null, Value::Null) => true,
            (Value::Int(a), Value::Int(b)) => *a == *b,
            (Value::Str(a), Value::Str(b)) => *a == *b,
            _ => false,
        }
    }

    /// An owned cell with the same value.
    pub fn duplicate(&self) -> (r: Value)
        ensures
            r@ == self@,
    {
        match self {
            Value::Null => Value::Null,
            Value::Int(i) => Value::Int(*i),
            Value::Str(s) => Value::Str(s.clone()),
        }
    }
}

/// Decimal digit, `'0'` through `'9'`.
pub open spec fn spec_is_digit(c: char) -> bool {
    48 <= c as u32 && c as u32 <= 57
}

/// Numeric value of one decimal digit.
pub open spec fn spec_digit(c: char) -> int {
    c as u32 - 48
}

pub open spec fn spec_all_digits(s: Seq<char>) -> bool {
    forall|i: int| 0 <= i < s.len() ==> spec_is_digit(#[trigger] s[i])
}

/// The integer denoted by a sequence of decimal digits (0 when empty).
pub open spec fn spec_digits_val(s: Seq<char>) -> int
    decreases s.len(),
{
    if s.len() == 0 {
        0
    } else {
        spec_digits_val(s.drop_last()) * 10 + spec_digit(s.last())
    }
}

/// A numeric literal the filter engine accepts: an optional leading minus
/// sign, then one or more decimal digits, denoting a value that fits in a
/// 64-bit signed integer.
pub open spec fn spec_is_num_literal(s: Seq<char>) -> bool {
    if s.len() > 0 && s[0] == '-' {
        let d = s.skip(1);
        d.len() > 0 && spec_all_digits(d) && -spec_digits_val(d) >= i64::MIN
    } else {
        s.len() > 0 && spec_all_digits(s) && spec_digits_val(s) <= i64::MAX
    }
}

/// The number a filter literal denotes. A string that is not a numeric
/// literal denotes the default value 0: the engine deliberately falls back
/// to the default instead of rejecting the operation, preserving the
/// surrounding application's policy for malformed filter input.
pub open spec fn spec_parse_num(s: Seq<char>) -> int {
    if spec_is_num_literal(s) {
        if s[0] == '-' {
            -spec_digits_val(s.skip(1))
        } else {
            spec_digits_val(s)
        }
    } else {
        0
    }
}

proof fn lemma_digits_val_nonneg(s: Seq<char>)
    requires
        spec_all_digits(s),
    ensures
        spec_digits_val(s) >= 0,
    decreases s.len(),
{
    if s.len() > 0 {
        assert(spec_all_digits(s.drop_last())) by {
            assert(forall|i: int|
                0 <= i < s.len() - 1 ==> spec_is_digit(#[trigger] s.drop_last()[i]));
        }
        lemma_digits_val_nonneg(s.drop_last());
    }
}

/// Appending digits can only grow a (nonnegative) digit-string value.
proof fn lemma_digits_val_prefix_le(s: Seq<char>, k: int)
    requires
        spec_all_digits(s),
        0 <= k <= s.len(),
    ensures
        spec_digits_val(s.subrange(0, k)) <= spec_digits_val(s),
    decreases s.len() - k,
{
    if k < s.len() {
        let t = s.subrange(0, k + 1);
        assert(spec_all_digits(t)) by {
            assert(forall|i: int| 0 <= i < t.len() ==> spec_is_digit(#[trigger] t[i]));
        }
        assert(t.drop_last() =~= s.subrange(0, k));
        lemma_digits_val_nonneg(s.subrange(0, k));
        assert(spec_digits_val(t) == spec_digits_val(s.subrange(0, k)) * 10 + spec_digit(t.last()));
        lemma_digits_val_prefix_le(s, k + 1);
    } else {
        assert(s.subrange(0, k) =~= s);
    }
}

fn exec_is_digit(c: char) -> (r: bool)
    ensures
        r == spec_is_digit(c),
{
    let u = c as u32;
    48 <= u && u <= 57
}

/// Whether the text is a well-formed in-range numeric literal (as schema
/// inference and strict parsing ask).
pub fn is_num_literal(s: &str) -> (r: bool)
    ensures
        r == spec_is_num_literal(s@),
{
    let n = s.unicode_len();
    if n == 0 {
        return false;
    }
    let neg = s.get_char(0) == '-';
    let start: usize = if neg { 1 } else { 0 };
    if n == start {
        return false;
    }
    let ghost digits = s@.skip(start as int);
    let limit: u64 = if neg { 9223372036854775808 } else { 9223372036854775807 };
    let mut mag: u64 = 0;
    let mut i: usize = start;
    while i < n
        invariant
            start <= i <= n,
            start < n,
            n == s@.len(),
            start == if neg { 1int } else { 0int },
            neg ==> s@[0] == '-',
            !neg ==> s@.len() > 0 && s@[0] != '-',
            digits == s@.skip(start as int),
            limit == if neg { 9223372036854775808u64 } else { 9223372036854775807u64 },
            spec_all_digits(s@.subrange(start as int, i as int)),
            mag as int == spec_digits_val(s@.subrange(start as int, i as int)),
            mag <= limit,
        decreases n - i,
    {
        let c = s.get_char(i);
        let ghost pre = s@.subrange(start as int, i as int);
        let ghost cur = s@.subrange(start as int, i as int + 1);
        assert(cur.drop_last() =~= pre);
        if !exec_is_digit(c) {
            assert(!spec_is_num_literal(s@)) by {
                assert(digits[i - start] == c);
            }
            return false;
        }
        let d: u64 = (c as u32 - 48) as u64;
        let grown = match mag.checked_mul(10) {
            Some(m) => m.checked_add(d),
            None => None,
        };
        match grown {
            Some(m) if m <= limit => {
                mag = m;
            }
            _ => {
                proof {
                    assert(spec_all_digits(cur)) by {
                        assert(forall|j: int|
                            0 <= j < cur.len() ==> spec_is_digit(#[trigger] cur[j]));
                    }
                    assert(spec_digits_val(cur) == mag * 10 + d);
                    assert(spec_digits_val(cur) > limit);
                    if spec_is_num_literal(s@) {
                        assert(spec_all_digits(digits)) by {
                            if neg {
                                assert(digits == s@.skip(1));
                            } else {
                                assert(digits =~= s@);
                            }
                        }
                        assert(cur =~= digits.subrange(0, i - start + 1));
                        lemma_digits_val_prefix_le(digits, i - start + 1);
                        assert(spec_digits_val(digits) >= spec_digits_val(cur));
                        if neg {
                            assert(digits == s@.skip(1));
                            assert(-spec_digits_val(s@.skip(1)) >= i64::MIN);
                            assert(spec_digits_val(s@.skip(1)) <= 9223372036854775808int);
                            assert(spec_digits_val(digits) <= limit);
                        } else {
                            assert(digits =~= s@);
                            assert(spec_digits_val(s@) <= i64::MAX);
                            assert(spec_digits_val(digits) <= limit);
                        }
                        assert(false);
                    }
                }
                return false;
            }
        }
        i += 1;
        proof {
            assert(s@.subrange(start as int, i as int) =~= cur);
        }
    }
    proof {
        assert(s@.subrange(start as int, n as int) =~= digits);
        if neg {
            assert(s@.skip(1) =~= digits);
            assert(spec_all_digits(s@.skip(1)));
            assert(spec_digits_val(s@.skip(1)) == mag as int);
            assert(-spec_digits_val(s@.skip(1)) >= i64::MIN);
        } else {
            assert(s@ =~= digits);
            assert(spec_all_digits(s@));
            assert(spec_digits_val(s@) == mag as int);
            assert(spec_digits_val(s@) <= i64::MAX);
        }
        assert(spec_is_num_literal(s@));
    }
    true
}

/// Parses a filter literal as a 64-bit number; anything that is not a
/// well-formed in-range decimal integer yields the default value 0 rather
/// than an error.
pub fn parse_num(s: &str) -> (r: i64)
    ensures
        r as int == spec_parse_num(s@),
{
    let n = s.unicode_len();
    if n == 0 {
        return 0;
    }
    let neg = s.get_char(0) == '-';
    let start: usize = if neg { 1 } else { 0 };
    if n == start {
        return 0;
    }
    let ghost digits = s@.skip(start as int);
    // Largest magnitude still in range: one more than i64::MAX for a
    // negative literal, i64::MAX itself otherwise.
    let limit: u64 = if neg { 9223372036854775808 } else { 9223372036854775807 };
    let mut mag: u64 = 0;
    let mut i: usize = start;
    while i < n
        invariant
            start <= i <= n,
            start < n,
            n == s@.len(),
            start == if neg { 1int } else { 0int },
            neg ==> s@[0] == '-',
            !neg ==> s@.len() > 0 && s@[0] != '-',
            digits == s@.skip(start as int),
            limit == if neg { 9223372036854775808u64 } else { 9223372036854775807u64 },
            spec_all_digits(s@.subrange(start as int, i as int)),
            mag as int == spec_digits_val(s@.subrange(start as int, i as int)),
            mag <= limit,
        decreases n - i,
    {
        let c = s.get_char(i);
        let ghost pre = s@.subrange(start as int, i as int);
        let ghost cur = s@.subrange(start as int, i as int + 1);
        assert(cur.drop_last() =~= pre);
        if !exec_is_digit(c) {
            // A non-digit after the sign: the string is no numeric literal.
            assert(!spec_is_num_literal(s@)) by {
                assert(digits[i - start] == c);
            }
            return 0;
        }
        let d: u64 = (c as u32 - 48) as u64;
        let grown = match mag.checked_mul(10) {
            Some(m) => m.checked_add(d),
            None => None,
        };
        match grown {
            Some(m) if m <= limit => {
                mag = m;
            }
            _ => {
                // The value read so far already leaves the 64-bit range, and
                // further digits only grow it: no numeric literal.
                proof {
                    assert(spec_all_digits(cur)) by {
                        assert(forall|j: int|
                            0 <= j < cur.len() ==> spec_is_digit(#[trigger] cur[j]));
                    }
                    assert(spec_digits_val(cur) == mag * 10 + d);
                    assert(spec_digits_val(cur) > limit);
                    if spec_is_num_literal(s@) {
                        assert(spec_all_digits(digits)) by {
                            if neg {
                                assert(digits == s@.skip(1));
                            } else {
                                assert(digits =~= s@);
                            }
                        }
                        assert(cur =~= digits.subrange(0, i - start + 1));
                        lemma_digits_val_prefix_le(digits, i - start + 1);
                        assert(spec_digits_val(digits) >= spec_digits_val(cur));
                        if neg {
                            assert(digits == s@.skip(1));
                            assert(-spec_digits_val(s@.skip(1)) >= i64::MIN);
                            assert(spec_digits_val(s@.skip(1)) <= 9223372036854775808int);
                            assert(spec_digits_val(digits) <= limit);
                        } else {
                            assert(digits =~= s@);
                            assert(spec_digits_val(s@) <= i64::MAX);
                            assert(spec_digits_val(digits) <= limit);
                        }
                        assert(false);
                    }
                }
                return 0;
            }
        }
        i += 1;
        proof {
            assert(s@.subrange(start as int, i as int) =~= cur);
        }
    }
    proof {
        assert(s@.subrange(start as int, n as int) =~= digits);
        if neg {
            assert(s@.skip(1) =~= digits);
            assert(spec_all_digits(s@.skip(1)));
            assert(spec_digits_val(s@.skip(1)) == mag as int);
            assert(-spec_digits_val(s@.skip(1)) >= i64::MIN);
        } else {
            assert(s@ =~= digits);
            assert(spec_all_digits(s@));
            assert(spec_digits_val(s@) == mag as int);
            assert(spec_digits_val(s@) <= i64::MAX);
        }
        assert(spec_is_num_literal(s@));
    }
    if neg {
        if mag == 9223372036854775808 {
            i64::MIN
        } else {
            assert(mag < 9223372036854775808);
            -(mag as i64)
        }
    } else {
        mag as i64
    }
}

} // verus!
