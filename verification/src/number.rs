//! Decimal numbers and booleans written as text, read and written the way
//! `str::parse` and `to_string` do it for `bool`, `i32`, `i64` and `u64`.
use vstd::prelude::*;
use crate::text::push_char;

verus! {

pub open spec fn is_digit(c: char) -> bool {
    '0' <= c && c <= '9'
}

pub open spec fn digit_value(c: char) -> int {
    (c as u32) - ('0' as u32)
}

pub open spec fn all_digits(s: Seq<char>) -> bool {
    forall|i: int| 0 <= i < s.len() ==> is_digit(#[trigger] s[i])
}

/// The value of a string of decimal digits.
pub open spec fn digits_value(s: Seq<char>) -> int
    decreases s.len(),
{
    if s.len() == 0 {
        0
    } else {
        digits_value(s.drop_last()) * 10 + digit_value(s.last())
    }
}

/// An optional sign followed by at least one decimal digit, read as an
/// integer; a `-` is accepted only when `signed` holds. This is the grammar
/// of `FromStr` for the integer types, before the range check.
pub open spec fn parse_int(s: Seq<char>, signed: bool) -> Option<int> {
    if s.len() == 0 {
        None
    } else {
        let neg = signed && s[0] == '-';
        let ds = if s[0] == '+' || neg {
            s.drop_first()
        } else {
            s
        };
        if ds.len() == 0 || !all_digits(ds) {
            None
        } else if neg {
            Some(-digits_value(ds))
        } else {
            Some(digits_value(ds))
        }
    }
}

/// What `s.parse::<i32>()` gives.
pub open spec fn parse_i32(s: Seq<char>) -> Option<i32> {
    match parse_int(s, true) {
        Some(v) => if i32::MIN <= v <= i32::MAX {
            Some(v as i32)
        } else {
            None
        },
        None => None,
    }
}

/// What `s.parse::<i64>()` gives.
pub open spec fn parse_i64(s: Seq<char>) -> Option<i64> {
    match parse_int(s, true) {
        Some(v) => if i64::MIN <= v <= i64::MAX {
            Some(v as i64)
        } else {
            None
        },
        None => None,
    }
}

/// What `s.parse::<u64>()` gives.
pub open spec fn parse_u64(s: Seq<char>) -> Option<u64> {
    match parse_int(s, false) {
        Some(v) => if 0 <= v <= u64::MAX {
            Some(v as u64)
        } else {
            None
        },
        None => None,
    }
}

pub open spec fn true_text() -> Seq<char> {
    seq!['t', 'r', 'u', 'e']
}

pub open spec fn false_text() -> Seq<char> {
    seq!['f', 'a', 'l', 's', 'e']
}

/// What `s.parse::<bool>()` gives.
pub open spec fn parse_bool(s: Seq<char>) -> Option<bool> {
    if s == true_text() {
        Some(true)
    } else if s == false_text() {
        Some(false)
    } else {
        None
    }
}

pub open spec fn digit_char(d: int) -> char {
    if d == 0 { '0' } else if d == 1 { '1' } else if d == 2 { '2' } else if d == 3 { '3' }
    else if d == 4 { '4' } else if d == 5 { '5' } else if d == 6 { '6' } else if d == 7 { '7' }
    else if d == 8 { '8' } else { '9' }
}

/// The decimal digits of a non-negative number, without leading zeros.
pub open spec fn digits_of(n: nat) -> Seq<char>
    decreases n,
{
    if n < 10 {
        seq![digit_char(n as int)]
    } else {
        digits_of(n / 10) + seq![digit_char((n % 10) as int)]
    }
}

/// The text of an integer, as `to_string` writes it.
pub open spec fn decimal(n: int) -> Seq<char> {
    if n < 0 {
        seq!['-'] + digits_of((-n) as nat)
    } else {
        digits_of(n as nat)
    }
}

pub open spec fn bool_text(b: bool) -> Seq<char> {
    if b {
        true_text()
    } else {
        false_text()
    }
}

/// The value of the decimal digits `cs[from..to]`, or `None` when there are
/// none, when one is not a digit, or when the value exceeds `bound`.
fn digits_upto(cs: &Vec<char>, from: usize, to: usize, bound: u64) -> (r: Option<u64>)
    requires
        from <= to <= cs@.len(),
        bound >= 9,
    ensures
        ({
            let s = cs@.subrange(from as int, to as int);
            match r {
                Some(v) => s.len() > 0 && all_digits(s) && v == digits_value(s) && v <= bound,
                None => s.len() == 0 || !all_digits(s) || digits_value(s) > bound,
            }
        }),
{
    let ghost s = cs@.subrange(from as int, to as int);
    if from == to {
        return None;
    }
    let mut acc: u64 = 0;
    let mut i: usize = from;
    while i < to
        invariant
            from <= i <= to <= cs@.len(),
            bound >= 9,
            s == cs@.subrange(from as int, to as int),
            all_digits(cs@.subrange(from as int, i as int)),
            acc == digits_value(cs@.subrange(from as int, i as int)),
            acc <= bound,
        decreases to - i,
    {
        let c = cs[i];
        let ghost pre = cs@.subrange(from as int, i as int);
        let ghost next = cs@.subrange(from as int, i + 1);
        assert(next.drop_last() =~= pre);
        if !('0' <= c && c <= '9') {
            proof {
                assert(s[i - from] == c);
            }
            return None;
        }
        let d: u64 = (c as u32 - '0' as u32) as u64;
        if acc > (bound - d) / 10 {
            proof {
                assert(all_digits(next));
                assert(digits_value(next) == acc * 10 + d);
                assert(acc * 10 + d > bound) by (nonlinear_arith)
                    requires acc > (bound - d) / 10, d <= bound;
                if all_digits(s) {
                    lemma_digits_value_mono(s, i + 1 - from);
                    assert(s.take(i + 1 - from) =~= next);
                }
            }
            return None;
        }
        assert(acc * 10 + d <= bound) by (nonlinear_arith)
            requires acc <= (bound - d) / 10, d <= 9;
        acc = acc * 10 + d;
        i = i + 1;
    }
    assert(cs@.subrange(from as int, to as int) =~= s);
    Some(acc)
}

/// Reads `cs[from..to]` with the grammar of `parse_int`, keeping values in
/// `-neg_bound..=pos_bound`; gives the sign and the magnitude.
fn int_in_range(cs: &Vec<char>, from: usize, to: usize, signed: bool, neg_bound: u64, pos_bound: u64) -> (r: Option<(bool, u64)>)
    requires
        from <= to <= cs@.len(),
        neg_bound >= 9,
        pos_bound >= 9,
    ensures
        ({
            let s = cs@.subrange(from as int, to as int);
            match r {
                Some((neg, m)) => parse_int(s, signed) == Some(if neg { -(m as int) } else { m as int })
                    && (if neg { m <= neg_bound } else { m <= pos_bound }),
                None => match parse_int(s, signed) {
                    Some(v) => v < -(neg_bound as int) || v > pos_bound,
                    None => true,
                },
            }
        }),
{
    let ghost s = cs@.subrange(from as int, to as int);
    if from == to {
        return None;
    }
    let first = cs[from];
    assert(s[0] == first);
    let neg = signed && first == '-';
    let start: usize = if first == '+' || neg { from + 1 } else { from };
    let ghost ds = if first == '+' || neg { s.drop_first() } else { s };
    assert(ds =~= cs@.subrange(start as int, to as int));
    let bound = if neg { neg_bound } else { pos_bound };
    match digits_upto(cs, start, to, bound) {
        Some(m) => Some((neg, m)),
        None => None,
    }
}

/// `s.parse::<i64>()` on the characters `cs[from..to]`.
pub fn parse_i64_chars(cs: &Vec<char>, from: usize, to: usize) -> (r: Option<i64>)
    requires
        from <= to <= cs@.len(),
    ensures
        r == parse_i64(cs@.subrange(from as int, to as int)),
{
    match int_in_range(cs, from, to, true, 0x8000_0000_0000_0000, 0x7fff_ffff_ffff_ffff) {
        Some((neg, m)) => if neg {
            Some((0i128 - m as i128) as i64)
        } else {
            Some(m as i64)
        },
        None => None,
    }
}

/// `s.parse::<i32>()` on the characters `cs[from..to]`.
pub fn parse_i32_chars(cs: &Vec<char>, from: usize, to: usize) -> (r: Option<i32>)
    requires
        from <= to <= cs@.len(),
    ensures
        r == parse_i32(cs@.subrange(from as int, to as int)),
{
    match int_in_range(cs, from, to, true, 0x8000_0000, 0x7fff_ffff) {
        Some((neg, m)) => if neg {
            Some((0i64 - m as i64) as i32)
        } else {
            Some(m as i32)
        },
        None => None,
    }
}

/// `s.parse::<u64>()` on the characters `cs[from..to]`.
pub fn parse_u64_chars(cs: &Vec<char>, from: usize, to: usize) -> (r: Option<u64>)
    requires
        from <= to <= cs@.len(),
    ensures
        r == parse_u64(cs@.subrange(from as int, to as int)),
{
    proof {
        lemma_unsigned_nonneg(cs@.subrange(from as int, to as int));
    }
    match int_in_range(cs, from, to, false, 9, 0xffff_ffff_ffff_ffff) {
        Some((_, m)) => Some(m),
        None => None,
    }
}

/// `s.parse::<bool>()` on the characters `cs[from..to]`.
pub fn parse_bool_chars(cs: &Vec<char>, from: usize, to: usize) -> (r: Option<bool>)
    requires
        from <= to <= cs@.len(),
    ensures
        r == parse_bool(cs@.subrange(from as int, to as int)),
{
    let ghost s = cs@.subrange(from as int, to as int);
    let n: usize = to - from;
    if n == 4 && cs[from] == 't' && cs[from + 1] == 'r' && cs[from + 2] == 'u' && cs[from + 3] == 'e' {
        assert(s =~= true_text());
        return Some(true);
    }
    if n == 5 && cs[from] == 'f' && cs[from + 1] == 'a' && cs[from + 2] == 'l' && cs[from + 3] == 's'
        && cs[from + 4] == 'e' {
        assert(s =~= false_text());
        return Some(false);
    }
    proof {
        assert(s.len() == n);
        assert forall|k: int| 0 <= k < n implies s[k] == cs@[from + k] by {}
        if s == true_text() {
            assert(true_text()[0] == 't' && true_text()[1] == 'r' && true_text()[2] == 'u' && true_text()[3] == 'e');
            assert(s[0] == 't' && s[1] == 'r' && s[2] == 'u' && s[3] == 'e');
        }
        if s == false_text() {
            assert(false_text()[0] == 'f' && false_text()[1] == 'a' && false_text()[2] == 'l' && false_text()[3] == 's' && false_text()[4] == 'e');
            assert(s[0] == 'f' && s[1] == 'a' && s[2] == 'l' && s[3] == 's' && s[4] == 'e');
        }
    }
    None
}

proof fn lemma_unsigned_nonneg(s: Seq<char>)
    ensures
        parse_int(s, false) matches Some(v) ==> v >= 0,
{
    if s.len() > 0 {
        let ds = if s[0] == '+' { s.drop_first() } else { s };
        if ds.len() > 0 && all_digits(ds) {
            lemma_digits_value_nonneg(ds);
        }
    }
}

fn push_digits(s: &mut String, m: u64)
    ensures
        final(s)@ == old(s)@ + digits_of(m as nat),
    decreases m,
{
    if m < 10 {
        push_char(s, char_of_digit(m));
        assert(final(s)@ =~= old(s)@ + digits_of(m as nat)) by {
            assert(digits_of(m as nat) == seq![digit_char(m as int)]);
        }
    } else {
        push_digits(s, m / 10);
        push_char(s, char_of_digit(m % 10));
        assert(final(s)@ =~= old(s)@ + digits_of(m as nat));
    }
}

pub fn char_of_digit(d: u64) -> (c: char)
    requires
        d < 10,
    ensures
        c == digit_char(d as int),
{
    if d == 0 { '0' } else if d == 1 { '1' } else if d == 2 { '2' } else if d == 3 { '3' }
    else if d == 4 { '4' } else if d == 5 { '5' } else if d == 6 { '6' } else if d == 7 { '7' }
    else if d == 8 { '8' } else { '9' }
}

/// `n.to_string()` for an `i64`.
pub fn i64_to_string(n: i64) -> (s: String)
    ensures
        s@ == decimal(n as int),
{
    let mut s = String::new();
    if n < 0 {
        push_char(&mut s, '-');
        let m: u64 = (0i128 - n as i128) as u64;
        push_digits(&mut s, m);
    } else {
        push_digits(&mut s, n as u64);
    }
    assert(s@ =~= decimal(n as int));
    s
}

/// The digits written for a number read back as that number.
pub proof fn lemma_digits_of_value(m: nat)
    ensures
        digits_of(m).len() > 0,
        all_digits(digits_of(m)),
        digits_value(digits_of(m)) == m,
    decreases m,
{
    if m < 10 {
        assert(digits_of(m).drop_last() =~= Seq::<char>::empty());
        assert(digit_value(digit_char(m as int)) == m);
        assert(digits_of(m).last() == digit_char(m as int));
        assert(digits_value(Seq::<char>::empty()) == 0);
    } else {
        lemma_digits_of_value(m / 10);
        assert(digit_value(digit_char((m % 10) as int)) == m % 10);
        let d = digits_of(m);
        assert(d.drop_last() =~= digits_of(m / 10));
        assert(d.last() == digit_char((m % 10) as int));
        assert forall|i: int| 0 <= i < d.len() implies is_digit(#[trigger] d[i]) by {
            if i < d.len() - 1 {
                assert(d[i] == digits_of(m / 10)[i]);
            }
        }
    }
}

/// Reading the text of an integer gives the integer back.
pub proof fn lemma_parse_decimal(n: int)
    ensures
        parse_int(decimal(n), true) == Some(n),
{
    if n < 0 {
        let m = (-n) as nat;
        lemma_digits_of_value(m);
        assert(decimal(n).drop_first() =~= digits_of(m));
    } else {
        lemma_digits_of_value(n as nat);
        let d = digits_of(n as nat);
        assert(is_digit(d[0]));
    }
}

/// A longer run of digits never has a smaller value.
proof fn lemma_digits_value_mono(s: Seq<char>, k: int)
    requires
        all_digits(s),
        0 <= k <= s.len(),
    ensures
        digits_value(s.take(k)) <= digits_value(s),
        0 <= digits_value(s.take(k)),
    decreases s.len() - k,
{
    lemma_digits_value_nonneg(s.take(k));
    if k < s.len() {
        lemma_digits_value_mono(s.drop_last(), k);
        assert(s.drop_last().take(k) =~= s.take(k));
        lemma_digits_value_nonneg(s.drop_last());
        assert(is_digit(s[s.len() - 1]));
    } else {
        assert(s.take(k) =~= s);
    }
}

proof fn lemma_digits_value_nonneg(s: Seq<char>)
    requires
        all_digits(s),
    ensures
        digits_value(s) >= 0,
    decreases s.len(),
{
    if s.len() > 0 {
        assert(is_digit(s[s.len() - 1]));
        lemma_digits_value_nonneg(s.drop_last());
    }
}

} // verus!
