//! Characters, decimal integers and the conversions between `str` and `Vec<char>`.
use vstd::prelude::*;

verus! {

pub open spec fn is_digit(c: char) -> bool {
    '0' <= c && c <= '9'
}

pub open spec fn all_digits(s: Seq<char>) -> bool {
    forall|i: int| 0 <= i < s.len() ==> is_digit(#[trigger] s[i])
}

pub open spec fn digit_value(c: char) -> int {
    (c as u32) as int - ('0' as u32) as int
}

/// The value of a sequence of decimal digits, most significant first.
pub open spec fn digits_value(s: Seq<char>) -> int
    decreases s.len(),
{
    if s.len() == 0 {
        0
    } else {
        digits_value(s.drop_last()) * 10 + digit_value(s.last())
    }
}

pub open spec fn digit_char(d: int) -> char {
    seq!['0', '1', '2', '3', '4', '5', '6', '7', '8', '9'][d]
}

/// The shortest decimal rendering of a natural number.
pub open spec fn decimal(n: nat) -> Seq<char>
    decreases n,
{
    if n < 10 {
        seq![digit_char(n as int)]
    } else {
        decimal(n / 10) + seq![digit_char((n % 10) as int)]
    }
}

/// Decimal rendering of an integer, with a leading `-` when negative.
pub open spec fn decimal_int(n: int) -> Seq<char> {
    if n < 0 {
        seq!['-'] + decimal((-n) as nat)
    } else {
        decimal(n as nat)
    }
}

/// A non-empty run of digits, optionally preceded by `+`, as `u64::from_str` reads it.
pub open spec fn unsigned_value(s: Seq<char>) -> Option<int> {
    if s.len() > 1 && s[0] == '+' && all_digits(s.drop_first()) {
        Some(digits_value(s.drop_first()))
    } else if s.len() > 0 && all_digits(s) {
        Some(digits_value(s))
    } else {
        None
    }
}

/// An optional sign followed by a non-empty run of digits, as `i32::from_str` reads it.
pub open spec fn signed_value(s: Seq<char>) -> Option<int> {
    if s.len() > 1 && s[0] == '-' && all_digits(s.drop_first()) {
        Some(-digits_value(s.drop_first()))
    } else {
        unsigned_value(s)
    }
}

pub open spec fn parse_u64_spec(s: Seq<char>) -> Option<u64> {
    match unsigned_value(s) {
        Some(v) => if v <= u64::MAX {
            Some(v as u64)
        } else {
            None
        },
        None => None,
    }
}

pub open spec fn parse_i32_spec(s: Seq<char>) -> Option<i32> {
    match signed_value(s) {
        Some(v) => if i32::MIN <= v <= i32::MAX {
            Some(v as i32)
        } else {
            None
        },
        None => None,
    }
}

pub proof fn lemma_digit_char(d: int)
    requires
        0 <= d < 10,
    ensures
        is_digit(digit_char(d)),
        digit_value(digit_char(d)) == d,
        digit_char(d) != '-',
        digit_char(d) != '+',
{
}

pub proof fn lemma_digits_value_nonneg(s: Seq<char>)
    requires
        all_digits(s),
    ensures
        digits_value(s) >= 0,
    decreases s.len(),
{
    if s.len() > 0 {
        lemma_digits_value_nonneg(s.drop_last());
    }
}

/// Extending a run of digits never lowers its value.
pub proof fn lemma_digits_value_prefix(s: Seq<char>, i: int)
    requires
        all_digits(s),
        0 <= i <= s.len(),
    ensures
        digits_value(s.take(i)) <= digits_value(s),
    decreases s.len() - i,
{
    if i < s.len() {
        lemma_digits_value_prefix(s, i + 1);
        assert(s.take(i + 1).drop_last() =~= s.take(i));
        lemma_digits_value_nonneg(s.take(i));
    } else {
        assert(s.take(i) =~= s);
    }
}

pub proof fn lemma_decimal(n: nat)
    ensures
        decimal(n).len() >= 1,
        all_digits(decimal(n)),
        digits_value(decimal(n)) == n,
        decimal(n)[0] != '-',
        decimal(n)[0] != '+',
    decreases n,
{
    let s = decimal(n);
    if n < 10 {
        lemma_digit_char(n as int);
        assert(s.drop_last() =~= Seq::<char>::empty());
        assert(digits_value(s) == digits_value(s.drop_last()) * 10 + digit_value(s.last()));
    } else {
        lemma_decimal(n / 10);
        lemma_digit_char((n % 10) as int);
        let p = decimal(n / 10);
        assert(s.drop_last() =~= p);
        assert(s[0] == p[0]);
        assert forall|i: int| 0 <= i < s.len() implies is_digit(#[trigger] s[i]) by {
            if i < p.len() {
                assert(s[i] == p[i]);
            }
        }
        assert(s.last() == digit_char((n % 10) as int));
        assert(digits_value(s) == digits_value(p) * 10 + digit_value(s.last()));
        assert((n / 10) * 10 + n % 10 == n);
    }
}

/// Reading back the decimal rendering of an integer gives the integer.
pub proof fn lemma_signed_decimal(n: int)
    ensures
        signed_value(decimal_int(n)) == Some(n),
{
    if n < 0 {
        lemma_decimal((-n) as nat);
        assert(decimal_int(n).drop_first() =~= decimal((-n) as nat));
    } else {
        lemma_decimal(n as nat);
    }
}

/// The characters of the string, in order.
pub fn chars_of(s: &str) -> (r: Vec<char>)
    ensures
        r@ == s@,
{
    let mut out: Vec<char> = Vec::new();
    for c in it: s.chars()
        invariant
            out@ == it.history@,
    {
        out.push(c);
    }
    out
}

/// Relies on `String`'s `FromIterator<char>`: the string of those characters, in order.
#[verifier::external_body]
pub fn string_of(v: &Vec<char>) -> (r: String)
    ensures
        r@ == v@,
{
    v.iter().collect()
}

pub fn is_digit_char(c: char) -> (r: bool)
    ensures
        r == is_digit(c),
{
    '0' <= c && c <= '9'
}

pub fn char_of_digit(d: u64) -> (c: char)
    requires
        d < 10,
    ensures
        c == digit_char(d as int),
{
    match d {
        0 => '0',
        1 => '1',
        2 => '2',
        3 => '3',
        4 => '4',
        5 => '5',
        6 => '6',
        7 => '7',
        8 => '8',
        _ => '9',
    }
}

/// The value of the digits `s[start..]`, when they are all digits, there is at least one,
/// and the value fits in a `u64`.
pub fn parse_digits(s: &Vec<char>, start: usize) -> (r: Option<u64>)
    requires
        start <= s@.len(),
    ensures
        ({
            let t = s@.subrange(start as int, s@.len() as int);
            r == if t.len() > 0 && all_digits(t) && digits_value(t) <= u64::MAX {
                Some(digits_value(t) as u64)
            } else {
                None::<u64>
            }
        }),
{
    let ghost t = s@.subrange(start as int, s@.len() as int);
    if start >= s.len() {
        return None;
    }
    let mut v: u64 = 0;
    let mut i: usize = start;
    while i < s.len()
        invariant
            start <= i <= s@.len(),
            t == s@.subrange(start as int, s@.len() as int),
            all_digits(t.take(i - start)),
            v as int == digits_value(t.take(i - start)),
        decreases s@.len() - i,
    {
        let c = s[i];
        if !is_digit_char(c) {
            assert(t[i - start] == c);
            return None;
        }
        let d = (c as u32 - '0' as u32) as u64;
        assert(t.take(i + 1 - start).drop_last() =~= t.take(i - start));
        if v > (u64::MAX - d) / 10 {
            proof {
                assert(all_digits(t.take(i + 1 - start)));
                assert(digits_value(t.take(i + 1 - start)) > u64::MAX);
                if all_digits(t) {
                    lemma_digits_value_prefix(t, i + 1 - start);
                }
            }
            return None;
        }
        v = v * 10 + d;
        i = i + 1;
    }
    assert(t.take(i - start) =~= t);
    Some(v)
}

/// `u64::from_str` on the characters `s`.
pub fn parse_u64(s: &Vec<char>) -> (r: Option<u64>)
    ensures
        r == parse_u64_spec(s@),
{
    if s.len() > 1 && s[0] == '+' {
        let r = parse_digits(s, 1);
        assert(s@.subrange(1, s@.len() as int) =~= s@.drop_first());
        r
    } else {
        let r = parse_digits(s, 0);
        assert(s@.subrange(0, s@.len() as int) =~= s@);
        proof {
            if s@.len() > 1 && s@[0] == '+' {
            } else if s@.len() > 0 && s@[0] == '+' {
                assert(!is_digit(s@[0]));
            }
        }
        r
    }
}

/// `i32::from_str` on the characters `s`.
pub fn parse_i32(s: &Vec<char>) -> (r: Option<i32>)
    ensures
        r == parse_i32_spec(s@),
{
    if s.len() > 1 && s[0] == '-' {
        let r = parse_digits(s, 1);
        assert(s@.subrange(1, s@.len() as int) =~= s@.drop_first());
        match r {
            Some(v) => {
                let ghost t = s@.drop_first();
                proof {
                    if all_digits(t) {
                        lemma_digits_value_nonneg(t);
                    }
                }
                assert(all_digits(t) && v as int == digits_value(t));
                if v <= 2147483648 {
                    Some((0 - (v as i64)) as i32)
                } else {
                    None
                }
            },
            None => {
                proof {
                    let t = s@.drop_first();
                    assert(!is_digit(s@[0]));
                    if all_digits(t) {
                        lemma_digits_value_nonneg(t);
                        assert(signed_value(s@) == Some(-digits_value(t)));
                    } else {
                        assert(signed_value(s@) == unsigned_value(s@));
                        assert(unsigned_value(s@) is None);
                    }
                }
                None
            },
        }
    } else {
        let r = parse_u64(s);
        proof {
            if s@.len() > 0 && s@[0] == '-' {
                assert(!is_digit(s@[0]));
            }
            if unsigned_value(s@) is Some {
                let t = if s@.len() > 1 && s@[0] == '+' { s@.drop_first() } else { s@ };
                lemma_digits_value_nonneg(t);
            }
        }
        match r {
            Some(v) => {
                proof {
                    let t = if s@.len() > 1 && s@[0] == '+' { s@.drop_first() } else { s@ };
                    if all_digits(t) {
                        lemma_digits_value_nonneg(t);
                    }
                }
                if v <= 2147483647 {
                    Some(v as i32)
                } else {
                    None
                }
            },
            None => None,
        }
    }
}

/// Appends the decimal rendering of `n`.
pub fn push_decimal(n: u64, out: &mut Vec<char>)
    ensures
        final(out)@ == old(out)@ + decimal(n as nat),
    decreases n,
{
    if n >= 10 {
        push_decimal(n / 10, out);
    }
    let c = char_of_digit(n % 10);
    out.push(c);
    proof {
        if n >= 10 {
            assert(final(out)@ =~= old(out)@ + decimal(n as nat));
        } else {
            assert(final(out)@ =~= old(out)@ + decimal(n as nat));
        }
    }
}

/// Appends the decimal rendering of `n`, with a leading `-` when negative.
pub fn push_decimal_i32(n: i32, out: &mut Vec<char>)
    ensures
        final(out)@ == old(out)@ + decimal_int(n as int),
{
    if n < 0 {
        out.push('-');
        let m = (0 - (n as i64)) as u64;
        push_decimal(m, out);
        assert(final(out)@ =~= old(out)@ + decimal_int(n as int));
    } else {
        push_decimal(n as u64, out);
    }
}

/// `i32::to_string`: the decimal rendering of `n`.
pub fn i32_to_string(n: i32) -> (r: String)
    ensures
        r@ == decimal_int(n as int),
{
    let mut v: Vec<char> = Vec::new();
    push_decimal_i32(n, &mut v);
    assert(v@ =~= decimal_int(n as int));
    string_of(&v)
}

} // verus!
