//! The JSON text of the stored-state annotations.
//!
//! A stored selector is a JSON object of strings (`{"app":"web"}`) and stored ports a
//! JSON array of port objects (`[{"port":80,"targetPort":"http"}]`). Encoding writes the
//! compact form; decoding reads that form and also accepts whitespace between tokens,
//! the port keys in any order, further keys on a port whose values are strings or
//! integers (they are ignored), and the usual string escapes, a `\u` surrogate pair
//! included; a lone surrogate is refused.
use vstd::prelude::*;
use crate::strmap::{StrMap, map_of, pair_view};
use crate::service::{ServicePort, TargetPort, ports_view};
use crate::text::{
    is_digit, all_digits, digits_value, decimal_int, lemma_decimal, lemma_digits_value_prefix,
    is_digit_char, push_decimal_i32, string_of, chars_of, decimal,
};

verus! {

/// A JSON value of the kinds the annotations hold: a 32-bit integer or a string.
pub enum Scalar {
    Int(int),
    Str(Seq<char>),
}

pub open spec fn is_ws(c: char) -> bool {
    c == ' ' || c == '\t' || c == '\n' || c == '\r'
}

/// The first position at or after `i` that does not hold whitespace.
pub open spec fn ws_end(s: Seq<char>, i: int) -> int
    decreases s.len() - i,
{
    if 0 <= i < s.len() && is_ws(s[i]) {
        ws_end(s, i + 1)
    } else {
        i
    }
}

/// The first position at or after `i` that does not hold a decimal digit.
pub open spec fn digits_end(s: Seq<char>, i: int) -> int
    decreases s.len() - i,
{
    if 0 <= i < s.len() && is_digit(s[i]) {
        digits_end(s, i + 1)
    } else {
        i
    }
}

pub open spec fn hex_value(c: char) -> Option<int> {
    if '0' <= c && c <= '9' {
        Some((c as u32) as int - ('0' as u32) as int)
    } else if 'a' <= c && c <= 'f' {
        Some((c as u32) as int - ('a' as u32) as int + 10)
    } else if 'A' <= c && c <= 'F' {
        Some((c as u32) as int - ('A' as u32) as int + 10)
    } else {
        None
    }
}

pub open spec fn hex_digit(d: int) -> char {
    seq!['0', '1', '2', '3', '4', '5', '6', '7', '8', '9', 'a', 'b', 'c', 'd', 'e', 'f'][d]
}

/// The code point that the four hex digits at `i` spell.
pub open spec fn hex4(s: Seq<char>, i: int) -> Option<int> {
    if 0 <= i && i + 4 <= s.len() && hex_value(s[i]) is Some && hex_value(s[i + 1]) is Some
        && hex_value(s[i + 2]) is Some && hex_value(s[i + 3]) is Some {
        Some(
            hex_value(s[i])->0 * 4096 + hex_value(s[i + 1])->0 * 256 + hex_value(s[i + 2])->0
                * 16 + hex_value(s[i + 3])->0,
        )
    } else {
        None
    }
}

/// The character that the escape after a backslash at `i - 1` stands for, and the
/// position after the escape.
pub open spec fn escaped(s: Seq<char>, i: int) -> Option<(char, int)> {
    if i < 0 || i >= s.len() {
        None
    } else if s[i] == '"' {
        Some(('"', i + 1))
    } else if s[i] == '\\' {
        Some(('\\', i + 1))
    } else if s[i] == '/' {
        Some(('/', i + 1))
    } else if s[i] == 'b' {
        Some(('\x08', i + 1))
    } else if s[i] == 'f' {
        Some(('\x0c', i + 1))
    } else if s[i] == 'n' {
        Some(('\n', i + 1))
    } else if s[i] == 'r' {
        Some(('\r', i + 1))
    } else if s[i] == 't' {
        Some(('\t', i + 1))
    } else if s[i] == 'u' {
        match hex4(s, i + 1) {
            Some(v) => if v < 0xD800 || v >= 0xE000 {
                Some(((v as u32) as char, i + 5))
            } else if v < 0xDC00 && i + 6 < s.len() && s[i + 5] == '\\' && s[i + 6] == 'u' {
                match hex4(s, i + 7) {
                    Some(w) => if 0xDC00 <= w < 0xE000 {
                        Some((
                            ((0x10000 + (v - 0xD800) * 0x400 + (w - 0xDC00)) as u32) as char,
                            i + 11,
                        ))
                    } else {
                        None
                    },
                    None => None,
                }
            } else {
                None
            },
            None => None,
        }
    } else {
        None
    }
}

/// The rest of a string literal whose opening quote is just before `i`: its content and
/// the position after the closing quote.
pub open spec fn str_body(s: Seq<char>, i: int) -> Option<(Seq<char>, int)>
    decreases s.len() - i,
{
    if i < 0 || i >= s.len() {
        None
    } else if s[i] == '"' {
        Some((Seq::empty(), i + 1))
    } else if s[i] == '\\' {
        match escaped(s, i + 1) {
            Some((c, j)) => match str_body(s, j) {
                Some((v, k)) => Some((seq![c] + v, k)),
                None => None,
            },
            None => None,
        }
    } else if (s[i] as u32) < 0x20 {
        None
    } else {
        match str_body(s, i + 1) {
            Some((v, k)) => Some((seq![s[i]] + v, k)),
            None => None,
        }
    }
}

/// An integer token at `i` (an optional `-`, then `0` or digits without a leading zero)
/// whose value fits in an `i32`, and the position after it.
pub open spec fn int_token(s: Seq<char>, i: int) -> Option<(int, int)> {
    let neg = 0 <= i < s.len() && s[i] == '-';
    let d = if neg {
        i + 1
    } else {
        i
    };
    let e = digits_end(s, d);
    if i < 0 || e == d || (s[d] == '0' && e > d + 1) {
        None
    } else {
        let v = digits_value(s.subrange(d, e));
        let w = if neg {
            -v
        } else {
            v
        };
        if i32::MIN <= w <= i32::MAX {
            Some((w, e))
        } else {
            None
        }
    }
}

pub open spec fn scalar_at(s: Seq<char>, i: int) -> Option<(Scalar, int)> {
    if 0 <= i < s.len() && s[i] == '"' {
        match str_body(s, i + 1) {
            Some((v, j)) => Some((Scalar::Str(v), j)),
            None => None,
        }
    } else {
        match int_token(s, i) {
            Some((v, j)) => Some((Scalar::Int(v), j)),
            None => None,
        }
    }
}

/// An object member `"key": value` at `i`.
pub open spec fn member_at(s: Seq<char>, i: int) -> Option<((Seq<char>, Scalar), int)> {
    if 0 <= i < s.len() && s[i] == '"' {
        match str_body(s, i + 1) {
            Some((k, j)) => {
                let c = ws_end(s, j);
                if 0 <= c < s.len() && s[c] == ':' {
                    match scalar_at(s, ws_end(s, c + 1)) {
                        Some((v, e)) => Some(((k, v), e)),
                        None => None,
                    }
                } else {
                    None
                }
            },
            None => None,
        }
    } else {
        None
    }
}

/// The members of an object from the first one at `i` up to and including the closing
/// brace.
pub open spec fn members_at(s: Seq<char>, i: int) -> Option<(Seq<(Seq<char>, Scalar)>, int)>
    decreases s.len() - i,
{
    match member_at(s, i) {
        Some((m, j)) => {
            let k = ws_end(s, j);
            if 0 <= k < s.len() && s[k] == ',' {
                let l = ws_end(s, k + 1);
                if i < l <= s.len() {
                    match members_at(s, l) {
                        Some((ms, e)) => Some((seq![m] + ms, e)),
                        None => None,
                    }
                } else {
                    None
                }
            } else if 0 <= k < s.len() && s[k] == '}' {
                Some((seq![m], k + 1))
            } else {
                None
            }
        },
        None => None,
    }
}

pub open spec fn object_at(s: Seq<char>, i: int) -> Option<(Seq<(Seq<char>, Scalar)>, int)> {
    if 0 <= i < s.len() && s[i] == '{' {
        let j = ws_end(s, i + 1);
        if 0 <= j < s.len() && s[j] == '}' {
            Some((Seq::empty(), j + 1))
        } else {
            members_at(s, j)
        }
    } else {
        None
    }
}

/// The objects of an array from the first one at `i` up to and including the closing
/// bracket.
pub open spec fn objects_at(s: Seq<char>, i: int) -> Option<(Seq<Seq<(Seq<char>, Scalar)>>, int)>
    decreases s.len() - i,
{
    match object_at(s, i) {
        Some((o, j)) => {
            let k = ws_end(s, j);
            if 0 <= k < s.len() && s[k] == ',' {
                let l = ws_end(s, k + 1);
                if i < l <= s.len() {
                    match objects_at(s, l) {
                        Some((os, e)) => Some((seq![o] + os, e)),
                        None => None,
                    }
                } else {
                    None
                }
            } else if 0 <= k < s.len() && s[k] == ']' {
                Some((seq![o], k + 1))
            } else {
                None
            }
        },
        None => None,
    }
}

pub open spec fn array_at(s: Seq<char>, i: int) -> Option<(Seq<Seq<(Seq<char>, Scalar)>>, int)> {
    if 0 <= i < s.len() && s[i] == '[' {
        let j = ws_end(s, i + 1);
        if 0 <= j < s.len() && s[j] == ']' {
            Some((Seq::empty(), j + 1))
        } else {
            objects_at(s, j)
        }
    } else {
        None
    }
}

pub open spec fn port_key() -> Seq<char> {
    seq!['p', 'o', 'r', 't']
}

pub open spec fn target_port_key() -> Seq<char> {
    seq!['t', 'a', 'r', 'g', 'e', 't', 'P', 'o', 'r', 't']
}

/// The selector that a list of members stands for, when every value is a string.
pub open spec fn selector_of(ms: Seq<(Seq<char>, Scalar)>) -> Option<Seq<(Seq<char>, Seq<char>)>> {
    if forall|k: int| 0 <= k < ms.len() ==> (#[trigger] ms[k]).1 is Str {
        Some(ms.map_values(|m: (Seq<char>, Scalar)| (m.0, m.1->Str_0)))
    } else {
        None
    }
}

/// How many members have the key `k`.
pub open spec fn key_count(ms: Seq<(Seq<char>, Scalar)>, k: Seq<char>) -> nat
    decreases ms.len(),
{
    if ms.len() == 0 {
        0
    } else {
        key_count(ms.drop_last(), k) + if ms.last().0 == k {
            1nat
        } else {
            0nat
        }
    }
}

/// The value of the last member with the key `k`.
pub open spec fn value_of(ms: Seq<(Seq<char>, Scalar)>, k: Seq<char>) -> Scalar
    decreases ms.len(),
{
    if ms.len() == 0 {
        Scalar::Int(0)
    } else if ms.last().0 == k {
        ms.last().1
    } else {
        value_of(ms.drop_last(), k)
    }
}

/// The port that an object stands for: one `port` key (an integer) and one `targetPort`
/// key (an integer or a string), in any order; other keys are ignored.
pub open spec fn port_of(ms: Seq<(Seq<char>, Scalar)>) -> Option<(int, Scalar)> {
    if key_count(ms, port_key()) == 1 && key_count(ms, target_port_key()) == 1 && value_of(
        ms,
        port_key(),
    ) is Int {
        Some((value_of(ms, port_key())->Int_0, value_of(ms, target_port_key())))
    } else {
        None
    }
}

pub open spec fn ports_of(os: Seq<Seq<(Seq<char>, Scalar)>>) -> Option<Seq<(int, Scalar)>> {
    if forall|k: int| 0 <= k < os.len() ==> port_of(#[trigger] os[k]) is Some {
        Some(os.map_values(|o: Seq<(Seq<char>, Scalar)>| port_of(o)->0))
    } else {
        None
    }
}

/// The selector that a stored-selector annotation holds.
pub open spec fn decode_selector_spec(s: Seq<char>) -> Option<Seq<(Seq<char>, Seq<char>)>> {
    match object_at(s, ws_end(s, 0)) {
        Some((ms, j)) => if ws_end(s, j) == s.len() {
            selector_of(ms)
        } else {
            None
        },
        None => None,
    }
}

/// The ports that a stored-ports annotation holds.
pub open spec fn decode_ports_spec(s: Seq<char>) -> Option<Seq<(int, Scalar)>> {
    match array_at(s, ws_end(s, 0)) {
        Some((os, j)) => if ws_end(s, j) == s.len() {
            ports_of(os)
        } else {
            None
        },
        None => None,
    }
}

/// A decoded JSON value, as the decoder produces it.
pub enum Token {
    Int(i32),
    Str(Vec<char>),
}

impl View for Token {
    type V = Scalar;

    open spec fn view(&self) -> Scalar {
        match self {
            Token::Int(n) => Scalar::Int(*n as int),
            Token::Str(v) => Scalar::Str(v@),
        }
    }
}

pub open spec fn member_view(m: (Vec<char>, Token)) -> (Seq<char>, Scalar) {
    (m.0@, m.1@)
}

pub open spec fn members_view(ms: Seq<(Vec<char>, Token)>) -> Seq<(Seq<char>, Scalar)> {
    ms.map_values(|m: (Vec<char>, Token)| member_view(m))
}

pub open spec fn objects_view(os: Seq<Vec<(Vec<char>, Token)>>) -> Seq<Seq<(Seq<char>, Scalar)>> {
    os.map_values(|o: Vec<(Vec<char>, Token)>| members_view(o@))
}

/// A result of a string parse, with `acc` put in front of the content.
pub open spec fn lift_str(acc: Seq<char>, r: Option<(Seq<char>, int)>) -> Option<(Seq<char>, int)> {
    match r {
        Some((v, k)) => Some((acc + v, k)),
        None => None,
    }
}

pub open spec fn lift_seq<A>(acc: Seq<A>, r: Option<(Seq<A>, int)>) -> Option<(Seq<A>, int)> {
    match r {
        Some((v, k)) => Some((acc + v, k)),
        None => None,
    }
}

proof fn lemma_lift_str(acc: Seq<char>, c: char, r: Option<(Seq<char>, int)>)
    ensures
        lift_str(acc, lift_str(seq![c], r)) == lift_str(acc.push(c), r),
{
    if let Some((v, k)) = r {
        assert(acc + (seq![c] + v) =~= acc.push(c) + v);
    }
}

proof fn lemma_lift_seq<A>(acc: Seq<A>, x: A, r: Option<(Seq<A>, int)>)
    ensures
        lift_seq(acc, lift_seq(seq![x], r)) == lift_seq(acc.push(x), r),
{
    if let Some((v, k)) = r {
        assert(acc + (seq![x] + v) =~= acc.push(x) + v);
    }
}

proof fn lemma_digits_end(s: Seq<char>, i: int)
    requires
        0 <= i <= s.len(),
    ensures
        i <= digits_end(s, i) <= s.len(),
        all_digits(s.subrange(i, digits_end(s, i))),
        digits_end(s, i) < s.len() ==> !is_digit(s[digits_end(s, i)]),
    decreases s.len() - i,
{
    if i < s.len() && is_digit(s[i]) {
        lemma_digits_end(s, i + 1);
        let e = digits_end(s, i);
        assert forall|k: int| 0 <= k < e - i implies is_digit(#[trigger] s.subrange(i, e)[k]) by {
            if k > 0 {
                assert(s.subrange(i, e)[k] == s.subrange(i + 1, e)[k - 1]);
            }
        }
    }
}

fn is_ws_char(c: char) -> (r: bool)
    ensures
        r == is_ws(c),
{
    c == ' ' || c == '\t' || c == '\n' || c == '\r'
}

fn skip_ws(s: &Vec<char>, i: usize) -> (r: usize)
    requires
        i <= s@.len(),
    ensures
        r as int == ws_end(s@, i as int),
        i <= r <= s@.len(),
{
    let mut j = i;
    while j < s.len() && is_ws_char(s[j])
        invariant
            i <= j <= s@.len(),
            ws_end(s@, i as int) == ws_end(s@, j as int),
        decreases s@.len() - j,
    {
        j = j + 1;
    }
    j
}

fn skip_digits(s: &Vec<char>, i: usize) -> (r: usize)
    requires
        i <= s@.len(),
    ensures
        r as int == digits_end(s@, i as int),
        i <= r <= s@.len(),
{
    let mut j = i;
    while j < s.len() && is_digit_char(s[j])
        invariant
            i <= j <= s@.len(),
            digits_end(s@, i as int) == digits_end(s@, j as int),
        decreases s@.len() - j,
    {
        j = j + 1;
    }
    j
}

fn hex_val(c: char) -> (r: Option<u32>)
    ensures
        match hex_value(c) {
            Some(v) => r == Some(v as u32) && 0 <= v < 16,
            None => r is None,
        },
{
    if '0' <= c && c <= '9' {
        Some(c as u32 - '0' as u32)
    } else if 'a' <= c && c <= 'f' {
        Some(c as u32 - 'a' as u32 + 10)
    } else if 'A' <= c && c <= 'F' {
        Some(c as u32 - 'A' as u32 + 10)
    } else {
        None
    }
}

/// Relies on `char::from_u32`: the character of a Unicode scalar value, and `None` for
/// any other number.
#[verifier::external_body]
fn char_from_u32(v: u32) -> (r: Option<char>)
    ensures
        (v < 0xD800 || (0xE000 <= v && v <= 0x10FFFF)) ==> r == Some(v as char),
        !(v < 0xD800 || (0xE000 <= v && v <= 0x10FFFF)) ==> r is None,
{
    char::from_u32(v)
}

fn read_hex4(s: &Vec<char>, i: usize) -> (r: Option<u32>)
    requires
        i <= s@.len(),
    ensures
        match hex4(s@, i as int) {
            Some(v) => r == Some(v as u32) && 0 <= v < 0x10000,
            None => r is None,
        },
{
    if s.len() < 4 || i > s.len() - 4 {
        return None;
    }
    let h0 = hex_val(s[i]);
    let h1 = hex_val(s[i + 1]);
    let h2 = hex_val(s[i + 2]);
    let h3 = hex_val(s[i + 3]);
    match (h0, h1, h2, h3) {
        (Some(a), Some(b), Some(d), Some(e)) => Some(a * 4096 + b * 256 + d * 16 + e),
        _ => None,
    }
}

fn parse_escape(s: &Vec<char>, i: usize) -> (r: Option<(char, usize)>)
    requires
        i <= s@.len(),
    ensures
        match escaped(s@, i as int) {
            Some((c, j)) => r == Some((c, j as usize)) && i < j <= s@.len(),
            None => r is None,
        },
{
    if i >= s.len() {
        return None;
    }
    let c = s[i];
    if c == '"' {
        Some(('"', i + 1))
    } else if c == '\\' {
        Some(('\\', i + 1))
    } else if c == '/' {
        Some(('/', i + 1))
    } else if c == 'b' {
        Some(('\x08', i + 1))
    } else if c == 'f' {
        Some(('\x0c', i + 1))
    } else if c == 'n' {
        Some(('\n', i + 1))
    } else if c == 'r' {
        Some(('\r', i + 1))
    } else if c == 't' {
        Some(('\t', i + 1))
    } else if c == 'u' {
        let v = match read_hex4(s, i + 1) {
            Some(v) => v,
            None => {
                return None;
            },
        };
        if v < 0xD800 || v >= 0xE000 {
            return match char_from_u32(v) {
                Some(ch) => Some((ch, i + 5)),
                None => None,
            };
        }
        if !(v < 0xDC00 && s.len() - i > 6 && s[i + 5] == '\\' && s[i + 6] == 'u') {
            return None;
        }
        let w = match read_hex4(s, i + 7) {
            Some(w) => w,
            None => {
                return None;
            },
        };
        if !(0xDC00 <= w && w < 0xE000) {
            return None;
        }
        match char_from_u32(0x10000 + (v - 0xD800) * 0x400 + (w - 0xDC00)) {
            Some(ch) => Some((ch, i + 11)),
            None => None,
        }
    } else {
        None
    }
}

/// Reads the rest of a string literal whose opening quote is just before `i`.
fn parse_str_body(s: &Vec<char>, i: usize) -> (r: Option<(Vec<char>, usize)>)
    requires
        i <= s@.len(),
    ensures
        match str_body(s@, i as int) {
            Some((v, k)) => r matches Some((w, e)) && w@ == v && e == k && i < e <= s@.len(),
            None => r is None,
        },
{
    let mut acc: Vec<char> = Vec::new();
    let mut j = i;
    loop
        invariant
            i <= j <= s@.len(),
            lift_str(acc@, str_body(s@, j as int)) == str_body(s@, i as int),
        decreases s@.len() - j,
    {
        if j >= s.len() {
            return None;
        }
        let c = s[j];
        if c == '"' {
            assert(acc@ + Seq::<char>::empty() =~= acc@);
            return Some((acc, j + 1));
        } else if c == '\\' {
            match parse_escape(s, j + 1) {
                Some((ch, k)) => {
                    proof {
                        lemma_lift_str(acc@, ch, str_body(s@, k as int));
                    }
                    acc.push(ch);
                    j = k;
                },
                None => {
                    return None;
                },
            }
        } else if (c as u32) < 0x20 {
            return None;
        } else {
            proof {
                lemma_lift_str(acc@, c, str_body(s@, j + 1));
            }
            acc.push(c);
            j = j + 1;
        }
    }
}

fn parse_int_token(s: &Vec<char>, i: usize) -> (r: Option<(i32, usize)>)
    requires
        i <= s@.len(),
    ensures
        match int_token(s@, i as int) {
            Some((v, k)) => r matches Some((x, y)) && x as int == v && y as int == k && i < k
                <= s@.len(),
            None => r is None,
        },
{
    let neg = i < s.len() && s[i] == '-';
    let d = if neg {
        i + 1
    } else {
        i
    };
    let e = skip_digits(s, d);
    proof {
        lemma_digits_end(s@, d as int);
    }
    if e == d {
        return None;
    }
    if s[d] == '0' && e > d + 1 {
        return None;
    }
    let ghost t = s@.subrange(d as int, e as int);
    let mut v: u64 = 0;
    let mut k: usize = d;
    while k < e
        invariant
            d <= k <= e <= s@.len(),
            neg == (0 <= i < s@.len() && s@[i as int] == '-'),
            d == if neg { i + 1 } else { i as int },
            e as int == digits_end(s@, d as int),
            e > d,
            !(s@[d as int] == '0' && e > d + 1),
            t == s@.subrange(d as int, e as int),
            all_digits(t),
            v as int == digits_value(t.take(k - d)),
            v <= 2147483648,
        decreases e - k,
    {
        let c = s[k];
        assert(t[k - d] == c);
        let dv = (c as u32 - '0' as u32) as u64;
        assert(t.take(k + 1 - d).drop_last() =~= t.take(k - d));
        v = v * 10 + dv;
        assert(t.take(k + 1 - d).last() == c);
        assert(v as int == digits_value(t.take(k + 1 - d)));
        if v > 2147483648 {
            proof {
                lemma_digits_value_prefix(t, k + 1 - d);
                assert(digits_value(t) > 2147483648);
                assert(digits_value(s@.subrange(d as int, e as int)) > 2147483648);
            }
            return None;
        }
        k = k + 1;
    }
    assert(t.take(k - d) =~= t);
    if neg {
        Some(((0 - (v as i64)) as i32, e))
    } else if v > 2147483647 {
        None
    } else {
        Some((v as i32, e))
    }
}

fn parse_scalar(s: &Vec<char>, i: usize) -> (r: Option<(Token, usize)>)
    requires
        i <= s@.len(),
    ensures
        match scalar_at(s@, i as int) {
            Some((v, k)) => r matches Some((t, e)) && t@ == v && e == k && i < e <= s@.len(),
            None => r is None,
        },
{
    if i < s.len() && s[i] == '"' {
        match parse_str_body(s, i + 1) {
            Some((v, j)) => Some((Token::Str(v), j)),
            None => None,
        }
    } else {
        match parse_int_token(s, i) {
            Some((v, j)) => Some((Token::Int(v), j)),
            None => None,
        }
    }
}

fn parse_member(s: &Vec<char>, i: usize) -> (r: Option<((Vec<char>, Token), usize)>)
    requires
        i <= s@.len(),
    ensures
        match member_at(s@, i as int) {
            Some((m, k)) => r matches Some((t, e)) && member_view(t) == m && e == k && i < e
                <= s@.len(),
            None => r is None,
        },
{
    if i < s.len() && s[i] == '"' {
        match parse_str_body(s, i + 1) {
            Some((key, j)) => {
                let c = skip_ws(s, j);
                if c < s.len() && s[c] == ':' {
                    let b = skip_ws(s, c + 1);
                    match parse_scalar(s, b) {
                        Some((v, e)) => Some(((key, v), e)),
                        None => None,
                    }
                } else {
                    None
                }
            },
            None => None,
        }
    } else {
        None
    }
}

fn parse_members(s: &Vec<char>, i: usize) -> (r: Option<(Vec<(Vec<char>, Token)>, usize)>)
    requires
        i <= s@.len(),
    ensures
        match members_at(s@, i as int) {
            Some((ms, k)) => r matches Some((t, e)) && members_view(t@) == ms && e == k && i < e
                <= s@.len(),
            None => r is None,
        },
{
    let mut acc: Vec<(Vec<char>, Token)> = Vec::new();
    let mut j = i;
    loop
        invariant
            i <= j <= s@.len(),
            lift_seq(members_view(acc@), members_at(s@, j as int)) == members_at(s@, i as int),
        decreases s@.len() - j,
    {
        match parse_member(s, j) {
            Some((m, e)) => {
                let k = skip_ws(s, e);
                if k < s.len() && s[k] == ',' {
                    let l = skip_ws(s, k + 1);
                    let ghost before = acc@;
                    let ghost mv = member_view(m);
                    proof {
                        lemma_lift_seq(members_view(acc@), mv, members_at(s@, l as int));
                    }
                    acc.push(m);
                    assert(members_view(acc@) =~= members_view(before).push(mv));
                    j = l;
                } else if k < s.len() && s[k] == '}' {
                    let ghost before = acc@;
                    let ghost mv = member_view(m);
                    acc.push(m);
                    assert(members_view(acc@) =~= members_view(before).push(mv));
                    assert(members_view(before) + seq![mv] =~= members_view(acc@));
                    return Some((acc, k + 1));
                } else {
                    return None;
                }
            },
            None => {
                return None;
            },
        }
    }
}

fn parse_object(s: &Vec<char>, i: usize) -> (r: Option<(Vec<(Vec<char>, Token)>, usize)>)
    requires
        i <= s@.len(),
    ensures
        match object_at(s@, i as int) {
            Some((ms, k)) => r matches Some((t, e)) && members_view(t@) == ms && e == k && i < e
                <= s@.len(),
            None => r is None,
        },
{
    if i < s.len() && s[i] == '{' {
        let j = skip_ws(s, i + 1);
        if j < s.len() && s[j] == '}' {
            let t: Vec<(Vec<char>, Token)> = Vec::new();
            assert(members_view(t@) =~= Seq::empty());
            Some((t, j + 1))
        } else {
            parse_members(s, j)
        }
    } else {
        None
    }
}

fn parse_objects(s: &Vec<char>, i: usize) -> (r: Option<(Vec<Vec<(Vec<char>, Token)>>, usize)>)
    requires
        i <= s@.len(),
    ensures
        match objects_at(s@, i as int) {
            Some((os, k)) => r matches Some((t, e)) && objects_view(t@) == os && e == k && i < e
                <= s@.len(),
            None => r is None,
        },
{
    let mut acc: Vec<Vec<(Vec<char>, Token)>> = Vec::new();
    let mut j = i;
    loop
        invariant
            i <= j <= s@.len(),
            lift_seq(objects_view(acc@), objects_at(s@, j as int)) == objects_at(s@, i as int),
        decreases s@.len() - j,
    {
        match parse_object(s, j) {
            Some((o, e)) => {
                let k = skip_ws(s, e);
                if k < s.len() && s[k] == ',' {
                    let l = skip_ws(s, k + 1);
                    let ghost before = acc@;
                    let ghost ov = members_view(o@);
                    proof {
                        lemma_lift_seq(objects_view(acc@), ov, objects_at(s@, l as int));
                    }
                    acc.push(o);
                    assert(objects_view(acc@) =~= objects_view(before).push(ov));
                    j = l;
                } else if k < s.len() && s[k] == ']' {
                    let ghost before = acc@;
                    let ghost ov = members_view(o@);
                    acc.push(o);
                    assert(objects_view(acc@) =~= objects_view(before).push(ov));
                    assert(objects_view(before) + seq![ov] =~= objects_view(acc@));
                    return Some((acc, k + 1));
                } else {
                    return None;
                }
            },
            None => {
                return None;
            },
        }
    }
}

fn parse_array(s: &Vec<char>, i: usize) -> (r: Option<(Vec<Vec<(Vec<char>, Token)>>, usize)>)
    requires
        i <= s@.len(),
    ensures
        match array_at(s@, i as int) {
            Some((os, k)) => r matches Some((t, e)) && objects_view(t@) == os && e == k && i < e
                <= s@.len(),
            None => r is None,
        },
{
    if i < s.len() && s[i] == '[' {
        let j = skip_ws(s, i + 1);
        if j < s.len() && s[j] == ']' {
            let t: Vec<Vec<(Vec<char>, Token)>> = Vec::new();
            assert(objects_view(t@) =~= Seq::empty());
            Some((t, j + 1))
        } else {
            parse_objects(s, j)
        }
    } else {
        None
    }
}

fn is_port_key(v: &Vec<char>) -> (r: bool)
    ensures
        r == (v@ == port_key()),
{
    if v.len() == 4 && v[0] == 'p' && v[1] == 'o' && v[2] == 'r' && v[3] == 't' {
        assert(v@ =~= port_key());
        true
    } else {
        false
    }
}

fn is_target_port_key(v: &Vec<char>) -> (r: bool)
    ensures
        r == (v@ == target_port_key()),
{
    if v.len() == 10 && v[0] == 't' && v[1] == 'a' && v[2] == 'r' && v[3] == 'g' && v[4] == 'e'
        && v[5] == 't' && v[6] == 'P' && v[7] == 'o' && v[8] == 'r' && v[9] == 't' {
        assert(v@ =~= target_port_key());
        true
    } else {
        false
    }
}

fn target_of(t: &Token) -> (r: TargetPort)
    ensures
        r@ == t@,
{
    match t {
        Token::Int(n) => TargetPort::Number(*n),
        Token::Str(v) => TargetPort::Name(string_of(v)),
    }
}

fn port_from_members(ms: &Vec<(Vec<char>, Token)>) -> (r: Option<ServicePort>)
    ensures
        match port_of(members_view(ms@)) {
            Some(p) => r matches Some(q) && q@ == p,
            None => r is None,
        },
{
    let ghost mv = members_view(ms@);
    let mut cp: usize = 0;
    let mut ct: usize = 0;
    let mut pi: usize = 0;
    let mut ti: usize = 0;
    let mut k: usize = 0;
    while k < ms.len()
        invariant
            k <= ms@.len(),
            mv == members_view(ms@),
            cp <= k && ct <= k,
            cp == key_count(mv.take(k as int), port_key()),
            ct == key_count(mv.take(k as int), target_port_key()),
            cp > 0 ==> pi < k && value_of(mv.take(k as int), port_key()) == mv[pi as int].1,
            ct > 0 ==> ti < k && value_of(mv.take(k as int), target_port_key()) == mv[ti as int].1,
        decreases ms@.len() - k,
    {
        let ghost t = mv.take(k + 1);
        assert(t.drop_last() =~= mv.take(k as int));
        assert(t.last() == mv[k as int]);
        assert(mv[k as int] == member_view(ms@[k as int]));
        if is_port_key(&ms[k].0) {
            cp = cp + 1;
            pi = k;
        }
        if is_target_port_key(&ms[k].0) {
            ct = ct + 1;
            ti = k;
        }
        k = k + 1;
    }
    assert(mv.take(k as int) =~= mv);
    if cp != 1 || ct != 1 {
        return None;
    }
    assert(mv[pi as int] == member_view(ms@[pi as int]));
    assert(mv[ti as int] == member_view(ms@[ti as int]));
    match &ms[pi].1 {
        Token::Int(n) => Some(ServicePort { port: *n, target_port: target_of(&ms[ti].1) }),
        Token::Str(_) => None,
    }
}

/// Reads a stored-selector annotation.
pub fn decode_selector(text: &str) -> (r: Option<StrMap>)
    ensures
        r is Some <==> decode_selector_spec(text@) is Some,
        r matches Some(m) ==> m.wf() && m@ == map_of(decode_selector_spec(text@)->0),
{
    let s = chars_of(text);
    let i = skip_ws(&s, 0);
    let (ms, j) = match parse_object(&s, i) {
        Some(x) => x,
        None => {
            return None;
        },
    };
    if skip_ws(&s, j) != s.len() {
        return None;
    }
    let ghost mv = members_view(ms@);
    assert(decode_selector_spec(text@) == selector_of(mv));
    let mut pairs: Vec<(String, String)> = Vec::new();
    let mut k: usize = 0;
    while k < ms.len()
        invariant
            k <= ms@.len(),
            mv == members_view(ms@),
            forall|a: int| 0 <= a < k ==> (#[trigger] mv[a]).1 is Str,
            pairs@.len() == k,
            forall|a: int| 0 <= a < k ==> #[trigger] pair_view(pairs@[a]) == (mv[a].0, mv[a].1->Str_0),
            decode_selector_spec(text@) == selector_of(mv),
        decreases ms@.len() - k,
    {
        assert(mv[k as int] == member_view(ms@[k as int]));
        match &ms[k].1 {
            Token::Str(v) => {
                let key = string_of(&ms[k].0);
                let value = string_of(v);
                pairs.push((key, value));
            },
            Token::Int(_) => {
                assert(!(mv[k as int].1 is Str));
                return None;
            },
        }
        k = k + 1;
    }
    let ghost sel = mv.map_values(|m: (Seq<char>, Scalar)| (m.0, m.1->Str_0));
    assert(pairs@.map_values(|p: (String, String)| pair_view(p)) =~= sel);
    Some(StrMap::from_pairs(pairs))
}

/// Reads a stored-ports annotation.
pub fn decode_ports(text: &str) -> (r: Option<Vec<ServicePort>>)
    ensures
        r is Some <==> decode_ports_spec(text@) is Some,
        r matches Some(ps) ==> ports_view(ps@) == decode_ports_spec(text@)->0,
{
    let s = chars_of(text);
    let i = skip_ws(&s, 0);
    let (os, j) = match parse_array(&s, i) {
        Some(x) => x,
        None => {
            return None;
        },
    };
    if skip_ws(&s, j) != s.len() {
        return None;
    }
    let ghost ov = objects_view(os@);
    assert(decode_ports_spec(text@) == ports_of(ov));
    let mut ports: Vec<ServicePort> = Vec::new();
    let mut k: usize = 0;
    while k < os.len()
        invariant
            k <= os@.len(),
            ov == objects_view(os@),
            forall|a: int| 0 <= a < k ==> port_of(#[trigger] ov[a]) is Some,
            ports@.len() == k,
            forall|a: int| 0 <= a < k ==> (#[trigger] ports@[a])@ == port_of(ov[a])->0,
            decode_ports_spec(text@) == ports_of(ov),
        decreases os@.len() - k,
    {
        assert(ov[k as int] == members_view(os@[k as int]@));
        match port_from_members(&os[k]) {
            Some(p) => {
                ports.push(p);
            },
            None => {
                assert(port_of(ov[k as int]) is None);
                return None;
            },
        }
        k = k + 1;
    }
    assert(ports_view(ports@) =~= ov.map_values(|o: Seq<(Seq<char>, Scalar)>| port_of(o)->0));
    Some(ports)
}

/// How one character is written inside a string literal: quote, backslash and control
/// characters are escaped, everything else stands as it is.
pub open spec fn escape_char(c: char) -> Seq<char> {
    if c == '"' {
        seq!['\\', '"']
    } else if c == '\\' {
        seq!['\\', '\\']
    } else if c == '\n' {
        seq!['\\', 'n']
    } else if c == '\r' {
        seq!['\\', 'r']
    } else if c == '\t' {
        seq!['\\', 't']
    } else if c == '\x08' {
        seq!['\\', 'b']
    } else if c == '\x0c' {
        seq!['\\', 'f']
    } else if (c as u32) < 0x20 {
        seq!['\\', 'u', '0', '0', hex_digit((c as u32) as int / 16), hex_digit((c as u32) as int % 16)]
    } else {
        seq![c]
    }
}

pub open spec fn escape_chars(s: Seq<char>) -> Seq<char>
    decreases s.len(),
{
    if s.len() == 0 {
        Seq::empty()
    } else {
        escape_chars(s.drop_last()) + escape_char(s.last())
    }
}

pub open spec fn quoted(s: Seq<char>) -> Seq<char> {
    seq!['"'] + escape_chars(s) + seq!['"']
}

pub open spec fn enc_pair(p: (Seq<char>, Seq<char>)) -> Seq<char> {
    quoted(p.0) + seq![':'] + quoted(p.1)
}

pub open spec fn enc_pairs(ps: Seq<(Seq<char>, Seq<char>)>) -> Seq<char>
    decreases ps.len(),
{
    if ps.len() == 0 {
        Seq::empty()
    } else if ps.len() == 1 {
        enc_pair(ps[0])
    } else {
        enc_pairs(ps.drop_last()) + seq![','] + enc_pair(ps.last())
    }
}

/// The compact JSON object of a selector, entries in order.
pub open spec fn encode_selector_spec(ps: Seq<(Seq<char>, Seq<char>)>) -> Seq<char> {
    seq!['{'] + enc_pairs(ps) + seq!['}']
}

pub open spec fn enc_scalar(v: Scalar) -> Seq<char> {
    match v {
        Scalar::Int(n) => decimal_int(n),
        Scalar::Str(t) => quoted(t),
    }
}

pub open spec fn port_head() -> Seq<char> {
    seq!['{', '"', 'p', 'o', 'r', 't', '"', ':']
}

pub open spec fn target_head() -> Seq<char> {
    seq![',', '"', 't', 'a', 'r', 'g', 'e', 't', 'P', 'o', 'r', 't', '"', ':']
}

pub open spec fn enc_port(p: (int, Scalar)) -> Seq<char> {
    port_head() + decimal_int(p.0) + target_head() + enc_scalar(p.1) + seq!['}']
}

pub open spec fn enc_port_list(ps: Seq<(int, Scalar)>) -> Seq<char>
    decreases ps.len(),
{
    if ps.len() == 0 {
        Seq::empty()
    } else if ps.len() == 1 {
        enc_port(ps[0])
    } else {
        enc_port_list(ps.drop_last()) + seq![','] + enc_port(ps.last())
    }
}

/// The compact JSON array of a list of ports, in order.
pub open spec fn encode_ports_spec(ps: Seq<(int, Scalar)>) -> Seq<char> {
    seq!['['] + enc_port_list(ps) + seq![']']
}

fn hex_char(d: u32) -> (c: char)
    requires
        d < 16,
    ensures
        c == hex_digit(d as int),
{
    match d {
        0 => '0',
        1 => '1',
        2 => '2',
        3 => '3',
        4 => '4',
        5 => '5',
        6 => '6',
        7 => '7',
        8 => '8',
        9 => '9',
        10 => 'a',
        11 => 'b',
        12 => 'c',
        13 => 'd',
        14 => 'e',
        _ => 'f',
    }
}

fn push_escaped(c: char, out: &mut Vec<char>)
    ensures
        final(out)@ == old(out)@ + escape_char(c),
{
    let ghost start = out@;
    if c == '"' {
        out.push('\\');
        out.push('"');
    } else if c == '\\' {
        out.push('\\');
        out.push('\\');
    } else if c == '\n' {
        out.push('\\');
        out.push('n');
    } else if c == '\r' {
        out.push('\\');
        out.push('r');
    } else if c == '\t' {
        out.push('\\');
        out.push('t');
    } else if c == '\x08' {
        out.push('\\');
        out.push('b');
    } else if c == '\x0c' {
        out.push('\\');
        out.push('f');
    } else if (c as u32) < 0x20 {
        let v = c as u32;
        out.push('\\');
        out.push('u');
        out.push('0');
        out.push('0');
        out.push(hex_char(v / 16));
        out.push(hex_char(v % 16));
    } else {
        out.push(c);
    }
    assert(out@ =~= start + escape_char(c));
}

fn push_quoted(s: &String, out: &mut Vec<char>)
    ensures
        final(out)@ == old(out)@ + quoted(s@),
{
    let cs = chars_of(s.as_str());
    let ghost start = out@;
    out.push('"');
    let mut k: usize = 0;
    while k < cs.len()
        invariant
            k <= cs@.len(),
            cs@ == s@,
            out@ == start + seq!['"'] + escape_chars(cs@.take(k as int)),
        decreases cs@.len() - k,
    {
        assert(cs@.take(k + 1).drop_last() =~= cs@.take(k as int));
        push_escaped(cs[k], out);
        assert(out@ =~= start + seq!['"'] + escape_chars(cs@.take(k + 1)));
        k = k + 1;
    }
    out.push('"');
    assert(cs@.take(k as int) =~= cs@);
    assert(out@ =~= start + quoted(s@));
}

fn push_chars(out: &mut Vec<char>, cs: &[char])
    ensures
        final(out)@ == old(out)@ + cs@,
{
    let ghost start = out@;
    let mut k: usize = 0;
    while k < cs.len()
        invariant
            k <= cs@.len(),
            out@ == start + cs@.take(k as int),
        decreases cs@.len() - k,
    {
        out.push(cs[k]);
        assert(cs@.take(k + 1) =~= cs@.take(k as int).push(cs@[k as int]));
        k = k + 1;
    }
    assert(cs@.take(k as int) =~= cs@);
}

/// Writes a selector as the compact JSON object that the stored-selector annotation holds.
pub fn encode_selector(m: &StrMap) -> (r: String)
    ensures
        r@ == encode_selector_spec(m.pairs()),
{
    let ghost ps = m.pairs();
    let mut out: Vec<char> = Vec::new();
    out.push('{');
    let mut k: usize = 0;
    while k < m.entries.len()
        invariant
            k <= m.entries@.len(),
            ps == m.pairs(),
            out@ == seq!['{'] + enc_pairs(ps.take(k as int)),
        decreases m.entries@.len() - k,
    {
        let ghost before = out@;
        if k > 0 {
            out.push(',');
        }
        push_quoted(&m.entries[k].0, &mut out);
        out.push(':');
        push_quoted(&m.entries[k].1, &mut out);
        proof {
            let t = ps.take(k + 1);
            assert(t.drop_last() =~= ps.take(k as int));
            assert(t.last() == pair_view(m.entries@[k as int]));
            if k == 0 {
                assert(out@ =~= seq!['{'] + enc_pair(t[0]));
            } else {
                assert(out@ =~= before + seq![','] + enc_pair(t.last()));
            }
        }
        k = k + 1;
    }
    out.push('}');
    assert(ps.take(k as int) =~= ps);
    assert(out@ =~= encode_selector_spec(ps));
    string_of(&out)
}

fn push_port(p: &ServicePort, out: &mut Vec<char>)
    ensures
        final(out)@ == old(out)@ + enc_port(p@),
{
    let ghost start = out@;
    let head = ['{', '"', 'p', 'o', 'r', 't', '"', ':'];
    assert(head@ =~= port_head());
    push_chars(out, &head);
    push_decimal_i32(p.port, out);
    let tail = [',', '"', 't', 'a', 'r', 'g', 'e', 't', 'P', 'o', 'r', 't', '"', ':'];
    assert(tail@ =~= target_head());
    push_chars(out, &tail);
    let ghost mid = out@;
    match &p.target_port {
        TargetPort::Number(n) => push_decimal_i32(*n, out),
        TargetPort::Name(name) => push_quoted(name, out),
    }
    assert(out@ =~= mid + enc_scalar(p.target_port@));
    out.push('}');
    assert(out@ =~= start + enc_port(p@));
}

/// Writes a list of ports as the compact JSON array that the stored-ports annotation holds.
pub fn encode_ports(ps: &Vec<ServicePort>) -> (r: String)
    ensures
        r@ == encode_ports_spec(ports_view(ps@)),
{
    let ghost pv = ports_view(ps@);
    let mut out: Vec<char> = Vec::new();
    out.push('[');
    let mut k: usize = 0;
    while k < ps.len()
        invariant
            k <= ps@.len(),
            pv == ports_view(ps@),
            out@ == seq!['['] + enc_port_list(pv.take(k as int)),
        decreases ps@.len() - k,
    {
        let ghost before = out@;
        if k > 0 {
            out.push(',');
        }
        push_port(&ps[k], &mut out);
        proof {
            let t = pv.take(k + 1);
            assert(t.drop_last() =~= pv.take(k as int));
            assert(t.last() == ps@[k as int]@);
            if k == 0 {
                assert(out@ =~= seq!['['] + enc_port(t[0]));
            } else {
                assert(out@ =~= before + seq![','] + enc_port(t.last()));
            }
        }
        k = k + 1;
    }
    out.push(']');
    assert(pv.take(k as int) =~= pv);
    assert(out@ =~= encode_ports_spec(pv));
    string_of(&out)
}

proof fn lemma_split(s: Seq<char>, i: int, a: Seq<char>, b: Seq<char>)
    requires
        0 <= i,
        i + a.len() + b.len() <= s.len(),
        s.subrange(i, i + a.len() + b.len()) == a + b,
    ensures
        s.subrange(i, i + a.len()) == a,
        s.subrange(i + a.len(), i + a.len() + b.len()) == b,
{
    assert(s.subrange(i, i + a.len()) =~= (a + b).subrange(0, a.len() as int));
    assert(s.subrange(i + a.len(), i + a.len() + b.len()) =~= (a + b).subrange(
        a.len() as int,
        (a.len() + b.len()) as int,
    ));
}

proof fn lemma_at(s: Seq<char>, i: int, a: Seq<char>, k: int)
    requires
        0 <= i,
        i + a.len() <= s.len(),
        s.subrange(i, i + a.len()) == a,
        0 <= k < a.len(),
    ensures
        s[i + k] == a[k],
{
    assert(s.subrange(i, i + a.len())[k] == s[i + k]);
}

proof fn lemma_hex(d: int)
    requires
        0 <= d < 16,
    ensures
        hex_value(hex_digit(d)) == Some(d),
{
}

proof fn lemma_escape_front(v: Seq<char>)
    requires
        v.len() >= 1,
    ensures
        escape_chars(v) == escape_char(v[0]) + escape_chars(v.drop_first()),
    decreases v.len(),
{
    if v.len() == 1 {
        assert(v.drop_last() =~= Seq::<char>::empty());
        assert(v.drop_first() =~= Seq::<char>::empty());
        assert(escape_chars(v) =~= escape_char(v[0]) + escape_chars(v.drop_first()));
    } else {
        lemma_escape_front(v.drop_last());
        assert(v.drop_last().drop_first() =~= v.drop_first().drop_last());
        assert(v.drop_first().last() == v.last());
        assert(escape_chars(v) =~= escape_char(v[0]) + escape_chars(v.drop_first()));
    }
}

/// A string literal body written by `escape_chars` and closed by a quote reads back as
/// the same characters.
proof fn lemma_str_round(s: Seq<char>, i: int, v: Seq<char>)
    requires
        0 <= i,
        i + escape_chars(v).len() + 1 <= s.len(),
        s.subrange(i, i + escape_chars(v).len() + 1) == escape_chars(v) + seq!['"'],
    ensures
        str_body(s, i) == Some((v, i + escape_chars(v).len() + 1)),
    decreases v.len(),
{
    let ev = escape_chars(v);
    if v.len() == 0 {
        lemma_at(s, i, ev + seq!['"'], 0);
        assert(v =~= Seq::<char>::empty());
    } else {
        lemma_escape_front(v);
        let c = v[0];
        let e0 = escape_char(c);
        let rest = escape_chars(v.drop_first());
        assert(ev + seq!['"'] =~= e0 + (rest + seq!['"']));
        lemma_split(s, i, e0, rest + seq!['"']);
        let n0 = e0.len() as int;
        lemma_str_round(s, i + n0, v.drop_first());
        assert(seq![c] + v.drop_first() =~= v);
        let end = i + ev.len() + 1;
        assert(str_body(s, i + n0) == Some((v.drop_first(), end)));
        lemma_at(s, i, e0, 0);
        if e0.len() >= 2 {
            lemma_at(s, i, e0, 1);
        }
        if c == '"' || c == '\\' || c == '\n' || c == '\r' || c == '\t' || c == '\x08' || c
            == '\x0c' {
            assert(escaped(s, i + 1) == Some((c, i + 2)));
        } else if (c as u32) < 0x20 {
            let cp = (c as u32) as int;
            lemma_at(s, i, e0, 2);
            lemma_at(s, i, e0, 3);
            lemma_at(s, i, e0, 4);
            lemma_at(s, i, e0, 5);
            lemma_hex(cp / 16);
            lemma_hex(cp % 16);
            lemma_hex(0);
            assert(hex4(s, i + 2) == Some(cp));
            vstd::utf8::char_u32_cast(c, c as u32);
            assert(((cp as u32) as char) == c);
            assert(escaped(s, i + 1) == Some((c, i + 6)));
        } else {
            assert(e0 == seq![c]);
        }
    }
}

proof fn lemma_decimal_lead(m: nat)
    ensures
        decimal(m)[0] == '0' ==> m == 0,
        m == 0 ==> decimal(m).len() == 1,
    decreases m,
{
    if m >= 10 {
        lemma_decimal_lead(m / 10);
        assert(decimal(m)[0] == decimal(m / 10)[0]);
    }
}

proof fn lemma_digits_end_exact(s: Seq<char>, d: int, n: int)
    requires
        0 <= d,
        0 <= n,
        d + n <= s.len(),
        all_digits(s.subrange(d, d + n)),
        d + n < s.len() ==> !is_digit(s[d + n]),
    ensures
        digits_end(s, d) == d + n,
    decreases n,
{
    if n > 0 {
        assert(s.subrange(d, d + n)[0] == s[d]);
        assert forall|k: int| 0 <= k < n - 1 implies is_digit(
            #[trigger] s.subrange(d + 1, d + n)[k],
        ) by {
            assert(s.subrange(d + 1, d + n)[k] == s.subrange(d, d + n)[k + 1]);
        }
        lemma_digits_end_exact(s, d + 1, n - 1);
    }
}

/// The decimal rendering of an `i32`, followed by a non-digit, reads back as the same
/// integer.
proof fn lemma_int_round(s: Seq<char>, i: int, n: int)
    requires
        i32::MIN <= n <= i32::MAX,
        0 <= i,
        i + decimal_int(n).len() < s.len(),
        s.subrange(i, i + decimal_int(n).len()) == decimal_int(n),
        !is_digit(s[i + decimal_int(n).len()]),
    ensures
        int_token(s, i) == Some((n, i + decimal_int(n).len())),
{
    let m: nat = if n < 0 {
        (-n) as nat
    } else {
        n as nat
    };
    let dm = decimal(m);
    lemma_decimal(m);
    lemma_decimal_lead(m);
    let d = if n < 0 {
        i + 1
    } else {
        i
    };
    if n < 0 {
        lemma_split(s, i, seq!['-'], dm);
        lemma_at(s, i, seq!['-'], 0);
    } else {
        lemma_at(s, i, dm, 0);
    }
    assert(s.subrange(d, d + dm.len()) == dm);
    lemma_digits_end_exact(s, d, dm.len() as int);
    lemma_at(s, d, dm, 0);
}

pub open spec fn as_members(ps: Seq<(Seq<char>, Seq<char>)>) -> Seq<(Seq<char>, Scalar)> {
    ps.map_values(|p: (Seq<char>, Seq<char>)| (p.0, Scalar::Str(p.1)))
}

proof fn lemma_enc_pairs_front(ps: Seq<(Seq<char>, Seq<char>)>)
    requires
        ps.len() >= 2,
    ensures
        enc_pairs(ps) == enc_pair(ps[0]) + seq![','] + enc_pairs(ps.drop_first()),
    decreases ps.len(),
{
    let dl = ps.drop_last();
    let df = ps.drop_first();
    assert(enc_pairs(ps) == enc_pairs(dl) + seq![','] + enc_pair(ps.last()));
    assert(df.last() == ps.last());
    assert(dl[0] == ps[0]);
    if ps.len() > 2 {
        lemma_enc_pairs_front(dl);
        assert(dl.drop_first() =~= df.drop_last());
        assert(enc_pairs(df) == enc_pairs(df.drop_last()) + seq![','] + enc_pair(df.last()));
        assert(enc_pairs(ps) =~= enc_pair(ps[0]) + seq![','] + enc_pairs(df));
    } else {
        assert(enc_pairs(dl) == enc_pair(dl[0]));
        assert(enc_pairs(df) == enc_pair(df[0]));
        assert(df[0] == ps.last());
        assert(enc_pairs(ps) =~= enc_pair(ps[0]) + seq![','] + enc_pairs(df));
    }
}

proof fn lemma_enc_port_list_front(ps: Seq<(int, Scalar)>)
    requires
        ps.len() >= 2,
    ensures
        enc_port_list(ps) == enc_port(ps[0]) + seq![','] + enc_port_list(ps.drop_first()),
    decreases ps.len(),
{
    let dl = ps.drop_last();
    let df = ps.drop_first();
    assert(enc_port_list(ps) == enc_port_list(dl) + seq![','] + enc_port(ps.last()));
    assert(df.last() == ps.last());
    assert(dl[0] == ps[0]);
    if ps.len() > 2 {
        lemma_enc_port_list_front(dl);
        assert(dl.drop_first() =~= df.drop_last());
        assert(enc_port_list(df) == enc_port_list(df.drop_last()) + seq![','] + enc_port(df.last()));
        assert(enc_port_list(ps) =~= enc_port(ps[0]) + seq![','] + enc_port_list(df));
    } else {
        assert(enc_port_list(dl) == enc_port(dl[0]));
        assert(enc_port_list(df) == enc_port(df[0]));
        assert(df[0] == ps.last());
        assert(enc_port_list(ps) =~= enc_port(ps[0]) + seq![','] + enc_port_list(df));
    }
}

/// A quoted string at `i`, as written by `quoted`.
proof fn lemma_quoted_round(s: Seq<char>, i: int, v: Seq<char>)
    requires
        0 <= i,
        i + quoted(v).len() <= s.len(),
        s.subrange(i, i + quoted(v).len()) == quoted(v),
    ensures
        s[i] == '"',
        str_body(s, i + 1) == Some((v, i + quoted(v).len())),
{
    assert(quoted(v) =~= seq!['"'] + (escape_chars(v) + seq!['"']));
    lemma_split(s, i, seq!['"'], escape_chars(v) + seq!['"']);
    lemma_at(s, i, seq!['"'], 0);
    lemma_str_round(s, i + 1, v);
}

proof fn lemma_member_round(s: Seq<char>, i: int, p: (Seq<char>, Seq<char>))
    requires
        0 <= i,
        i + enc_pair(p).len() <= s.len(),
        s.subrange(i, i + enc_pair(p).len()) == enc_pair(p),
    ensures
        member_at(s, i) == Some(((p.0, Scalar::Str(p.1)), i + enc_pair(p).len())),
{
    let qk = quoted(p.0);
    let qv = quoted(p.1);
    assert(enc_pair(p) =~= qk + (seq![':'] + qv));
    lemma_split(s, i, qk, seq![':'] + qv);
    lemma_split(s, i + qk.len(), seq![':'], qv);
    lemma_quoted_round(s, i, p.0);
    lemma_at(s, i + qk.len(), seq![':'], 0);
    lemma_quoted_round(s, i + qk.len() + 1, p.1);
}

proof fn lemma_members_round(s: Seq<char>, i: int, ps: Seq<(Seq<char>, Seq<char>)>)
    requires
        ps.len() >= 1,
        0 <= i,
        i + enc_pairs(ps).len() + 1 <= s.len(),
        s.subrange(i, i + enc_pairs(ps).len() + 1) == enc_pairs(ps) + seq!['}'],
    ensures
        members_at(s, i) == Some((as_members(ps), i + enc_pairs(ps).len() + 1)),
    decreases ps.len(),
{
    let e0 = enc_pair(ps[0]);
    if ps.len() == 1 {
        assert(enc_pairs(ps) == e0);
        lemma_split(s, i, e0, seq!['}']);
        lemma_member_round(s, i, ps[0]);
        lemma_at(s, i + e0.len(), seq!['}'], 0);
        assert(as_members(ps) =~= seq![(ps[0].0, Scalar::Str(ps[0].1))]);
    } else {
        lemma_enc_pairs_front(ps);
        let rest = enc_pairs(ps.drop_first());
        assert(enc_pairs(ps) + seq!['}'] =~= e0 + (seq![','] + (rest + seq!['}'])));
        lemma_split(s, i, e0, seq![','] + (rest + seq!['}']));
        lemma_split(s, i + e0.len(), seq![','], rest + seq!['}']);
        lemma_member_round(s, i, ps[0]);
        lemma_at(s, i + e0.len(), seq![','], 0);
        lemma_members_round(s, i + e0.len() + 1, ps.drop_first());
        lemma_escape_front_quote(ps.drop_first());
        assert(as_members(ps) =~= seq![(ps[0].0, Scalar::Str(ps[0].1))] + as_members(
            ps.drop_first(),
        ));
    }
}

/// The encoding of a non-empty list of pairs starts with a quote.
proof fn lemma_escape_front_quote(ps: Seq<(Seq<char>, Seq<char>)>)
    requires
        ps.len() >= 1,
    ensures
        enc_pairs(ps).len() >= 1,
        enc_pairs(ps)[0] == '"',
    decreases ps.len(),
{
    if ps.len() > 1 {
        lemma_escape_front_quote(ps.drop_last());
        assert(enc_pairs(ps)[0] == enc_pairs(ps.drop_last())[0]);
    } else {
        assert(enc_pair(ps[0])[0] == '"');
    }
}

/// Decoding the encoding of a selector gives back the same entries, in the same order.
pub proof fn lemma_selector_round_trip(ps: Seq<(Seq<char>, Seq<char>)>)
    ensures
        decode_selector_spec(encode_selector_spec(ps)) == Some(ps),
{
    let s = encode_selector_spec(ps);
    assert(s[0] == '{');
    if ps.len() == 0 {
        assert(s =~= seq!['{', '}']);
        assert(object_at(s, 0) == Some((Seq::<(Seq<char>, Scalar)>::empty(), 2int)));
        assert(Seq::<(Seq<char>, Scalar)>::empty().map_values(
            |m: (Seq<char>, Scalar)| (m.0, m.1->Str_0),
        ) =~= ps);
    } else {
        lemma_escape_front_quote(ps);
        assert(s.subrange(1, s.len() as int) =~= enc_pairs(ps) + seq!['}']);
        lemma_members_round(s, 1, ps);
        assert(s[1] == '"');
        assert(object_at(s, 0) == Some((as_members(ps), s.len() as int)));
        assert(as_members(ps).map_values(|m: (Seq<char>, Scalar)| (m.0, m.1->Str_0)) =~= ps);
    }
}

pub open spec fn scalar_ok(v: Scalar) -> bool {
    match v {
        Scalar::Int(n) => i32::MIN <= n <= i32::MAX,
        Scalar::Str(_) => true,
    }
}

pub open spec fn port_ok(p: (int, Scalar)) -> bool {
    i32::MIN <= p.0 <= i32::MAX && scalar_ok(p.1)
}

pub open spec fn port_members(p: (int, Scalar)) -> Seq<(Seq<char>, Scalar)> {
    seq![(port_key(), Scalar::Int(p.0)), (target_port_key(), p.1)]
}

proof fn lemma_piece(s: Seq<char>, i: int, whole: Seq<char>, o: int, x: Seq<char>)
    requires
        0 <= i,
        i + whole.len() <= s.len(),
        s.subrange(i, i + whole.len()) == whole,
        0 <= o,
        o + x.len() <= whole.len(),
        whole.subrange(o, o + x.len()) == x,
    ensures
        s.subrange(i + o, i + o + x.len()) == x,
{
    assert(s.subrange(i + o, i + o + x.len()) =~= whole.subrange(o, o + x.len()));
}

proof fn lemma_escape_plain(v: Seq<char>)
    requires
        forall|k: int| 0 <= k < v.len() ==> (#[trigger] v[k] != '"' && v[k] != '\\' && (v[k] as u32)
            >= 0x20),
    ensures
        escape_chars(v) == v,
    decreases v.len(),
{
    if v.len() > 0 {
        lemma_escape_plain(v.drop_last());
        assert(v.last() == v[v.len() - 1]);
        assert(escape_chars(v) =~= v);
    }
}

proof fn lemma_keys_quoted()
    ensures
        quoted(port_key()) == seq!['"', 'p', 'o', 'r', 't', '"'],
        quoted(target_port_key()) == seq!['"', 't', 'a', 'r', 'g', 'e', 't', 'P', 'o', 'r', 't', '"'],
{
    lemma_escape_plain(port_key());
    lemma_escape_plain(target_port_key());
    assert(quoted(port_key()) =~= seq!['"', 'p', 'o', 'r', 't', '"']);
    assert(quoted(target_port_key()) =~= seq![
        '"', 't', 'a', 'r', 'g', 'e', 't', 'P', 'o', 'r', 't', '"',
    ]);
}

proof fn lemma_scalar_round(s: Seq<char>, i: int, v: Scalar)
    requires
        scalar_ok(v),
        0 <= i,
        i + enc_scalar(v).len() < s.len(),
        s.subrange(i, i + enc_scalar(v).len()) == enc_scalar(v),
        !is_digit(s[i + enc_scalar(v).len()]),
    ensures
        scalar_at(s, i) == Some((v, i + enc_scalar(v).len())),
        ws_end(s, i) == i,
{
    match v {
        Scalar::Int(n) => {
            let m: nat = if n < 0 {
                (-n) as nat
            } else {
                n as nat
            };
            lemma_decimal(m);
            lemma_at(s, i, decimal_int(n), 0);
            if n >= 0 {
                assert(is_digit(decimal(m)[0]));
            }
            lemma_int_round(s, i, n);
        },
        Scalar::Str(t) => {
            lemma_quoted_round(s, i, t);
        },
    }
}

proof fn lemma_port_round(s: Seq<char>, i: int, p: (int, Scalar))
    requires
        port_ok(p),
        0 <= i,
        i + enc_port(p).len() <= s.len(),
        s.subrange(i, i + enc_port(p).len()) == enc_port(p),
    ensures
        object_at(s, i) == Some((port_members(p), i + enc_port(p).len())),
{
    lemma_keys_quoted();
    let w = enc_port(p);
    let qp = quoted(port_key());
    let qt = quoted(target_port_key());
    let d = decimal_int(p.0);
    let e = enc_scalar(p.1);
    assert(w =~= seq!['{'] + qp + seq![':'] + d + seq![','] + qt + seq![':'] + e + seq!['}']);
    let o3: int = 8;
    let o4: int = o3 + d.len();
    let o5: int = o4 + 1;
    let o7: int = o5 + 13;
    let o8: int = o7 + e.len();
    assert(w.len() == o8 + 1);
    assert(w.subrange(1, 7) =~= qp);
    lemma_piece(s, i, w, 1, qp);
    assert(w.subrange(o3, o3 + d.len()) =~= d);
    lemma_piece(s, i, w, o3, d);
    assert(w.subrange(o5, o5 + qt.len()) =~= qt);
    lemma_piece(s, i, w, o5, qt);
    assert(w.subrange(o7, o7 + e.len()) =~= e);
    lemma_piece(s, i, w, o7, e);
    lemma_at(s, i, w, 0);
    lemma_at(s, i, w, 1);
    lemma_at(s, i, w, 7);
    lemma_at(s, i, w, o4);
    lemma_at(s, i, w, o5);
    lemma_at(s, i, w, o7 - 1);
    lemma_at(s, i, w, o8);
    lemma_quoted_round(s, i + 1, port_key());
    lemma_scalar_round(s, i + o3, Scalar::Int(p.0));
    lemma_quoted_round(s, i + o5, target_port_key());
    lemma_scalar_round(s, i + o7, p.1);
    assert(member_at(s, i + o5) == Some(((target_port_key(), p.1), i + o8)));
    assert(members_at(s, i + o5) == Some((seq![(target_port_key(), p.1)], i + o8 + 1)));
    assert(member_at(s, i + 1) == Some(((port_key(), Scalar::Int(p.0)), i + o4)));
    assert(members_at(s, i + 1) == Some((port_members(p), i + o8 + 1))) by {
        assert(seq![(port_key(), Scalar::Int(p.0))] + seq![(target_port_key(), p.1)]
            =~= port_members(p));
    }
}

proof fn lemma_port_list_head(ps: Seq<(int, Scalar)>)
    requires
        ps.len() >= 1,
    ensures
        enc_port_list(ps).len() >= 1,
        enc_port_list(ps)[0] == '{',
    decreases ps.len(),
{
    if ps.len() > 1 {
        lemma_port_list_head(ps.drop_last());
        assert(enc_port_list(ps)[0] == enc_port_list(ps.drop_last())[0]);
    }
}

proof fn lemma_objects_round(s: Seq<char>, i: int, ps: Seq<(int, Scalar)>)
    requires
        ps.len() >= 1,
        forall|k: int| 0 <= k < ps.len() ==> port_ok(#[trigger] ps[k]),
        0 <= i,
        i + enc_port_list(ps).len() + 1 <= s.len(),
        s.subrange(i, i + enc_port_list(ps).len() + 1) == enc_port_list(ps) + seq![']'],
    ensures
        objects_at(s, i) == Some((
            ps.map_values(|p: (int, Scalar)| port_members(p)),
            i + enc_port_list(ps).len() + 1,
        )),
    decreases ps.len(),
{
    let e0 = enc_port(ps[0]);
    assert(port_ok(ps[0]));
    if ps.len() == 1 {
        assert(enc_port_list(ps) == e0);
        lemma_split(s, i, e0, seq![']']);
        lemma_port_round(s, i, ps[0]);
        lemma_at(s, i + e0.len(), seq![']'], 0);
        assert(ps.map_values(|p: (int, Scalar)| port_members(p)) =~= seq![port_members(ps[0])]);
    } else {
        lemma_enc_port_list_front(ps);
        let rest = enc_port_list(ps.drop_first());
        assert(enc_port_list(ps) + seq![']'] =~= e0 + (seq![','] + (rest + seq![']'])));
        lemma_split(s, i, e0, seq![','] + (rest + seq![']']));
        lemma_split(s, i + e0.len(), seq![','], rest + seq![']']);
        lemma_port_round(s, i, ps[0]);
        lemma_at(s, i + e0.len(), seq![','], 0);
        assert forall|k: int| 0 <= k < ps.drop_first().len() implies port_ok(
            #[trigger] ps.drop_first()[k],
        ) by {
            assert(ps.drop_first()[k] == ps[k + 1]);
        }
        lemma_objects_round(s, i + e0.len() + 1, ps.drop_first());
        lemma_port_list_head(ps.drop_first());
        lemma_split(s, i + e0.len() + 1, rest, seq![']']);
        lemma_at(s, i + e0.len() + 1, rest, 0);
        assert(ps.map_values(|p: (int, Scalar)| port_members(p)) =~= seq![port_members(ps[0])]
            + ps.drop_first().map_values(|p: (int, Scalar)| port_members(p)));
    }
}

proof fn lemma_port_of_members(p: (int, Scalar))
    ensures
        port_of(port_members(p)) == Some(p),
{
    let ms = port_members(p);
    assert(port_key().len() != target_port_key().len());
    assert(port_key() != target_port_key());
    assert(ms.drop_last() =~= seq![(port_key(), Scalar::Int(p.0))]);
    assert(ms.drop_last().drop_last() =~= Seq::<(Seq<char>, Scalar)>::empty());
    assert(key_count(ms.drop_last().drop_last(), port_key()) == 0);
    assert(key_count(ms.drop_last().drop_last(), target_port_key()) == 0);
    assert(ms.drop_last().last() == (port_key(), Scalar::Int(p.0)));
    assert(key_count(ms.drop_last(), port_key()) == 1);
    assert(key_count(ms.drop_last(), target_port_key()) == 0);
    assert(value_of(ms.drop_last(), port_key()) == Scalar::Int(p.0));
}

/// Decoding the encoding of a list of ports gives back the same ports, in the same order.
pub proof fn lemma_ports_round_trip(ps: Seq<(int, Scalar)>)
    requires
        forall|k: int| 0 <= k < ps.len() ==> port_ok(#[trigger] ps[k]),
    ensures
        decode_ports_spec(encode_ports_spec(ps)) == Some(ps),
{
    let s = encode_ports_spec(ps);
    let os = ps.map_values(|p: (int, Scalar)| port_members(p));
    assert(s[0] == '[');
    if ps.len() == 0 {
        assert(s =~= seq!['[', ']']);
        assert(array_at(s, 0) == Some((Seq::<Seq<(Seq<char>, Scalar)>>::empty(), 2int)));
        assert(Seq::<Seq<(Seq<char>, Scalar)>>::empty().map_values(
            |o: Seq<(Seq<char>, Scalar)>| port_of(o)->0,
        ) =~= ps);
    } else {
        lemma_port_list_head(ps);
        assert(s.subrange(1, s.len() as int) =~= enc_port_list(ps) + seq![']']);
        lemma_objects_round(s, 1, ps);
        assert(s[1] == '{');
        assert(array_at(s, 0) == Some((os, s.len() as int)));
        assert forall|k: int| 0 <= k < os.len() implies port_of(#[trigger] os[k]) == Some(ps[k]) by {
            assert(os[k] == port_members(ps[k]));
            lemma_port_of_members(ps[k]);
        }
        assert(os.map_values(|o: Seq<(Seq<char>, Scalar)>| port_of(o)->0) =~= ps);
    }
}

} // verus!
