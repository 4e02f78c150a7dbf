//! JSON text: reading a document tree out of characters, and writing one
//! back.
//!
//! The grammar is defined by the specification functions below: a
//! deterministic recursive-descent reading of JSON with whitespace
//! between tokens, escape sequences in strings, and numbers kept as their
//! lexemes. The reader takes a work budget along; every recursive step
//! spends one unit, and the entry points grant a budget no written
//! document can exhaust. [`lemma_text_round_trip`] ties the two sides
//! together: what the writer makes of a well-formed document, the reader
//! reads back unchanged.

use vstd::prelude::*;
use crate::json::{jv, jv_arr, jv_obj, JsonV, JsonValue};
use crate::numbers::{dec_digits, dec_int, is_digit, is_digit_at};
use crate::strutil::{char_from_code, chars_to_string, copy_range, str_to_chars};

verus! {


/// The whitespace JSON allows between tokens.
pub open spec fn is_ws(c: char) -> bool {
    c == ' ' || c == '\t' || c == '\n' || c == '\r'
}

/// The first position at or after `i` holding no whitespace.
pub open spec fn skip_ws(s: Seq<char>, i: int) -> int
    decreases s.len() - i,
{
    if 0 <= i < s.len() && is_ws(s[i]) {
        skip_ws(s, i + 1)
    } else {
        i
    }
}

/// A control character, which JSON never lets stand bare in a string.
pub open spec fn is_control(c: char) -> bool {
    0 <= (c as int) && (c as int) < 0x20
}

/// A hexadecimal digit?
pub open spec fn is_hex(c: char) -> bool {
    is_digit(c) || ('a' <= c && c <= 'f') || ('A' <= c && c <= 'F')
}

/// The value of a hexadecimal digit.
pub open spec fn hex_val(c: char) -> int {
    if is_digit(c) {
        (c as int) - ('0' as int)
    } else if 'a' <= c && c <= 'f' {
        (c as int) - ('a' as int) + 10
    } else {
        (c as int) - ('A' as int) + 10
    }
}

/// The character a string escape names, for the single-character escapes.
pub open spec fn simple_escape(e: char) -> Option<char> {
    if e == '"' {
        Some('"')
    } else if e == '\\' {
        Some('\\')
    } else if e == '/' {
        Some('/')
    } else if e == 'b' {
        Some('\u{0008}')
    } else if e == 'f' {
        Some('\u{000C}')
    } else if e == 'n' {
        Some('\n')
    } else if e == 'r' {
        Some('\r')
    } else if e == 't' {
        Some('\t')
    } else {
        None
    }
}

/// The code the four hexadecimal digits of a `\u` escape spell.
pub open spec fn hex4_val(s: Seq<char>, i: int) -> int {
    hex_val(s[i]) * 4096 + hex_val(s[i + 1]) * 256 + hex_val(s[i + 2]) * 16 + hex_val(s[i + 3])
}

/// Read a string body starting after the opening quote: the characters it
/// spells and the position after the closing quote. Control characters
/// must be escaped; a `\u` escape must not name a surrogate half.
pub open spec fn parse_string_body(s: Seq<char>, i: int) -> Option<(Seq<char>, int)>
    decreases s.len() - i,
{
    if i < 0 || i >= s.len() {
        None
    } else if s[i] == '"' {
        Some((Seq::empty(), i + 1))
    } else if s[i] == '\\' {
        if i + 2 > s.len() {
            None
        } else if simple_escape(s[i + 1]) is Some {
            match parse_string_body(s, i + 2) {
                Some((rest, j)) => Some((seq![simple_escape(s[i + 1])->0] + rest, j)),
                None => None,
            }
        } else if s[i + 1] == 'u' {
            if i + 6 > s.len() {
                None
            } else if !(is_hex(s[i + 2]) && is_hex(s[i + 3]) && is_hex(s[i + 4]) && is_hex(
                s[i + 5],
            )) {
                None
            } else {
                let code = hex4_val(s, i + 2);
                if 0xD800 <= code && code < 0xE000 {
                    None
                } else {
                    match parse_string_body(s, i + 6) {
                        Some((rest, j)) => Some((seq![code as char] + rest, j)),
                        None => None,
                    }
                }
            }
        } else {
            None
        }
    } else if is_control(s[i]) {
        None
    } else {
        match parse_string_body(s, i + 1) {
            Some((rest, j)) => Some((seq![s[i]] + rest, j)),
            None => None,
        }
    }
}

/// The first position at or after `i` holding no decimal digit.
pub open spec fn span_digits(s: Seq<char>, i: int) -> int
    decreases s.len() - i,
{
    if 0 <= i < s.len() && is_digit(s[i]) {
        span_digits(s, i + 1)
    } else {
        i
    }
}

/// Spanning digits stays within the text, moves only forward, and stops
/// at the first position that holds no digit.
pub proof fn lemma_span_digits(s: Seq<char>, i: int)
    requires
        0 <= i <= s.len(),
    ensures
        i <= span_digits(s, i) <= s.len(),
        span_digits(s, i) < s.len() ==> !is_digit(s[span_digits(s, i)]),
        forall|j: int| i <= j < span_digits(s, i) ==> is_digit(s[j]),
    decreases s.len() - i,
{
    if i < s.len() && is_digit(s[i]) {
        lemma_span_digits(s, i + 1);
    }
}

/// Where the integer digits of a number starting at `p` end: one `0`, or
/// a nonzero digit followed by any digits; nothing on a leading zero
/// followed by more digits, which JSON forbids.
pub open spec fn int_digits_end(s: Seq<char>, p: int) -> Option<int> {
    if p < s.len() && is_digit(s[p]) {
        if s[p] == '0' {
            Some(p + 1)
        } else {
            Some(span_digits(s, p))
        }
    } else {
        None
    }
}

/// Where the fraction part ends: after `.` and at least one digit, or
/// where it began when no `.` stands there.
pub open spec fn frac_end(s: Seq<char>, p: int) -> Option<int> {
    if p < s.len() && s[p] == '.' {
        if p + 1 < s.len() && is_digit(s[p + 1]) {
            Some(span_digits(s, p + 1))
        } else {
            None
        }
    } else {
        Some(p)
    }
}

/// Where the exponent part ends: after `e` or `E`, an optional sign and
/// at least one digit, or where it began when no exponent stands there.
pub open spec fn exp_end(s: Seq<char>, p: int) -> Option<int> {
    if p < s.len() && (s[p] == 'e' || s[p] == 'E') {
        let q = if p + 1 < s.len() && (s[p + 1] == '+' || s[p + 1] == '-') {
            p + 2
        } else {
            p + 1
        };
        if q < s.len() && is_digit(s[q]) {
            Some(span_digits(s, q))
        } else {
            None
        }
    } else {
        Some(p)
    }
}

/// Read a number starting at `i`: its lexeme and the position after it.
pub open spec fn parse_number(s: Seq<char>, i: int) -> Option<(Seq<char>, int)> {
    let p = if i < s.len() && s[i] == '-' {
        i + 1
    } else {
        i
    };
    match int_digits_end(s, p) {
        None => None,
        Some(q) => match frac_end(s, q) {
            None => None,
            Some(q2) => match exp_end(s, q2) {
                None => None,
                Some(end) => Some((s.subrange(i, end), end)),
            },
        },
    }
}

/// Read one JSON value starting exactly at `i`, spending from the budget
/// `d` on every recursive step.
pub open spec fn parse_value(s: Seq<char>, i: int, d: nat) -> Option<(JsonV, int)>
    decreases d,
{
    if d == 0 || i < 0 || i >= s.len() {
        None
    } else {
        let c = s[i];
        if c == 'n' {
            if i + 4 <= s.len() && s[i + 1] == 'u' && s[i + 2] == 'l' && s[i + 3] == 'l' {
                Some((JsonV::Null, i + 4))
            } else {
                None
            }
        } else if c == 't' {
            if i + 4 <= s.len() && s[i + 1] == 'r' && s[i + 2] == 'u' && s[i + 3] == 'e' {
                Some((JsonV::Bool(true), i + 4))
            } else {
                None
            }
        } else if c == 'f' {
            if i + 5 <= s.len() && s[i + 1] == 'a' && s[i + 2] == 'l' && s[i + 3] == 's'
                && s[i + 4] == 'e' {
                Some((JsonV::Bool(false), i + 5))
            } else {
                None
            }
        } else if c == '"' {
            match parse_string_body(s, i + 1) {
                Some((t, j)) => Some((JsonV::Str(t), j)),
                None => None,
            }
        } else if c == '-' || is_digit(c) {
            match parse_number(s, i) {
                Some((lex, j)) => Some((JsonV::Num(lex), j)),
                None => None,
            }
        } else if c == '[' {
            let j = skip_ws(s, i + 1);
            if j < s.len() && s[j] == ']' {
                Some((JsonV::Arr(Seq::empty()), j + 1))
            } else {
                match parse_items(s, j, (d - 1) as nat) {
                    Some((vs, k)) => Some((JsonV::Arr(vs), k)),
                    None => None,
                }
            }
        } else if c == '{' {
            let j = skip_ws(s, i + 1);
            if j < s.len() && s[j] == '}' {
                Some((JsonV::Obj(Seq::empty()), j + 1))
            } else {
                match parse_members(s, j, (d - 1) as nat) {
                    Some((ms, k)) => Some((JsonV::Obj(ms), k)),
                    None => None,
                }
            }
        } else {
            None
        }
    }
}

/// Read the elements of an array from the first element on, up to and
/// including the closing bracket.
pub open spec fn parse_items(s: Seq<char>, i: int, d: nat) -> Option<(Seq<JsonV>, int)>
    decreases d,
{
    if d == 0 {
        None
    } else {
        match parse_value(s, i, (d - 1) as nat) {
            None => None,
            Some((v, j)) => {
                let j2 = skip_ws(s, j);
                if j2 < s.len() && s[j2] == ',' {
                    match parse_items(s, skip_ws(s, j2 + 1), (d - 1) as nat) {
                        Some((rest, k)) => Some((seq![v] + rest, k)),
                        None => None,
                    }
                } else if j2 < s.len() && s[j2] == ']' {
                    Some((seq![v], j2 + 1))
                } else {
                    None
                }
            },
        }
    }
}

/// Read the members of an object from the first key on, up to and
/// including the closing brace.
pub open spec fn parse_members(s: Seq<char>, i: int, d: nat) -> Option<
    (Seq<(Seq<char>, JsonV)>, int),
>
    decreases d,
{
    if d == 0 {
        None
    } else {
        if i < s.len() && s[i] == '"' {
            match parse_string_body(s, i + 1) {
                None => None,
                Some((key, j)) => {
                    let j2 = skip_ws(s, j);
                    if j2 < s.len() && s[j2] == ':' {
                        match parse_value(s, skip_ws(s, j2 + 1), (d - 1) as nat) {
                            None => None,
                            Some((v, k)) => {
                                let k2 = skip_ws(s, k);
                                if k2 < s.len() && s[k2] == ',' {
                                    match parse_members(s, skip_ws(s, k2 + 1), (d - 1) as nat) {
                                        Some((rest, end)) => Some(
                                            (seq![(key, v)] + rest, end),
                                        ),
                                        None => None,
                                    }
                                } else if k2 < s.len() && s[k2] == '}' {
                                    Some((seq![(key, v)], k2 + 1))
                                } else {
                                    None
                                }
                            },
                        }
                    } else {
                        None
                    }
                },
            }
        } else {
            None
        }
    }
}

/// The budget that reading a text of `n` characters can never exhaust:
/// every recursive step consumes at least one character of the text.
pub open spec fn ample_budget(n: int) -> nat {
    (2 * n + 4) as nat
}

/// Read a whole text as one JSON document: one value, nothing but
/// whitespace around it.
pub open spec fn parse_text(s: Seq<char>) -> Option<JsonV> {
    match parse_value(s, skip_ws(s, 0), ample_budget(s.len() as int)) {
        None => None,
        Some((v, j)) => if skip_ws(s, j) == s.len() {
            Some(v)
        } else {
            None
        },
    }
}

/// Prefixing onto the outcome of reading more of a string body.
pub open spec fn prefixed_body(
    acc: Seq<char>,
    r: Option<(Seq<char>, int)>,
) -> Option<(Seq<char>, int)> {
    match r {
        Some((rest, j)) => Some((acc + rest, j)),
        None => None,
    }
}

/// Prefixing onto the outcome of reading more array elements.
pub open spec fn prefixed_items(
    acc: Seq<JsonV>,
    r: Option<(Seq<JsonV>, int)>,
) -> Option<(Seq<JsonV>, int)> {
    match r {
        Some((rest, j)) => Some((acc + rest, j)),
        None => None,
    }
}

/// Prefixing onto the outcome of reading more object members.
pub open spec fn prefixed_members(
    acc: Seq<(Seq<char>, JsonV)>,
    r: Option<(Seq<(Seq<char>, JsonV)>, int)>,
) -> Option<(Seq<(Seq<char>, JsonV)>, int)> {
    match r {
        Some((rest, j)) => Some((acc + rest, j)),
        None => None,
    }
}

/// Is this character a hexadecimal digit?
fn is_hex_at(c: char) -> (r: bool)
    ensures
        r == is_hex(c),
{
    let u: u32 = c as u32;
    (48 <= u && u <= 57) || (97 <= u && u <= 102) || (65 <= u && u <= 70)
}

/// The value of one hexadecimal digit.
fn hex_val_at(c: char) -> (r: u32)
    requires
        is_hex(c),
    ensures
        r == hex_val(c),
{
    let u: u32 = c as u32;
    if 48 <= u && u <= 57 {
        u - 48
    } else if 97 <= u && u <= 102 {
        u - 97 + 10
    } else {
        u - 65 + 10
    }
}

/// The first position at or after `i` holding no whitespace.
fn skip_ws_at(s: &Vec<char>, i: usize) -> (r: usize)
    requires
        i <= s@.len(),
    ensures
        r == skip_ws(s@, i as int),
        i <= r <= s@.len(),
{
    let mut j: usize = i;
    while j < s.len() && (s[j] == ' ' || s[j] == '\t' || s[j] == '\n' || s[j] == '\r')
        invariant
            i <= j <= s@.len(),
            skip_ws(s@, i as int) == skip_ws(s@, j as int),
        decreases s@.len() - j,
    {
        j += 1;
    }
    j
}

/// The first position at or after `i` holding no digit.
fn span_digits_at(s: &Vec<char>, i: usize) -> (r: usize)
    requires
        i <= s@.len(),
    ensures
        r == span_digits(s@, i as int),
        i <= r <= s@.len(),
{
    let mut j: usize = i;
    while j < s.len() && is_digit_at(s[j])
        invariant
            i <= j <= s@.len(),
            span_digits(s@, i as int) == span_digits(s@, j as int),
        decreases s@.len() - j,
    {
        j += 1;
    }
    j
}

/// Is this character one JSON requires to be escaped inside a string?
fn is_control_at(c: char) -> (r: bool)
    ensures
        r == is_control(c),
{
    let u: u32 = c as u32;
    u < 32
}

/// Read a string body starting after the opening quote.
#[verifier::loop_isolation(false)]
fn parse_string_body_at(s: &Vec<char>, i: usize) -> (r: Option<(Vec<char>, usize)>)
    requires
        i <= s@.len(),
    ensures
        match r {
            Some(p) => parse_string_body(s@, i as int) == Some((p.0@, p.1 as int))
                && i < p.1 <= s@.len(),
            None => parse_string_body(s@, i as int) is None,
        },
{
    let mut acc: Vec<char> = Vec::new();
    let mut cur: usize = i;
    loop
        invariant
            i <= cur <= s@.len(),
            parse_string_body(s@, i as int) == prefixed_body(
                acc@,
                parse_string_body(s@, cur as int),
            ),
        decreases s@.len() - cur,
    {
        if cur >= s.len() {
            return None;
        }
        let n: usize = s.len();
        let c: char = s[cur];
        if c == '"' {
            proof {
                assert(acc@ + Seq::<char>::empty() =~= acc@);
            }
            return Some((acc, cur + 1));
        } else if c == '\\' {
            if n - cur < 2 {
                return None;
            }
            let e: char = s[cur + 1];
            let simple: Option<char> = if e == '"' {
                Some('"')
            } else if e == '\\' {
                Some('\\')
            } else if e == '/' {
                Some('/')
            } else if e == 'b' {
                Some('\u{0008}')
            } else if e == 'f' {
                Some('\u{000C}')
            } else if e == 'n' {
                Some('\n')
            } else if e == 'r' {
                Some('\r')
            } else if e == 't' {
                Some('\t')
            } else {
                None
            };
            proof {
                assert(simple == simple_escape(e));
            }
            match simple {
                Some(decoded) => {
                    let ghost prev = acc@;
                    acc.push(decoded);
                    cur = cur + 2;
                    proof {
                        lemma_prefixed_body_step(prev, decoded, s@, cur as int);
                    }
                },
                None => {
                    if e == 'u' {
                        if n - cur < 6 {
                            return None;
                        }
                        if !(is_hex_at(s[cur + 2]) && is_hex_at(s[cur + 3]) && is_hex_at(
                            s[cur + 4],
                        ) && is_hex_at(s[cur + 5])) {
                            return None;
                        }
                        let code: u32 = hex_val_at(s[cur + 2]) * 4096 + hex_val_at(s[cur + 3])
                            * 256 + hex_val_at(s[cur + 4]) * 16 + hex_val_at(s[cur + 5]);
                        proof {
                            assert(code as int == hex4_val(s@, cur + 2 as int));
                        }
                        if 0xD800 <= code && code < 0xE000 {
                            return None;
                        }
                        let decoded = char_from_code(code);
                        let ghost prev = acc@;
                        proof {
                            assert(decoded == ((code as int) as char));
                        }
                        acc.push(decoded);
                        cur = cur + 6;
                        proof {
                            lemma_prefixed_body_step(prev, decoded, s@, cur as int);
                        }
                    } else {
                        return None;
                    }
                },
            }
        } else if is_control_at(c) {
            return None;
        } else {
            let ghost prev = acc@;
            acc.push(c);
            cur = cur + 1;
            proof {
                lemma_prefixed_body_step(prev, c, s@, cur as int);
            }
        }
    }
}

/// Composing one decoded character with the rest of a string body.
proof fn lemma_prefixed_body_step(prev: Seq<char>, c: char, s: Seq<char>, cur: int)
    ensures
        prefixed_body(prev, prefixed_body(seq![c], parse_string_body(s, cur)))
            == prefixed_body(prev.push(c), parse_string_body(s, cur)),
{
    match parse_string_body(s, cur) {
        Some((rest, j)) => {
            assert(prev + (seq![c] + rest) =~= prev.push(c) + rest);
        },
        None => {},
    }
}

/// Read a number starting at `i`: its lexeme and the position after it.
fn parse_number_at(s: &Vec<char>, i: usize) -> (r: Option<(Vec<char>, usize)>)
    requires
        i < s@.len(),
        s@[i as int] == '-' || is_digit(s@[i as int]),
    ensures
        match r {
            Some(p) => parse_number(s@, i as int) == Some((p.0@, p.1 as int))
                && i < p.1 <= s@.len(),
            None => parse_number(s@, i as int) is None,
        },
{
    let n: usize = s.len();
    let p: usize = if s[i] == '-' {
        i + 1
    } else {
        i
    };
    if !(p < s.len() && is_digit_at(s[p])) {
        return None;
    }
    let q: usize = if s[p] == '0' {
        p + 1
    } else {
        span_digits_at(s, p)
    };
    proof {
        lemma_span_digits(s@, p as int);
        assert(int_digits_end(s@, p as int) == Some(q as int));
    }
    let q2: usize = if q < s.len() && s[q] == '.' {
        if q + 1 < s.len() && is_digit_at(s[q + 1]) {
            span_digits_at(s, q + 1)
        } else {
            return None;
        }
    } else {
        q
    };
    proof {
        if q < s@.len() && s@[q as int] == '.' {
            lemma_span_digits(s@, q + 1 as int);
        }
        assert(frac_end(s@, q as int) == Some(q2 as int));
    }
    let end: usize = if q2 < s.len() && (s[q2] == 'e' || s[q2] == 'E') {
        let q3: usize = if q2 + 1 < s.len() && (s[q2 + 1] == '+' || s[q2 + 1] == '-') {
            q2 + 2
        } else {
            q2 + 1
        };
        if q3 < s.len() && is_digit_at(s[q3]) {
            span_digits_at(s, q3)
        } else {
            return None;
        }
    } else {
        q2
    };
    proof {
        if q2 < s@.len() && (s@[q2 as int] == 'e' || s@[q2 as int] == 'E') {
            let q3 = if q2 + 1 < s@.len() && (s@[q2 + 1 as int] == '+' || s@[q2 + 1 as int]
                == '-') {
                q2 + 2
            } else {
                q2 + 1
            };
            lemma_span_digits(s@, q3 as int);
        }
        assert(exp_end(s@, q2 as int) == Some(end as int));
    }
    let lexeme = copy_range(s, i, end);
    Some((lexeme, end))
}

/// Composing one parsed element with the rest of an array.
proof fn lemma_prefixed_items_step(prev: Seq<JsonV>, v: JsonV, r: Option<(Seq<JsonV>, int)>)
    ensures
        prefixed_items(prev, prefixed_items(seq![v], r)) == prefixed_items(prev.push(v), r),
{
    match r {
        Some((rest, j)) => {
            assert(prev + (seq![v] + rest) =~= prev.push(v) + rest);
        },
        None => {},
    }
}

/// Composing one parsed member with the rest of an object.
proof fn lemma_prefixed_members_step(
    prev: Seq<(Seq<char>, JsonV)>,
    m: (Seq<char>, JsonV),
    r: Option<(Seq<(Seq<char>, JsonV)>, int)>,
)
    ensures
        prefixed_members(prev, prefixed_members(seq![m], r)) == prefixed_members(prev.push(m), r),
{
    match r {
        Some((rest, j)) => {
            assert(prev + (seq![m] + rest) =~= prev.push(m) + rest);
        },
        None => {},
    }
}

/// Read one JSON value starting exactly at `i`, spending from the budget
/// `d` on every recursive step.
#[verifier::loop_isolation(false)]
fn parse_value_at(s: &Vec<char>, i: usize, d: u128) -> (r: Option<(JsonValue, usize)>)
    requires
        i <= s@.len(),
    ensures
        match r {
            Some(p) => parse_value(s@, i as int, d as nat) == Some((jv(p.0), p.1 as int))
                && i < p.1 <= s@.len(),
            None => parse_value(s@, i as int, d as nat) is None,
        },
    decreases d,
{
    let n: usize = s.len();
    if d == 0 || i >= n {
        return None;
    }
    let c: char = s[i];
    if c == 'n' {
        if n - i >= 4 && s[i + 1] == 'u' && s[i + 2] == 'l' && s[i + 3] == 'l' {
            Some((JsonValue::Null, i + 4))
        } else {
            None
        }
    } else if c == 't' {
        if n - i >= 4 && s[i + 1] == 'r' && s[i + 2] == 'u' && s[i + 3] == 'e' {
            Some((JsonValue::Bool(true), i + 4))
        } else {
            None
        }
    } else if c == 'f' {
        if n - i >= 5 && s[i + 1] == 'a' && s[i + 2] == 'l' && s[i + 3] == 's' && s[i + 4] == 'e' {
            Some((JsonValue::Bool(false), i + 5))
        } else {
            None
        }
    } else if c == '"' {
        match parse_string_body_at(s, i + 1) {
            Some((body, j)) => Some((JsonValue::Str(chars_to_string(&body)), j)),
            None => None,
        }
    } else if c == '-' || is_digit_at(c) {
        match parse_number_at(s, i) {
            Some((lexeme, j)) => Some((JsonValue::Num(chars_to_string(&lexeme)), j)),
            None => None,
        }
    } else if c == '[' {
        let j = skip_ws_at(s, i + 1);
        if j < n && s[j] == ']' {
            let r = Some((JsonValue::Arr(Vec::new()), j + 1));
            proof {
                assert(jv_arr(Seq::<JsonValue>::empty()) =~= Seq::<JsonV>::empty());
            }
            return r;
        }
        let ghost d0 = (d - 1) as nat;
        let mut items: Vec<JsonValue> = Vec::new();
        let mut cur: usize = j;
        let mut fuel: u128 = d - 1;
        loop
            invariant
                i < cur <= s@.len(),
                fuel < d,
                parse_items(s@, j as int, d0) == prefixed_items(
                    jv_arr(items@),
                    parse_items(s@, cur as int, fuel as nat),
                ),
            decreases fuel,
        {
            if fuel == 0 {
                return None;
            }
            let element = match parse_value_at(s, cur, fuel - 1) {
                Some(p) => p,
                None => {
                    return None;
                },
            };
            let j2 = skip_ws_at(s, element.1);
            if j2 < n && s[j2] == ',' {
                let next = skip_ws_at(s, j2 + 1);
                proof {
                    lemma_prefixed_items_step(
                        jv_arr(items@),
                        jv(element.0),
                        parse_items(s@, next as int, (fuel - 1) as nat),
                    );
                    assert(items@.push(element.0).drop_last() =~= items@);
                }
                items.push(element.0);
                cur = next;
                fuel = fuel - 1;
            } else if j2 < n && s[j2] == ']' {
                proof {
                    assert(items@.push(element.0).drop_last() =~= items@);
                    assert(jv_arr(items@.push(element.0)) =~= jv_arr(items@).push(
                        jv(element.0),
                    ));
                    assert(jv_arr(items@) + seq![jv(element.0)] =~= jv_arr(items@).push(
                        jv(element.0),
                    ));
                }
                items.push(element.0);
                return Some((JsonValue::Arr(items), j2 + 1));
            } else {
                return None;
            }
        }
    } else if c == '{' {
        let j = skip_ws_at(s, i + 1);
        if j < n && s[j] == '}' {
            let r = Some((JsonValue::Obj(Vec::new()), j + 1));
            proof {
                assert(jv_obj(Seq::<(String, JsonValue)>::empty()) =~= Seq::<
                    (Seq<char>, JsonV),
                >::empty());
            }
            return r;
        }
        let ghost d0 = (d - 1) as nat;
        let mut members: Vec<(String, JsonValue)> = Vec::new();
        let mut cur: usize = j;
        let mut fuel: u128 = d - 1;
        loop
            invariant
                i < cur <= s@.len(),
                fuel < d,
                parse_members(s@, j as int, d0) == prefixed_members(
                    jv_obj(members@),
                    parse_members(s@, cur as int, fuel as nat),
                ),
            decreases fuel,
        {
            if fuel == 0 {
                return None;
            }
            if !(cur < n && s[cur] == '"') {
                return None;
            }
            let key = match parse_string_body_at(s, cur + 1) {
                Some(p) => p,
                None => {
                    return None;
                },
            };
            let j2 = skip_ws_at(s, key.1);
            if !(j2 < n && s[j2] == ':') {
                return None;
            }
            let vstart = skip_ws_at(s, j2 + 1);
            let element = match parse_value_at(s, vstart, fuel - 1) {
                Some(p) => p,
                None => {
                    return None;
                },
            };
            let k2 = skip_ws_at(s, element.1);
            let key_string = chars_to_string(&key.0);
            if k2 < n && s[k2] == ',' {
                let next = skip_ws_at(s, k2 + 1);
                proof {
                    lemma_prefixed_members_step(
                        jv_obj(members@),
                        (key.0@, jv(element.0)),
                        parse_members(s@, next as int, (fuel - 1) as nat),
                    );
                    assert(members@.push((key_string, element.0)).drop_last() =~= members@);
                }
                members.push((key_string, element.0));
                cur = next;
                fuel = fuel - 1;
            } else if k2 < n && s[k2] == '}' {
                proof {
                    assert(members@.push((key_string, element.0)).drop_last() =~= members@);
                    assert(jv_obj(members@.push((key_string, element.0))) =~= jv_obj(
                        members@,
                    ).push((key.0@, jv(element.0))));
                    assert(jv_obj(members@) + seq![(key.0@, jv(element.0))] =~= jv_obj(
                        members@,
                    ).push((key.0@, jv(element.0))));
                }
                members.push((key_string, element.0));
                return Some((JsonValue::Obj(members), k2 + 1));
            } else {
                return None;
            }
        }
    } else {
        None
    }
}

/// Read a whole text as one JSON document: one value, nothing but
/// whitespace around it.
pub fn parse_json(text: &str) -> (r: Option<JsonValue>)
    ensures
        match r {
            Some(v) => parse_text(text@) == Some(jv(v)),
            None => parse_text(text@) is None,
        },
{
    let chars = str_to_chars(text);
    let budget: u128 = 2 * (chars.len() as u128) + 4;
    let start = skip_ws_at(&chars, 0);
    match parse_value_at(&chars, start, budget) {
        Some((v, j)) => {
            if skip_ws_at(&chars, j) == chars.len() {
                Some(v)
            } else {
                None
            }
        },
        None => None,
    }
}

/// The digit spelling a hexadecimal value, lower case.
pub open spec fn hex_digit(d: int) -> char {
    if d < 10 {
        ((48 + d) as char)
    } else {
        ((87 + d) as char)
    }
}

/// How one character is written inside a JSON string: quotes and
/// backslashes escaped, the named control characters by their short
/// escapes, the remaining controls as `\u00..`, all else as is.
pub open spec fn esc_char(c: char) -> Seq<char> {
    if c == '"' {
        seq!['\\', '"']
    } else if c == '\\' {
        seq!['\\', '\\']
    } else if c == '\u{0008}' {
        seq!['\\', 'b']
    } else if c == '\t' {
        seq!['\\', 't']
    } else if c == '\n' {
        seq!['\\', 'n']
    } else if c == '\u{000C}' {
        seq!['\\', 'f']
    } else if c == '\r' {
        seq!['\\', 'r']
    } else if is_control(c) {
        seq!['\\', 'u', '0', '0', hex_digit((c as int) / 16), hex_digit((c as int) % 16)]
    } else {
        seq![c]
    }
}

/// How a whole string body is written.
pub open spec fn esc_str(s: Seq<char>) -> Seq<char>
    decreases s,
{
    if s.len() == 0 {
        Seq::empty()
    } else {
        esc_str(s.drop_last()) + esc_char(s.last())
    }
}

/// How one JSON document is written: no whitespace, strings escaped,
/// numbers as their lexemes, members in held order.
pub open spec fn ser_value(v: JsonV) -> Seq<char>
    decreases v,
{
    match v {
        JsonV::Null => seq!['n', 'u', 'l', 'l'],
        JsonV::Bool(b) => if b {
            seq!['t', 'r', 'u', 'e']
        } else {
            seq!['f', 'a', 'l', 's', 'e']
        },
        JsonV::Num(lex) => lex,
        JsonV::Str(t) => seq!['"'] + esc_str(t) + seq!['"'],
        JsonV::Arr(items) => seq!['['] + ser_items(items) + seq![']'],
        JsonV::Obj(members) => seq!['{'] + ser_members(members) + seq!['}'],
    }
}

/// How an array's elements are written, commas between them.
pub open spec fn ser_items(items: Seq<JsonV>) -> Seq<char>
    decreases items,
{
    if items.len() == 0 {
        Seq::empty()
    } else if items.len() == 1 {
        ser_value(items[0])
    } else {
        ser_items(items.drop_last()) + seq![','] + ser_value(items.last())
    }
}

/// How one member is written: the key quoted and escaped, a colon, the
/// value.
pub open spec fn ser_member(member: (Seq<char>, JsonV)) -> Seq<char>
    decreases member,
{
    seq!['"'] + esc_str(member.0) + seq!['"', ':'] + ser_value(member.1)
}

/// How an object's members are written, commas between them, a colon
/// after each key.
pub open spec fn ser_members(members: Seq<(Seq<char>, JsonV)>) -> Seq<char>
    decreases members,
{
    if members.len() == 0 {
        Seq::empty()
    } else if members.len() == 1 {
        ser_member(members[0])
    } else {
        ser_members(members.drop_last()) + seq![','] + ser_member(members.last())
    }
}

/// Write one character of a string body, escaped as JSON asks.
fn push_escaped(c: char, out: &mut Vec<char>)
    ensures
        final(out)@ == old(out)@ + esc_char(c),
{
    let u: u32 = c as u32;
    if c == '"' {
        out.push('\\');
        out.push('"');
        proof {
            assert(final(out)@ =~= old(out)@ + esc_char(c));
        }
    } else if c == '\\' {
        out.push('\\');
        out.push('\\');
        proof {
            assert(final(out)@ =~= old(out)@ + esc_char(c));
        }
    } else if c == '\u{0008}' {
        out.push('\\');
        out.push('b');
        proof {
            assert(final(out)@ =~= old(out)@ + esc_char(c));
        }
    } else if c == '\t' {
        out.push('\\');
        out.push('t');
        proof {
            assert(final(out)@ =~= old(out)@ + esc_char(c));
        }
    } else if c == '\n' {
        out.push('\\');
        out.push('n');
        proof {
            assert(final(out)@ =~= old(out)@ + esc_char(c));
        }
    } else if c == '\u{000C}' {
        out.push('\\');
        out.push('f');
        proof {
            assert(final(out)@ =~= old(out)@ + esc_char(c));
        }
    } else if c == '\r' {
        out.push('\\');
        out.push('r');
        proof {
            assert(final(out)@ =~= old(out)@ + esc_char(c));
        }
    } else if u < 32 {
        out.push('\\');
        out.push('u');
        out.push('0');
        out.push('0');
        let hi: u32 = u / 16;
        let lo: u32 = u % 16;
        let hic: char = if hi < 10 {
            ((48 + hi) as u8) as char
        } else {
            ((87 + hi) as u8) as char
        };
        let loc: char = if lo < 10 {
            ((48 + lo) as u8) as char
        } else {
            ((87 + lo) as u8) as char
        };
        out.push(hic);
        out.push(loc);
        proof {
            assert(hic == hex_digit((c as int) / 16));
            assert(loc == hex_digit((c as int) % 16));
            assert(final(out)@ =~= old(out)@ + esc_char(c));
        }
    } else {
        out.push(c);
        proof {
            assert(final(out)@ =~= old(out)@ + esc_char(c));
        }
    }
}

/// Write a string body, escaped, without the surrounding quotes.
fn push_escaped_str(t: &str, out: &mut Vec<char>)
    ensures
        final(out)@ == old(out)@ + esc_str(t@),
{
    let chars = str_to_chars(t);
    let mut k: usize = 0;
    while k < chars.len()
        invariant
            k <= chars@.len(),
            chars@ == t@,
            out@ == old(out)@ + esc_str(t@.subrange(0, k as int)),
        decreases chars@.len() - k,
    {
        proof {
            assert(t@.subrange(0, k + 1 as int).drop_last() =~= t@.subrange(0, k as int));
        }
        push_escaped(chars[k], out);
        k += 1;
    }
    proof {
        assert(t@.subrange(0, t@.len() as int) =~= t@);
    }
}

/// Write the characters of a string as they are.
fn push_str_chars(t: &str, out: &mut Vec<char>)
    ensures
        final(out)@ == old(out)@ + t@,
{
    let chars = str_to_chars(t);
    let mut k: usize = 0;
    while k < chars.len()
        invariant
            k <= chars@.len(),
            chars@ == t@,
            out@ == old(out)@ + t@.subrange(0, k as int),
        decreases chars@.len() - k,
    {
        out.push(chars[k]);
        proof {
            assert(old(out)@ + t@.subrange(0, k + 1 as int) =~= (old(out)@ + t@.subrange(
                0,
                k as int,
            )).push(t@[k as int]));
        }
        k += 1;
    }
    proof {
        assert(t@.subrange(0, t@.len() as int) =~= t@);
    }
}

/// Write one document after what `out` already holds.
#[verifier::loop_isolation(false)]
#[verifier::rlimit(60)]
fn write_value(v: &JsonValue, out: &mut Vec<char>)
    ensures
        final(out)@ == old(out)@ + ser_value(jv(*v)),
    decreases v,
{
    match v {
        JsonValue::Null => {
            out.push('n');
            out.push('u');
            out.push('l');
            out.push('l');
            proof {
                assert(out@ =~= old(out)@ + ser_value(jv(*v)));
            }
        },
        JsonValue::Bool(b) => {
            if *b {
                out.push('t');
                out.push('r');
                out.push('u');
                out.push('e');
            } else {
                out.push('f');
                out.push('a');
                out.push('l');
                out.push('s');
                out.push('e');
            }
            proof {
                assert(out@ =~= old(out)@ + ser_value(jv(*v)));
            }
        },
        JsonValue::Num(lex) => {
            push_str_chars(lex.as_str(), out);
        },
        JsonValue::Str(t) => {
            out.push('"');
            push_escaped_str(t.as_str(), out);
            out.push('"');
            proof {
                assert(out@ =~= old(out)@ + ser_value(jv(*v)));
            }
        },
        JsonValue::Arr(items) => {
            out.push('[');
            let ghost base = out@;
            let mut k: usize = 0;
            while k < items.len()
                invariant
                    k <= items@.len(),
                    out@ == base + ser_items(jv_arr(items@.subrange(0, k as int))),
                decreases items@.len() - k,
            {
                proof {
                    assert(decreases_to!(*v => v->Arr_0));
                    assert(decreases_to!(*items => items[k as int]));
                    assert(items@.subrange(0, k + 1 as int).drop_last() =~= items@.subrange(
                        0,
                        k as int,
                    ));
                    crate::json::lemma_jv_arr(items@.subrange(0, k + 1 as int));
                    crate::json::lemma_jv_arr(items@.subrange(0, k as int));
                    assert(jv_arr(items@.subrange(0, k + 1 as int)).drop_last() =~= jv_arr(
                        items@.subrange(0, k as int),
                    ));
                }
                if k > 0 {
                    out.push(',');
                }
                write_value(&items[k], out);
                k += 1;
            }
            out.push(']');
            proof {
                assert(items@.subrange(0, items@.len() as int) =~= items@);
                assert(out@ =~= old(out)@ + ser_value(jv(*v)));
            }
        },
        JsonValue::Obj(members) => {
            out.push('{');
            let ghost base = out@;
            let mut k: usize = 0;
            while k < members.len()
                invariant
                    k <= members@.len(),
                    out@ == base + ser_members(jv_obj(members@.subrange(0, k as int))),
                decreases members@.len() - k,
            {
                proof {
                    assert(decreases_to!(*v => v->Obj_0));
                    assert(decreases_to!(*members => members[k as int]));
                    assert(decreases_to!(members[k as int] => members[k as int].1));
                    assert(members@.subrange(0, k + 1 as int).drop_last() =~= members@.subrange(
                        0,
                        k as int,
                    ));
                    crate::json::lemma_jv_obj(members@.subrange(0, k + 1 as int));
                    crate::json::lemma_jv_obj(members@.subrange(0, k as int));
                    assert(jv_obj(members@.subrange(0, k + 1 as int)).drop_last() =~= jv_obj(
                        members@.subrange(0, k as int),
                    ));
                    assert(ser_member((members@[k as int].0@, jv(members@[k as int].1)))
                        == seq!['"'] + esc_str(members@[k as int].0@) + seq!['"', ':']
                        + ser_value(jv(members@[k as int].1)));
                }
                if k > 0 {
                    out.push(',');
                }
                let member = &members[k];
                out.push('"');
                push_escaped_str(member.0.as_str(), out);
                out.push('"');
                out.push(':');
                write_value(&member.1, out);
                k += 1;
            }
            out.push('}');
            proof {
                assert(members@.subrange(0, members@.len() as int) =~= members@);
                assert(out@ =~= old(out)@ + ser_value(jv(*v)));
            }
        },
    }
}

/// One document as JSON text: no whitespace, members in held order.
pub fn json_to_string(v: &JsonValue) -> (r: String)
    ensures
        r@ == ser_value(jv(*v)),
{
    let mut out: Vec<char> = Vec::new();
    write_value(v, &mut out);
    chars_to_string(&out)
}

/// A tree the writer can turn back into text that reads as itself: every
/// number lexeme is one whole number token.
pub open spec fn wf_json(v: JsonV) -> bool
    decreases v,
{
    match v {
        JsonV::Null => true,
        JsonV::Bool(_) => true,
        JsonV::Num(lex) => parse_number(lex, 0) == Some((lex, lex.len() as int)),
        JsonV::Str(_) => true,
        JsonV::Arr(items) => wf_items(items),
        JsonV::Obj(members) => wf_members(members),
    }
}

/// Every element can be written back.
pub open spec fn wf_items(items: Seq<JsonV>) -> bool
    decreases items,
{
    if items.len() == 0 {
        true
    } else {
        wf_json(items.first()) && wf_items(items.drop_first())
    }
}

/// Every member's value can be written back.
pub open spec fn wf_members(members: Seq<(Seq<char>, JsonV)>) -> bool
    decreases members,
{
    if members.len() == 0 {
        true
    } else {
        wf_json(members.first().1) && wf_members(members.drop_first())
    }
}

/// The budget that suffices to read a value back.
pub open spec fn fuel_for(v: JsonV) -> nat
    decreases v,
{
    match v {
        JsonV::Arr(items) => 2 + fuel_items(items),
        JsonV::Obj(members) => 2 + fuel_members(members),
        _ => 1,
    }
}

/// The budget that suffices to read an element list back.
pub open spec fn fuel_items(items: Seq<JsonV>) -> nat
    decreases items,
{
    if items.len() == 0 {
        0
    } else {
        1 + vstd::math::max(
            fuel_for(items.first()) as int,
            fuel_items(items.drop_first()) as int,
        ) as nat
    }
}

/// The budget that suffices to read a member list back.
pub open spec fn fuel_members(members: Seq<(Seq<char>, JsonV)>) -> nat
    decreases members,
{
    if members.len() == 0 {
        0
    } else {
        1 + vstd::math::max(
            fuel_for(members.first().1) as int,
            fuel_members(members.drop_first()) as int,
        ) as nat
    }
}

/// May this character follow a number without extending it?
pub open spec fn num_delim_ok(s: Seq<char>, p: int) -> bool {
    p >= s.len() || !(is_digit(s[p]) || s[p] == '.' || s[p] == 'e' || s[p] == 'E')
}

/// Writing a string decomposes from the front as well.
proof fn lemma_esc_str_first(t: Seq<char>)
    requires
        t.len() > 0,
    ensures
        esc_str(t) == esc_char(t.first()) + esc_str(t.drop_first()),
    decreases t.len(),
{
    if t.len() == 1 {
        assert(t.drop_last() =~= Seq::<char>::empty());
        assert(t.drop_first() =~= Seq::<char>::empty());
        assert(esc_str(t) =~= esc_char(t.first()) + esc_str(t.drop_first()));
    } else {
        lemma_esc_str_first(t.drop_last());
        assert(t.drop_last().first() == t.first());
        assert(t.drop_last().drop_first() =~= t.drop_first().drop_last());
        assert(t.drop_first().last() == t.last());
        assert(esc_str(t) == (esc_char(t.first()) + esc_str(t.drop_first().drop_last()))
            + esc_char(t.last()));
        assert(esc_str(t) =~= esc_char(t.first()) + (esc_str(t.drop_first().drop_last())
            + esc_char(t.drop_first().last())));
    }
}

/// Skipping whitespace from a position that holds none stays put.
proof fn lemma_skip_ws_noop(s: Seq<char>, p: int)
    requires
        0 <= p <= s.len(),
        p < s.len() ==> !is_ws(s[p]),
    ensures
        skip_ws(s, p) == p,
{
}

/// The digit spelling a hexadecimal value is a hexadecimal digit and
/// spells it back.
proof fn lemma_hex_digit(d: int)
    requires
        0 <= d < 16,
    ensures
        is_hex(hex_digit(d)),
        hex_val(hex_digit(d)) == d,
        !is_digit(hex_digit(d)) ==> 'a' <= hex_digit(d) <= 'f',
{
}

/// Reading back an escaped string body: the escaped characters followed
/// by a closing quote read as exactly the original characters.
proof fn lemma_string_body_roundtrip(s: Seq<char>, i: int, t: Seq<char>)
    requires
        0 <= i,
        i + esc_str(t).len() + 1 <= s.len(),
        s.subrange(i, i + esc_str(t).len() as int) == esc_str(t),
        s[i + esc_str(t).len()] == '"',
    ensures
        parse_string_body(s, i) == Some((t, i + esc_str(t).len() + 1)),
    decreases t.len(),
{
    if t.len() == 0 {
        assert(s[i] == '"');
        assert(parse_string_body(s, i) == Some((Seq::<char>::empty(), i + 1)));
        assert(t =~= Seq::<char>::empty());
    } else {
        let c = t.first();
        let rest = t.drop_first();
        lemma_esc_str_first(t);
        let e = esc_char(c);
        let el = e.len() as int;
        let tail = esc_str(rest);
        assert forall|k: int| 0 <= k < el implies s[i + k] == e[k] by {
            assert(s.subrange(i, i + esc_str(t).len() as int)[k] == s[i + k]);
            assert((e + tail)[k] == e[k]);
        }
        assert forall|k: int| 0 <= k < tail.len() implies s[i + el + k] == tail[k] by {
            assert(s.subrange(i, i + esc_str(t).len() as int)[el + k] == s[i + el + k]);
            assert((e + tail)[el + k] == tail[k]);
        }
        assert(s.subrange(i + el, i + el + tail.len() as int) =~= tail);
        lemma_string_body_roundtrip(s, i + el, rest);
        assert(seq![c] + rest =~= t);
        if c == '"' {
            assert(s[i] == '\\' && s[i + 1] == '"');
            assert(simple_escape(s[i + 1]) == Some(c));
        } else if c == '\\' {
            assert(s[i] == '\\' && s[i + 1] == '\\');
            assert(simple_escape(s[i + 1]) == Some(c));
        } else if c == '\u{0008}' {
            assert(s[i] == '\\' && s[i + 1] == 'b');
            assert(simple_escape(s[i + 1]) == Some(c));
        } else if c == '\t' {
            assert(s[i] == '\\' && s[i + 1] == 't');
            assert(simple_escape(s[i + 1]) == Some(c));
        } else if c == '\n' {
            assert(s[i] == '\\' && s[i + 1] == 'n');
            assert(simple_escape(s[i + 1]) == Some(c));
        } else if c == '\u{000C}' {
            assert(s[i] == '\\' && s[i + 1] == 'f');
            assert(simple_escape(s[i + 1]) == Some(c));
        } else if c == '\r' {
            assert(s[i] == '\\' && s[i + 1] == 'r');
            assert(simple_escape(s[i + 1]) == Some(c));
        } else if is_control(c) {
            assert(s[i] == '\\' && s[i + 1] == 'u' && s[i + 2] == '0' && s[i + 3] == '0');
            assert(s[i + 4] == hex_digit((c as int) / 16));
            assert(s[i + 5] == hex_digit((c as int) % 16));
            assert(simple_escape('u') is None);
            lemma_hex_digit((c as int) / 16);
            lemma_hex_digit((c as int) % 16);
            assert(hex_val('0') == 0);
            assert(hex4_val(s, i + 2) == hex_val(s[i + 4]) * 16 + hex_val(s[i + 5]));
            assert(hex4_val(s, i + 2) == c as int);
            assert((c as u32) as int == c as int);
            vstd::utf8::char_u32_cast(c, c as u32);
            assert(((c as int) as char) == c);
        } else {
            assert(s[i] == c);
            assert(!is_control(c));
        }
    }
}

/// Spanning digits inside a copied lexeme mirrors spanning them in the
/// lexeme itself, as long as no digit follows the copy.
proof fn lemma_span_shift(s: Seq<char>, i: int, lex: Seq<char>, j: int)
    requires
        0 <= i,
        0 <= j <= lex.len(),
        i + lex.len() <= s.len(),
        s.subrange(i, i + lex.len() as int) == lex,
        num_delim_ok(s, i + lex.len()),
    ensures
        span_digits(s, i + j) == i + span_digits(lex, j),
    decreases lex.len() - j,
{
    assert forall|k: int| 0 <= k < lex.len() implies s[i + k] == lex[k] by {
        assert(s.subrange(i, i + lex.len() as int)[k] == s[i + k]);
    }
    if j < lex.len() && is_digit(lex[j]) {
        lemma_span_shift(s, i, lex, j + 1);
    }
}

/// Reading back a number: a lexeme that reads as one whole number,
/// copied into a text and followed by no digit, dot or exponent mark,
/// reads as itself.
proof fn lemma_number_roundtrip(s: Seq<char>, i: int, lex: Seq<char>)
    requires
        parse_number(lex, 0) == Some((lex, lex.len() as int)),
        0 <= i,
        i + lex.len() <= s.len(),
        s.subrange(i, i + lex.len() as int) == lex,
        num_delim_ok(s, i + lex.len()),
    ensures
        parse_number(s, i) == Some((lex, i + lex.len())),
{
    let ll = lex.len() as int;
    assert forall|k: int| 0 <= k < ll implies s[i + k] == lex[k] by {
        assert(s.subrange(i, i + ll)[k] == s[i + k]);
    }
    assert(lex.subrange(0, ll) =~= lex);
    // the standalone parse fixes every stage of the grammar walk
    let p0 = if 0 < ll && lex[0] == '-' {
        1int
    } else {
        0int
    };
    assert(int_digits_end(lex, p0) is Some);
    assert(ll >= 1);
    let q0 = int_digits_end(lex, p0)->0;
    let q20 = frac_end(lex, q0)->0;
    // the sign reads the same way
    let p = if i < s.len() && s[i] == '-' {
        i + 1
    } else {
        i
    };
    assert(p == i + p0);
    // the integer digits end at the same offset
    lemma_span_digits(lex, p0);
    lemma_span_shift(s, i, lex, p0);
    assert(int_digits_end(s, p) == Some(i + q0));
    // the fraction, when one stands there, ends at the same offset
    lemma_span_digits(lex, q0);
    if q0 < ll && lex[q0] == '.' {
        assert(frac_end(lex, q0) is Some);
        assert(q0 + 1 < ll && is_digit(lex[q0 + 1]));
        lemma_span_shift(s, i, lex, q0 + 1);
        assert(frac_end(s, i + q0) == Some(i + q20));
    } else {
        assert(frac_end(lex, q0) == Some(q0));
        if i + q0 < s.len() {
            assert(s[i + q0] != '.');
        }
        assert(frac_end(s, i + q0) == Some(i + q0));
    }
    // the exponent, when one stands there, ends at the same offset
    if q20 < ll && (lex[q20] == 'e' || lex[q20] == 'E') {
        let q3 = if q20 + 1 < ll && (lex[q20 + 1] == '+' || lex[q20 + 1] == '-') {
            q20 + 2
        } else {
            q20 + 1
        };
        assert(exp_end(lex, q20) is Some);
        assert(q3 < ll && is_digit(lex[q3]));
        let q3s = if i + q20 + 1 < s.len() && (s[i + q20 + 1] == '+' || s[i + q20 + 1]
            == '-') {
            i + q20 + 2
        } else {
            i + q20 + 1
        };
        assert(q3s == i + q3);
        lemma_span_shift(s, i, lex, q3);
        assert(exp_end(s, i + q20) == Some(i + exp_end(lex, q20)->0));
    } else {
        assert(exp_end(lex, q20) == Some(q20));
        if i + q20 < s.len() {
            assert(s[i + q20] != 'e' && s[i + q20] != 'E');
        }
        assert(exp_end(s, i + q20) == Some(i + q20));
    }
    assert(exp_end(lex, q20)->0 == ll);
    assert(s.subrange(i, i + ll) == lex);
}

/// Writing an array's elements decomposes from the front as well.
proof fn lemma_ser_items_first(items: Seq<JsonV>)
    requires
        items.len() >= 1,
    ensures
        items.len() == 1 ==> ser_items(items) == ser_value(items.first()),
        items.len() > 1 ==> ser_items(items) == ser_value(items.first()) + seq![',']
            + ser_items(items.drop_first()),
    decreases items.len(),
{
    if items.len() == 1 {
        assert(items[0] == items.first());
    } else if items.len() == 2 {
        lemma_ser_items_first(items.drop_last());
        lemma_ser_items_first(items.drop_first());
        assert(items.drop_last() =~= seq![items.first()]);
        assert(items.drop_first() =~= seq![items.last()]);
        assert(items.drop_last().first() == items.first());
        assert(items.drop_first().first() == items.last());
        assert(ser_items(items) == ser_items(items.drop_last()) + seq![','] + ser_value(
            items.last(),
        ));
        assert(ser_items(items) =~= ser_value(items.first()) + seq![','] + ser_items(
            items.drop_first(),
        ));
    } else {
        lemma_ser_items_first(items.drop_last());
        let a = ser_value(items.first());
        let comma = seq![','];
        assert(items.drop_last().first() == items.first());
        assert(items.drop_last().drop_first() =~= items.drop_first().drop_last());
        let b = ser_items(items.drop_first().drop_last());
        assert(ser_items(items.drop_last()) == a + comma + b);
        let c = ser_value(items.last());
        assert(ser_items(items) == (a + comma + b) + comma + c);
        assert(items.drop_first().last() == items.last());
        assert(items.drop_first().len() >= 2);
        assert(ser_items(items.drop_first()) == b + comma + c);
        assert((a + comma + b) + comma + c =~= a + comma + (b + comma + c));
        assert(ser_items(items) =~= a + comma + ser_items(items.drop_first()));
    }
}

/// Writing an object's members decomposes from the front as well.
proof fn lemma_ser_members_first(members: Seq<(Seq<char>, JsonV)>)
    requires
        members.len() >= 1,
    ensures
        members.len() == 1 ==> ser_members(members) == ser_member(members.first()),
        members.len() > 1 ==> ser_members(members) == ser_member(members.first()) + seq![',']
            + ser_members(members.drop_first()),
    decreases members.len(),
{
    if members.len() == 1 {
        assert(members[0] == members.first());
    } else if members.len() == 2 {
        lemma_ser_members_first(members.drop_last());
        lemma_ser_members_first(members.drop_first());
        assert(members.drop_last() =~= seq![members.first()]);
        assert(members.drop_first() =~= seq![members.last()]);
        assert(members.drop_last().first() == members.first());
        assert(members.drop_first().first() == members.last());
        assert(ser_members(members) == ser_members(members.drop_last()) + seq![','] + ser_member(
            members.last(),
        ));
        assert(ser_members(members) =~= ser_member(members.first()) + seq![','] + ser_members(
            members.drop_first(),
        ));
    } else {
        lemma_ser_members_first(members.drop_last());
        let a = ser_member(members.first());
        let comma = seq![','];
        assert(members.drop_last().first() == members.first());
        assert(members.drop_last().drop_first() =~= members.drop_first().drop_last());
        let b = ser_members(members.drop_first().drop_last());
        assert(ser_members(members.drop_last()) == a + comma + b);
        let c = ser_member(members.last());
        assert(ser_members(members) == (a + comma + b) + comma + c);
        assert(members.drop_first().last() == members.last());
        assert(members.drop_first().len() >= 2);
        assert(ser_members(members.drop_first()) == b + comma + c);
        assert((a + comma + b) + comma + c =~= a + comma + (b + comma + c));
        assert(ser_members(members) =~= a + comma + ser_members(members.drop_first()));
    }
}

/// What a written value can begin with: never whitespace, and never a
/// closer or separator.
proof fn lemma_ser_head(v: JsonV)
    requires
        wf_json(v),
    ensures
        ser_value(v).len() >= 1,
        !is_ws(ser_value(v)[0]),
        ser_value(v)[0] != ']',
        ser_value(v)[0] != '}',
        ser_value(v)[0] != ',',
        ser_value(v)[0] != ':',
{
    match v {
        JsonV::Num(lex) => {
            assert(int_digits_end(lex, if 0 < lex.len() && lex[0] == '-' {
                1int
            } else {
                0int
            }) is Some);
            assert(lex.len() >= 1);
            if lex[0] != '-' {
                assert(is_digit(lex[0]));
            }
        },
        _ => {},
    }
}

/// Reading the pieces of a wrapped span: an opener, a copied middle,
/// a closer.
proof fn lemma_wrapped(s: Seq<char>, i: int, open: char, mid: Seq<char>, close: char)
    requires
        0 <= i,
        i + mid.len() + 2 <= s.len(),
        s.subrange(i, i + mid.len() + 2) == seq![open] + mid + seq![close],
    ensures
        s[i] == open,
        s[i + 1 + mid.len()] == close,
        s.subrange(i + 1, i + 1 + mid.len() as int) == mid,
{
    let w = seq![open] + mid + seq![close];
    assert forall|k: int| 0 <= k < w.len() implies s[i + k] == w[k] by {
        assert(s.subrange(i, i + mid.len() + 2)[k] == s[i + k]);
    }
    assert((seq![open] + mid)[0] == open);
    assert(w[0] == (seq![open] + mid)[0]);
    assert(s[i + 0] == w[0]);
    assert(w[1 + mid.len() as int] == seq![close][0]);
    assert(s[i + (1 + mid.len() as int)] == w[1 + mid.len() as int]);
    assert forall|k: int| 0 <= k < mid.len() implies s.subrange(
        i + 1,
        i + 1 + mid.len() as int,
    )[k] == mid[k] by {
        assert(s[i + (1 + k)] == w[1 + k]);
        assert(w[1 + k] == (seq![open] + mid)[1 + k]);
        assert((seq![open] + mid)[1 + k] == mid[k]);
    }
    assert(s.subrange(i + 1, i + 1 + mid.len() as int) =~= mid);
}

/// Reading the pieces of a copied element list: the first element, then
/// either the separator and the rest, or nothing.
proof fn lemma_front_split(s: Seq<char>, i: int, fe: Seq<char>, re: Seq<char>)
    requires
        0 <= i,
        i + fe.len() + 1 + re.len() <= s.len(),
        s.subrange(i, i + fe.len() + 1 + re.len()) == fe + seq![','] + re,
    ensures
        s.subrange(i, i + fe.len() as int) == fe,
        s[i + fe.len()] == ',',
        s.subrange(i + fe.len() + 1, i + fe.len() + 1 + re.len() as int) == re,
{
    let w = fe + seq![','] + re;
    let fl = fe.len() as int;
    assert forall|k: int| 0 <= k < w.len() implies s[i + k] == w[k] by {
        assert(s.subrange(i, i + w.len() as int)[k] == s[i + k]);
    }
    assert forall|k: int| 0 <= k < fl implies s.subrange(i, i + fl)[k] == fe[k] by {
        assert(s[i + k] == w[k]);
        assert(w[k] == (fe + seq![','])[k]);
        assert((fe + seq![','])[k] == fe[k]);
    }
    assert(s.subrange(i, i + fl) =~= fe);
    assert((fe + seq![','])[fl] == seq![','][0]);
    assert(w[fl] == (fe + seq![','])[fl]);
    assert(s[i + fl] == w[fl]);
    assert forall|k: int| 0 <= k < re.len() implies s.subrange(
        i + fl + 1,
        i + fl + 1 + re.len() as int,
    )[k] == re[k] by {
        assert(s[i + (fl + 1 + k)] == w[fl + 1 + k]);
        assert(w[fl + 1 + k] == re[k]);
    }
    assert(s.subrange(i + fl + 1, i + fl + 1 + re.len() as int) =~= re);
}

/// Reading back one written value: the writer's text for `v`, copied
/// into a larger text and followed by nothing that could extend a
/// number, reads as exactly `v`.
proof fn lemma_value_roundtrip(s: Seq<char>, i: int, v: JsonV, d: nat)
    requires
        wf_json(v),
        0 <= i,
        i + ser_value(v).len() <= s.len(),
        s.subrange(i, i + ser_value(v).len() as int) == ser_value(v),
        num_delim_ok(s, i + ser_value(v).len() as int),
        d >= fuel_for(v),
    ensures
        parse_value(s, i, d) == Some((v, i + ser_value(v).len())),
    decreases v,
{
    let e = ser_value(v);
    let ll = e.len() as int;
    assert forall|k: int| 0 <= k < ll implies s[i + k] == e[k] by {
        assert(s.subrange(i, i + ll)[k] == s[i + k]);
    }
    match v {
        JsonV::Null => {
            assert(e[0] == 'n' && e[1] == 'u' && e[2] == 'l' && e[3] == 'l');
            assert(s[i + 0] == e[0] && s[i + 1] == e[1] && s[i + 2] == e[2] && s[i + 3]
                == e[3]);
        },
        JsonV::Bool(b) => {
            if b {
                assert(e[0] == 't' && e[1] == 'r' && e[2] == 'u' && e[3] == 'e');
                assert(s[i + 0] == e[0] && s[i + 1] == e[1] && s[i + 2] == e[2] && s[i + 3]
                    == e[3]);
            } else {
                assert(e[0] == 'f' && e[1] == 'a' && e[2] == 'l' && e[3] == 's' && e[4]
                    == 'e');
                assert(s[i + 0] == e[0] && s[i + 1] == e[1] && s[i + 2] == e[2] && s[i + 3]
                    == e[3] && s[i + 4] == e[4]);
            }
        },
        JsonV::Num(lex) => {
            assert(int_digits_end(lex, if 0 < lex.len() && lex[0] == '-' {
                1int
            } else {
                0int
            }) is Some);
            assert(lex.len() >= 1);
            if lex[0] != '-' {
                assert(is_digit(lex[0]));
            }
            assert(s[i + 0] == e[0]);
            lemma_number_roundtrip(s, i, lex);
        },
        JsonV::Str(t) => {
            let body = esc_str(t);
            lemma_wrapped(s, i, '"', body, '"');
            lemma_string_body_roundtrip(s, i + 1, t);
        },
        JsonV::Arr(items) => {
            let body = ser_items(items);
            lemma_wrapped(s, i, '[', body, ']');
            if items.len() == 0 {
                assert(body =~= Seq::<char>::empty());
                assert(s[i + 1] == ']');
                lemma_skip_ws_noop(s, i + 1);
                assert(items =~= Seq::<JsonV>::empty());
                assert(parse_value(s, i, d) == Some((JsonV::Arr(Seq::empty()), i + 2)));
            } else {
                lemma_ser_items_first(items);
                lemma_ser_head(items.first());
                assert(body.len() >= 1);
                assert(s.subrange(i + 1, i + 1 + body.len() as int)[0] == body[0]);
                if items.len() == 1 {
                    assert(body[0] == ser_value(items.first())[0]);
                } else {
                    assert(body[0] == (ser_value(items.first()) + seq![','])[0]);
                    assert((ser_value(items.first()) + seq![','])[0] == ser_value(
                        items.first(),
                    )[0]);
                }
                assert(!is_ws(s[i + 1]) && s[i + 1] != ']');
                lemma_skip_ws_noop(s, i + 1);
                lemma_items_roundtrip(s, i + 1, items, (d - 1) as nat);
            }
        },
        JsonV::Obj(members) => {
            let body = ser_members(members);
            lemma_wrapped(s, i, '{', body, '}');
            if members.len() == 0 {
                assert(body =~= Seq::<char>::empty());
                assert(s[i + 1] == '}');
                lemma_skip_ws_noop(s, i + 1);
                assert(members =~= Seq::<(Seq<char>, JsonV)>::empty());
                assert(parse_value(s, i, d) == Some(
                    (JsonV::Obj(Seq::<(Seq<char>, JsonV)>::empty()), i + 2),
                ));
            } else {
                lemma_ser_members_first(members);
                assert(body.len() >= 1);
                assert(s.subrange(i + 1, i + 1 + body.len() as int)[0] == body[0]);
                assert(ser_member(members.first())[0] == (seq!['"']
                    + esc_str(members.first().0))[0]);
                if members.len() == 1 {
                    assert(body[0] == ser_member(members.first())[0]);
                } else {
                    assert(body[0] == (ser_member(members.first()) + seq![','])[0]);
                    assert((ser_member(members.first()) + seq![','])[0] == ser_member(
                        members.first(),
                    )[0]);
                }
                assert(s[i + 1] == '"');
                lemma_skip_ws_noop(s, i + 1);
                lemma_members_roundtrip(s, i + 1, members, (d - 1) as nat);
            }
        },
    }
}

/// Reading back written elements: the writer's comma-separated elements,
/// copied in front of a closing bracket, read as exactly those elements.
proof fn lemma_items_roundtrip(s: Seq<char>, i: int, items: Seq<JsonV>, d: nat)
    requires
        wf_items(items),
        items.len() >= 1,
        0 <= i,
        i + ser_items(items).len() + 1 <= s.len(),
        s.subrange(i, i + ser_items(items).len() as int) == ser_items(items),
        s[i + ser_items(items).len()] == ']',
        d >= fuel_items(items),
    ensures
        parse_items(s, i, d) == Some((items, i + ser_items(items).len() + 1)),
    decreases items,
{
    let whole = ser_items(items);
    let wl = whole.len() as int;
    lemma_ser_items_first(items);
    let first = items.first();
    let fe = ser_value(first);
    let fl = fe.len() as int;
    assert(wf_json(first));
    if items.len() == 1 {
        assert(whole == fe);
        assert(s[i + fl] == ']');
        lemma_value_roundtrip(s, i, first, (d - 1) as nat);
        lemma_skip_ws_noop(s, i + fl);
        assert(parse_items(s, i, d) == Some((seq![first], i + fl + 1)));
        assert(seq![first] =~= items);
    } else {
        let rest = items.drop_first();
        let re = ser_items(rest);
        assert(wf_items(rest) && rest.len() >= 1);
        assert(wf_json(rest.first()));
        assert(whole == fe + seq![','] + re);
        lemma_front_split(s, i, fe, re);
        lemma_value_roundtrip(s, i, first, (d - 1) as nat);
        lemma_skip_ws_noop(s, i + fl);
        lemma_ser_items_first(rest);
        lemma_ser_head(rest.first());
        assert(s.subrange(i + fl + 1, i + fl + 1 + re.len() as int)[0] == s[i + fl + 1]);
        if rest.len() == 1 {
            assert(re[0] == ser_value(rest.first())[0]);
        } else {
            assert(re[0] == (ser_value(rest.first()) + seq![','])[0]);
            assert((ser_value(rest.first()) + seq![','])[0] == ser_value(rest.first())[0]);
        }
        assert(!is_ws(s[i + fl + 1]));
        lemma_skip_ws_noop(s, i + fl + 1);
        assert(i + fl + 1 + re.len() == i + wl);
        assert(s[i + fl + 1 + re.len()] == ']');
        lemma_items_roundtrip(s, i + fl + 1, rest, (d - 1) as nat);
        assert(seq![first] + rest =~= items);
    }
}

/// Reading back written members: the writer's comma-separated members,
/// copied in front of a closing brace, read as exactly those members.
proof fn lemma_members_roundtrip(s: Seq<char>, i: int, members: Seq<(Seq<char>, JsonV)>, d: nat)
    requires
        wf_members(members),
        members.len() >= 1,
        0 <= i,
        i + ser_members(members).len() + 1 <= s.len(),
        s.subrange(i, i + ser_members(members).len() as int) == ser_members(members),
        s[i + ser_members(members).len()] == '}',
        d >= fuel_members(members),
    ensures
        parse_members(s, i, d) == Some((members, i + ser_members(members).len() + 1)),
    decreases members,
{
    let whole = ser_members(members);
    let wl = whole.len() as int;
    lemma_ser_members_first(members);
    let first = members.first();
    let key = first.0;
    let value = first.1;
    let fe = ser_member(first);
    let fl = fe.len() as int;
    let kb = esc_str(key);
    let kbl = kb.len() as int;
    let ve = ser_value(value);
    let vl = ve.len() as int;
    assert(wf_json(value));
    assert(fe == (seq!['"'] + kb + seq!['"', ':']) + ve);
    assert(fl == kbl + 3 + vl);
    let ghost head = seq!['"'] + kb + seq!['"', ':'];
    // the front member stands first in the copied span
    let delim: char = if members.len() == 1 {
        '}'
    } else {
        ','
    };
    if members.len() == 1 {
        assert(whole == fe);
        assert(s[i + fl] == '}');
    } else {
        assert(whole == fe + seq![','] + ser_members(members.drop_first()));
        lemma_front_split(s, i, fe, ser_members(members.drop_first()));
        assert(s[i + fl] == ',');
    }
    assert(s.subrange(i, i + fl) == fe);
    assert forall|k: int| 0 <= k < fl implies s[i + k] == fe[k] by {
        assert(s.subrange(i, i + fl)[k] == s[i + k]);
    }
    // the key's quoted body
    assert(fe[0] == head[0]);
    assert(head[0] == (seq!['"'] + kb)[0]);
    assert((seq!['"'] + kb)[0] == '"');
    assert(s[i + 0] == fe[0]);
    assert forall|k: int| 0 <= k < kbl implies s.subrange(i + 1, i + 1 + kbl)[k] == kb[k] by {
        assert(s[i + (1 + k)] == fe[1 + k]);
        assert(fe[1 + k] == head[1 + k]);
        assert(head[1 + k] == (seq!['"'] + kb)[1 + k]);
        assert((seq!['"'] + kb)[1 + k] == kb[k]);
    }
    assert(s.subrange(i + 1, i + 1 + kbl) =~= kb);
    assert(fe[1 + kbl] == head[1 + kbl]);
    assert(head[1 + kbl] == seq!['"', ':'][0]);
    assert(s[i + (1 + kbl)] == fe[1 + kbl]);
    assert(s[i + 1 + kbl] == '"');
    lemma_string_body_roundtrip(s, i + 1, key);
    assert(parse_string_body(s, i + 1) == Some((key, i + kbl + 2)));
    // the colon follows at once
    assert(fe[2 + kbl] == head[2 + kbl]);
    assert(head[2 + kbl] == seq!['"', ':'][1]);
    assert(s[i + (2 + kbl)] == fe[2 + kbl]);
    assert(s[i + kbl + 2] == ':');
    lemma_skip_ws_noop(s, i + kbl + 2);
    // the value follows at once and reads back
    lemma_ser_head(value);
    assert forall|k: int| 0 <= k < vl implies s.subrange(
        i + kbl + 3,
        i + kbl + 3 + vl,
    )[k] == ve[k] by {
        assert(s[i + (kbl + 3 + k)] == fe[kbl + 3 + k]);
        assert(fe[kbl + 3 + k] == ve[k]);
    }
    assert(s.subrange(i + kbl + 3, i + kbl + 3 + vl) =~= ve);
    assert(s.subrange(i + kbl + 3, i + kbl + 3 + vl)[0] == s[i + (kbl + 3)]);
    assert(!is_ws(s[i + kbl + 3]));
    lemma_skip_ws_noop(s, i + kbl + 3);
    assert(s[i + fl] == delim);
    assert(!(delim == 'e') && !(delim == 'E') && !(delim == '.') && !is_digit(delim));
    lemma_value_roundtrip(s, i + kbl + 3, value, (d - 1) as nat);
    lemma_skip_ws_noop(s, i + fl);
    if members.len() == 1 {
        assert(parse_members(s, i, d) == Some((seq![(key, value)], i + fl + 1)));
        assert(seq![(key, value)] =~= members);
    } else {
        let rest = members.drop_first();
        let re = ser_members(rest);
        assert(wf_members(rest) && rest.len() >= 1);
        lemma_ser_members_first(rest);
        assert(s.subrange(i + fl + 1, i + fl + 1 + re.len() as int) == re);
        assert(s.subrange(i + fl + 1, i + fl + 1 + re.len() as int)[0] == s[i + fl + 1]);
        assert(ser_member(rest.first())[0] == (seq!['"'] + esc_str(rest.first().0))[0]);
        if rest.len() == 1 {
            assert(re[0] == ser_member(rest.first())[0]);
        } else {
            assert(re[0] == (ser_member(rest.first()) + seq![','])[0]);
            assert((ser_member(rest.first()) + seq![','])[0] == ser_member(rest.first())[0]);
        }
        assert(s[i + fl + 1] == '"');
        lemma_skip_ws_noop(s, i + fl + 1);
        assert(i + fl + 1 + re.len() == i + wl);
        assert(s[i + fl + 1 + re.len()] == '}');
        lemma_members_roundtrip(s, i + fl + 1, rest, (d - 1) as nat);
        assert(seq![(key, value)] + rest =~= members);
    }
}

/// The entry budget covers any written value: reading spends at most
/// two units per written character.
proof fn lemma_fuel_bound(v: JsonV)
    requires
        wf_json(v),
    ensures
        fuel_for(v) <= 2 * ser_value(v).len(),
    decreases v,
{
    match v {
        JsonV::Num(lex) => {
            assert(int_digits_end(lex, if 0 < lex.len() && lex[0] == '-' {
                1int
            } else {
                0int
            }) is Some);
            assert(lex.len() >= 1);
        },
        JsonV::Arr(items) => {
            lemma_fuel_bound_items(items);
        },
        JsonV::Obj(members) => {
            lemma_fuel_bound_members(members);
        },
        _ => {},
    }
}

/// The element budget is likewise covered.
proof fn lemma_fuel_bound_items(items: Seq<JsonV>)
    requires
        wf_items(items),
    ensures
        fuel_items(items) <= 2 * ser_items(items).len() + 2,
    decreases items,
{
    if items.len() >= 1 {
        lemma_fuel_bound(items.first());
        lemma_fuel_bound_items(items.drop_first());
        lemma_ser_items_first(items);
        lemma_ser_head(items.first());
    }
}

/// The member budget is likewise covered.
proof fn lemma_fuel_bound_members(members: Seq<(Seq<char>, JsonV)>)
    requires
        wf_members(members),
    ensures
        fuel_members(members) <= 2 * ser_members(members).len() + 2,
    decreases members,
{
    if members.len() >= 1 {
        lemma_fuel_bound(members.first().1);
        lemma_fuel_bound_members(members.drop_first());
        lemma_ser_members_first(members);
    }
}

/// Round trip of the text itself: what the writer makes of a
/// well-formed document, the reader reads back as exactly that
/// document.
pub proof fn lemma_text_round_trip(v: JsonV)
    requires
        wf_json(v),
    ensures
        parse_text(ser_value(v)) == Some(v),
{
    let s = ser_value(v);
    lemma_ser_head(v);
    lemma_skip_ws_noop(s, 0);
    lemma_fuel_bound(v);
    assert(s.subrange(0, s.len() as int) =~= s);
    lemma_value_roundtrip(s, 0, v, ample_budget(s.len() as int));
    lemma_skip_ws_noop(s, s.len() as int);
}

/// A one-member object is well formed exactly when its value is.
pub proof fn lemma_wf_members_one(m: (Seq<char>, JsonV))
    ensures
        wf_members(seq![m]) <==> wf_json(m.1),
{
    reveal_with_fuel(wf_members, 2);
    assert(seq![m].drop_first() =~= Seq::<(Seq<char>, JsonV)>::empty());
    assert(seq![m].first() == m);
}

/// A two-member object is well formed exactly when both values are.
pub proof fn lemma_wf_members_two(m1: (Seq<char>, JsonV), m2: (Seq<char>, JsonV))
    ensures
        wf_members(seq![m1, m2]) <==> wf_json(m1.1) && wf_json(m2.1),
{
    reveal_with_fuel(wf_members, 2);
    assert(seq![m1, m2].drop_first() =~= seq![m2]);
    assert(seq![m1, m2].first() == m1);
    lemma_wf_members_one(m2);
}

/// A three-member object is well formed exactly when all three values
/// are.
pub proof fn lemma_wf_members_three(
    m1: (Seq<char>, JsonV),
    m2: (Seq<char>, JsonV),
    m3: (Seq<char>, JsonV),
)
    ensures
        wf_members(seq![m1, m2, m3]) <==> wf_json(m1.1) && wf_json(m2.1) && wf_json(m3.1),
{
    reveal_with_fuel(wf_members, 2);
    assert(seq![m1, m2, m3].drop_first() =~= seq![m2, m3]);
    assert(seq![m1, m2, m3].first() == m1);
    lemma_wf_members_two(m2, m3);
}

/// A spelled unsigned number is one whole number token.
pub proof fn lemma_dec_digits_wf(n: nat)
    ensures
        parse_number(dec_digits(n), 0) == Some((dec_digits(n), dec_digits(n).len() as int)),
{
    let ds = dec_digits(n);
    let dl = ds.len() as int;
    crate::numbers::lemma_dec_digits_val(n);
    assert(is_digit(ds[0]));
    assert(ds[0] != '-');
    lemma_span_digits(ds, 0);
    if ds[0] == '0' {
        assert(n == 0);
        assert(ds =~= seq![crate::numbers::digit_char(0)]);
        assert(int_digits_end(ds, 0) == Some(1int));
    } else {
        if span_digits(ds, 0) < dl {
            assert(is_digit(ds[span_digits(ds, 0)]));
            assert(false);
        }
        assert(int_digits_end(ds, 0) == Some(dl));
    }
    assert(frac_end(ds, dl) == Some(dl));
    assert(exp_end(ds, dl) == Some(dl));
    assert(ds.subrange(0, dl) =~= ds);
    if ds[0] == '0' {
        assert(frac_end(ds, 1) == Some(1int));
        assert(exp_end(ds, 1) == Some(1int));
        assert(ds.subrange(0, 1) =~= ds);
    }
}

/// A spelled signed number is one whole number token.
pub proof fn lemma_dec_int_wf(n: int)
    ensures
        parse_number(dec_int(n), 0) == Some((dec_int(n), dec_int(n).len() as int)),
{
    if n >= 0 {
        lemma_dec_digits_wf(n as nat);
    } else {
        let ds = dec_digits((-n) as nat);
        let lex = seq!['-'] + ds;
        let ll = lex.len() as int;
        crate::numbers::lemma_dec_digits_val((-n) as nat);
        assert(lex[0] == '-');
        assert forall|k: int| 0 <= k < ds.len() implies lex[1 + k] == ds[k] by {
            assert((seq!['-'] + ds)[1 + k] == ds[k]);
        }
        lemma_span_digits(lex, 1);
        assert(is_digit(lex[1]));
        if span_digits(lex, 1) < ll {
            assert(is_digit(lex[span_digits(lex, 1)]));
            assert(false);
        }
        if lex[1] == '0' {
            assert(ds[0] == '0');
            assert(-n == 0);
            assert(false);
        }
        assert(int_digits_end(lex, 1) == Some(ll));
        assert(frac_end(lex, ll) == Some(ll));
        assert(exp_end(lex, ll) == Some(ll));
        assert(lex.subrange(0, ll) =~= lex);
    }
}

} // verus!
