//! Decimal spellings of integers: printing and reading, with the spelling
//! pinned down mathematically.

use vstd::prelude::*;

verus! {

/// Is `c` a decimal digit?
pub open spec fn is_digit(c: char) -> bool {
    '0' <= c && c <= '9'
}

/// The value of one digit.
pub open spec fn digit_val(c: char) -> nat {
    ((c as int) - ('0' as int)) as nat
}

/// The digit with value `d`.
pub open spec fn digit_char(d: nat) -> char {
    (('0' as nat) + d) as char
}

/// The decimal spelling of `n`: most significant digit first, a single
/// `'0'` for zero, never a leading zero otherwise.
pub open spec fn dec_digits(n: nat) -> Seq<char>
    decreases n,
{
    if n < 10 {
        seq![digit_char(n)]
    } else {
        dec_digits(n / 10).push(digit_char(n % 10))
    }
}

/// The decimal spelling of a signed number: a minus sign before the
/// spelling of the magnitude when it is negative.
pub open spec fn dec_int(n: int) -> Seq<char> {
    if n < 0 {
        seq!['-'] + dec_digits((-n) as nat)
    } else {
        dec_digits(n as nat)
    }
}

/// The number a digit string spells, most significant digit first.
pub open spec fn dec_val(s: Seq<char>) -> nat
    decreases s,
{
    if s.len() == 0 {
        0
    } else {
        dec_val(s.drop_last()) * 10 + digit_val(s.last())
    }
}

/// The spelling of `n` consists of digits, and spells `n`.
pub proof fn lemma_dec_digits_val(n: nat)
    ensures
        dec_digits(n).len() >= 1,
        forall|i: int| 0 <= i < dec_digits(n).len() ==> is_digit(#[trigger] dec_digits(n)[i]),
        dec_val(dec_digits(n)) == n,
        n >= 10 ==> dec_digits(n)[0] == dec_digits(n / 10)[0],
        dec_digits(n)[0] == '0' ==> n == 0,
    decreases n,
{
    if n < 10 {
        assert(dec_digits(n).drop_last() =~= Seq::<char>::empty());
        assert(dec_val(dec_digits(n)) == dec_val(Seq::<char>::empty()) * 10 + digit_val(
            digit_char(n),
        ));
        assert(digit_val(digit_char(n)) == n);
        assert(is_digit(digit_char(n)));
        if digit_char(n) == '0' {
            assert(n == 0);
        }
    } else {
        lemma_dec_digits_val(n / 10);
        assert(dec_digits(n).drop_last() =~= dec_digits(n / 10));
        assert(dec_val(dec_digits(n)) == (n / 10) * 10 + n % 10);
        assert((n / 10) * 10 + n % 10 == n) by (nonlinear_arith);
        assert(is_digit(digit_char(n % 10)));
        assert(digit_val(digit_char(n % 10)) == n % 10);
        assert(dec_digits(n)[0] == dec_digits(n / 10)[0]);
    }
}

/// A longer digit string never spells a smaller number: the value of a
/// prefix is at most the value of the whole.
pub proof fn lemma_dec_val_prefix(s: Seq<char>, i: int)
    requires
        0 <= i <= s.len(),
    ensures
        dec_val(s.subrange(0, i)) <= dec_val(s),
    decreases s.len() - i,
{
    if i < s.len() {
        lemma_dec_val_prefix(s, i + 1);
        let a = s.subrange(0, i);
        let b = s.subrange(0, i + 1);
        assert(b.drop_last() =~= a);
        assert(dec_val(b) == dec_val(a) * 10 + digit_val(b.last()));
        assert(dec_val(a) <= dec_val(a) * 10) by (nonlinear_arith)
            requires dec_val(a) >= 0;
    } else {
        assert(s.subrange(0, i) =~= s);
    }
}

/// Is this character a decimal digit?
pub fn is_digit_at(c: char) -> (r: bool)
    ensures
        r == is_digit(c),
{
    let u: u32 = c as u32;
    48 <= u && u <= 57
}

/// The digits of `n`, most significant first.
pub fn u64_to_dec(n: u64) -> (r: Vec<char>)
    ensures
        r@ == dec_digits(n as nat),
{
    let mut low: Vec<char> = Vec::new();
    let mut m: u64 = n;
    loop
        invariant_except_break
            m == 0 ==> low@.len() == 0,
        invariant
            low@.len() == 0 ==> m == n,
            m == 0 && low@.len() > 0 ==> dec_digits(n as nat) =~= low@.reverse(),
            m > 0 ==> dec_digits(n as nat) =~= dec_digits(m as nat) + low@.reverse(),
        ensures
            low@.len() > 0,
            dec_digits(n as nat) =~= low@.reverse(),
        decreases m, (if low@.len() == 0 { 1int } else { 0int }),
    {
        let d: u64 = m % 10;
        let c: char = (48u8 + (d as u8)) as char;
        proof {
            assert(c == digit_char(d as nat));
            let rest = (m / 10) as nat;
            if m >= 10 {
                assert(dec_digits(m as nat) =~= dec_digits(rest).push(digit_char(m as nat % 10)));
                assert(dec_digits(rest) + (seq![c] + low@.reverse()) =~= dec_digits(m as nat)
                    + low@.reverse());
            }
            if m < 10 {
                assert(dec_digits(m as nat) =~= seq![c]);
            }
            assert(low@.push(c).reverse() =~= seq![c] + low@.reverse());
            if low@.len() == 0 && m == 0 {
                assert(dec_digits(n as nat) =~= seq![c]);
            }
        }
        low.push(c);
        m = m / 10;
        if m == 0 {
            proof {
                assert(low@.reverse() =~= seq![c] + low@.drop_last().reverse());
                assert(dec_digits(n as nat) =~= low@.reverse());
            }
            break;
        }
    }
    let mut out: Vec<char> = Vec::new();
    let mut i: usize = low.len();
    while i > 0
        invariant
            i <= low@.len(),
            out@ =~= low@.reverse().subrange(0, low@.len() - i),
        decreases i,
    {
        i -= 1;
        out.push(low[i]);
        proof {
            assert(out@ =~= low@.reverse().subrange(0, low@.len() - i));
        }
    }
    proof {
        assert(out@ =~= low@.reverse());
    }
    out
}

/// The spelling of a signed number, minus sign first when negative.
pub fn i64_to_dec(n: i64) -> (r: Vec<char>)
    ensures
        r@ == dec_int(n as int),
{
    if n >= 0 {
        u64_to_dec(n as u64)
    } else {
        let mag: u64 = ((-(n + 1)) as u64) + 1;
        proof {
            assert(mag as nat == (-(n as int)) as nat);
        }
        let digits = u64_to_dec(mag);
        let mut out: Vec<char> = Vec::new();
        out.push('-');
        let mut i: usize = 0;
        while i < digits.len()
            invariant
                i <= digits@.len(),
                out@ =~= seq!['-'] + digits@.subrange(0, i as int),
            decreases digits@.len() - i,
        {
            out.push(digits[i]);
            proof {
                assert(out@ =~= seq!['-'] + digits@.subrange(0, i + 1 as int));
            }
            i += 1;
        }
        proof {
            assert(digits@.subrange(0, digits@.len() as int) =~= digits@);
        }
        out
    }
}

/// Read an unsigned number from `s[from..to]`, all digits; nothing comes
/// back exactly when the value does not fit in 64 bits.
pub fn dec_to_u64(s: &Vec<char>, from: usize, to: usize) -> (r: Option<u64>)
    requires
        from <= to <= s@.len(),
        forall|i: int| from <= i < to ==> is_digit(#[trigger] s@[i]),
    ensures
        match r {
            Some(v) => v as nat == dec_val(s@.subrange(from as int, to as int)),
            None => dec_val(s@.subrange(from as int, to as int)) > u64::MAX,
        },
{
    let ghost whole = s@.subrange(from as int, to as int);
    let mut acc: u64 = 0;
    let mut i: usize = from;
    while i < to
        invariant
            from <= i <= to <= s@.len(),
            forall|j: int| from <= j < to ==> is_digit(#[trigger] s@[j]),
            acc as nat == dec_val(s@.subrange(from as int, i as int)),
            whole == s@.subrange(from as int, to as int),
        decreases to - i,
    {
        let c: char = s[i];
        let d: u64 = (c as u8 - 48u8) as u64;
        proof {
            assert(is_digit(s@[i as int]));
            assert(d as nat == digit_val(s@[i as int]));
            assert(s@.subrange(from as int, i + 1 as int).drop_last() =~= s@.subrange(
                from as int,
                i as int,
            ));
        }
        let shifted = match acc.checked_mul(10) {
            Some(v) => v,
            None => {
                proof {
                    lemma_dec_val_prefix(whole, i + 1 - from);
                    assert(whole.subrange(0, i + 1 - from) =~= s@.subrange(
                        from as int,
                        i + 1 as int,
                    ));
                    assert(dec_val(s@.subrange(from as int, i + 1 as int)) > u64::MAX);
                }
                return None;
            },
        };
        let next = match shifted.checked_add(d) {
            Some(v) => v,
            None => {
                proof {
                    lemma_dec_val_prefix(whole, i + 1 - from);
                    assert(whole.subrange(0, i + 1 - from) =~= s@.subrange(
                        from as int,
                        i + 1 as int,
                    ));
                    assert(dec_val(s@.subrange(from as int, i + 1 as int)) > u64::MAX);
                }
                return None;
            },
        };
        acc = next;
        i += 1;
    }
    proof {
        assert(s@.subrange(from as int, to as int) =~= whole);
    }
    Some(acc)
}

} // verus!
