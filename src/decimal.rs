//! Decimal text of unsigned integers, as JSON writes a number.
use vstd::prelude::*;

verus! {

/// The character of one decimal digit.
pub open spec fn digit_char(d: nat) -> char
    recommends
        d < 10,
{
    seq!['0', '1', '2', '3', '4', '5', '6', '7', '8', '9'][d as int]
}

pub open spec fn is_digit(c: char) -> bool {
    '0' <= c && c <= '9'
}

/// The value of one digit character.
pub open spec fn digit_value(c: char) -> nat {
    (c as u32 - '0' as u32) as nat
}

/// The decimal digits of `n`, most significant first, with no leading zero.
pub open spec fn decimal(n: nat) -> Seq<char>
    decreases n,
{
    if n < 10 {
        seq![digit_char(n)]
    } else {
        decimal(n / 10).push(digit_char(n % 10))
    }
}

/// The number that a run of digit characters spells.
pub open spec fn digits_value(s: Seq<char>) -> nat
    decreases s.len(),
{
    if s.len() == 0 {
        0
    } else {
        digits_value(s.drop_last()) * 10 + digit_value(s.last())
    }
}

pub open spec fn all_digits(s: Seq<char>) -> bool {
    forall|i: int| 0 <= i < s.len() ==> is_digit(#[trigger] s[i])
}

proof fn lemma_digit_char(d: nat)
    requires
        d < 10,
    ensures
        is_digit(digit_char(d)),
        digit_value(digit_char(d)) == d,
{
}

/// The decimal text of `n` is a non-empty run of digits that spells `n`.
pub proof fn lemma_decimal(n: nat)
    ensures
        decimal(n).len() >= 1,
        all_digits(decimal(n)),
        digits_value(decimal(n)) == n,
    decreases n,
{
    if n < 10 {
        lemma_digit_char(n);
        assert(decimal(n).drop_last() =~= Seq::<char>::empty());
        assert(digits_value(Seq::<char>::empty()) == 0);
    } else {
        lemma_decimal(n / 10);
        lemma_digit_char(n % 10);
        let s = decimal(n);
        assert(s.drop_last() =~= decimal(n / 10));
        assert(s.last() == digit_char(n % 10));
        assert(n == (n / 10) * 10 + n % 10);
        assert(digits_value(s) == digits_value(decimal(n / 10)) * 10 + digit_value(s.last()));
        assert(all_digits(s)) by {
            assert forall|i: int| 0 <= i < s.len() implies is_digit(#[trigger] s[i]) by {
                if i < s.len() - 1 {
                    assert(s[i] == decimal(n / 10)[i]);
                }
            }
        }
    }
}

/// Different numbers have different decimal texts.
pub proof fn lemma_decimal_injective(n: nat, m: nat)
    requires
        decimal(n) == decimal(m),
    ensures
        n == m,
{
    lemma_decimal(n);
    lemma_decimal(m);
}

/// `s` holds, from `pos`, the decimal text of `v`, followed by a non-digit or
/// by the end of `s`.
pub open spec fn number_at(s: Seq<char>, pos: int, v: nat) -> bool {
    let e = pos + decimal(v).len();
    &&& 0 <= pos
    &&& e <= s.len()
    &&& s.subrange(pos, e) == decimal(v)
    &&& (e == s.len() || !is_digit(s[e]))
}

proof fn lemma_digit_round_trip(c: char)
    requires
        is_digit(c),
    ensures
        digit_value(c) < 10,
        digit_char(digit_value(c)) == c,
{
}

/// A decimal text of more than one digit does not start with `0`.
proof fn lemma_no_leading_zero(n: nat)
    ensures
        decimal(n).len() > 1 ==> decimal(n)[0] != '0',
    decreases n,
{
    if n >= 10 {
        lemma_no_leading_zero(n / 10);
        lemma_decimal(n / 10);
        assert(decimal(n)[0] == decimal(n / 10)[0]);
        assert(digit_value('0') == 0);
        if n / 10 < 10 {
            lemma_digit_char(n / 10);
        } else {
            lemma_decimal(n / 100);
            assert(decimal(n / 10).len() > 1);
        }
    }
}

/// Dropping trailing digits does not make a number larger.
proof fn lemma_prefix_value(s: Seq<char>, j: int)
    requires
        0 <= j <= s.len(),
    ensures
        digits_value(s.subrange(0, j)) <= digits_value(s),
    decreases s.len(),
{
    if j < s.len() {
        assert(s.drop_last().subrange(0, j) =~= s.subrange(0, j));
        lemma_prefix_value(s.drop_last(), j);
    } else {
        assert(s.subrange(0, j) =~= s);
    }
}

/// A non-empty run of digits without a leading zero (but for `0` itself)
/// is the decimal text of the number it spells.
proof fn lemma_canonical(s: Seq<char>)
    requires
        s.len() >= 1,
        all_digits(s),
        s.len() == 1 || s[0] != '0',
    ensures
        decimal(digits_value(s)) == s,
    decreases s.len(),
{
    let p = s.drop_last();
    lemma_digit_round_trip(s.last());
    if s.len() == 1 {
        assert(digits_value(p) == 0);
        assert(decimal(digits_value(s)) =~= s);
    } else {
        assert(all_digits(p)) by {
            assert forall|i: int| 0 <= i < p.len() implies is_digit(#[trigger] p[i]) by {
                assert(p[i] == s[i]);
            }
        }
        assert(p[0] == s[0]);
        lemma_canonical(p);
        lemma_prefix_value(p, 1);
        assert(p.subrange(0, 1).drop_last() =~= Seq::<char>::empty());
        assert(digits_value(Seq::<char>::empty()) == 0);
        lemma_digit_round_trip(s[0]);
        assert(digits_value(p.subrange(0, 1)) == digit_value(s[0]));
        let v = digits_value(s);
        assert(v / 10 == digits_value(p) && v % 10 == digit_value(s.last()));
        assert(decimal(v) =~= s);
    }
}

/// Two numbers written at the same place are the same number.
pub proof fn lemma_number_at_unique(s: Seq<char>, pos: int, v: nat, w: nat)
    requires
        number_at(s, pos, v),
        number_at(s, pos, w),
    ensures
        v == w,
{
    lemma_decimal(v);
    lemma_decimal(w);
    let dv = decimal(v);
    let dw = decimal(w);
    if dv.len() < dw.len() {
        assert(s.subrange(pos, pos + dw.len())[dv.len() as int] == s[pos + dv.len()]);
    } else if dw.len() < dv.len() {
        assert(s.subrange(pos, pos + dv.len())[dw.len() as int] == s[pos + dw.len()]);
    } else {
        lemma_decimal_injective(v, w);
    }
}

/// Reads the number written at `pos` in `text`: its value and the position
/// just past it; nothing where no number that fits a `usize` is written there.
pub fn parse_number(text: &str, n: usize, pos: usize) -> (r: Option<(usize, usize)>)
    requires
        n == text@.len(),
        pos <= n,
    ensures
        r matches Some((v, e)) ==> number_at(text@, pos as int, v as nat) && e == pos + decimal(
            v as nat,
        ).len(),
        r is None ==> forall|v: nat| v <= usize::MAX ==> !number_at(text@, pos as int, v),
{
    let ghost s = text@;
    let mut e: usize = pos;
    loop
        invariant
            pos <= e <= n,
            n == s.len(),
            s == text@,
            forall|i: int| pos <= i < e ==> is_digit(#[trigger] s[i]),
        ensures
            pos <= e <= n,
            forall|i: int| pos <= i < e ==> is_digit(#[trigger] s[i]),
            e == n || !is_digit(s[e as int]),
        decreases n - e,
    {
        if e >= n {
            break;
        }
        let c = text.get_char(e);
        if !('0' <= c && c <= '9') {
            break;
        }
        e = e + 1;
    }
    let ghost run = s.subrange(pos as int, e as int);
    assert(all_digits(run));
    // a number written at `pos` is this whole run of digits
    assert forall|v: nat| number_at(s, pos as int, v) implies decimal(v) == run by {
        lemma_decimal(v);
        let d = decimal(v);
        let k = pos + d.len();
        if k == e {
            assert(d =~= run);
        } else if k < e {
            assert(s.subrange(pos as int, k)[d.len() - 1] == d[d.len() - 1]);
            assert(is_digit(s[k]));
        } else if k > e {
            assert(s.subrange(pos as int, k)[e - pos] == s[e as int]);
            assert(is_digit(d[e - pos]));
        }
    }
    if e == pos {
        assert forall|v: nat| v <= usize::MAX implies !number_at(s, pos as int, v) by {
            lemma_decimal(v);
        }
        return None;
    }
    if e - pos > 1 && text.get_char(pos) == '0' {
        assert forall|v: nat| v <= usize::MAX implies !number_at(s, pos as int, v) by {
            lemma_no_leading_zero(v);
            if number_at(s, pos as int, v) {
                assert(run[0] == s[pos as int]);
            }
        }
        return None;
    }
    let mut acc: usize = 0;
    let mut k: usize = pos;
    while k < e
        invariant
            pos <= k <= e <= n,
            n == s.len(),
            s == text@,
            run == s.subrange(pos as int, e as int),
            all_digits(run),
            acc == digits_value(run.subrange(0, k - pos)),
            forall|v: nat| #[trigger] number_at(s, pos as int, v) ==> decimal(v) == run,
        decreases e - k,
    {
        let c = text.get_char(k);
        proof {
            assert(c == run[k - pos]);
            lemma_digit_round_trip(c);
        }
        let d = (c as u32 - '0' as u32) as usize;
        proof {
            let next = run.subrange(0, k - pos + 1);
            assert(next.drop_last() =~= run.subrange(0, k - pos));
            assert(digits_value(next) == acc * 10 + d);
        }
        let grown = match acc.checked_mul(10) {
            Some(m) => m.checked_add(d),
            None => None,
        };
        match grown {
            Some(g) => {
                acc = g;
            },
            None => {
                assert(digits_value(run.subrange(0, k - pos + 1)) > usize::MAX);
                assert forall|v: nat| v <= usize::MAX implies !number_at(s, pos as int, v) by {
                    lemma_prefix_value(run, k - pos + 1);
                    lemma_decimal(v);
                    if number_at(s, pos as int, v) {
                        assert(decimal(v) == run);
                    }
                }
                return None;
            },
        }
        k = k + 1;
    }
    proof {
        assert(run.subrange(0, e - pos) =~= run);
        lemma_canonical(run);
        assert(decimal(acc as nat) == run);
    }
    Some((acc, e))
}

/// Relies on serde_json::to_string for a `usize`: serde serializes it as a
/// `u64`, which serde_json writes with itoa into a `Vec<u8>`; writing to a
/// `Vec` cannot fail, and itoa writes the plain decimal digits.
#[verifier::external_body]
fn json_number(n: usize) -> (r: Option<String>)
    ensures
        r is Some,
        r->Some_0@ == decimal(n as nat),
{
    serde_json::to_string(&n).ok()
}

/// The decimal text of `n`, as JSON writes it.
pub fn number_text(n: usize) -> (r: String)
    ensures
        r@ == decimal(n as nat),
{
    match json_number(n) {
        Some(s) => s,
        None => String::new(),
    }
}

} // verus!
