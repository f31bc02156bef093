//! Unsigned numerals.

use vstd::prelude::*;
use vstd::slice::slice_subrange;

verus! {

/// The value of `c` as a digit, letters of either case counting on from ten.
pub open spec fn digit(c: char) -> Option<nat> {
    if '0' <= c && c <= '9' {
        Some((c as u32 - '0' as u32) as nat)
    } else if 'a' <= c && c <= 'z' {
        Some((c as u32 - 'a' as u32 + 10) as nat)
    } else if 'A' <= c && c <= 'Z' {
        Some((c as u32 - 'A' as u32 + 10) as nat)
    } else {
        None
    }
}

/// Whether `c` is a digit in base `radix`.
pub open spec fn is_digit(c: char, radix: nat) -> bool {
    digit(c) matches Some(d) && d < radix
}

/// Whether `s` is made of digits in base `radix`.
pub open spec fn all_digits(s: Seq<char>, radix: nat) -> bool {
    forall|i: int| 0 <= i < s.len() ==> is_digit(#[trigger] s[i], radix)
}

/// The number that the digits `s` write in base `radix`.
pub open spec fn value(s: Seq<char>, radix: nat) -> nat
    decreases s.len(),
{
    if s.len() == 0 {
        0
    } else {
        value(s.drop_last(), radix) * radix + digit(s.last()).unwrap()
    }
}

/// `s` without the one plus sign that may lead a numeral.
pub open spec fn unsigned_part(s: Seq<char>) -> Seq<char> {
    if s.len() > 0 && s[0] == '+' {
        s.skip(1)
    } else {
        s
    }
}

/// The number that `s` writes in base `radix`: at least one digit, nothing else but one plus sign
/// before them, and no more than `max`.
pub open spec fn numeral(s: Seq<char>, radix: nat, max: nat) -> Option<nat> {
    let d = unsigned_part(s);
    if d.len() > 0 && all_digits(d, radix) && value(d, radix) <= max {
        Some(value(d, radix))
    } else {
        None
    }
}

/// The number that `s` writes in base `radix`.
pub fn parse_numeral(s: &[char], radix: u32, max: u64) -> (r: Option<u64>)
    requires
        2 <= radix <= 36,
    ensures
        match r {
            Some(v) => numeral(s@, radix as nat, max as nat) == Some(v as nat),
            None => numeral(s@, radix as nat, max as nat) is None,
        },
{
    let start: usize = if s.len() > 0 && s[0] == '+' {
        1
    } else {
        0
    };
    let d = slice_subrange(s, start, s.len());
    proof {
        assert(s@.subrange(0, s@.len() as int) =~= s@);
        assert(d@ == unsigned_part(s@));
    }
    if d.len() == 0 {
        return None;
    }
    let mut v: u64 = 0;
    let mut i: usize = 0;
    while i < d.len()
        invariant
            2 <= radix <= 36,
            i <= d@.len(),
            d@ == unsigned_part(s@),
            d@.len() > 0,
            all_digits(d@.take(i as int), radix as nat),
            v == value(d@.take(i as int), radix as nat),
            v <= max,
        decreases d@.len() - i,
    {
        let c = d[i];
        assert(d@.take(i + 1).drop_last() =~= d@.take(i as int));
        assert(d@.take(i + 1).last() == c);
        let x: u32 = if '0' <= c && c <= '9' {
            c as u32 - '0' as u32
        } else if 'a' <= c && c <= 'z' {
            c as u32 - 'a' as u32 + 10
        } else if 'A' <= c && c <= 'Z' {
            c as u32 - 'A' as u32 + 10
        } else {
            assert(!is_digit(d@[i as int], radix as nat));
            return None;
        };
        if x >= radix {
            assert(!is_digit(d@[i as int], radix as nat));
            return None;
        }
        assert(v * radix <= u64::MAX * 36) by (nonlinear_arith)
            requires
                v <= u64::MAX,
                radix <= 36,
        ;
        let next: u128 = v as u128 * radix as u128 + x as u128;
        if next > max as u128 {
            proof {
                if all_digits(d@, radix as nat) {
                    lemma_value_grows(d@, i + 1, radix as nat);
                }
            }
            return None;
        }
        v = next as u64;
        i = i + 1;
        assert(all_digits(d@.take(i as int), radix as nat)) by {
            assert forall|j: int| 0 <= j < i implies is_digit(
                #[trigger] d@.take(i as int)[j],
                radix as nat,
            ) by {
                if j < i - 1 {
                    assert(d@.take(i - 1)[j] == d@.take(i as int)[j]);
                }
            }
        }
    }
    assert(d@.take(i as int) =~= d@);
    Some(v)
}

/// A numeral is worth at least as much as any beginning of it.
proof fn lemma_value_grows(s: Seq<char>, k: int, radix: nat)
    requires
        0 <= k <= s.len(),
        radix >= 1,
    ensures
        value(s.take(k), radix) <= value(s, radix),
    decreases s.len(),
{
    if k == s.len() {
        assert(s.take(k) =~= s);
    } else {
        assert(s.drop_last().take(k) =~= s.take(k));
        lemma_value_grows(s.drop_last(), k, radix);
        let v = value(s.drop_last(), radix);
        assert(v * radix >= v) by (nonlinear_arith)
            requires
                radix >= 1,
        ;
    }
}

/// Digits count from nought, and letters of either case on from ten.
pub proof fn law_digits_count(c: char, d: char)
    requires
        c as u32 + 1 == d as u32,
    ensures
        digit('0') == Some(0nat) && digit('9') == Some(9nat),
        digit('a') == Some(10nat) && digit('A') == Some(10nat),
        digit('f') == Some(15nat) && digit('F') == Some(15nat),
        digit(c) is Some && digit(d) is Some ==> digit(d).unwrap() == digit(c).unwrap() + 1,
        digit(c) is Some && digit(d) is None ==> c == '9' || c == 'z' || c == 'Z',
        digit(c) is None && digit(d) is Some ==> d == '0' || d == 'a' || d == 'A',
{
}

/// One digit writes its own value, where that is not too much.
pub proof fn law_one_digit_numeral(c: char, radix: nat, max: nat)
    ensures
        numeral(seq![c], radix, max) == (if is_digit(c, radix) && digit(c).unwrap() <= max {
            digit(c)
        } else {
            None
        }),
{
    let s = seq![c];
    assert(s.drop_last().len() == 0);
    assert(value(s.drop_last(), radix) == 0);
    assert(value(s, radix) == digit(s.last()).unwrap()) by {
        assert(0 * radix == 0) by (nonlinear_arith);
    }
    if all_digits(s, radix) {
        assert(is_digit(s[0], radix));
    }
    if c == '+' {
        assert(s.skip(1).len() == 0);
    } else if is_digit(c, radix) {
        assert(all_digits(s, radix));
    }
}

/// A further digit behind a numeral makes it worth `radix` times as much and that digit; what is
/// then too much, or ends in no digit, is no numeral.
pub proof fn law_further_digit(s: Seq<char>, c: char, radix: nat, max: nat)
    requires
        numeral(s, radix, max) is Some,
        radix >= 1,
    ensures
        is_digit(c, radix) && numeral(s, radix, max).unwrap() * radix + digit(c).unwrap() <= max
            ==> numeral(s.push(c), radix, max) == Some(
            numeral(s, radix, max).unwrap() * radix + digit(c).unwrap(),
        ),
        is_digit(c, radix) && numeral(s, radix, max).unwrap() * radix + digit(c).unwrap() > max
            ==> numeral(s.push(c), radix, max) is None,
        !is_digit(c, radix) ==> numeral(s.push(c), radix, max) is None,
{
    let d = unsigned_part(s);
    let e = unsigned_part(s.push(c));
    assert(s.len() > 0);
    assert(e =~= d.push(c));
    assert(e.drop_last() =~= d);
    assert(e[e.len() - 1] == c);
    if is_digit(c, radix) {
        assert forall|i: int| 0 <= i < e.len() implies is_digit(#[trigger] e[i], radix) by {
            if i < d.len() {
                assert(e[i] == d[i]);
            }
        }
    }
}

/// One plus sign may lead a numeral; nothing, or a plus sign alone, is none; and neither is a text
/// that leaves one out once its last character is gone.
pub proof fn law_numeral_forms(s: Seq<char>, radix: nat, max: nat)
    requires
        radix >= 1,
    ensures
        numeral(Seq::empty(), radix, max) is None,
        numeral(seq!['+'], radix, max) is None,
        s.len() > 0 && s[0] != '+' ==> numeral(seq!['+'] + s, radix, max) == numeral(s, radix, max),
        s.len() > 0 && s[0] == '+' ==> numeral(seq!['+'] + s, radix, max) is None,
        s.len() > 1 && s.drop_last() != seq!['+'] && numeral(s.drop_last(), radix, max) is None
            ==> numeral(s, radix, max) is None,
{
    assert(seq!['+'].skip(1).len() == 0);
    assert((seq!['+'] + s).skip(1) =~= s);
    if s.len() > 0 && s[0] == '+' {
        assert(!is_digit(s[0], radix));
    }
    if s.len() > 1 && s.drop_last() != seq!['+'] && numeral(s, radix, max) is Some {
        let t = s.drop_last();
        let d = unsigned_part(t);
        let e = unsigned_part(s);
        assert(d =~= e.drop_last());
        if d.len() == 0 {
            assert(t =~= seq!['+']);
        }
        assert forall|i: int| 0 <= i < d.len() implies is_digit(#[trigger] d[i], radix) by {
            assert(is_digit(e[i], radix));
        }
        lemma_value_grows(e, d.len() as int, radix);
        assert(e.take(d.len() as int) =~= d);
    }
}

} // verus!
