//! Byte offsets into text: where the UTF-8 encoding of a text can be cut.

use vstd::prelude::*;
use vstd::slice::slice_subrange;
use vstd::utf8::encode_utf8;

verus! {

/// How many bytes the UTF-8 encoding of `c` takes.
pub open spec fn char_bytes(c: char) -> int {
    let n = c as u32;
    if n < 0x80 {
        1
    } else if n < 0x800 {
        2
    } else if n < 0x10000 {
        3
    } else {
        4
    }
}

/// How many bytes the UTF-8 encoding of `s` takes.
pub open spec fn byte_len(s: Seq<char>) -> int
    decreases s.len(),
{
    if s.len() == 0 {
        0
    } else {
        char_bytes(s[0]) + byte_len(s.skip(1))
    }
}

/// How many characters of `s` its first `n` bytes encode; `None` where `s` is shorter than that
/// or the cut would fall inside a character.
pub open spec fn cut(s: Seq<char>, n: int) -> Option<int>
    decreases s.len(),
{
    if n == 0 {
        Some(0)
    } else if s.len() == 0 || n < char_bytes(s[0]) {
        None
    } else {
        match cut(s.skip(1), n - char_bytes(s[0])) {
            Some(k) => Some(k + 1),
            None => None,
        }
    }
}

/// The part of `s` between two byte offsets; `None` where either is no place to cut.
pub open spec fn byte_slice(s: Seq<char>, from: int, to: int) -> Option<Seq<char>> {
    match (cut(s, from), cut(s, to)) {
        (Some(i), Some(j)) => if i <= j {
            Some(s.subrange(i, j))
        } else {
            None
        },
        _ => None,
    }
}

/// `byte_len` counts the bytes of the UTF-8 encoding.
pub proof fn law_byte_len_counts_utf8(s: Seq<char>)
    ensures
        byte_len(s) == encode_utf8(s).len(),
    decreases s.len(),
{
    if s.len() > 0 {
        assert(s.drop_first() == s.skip(1));
        vstd::utf8::char_is_scalar(s[0]);
        law_byte_len_counts_utf8(s.skip(1));
    }
}

/// A cut after `n` bytes leaves before it the characters whose encoding takes `n` bytes.
pub proof fn law_cut_takes_bytes(s: Seq<char>, n: int)
    ensures
        cut(s, n) matches Some(k) ==> 0 <= k <= s.len() && byte_len(s.take(k)) == n,
    decreases s.len(),
{
    if n == 0 {
        assert(s.take(0).len() == 0);
    } else if s.len() > 0 && n >= char_bytes(s[0]) {
        law_cut_takes_bytes(s.skip(1), n - char_bytes(s[0]));
        if let Some(k) = cut(s.skip(1), n - char_bytes(s[0])) {
            assert(s.take(k + 1).skip(1) == s.skip(1).take(k));
            assert(s.take(k + 1)[0] == s[0]);
        }
    }
}

/// Every place between two characters can be cut at.
pub proof fn law_cut_between_characters(s: Seq<char>, k: int)
    requires
        0 <= k <= s.len(),
    ensures
        cut(s, byte_len(s.take(k))) == Some(k),
    decreases s.len(),
{
    if k > 0 {
        law_cut_between_characters(s.skip(1), k - 1);
        assert(s.take(k).skip(1) == s.skip(1).take(k - 1));
        assert(s.take(k)[0] == s[0]);
        lemma_byte_len_nonnegative(s.skip(1).take(k - 1));
    } else {
        assert(s.take(0).len() == 0);
    }
}

proof fn lemma_byte_len_nonnegative(s: Seq<char>)
    ensures
        byte_len(s) >= s.len(),
    decreases s.len(),
{
    if s.len() > 0 {
        lemma_byte_len_nonnegative(s.skip(1));
    }
}

/// Cutting in two steps is cutting once.
pub proof fn lemma_cut_adds(s: Seq<char>, a: int, b: int)
    requires
        a >= 0,
        b >= 0,
        cut(s, a) is Some,
    ensures
        cut(s, a + b) == (match cut(s.skip(cut(s, a).unwrap()), b) {
            Some(k) => Some(cut(s, a).unwrap() + k),
            None => None::<int>,
        }),
        0 <= cut(s, a).unwrap() <= s.len(),
    decreases s.len(),
{
    law_cut_takes_bytes(s, a);
    if a == 0 {
        assert(s.skip(0) == s);
    } else {
        lemma_cut_adds(s.skip(1), a - char_bytes(s[0]), b);
        let i = cut(s.skip(1), a - char_bytes(s[0])).unwrap();
        assert(s.skip(1).skip(i) == s.skip(i + 1));
    }
}

/// A cut further on lies no further back.
pub proof fn lemma_cut_monotonic(s: Seq<char>, a: int, b: int)
    requires
        0 <= a <= b,
        cut(s, a) is Some,
        cut(s, b) is Some,
    ensures
        0 <= cut(s, a).unwrap() <= cut(s, b).unwrap() <= s.len(),
{
    lemma_cut_adds(s, a, b - a);
    let i = cut(s, a).unwrap();
    law_cut_takes_bytes(s.skip(i), b - a);
    law_cut_takes_bytes(s, b);
}

/// The part between two offsets takes as many bytes as lie between them.
pub proof fn law_byte_slice_len(s: Seq<char>, from: int, to: int)
    requires
        0 <= from <= to,
    ensures
        byte_slice(s, from, to) matches Some(t) ==> byte_len(t) == to - from && t.len() <= to
            - from,
{
    if cut(s, from) is Some && cut(s, to) is Some {
        let i = cut(s, from).unwrap();
        let j = cut(s, to).unwrap();
        lemma_cut_monotonic(s, from, to);
        lemma_cut_adds(s, from, to - from);
        law_cut_takes_bytes(s.skip(i), to - from);
        assert(s.skip(i).take(j - i) =~= s.subrange(i, j));
        lemma_byte_len_nonnegative(s.subrange(i, j));
    }
}

/// How many bytes the UTF-8 encoding of `c` takes.
pub fn bytes_of_char(c: char) -> (n: usize)
    ensures
        n == char_bytes(c),
{
    let v = c as u32;
    if v < 0x80 {
        1
    } else if v < 0x800 {
        2
    } else if v < 0x10000 {
        3
    } else {
        4
    }
}

/// How many characters of `s` its first `n` bytes encode.
pub fn cut_at(s: &[char], n: usize) -> (r: Option<usize>)
    ensures
        match r {
            Some(k) => cut(s@, n as int) == Some(k as int) && k <= s@.len(),
            None => cut(s@, n as int) is None,
        },
{
    let len = s.len();
    let mut left: usize = n;
    let mut i: usize = 0;
    assert(s@.skip(0) == s@);
    while left > 0
        invariant
            i <= len == s@.len(),
            cut(s@, n as int) == (match cut(s@.skip(i as int), left as int) {
                Some(k) => Some(i + k),
                None => None::<int>,
            }),
        decreases left,
    {
        if i == len {
            return None;
        }
        let w = bytes_of_char(s[i]);
        if left < w {
            return None;
        }
        assert(s@.skip(i as int).skip(1) == s@.skip(i + 1));
        left = left - w;
        i = i + 1;
    }
    Some(i)
}

/// The part of `s` between two byte offsets.
pub fn slice_bytes(s: &[char], from: usize, to: usize) -> (r: Option<&[char]>)
    requires
        from <= to,
    ensures
        match r {
            Some(t) => byte_slice(s@, from as int, to as int) == Some(t@),
            None => byte_slice(s@, from as int, to as int) is None,
        },
{
    match cut_at(s, from) {
        None => None,
        Some(i) => match cut_at(s, to) {
            None => None,
            Some(j) => {
                proof {
                    lemma_cut_monotonic(s@, from as int, to as int);
                }
                Some(slice_subrange(s, i, j))
            },
        },
    }
}

/// How many bytes the UTF-8 encoding of `s` takes; `None` where no `usize` can count them.
pub fn count_bytes(s: &[char]) -> (r: Option<usize>)
    ensures
        match r {
            Some(n) => n == byte_len(s@),
            None => byte_len(s@) > usize::MAX,
        },
{
    let len = s.len();
    let mut n: usize = 0;
    let mut i: usize = 0;
    assert(s@.skip(0) == s@);
    while i < len
        invariant
            i <= len == s@.len(),
            n + byte_len(s@.skip(i as int)) == byte_len(s@),
        decreases len - i,
    {
        let w = bytes_of_char(s[i]);
        assert(s@.skip(i as int).skip(1) == s@.skip(i + 1));
        proof {
            lemma_byte_len_nonnegative(s@.skip(i + 1));
        }
        if n > usize::MAX - w {
            return None;
        }
        n = n + w;
        i = i + 1;
    }
    Some(n)
}

/// Texts put together take the bytes of both.
pub proof fn lemma_byte_len_adds(a: Seq<char>, b: Seq<char>)
    ensures
        byte_len(a + b) == byte_len(a) + byte_len(b),
    decreases a.len(),
{
    if a.len() == 0 {
        assert(a + b =~= b);
    } else {
        assert((a + b)[0] == a[0]);
        assert((a + b).skip(1) =~= a.skip(1) + b);
        lemma_byte_len_adds(a.skip(1), b);
    }
}

/// Between the offsets at which a part begins and ends stands that part.
pub proof fn law_byte_slice_between(a: Seq<char>, b: Seq<char>, c: Seq<char>)
    ensures
        byte_slice(a + b + c, byte_len(a), byte_len(a) + byte_len(b)) == Some(b),
        cut(a + b + c, byte_len(a)) == Some(a.len() as int),
{
    let s = a + b + c;
    law_cut_between_characters(s, a.len() as int);
    law_cut_between_characters(s, (a.len() + b.len()) as int);
    assert(s.take(a.len() as int) =~= a);
    assert(s.take((a.len() + b.len()) as int) =~= a + b);
    lemma_byte_len_adds(a, b);
    assert(s.subrange(a.len() as int, (a.len() + b.len()) as int) =~= b);
}

/// A text cannot be cut inside a character, nor behind its end.
pub proof fn law_no_cut(a: Seq<char>, c: char, b: Seq<char>, k: int, n: int)
    requires
        0 < k < char_bytes(c),
        n > byte_len(a),
    ensures
        cut(a + seq![c] + b, byte_len(a) + k) is None,
        cut(a, n) is None,
    decreases a.len(),
{
    let s = a + seq![c] + b;
    if a.len() == 0 {
        assert(s[0] == c);
    } else {
        let t = a.skip(1);
        lemma_byte_len_nonnegative(t);
        assert(s[0] == a[0]);
        assert(s.skip(1) =~= t + seq![c] + b);
        law_no_cut(t, c, b, k, n - char_bytes(a[0]));
    }
}

/// A character of ASCII takes one byte.
pub proof fn lemma_one_byte(c: char)
    requires
        c as u32 <= 0x7f,
    ensures
        byte_len(seq![c]) == 1,
{
    assert(seq![c].skip(1).len() == 0);
    assert(byte_len(seq![c].skip(1)) == 0);
}

} // verus!
