//! Strings as sequences of characters.

use vstd::prelude::*;
use vstd::slice::slice_subrange;
use vstd::utf8::is_ascii_chars;

verus! {

/// Appends `c` to the end of `s` (`String::push`).
pub assume_specification[ String::push ](s: &mut String, c: char)
    ensures
        final(s)@ == old(s)@.push(c),
;

/// What `str::to_lowercase` makes of a text that holds a character outside ASCII.
pub uninterp spec fn unicode_lowercase(s: Seq<char>) -> Seq<char>;

/// `str::to_lowercase`: on ASCII text, the letters `A` to `Z` become `a` to `z` and all else
/// stays; what it makes of any other text is a function of the text alone.
pub assume_specification[ str::to_lowercase ](s: &str) -> (r: String)
    ensures
        r@ == (if is_ascii_chars(s@) {
            ascii_lowercase(s@)
        } else {
            unicode_lowercase(s@)
        }),
;

/// What `str::to_lowercase` makes of `s`.
pub open spec fn lowercase(s: Seq<char>) -> Seq<char> {
    if is_ascii_chars(s) {
        ascii_lowercase(s)
    } else {
        unicode_lowercase(s)
    }
}

/// `A` to `Z` turned into `a` to `z`; any other character as it is.
pub open spec fn ascii_lower_char(c: char) -> char {
    if 'A' <= c && c <= 'Z' {
        ((c as u8) + 32) as u8 as char
    } else {
        c
    }
}

/// Every ASCII capital letter turned into its small letter.
pub open spec fn ascii_lowercase(s: Seq<char>) -> Seq<char> {
    s.map_values(|c: char| ascii_lower_char(c))
}

/// The text that may be there.
pub open spec fn opt_text(s: Option<&str>) -> Option<Seq<char>> {
    match s {
        Some(t) => Some(t@),
        None => None,
    }
}

/// The text that may be there.
pub open spec fn owned_text(s: Option<String>) -> Option<Seq<char>> {
    match s {
        Some(t) => Some(t@),
        None => None,
    }
}

/// What a list of texts holds.
pub open spec fn strings(v: Seq<String>) -> Seq<Seq<char>> {
    v.map_values(|s: String| s@)
}

/// The characters of `s`.
pub fn chars_of(s: &str) -> (v: Vec<char>)
    ensures
        v@ == s@,
{
    let mut v: Vec<char> = Vec::new();
    for c in it: s.chars()
        invariant
            v@ == it.seq().take(it.index()),
            it.seq() == s@,
    {
        v.push(c);
    }
    v
}

/// The text made of the characters `s`.
pub fn string_of(s: &[char]) -> (r: String)
    ensures
        r@ == s@,
{
    let mut r = String::new();
    let mut i: usize = 0;
    while i < s.len()
        invariant
            i <= s.len(),
            r@ == s@.take(i as int),
        decreases s.len() - i,
    {
        r.push(s[i]);
        i = i + 1;
    }
    r
}

/// The characters with Unicode's `White_Space` property.
pub open spec fn is_white_space(c: char) -> bool {
    let n = c as u32;
    ||| 0x09 <= n <= 0x0d
    ||| n == 0x20
    ||| n == 0x85
    ||| n == 0xa0
    ||| n == 0x1680
    ||| 0x2000 <= n <= 0x200a
    ||| n == 0x2028
    ||| n == 0x2029
    ||| n == 0x202f
    ||| n == 0x205f
    ||| n == 0x3000
}

/// Whether `c` is white space.
pub fn white_space(c: char) -> (b: bool)
    ensures
        b == is_white_space(c),
{
    let n = c as u32;
    (0x09 <= n && n <= 0x0d) || n == 0x20 || n == 0x85 || n == 0xa0 || n == 0x1680 || (0x2000 <= n
        && n <= 0x200a) || n == 0x2028 || n == 0x2029 || n == 0x202f || n == 0x205f || n == 0x3000
}

/// `s` without the white space it begins with.
pub open spec fn trim_start(s: Seq<char>) -> Seq<char>
    decreases s.len(),
{
    if s.len() > 0 && is_white_space(s[0]) {
        trim_start(s.skip(1))
    } else {
        s
    }
}

/// `s` without the white space it ends with.
pub open spec fn trim_end(s: Seq<char>) -> Seq<char>
    decreases s.len(),
{
    if s.len() > 0 && is_white_space(s.last()) {
        trim_end(s.drop_last())
    } else {
        s
    }
}

/// `s` without the white space at both ends.
pub open spec fn trim(s: Seq<char>) -> Seq<char> {
    trim_end(trim_start(s))
}

/// Where the trimmed text begins and ends in `s`.
pub fn trim_bounds(s: &[char]) -> (r: (usize, usize))
    ensures
        r.0 <= r.1 <= s@.len(),
        s@.subrange(r.0 as int, r.1 as int) == trim(s@),
{
    let mut a: usize = 0;
    let n = s.len();
    assert(s@.skip(0) == s@);
    while a < n && white_space(s[a])
        invariant
            a <= n == s@.len(),
            trim_start(s@.skip(a as int)) == trim_start(s@),
        decreases n - a,
    {
        assert(s@.skip(a as int).skip(1) == s@.skip(a + 1));
        a = a + 1;
    }
    let mut b: usize = n;
    assert(s@.subrange(a as int, n as int) == s@.skip(a as int));
    while a < b && white_space(s[b - 1])
        invariant
            a <= b <= n == s@.len(),
            trim_end(s@.subrange(a as int, b as int)) == trim(s@),
        decreases b,
    {
        assert(s@.subrange(a as int, b as int).drop_last() == s@.subrange(a as int, b - 1));
        b = b - 1;
    }
    (a, b)
}

/// `s` without the white space at both ends.
pub fn trimmed(s: &[char]) -> (r: &[char])
    ensures
        r@ == trim(s@),
{
    let (a, b) = trim_bounds(s);
    slice_subrange(s, a, b)
}

/// Where `c` first occurs in `s`; the length of `s` if it does not.
pub open spec fn first_index(s: Seq<char>, c: char) -> int
    decreases s.len(),
{
    if s.len() == 0 || s[0] == c {
        0
    } else {
        1 + first_index(s.skip(1), c)
    }
}

/// The index is within the text, `c` stands there, and nowhere before.
pub proof fn lemma_first_index(s: Seq<char>, c: char)
    ensures
        0 <= first_index(s, c) <= s.len(),
        first_index(s, c) < s.len() ==> s[first_index(s, c)] == c,
        forall|i: int| 0 <= i < first_index(s, c) ==> s[i] != c,
    decreases s.len(),
{
    if s.len() > 0 && s[0] != c {
        let t = s.skip(1);
        lemma_first_index(t, c);
        assert forall|i: int| 0 <= i < first_index(s, c) implies s[i] != c by {
            if i > 0 {
                assert(s[i] == t[i - 1]);
            }
        }
    }
}

/// What `first_index` says, turned round: an index with its properties is it.
pub proof fn lemma_first_index_unique(s: Seq<char>, c: char, k: int)
    requires
        0 <= k <= s.len(),
        k < s.len() ==> s[k] == c,
        forall|i: int| 0 <= i < k ==> s[i] != c,
    ensures
        first_index(s, c) == k,
{
    lemma_first_index(s, c);
}

/// Where `c` first occurs in `s`; the length of `s` if it does not.
pub fn find_char(s: &[char], c: char) -> (r: usize)
    ensures
        r == first_index(s@, c),
        r <= s@.len(),
{
    let mut i: usize = 0;
    while i < s.len() && s[i] != c
        invariant
            i <= s@.len(),
            forall|j: int| 0 <= j < i ==> s@[j] != c,
        decreases s@.len() - i,
    {
        i = i + 1;
    }
    proof {
        lemma_first_index_unique(s@, c, i as int);
    }
    i
}

/// The pieces of `s` between the occurrences of `sep`: one more than there are of them.
pub open spec fn split(s: Seq<char>, sep: char) -> Seq<Seq<char>>
    decreases s.len(),
{
    let k = first_index(s, sep);
    if 0 <= k < s.len() {
        seq![s.take(k)] + split(s.skip(k + 1), sep)
    } else {
        seq![s]
    }
}

/// What a list of texts holds.
pub open spec fn texts(v: Seq<Vec<char>>) -> Seq<Seq<char>> {
    v.map_values(|p: Vec<char>| p@)
}

/// The pieces of `s` between the occurrences of `sep`.
pub fn split_at_char(s: &[char], sep: char) -> (r: Vec<Vec<char>>)
    ensures
        texts(r@) == split(s@, sep),
{
    let mut r: Vec<Vec<char>> = Vec::new();
    let mut start: usize = 0;
    let n = s.len();
    assert(s@.skip(0) == s@);
    assert(texts(r@) =~= Seq::empty());
    loop
        invariant
            start <= n == s@.len(),
            texts(r@) + split(s@.skip(start as int), sep) =~= split(s@, sep),
        decreases n - start,
    {
        let ghost before = r@;
        let rest = slice_subrange(s, start, n);
        assert(rest@ == s@.skip(start as int));
        let k = find_char(rest, sep);
        r.push(vstd::slice::slice_to_vec(slice_subrange(rest, 0, k)));
        assert(rest@.subrange(0, k as int) == rest@.take(k as int));
        assert(texts(r@) =~= texts(before).push(rest@.take(k as int)));
        if k == rest.len() {
            assert(rest@.take(k as int) == rest@);
            return r;
        }
        assert(rest@.skip(k + 1) == s@.skip(start + k + 1));
        start = start + k + 1;
    }
}

/// Whether `s` begins with `prefix`.
pub open spec fn begins_with(s: Seq<char>, prefix: Seq<char>) -> bool {
    prefix.len() <= s.len() && s.take(prefix.len() as int) == prefix
}

/// Whether the text `needle` stands in `s` at `at`.
pub open spec fn stands_at(s: Seq<char>, needle: Seq<char>, at: int) -> bool {
    0 <= at && at + needle.len() <= s.len() && s.subrange(at, at + needle.len()) == needle
}

/// Whether `needle` occurs somewhere in `s`.
pub open spec fn occurs_in(needle: Seq<char>, s: Seq<char>) -> bool {
    exists|at: int| stands_at(s, needle, at)
}

/// Whether the text `needle` stands in `s` at `at`.
pub fn check_at(s: &[char], needle: &[char], at: usize) -> (b: bool)
    ensures
        b == stands_at(s@, needle@, at as int),
{
    if at > s.len() || needle.len() > s.len() - at {
        return false;
    }
    let n = s.len();
    let mut i: usize = 0;
    while i < needle.len()
        invariant
            i <= needle@.len(),
            at + needle@.len() <= n == s@.len(),
            forall|j: int| 0 <= j < i ==> s@[at + j] == needle@[j],
        decreases needle@.len() - i,
    {
        if s[at + i] != needle[i] {
            assert(s@.subrange(at as int, at + needle@.len())[i as int] == s@[at + i]);
            return false;
        }
        i = i + 1;
    }
    assert(s@.subrange(at as int, at + needle@.len()) =~= needle@);
    true
}

/// Whether `s` begins with `prefix`.
pub fn has_prefix(s: &[char], prefix: &[char]) -> (b: bool)
    ensures
        b == begins_with(s@, prefix@),
{
    proof {
        if prefix@.len() <= s@.len() {
            assert(s@.subrange(0, prefix@.len() as int) == s@.take(prefix@.len() as int));
        }
    }
    check_at(s, prefix, 0)
}

/// Whether the two texts are the same.
pub fn same_text(a: &[char], b: &[char]) -> (r: bool)
    ensures
        r == (a@ == b@),
{
    if a.len() != b.len() {
        return false;
    }
    assert(a@.subrange(0, b@.len() as int) == a@);
    check_at(a, b, 0)
}

fn ascii_lower(c: char) -> (r: char)
    ensures
        r == ascii_lower_char(c),
{
    if 'A' <= c && c <= 'Z' {
        (c as u8 + 32) as char
    } else {
        c
    }
}

/// Whether the two texts differ in nothing but the case of ASCII letters.
pub fn same_ignoring_case(a: &[char], b: &[char]) -> (r: bool)
    ensures
        r == (ascii_lowercase(a@) == ascii_lowercase(b@)),
{
    if a.len() != b.len() {
        assert(ascii_lowercase(a@).len() != ascii_lowercase(b@).len());
        return false;
    }
    let mut i: usize = 0;
    while i < a.len()
        invariant
            i <= a@.len() == b@.len(),
            forall|j: int|
                0 <= j < i ==> #[trigger] ascii_lowercase(a@)[j] == ascii_lowercase(b@)[j],
        decreases a@.len() - i,
    {
        assert(ascii_lowercase(a@)[i as int] == ascii_lower_char(a@[i as int]));
        assert(ascii_lowercase(b@)[i as int] == ascii_lower_char(b@[i as int]));
        if ascii_lower(a[i]) != ascii_lower(b[i]) {
            return false;
        }
        i = i + 1;
    }
    assert(ascii_lowercase(a@) =~= ascii_lowercase(b@));
    true
}

/// Whether `needle` occurs somewhere in `s`.
pub fn find_text(s: &[char], needle: &[char]) -> (b: bool)
    ensures
        b == occurs_in(needle@, s@),
{
    if needle.len() > s.len() {
        return false;
    }
    let last = s.len() - needle.len();
    let mut at: usize = 0;
    while at <= last
        invariant
            last == s@.len() - needle@.len(),
            at <= last + 1,
            forall|j: int| 0 <= j < at ==> !stands_at(s@, needle@, j),
        decreases last + 1 - at,
    {
        if check_at(s, needle, at) {
            return true;
        }
        if at == last {
            return false;
        }
        at = at + 1;
    }
    false
}

/// `s` without the characters `c` that it ends with.
pub open spec fn strip_end(s: Seq<char>, c: char) -> Seq<char>
    decreases s.len(),
{
    if s.len() > 0 && s.last() == c {
        strip_end(s.drop_last(), c)
    } else {
        s
    }
}

/// `s` without the characters `c` that it begins with.
pub open spec fn strip_start(s: Seq<char>, c: char) -> Seq<char>
    decreases s.len(),
{
    if s.len() > 0 && s[0] == c {
        strip_start(s.skip(1), c)
    } else {
        s
    }
}

/// `s` without the characters `c` that it ends with.
pub fn without_end(s: &[char], c: char) -> (r: &[char])
    ensures
        r@ == strip_end(s@, c),
{
    let mut n: usize = s.len();
    assert(s@.take(n as int) =~= s@);
    while n > 0 && s[n - 1] == c
        invariant
            n <= s@.len(),
            strip_end(s@.take(n as int), c) == strip_end(s@, c),
        decreases n,
    {
        assert(s@.take(n as int).drop_last() =~= s@.take(n - 1));
        n = n - 1;
    }
    assert(s@.subrange(0, n as int) =~= s@.take(n as int));
    slice_subrange(s, 0, n)
}

/// `s` without the characters `c` that it begins with.
pub fn without_start(s: &[char], c: char) -> (r: &[char])
    ensures
        r@ == strip_start(s@, c),
{
    let n = s.len();
    let mut i: usize = 0;
    assert(s@.skip(0) =~= s@);
    while i < n && s[i] == c
        invariant
            i <= n == s@.len(),
            strip_start(s@.skip(i as int), c) == strip_start(s@, c),
        decreases n - i,
    {
        assert(s@.skip(i as int).skip(1) =~= s@.skip(i + 1));
        i = i + 1;
    }
    assert(s@.subrange(i as int, n as int) =~= s@.skip(i as int));
    slice_subrange(s, i, n)
}

/// The lines of `s`, trimmed.
///
/// A carriage return before the end of a line goes with the white space round it.
pub open spec fn trimmed_lines(s: Seq<char>) -> Seq<Seq<char>> {
    split(s, '\n').map_values(|l: Seq<char>| trim(l))
}

/// The lines of `s`, trimmed.
pub fn read_trimmed_lines(s: &str) -> (r: Vec<Vec<char>>)
    ensures
        texts(r@) == trimmed_lines(s@),
{
    let all = chars_of(s);
    let pieces = split_at_char(all.as_slice(), '\n');
    let mut r: Vec<Vec<char>> = Vec::new();
    let mut i: usize = 0;
    while i < pieces.len()
        invariant
            i <= pieces@.len(),
            texts(pieces@) == split(s@, '\n'),
            texts(r@) =~= trimmed_lines(s@).take(i as int),
        decreases pieces@.len() - i,
    {
        assert(texts(pieces@)[i as int] == pieces@[i as int]@);
        let ghost before = r@;
        let line = trimmed(pieces[i].as_slice());
        r.push(vstd::slice::slice_to_vec(line));
        assert(trimmed_lines(s@)[i as int] == line@);
        assert(texts(r@) =~= texts(before).push(line@));
        i = i + 1;
    }
    r
}

/// What is left after trimming neither begins nor ends in white space.
pub proof fn law_trimmed_ends(s: Seq<char>)
    ensures
        trim(s).len() > 0 ==> !is_white_space(trim(s)[0]) && !is_white_space(trim(s).last()),
{
    lemma_trim_start(s);
    lemma_trim_end(trim_start(s));
}

/// Trimming a second time changes nothing.
pub proof fn law_trim_idempotent(s: Seq<char>)
    ensures
        trim(trim(s)) == trim(s),
{
    law_trimmed_ends(s);
}

/// What is left does not begin in white space, and stands at the end of `s`.
pub proof fn lemma_trim_start(s: Seq<char>)
    ensures
        trim_start(s).len() <= s.len(),
        trim_start(s).len() > 0 ==> !is_white_space(trim_start(s)[0]),
        trim_start(s) == s.skip(s.len() - trim_start(s).len()),
    decreases s.len(),
{
    if s.len() > 0 && is_white_space(s[0]) {
        lemma_trim_start(s.skip(1));
        assert(s.skip(1).skip(s.skip(1).len() - trim_start(s).len()) =~= s.skip(
            s.len() - trim_start(s).len(),
        ));
    } else {
        assert(s.skip(0) =~= s);
    }
}

/// What is left does not end in white space, and stands at the start of `s`.
pub proof fn lemma_trim_end(s: Seq<char>)
    ensures
        trim_end(s).len() <= s.len(),
        trim_end(s).len() > 0 ==> !is_white_space(trim_end(s).last()),
        trim_end(s) == s.take(trim_end(s).len() as int),
    decreases s.len(),
{
    if s.len() > 0 && is_white_space(s.last()) {
        lemma_trim_end(s.drop_last());
        assert(s.drop_last().take(trim_end(s).len() as int) =~= s.take(trim_end(s).len() as int));
    } else {
        assert(s.take(s.len() as int) =~= s);
    }
}

/// Trimming the end goes no further than the last character that stays.
proof fn lemma_trim_end_first(s: Seq<char>)
    requires
        s.len() > 0,
    ensures
        trim_end(s.skip(1)).len() > 0 || !is_white_space(s[0]) ==> trim_end(s) == seq![s[0]]
            + trim_end(s.skip(1)),
        trim_end(s.skip(1)).len() == 0 && is_white_space(s[0]) ==> trim_end(s).len() == 0,
    decreases s.len(),
{
    let t = s.skip(1);
    if is_white_space(s.last()) {
        if s.len() > 1 {
            lemma_trim_end_first(s.drop_last());
            assert(s.drop_last().skip(1) =~= t.drop_last());
            assert(t.last() == s.last());
        } else {
            assert(s.drop_last().len() == 0);
            assert(t.len() == 0);
        }
    } else if s.len() > 1 {
        assert(t.last() == s.last());
        assert(s =~= seq![s[0]] + t);
    } else {
        assert(s =~= seq![s[0]] + t);
    }
}

/// It does not matter which end is trimmed first.
pub proof fn law_trim_either_end_first(s: Seq<char>)
    ensures
        trim_start(trim_end(s)) == trim_end(trim_start(s)),
    decreases s.len(),
{
    if s.len() > 0 {
        lemma_trim_end_first(s);
        let t = s.skip(1);
        if is_white_space(s[0]) {
            law_trim_either_end_first(t);
            if trim_end(t).len() > 0 {
                assert((seq![s[0]] + trim_end(t)).skip(1) =~= trim_end(t));
            } else {
                assert(trim_end(s) =~= trim_end(t));
            }
        }
    }
}

/// Trimming an end that is already trimmed changes nothing.
pub proof fn lemma_trim_of_trimmed_end(s: Seq<char>)
    ensures
        trim(trim_end(s)) == trim(s),
        trim(trim_start(s)) == trim(s),
{
    law_trim_either_end_first(s);
    law_trimmed_ends(s);
    lemma_trim_start(s);
}

/// A character that is no white space holds up the trimming from either side.
pub proof fn lemma_trim_around(a: Seq<char>, c: char, b: Seq<char>)
    requires
        !is_white_space(c),
    ensures
        trim(a + seq![c] + b) == trim_start(a) + seq![c] + trim_end(b),
{
    lemma_trim_start_before(a, c, b);
    lemma_trim_end_behind(trim_start(a), c, b);
}

proof fn lemma_trim_start_before(a: Seq<char>, c: char, b: Seq<char>)
    requires
        !is_white_space(c),
    ensures
        trim_start(a + seq![c] + b) == trim_start(a) + seq![c] + b,
    decreases a.len(),
{
    let s = a + seq![c] + b;
    if a.len() > 0 {
        assert(s[0] == a[0]);
        if is_white_space(a[0]) {
            assert(s.skip(1) =~= a.skip(1) + seq![c] + b);
            lemma_trim_start_before(a.skip(1), c, b);
        }
    } else {
        assert(s[0] == c);
    }
}

proof fn lemma_trim_end_behind(a: Seq<char>, c: char, b: Seq<char>)
    requires
        !is_white_space(c),
    ensures
        trim_end(a + seq![c] + b) == a + seq![c] + trim_end(b),
    decreases b.len(),
{
    let s = a + seq![c] + b;
    if b.len() > 0 {
        assert(s.last() == b.last());
        if is_white_space(b.last()) {
            assert(s.drop_last() =~= a + seq![c] + b.drop_last());
            lemma_trim_end_behind(a, c, b.drop_last());
        }
    } else {
        assert(s.last() == c);
        assert(s =~= a + seq![c] + trim_end(b));
    }
}

proof fn lemma_trim_start_skips(a: Seq<char>, s: Seq<char>)
    requires
        forall|i: int| 0 <= i < a.len() ==> is_white_space(#[trigger] a[i]),
    ensures
        trim_start(a + s) == trim_start(s),
    decreases a.len(),
{
    if a.len() == 0 {
        assert(a + s =~= s);
    } else {
        assert((a + s)[0] == a[0]);
        assert((a + s).skip(1) =~= a.skip(1) + s);
        assert forall|i: int| 0 <= i < a.skip(1).len() implies is_white_space(
            #[trigger] a.skip(1)[i],
        ) by {
            assert(a.skip(1)[i] == a[i + 1]);
        }
        lemma_trim_start_skips(a.skip(1), s);
    }
}

proof fn lemma_trim_end_skips(s: Seq<char>, b: Seq<char>)
    requires
        forall|i: int| 0 <= i < b.len() ==> is_white_space(#[trigger] b[i]),
    ensures
        trim_end(s + b) == trim_end(s),
    decreases b.len(),
{
    if b.len() == 0 {
        assert(s + b =~= s);
    } else {
        assert((s + b).last() == b[b.len() - 1]);
        assert((s + b).drop_last() =~= s + b.drop_last());
        assert forall|i: int| 0 <= i < b.drop_last().len() implies is_white_space(
            #[trigger] b.drop_last()[i],
        ) by {
            assert(b.drop_last()[i] == b[i]);
        }
        lemma_trim_end_skips(s, b.drop_last());
    }
}

/// Trimming takes the white space before and behind a text, and leaves a text that neither begins
/// nor ends in white space whole.
pub proof fn law_trim_leaves_the_middle(a: Seq<char>, t: Seq<char>, b: Seq<char>)
    requires
        forall|i: int| 0 <= i < a.len() ==> is_white_space(#[trigger] a[i]),
        forall|i: int| 0 <= i < b.len() ==> is_white_space(#[trigger] b[i]),
        t.len() > 0 ==> !is_white_space(t[0]) && !is_white_space(t.last()),
    ensures
        trim(a + t + b) == t,
{
    assert(a + t + b =~= a + (t + b));
    lemma_trim_start_skips(a, t + b);
    if t.len() > 0 {
        assert((t + b)[0] == t[0]);
        lemma_trim_end_skips(t, b);
    } else {
        assert(t + b =~= b);
        let none = Seq::<char>::empty();
        assert(b + none =~= b);
        lemma_trim_start_skips(b, none);
        assert(trim_start(none) =~= none);
        assert(trim_end(none) =~= t);
    }
}

/// A text parts at the first separator in it, and one that holds none is the only piece.
pub proof fn law_split_at_separators(a: Seq<char>, sep: char, b: Seq<char>)
    requires
        !a.contains(sep),
    ensures
        split(a, sep) == seq![a],
        split(a + seq![sep] + b, sep) == seq![a] + split(b, sep),
{
    assert forall|i: int| 0 <= i < a.len() implies a[i] != sep by {
        assert(a.contains(a[i]));
    }
    lemma_first_index_unique(a, sep, a.len() as int);
    let s = a + seq![sep] + b;
    lemma_first_index_unique(s, sep, a.len() as int);
    assert(s.take(a.len() as int) =~= a);
    assert(s.skip(a.len() as int + 1) =~= b);
}

/// A text occurs in another exactly where that one is made of it and whatever stands before and
/// behind.
pub proof fn law_occurs_in_the_middle(needle: Seq<char>, s: Seq<char>)
    ensures
        forall|a: Seq<char>, b: Seq<char>|
            s == #[trigger] (a + needle + b) ==> occurs_in(needle, s),
        occurs_in(needle, s) ==> exists|a: Seq<char>, b: Seq<char>|
            s == #[trigger] (a + needle + b),
{
    assert forall|a: Seq<char>, b: Seq<char>| s == #[trigger] (a + needle + b) implies occurs_in(
        needle,
        s,
    ) by {
        let at = a.len() as int;
        assert(s.subrange(at, at + needle.len()) =~= needle);
        assert(stands_at(s, needle, at));
    }
    if occurs_in(needle, s) {
        let at = choose|at: int| stands_at(s, needle, at);
        let a = s.take(at);
        let b = s.skip(at + needle.len());
        assert(s =~= a + needle + b);
    }
}

/// A text begins with another exactly where that one stands before whatever follows.
pub proof fn law_begins_with_prefix(s: Seq<char>, prefix: Seq<char>)
    ensures
        forall|t: Seq<char>| s == #[trigger] (prefix + t) ==> begins_with(s, prefix),
        begins_with(s, prefix) ==> s == prefix + s.skip(prefix.len() as int),
{
    assert forall|t: Seq<char>| s == #[trigger] (prefix + t) implies begins_with(s, prefix) by {
        assert(s.take(prefix.len() as int) =~= prefix);
    }
    if begins_with(s, prefix) {
        assert(s =~= s.take(prefix.len() as int) + s.skip(prefix.len() as int));
    }
}

/// However often `c` stands behind a text that does not end in it, or before one that does not
/// begin with it, stripping leaves that text.
pub proof fn law_strip_leaves_the_rest(t: Seq<char>, c: char, n: nat)
    ensures
        t.len() > 0 ==> t.last() != c ==> strip_end(t + Seq::new(n, |i: int| c), c) == t,
        t.len() > 0 ==> t[0] != c ==> strip_start(Seq::new(n, |i: int| c) + t, c) == t,
        t.len() == 0 ==> strip_end(t + Seq::new(n, |i: int| c), c) == t,
        t.len() == 0 ==> strip_start(Seq::new(n, |i: int| c) + t, c) == t,
    decreases n,
{
    let run = Seq::new(n, |i: int| c);
    if n == 0 {
        assert(t + run =~= t);
        assert(run + t =~= t);
    } else {
        let less = Seq::new((n - 1) as nat, |i: int| c);
        law_strip_leaves_the_rest(t, c, (n - 1) as nat);
        assert((t + run).last() == c);
        assert((t + run).drop_last() =~= t + less);
        assert((run + t)[0] == c);
        assert((run + t).skip(1) =~= less + t);
    }
}

/// The lines of a text are what stands between its line feeds, each trimmed.
pub proof fn law_lines(a: Seq<char>, b: Seq<char>)
    requires
        !a.contains('\n'),
    ensures
        trimmed_lines(a) == seq![trim(a)],
        trimmed_lines(a + seq!['\n'] + b) == seq![trim(a)] + trimmed_lines(b),
{
    law_split_at_separators(a, '\n', b);
    assert(trimmed_lines(a) =~= seq![trim(a)]);
    assert(trimmed_lines(a + seq!['\n'] + b) =~= seq![trim(a)] + trimmed_lines(b));
}

/// On ASCII text, capital letters lie 32 before their small letters, which take their places;
/// nothing else changes.
pub proof fn law_lowercase_of_ascii(s: Seq<char>, i: int)
    requires
        is_ascii_chars(s),
        0 <= i < s.len(),
    ensures
        lowercase(s).len() == s.len(),
        65 <= s[i] as u32 <= 90 ==> lowercase(s)[i] as u32 == s[i] as u32 + 32,
        !(65 <= s[i] as u32 <= 90) ==> lowercase(s)[i] == s[i],
        lowercase(lowercase(s)) == lowercase(s),
{
    let l = lowercase(s);
    assert forall|j: int| 0 <= j < s.len() implies '\0' <= #[trigger] l[j] <= '\u{7f}'
        && ascii_lower_char(l[j]) == l[j] by {
        assert('\0' <= s[j] <= '\u{7f}');
        assert(l[j] == ascii_lower_char(s[j]));
    }
    assert(is_ascii_chars(l));
    assert(ascii_lowercase(l) =~= l);
}

/// In ASCII white space is the space and the characters from the tab to the carriage return, and no
/// other; beyond it are the next line, the spaces that Unicode has, and its two separators.
pub proof fn law_white_space(c: char)
    ensures
        c <= '\u{7f}' ==> (is_white_space(c) <==> c == ' ' || '\t' <= c <= '\r'),
        c > '\u{7f}' ==> (is_white_space(c) <==> seq![
            '\u{85}',
            '\u{a0}',
            '\u{1680}',
            '\u{2028}',
            '\u{2029}',
            '\u{202f}',
            '\u{205f}',
            '\u{3000}',
        ].contains(c) || '\u{2000}' <= c <= '\u{200a}'),
{
    let others = seq![
        '\u{85}',
        '\u{a0}',
        '\u{1680}',
        '\u{2028}',
        '\u{2029}',
        '\u{202f}',
        '\u{205f}',
        '\u{3000}',
    ];
    assert(others[0] == '\u{85}');
    assert(others[1] == '\u{a0}');
    assert(others[2] == '\u{1680}');
    assert(others[3] == '\u{2028}');
    assert(others[4] == '\u{2029}');
    assert(others[5] == '\u{202f}');
    assert(others[6] == '\u{205f}');
    assert(others[7] == '\u{3000}');
}

} // verus!
