//! X pixmaps: a text format in which each line is a C string.
//!
//! The first string holds the width, the height, the number of colours and the number of bytes
//! that stand for one pixel. A string for each colour follows, then one for each row.

use vstd::prelude::*;
use vstd::slice::slice_subrange;

use crate::hex::{hex_byte, law_hex_between, lemma_one_digit, read_hex_byte, HexError};
use crate::numeral::{digit, is_digit, law_one_digit_numeral, numeral, parse_numeral};
use crate::offsets::{
    byte_len, byte_slice, count_bytes, cut, cut_at, law_byte_slice_between, lemma_byte_len_adds,
    lemma_one_byte,
};
use crate::surface::{
    clear, law_pixel_bytes, law_surface_size, push_row, surface_bytes, Bgra,
};
use crate::text::{
    begins_with, chars_of, has_prefix, is_white_space, law_begins_with_prefix, law_lines,
    law_strip_leaves_the_rest, law_trim_leaves_the_middle, lemma_trim_start, read_trimmed_lines,
    same_text, strip_end, strip_start, texts, trim, trim_start, trimmed, trimmed_lines,
    white_space, without_end, without_start,
};

verus! {

/// Why a pixmap could not be read.
#[derive(Clone, Copy, Debug, PartialEq, Eq, Structural)]
pub enum XpmError {
    /// The text is not that of a pixmap.
    Malformed,
    /// A string is shorter than the pixmap says, or a key or colour would be cut inside a
    /// character.
    Cut,
}

/// What a line holds once the commas at its end and then the quotes round it are gone.
pub open spec fn unquoted(s: Seq<char>) -> Seq<char> {
    strip_end(strip_start(strip_end(s, ','), '"'), '"')
}

/// What a line holds once the commas at its end and then the quotes round it are gone.
pub fn xpm_unquote(s: &[char]) -> (r: &[char])
    ensures
        r@ == unquoted(s@),
{
    without_end(without_start(without_end(s, ','), '"'), '"')
}

/// Whether a trimmed line is kept: not empty, no comment, and not the end of the array.
pub open spec fn is_kept(line: Seq<char>) -> bool {
    &&& !begins_with(line, "/*"@)
    &&& line.len() > 0
    &&& line != "};"@
}

/// The lines of the text that count, trimmed.
pub open spec fn source_lines(text: Seq<char>) -> Seq<Seq<char>> {
    trimmed_lines(text).filter(|l: Seq<char>| is_kept(l))
}

fn read_lines(text: &str) -> (r: Vec<Vec<char>>)
    ensures
        texts(r@) == source_lines(text@),
{
    let comment = chars_of("/*");
    let end = chars_of("};");
    let lines = read_trimmed_lines(text);
    let mut r: Vec<Vec<char>> = Vec::new();
    let mut i: usize = 0;
    let ghost kept = |l: Seq<char>| is_kept(l);
    let ghost all = trimmed_lines(text@);
    assert(texts(r@) =~= all.take(0).filter(kept)) by {
        assert(all.take(0).len() == 0);
        reveal(Seq::filter);
    }
    while i < lines.len()
        invariant
            i <= lines@.len(),
            comment@ == "/*"@,
            end@ == "};"@,
            kept == (|l: Seq<char>| is_kept(l)),
            all == texts(lines@),
            texts(r@) == all.take(i as int).filter(kept),
        decreases lines@.len() - i,
    {
        let line = lines[i].as_slice();
        proof {
            assert(all[i as int] == line@);
            assert(all.take(i + 1).drop_last() =~= all.take(i as int));
            assert(all.take(i + 1).last() == line@);
            reveal(Seq::filter);
        }
        if line.len() > 0 && !has_prefix(line, comment.as_slice()) && !same_text(
            line,
            end.as_slice(),
        ) {
            let ghost before = r@;
            r.push(vstd::slice::slice_to_vec(line));
            assert(texts(r@) =~= texts(before).push(line@));
        }
        i = i + 1;
    }
    assert(all.take(i as int) =~= all);
    r
}

/// How many characters stand at the start of `s` before any white space.
pub open spec fn word_end(s: Seq<char>) -> int
    decreases s.len(),
{
    if s.len() == 0 || is_white_space(s[0]) {
        0
    } else {
        1 + word_end(s.skip(1))
    }
}

proof fn lemma_word_end(s: Seq<char>)
    ensures
        0 <= word_end(s) <= s.len(),
        s.len() > 0 && !is_white_space(s[0]) ==> word_end(s) > 0,
    decreases s.len(),
{
    if s.len() > 0 && !is_white_space(s[0]) {
        lemma_word_end(s.skip(1));
    }
}

/// The parts of `s` between its stretches of white space.
pub open spec fn words(s: Seq<char>) -> Seq<Seq<char>>
    decreases s.len(),
    via words_decreases
{
    let t = trim_start(s);
    if t.len() == 0 {
        Seq::empty()
    } else {
        seq![t.take(word_end(t))] + words(t.skip(word_end(t)))
    }
}

#[via_fn]
proof fn words_decreases(s: Seq<char>) {
    lemma_trim_start(s);
    lemma_word_end(trim_start(s));
}

fn split_words(s: &[char]) -> (r: Vec<Vec<char>>)
    ensures
        texts(r@) == words(s@),
{
    let n = s.len();
    let mut r: Vec<Vec<char>> = Vec::new();
    let mut at: usize = 0;
    assert(s@.skip(0) =~= s@);
    assert(texts(r@) =~= Seq::empty());
    loop
        invariant
            at <= n == s@.len(),
            texts(r@) + words(s@.skip(at as int)) =~= words(s@),
        decreases n - at,
    {
        let ghost rest = s@.skip(at as int);
        let mut from: usize = at;
        while from < n && white_space(s[from])
            invariant
                at <= from <= n == s@.len(),
                trim_start(s@.skip(from as int)) == trim_start(s@.skip(at as int)),
            decreases n - from,
        {
            assert(s@.skip(from as int).skip(1) =~= s@.skip(from + 1));
            from = from + 1;
        }
        let ghost t = s@.skip(from as int);
        assert(trim_start(rest) == t);
        if from == n {
            return r;
        }
        let mut to: usize = from;
        while to < n && !white_space(s[to])
            invariant
                from <= to <= n == s@.len(),
                to - from + word_end(s@.skip(to as int)) == word_end(s@.skip(from as int)),
            decreases n - to,
        {
            assert(s@.skip(to as int).skip(1) =~= s@.skip(to + 1));
            to = to + 1;
        }
        assert(word_end(t) == to - from);
        let ghost before = r@;
        r.push(vstd::slice::slice_to_vec(slice_subrange(s, from, to)));
        assert(s@.subrange(from as int, to as int) =~= t.take(to - from));
        assert(texts(r@) =~= texts(before).push(t.take(to - from)));
        assert(t.skip(to - from) =~= s@.skip(to as int));
        proof {
            lemma_word_end(t);
        }
        at = to;
    }
}

/// What the first string of a pixmap says.
pub struct Header {
    pub width: u32,
    pub height: u32,
    pub colours: usize,
    pub bytes_per_pixel: usize,
}

/// What the first string of a pixmap says: four numbers, and whatever may follow them.
pub open spec fn header(s: Seq<char>) -> Option<Header> {
    let w = words(s);
    if w.len() < 4 {
        None
    } else {
        match (
            numeral(w[0], 10, u32::MAX as nat),
            numeral(w[1], 10, u32::MAX as nat),
            numeral(w[2], 10, usize::MAX as nat),
            numeral(w[3], 10, usize::MAX as nat),
        ) {
            (Some(width), Some(height), Some(colours), Some(bytes)) => Some(
                Header {
                    width: width as u32,
                    height: height as u32,
                    colours: colours as usize,
                    bytes_per_pixel: bytes as usize,
                },
            ),
            _ => None,
        }
    }
}

fn read_header(s: &[char]) -> (r: Option<Header>)
    ensures
        r == header(s@),
{
    let w = split_words(s);
    if w.len() < 4 {
        return None;
    }
    proof {
        assert(texts(w@)[0] == w@[0]@);
        assert(texts(w@)[1] == w@[1]@);
        assert(texts(w@)[2] == w@[2]@);
        assert(texts(w@)[3] == w@[3]@);
    }
    let width = parse_numeral(w[0].as_slice(), 10, u32::MAX as u64)?;
    let height = parse_numeral(w[1].as_slice(), 10, u32::MAX as u64)?;
    let colours = parse_numeral(w[2].as_slice(), 10, usize::MAX as u64)?;
    let bytes = parse_numeral(w[3].as_slice(), 10, usize::MAX as u64)?;
    Some(
        Header {
            width: width as u32,
            height: height as u32,
            colours: colours as usize,
            bytes_per_pixel: bytes as usize,
        },
    )
}

/// Where the mark `c` and a space, which leads a colour, first stands in `s`; the length of `s`
/// if it does not.
pub open spec fn mark(s: Seq<char>) -> int
    decreases s.len(),
{
    if s.len() < 2 {
        s.len() as int
    } else if s[0] == 'c' && s[1] == ' ' {
        0
    } else {
        1 + mark(s.skip(1))
    }
}

proof fn lemma_mark(s: Seq<char>)
    ensures
        0 <= mark(s) <= s.len(),
        mark(s) < s.len() ==> mark(s) + 2 <= s.len(),
    decreases s.len(),
{
    if s.len() >= 2 {
        lemma_mark(s.skip(1));
    }
}

fn find_mark(s: &[char]) -> (r: usize)
    ensures
        r == mark(s@),
        r <= s@.len(),
        r < s@.len() ==> r + 2 <= s@.len(),
{
    let n = s.len();
    let mut i: usize = 0;
    assert(s@.skip(0) =~= s@);
    proof {
        lemma_mark(s@);
    }
    while n - i >= 2
        invariant
            i <= n == s@.len(),
            i + mark(s@.skip(i as int)) == mark(s@),
            mark(s@) <= n,
            mark(s@) < n ==> mark(s@) + 2 <= n,
        decreases n - i,
    {
        if s[i] == 'c' && s[i + 1] == ' ' {
            return i;
        }
        assert(s@.skip(i as int).skip(1) =~= s@.skip(i + 1));
        i = i + 1;
    }
    n
}

/// The text between the first mark of `s` and the next, or the end where there is no other.
pub open spec fn marked(s: Seq<char>) -> Option<Seq<char>> {
    let i = mark(s);
    if i < s.len() {
        let rest = s.skip(i + 2);
        Some(rest.take(mark(rest)))
    } else {
        None
    }
}

fn read_marked(s: &[char]) -> (r: Option<&[char]>)
    ensures
        match r {
            Some(t) => marked(s@) == Some(t@),
            None => marked(s@) is None,
        },
{
    let i = find_mark(s);
    if i == s.len() {
        return None;
    }
    let rest = slice_subrange(s, i + 2, s.len());
    assert(rest@ =~= s@.skip(i + 2));
    let k = find_mark(rest);
    assert(rest@.subrange(0, k as int) =~= rest@.take(k as int));
    Some(slice_subrange(rest, 0, k))
}

/// An opaque pixel.
pub open spec fn opaque(r: int, g: int, b: int) -> Bgra {
    Bgra { b: b as u8, g: g as u8, r: r as u8, a: 255 }
}

/// A byte of a colour, or why the pixmap cannot be read.
pub open spec fn channel(hex: Seq<char>, from: int, to: int) -> Result<u8, XpmError> {
    match hex_byte(hex, from, to) {
        Ok(v) => Ok(v),
        Err(HexError::Cut) => Err(XpmError::Cut),
        Err(HexError::NotHex) => Err(XpmError::Malformed),
    }
}

/// A pixel of the red, green and blue read in this order, each times `scale`; the first that
/// cannot be read decides.
pub open spec fn join_channels(
    r: Result<u8, XpmError>,
    g: Result<u8, XpmError>,
    b: Result<u8, XpmError>,
    scale: int,
) -> Result<Bgra, XpmError> {
    match (r, g, b) {
        (Ok(r), Ok(g), Ok(b)) => Ok(opaque(r * scale, g * scale, b * scale)),
        (Err(e), _, _) => Err(e),
        (_, Err(e), _) => Err(e),
        (_, _, Err(e)) => Err(e),
    }
}

/// The pixel that a colour stands for: `#rgb`, `#rrggbb`, or `None` for no colour at all.
pub open spec fn colour(s: Seq<char>) -> Result<Bgra, XpmError> {
    if s.len() > 0 && s[0] == '#' {
        let hex = s.skip(1);
        if byte_len(hex) == 3 {
            join_channels(channel(hex, 0, 1), channel(hex, 1, 2), channel(hex, 2, 3), 17)
        } else if byte_len(hex) == 6 {
            join_channels(channel(hex, 0, 2), channel(hex, 2, 4), channel(hex, 4, 6), 1)
        } else {
            Err(XpmError::Malformed)
        }
    } else if trim(s) == "None"@ {
        Ok(clear())
    } else {
        Err(XpmError::Malformed)
    }
}

/// A colour is opaque, or it is none at all.
pub proof fn law_colour_opaque_or_clear(s: Seq<char>)
    ensures
        colour(s) matches Ok(p) ==> p.a == 255 || p == clear(),
{
}

fn read_channel(hex: &[char], from: usize, to: usize) -> (r: Result<u8, XpmError>)
    requires
        from <= to,
    ensures
        r == channel(hex@, from as int, to as int),
{
    match read_hex_byte(hex, from, to) {
        Ok(v) => Ok(v),
        Err(HexError::Cut) => Err(XpmError::Cut),
        Err(HexError::NotHex) => Err(XpmError::Malformed),
    }
}

fn read_colour(s: &[char]) -> (r: Result<Bgra, XpmError>)
    ensures
        r == colour(s@),
{
    if s.len() > 0 && s[0] == '#' {
        let hex = slice_subrange(s, 1, s.len());
        assert(hex@ =~= s@.skip(1));
        let n = count_bytes(hex);
        if n == Some(3) {
            proof {
                lemma_one_digit(hex@, 0);
                lemma_one_digit(hex@, 1);
                lemma_one_digit(hex@, 2);
            }
            let r = read_channel(hex, 0, 1)?;
            let g = read_channel(hex, 1, 2)?;
            let b = read_channel(hex, 2, 3)?;
            Ok(Bgra { b: b * 17, g: g * 17, r: r * 17, a: 255 })
        } else if n == Some(6) {
            let r = read_channel(hex, 0, 2)?;
            let g = read_channel(hex, 2, 4)?;
            let b = read_channel(hex, 4, 6)?;
            Ok(Bgra { b, g, r, a: 255 })
        } else {
            Err(XpmError::Malformed)
        }
    } else {
        let none = chars_of("None");
        if same_text(trimmed(s), none.as_slice()) {
            Ok(Bgra { b: 0, g: 0, r: 0, a: 0 })
        } else {
            Err(XpmError::Malformed)
        }
    }
}

/// What a colour string says: the key, which is its first bytes, and the pixel it stands for.
pub open spec fn colour_line(s: Seq<char>, bytes_per_pixel: int) -> Result<
    (Seq<char>, Bgra),
    XpmError,
> {
    match cut(s, bytes_per_pixel) {
        None => Err(XpmError::Cut),
        Some(k) => match marked(s) {
            None => Err(XpmError::Malformed),
            Some(t) => match colour(t) {
                Err(e) => Err(e),
                Ok(p) => Ok((s.take(k), p)),
            },
        },
    }
}

/// A key and the pixel it stands for.
pub struct Key {
    pub text: Vec<char>,
    pub pixel: Bgra,
}

/// What a list of keys says.
pub open spec fn keys(v: Seq<Key>) -> Seq<(Seq<char>, Bgra)> {
    v.map_values(|k: Key| (k.text@, k.pixel))
}

fn read_colour_line(s: &[char], bytes_per_pixel: usize) -> (r: Result<Key, XpmError>)
    ensures
        match r {
            Ok(k) => colour_line(s@, bytes_per_pixel as int) == Ok::<_, XpmError>(
                (k.text@, k.pixel),
            ),
            Err(e) => colour_line(s@, bytes_per_pixel as int) == Err::<(Seq<char>, Bgra), _>(e),
        },
{
    match cut_at(s, bytes_per_pixel) {
        None => Err(XpmError::Cut),
        Some(k) => match read_marked(s) {
            None => Err(XpmError::Malformed),
            Some(t) => match read_colour(t) {
                Err(e) => Err(e),
                Ok(p) => {
                    assert(s@.subrange(0, k as int) =~= s@.take(k as int));
                    Ok(Key { text: vstd::slice::slice_to_vec(slice_subrange(s, 0, k)), pixel: p })
                },
            },
        },
    }
}

/// The keys that the first `n` of the lines `from` onward hold; the first line that fails decides.
pub open spec fn palette(lines: Seq<Seq<char>>, from: int, n: nat, bytes_per_pixel: int) -> Result<
    Seq<(Seq<char>, Bgra)>,
    XpmError,
>
    decreases n,
{
    if n == 0 {
        Ok(Seq::empty())
    } else {
        match palette(lines, from, (n - 1) as nat, bytes_per_pixel) {
            Err(e) => Err(e),
            Ok(p) => if from + n - 1 >= lines.len() {
                Err(XpmError::Malformed)
            } else {
                match colour_line(unquoted(lines[from + n - 1]), bytes_per_pixel) {
                    Err(e) => Err(e),
                    Ok(k) => Ok(p.push(k)),
                }
            },
        }
    }
}

/// Once a line has failed, no later one mends it.
proof fn lemma_palette_error(
    lines: Seq<Seq<char>>,
    from: int,
    n: nat,
    m: nat,
    bytes_per_pixel: int,
)
    requires
        n <= m,
        palette(lines, from, n, bytes_per_pixel) is Err,
    ensures
        palette(lines, from, m, bytes_per_pixel) == palette(lines, from, n, bytes_per_pixel),
    decreases m,
{
    if n < m {
        lemma_palette_error(lines, from, n, (m - 1) as nat, bytes_per_pixel);
    }
}

fn read_palette(
    lines: &Vec<Vec<char>>,
    from: usize,
    n: usize,
    bytes_per_pixel: usize,
) -> (r: Result<Vec<Key>, XpmError>)
    requires
        from <= lines@.len(),
    ensures
        match r {
            Ok(v) => palette(texts(lines@), from as int, n as nat, bytes_per_pixel as int) == Ok::<
                _,
                XpmError,
            >(keys(v@)) && from + n <= lines@.len(),
            Err(e) => palette(texts(lines@), from as int, n as nat, bytes_per_pixel as int)
                == Err::<Seq<(Seq<char>, Bgra)>, _>(e),
        },
{
    let mut v: Vec<Key> = Vec::new();
    let mut j: usize = 0;
    let ghost all = texts(lines@);
    assert(keys(v@) =~= Seq::empty());
    while j < n
        invariant
            j <= n,
            from + j <= lines@.len(),
            all == texts(lines@),
            palette(all, from as int, j as nat, bytes_per_pixel as int) == Ok::<_, XpmError>(
                keys(v@),
            ),
        decreases n - j,
    {
        if j >= lines.len() - from {
            proof {
                lemma_palette_error(
                    all,
                    from as int,
                    (j + 1) as nat,
                    n as nat,
                    bytes_per_pixel as int,
                );
            }
            return Err(XpmError::Malformed);
        }
        assert(all[from + j] == lines@[from + j]@);
        match read_colour_line(xpm_unquote(lines[from + j].as_slice()), bytes_per_pixel) {
            Err(e) => {
                proof {
                    lemma_palette_error(
                        all,
                        from as int,
                        (j + 1) as nat,
                        n as nat,
                        bytes_per_pixel as int,
                    );
                }
                return Err(e);
            },
            Ok(k) => {
                let ghost before = v@;
                v.push(k);
                assert(keys(v@) =~= keys(before).push((k.text@, k.pixel)));
            },
        }
        j = j + 1;
    }
    Ok(v)
}

/// The pixel that `key` stands for: the last entry with this key counts.
pub open spec fn lookup(p: Seq<(Seq<char>, Bgra)>, key: Seq<char>) -> Option<Bgra>
    decreases p.len(),
{
    if p.len() == 0 {
        None
    } else if p.last().0 == key {
        Some(p.last().1)
    } else {
        lookup(p.drop_last(), key)
    }
}

/// A key that is given again stands for the later pixel from then on, and no other key changes.
pub proof fn law_later_key_counts(
    p: Seq<(Seq<char>, Bgra)>,
    key: Seq<char>,
    pixel: Bgra,
    other: Seq<char>,
)
    requires
        other != key,
    ensures
        lookup(p.push((key, pixel)), key) == Some(pixel),
        lookup(p.push((key, pixel)), other) == lookup(p, other),
{
    assert(p.push((key, pixel)).drop_last() =~= p);
}

fn find_key(v: &Vec<Key>, key: &[char]) -> (r: Option<Bgra>)
    ensures
        r == lookup(keys(v@), key@),
{
    let mut n: usize = v.len();
    assert(keys(v@).take(n as int) =~= keys(v@));
    while n > 0
        invariant
            n <= v@.len(),
            lookup(keys(v@).take(n as int), key@) == lookup(keys(v@), key@),
        decreases n,
    {
        assert(keys(v@).take(n as int).drop_last() =~= keys(v@).take(n - 1));
        assert(keys(v@).take(n as int).last() == (v@[n - 1].text@, v@[n - 1].pixel));
        if same_text(v[n - 1].text.as_slice(), key) {
            return Some(v[n - 1].pixel);
        }
        n = n - 1;
    }
    None
}

/// Which of the lines is the first to begin with a quote; their number if none does.
pub open spec fn first_string(lines: Seq<Seq<char>>) -> int
    decreases lines.len(),
{
    if lines.len() == 0 || (lines[0].len() > 0 && lines[0][0] == '"') {
        0
    } else {
        1 + first_string(lines.skip(1))
    }
}

fn find_string(lines: &Vec<Vec<char>>) -> (r: usize)
    ensures
        r == first_string(texts(lines@)),
        r <= lines@.len(),
{
    let n = lines.len();
    let ghost all = texts(lines@);
    let mut i: usize = 0;
    assert(all.skip(0) =~= all);
    while i < n
        invariant
            i <= n == lines@.len(),
            all == texts(lines@),
            i + first_string(all.skip(i as int)) == first_string(all),
        decreases n - i,
    {
        assert(all.skip(i as int)[0] == lines@[i as int]@);
        assert(all.skip(i as int).skip(1) =~= all.skip(i + 1));
        if lines[i].len() > 0 && lines[i][0] == '"' {
            return i;
        }
        i = i + 1;
    }
    n
}

/// A pixmap whose colours have been read and whose rows have not.
pub struct Xpm {
    pub header: Header,
    pub palette: Vec<Key>,
    /// The strings behind the colours.
    pub rows: Vec<Vec<char>>,
}

/// What an `Xpm` holds.
pub struct XpmModel {
    pub header: Header,
    pub palette: Seq<(Seq<char>, Bgra)>,
    pub rows: Seq<Seq<char>>,
}

impl View for Xpm {
    type V = XpmModel;

    open spec fn view(&self) -> XpmModel {
        XpmModel { header: self.header, palette: keys(self.palette@), rows: texts(self.rows@) }
    }
}

/// What the text of a pixmap says, up to its rows.
pub open spec fn xpm(text: Seq<char>) -> Result<XpmModel, XpmError> {
    let lines = source_lines(text);
    let i = first_string(lines);
    if i >= lines.len() {
        Err(XpmError::Malformed)
    } else {
        match header(unquoted(lines[i])) {
            None => Err(XpmError::Malformed),
            Some(h) => match palette(
                lines,
                i + 1,
                h.colours as nat,
                h.bytes_per_pixel as int,
            ) {
                Err(e) => Err(e),
                Ok(p) => Ok(
                    XpmModel {
                        header: h,
                        palette: p,
                        rows: lines.skip(i + 1 + h.colours).map_values(
                            |l: Seq<char>| unquoted(l),
                        ),
                    },
                ),
            },
        }
    }
}

/// The text that stands for the pixel in column `x`.
pub open spec fn cell(row: Seq<char>, x: int, bytes_per_pixel: int) -> Option<Seq<char>> {
    byte_slice(row, x * bytes_per_pixel, (x + 1) * bytes_per_pixel)
}

/// The pixel that a cell stands for; one that no key names stays clear.
pub open spec fn cell_pixel(p: Seq<(Seq<char>, Bgra)>, key: Seq<char>) -> Bgra {
    match lookup(p, key) {
        Some(c) => c,
        None => clear(),
    }
}

/// The pixels of a row; `None` where the row cannot be cut into its cells.
pub open spec fn row_pixels(
    row: Seq<char>,
    width: nat,
    bytes_per_pixel: int,
    p: Seq<(Seq<char>, Bgra)>,
) -> Option<Seq<Bgra>> {
    if forall|x: int| 0 <= x < width ==> (#[trigger] cell(row, x, bytes_per_pixel)) is Some {
        Some(
            Seq::new(width, |x: int| cell_pixel(p, cell(row, x, bytes_per_pixel).unwrap())),
        )
    } else {
        None
    }
}

/// The pixels of the first `n` rows; the first row that fails decides.
pub open spec fn pixel_rows(m: XpmModel, n: nat) -> Result<Seq<Seq<Bgra>>, XpmError>
    decreases n,
{
    if n == 0 {
        Ok(Seq::empty())
    } else {
        match pixel_rows(m, (n - 1) as nat) {
            Err(e) => Err(e),
            Ok(rows) => if n > m.rows.len() {
                Err(XpmError::Malformed)
            } else {
                match row_pixels(
                    m.rows[n - 1],
                    m.header.width as nat,
                    m.header.bytes_per_pixel as int,
                    m.palette,
                ) {
                    None => Err(XpmError::Cut),
                    Some(row) => Ok(rows.push(row)),
                }
            },
        }
    }
}

/// Once a row has failed, no later one mends it.
proof fn lemma_rows_error(m: XpmModel, n: nat, k: nat)
    requires
        n <= k,
        pixel_rows(m, n) is Err,
    ensures
        pixel_rows(m, k) == pixel_rows(m, n),
    decreases k,
{
    if n < k {
        lemma_rows_error(m, n, (k - 1) as nat);
    }
}

/// A pixmap that can be read has as many rows, and each as many pixels, as its header says.
pub proof fn law_pixmap_shape(m: XpmModel, n: nat)
    ensures
        pixel_rows(m, n) matches Ok(rows) ==> rows.len() == n && forall|y: int|
            0 <= y < n ==> (#[trigger] rows[y]).len() == m.header.width,
    decreases n,
{
    if n > 0 {
        law_pixmap_shape(m, (n - 1) as nat);
    }
}

/// The pixel in column `x` of row `y` is the one that the palette has for its key.
pub proof fn law_pixmap_pixel(m: XpmModel, n: nat, x: int, y: int)
    requires
        pixel_rows(m, n) is Ok,
        0 <= y < n,
        0 <= x < m.header.width,
    ensures
        y < m.rows.len(),
        cell(m.rows[y], x, m.header.bytes_per_pixel as int) is Some,
        pixel_rows(m, n).unwrap()[y][x] == cell_pixel(
            m.palette,
            cell(m.rows[y], x, m.header.bytes_per_pixel as int).unwrap(),
        ),
    decreases n,
{
    law_pixmap_shape(m, (n - 1) as nat);
    if y < n - 1 {
        law_pixmap_pixel(m, (n - 1) as nat, x, y);
    } else {
        assert(cell(m.rows[y], x, m.header.bytes_per_pixel as int) is Some);
    }
}

/// Reads the header and the colours of a pixmap.
pub fn parse_xpm(text: &str) -> (r: Result<Xpm, XpmError>)
    ensures
        match r {
            Ok(x) => xpm(text@) == Ok::<_, XpmError>(x@),
            Err(e) => xpm(text@) == Err::<XpmModel, _>(e),
        },
{
    let lines = read_lines(text);
    let i = find_string(&lines);
    let ghost all = texts(lines@);
    if i == lines.len() {
        return Err(XpmError::Malformed);
    }
    assert(all[i as int] == lines@[i as int]@);
    match read_header(xpm_unquote(lines[i].as_slice())) {
        None => Err(XpmError::Malformed),
        Some(h) => {
            let palette = read_palette(&lines, i + 1, h.colours, h.bytes_per_pixel)?;
            let from: usize = i + 1 + h.colours;
            let ghost tail = all.skip(from as int).map_values(|l: Seq<char>| unquoted(l));
            let mut rows: Vec<Vec<char>> = Vec::new();
            let mut k: usize = from;
            assert(texts(rows@) =~= tail.take(0));
            while k < lines.len()
                invariant
                    from <= k <= lines@.len(),
                    all == texts(lines@),
                    tail == all.skip(from as int).map_values(|l: Seq<char>| unquoted(l)),
                    texts(rows@) =~= tail.take(k - from),
                decreases lines@.len() - k,
            {
                let ghost before = rows@;
                assert(all[k as int] == lines@[k as int]@);
                assert(tail[k - from] == unquoted(lines@[k as int]@));
                rows.push(vstd::slice::slice_to_vec(xpm_unquote(lines[k].as_slice())));
                assert(texts(rows@) =~= texts(before).push(tail[k - from]));
                k = k + 1;
            }
            assert(tail.take(k - from) =~= tail);
            Ok(Xpm { header: h, palette, rows })
        },
    }
}

fn read_row(row: &[char], width: u32, bytes_per_pixel: usize, palette: &Vec<Key>) -> (r: Option<
    Vec<Bgra>,
>)
    ensures
        match r {
            Some(v) => row_pixels(
                row@,
                width as nat,
                bytes_per_pixel as int,
                keys(palette@),
            ) == Some(v@),
            None => row_pixels(row@, width as nat, bytes_per_pixel as int, keys(palette@)) is None,
        },
{
    let mut v: Vec<Bgra> = Vec::new();
    let mut x: u32 = 0;
    let mut at: usize = 0;
    let ghost bpp = bytes_per_pixel as int;
    assert(0 * bpp == 0) by (nonlinear_arith);
    while x < width
        invariant
            x <= width,
            at <= row@.len(),
            bpp == bytes_per_pixel,
            cut(row@, x * bpp) == Some(at as int),
            v@.len() == x,
            forall|c: int|
                0 <= c < x ==> (#[trigger] cell(row@, c, bpp)) is Some && v@[c] == cell_pixel(
                    keys(palette@),
                    cell(row@, c, bpp).unwrap(),
                ),
        decreases width - x,
    {
        let rest = slice_subrange(row, at, row.len());
        assert(rest@ =~= row@.skip(at as int));
        proof {
            assert(x * bpp >= 0) by (nonlinear_arith)
                requires
                    x >= 0,
                    bpp >= 0,
            ;
            assert((x + 1) * bpp == x * bpp + bpp) by (nonlinear_arith);
            crate::offsets::lemma_cut_adds(row@, x * bpp, bpp);
        }
        match cut_at(rest, bytes_per_pixel) {
            None => {
                assert(cell(row@, x as int, bpp) is None);
                return None;
            },
            Some(k) => {
                let key = slice_subrange(rest, 0, k);
                assert(key@ =~= row@.subrange(at as int, at + k));
                assert(cell(row@, x as int, bpp) == Some(key@));
                let p = match find_key(palette, key) {
                    Some(c) => c,
                    None => Bgra { b: 0, g: 0, r: 0, a: 0 },
                };
                v.push(p);
                at = at + k;
            },
        }
        x = x + 1;
    }
    assert(v@ =~= Seq::new(
        width as nat,
        |c: int| cell_pixel(keys(palette@), cell(row@, c, bpp).unwrap()),
    ));
    Some(v)
}

impl Xpm {
    /// The bytes that the pixmap leaves in a clear surface with `stride` bytes to a row.
    pub fn pixels(&self, stride: usize) -> (r: Result<Vec<u8>, XpmError>)
        requires
            4 * self.header.width <= stride,
        ensures
            match (r, pixel_rows(self@, self.header.height as nat)) {
                (Ok(v), Ok(rows)) => v@ == surface_bytes(rows, stride as nat),
                (Err(e), Err(f)) => e == f,
                _ => false,
            },
    {
        let mut out: Vec<u8> = Vec::new();
        let mut y: u32 = 0;
        let ghost mut done: Seq<Seq<Bgra>> = Seq::empty();
        while y < self.header.height
            invariant
                y <= self.header.height,
                pixel_rows(self@, y as nat) == Ok::<_, XpmError>(done),
                out@ == surface_bytes(done, stride as nat),
            decreases self.header.height - y,
        {
            if y as u64 >= self.rows.len() as u64 {
                proof {
                    lemma_rows_error(self@, (y + 1) as nat, self.header.height as nat);
                }
                return Err(XpmError::Malformed);
            }
            let k = y as usize;
            assert(self@.rows[k as int] == self.rows@[k as int]@);
            match read_row(
                self.rows[k].as_slice(),
                self.header.width,
                self.header.bytes_per_pixel,
                &self.palette,
            ) {
                None => {
                    proof {
                        lemma_rows_error(self@, (y + 1) as nat, self.header.height as nat);
                    }
                    return Err(XpmError::Cut);
                },
                Some(row) => {
                    push_row(&mut out, &row, stride);
                    proof {
                        let next = done.push(row@);
                        assert(next.drop_last() =~= done);
                        done = next;
                    }
                },
            }
            y = y + 1;
        }
        Ok(out)
    }
}

/// What stands between the quotes is kept whole, white space and commas included, however many
/// commas follow.
pub proof fn law_unquoted_keeps_the_inside(t: Seq<char>, n: nat)
    requires
        t.len() > 0 ==> t[0] != '"' && t.last() != '"',
    ensures
        unquoted(seq!['"'] + t + seq!['"']) == t,
        unquoted(seq!['"'] + t + seq!['"', ',']) == t,
        unquoted(seq!['"'] + t + seq!['"'] + Seq::new(n, |i: int| ',')) == t,
{
    let s = seq!['"'] + t + seq!['"'];
    let behind = t + seq!['"'];
    assert(s.last() == '"');
    law_strip_leaves_the_rest(s, ',', 0);
    law_strip_leaves_the_rest(s, ',', 1);
    law_strip_leaves_the_rest(s, ',', n);
    assert(s + Seq::new(0, |i: int| ',') =~= s);
    assert(s + Seq::new(1, |i: int| ',') =~= seq!['"'] + t + seq!['"', ',']);
    assert(s[0] == '"');
    assert(s.skip(1) =~= behind);
    if t.len() > 0 {
        assert(behind[0] == t[0]);
        assert(behind.last() == '"');
        assert(behind.drop_last() =~= t);
        assert(strip_start(behind, '"') == behind);
        assert(strip_end(t, '"') == t);
        assert(strip_end(behind, '"') == t);
    } else {
        assert(behind[0] == '"');
        assert(behind.skip(1) =~= t);
        assert(strip_start(t, '"') == t);
        assert(strip_start(behind, '"') == t);
        assert(strip_end(t, '"') == t);
    }
    assert(strip_start(s, '"') == strip_start(behind, '"'));
}

/// A line counts, trimmed, unless it is blank, begins a comment or ends the array; and the lines
/// that count keep their order.
pub proof fn law_source_lines(a: Seq<char>, b: Seq<char>)
    requires
        !a.contains('\n'),
    ensures
        ({
            let t = trim(a);
            let counts = t.len() > 0 && t != "};"@ && forall|u: Seq<char>|
                t != #[trigger] ("/*"@ + u);
            &&& counts ==> source_lines(a) == seq![t]
            &&& counts ==> source_lines(a + seq!['\n'] + b) == seq![t] + source_lines(b)
            &&& !counts ==> source_lines(a) == Seq::<Seq<char>>::empty()
            &&& !counts ==> source_lines(a + seq!['\n'] + b) == source_lines(b)
        }),
{
    let t = trim(a);
    let kept = |l: Seq<char>| is_kept(l);
    law_lines(a, b);
    law_begins_with_prefix(t, "/*"@);
    let none = Seq::<Seq<char>>::empty();
    none.lemma_filter_push(t, kept);
    assert(none.push(t) =~= seq![t]);
    assert(none.filter(kept) =~= none) by {
        reveal(Seq::filter);
    }
    Seq::filter_distributes_over_add(seq![t], trimmed_lines(b), kept);
    if is_kept(t) {
        assert(seq![t].filter(kept) =~= seq![t]);
        assert forall|u: Seq<char>| t != #[trigger] ("/*"@ + u) by {}
    } else {
        assert(seq![t].filter(kept) =~= none);
        assert(none + source_lines(b) =~= source_lines(b));
        if t.len() > 0 && t != "};"@ {
            assert(t == "/*"@ + t.skip("/*"@.len() as int));
        }
    }
}

proof fn lemma_word_before(w: Seq<char>, c: char, rest: Seq<char>)
    requires
        forall|i: int| 0 <= i < w.len() ==> !is_white_space(#[trigger] w[i]),
        is_white_space(c),
    ensures
        word_end(w) == w.len(),
        word_end(w + seq![c] + rest) == w.len(),
    decreases w.len(),
{
    let s = w + seq![c] + rest;
    if w.len() == 0 {
        assert(s[0] == c);
    } else {
        let v = w.skip(1);
        assert(s[0] == w[0]);
        assert(s.skip(1) =~= v + seq![c] + rest);
        assert forall|i: int| 0 <= i < v.len() implies !is_white_space(#[trigger] v[i]) by {
            assert(v[i] == w[i + 1]);
        }
        lemma_word_before(v, c, rest);
    }
}

/// Words are what white space parts, however much of it, and each is kept whole.
pub proof fn law_words(w: Seq<char>, c: char, rest: Seq<char>)
    requires
        w.len() > 0,
        forall|i: int| 0 <= i < w.len() ==> !is_white_space(#[trigger] w[i]),
        is_white_space(c),
    ensures
        words(Seq::empty()) == Seq::<Seq<char>>::empty(),
        words(seq![c] + rest) == words(rest),
        words(w) == seq![w],
        words(w + seq![c] + rest) == seq![w] + words(rest),
{
    let none = Seq::<char>::empty();
    assert(trim_start(none) =~= none);
    let later = seq![c] + rest;
    assert(later[0] == c);
    assert(later.skip(1) =~= rest);
    assert(trim_start(later) == trim_start(rest));
    assert(words(later) == words(rest));
    lemma_word_before(w, c, rest);
    assert(!is_white_space(w[0]));
    assert(w.take(w.len() as int) =~= w);
    assert(w.skip(w.len() as int) =~= none);
    assert(trim_start(w) == w);
    assert(words(none) =~= Seq::empty());
    assert(words(w) == seq![w.take(w.len() as int)] + words(w.skip(w.len() as int)));
    assert(words(w) =~= seq![w]);
    let s = w + seq![c] + rest;
    assert(s[0] == w[0]);
    assert(s.take(w.len() as int) =~= w);
    assert(s.skip(w.len() as int) =~= later);
}

/// The first four words are the width, the height, the number of colours and the bytes for a
/// pixel, in this order and base ten; with fewer, or where one is no numeral or too large, there is
/// no header.
pub proof fn law_header(s: Seq<char>)
    ensures
        header(s) is Some <==> words(s).len() >= 4 && numeral(words(s)[0], 10, 0xffff_ffff) is Some
            && numeral(words(s)[1], 10, 0xffff_ffff) is Some && numeral(
            words(s)[2],
            10,
            usize::MAX as nat,
        ) is Some && numeral(words(s)[3], 10, usize::MAX as nat) is Some,
        header(s) matches Some(h) ==> {
            &&& numeral(words(s)[0], 10, 0xffff_ffff) == Some(h.width as nat)
            &&& numeral(words(s)[1], 10, 0xffff_ffff) == Some(h.height as nat)
            &&& numeral(words(s)[2], 10, usize::MAX as nat) == Some(h.colours as nat)
            &&& numeral(words(s)[3], 10, usize::MAX as nat) == Some(h.bytes_per_pixel as nat)
        },
{
}

/// Whether the mark stands nowhere in `s`.
pub open spec fn unmarked(s: Seq<char>) -> bool {
    forall|i: int| 0 <= i && i + 1 < s.len() ==> !((#[trigger] s[i]) == 'c' && s[i + 1] == ' ')
}

proof fn lemma_mark_behind(a: Seq<char>, r: Seq<char>)
    requires
        unmarked(a),
    ensures
        mark(a) == a.len(),
        mark(a + seq!['c', ' '] + r) == a.len(),
    decreases a.len(),
{
    let s = a + seq!['c', ' '] + r;
    if a.len() == 0 {
        assert(s[0] == 'c');
        assert(s[1] == ' ');
    } else {
        let b = a.skip(1);
        assert(s.skip(1) =~= b + seq!['c', ' '] + r);
        assert(s[0] == a[0]);
        if a.len() > 1 {
            assert(s[1] == a[1]);
        } else {
            assert(s[1] == 'c');
        }
        assert forall|i: int| 0 <= i && i + 1 < b.len() implies !((#[trigger] b[i]) == 'c' && b[i
            + 1] == ' ') by {
            assert(b[i] == a[i + 1]);
            assert(b[i + 1] == a[i + 2]);
        }
        lemma_mark_behind(b, r);
    }
}

/// The colour is what stands behind the first `c` and space, up to the next or to the end.
pub proof fn law_colour_stands_behind_the_mark(a: Seq<char>, t: Seq<char>, u: Seq<char>)
    requires
        unmarked(a),
        unmarked(t),
    ensures
        marked(a) is None,
        marked(a + seq!['c', ' '] + t) == Some(t),
        marked(a + seq!['c', ' '] + t + seq!['c', ' '] + u) == Some(t),
{
    lemma_mark_behind(a, t);
    let s = a + seq!['c', ' '] + t;
    assert(s.skip(a.len() as int + 2) =~= t);
    lemma_mark_behind(t, u);
    assert(t.take(t.len() as int) =~= t);
    let r = t + seq!['c', ' '] + u;
    lemma_mark_behind(a, r);
    let l = a + seq!['c', ' '] + r;
    assert(l =~= a + seq!['c', ' '] + t + seq!['c', ' '] + u);
    assert(l.skip(a.len() as int + 2) =~= r);
    assert(r.take(t.len() as int) =~= t);
}

proof fn lemma_xpm_channel(a: Seq<char>, t: Seq<char>, b: Seq<char>)
    ensures
        channel(a + t + b, byte_len(a), byte_len(a) + byte_len(t)) == (match numeral(t, 16, 255) {
            Some(v) => Ok(v as u8),
            None => Err(XpmError::Malformed),
        }),
{
    law_hex_between(a, t, b, '0', '0');
}

/// Behind a `#`, three texts of two bytes are the red, the green and the blue of an opaque pixel,
/// each a numeral in base sixteen; where one is none, there is no colour.
pub proof fn law_colour_of_six_bytes(r: Seq<char>, g: Seq<char>, b: Seq<char>)
    requires
        byte_len(r) == 2,
        byte_len(g) == 2,
        byte_len(b) == 2,
    ensures
        match (numeral(r, 16, 255), numeral(g, 16, 255), numeral(b, 16, 255)) {
            (Some(x), Some(y), Some(z)) => colour(seq!['#'] + (r + g + b)) matches Ok(p) && p.r == x
                && p.g == y && p.b == z && p.a == 255,
            _ => colour(seq!['#'] + (r + g + b)) == Err::<Bgra, _>(XpmError::Malformed),
        },
{
    let none = Seq::<char>::empty();
    let s = r + g + b;
    lemma_byte_len_adds(r, g);
    lemma_byte_len_adds(r + g, b);
    assert((seq!['#'] + s)[0] == '#');
    assert((seq!['#'] + s).skip(1) =~= s);
    lemma_xpm_channel(none, r, g + b);
    assert(none + r + (g + b) =~= s);
    lemma_xpm_channel(r, g, b);
    lemma_xpm_channel(r + g, b, none);
    assert(r + g + b + none =~= s);
}

/// Behind a `#`, three bytes are the red, the green and the blue of an opaque pixel, seventeen
/// times each digit; where one is none, there is no colour.
pub proof fn law_colour_of_three_bytes(r: char, g: char, b: char)
    requires
        r as u32 <= 0x7f,
        g as u32 <= 0x7f,
        b as u32 <= 0x7f,
    ensures
        is_digit(r, 16) && is_digit(g, 16) && is_digit(b, 16) ==> (colour(
            seq!['#', r, g, b],
        ) matches Ok(p) && p.r == 17 * digit(r).unwrap() && p.g == 17 * digit(g).unwrap() && p.b
            == 17 * digit(b).unwrap() && p.a == 255),
        !(is_digit(r, 16) && is_digit(g, 16) && is_digit(b, 16)) ==> colour(seq!['#', r, g, b])
            == Err::<Bgra, _>(XpmError::Malformed),
{
    let none = Seq::<char>::empty();
    let s = seq![r, g, b];
    lemma_one_byte(r);
    lemma_one_byte(g);
    lemma_one_byte(b);
    lemma_byte_len_adds(seq![r], seq![g]);
    lemma_byte_len_adds(seq![r] + seq![g], seq![b]);
    assert(seq![r] + seq![g] + seq![b] =~= s);
    assert(seq!['#', r, g, b].skip(1) =~= s);
    lemma_xpm_channel(none, seq![r], seq![g] + seq![b]);
    assert(none + seq![r] + (seq![g] + seq![b]) =~= s);
    lemma_xpm_channel(seq![r], seq![g], seq![b]);
    lemma_xpm_channel(seq![r] + seq![g], seq![b], none);
    assert(seq![r] + seq![g] + seq![b] + none =~= s);
    law_one_digit_numeral(r, 16, 255);
    law_one_digit_numeral(g, 16, 255);
    law_one_digit_numeral(b, 16, 255);
}

/// Without a `#` only the word `None`, with white space round it or without, is a colour: that of
/// nothing at all. With one, no other length is.
pub proof fn law_other_colours(a: Seq<char>, s: Seq<char>, b: Seq<char>)
    requires
        forall|i: int| 0 <= i < a.len() ==> is_white_space(#[trigger] a[i]),
        forall|i: int| 0 <= i < b.len() ==> is_white_space(#[trigger] b[i]),
    ensures
        colour(a + "None"@ + b) == Ok::<_, XpmError>(Bgra { b: 0, g: 0, r: 0, a: 0 }),
        (s.len() == 0 || s[0] != '#') && trim(s) != "None"@ ==> colour(s) == Err::<Bgra, _>(
            XpmError::Malformed,
        ),
        s.len() > 0 && s[0] == '#' && byte_len(s.skip(1)) != 3 && byte_len(s.skip(1)) != 6
            ==> colour(s) == Err::<Bgra, _>(XpmError::Malformed),
{
    reveal_strlit("None");
    let t = "None"@;
    assert(t[0] == 'N');
    assert(t.last() == 'e');
    law_trim_leaves_the_middle(a, t, b);
    let w = a + t + b;
    if a.len() > 0 {
        assert(w[0] == a[0]);
    } else {
        assert(w[0] == 'N');
    }
}

/// A colour string begins with its key, whatever that holds, and stands for the colour behind the
/// mark; where it cannot be cut behind the key, or has no colour, it says nothing.
pub proof fn law_colour_line(key: Seq<char>, rest: Seq<char>, s: Seq<char>, n: int)
    ensures
        colour_line(key + rest, byte_len(key)) == (match marked(key + rest) {
            Some(t) => match colour(t) {
                Ok(p) => Ok((key, p)),
                Err(e) => Err(e),
            },
            None => Err(XpmError::Malformed),
        }),
        cut(s, n) is None ==> colour_line(s, n) == Err::<(Seq<char>, Bgra), _>(XpmError::Cut),
{
    let none = Seq::<char>::empty();
    law_byte_slice_between(key, rest, none);
    assert(key + rest + none =~= key + rest);
    assert((key + rest).take(key.len() as int) =~= key);
}

/// The palette holds what each of the colour strings says, one for one and in their order.
pub proof fn law_palette(lines: Seq<Seq<char>>, from: int, n: nat, bytes_per_pixel: int)
    ensures
        palette(lines, from, n, bytes_per_pixel) matches Ok(p) ==> p.len() == n && forall|j: int|
            0 <= j < n ==> from + j < lines.len() && colour_line(
                unquoted(lines[from + j]),
                bytes_per_pixel,
            ) == Ok::<_, XpmError>(#[trigger] p[j]),
    decreases n,
{
    if n > 0 {
        law_palette(lines, from, (n - 1) as nat, bytes_per_pixel);
    }
}

/// The first colour string that is missing or says nothing decides how the palette fails.
pub proof fn law_palette_error(
    lines: Seq<Seq<char>>,
    from: int,
    j: nat,
    n: nat,
    bytes_per_pixel: int,
)
    requires
        j < n,
        palette(lines, from, j, bytes_per_pixel) is Ok,
    ensures
        from + j >= lines.len() ==> palette(lines, from, n, bytes_per_pixel) == Err::<
            Seq<(Seq<char>, Bgra)>,
            _,
        >(XpmError::Malformed),
        from + j < lines.len() ==> (colour_line(
            unquoted(lines[from + j]),
            bytes_per_pixel,
        ) matches Err(e) ==> palette(lines, from, n, bytes_per_pixel) == Err::<
            Seq<(Seq<char>, Bgra)>,
            _,
        >(e)),
{
    if from + j >= lines.len() || colour_line(unquoted(lines[from + j]), bytes_per_pixel) is Err {
        assert(palette(lines, from, (j + 1) as nat, bytes_per_pixel) is Err);
        lemma_palette_error(lines, from, (j + 1) as nat, n, bytes_per_pixel);
    }
}

/// No key stands for anything in an empty palette.
pub proof fn law_empty_palette(key: Seq<char>)
    ensures
        lookup(Seq::empty(), key) is None,
{
}

/// The header is the first line that begins with a quote, without its quotes; the colours follow
/// it, and behind them stand the rows, each without its quotes.
pub proof fn law_parts_of_a_pixmap(text: Seq<char>, i: int)
    requires
        0 <= i <= source_lines(text).len(),
        forall|j: int|
            0 <= j < i ==> (#[trigger] source_lines(text)[j]).len() == 0 || source_lines(text)[j][0]
                != '"',
        i < source_lines(text).len() ==> source_lines(text)[i].len() > 0 && source_lines(text)[i][0]
            == '"',
    ensures
        ({
            let lines = source_lines(text);
            &&& i == lines.len() ==> xpm(text) == Err::<XpmModel, _>(XpmError::Malformed)
            &&& i < lines.len() && header(unquoted(lines[i])) is None ==> xpm(text) == Err::<
                XpmModel,
                _,
            >(XpmError::Malformed)
            &&& i < lines.len() ==> (header(unquoted(lines[i])) matches Some(h) ==> {
                let p = palette(lines, i + 1, h.colours as nat, h.bytes_per_pixel as int);
                &&& p matches Err(e) ==> xpm(text) == Err::<XpmModel, _>(e)
                &&& p matches Ok(c) ==> (xpm(text) matches Ok(m) && m.header == h && m.palette == c
                    && m.rows.len() == lines.len() - (i + 1 + h.colours) && forall|y: int|
                    0 <= y < m.rows.len() ==> #[trigger] m.rows[y] == unquoted(
                        lines[i + 1 + h.colours + y],
                    ))
            })
        }),
{
    let lines = source_lines(text);
    lemma_first_string(lines, i);
    if i < lines.len() {
        if let Some(h) = header(unquoted(lines[i])) {
            let p = palette(lines, i + 1, h.colours as nat, h.bytes_per_pixel as int);
            law_palette(lines, i + 1, h.colours as nat, h.bytes_per_pixel as int);
            if let Ok(c) = p {
                if h.colours > 0 {
                    assert(i + 1 + (h.colours - 1) < lines.len()) by {
                        assert(c[h.colours - 1] == c[h.colours - 1]);
                    }
                }
            }
        }
    }
}

proof fn lemma_first_string(lines: Seq<Seq<char>>, i: int)
    requires
        0 <= i <= lines.len(),
        forall|j: int| 0 <= j < i ==> (#[trigger] lines[j]).len() == 0 || lines[j][0] != '"',
        i < lines.len() ==> lines[i].len() > 0 && lines[i][0] == '"',
    ensures
        first_string(lines) == i,
    decreases lines.len(),
{
    if i > 0 {
        let rest = lines.skip(1);
        assert(lines[0].len() == 0 || lines[0][0] != '"');
        assert forall|j: int| 0 <= j < i - 1 implies (#[trigger] rest[j]).len() == 0 || rest[j][0]
            != '"' by {
            assert(rest[j] == lines[j + 1]);
        }
        if i < lines.len() {
            assert(rest[i - 1] == lines[i]);
        }
        lemma_first_string(rest, i - 1);
    }
}

/// The bytes in the surface for column `x` of row `y` are those of the pixel for the key that
/// stands in the row behind the keys of the columns before; a key that is not in the palette leaves
/// them zero.
pub proof fn law_pixmap_bytes(
    m: XpmModel,
    stride: nat,
    x: int,
    y: int,
    before: Seq<char>,
    key: Seq<char>,
    behind: Seq<char>,
)
    requires
        pixel_rows(m, m.header.height as nat) is Ok,
        4 * m.header.width <= stride,
        0 <= x < m.header.width,
        0 <= y < m.header.height,
        m.rows[y] == before + key + behind,
        byte_len(before) == x * m.header.bytes_per_pixel,
        byte_len(key) == m.header.bytes_per_pixel,
    ensures
        ({
            let s = surface_bytes(pixel_rows(m, m.header.height as nat).unwrap(), stride);
            let at = y * stride + 4 * x;
            &&& s.len() == m.header.height * stride
            &&& lookup(m.palette, key) matches Some(p) ==> s[at] == p.b && s[at + 1] == p.g && s[at
                + 2] == p.r && s[at + 3] == p.a
            &&& lookup(m.palette, key) is None ==> s[at] == 0 && s[at + 1] == 0 && s[at + 2] == 0
                && s[at + 3] == 0
        }),
{
    let n = m.header.height as nat;
    let bpp = m.header.bytes_per_pixel as int;
    let rows = pixel_rows(m, n).unwrap();
    law_pixmap_shape(m, n);
    law_pixmap_pixel(m, n, x, y);
    law_byte_slice_between(before, key, behind);
    assert((x + 1) * bpp == x * bpp + bpp) by (nonlinear_arith);
    assert(rows[y].len() == m.header.width);
    law_surface_size(rows, stride);
    law_pixel_bytes(rows, stride, x, y, 0);
}

/// The first row that is missing, or is not long enough or would be cut inside a character, decides
/// how a pixmap fails; where there is no such row it does not.
pub proof fn law_pixmap_error(m: XpmModel, y: nat, n: nat)
    requires
        y < n,
        pixel_rows(m, y) is Ok,
    ensures
        y >= m.rows.len() ==> pixel_rows(m, n) == Err::<Seq<Seq<Bgra>>, _>(XpmError::Malformed),
        y < m.rows.len() ==> {
            let row = m.rows[y as int];
            let bpp = m.header.bytes_per_pixel as int;
            let whole = forall|x: int|
                0 <= x < m.header.width ==> (
                #[trigger] byte_slice(row, x * bpp, (x + 1) * bpp)) is Some;
            &&& !whole ==> pixel_rows(m, n) == Err::<Seq<Seq<Bgra>>, _>(XpmError::Cut)
            &&& whole ==> pixel_rows(m, (y + 1) as nat) is Ok
        },
{
    let next = (y + 1) as nat;
    if y >= m.rows.len() {
        assert(pixel_rows(m, next) is Err);
        lemma_rows_error(m, next, n);
    } else {
        let row = m.rows[y as int];
        let bpp = m.header.bytes_per_pixel as int;
        let whole = forall|x: int|
            0 <= x < m.header.width ==> (
            #[trigger] byte_slice(row, x * bpp, (x + 1) * bpp)) is Some;
        if whole {
            assert forall|x: int| 0 <= x < m.header.width implies (#[trigger] cell(
                row,
                x,
                bpp,
            )) is Some by {
                assert(byte_slice(row, x * bpp, (x + 1) * bpp) is Some);
            }
            assert(row_pixels(row, m.header.width as nat, bpp, m.palette) is Some);
        } else {
            let x = choose|x: int|
                0 <= x < m.header.width && (
                #[trigger] byte_slice(row, x * bpp, (x + 1) * bpp)) is None;
            assert(cell(row, x, bpp) is None);
            assert(row_pixels(row, m.header.width as nat, bpp, m.palette) is None);
            lemma_rows_error(m, next, n);
        }
    }
}

} // verus!
