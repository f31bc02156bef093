//! The look of the launcher and where it is read from.

use vstd::prelude::*;
use vstd::string::*;
use vstd::utf8::encode_utf8;

use crate::hex::{hex_byte, law_hex_between, lemma_one_digit, read_hex_byte, HexError};
use crate::numeral::{all_digits, digit, is_digit, law_one_digit_numeral, numeral, value};
use crate::offsets::{byte_len, count_bytes, cut, lemma_byte_len_adds, lemma_one_byte};
use crate::text::{
    chars_of, find_text, law_occurs_in_the_middle, lowercase, occurs_in, opt_text, strings,
    strip_start, without_start,
};

verus! {

/// The look of the launcher.
#[derive(Clone, Debug)]
pub struct LauncherTheme {
    pub bg_color: String,
    pub text_color: String,
    pub accent_color: String,
    pub border_radius: u32,
    pub border_width: u32,
}

/// What a `LauncherTheme` holds.
pub struct ThemeModel {
    pub bg_color: Seq<char>,
    pub text_color: Seq<char>,
    pub accent_color: Seq<char>,
    pub border_radius: u32,
    pub border_width: u32,
}

impl View for LauncherTheme {
    type V = ThemeModel;

    open spec fn view(&self) -> ThemeModel {
        ThemeModel {
            bg_color: self.bg_color@,
            text_color: self.text_color@,
            accent_color: self.accent_color@,
            border_radius: self.border_radius,
            border_width: self.border_width,
        }
    }
}

/// The look where no theme can be read.
pub open spec fn default_theme() -> ThemeModel {
    ThemeModel {
        bg_color: "#0b081a"@,
        text_color: "#ffffff"@,
        accent_color: "#00e5ff"@,
        border_radius: 8,
        border_width: 1,
    }
}

impl Default for LauncherTheme {
    fn default() -> (r: Self)
        ensures
            r@ == default_theme(),
    {
        LauncherTheme {
            bg_color: "#0b081a".to_owned(),
            text_color: "#ffffff".to_owned(),
            accent_color: "#00e5ff".to_owned(),
            border_radius: 8,
            border_width: 1,
        }
    }
}

/// A byte of a colour; `instead` where what stands there writes none, and `None` where the colour
/// cannot be cut there.
pub open spec fn channel_or(hex: Seq<char>, from: int, to: int, instead: u8) -> Option<u8> {
    match hex_byte(hex, from, to) {
        Ok(v) => Some(v),
        Err(HexError::NotHex) => Some(instead),
        Err(HexError::Cut) => None,
    }
}

fn read_channel_or(hex: &[char], from: usize, to: usize, instead: u8) -> (r: Option<u8>)
    requires
        from <= to,
    ensures
        r == channel_or(hex@, from as int, to as int, instead),
{
    match read_hex_byte(hex, from, to) {
        Ok(v) => Some(v),
        Err(HexError::NotHex) => Some(instead),
        Err(HexError::Cut) => None,
    }
}

/// Red, green, blue and alpha, each times `scale` but the last.
pub open spec fn join_rgba(
    r: Option<u8>,
    g: Option<u8>,
    b: Option<u8>,
    a: Option<u8>,
    scale: int,
) -> Option<(u8, u8, u8, u8)> {
    match (r, g, b, a) {
        (Some(r), Some(g), Some(b), Some(a)) => Some(
            ((r * scale) as u8, (g * scale) as u8, (b * scale) as u8, a),
        ),
        _ => None,
    }
}

/// The red, green, blue and alpha that a colour is made of, each from 0 to 255.
///
/// Leading `#` do not count; `rrggbbaa`, `rrggbb` and `rgb` are told apart by their bytes, and
/// anything else is black. `None` where a byte offset lies inside a character.
pub open spec fn rgba(colour: Seq<char>) -> Option<(u8, u8, u8, u8)> {
    let hex = strip_start(colour, '#');
    if byte_len(hex) == 8 {
        join_rgba(
            channel_or(hex, 0, 2, 0),
            channel_or(hex, 2, 4, 0),
            channel_or(hex, 4, 6, 0),
            channel_or(hex, 6, 8, 255),
            1,
        )
    } else if byte_len(hex) == 6 {
        join_rgba(
            channel_or(hex, 0, 2, 0),
            channel_or(hex, 2, 4, 0),
            channel_or(hex, 4, 6, 0),
            Some(255),
            1,
        )
    } else if byte_len(hex) == 3 {
        join_rgba(
            channel_or(hex, 0, 1, 0),
            channel_or(hex, 1, 2, 0),
            channel_or(hex, 2, 3, 0),
            Some(255),
            17,
        )
    } else {
        Some((0, 0, 0, 255))
    }
}

/// The red, green, blue and alpha that a colour is made of, each from 0 to 255.
pub fn hex_to_rgba(colour: &str) -> (r: Option<(u8, u8, u8, u8)>)
    ensures
        r == rgba(colour@),
{
    let chars = chars_of(colour);
    let hex = without_start(chars.as_slice(), '#');
    let n = count_bytes(hex);
    if n == Some(8) {
        let r = read_channel_or(hex, 0, 2, 0)?;
        let g = read_channel_or(hex, 2, 4, 0)?;
        let b = read_channel_or(hex, 4, 6, 0)?;
        let a = read_channel_or(hex, 6, 8, 255)?;
        Some((r, g, b, a))
    } else if n == Some(6) {
        let r = read_channel_or(hex, 0, 2, 0)?;
        let g = read_channel_or(hex, 2, 4, 0)?;
        let b = read_channel_or(hex, 4, 6, 0)?;
        Some((r, g, b, 255))
    } else if n == Some(3) {
        proof {
            lemma_one_digit(hex@, 0);
            lemma_one_digit(hex@, 1);
            lemma_one_digit(hex@, 2);
        }
        let r = read_channel_or(hex, 0, 1, 0)?;
        let g = read_channel_or(hex, 1, 2, 0)?;
        let b = read_channel_or(hex, 2, 3, 0)?;
        Some((r * 17, g * 17, b * 17, 255))
    } else {
        Some((0, 0, 0, 255))
    }
}

impl LauncherTheme {
    /// The background, as red, green, blue and alpha.
    pub fn bg_rgba(&self) -> (r: Option<(u8, u8, u8, u8)>)
        ensures
            r == rgba(self@.bg_color),
    {
        hex_to_rgba(self.bg_color.as_str())
    }

    /// The text, as red, green, blue and alpha.
    pub fn text_rgba(&self) -> (r: Option<(u8, u8, u8, u8)>)
        ensures
            r == rgba(self@.text_color),
    {
        hex_to_rgba(self.text_color.as_str())
    }

    /// The accent, as red, green, blue and alpha.
    pub fn accent_rgba(&self) -> (r: Option<(u8, u8, u8, u8)>)
        ensures
            r == rgba(self@.accent_color),
    {
        hex_to_rgba(self.accent_color.as_str())
    }
}

/// The desktops and window managers that have a theme of their own, in the order in which they
/// are looked for.
pub open spec fn window_managers() -> Seq<Seq<char>> {
    seq![
        "hyprland"@,
        "i3"@,
        "sway"@,
        "river"@,
        "dwl"@,
        "qtile"@,
        "bspwm"@,
        "awesome"@,
        "xfce"@,
        "kde"@,
        "gnome"@,
    ]
}

/// The first of `names` that occurs in `desktop`.
pub open spec fn first_named(names: Seq<Seq<char>>, desktop: Seq<char>) -> Option<Seq<char>>
    decreases names.len(),
{
    if names.len() == 0 {
        None
    } else if occurs_in(names[0], desktop) {
        Some(names[0])
    } else {
        first_named(names.skip(1), desktop)
    }
}

/// The name of the theme file for a desktop, named in small letters, and a Wayland display.
pub open spec fn theme_file(desktop: Seq<char>, wayland_display: Option<Seq<char>>) -> Seq<char> {
    match first_named(window_managers(), desktop) {
        Some(w) => w + ".conf"@,
        None => if wayland_display matches Some(d) && d.len() > 0 {
            "wayland.conf"@
        } else {
            "x11.conf"@
        },
    }
}

fn list_window_managers() -> (r: Vec<String>)
    ensures
        strings(r@) == window_managers(),
{
    let mut r: Vec<String> = Vec::new();
    r.push("hyprland".to_owned());
    r.push("i3".to_owned());
    r.push("sway".to_owned());
    r.push("river".to_owned());
    r.push("dwl".to_owned());
    r.push("qtile".to_owned());
    r.push("bspwm".to_owned());
    r.push("awesome".to_owned());
    r.push("xfce".to_owned());
    r.push("kde".to_owned());
    r.push("gnome".to_owned());
    assert(strings(r@) =~= window_managers());
    r
}

/// The name of the theme file for a desktop, named in small letters, and a Wayland display.
pub fn theme_file_for(desktop: &str, wayland_display: Option<&str>) -> (r: String)
    ensures
        r@ == theme_file(desktop@, opt_text(wayland_display)),
{
    let de = chars_of(desktop);
    let names = list_window_managers();
    let ghost all = window_managers();
    let n = names.len();
    let mut i: usize = 0;
    assert(all.skip(0) =~= all);
    while i < n
        invariant
            i <= n == names@.len(),
            de@ == desktop@,
            all == window_managers(),
            strings(names@) == all,
            first_named(all.skip(i as int), desktop@) == first_named(all, desktop@),
        decreases n - i,
    {
        assert(all[i as int] == names@[i as int]@);
        assert(all.skip(i as int)[0] == names@[i as int]@);
        assert(all.skip(i as int).skip(1) =~= all.skip(i + 1));
        let name = chars_of(names[i].as_str());
        if find_text(de.as_slice(), name.as_slice()) {
            let mut file = names[i].as_str().to_owned();
            file.append(".conf");
            return file;
        }
        i = i + 1;
    }
    match wayland_display {
        Some(d) => if d.is_empty() {
            "x11.conf".to_owned()
        } else {
            "wayland.conf".to_owned()
        },
        None => "x11.conf".to_owned(),
    }
}

/// The desktop that the environment names, in small letters.
pub open spec fn desktop_name(
    current_desktop: Option<Seq<char>>,
    desktop_session: Option<Seq<char>>,
) -> Seq<char> {
    lowercase(
        match (current_desktop, desktop_session) {
            (Some(d), _) => d,
            (None, Some(s)) => s,
            (None, None) => ""@,
        },
    )
}

/// The name of the theme file for the values of `XDG_CURRENT_DESKTOP`, `DESKTOP_SESSION` and
/// `WAYLAND_DISPLAY`.
pub fn get_theme_file_name(
    current_desktop: Option<&str>,
    desktop_session: Option<&str>,
    wayland_display: Option<&str>,
) -> (r: String)
    ensures
        r@ == theme_file(
            desktop_name(opt_text(current_desktop), opt_text(desktop_session)),
            opt_text(wayland_display),
        ),
{
    let desktop = match current_desktop {
        Some(d) => d,
        None => match desktop_session {
            Some(s) => s,
            None => "",
        },
    };
    theme_file_for(desktop.to_lowercase().as_str(), wayland_display)
}

/// The path of `name` under `base`, both as bytes; one that begins with a slash stands alone.
pub open spec fn joined(base: Seq<u8>, name: Seq<u8>) -> Seq<u8> {
    if name.len() > 0 && name[0] == '/' as u8 {
        name
    } else if base.len() == 0 || base.last() == '/' as u8 {
        base + name
    } else {
        base.push('/' as u8) + name
    }
}

fn join_path(base: &[u8], name: &str) -> (r: Vec<u8>)
    ensures
        r@ == joined(base@, encode_utf8(name@)),
{
    let bytes = name.as_bytes();
    if bytes.len() > 0 && bytes[0] == '/' as u8 {
        return vstd::slice::slice_to_vec(bytes);
    }
    let mut r = vstd::slice::slice_to_vec(base);
    if base.len() > 0 && base[base.len() - 1] != '/' as u8 {
        r.push('/' as u8);
    }
    let ghost front = r@;
    let mut i: usize = 0;
    while i < bytes.len()
        invariant
            i <= bytes@.len(),
            r@ =~= front + bytes@.take(i as int),
        decreases bytes@.len() - i,
    {
        r.push(bytes[i]);
        i = i + 1;
    }
    r
}

/// The directory that the launcher keeps its themes in: under the user's configuration directory,
/// or under `.config` in the home directory, or in the working directory where there is none.
pub open spec fn config_path(config_home: Option<Seq<u8>>, home: Option<Seq<char>>) -> Seq<u8> {
    let base = match (config_home, home) {
        (Some(c), _) => c,
        (None, Some(h)) => joined(encode_utf8(h), encode_utf8(".config"@)),
        (None, None) => joined(encode_utf8("."@), encode_utf8(".config"@)),
    };
    joined(base, encode_utf8("Runrs"@))
}

/// The directory that the launcher keeps its themes in, out of the user's configuration directory
/// and the value of `HOME`.
pub fn config_dir(config_home: Option<&[u8]>, home: Option<&str>) -> (r: Vec<u8>)
    ensures
        r@ == config_path(
            (match config_home {
                Some(c) => Some(c@),
                None => None,
            }),
            opt_text(home),
        ),
{
    match config_home {
        Some(c) => join_path(c, "Runrs"),
        None => {
            let h = match home {
                Some(h) => h,
                None => ".",
            };
            join_path(join_path(h.as_bytes(), ".config").as_slice(), "Runrs")
        },
    }
}

/// The files that a theme is looked for in: the one for the desktop, then two for any.
pub open spec fn theme_paths(dir: Seq<u8>, file_name: Seq<char>) -> Seq<Seq<u8>> {
    seq![
        joined(dir, encode_utf8(file_name)),
        joined(dir, encode_utf8("config.toml"@)),
        joined(dir, encode_utf8("theme.toml"@)),
    ]
}

/// The files that a theme is looked for in, first to last.
pub fn theme_candidates(dir: &[u8], file_name: &str) -> (r: Vec<Vec<u8>>)
    ensures
        r@.map_values(|p: Vec<u8>| p@) == theme_paths(dir@, file_name@),
{
    let mut r: Vec<Vec<u8>> = Vec::new();
    r.push(join_path(dir, file_name));
    r.push(join_path(dir, "config.toml"));
    r.push(join_path(dir, "theme.toml"));
    assert(r@.map_values(|p: Vec<u8>| p@) =~= theme_paths(dir@, file_name@));
    r
}

/// The first theme that could be read.
pub open spec fn first_loaded(s: Seq<Option<LauncherTheme>>) -> Option<LauncherTheme>
    decreases s.len(),
{
    if s.len() == 0 {
        None
    } else if s[0] is Some {
        s[0]
    } else {
        first_loaded(s.skip(1))
    }
}

/// The theme to use: the first that could be read, or the default.
///
/// `loaded` holds what came of reading each of `theme_candidates` in turn; what lies behind the
/// first that could be read may be left out. Without a directory to read from there is nothing but
/// the default.
pub fn load_theme(dir_exists: bool, loaded: Vec<Option<LauncherTheme>>) -> (r: LauncherTheme)
    ensures
        match first_loaded(loaded@) {
            Some(t) => if dir_exists {
                r == t
            } else {
                r@ == default_theme()
            },
            None => r@ == default_theme(),
        },
{
    if dir_exists {
        let ghost all = loaded@;
        let mut rest = loaded;
        assert(all.skip(0) =~= all);
        while rest.len() > 0
            invariant
                dir_exists,
                all == loaded@,
                first_loaded(rest@) == first_loaded(all),
            decreases rest@.len(),
        {
            let ghost before = rest@;
            let head = rest.remove(0);
            assert(rest@ =~= before.skip(1));
            if let Some(t) = head {
                return t;
            }
        }
    }
    LauncherTheme::default()
}

/// Leading `#` make no difference.
pub proof fn law_hash_does_not_count(colour: Seq<char>)
    ensures
        rgba(seq!['#'] + colour) == rgba(colour),
{
    assert((seq!['#'] + colour).skip(1) =~= colour);
}

/// A colour of three digits is the one of six with each of them twice.
pub proof fn law_short_colour(r: char, g: char, b: char)
    requires
        is_digit(r, 16),
        is_digit(g, 16),
        is_digit(b, 16),
    ensures
        rgba(seq![r, g, b]) == rgba(seq![r, r, g, g, b, b]),
        rgba(seq![r, g, b]) == Some(
            (
                (17 * digit(r).unwrap()) as u8,
                (17 * digit(g).unwrap()) as u8,
                (17 * digit(b).unwrap()) as u8,
                255u8,
            ),
        ),
{
    let short = seq![r, g, b];
    let long = seq![r, r, g, g, b, b];
    assert(strip_start(short, '#') == short);
    assert(strip_start(long, '#') == long);
    lemma_ascii_cuts(short);
    lemma_ascii_cuts(long);
    assert(short.subrange(0, 1) =~= seq![r]);
    assert(short.subrange(1, 2) =~= seq![g]);
    assert(short.subrange(2, 3) =~= seq![b]);
    assert(long.subrange(0, 2) =~= seq![r, r]);
    assert(long.subrange(2, 4) =~= seq![g, g]);
    assert(long.subrange(4, 6) =~= seq![b, b]);
    lemma_digit_values(r);
    lemma_digit_values(g);
    lemma_digit_values(b);
}

proof fn lemma_ascii_cuts(s: Seq<char>)
    requires
        forall|i: int| 0 <= i < s.len() ==> is_digit(#[trigger] s[i], 16),
    ensures
        byte_len(s) == s.len(),
        forall|k: int| 0 <= k <= s.len() ==> #[trigger] cut(s, k) == Some(k),
    decreases s.len(),
{
    if s.len() > 0 {
        assert(is_digit(s[0], 16));
        let t = s.skip(1);
        assert forall|i: int| 0 <= i < t.len() implies is_digit(#[trigger] t[i], 16) by {
            assert(is_digit(s[i + 1], 16));
        }
        lemma_ascii_cuts(t);
        assert forall|k: int| 0 <= k <= s.len() implies #[trigger] cut(s, k) == Some(k) by {
            if k > 0 {
                assert(cut(t, k - 1) == Some(k - 1));
            }
        }
    }
}

proof fn lemma_digit_values(c: char)
    requires
        is_digit(c, 16),
    ensures
        numeral(seq![c], 16, 255) == Some(digit(c).unwrap()),
        numeral(seq![c, c], 16, 255) == Some(17 * digit(c).unwrap()),
{
    let one = seq![c];
    let two = seq![c, c];
    assert(one.drop_last() =~= Seq::empty());
    assert(two.drop_last() =~= one);
    assert(value(Seq::<char>::empty(), 16) == 0);
    assert(value(one, 16) == digit(c).unwrap());
    assert(value(two, 16) == digit(c).unwrap() * 16 + digit(c).unwrap());
    assert(all_digits(one, 16));
    assert(all_digits(two, 16));
}

/// The theme to use is the first of the list that could be read.
pub proof fn law_first_theme_counts(s: Seq<Option<LauncherTheme>>, i: int)
    requires
        0 <= i < s.len(),
        s[i] is Some,
        forall|j: int| 0 <= j < i ==> (#[trigger] s[j]) is None,
    ensures
        first_loaded(s) == s[i],
    decreases s.len(),
{
    if i > 0 {
        assert(s[0] is None);
        law_first_theme_counts(s.skip(1), i - 1);
    }
}

proof fn lemma_channel(a: Seq<char>, t: Seq<char>, b: Seq<char>, instead: u8)
    ensures
        channel_or(a + t + b, byte_len(a), byte_len(a) + byte_len(t), instead) == Some(
            match numeral(t, 16, 255) {
                Some(v) => v as u8,
                None => instead,
            },
        ),
{
    law_hex_between(a, t, b, '0', '0');
}

/// Three texts of two bytes are the red, the green and the blue of an opaque colour, each the
/// numeral that it is in base sixteen, or nought.
pub proof fn law_colour_of_six_bytes(r: Seq<char>, g: Seq<char>, b: Seq<char>)
    requires
        byte_len(r) == 2,
        byte_len(g) == 2,
        byte_len(b) == 2,
        r[0] != '#',
    ensures
        rgba(r + g + b) matches Some(c) && {
            &&& c.0 == (match numeral(r, 16, 255) {
                Some(v) => v as u8,
                None => 0,
            })
            &&& c.1 == (match numeral(g, 16, 255) {
                Some(v) => v as u8,
                None => 0,
            })
            &&& c.2 == (match numeral(b, 16, 255) {
                Some(v) => v as u8,
                None => 0,
            })
            &&& c.3 == 255
        },
{
    let none = Seq::<char>::empty();
    let s = r + g + b;
    lemma_byte_len_adds(r, g);
    lemma_byte_len_adds(r + g, b);
    assert(r.len() > 0);
    assert(s[0] == r[0]);
    lemma_channel(none, r, g + b, 0);
    assert(none + r + (g + b) =~= s);
    lemma_channel(r, g, b, 0);
    lemma_channel(r + g, b, none, 0);
    assert(r + g + b + none =~= s);
}

/// A fourth text of two bytes is the alpha, or all of it where that is no numeral.
pub proof fn law_colour_of_eight_bytes(r: Seq<char>, g: Seq<char>, b: Seq<char>, a: Seq<char>)
    requires
        byte_len(r) == 2,
        byte_len(g) == 2,
        byte_len(b) == 2,
        byte_len(a) == 2,
        r[0] != '#',
    ensures
        rgba(r + g + b) matches Some(c) && rgba(r + g + b + a) == Some(
            (
                c.0,
                c.1,
                c.2,
                (match numeral(a, 16, 255) {
                    Some(v) => v as u8,
                    None => 255u8,
                }),
            ),
        ),
{
    law_colour_of_six_bytes(r, g, b);
    let none = Seq::<char>::empty();
    let s = r + g + b + a;
    lemma_byte_len_adds(r, g);
    lemma_byte_len_adds(r + g, b);
    lemma_byte_len_adds(r + g + b, a);
    assert(r.len() > 0);
    assert(s[0] == r[0]);
    lemma_channel(none, r, g + b + a, 0);
    assert(none + r + (g + b + a) =~= s);
    lemma_channel(r, g, b + a, 0);
    assert(r + g + (b + a) =~= s);
    lemma_channel(r + g, b, a, 0);
    lemma_channel(r + g + b, a, none, 255);
    assert(r + g + b + a + none =~= s);
}

/// Three bytes are the red, the green and the blue of an opaque colour, seventeen times each, or
/// nought where one is no digit.
pub proof fn law_colour_of_three_bytes(r: char, g: char, b: char)
    requires
        r as u32 <= 0x7f,
        g as u32 <= 0x7f,
        b as u32 <= 0x7f,
        r != '#',
    ensures
        rgba(seq![r, g, b]) matches Some(c) && {
            &&& c.0 as int == (if is_digit(r, 16) {
                17 * digit(r).unwrap()
            } else {
                0
            })
            &&& c.1 as int == (if is_digit(g, 16) {
                17 * digit(g).unwrap()
            } else {
                0
            })
            &&& c.2 as int == (if is_digit(b, 16) {
                17 * digit(b).unwrap()
            } else {
                0
            })
            &&& c.3 == 255
        },
{
    let none = Seq::<char>::empty();
    let s = seq![r, g, b];
    lemma_one_byte(r);
    lemma_one_byte(g);
    lemma_one_byte(b);
    lemma_byte_len_adds(seq![r], seq![g]);
    lemma_byte_len_adds(seq![r] + seq![g], seq![b]);
    assert(seq![r] + seq![g] + seq![b] =~= s);
    lemma_channel(none, seq![r], seq![g] + seq![b], 0);
    assert(none + seq![r] + (seq![g] + seq![b]) =~= s);
    lemma_channel(seq![r], seq![g], seq![b], 0);
    lemma_channel(seq![r] + seq![g], seq![b], none, 0);
    assert(seq![r] + seq![g] + seq![b] + none =~= s);
    law_one_digit_numeral(r, 16, 255);
    law_one_digit_numeral(g, 16, 255);
    law_one_digit_numeral(b, 16, 255);
}

/// A colour of any other length is black, and one that would be cut inside a character is none.
pub proof fn law_other_colours(s: Seq<char>)
    requires
        s.len() > 0 ==> s[0] != '#',
    ensures
        byte_len(s) != 3 && byte_len(s) != 6 && byte_len(s) != 8 ==> rgba(s) == Some(
            (0u8, 0u8, 0u8, 255u8),
        ),
        byte_len(s) == 3 && (cut(s, 1) is None || cut(s, 2) is None) ==> rgba(s) is None,
        byte_len(s) == 6 && (cut(s, 2) is None || cut(s, 4) is None) ==> rgba(s) is None,
        byte_len(s) == 8 && (cut(s, 2) is None || cut(s, 4) is None || cut(s, 6) is None) ==> rgba(
            s,
        ) is None,
{
}

proof fn lemma_first_named(names: Seq<Seq<char>>, desktop: Seq<char>, i: int)
    requires
        0 <= i <= names.len(),
        forall|j: int| 0 <= j < i ==> !occurs_in(#[trigger] names[j], desktop),
        i < names.len() ==> occurs_in(names[i], desktop),
    ensures
        first_named(names, desktop) == (if i < names.len() {
            Some(names[i])
        } else {
            None
        }),
    decreases names.len(),
{
    if i > 0 {
        assert(!occurs_in(names[0], desktop));
        let rest = names.skip(1);
        assert forall|j: int| 0 <= j < i - 1 implies !occurs_in(#[trigger] rest[j], desktop) by {
            assert(rest[j] == names[j + 1]);
        }
        lemma_first_named(rest, desktop, i - 1);
    }
}

/// The theme of a desktop is that of the first of these names that it is made of, with whatever
/// before and behind; where it is made of none, a Wayland display with a name decides.
pub proof fn law_theme_file(
    desktop: Seq<char>,
    wayland_display: Option<Seq<char>>,
    i: int,
    a: Seq<char>,
    b: Seq<char>,
)
    requires
        0 <= i <= 11,
    ensures
        ({
            let names = seq![
                "hyprland"@,
                "i3"@,
                "sway"@,
                "river"@,
                "dwl"@,
                "qtile"@,
                "bspwm"@,
                "awesome"@,
                "xfce"@,
                "kde"@,
                "gnome"@,
            ];
            let none_before = forall|j: int, x: Seq<char>, y: Seq<char>|
                #![trigger x + names[j] + y]
                0 <= j < i ==> desktop != x + names[j] + y;
            &&& i < 11 && desktop == a + names[i] + b && none_before ==> theme_file(
                desktop,
                wayland_display,
            ) == names[i] + ".conf"@
            &&& i == 11 && none_before ==> theme_file(desktop, wayland_display) == (
            match wayland_display {
                Some(d) => if d.len() > 0 {
                    "wayland.conf"@
                } else {
                    "x11.conf"@
                },
                None => "x11.conf"@,
            })
        }),
{
    let names = seq![
        "hyprland"@,
        "i3"@,
        "sway"@,
        "river"@,
        "dwl"@,
        "qtile"@,
        "bspwm"@,
        "awesome"@,
        "xfce"@,
        "kde"@,
        "gnome"@,
    ];
    assert(window_managers() =~= names);
    let none_before = forall|j: int, x: Seq<char>, y: Seq<char>|
        #![trigger x + names[j] + y]
        0 <= j < i ==> desktop != x + names[j] + y;
    if none_before {
        assert forall|j: int| 0 <= j < i implies !occurs_in(#[trigger] names[j], desktop) by {
            law_occurs_in_the_middle(names[j], desktop);
        }
        if i == 11 {
            lemma_first_named(names, desktop, i);
        } else if desktop == a + names[i] + b {
            law_occurs_in_the_middle(names[i], desktop);
            lemma_first_named(names, desktop, i);
        }
    }
}

/// The desktop's own variable counts before that of the session, whatever that holds, and without
/// both there is no name.
pub proof fn law_desktop_name(d: Seq<char>, s: Seq<char>, session: Option<Seq<char>>)
    ensures
        desktop_name(Some(d), session) == lowercase(d),
        desktop_name(None, Some(s)) == lowercase(s),
        desktop_name(None, None) == Seq::<char>::empty(),
{
    reveal_strlit("");
    assert(crate::text::ascii_lowercase(""@) =~= Seq::empty());
}

/// A path under another stands behind it and one slash, unless it begins with a slash itself or
/// there is nothing for it to stand under.
pub proof fn law_joined(base: Seq<u8>, name: Seq<u8>)
    ensures
        name.len() > 0 && name[0] == '/' as u8 ==> joined(base, name) == name,
        name.len() == 0 || name[0] != '/' as u8 ==> {
            &&& joined(Seq::empty(), name) == name
            &&& joined(base.push('/' as u8), name) == base + seq!['/' as u8] + name
            &&& base.len() > 0 && base.last() != '/' as u8 ==> joined(base, name) == base + seq![
                '/' as u8,
            ] + name
        },
{
    assert(Seq::<u8>::empty() + name =~= name);
    assert(base.push('/' as u8) + name =~= base + seq!['/' as u8] + name);
}

/// The launcher's directory lies under the user's configuration directory, whatever the home; else
/// it lies where it would with `.config` in the home directory for one; and without a home, where
/// it would with the working directory for one.
pub proof fn law_config_path(c: Seq<u8>, home: Option<Seq<char>>, h: Seq<char>)
    ensures
        config_path(Some(c), home) == joined(c, encode_utf8("Runrs"@)),
        config_path(None, Some(h)) == config_path(
            Some(joined(encode_utf8(h), encode_utf8(".config"@))),
            home,
        ),
        config_path(None, None) == config_path(None, Some("."@)),
{
}

/// A theme is looked for in three files of the directory: the desktop's, then two of fixed names.
pub proof fn law_theme_paths(dir: Seq<u8>, file_name: Seq<char>)
    ensures
        theme_paths(dir, file_name).len() == 3,
        theme_paths(dir, file_name)[0] == joined(dir, encode_utf8(file_name)),
        theme_paths(dir, file_name)[1] == joined(dir, encode_utf8("config.toml"@)),
        theme_paths(dir, file_name)[2] == joined(dir, encode_utf8("theme.toml"@)),
{
}

/// Where no theme could be read there is none to use but the default.
pub proof fn law_no_theme_loaded(s: Seq<Option<LauncherTheme>>)
    requires
        forall|j: int| 0 <= j < s.len() ==> (#[trigger] s[j]) is None,
    ensures
        first_loaded(s) is None,
    decreases s.len(),
{
    if s.len() > 0 {
        assert(s[0] is None);
        assert forall|j: int| 0 <= j < s.skip(1).len() implies (
        #[trigger] s.skip(1)[j]) is None by {
            assert(s.skip(1)[j] == s[j + 1]);
        }
        law_no_theme_loaded(s.skip(1));
    }
}

} // verus!
