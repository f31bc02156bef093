use launcher::theme::{
    config_dir, get_theme_file_name, hex_to_rgba, load_theme, theme_candidates, theme_file_for,
    LauncherTheme,
};

#[test]
fn default_theme_has_its_colours() {
    let t = LauncherTheme::default();
    assert_eq!(t.bg_color, "#0b081a");
    assert_eq!(t.text_color, "#ffffff");
    assert_eq!(t.accent_color, "#00e5ff");
    assert_eq!((t.border_radius, t.border_width), (8, 1));
    assert_eq!(t.bg_rgba(), Some((11, 8, 26, 255)));
    assert_eq!(t.text_rgba(), Some((255, 255, 255, 255)));
    assert_eq!(t.accent_rgba(), Some((0, 229, 255, 255)));
}

#[test]
fn colours_of_three_six_and_eight_digits() {
    assert_eq!(hex_to_rgba("#0f8"), Some((0, 255, 136, 255)));
    assert_eq!(hex_to_rgba("00ff88"), Some((0, 255, 136, 255)));
    assert_eq!(hex_to_rgba("##0B081A80"), Some((11, 8, 26, 128)));
}

#[test]
fn short_colour_is_the_long_one_doubled() {
    assert_eq!(hex_to_rgba("#1aF"), hex_to_rgba("#11aaFF"));
}

#[test]
fn leading_hashes_do_not_count() {
    assert_eq!(hex_to_rgba("###123456"), hex_to_rgba("123456"));
}

#[test]
fn unreadable_channels_fall_back() {
    assert_eq!(hex_to_rgba("zz00ff"), Some((0, 0, 255, 255)));
    assert_eq!(hex_to_rgba("000000zz"), Some((0, 0, 0, 255)));
    assert_eq!(hex_to_rgba("+f+f+f"), Some((15, 15, 15, 255)));
    assert_eq!(hex_to_rgba("x12"), Some((0, 17, 34, 255)));
    assert_eq!(hex_to_rgba("é1234"), Some((0, 18, 52, 255)));
}

#[test]
fn other_lengths_are_black() {
    assert_eq!(hex_to_rgba(""), Some((0, 0, 0, 255)));
    assert_eq!(hex_to_rgba("#12345"), Some((0, 0, 0, 255)));
    assert_eq!(hex_to_rgba("red!"), Some((0, 0, 0, 255)));
}

#[test]
fn colour_cut_inside_a_character() {
    assert_eq!(hex_to_rgba("aé123"), None);
    assert_eq!(hex_to_rgba("#\u{20ac}"), None);
}

#[test]
fn theme_file_of_a_known_desktop() {
    assert_eq!(
        get_theme_file_name(Some("Hyprland"), None, None),
        "hyprland.conf"
    );
    assert_eq!(
        get_theme_file_name(Some("ubuntu:GNOME"), Some("i3"), Some("wayland-0")),
        "gnome.conf"
    );
    assert_eq!(get_theme_file_name(None, Some("SWAY"), None), "sway.conf");
}

#[test]
fn earlier_names_come_first() {
    assert_eq!(theme_file_for("gnome-kde-i3", None), "i3.conf");
}

#[test]
fn every_window_manager_has_its_file() {
    for name in [
        "hyprland", "i3", "sway", "river", "dwl", "qtile", "bspwm", "awesome", "xfce", "kde",
        "gnome",
    ] {
        assert_eq!(theme_file_for(name, None), format!("{}.conf", name));
    }
}

#[test]
fn theme_file_of_an_unknown_desktop() {
    assert_eq!(
        get_theme_file_name(None, None, Some("wayland-0")),
        "wayland.conf"
    );
    assert_eq!(get_theme_file_name(None, None, Some("")), "x11.conf");
    assert_eq!(get_theme_file_name(Some("LXDE"), None, None), "x11.conf");
    assert_eq!(get_theme_file_name(Some(""), Some("sway"), None), "x11.conf");
}

#[test]
fn desktop_names_are_compared_in_small_letters() {
    assert_eq!(theme_file_for("KDE", None), "x11.conf");
    assert_eq!(get_theme_file_name(Some("KDE"), None, None), "kde.conf");
    assert_eq!(
        get_theme_file_name(Some("ÄKDE"), None, None),
        "kde.conf"
    );
}

#[test]
fn configuration_directory() {
    assert_eq!(
        config_dir(Some(b"/home/u/.config"), Some("/root")),
        b"/home/u/.config/Runrs"
    );
    assert_eq!(config_dir(Some(b"/c/"), None), b"/c/Runrs");
    assert_eq!(config_dir(None, Some("/home/u")), b"/home/u/.config/Runrs");
    assert_eq!(config_dir(None, None), b"./.config/Runrs");
    assert_eq!(config_dir(None, Some("")), b".config/Runrs");
    assert_eq!(config_dir(Some(b"/\xff"), None), b"/\xff/Runrs");
}

#[test]
fn theme_is_looked_for_in_three_files() {
    assert_eq!(
        theme_candidates(b"/c/Runrs", "sway.conf"),
        [
            b"/c/Runrs/sway.conf".to_vec(),
            b"/c/Runrs/config.toml".to_vec(),
            b"/c/Runrs/theme.toml".to_vec(),
        ]
    );
}

fn themed(width: u32) -> LauncherTheme {
    LauncherTheme {
        border_width: width,
        ..LauncherTheme::default()
    }
}

#[test]
fn first_theme_that_could_be_read_is_used() {
    let t = load_theme(true, vec![None, Some(themed(5)), Some(themed(6))]);
    assert_eq!(t.border_width, 5);
    let t = load_theme(true, vec![Some(themed(7))]);
    assert_eq!(t.border_width, 7);
}

#[test]
fn default_theme_where_none_could_be_read() {
    assert_eq!(load_theme(true, vec![None, None, None]).border_width, 1);
    assert_eq!(load_theme(true, vec![]).border_width, 1);
    assert_eq!(load_theme(false, vec![Some(themed(5))]).border_width, 1);
}
