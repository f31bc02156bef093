use launcher::catalog::{read_bedrock_entries, read_system_entries, StratumFile};
use launcher::entry::{parse_desktop_entry, Entry};
use launcher::keys::{keysym_to_char, XK_BS, XK_DEL, XK_DOWN, XK_ESC, XK_RET, XK_UP};
use launcher::launch::LaunchError;
use launcher::state::{filter_lowered, AppState, IconRequest, Lowered, MAX_ENTRIES};
use launcher::theme::LauncherTheme;

fn desktop(name: &str, command: &str) -> String {
    format!("[Desktop Entry]\nName={}\nExec={}\n", name, command)
}

fn names(v: &[Entry]) -> Vec<&str> {
    v.iter().map(|e| e.name.as_str()).collect()
}

fn app(files: &[(&str, &str)]) -> AppState {
    let system = files.iter().map(|(n, c)| desktop(n, c)).collect();
    AppState::new(LauncherTheme::default(), &system, &vec![])
}

fn type_text(s: &mut AppState, text: &str) {
    for c in text.chars() {
        assert!(s.handle_key(0x01000000 + c as u32).is_none());
    }
}

#[test]
fn desktop_file_with_all_keys() {
    let e = parse_desktop_entry(
        "[Desktop Entry]\r\n  Name=Files \r\nExec=files --new %U -x\r\nIcon=folder\r\nName=Other\r\n",
        None,
    )
    .unwrap();
    assert_eq!(e.name, "Files");
    assert_eq!(e.command, "files --new");
    assert_eq!(e.icon_key.as_deref(), Some("folder"));
    assert_eq!((e.icon_path, e.icon_surface), (None, None));
    assert_eq!(e.stratum, None);
}

#[test]
fn desktop_file_of_a_stratum() {
    let e = parse_desktop_entry("Exec=x\nName= X", Some("arch")).unwrap();
    assert_eq!(e.name, " X");
    assert_eq!(e.icon_key, None);
    assert_eq!(e.stratum.as_deref(), Some("arch"));
}

#[test]
fn desktop_files_that_describe_nothing() {
    assert!(parse_desktop_entry("", None).is_none());
    assert!(parse_desktop_entry("Name=A", None).is_none());
    assert!(parse_desktop_entry("Exec=a", None).is_none());
    assert!(parse_desktop_entry("Name=A\nExec= %U", None).is_none());
    assert!(parse_desktop_entry("Name=A\nExec=\nExec=a", None).is_none());
    assert!(parse_desktop_entry("Name=A\nExec=a\nNoDisplay=true", None).is_none());
    assert!(parse_desktop_entry("Name=A\nExec=a\nNoDisplay=false", None).is_some());
}

#[test]
fn system_entries_are_sorted_and_repeats_dropped() {
    let files = vec![
        desktop("b", "two"),
        desktop("a", "one"),
        desktop("B", "three"),
        desktop("a", "first of the same name"),
        desktop("ab", "two"),
        desktop("é", "last"),
    ];
    let v = read_system_entries(&files);
    assert_eq!(names(&v), ["B", "a", "a", "ab", "é"]);
    assert_eq!(v[1].command, "one");
    assert_eq!(v[2].command, "first of the same name");
    assert_eq!(v[3].command, "two");
}

#[test]
fn repeats_apart_from_each_other_stay() {
    let v = read_system_entries(&vec![
        desktop("a", "x"),
        desktop("b", "y"),
        desktop("c", "x"),
        desktop("d", "x"),
    ]);
    assert_eq!(names(&v), ["a", "b", "c"]);
}

#[test]
fn bedrock_entries_keep_their_order() {
    let v = read_bedrock_entries(&vec![
        StratumFile {
            stratum: "arch".to_string(),
            content: desktop("z", "x"),
        },
        StratumFile {
            stratum: "debian".to_string(),
            content: "Name=hidden".to_string(),
        },
        StratumFile {
            stratum: "debian".to_string(),
            content: desktop("a", "x"),
        },
    ]);
    assert_eq!(names(&v), ["z", "a"]);
    assert_eq!(v[0].stratum.as_deref(), Some("arch"));
    assert_eq!(v[1].stratum.as_deref(), Some("debian"));
}

#[test]
fn new_launcher_shows_everything() {
    let s = AppState::new(
        LauncherTheme::default(),
        &vec![desktop("b", "x"), desktop("a", "y")],
        &vec![StratumFile {
            stratum: "arch".to_string(),
            content: desktop("A", "z"),
        }],
    );
    assert_eq!(names(&s.entries), ["a", "b", "A"]);
    assert_eq!(s.filtered, [0, 1, 2]);
    assert_eq!(s.hovered_idx, Some(0));
    assert_eq!(s.scroll_offset, 0);
    assert_eq!(s.search, "");
    assert!(s.running);
}

#[test]
fn new_launcher_with_nothing_to_show() {
    let s = app(&[]);
    assert_eq!(s.filtered.len(), 0);
    assert_eq!(s.hovered_idx, None);
}

#[test]
fn filter_looks_at_names_and_commands() {
    let mut s = app(&[("Alpha", "run"), ("Beta", "ALPHA"), ("Gamma", "go")]);
    s.search = "aLpH".to_string();
    s.scroll_offset = 3;
    s.update_filter();
    assert_eq!(s.filtered, [0, 1]);
    assert_eq!(s.hovered_idx, Some(0));
    assert_eq!(s.scroll_offset, 0);
    s.search = "zzz".to_string();
    s.update_filter();
    assert_eq!(s.filtered.len(), 0);
    assert_eq!(s.hovered_idx, None);
}

#[test]
fn filter_knows_letters_beyond_ascii() {
    let mut s = app(&[("Übersicht", "x"), ("Other", "y")]);
    s.search = "ÜBER".to_string();
    s.update_filter();
    assert_eq!(names(&s.entries), ["Other", "Übersicht"]);
    assert_eq!(s.filtered, [1]);
}

#[test]
fn filter_shows_only_so_many() {
    let entries: Vec<Lowered> = (0..MAX_ENTRIES + 10)
        .map(|i| Lowered {
            name: if i % 2 == 0 { "even" } else { "odd" }.to_string(),
            command: format!("run {}", i),
        })
        .collect();
    let all = filter_lowered("", "", &entries);
    assert_eq!(all.len(), MAX_ENTRIES);
    assert_eq!(all[MAX_ENTRIES - 1], MAX_ENTRIES - 1);
    let even = filter_lowered("EVEN", "even", &entries);
    assert_eq!(even.len(), MAX_ENTRIES / 2 + 5);
    assert_eq!(even[1], 2);
    assert_eq!(filter_lowered("x", "run 7", &entries)[0], 7);
}

#[test]
fn typing_narrows_and_backspace_widens() {
    let mut s = app(&[("firefox", "firefox"), ("files", "files"), ("mail", "mail")]);
    assert_eq!(names(&s.entries), ["files", "firefox", "mail"]);
    type_text(&mut s, "fi");
    assert_eq!(s.filtered, [0, 1]);
    type_text(&mut s, "r");
    assert_eq!(s.filtered, [1]);
    assert!(s.handle_key(XK_BS).is_none());
    assert_eq!((s.search.as_str(), s.filtered.as_slice()), ("fi", &[0, 1][..]));
    assert!(s.handle_key(XK_DEL).is_none());
    assert!(s.handle_key(XK_BS).is_none());
    assert!(s.handle_key(XK_BS).is_none());
    assert_eq!((s.search.as_str(), s.filtered.len()), ("", 3));
}

#[test]
fn arrows_move_the_selection() {
    let mut s = app(&[("a", "x"), ("b", "y")]);
    s.handle_key(XK_UP);
    assert_eq!(s.hovered_idx, Some(0));
    s.handle_key(XK_DOWN);
    assert_eq!(s.hovered_idx, Some(1));
    s.handle_key(XK_DOWN);
    assert_eq!(s.hovered_idx, Some(1));
    s.handle_key(XK_UP);
    assert_eq!(s.hovered_idx, Some(0));
    let mut empty = app(&[]);
    empty.handle_key(XK_DOWN);
    empty.handle_key(XK_UP);
    assert_eq!(empty.hovered_idx, None);
}

#[test]
fn escape_closes() {
    let mut s = app(&[("a", "x")]);
    assert!(s.handle_key(XK_ESC).is_none());
    assert!(!s.running);
    assert_eq!(s.hovered_idx, Some(0));
}

#[test]
fn key_without_a_character_does_nothing() {
    let mut s = app(&[("a", "x")]);
    assert!(s.handle_key(0xFFE1).is_none());
    assert_eq!(s.search, "");
    assert!(s.running);
}

#[test]
fn enter_launches_the_selected_entry() {
    let mut s = app(&[("a", "first"), ("b", "second --x")]);
    s.handle_key(XK_DOWN);
    let c = s.handle_key(XK_RET).unwrap().unwrap();
    assert_eq!((c.program.as_str(), c.args.as_slice()), ("sh", &["-c".to_string(), "second --x".to_string()][..]));
    assert!(!s.running);
}

#[test]
fn enter_launches_a_system_entry_with_a_colon_in_the_shell() {
    let mut s = app(&[("a", "xdg-open https://e")]);
    let c = s.launch_selected().unwrap().unwrap();
    assert_eq!(c.program, "sh");
    assert_eq!(c.args, ["-c", "xdg-open https://e"]);
    assert!(!s.running);
}

#[test]
fn enter_launches_what_was_typed_with_a_shortcut_in_its_stratum() {
    let mut s = app(&[("a", "x")]);
    type_text(&mut s, "fed:dnf upgrade");
    let c = s.launch_selected().unwrap().unwrap();
    assert_eq!(c.program, "strat");
    assert_eq!(c.args, ["fedora", "sh", "-c", "exec dnf upgrade"]);
}

#[test]
fn enter_launches_an_entry_in_its_stratum() {
    let mut s = AppState::new(
        LauncherTheme::default(),
        &vec![],
        &vec![StratumFile {
            stratum: "arch".to_string(),
            content: desktop("a", "go %f"),
        }],
    );
    let c = s.launch_selected().unwrap().unwrap();
    assert_eq!(c.program, "strat");
    assert_eq!(c.args, ["arch", "sh", "-c", "exec go"]);
    assert!(!s.running);
}

#[test]
fn enter_launches_what_was_typed_where_nothing_matches() {
    let mut s = app(&[("a", "x")]);
    type_text(&mut s, "echo hi");
    assert_eq!(s.hovered_idx, None);
    let c = s.launch_selected().unwrap().unwrap();
    assert_eq!(c.program, "sh");
    assert_eq!(c.args, ["-c", "echo hi"]);
    assert!(s.running);
}

#[test]
fn enter_on_blank_text_is_an_error() {
    let mut s = app(&[]);
    type_text(&mut s, "  ");
    assert!(matches!(
        s.launch_selected(),
        Some(Err(LaunchError::EmptyCommand))
    ));
    assert!(s.running);
}

#[test]
fn enter_with_nothing_at_all() {
    let mut s = app(&[]);
    s.running = false;
    assert!(s.launch_selected().is_none());
    assert!(!s.running);
}

#[test]
fn keys_that_type_characters() {
    assert_eq!(keysym_to_char(0x41), Some('A'));
    assert_eq!(keysym_to_char(0x7E), Some('~'));
    assert_eq!(keysym_to_char(0xE9), Some('é'));
    assert_eq!(keysym_to_char(0x010020AC), Some('€'));
    assert_eq!(keysym_to_char(0x0101F600), Some('😀'));
}

#[test]
fn keys_that_type_nothing() {
    for ks in [
        0, 0x1F, 0x7F, 0x9F, 0x100, XK_ESC, XK_RET, XK_BS, XK_DEL, XK_UP, XK_DOWN, 0x0100D800,
        0x01110000, 0x02000041, 0xFFFFFFFF,
    ] {
        assert_eq!(keysym_to_char(ks), None, "{:x}", ks);
    }
}

#[test]
fn icon_is_found_then_read_then_kept() {
    let mut s = AppState::new(
        LauncherTheme::default(),
        &vec!["Name=a\nExec=x\nIcon=i".to_string(), desktop("b", "y")],
        &vec![],
    );
    assert_eq!(s.load_entry_icon(0), IconRequest::FindPath);
    assert_eq!(s.load_entry_icon(1), IconRequest::Done);
    assert_eq!(s.icon_path_found(0, Some(7)), IconRequest::Load(7));
    assert_eq!(s.entries[0].icon_path, Some(7));
    assert_eq!(s.load_entry_icon(0), IconRequest::Load(7));
    s.icon_drawn(0, Some(3));
    assert_eq!(s.entries[0].icon_surface, Some(3));
    assert_eq!(s.load_entry_icon(0), IconRequest::Done);
    assert_eq!(s.entries[1].icon_path, None);
}

#[test]
fn icon_that_is_not_found() {
    let mut s = AppState::new(
        LauncherTheme::default(),
        &vec!["Name=a\nExec=x\nIcon=i".to_string()],
        &vec![],
    );
    assert_eq!(s.icon_path_found(0, None), IconRequest::Done);
    assert_eq!(s.load_entry_icon(0), IconRequest::FindPath);
}
