use launcher::icon::{
    decoders, find_icon_path, icon_matches, icon_roots, Decoder, DirItem, IconLookup, IconSearch,
};
use launcher::places::list_places;

#[test]
fn roots_without_an_environment() {
    assert_eq!(
        icon_roots(None, None, None, None),
        [
            "/usr/share/icons",
            "/usr/share/pixmaps",
            "/usr/local/share/icons"
        ]
    );
}

#[test]
fn roots_of_a_stratum_and_of_the_environment() {
    assert_eq!(
        icon_roots(Some("arch"), Some("/a::/b"), Some("/d"), Some("/h")),
        [
            "/usr/share/icons",
            "/usr/share/pixmaps",
            "/usr/local/share/icons",
            "/bedrock/strata/arch/usr/share/icons",
            "/bedrock/strata/arch/usr/share/pixmaps",
            "/a/icons",
            "/a/pixmaps",
            "/b/icons",
            "/b/pixmaps",
            "/d/icons",
            "/h/.local/share/icons",
            "/h/.icons",
        ]
    );
}

fn pending(l: IconLookup) -> Option<(String, Vec<usize>)> {
    match l {
        IconLookup::Path => None,
        IconLookup::Search(mut s) => {
            let target = s.target.clone();
            let mut dirs = Vec::new();
            while let Some(d) = s.next_dir() {
                dirs.push(d);
            }
            Some((target, dirs))
        }
    }
}

#[test]
fn icon_named_by_its_path() {
    assert_eq!(
        pending(find_icon_path("/usr/x.png", true, &vec![true])),
        None
    );
}

#[test]
fn icon_searched_for_where_directories_exist() {
    let exist = vec![true, false, true];
    assert_eq!(
        pending(find_icon_path("/usr/X.png", false, &exist)),
        Some(("/usr/x.png".to_string(), vec![0, 2]))
    );
    assert_eq!(
        pending(find_icon_path("Firefox", true, &exist)),
        Some(("firefox".to_string(), vec![0, 2]))
    );
    assert_eq!(
        pending(find_icon_path("", true, &vec![])),
        Some((String::new(), vec![]))
    );
}

#[test]
fn places_of_what_is_wanted() {
    assert_eq!(list_places(&vec![false, true, true, false, true]), [1, 2, 4]);
}

#[test]
fn files_that_are_the_icon() {
    assert!(icon_matches("fire", Some("fire"), Some("png")));
    assert!(icon_matches("fire", Some("fire"), Some("webp")));
    assert!(icon_matches("fire", Some("fire"), None));
    assert!(!icon_matches("fire", Some("fire"), Some("txt")));
    assert!(!icon_matches("fire", Some("fox"), Some("png")));
    assert!(!icon_matches("fire", None, Some("png")));
}

fn file(handle: usize, stem: &str, extension: &str) -> DirItem {
    DirItem {
        handle,
        is_dir: false,
        stem: Some(stem.to_string()),
        extension: Some(extension.to_string()),
    }
}

fn dir(handle: usize, name: &str) -> DirItem {
    DirItem {
        handle,
        is_dir: true,
        stem: Some(name.to_string()),
        extension: None,
    }
}

fn listing(handle: usize) -> Vec<DirItem> {
    match handle {
        0 => vec![dir(10, "hicolor"), dir(11, "fire"), file(20, "other", "png")],
        1 => vec![file(21, "Fire", "SVG")],
        10 => vec![dir(12, "apps")],
        12 => vec![file(22, "fire", "txt")],
        11 => vec![file(23, "FIRE", "Png"), file(24, "fire", "png")],
        _ => vec![],
    }
}

fn search(name: &str, roots: Vec<usize>) -> (Option<usize>, Vec<usize>) {
    let mut s = IconSearch::new(name, &roots);
    let mut order = Vec::new();
    while let Some(d) = s.next_dir() {
        order.push(d);
        if let Some(found) = s.check_dir(&listing(d)) {
            return (Some(found), order);
        }
    }
    (None, order)
}

#[test]
fn search_goes_into_each_directory_before_the_next() {
    assert_eq!(
        search("Fire", vec![0, 1]),
        (Some(23), vec![0, 10, 12, 11])
    );
}

#[test]
fn search_takes_the_roots_in_their_order() {
    assert_eq!(search("fire", vec![1, 0]), (Some(21), vec![1]));
}

#[test]
fn search_that_finds_nothing_sees_everything() {
    assert_eq!(
        search("absent", vec![0, 1]),
        (None, vec![0, 10, 12, 11, 1])
    );
}

#[test]
fn icon_names_are_compared_in_small_letters() {
    let mut s = IconSearch::new("ÄRGER", &vec![0]);
    assert_eq!(s.target, "ärger");
    s.next_dir();
    assert_eq!(s.check_dir(&vec![file(5, "Ärger", "png")]), Some(5));
}

#[test]
fn order_of_the_decoders() {
    assert_eq!(decoders(Some("SVG")), [Decoder::Svg]);
    assert_eq!(decoders(Some("xPm")), [Decoder::Png, Decoder::Xpm]);
    assert_eq!(decoders(Some("png")), [Decoder::Png, Decoder::Image]);
    assert_eq!(decoders(None), [Decoder::Png, Decoder::Image]);
}
