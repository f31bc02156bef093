//! The state of the launcher: what can be launched, what was typed, and what is selected.

use vstd::prelude::*;
use vstd::string::*;
use vstd::utf8::is_ascii_chars;

use crate::catalog::{
    bedrock_entries, read_bedrock_entries, read_system_entries, stratum_contents, system_entries,
    StratumFile,
};
use crate::entry::{desktop_entry, first_value, models, Entry, EntryModel};
use crate::keys::{
    keysym_to_char, typed_char, XK_BS, XK_DEL, XK_DOWN, XK_ESC, XK_RET, XK_UP,
};
use crate::launch::{
    in_shell, in_stratum, launch_background, launched, law_given_stratum_wins,
    law_plain_command_runs_in_shell, law_raw_command_runs_in_shell, shortcut, LaunchCommand,
    LaunchError,
};
use crate::places::{law_places, lemma_places_prefix, places};
use crate::text::{
    ascii_lowercase, chars_of, find_text, first_index, law_occurs_in_the_middle,
    law_trim_idempotent, lowercase, occurs_in, owned_text, stands_at, strings, trim, trimmed_lines,
};
use crate::theme::LauncherTheme;

verus! {

/// No more entries than these are ever shown.
pub const MAX_ENTRIES: usize = 512;

/// Whether an entry whose name and command read so in small letters is shown for what was typed.
pub open spec fn is_hit(
    search: Seq<char>,
    search_lower: Seq<char>,
    name_lower: Seq<char>,
    command_lower: Seq<char>,
) -> bool {
    ||| search.len() == 0
    ||| occurs_in(search_lower, name_lower)
    ||| occurs_in(search_lower, command_lower)
}

/// The first entries of `s`, as many as are shown.
pub open spec fn shown(s: Seq<usize>) -> Seq<usize> {
    if s.len() <= MAX_ENTRIES {
        s
    } else {
        s.take(MAX_ENTRIES as int)
    }
}

/// The name and the command of an entry in small letters.
#[derive(Debug)]
pub struct Lowered {
    pub name: String,
    pub command: String,
}

/// Which entries are shown, out of their names and commands in small letters.
pub open spec fn lowered_hits(
    search: Seq<char>,
    search_lower: Seq<char>,
    v: Seq<Lowered>,
) -> Seq<bool> {
    v.map_values(|l: Lowered| is_hit(search, search_lower, l.name@, l.command@))
}

/// Which entries are shown for what was typed.
pub open spec fn hits(entries: Seq<EntryModel>, search: Seq<char>) -> Seq<bool> {
    entries.map_values(
        |e: EntryModel|
            is_hit(search, lowercase(search), lowercase(e.name), lowercase(e.command)),
    )
}

/// The places of the entries that are shown, out of their names and commands in small letters.
pub fn filter_lowered(search: &str, search_lower: &str, entries: &Vec<Lowered>) -> (r: Vec<usize>)
    ensures
        r@ == shown(places(lowered_hits(search@, search_lower@, entries@))),
{
    let needle = chars_of(search_lower);
    let all = search.is_empty();
    let ghost h = lowered_hits(search@, search_lower@, entries@);
    let mut r: Vec<usize> = Vec::new();
    let mut i: usize = 0;
    assert(h.take(0).len() == 0);
    while i < entries.len()
        invariant
            i <= entries@.len(),
            needle@ == search_lower@,
            all == (search@.len() == 0),
            h == lowered_hits(search@, search_lower@, entries@),
            r@ == places(h.take(i as int)),
            r@.len() < MAX_ENTRIES,
        decreases entries@.len() - i,
    {
        assert(h.take(i + 1).drop_last() =~= h.take(i as int));
        assert(h.take(i + 1).last() == h[i as int]);
        let name = chars_of(entries[i].name.as_str());
        let command = chars_of(entries[i].command.as_str());
        if all || find_text(name.as_slice(), needle.as_slice()) || find_text(
            command.as_slice(),
            needle.as_slice(),
        ) {
            r.push(i);
            if r.len() >= MAX_ENTRIES {
                proof {
                    lemma_places_prefix(h, i + 1);
                    assert(places(h).take(places(h).len() as int) =~= places(h));
                }
                return r;
            }
        }
        i = i + 1;
    }
    assert(h.take(i as int) =~= h);
    r
}

/// The places of the entries that are shown for what was typed.
pub open spec fn filter_of(entries: Seq<EntryModel>, search: Seq<char>) -> Seq<usize> {
    shown(places(hits(entries, search)))
}

/// What is selected in a list that has just been filtered.
pub open spec fn first_of(filtered: Seq<usize>) -> Option<usize> {
    if filtered.len() > 0 {
        Some(0)
    } else {
        None
    }
}

/// What has to be done next for an icon.
#[derive(Clone, Copy, Debug, PartialEq, Eq, Structural)]
pub enum IconRequest {
    /// Nothing.
    Done,
    /// Look for the file of the icon.
    FindPath,
    /// Read the file with this handle.
    Load(usize),
}

/// The launcher.
#[derive(Debug)]
pub struct AppState {
    pub entries: Vec<Entry>,
    /// The places of the entries that are shown.
    pub filtered: Vec<usize>,
    pub scroll_offset: usize,
    /// What was typed.
    pub search: String,
    /// Which of the entries that are shown is selected.
    pub hovered_idx: Option<usize>,
    pub running: bool,
    pub theme: LauncherTheme,
}

impl AppState {
    /// Whether all that is shown is there, and what is selected is shown.
    pub open spec fn wf(self) -> bool {
        &&& forall|i: int|
            0 <= i < self.filtered@.len() ==> (#[trigger] self.filtered@[i]) < self.entries@.len()
        &&& self.hovered_idx matches Some(h) ==> h < self.filtered@.len()
    }

    /// Whether the entries that are shown are those for what was typed.
    pub open spec fn is_filtered(self) -> bool {
        self.filtered@ == filter_of(models(self.entries@), self.search@)
    }

    /// Whether the place that is selected, if it is shown, is that of an entry.
    pub open spec fn selects_entry(self) -> bool {
        match self.hovered_idx {
            Some(h) => h < self.filtered@.len() ==> self.filtered@[h as int] < self.entries@.len(),
            None => true,
        }
    }

    /// The entry that is selected.
    pub open spec fn selected(self) -> Option<EntryModel> {
        match self.hovered_idx {
            Some(h) => if h < self.filtered@.len() {
                Some(models(self.entries@)[self.filtered@[h as int] as int])
            } else {
                None
            },
            None => None,
        }
    }

    /// A launcher with the applications that the desktop files of the system and of the strata
    /// describe, all of them shown.
    pub fn new(theme: LauncherTheme, system: &Vec<String>, bedrock: &Vec<StratumFile>) -> (r: Self)
        ensures
            models(r.entries@) == system_entries(strings(system@)) + bedrock_entries(
                stratum_contents(bedrock@),
            ),
            r.search@ == Seq::<char>::empty(),
            r.is_filtered(),
            r.scroll_offset == 0,
            r.hovered_idx == first_of(r.filtered@),
            r.running,
            r.theme == theme,
            r.wf(),
    {
        let mut s = AppState {
            entries: Vec::new(),
            filtered: Vec::new(),
            scroll_offset: 0,
            search: String::new(),
            hovered_idx: None,
            running: true,
            theme,
        };
        s.scan_system_applications(system);
        s.scan_bedrock_applications(bedrock);
        s.update_filter();
        s
    }

    /// Takes the applications that the desktop files of the system describe for all there are.
    pub fn scan_system_applications(&mut self, files: &Vec<String>)
        ensures
            models(final(self).entries@) == system_entries(strings(files@)),
            *final(self) == (AppState { entries: final(self).entries, ..*old(self) }),
    {
        self.entries = read_system_entries(files);
    }

    /// Adds the applications that the desktop files of the strata describe.
    pub fn scan_bedrock_applications(&mut self, files: &Vec<StratumFile>)
        ensures
            models(final(self).entries@) == models(old(self).entries@) + bedrock_entries(
                stratum_contents(files@),
            ),
            *final(self) == (AppState { entries: final(self).entries, ..*old(self) }),
            old(self).wf() ==> final(self).wf(),
    {
        let mut loaded = read_bedrock_entries(files);
        self.entries.append(&mut loaded);
        assert(models(self.entries@) =~= models(old(self).entries@) + bedrock_entries(
            stratum_contents(files@),
        ));
    }

    fn lower_entries(&self) -> (r: Vec<Lowered>)
        ensures
            lowered_hits(self.search@, lowercase(self.search@), r@) == hits(
                models(self.entries@),
                self.search@,
            ),
    {
        let mut r: Vec<Lowered> = Vec::new();
        let mut i: usize = 0;
        while i < self.entries.len()
            invariant
                i <= self.entries@.len(),
                r@.len() == i,
                forall|j: int|
                    0 <= j < i ==> (#[trigger] r@[j]).name@ == lowercase(self.entries@[j].name@)
                        && r@[j].command@ == lowercase(self.entries@[j].command@),
            decreases self.entries@.len() - i,
        {
            r.push(
                Lowered {
                    name: self.entries[i].name.as_str().to_lowercase(),
                    command: self.entries[i].command.as_str().to_lowercase(),
                },
            );
            i = i + 1;
        }
        assert(lowered_hits(self.search@, lowercase(self.search@), r@) =~= hits(
            models(self.entries@),
            self.search@,
        ));
        r
    }

    /// Shows the entries for what was typed, from the first on, and selects the first.
    pub fn update_filter(&mut self)
        ensures
            final(self).filtered@ == filter_of(models(old(self).entries@), old(self).search@),
            final(self).scroll_offset == 0,
            final(self).hovered_idx == first_of(final(self).filtered@),
            final(self).entries == old(self).entries,
            final(self).search == old(self).search,
            final(self).running == old(self).running,
            final(self).theme == old(self).theme,
            final(self).wf(),
            final(self).is_filtered(),
    {
        let lowered = self.lower_entries();
        let search_lower = self.search.as_str().to_lowercase();
        self.filtered = filter_lowered(self.search.as_str(), search_lower.as_str(), &lowered);
        self.scroll_offset = 0;
        self.hovered_idx = if self.filtered.len() > 0 {
            Some(0)
        } else {
            None
        };
        let n = self.entries.len();
        proof {
            let h = hits(models(self.entries@), self.search@);
            assert(h.len() == n);
            law_places(h);
            assert forall|i: int| 0 <= i < self.filtered@.len() implies (
            #[trigger] self.filtered@[i]) < self.entries@.len() by {
                assert(self.filtered@[i] == places(h)[i]);
            }
        }
    }

    /// Launches what is selected, and stops; or, where nothing is selected, what was typed, and
    /// goes on. `None` where there is nothing to launch.
    pub fn launch_selected(&mut self) -> (r: Option<Result<LaunchCommand, LaunchError>>)
        requires
            old(self).selects_entry(),
        ensures
            launches(*old(self), *final(self), r),
            old(self).wf() ==> final(self).wf(),
    {
        if let Some(idx) = self.hovered_idx {
            if idx < self.filtered.len() {
                let at = self.filtered[idx];
                let stratum = match &self.entries[at].stratum {
                    Some(s) => Some(s.as_str()),
                    None => None,
                };
                let r = launch_background(self.entries[at].command.as_str(), stratum);
                self.running = false;
                return Some(r);
            }
        }
        if !self.search.as_str().is_empty() {
            let r = launch_background(self.search.as_str(), None);
            self.running = true;
            return Some(r);
        }
        None
    }

    /// What a key does: Esc closes the launcher, Enter launches, the arrows move the selection by
    /// one and stop at either end, Backspace and Delete take back what was typed last, and a key
    /// that types a character adds it to what was typed.
    pub fn handle_key(&mut self, keysym: u32) -> (r: Option<Result<LaunchCommand, LaunchError>>)
        requires
            old(self).wf(),
        ensures
            if keysym == XK_RET {
                launches(*old(self), *final(self), r)
            } else {
                r is None && key_pressed(*old(self), *final(self), keysym)
            },
            keysym == 0xFF0D ==> launches(*old(self), *final(self), r),
            keysym != 0xFF0D ==> r is None,
            final(self).wf(),
            old(self).is_filtered() ==> final(self).is_filtered(),
    {
        if keysym == XK_ESC {
            self.running = false;
            None
        } else if keysym == XK_RET {
            self.launch_selected()
        } else if keysym == XK_UP {
            if let Some(h) = self.hovered_idx {
                if h > 0 {
                    self.hovered_idx = Some(h - 1);
                }
            }
            None
        } else if keysym == XK_DOWN {
            if let Some(h) = self.hovered_idx {
                if self.filtered.len() - h > 1 {
                    self.hovered_idx = Some(h + 1);
                }
            }
            None
        } else if keysym == XK_BS || keysym == XK_DEL {
            let n = self.search.as_str().unicode_len();
            if n > 0 {
                self.search = self.search.as_str().substring_char(0, n - 1).to_owned();
                assert(self.search@ =~= old(self).search@.drop_last());
                self.update_filter();
            }
            None
        } else {
            if let Some(c) = keysym_to_char(keysym) {
                self.search.push(c);
                self.update_filter();
            }
            None
        }
    }

    /// What has to be done first for the icon of an entry.
    pub fn load_entry_icon(&self, entry_idx: usize) -> (r: IconRequest)
        requires
            entry_idx < self.entries@.len(),
        ensures
            r == icon_request(self.entries@[entry_idx as int]@),
    {
        let e = &self.entries[entry_idx];
        if e.icon_surface.is_some() {
            return IconRequest::Done;
        }
        match e.icon_path {
            Some(p) => IconRequest::Load(p),
            None => if e.icon_key.is_some() {
                IconRequest::FindPath
            } else {
                IconRequest::Done
            },
        }
    }

    /// Keeps where the file of an icon was found, if anywhere, and says what has to be done next.
    pub fn icon_path_found(&mut self, entry_idx: usize, found: Option<usize>) -> (r: IconRequest)
        requires
            entry_idx < old(self).entries@.len(),
        ensures
            models(final(self).entries@) == models(old(self).entries@).update(
                entry_idx as int,
                (EntryModel { icon_path: found, ..old(self).entries@[entry_idx as int]@ }),
            ),
            *final(self) == (AppState { entries: final(self).entries, ..*old(self) }),
            old(self).wf() ==> final(self).wf(),
            old(self).is_filtered() ==> final(self).is_filtered(),
            r == (match found {
                Some(p) => IconRequest::Load(p),
                None => IconRequest::Done,
            }),
    {
        self.entries[entry_idx].icon_path = found;
        assert(models(self.entries@) =~= models(old(self).entries@).update(
            entry_idx as int,
            (EntryModel { icon_path: found, ..old(self).entries@[entry_idx as int]@ }),
        ));
        assert(hits(models(self.entries@), self.search@) =~= hits(
            models(old(self).entries@),
            self.search@,
        ));
        match found {
            Some(p) => IconRequest::Load(p),
            None => IconRequest::Done,
        }
    }

    /// Keeps the picture of an icon, if there is one.
    pub fn icon_drawn(&mut self, entry_idx: usize, surface: Option<usize>)
        requires
            entry_idx < old(self).entries@.len(),
        ensures
            models(final(self).entries@) == models(old(self).entries@).update(
                entry_idx as int,
                (EntryModel { icon_surface: surface, ..old(self).entries@[entry_idx as int]@ }),
            ),
            *final(self) == (AppState { entries: final(self).entries, ..*old(self) }),
            old(self).wf() ==> final(self).wf(),
            old(self).is_filtered() ==> final(self).is_filtered(),
    {
        self.entries[entry_idx].icon_surface = surface;
        assert(models(self.entries@) =~= models(old(self).entries@).update(
            entry_idx as int,
            (EntryModel { icon_surface: surface, ..old(self).entries@[entry_idx as int]@ }),
        ));
        assert(hits(models(self.entries@), self.search@) =~= hits(
            models(old(self).entries@),
            self.search@,
        ));
    }
}

/// What has to be done first for an icon: nothing once it is drawn, or where it has no name.
pub open spec fn icon_request(e: EntryModel) -> IconRequest {
    if e.icon_surface is Some {
        IconRequest::Done
    } else {
        match e.icon_path {
            Some(p) => IconRequest::Load(p),
            None => if e.icon_key is Some {
                IconRequest::FindPath
            } else {
                IconRequest::Done
            },
        }
    }
}

/// An icon whose file was found is not looked for again, and one that was drawn is not read again.
pub proof fn law_icon_found_and_drawn_once(e: EntryModel, path: usize, surface: usize)
    requires
        e.icon_surface is None,
    ensures
        icon_request(EntryModel { icon_path: Some(path), ..e }) == IconRequest::Load(path),
        icon_request(EntryModel { icon_surface: Some(surface), ..e }) == IconRequest::Done,
{
}

/// Whether launching in the state `before` comes to `r` and the state `after`: what is selected is
/// launched and the launcher stops; or, where nothing is selected, what was typed is launched and
/// the launcher goes on.
pub open spec fn launches(
    before: AppState,
    after: AppState,
    r: Option<Result<LaunchCommand, LaunchError>>,
) -> bool {
    &&& match before.selected() {
        Some(e) => r matches Some(l) && is_launch(l, launched(e.command, e.stratum))
            && !after.running,
        None => if before.search@.len() > 0 {
            r matches Some(l) && is_launch(l, launched(before.search@, None)) && after.running
        } else {
            r is None && after.running == before.running
        },
    }
    &&& after == AppState { running: after.running, ..before }
}

/// Whether `after` is `before` once `search` is what was typed.
pub open spec fn retyped(before: AppState, after: AppState, search: Seq<char>) -> bool {
    &&& after.search@ == search
    &&& after.is_filtered()
    &&& after.scroll_offset == 0
    &&& after.hovered_idx == first_of(after.filtered@)
    &&& after.entries == before.entries
    &&& after.running == before.running
    &&& after.theme == before.theme
}

/// The selection one place up, or where it is at the top.
pub open spec fn one_up(hovered: Option<usize>) -> Option<usize> {
    match hovered {
        Some(h) => if h > 0 {
            Some((h - 1) as usize)
        } else {
            Some(h)
        },
        None => None,
    }
}

/// The selection one place down, or where it is at the bottom.
pub open spec fn one_down(hovered: Option<usize>, len: nat) -> Option<usize> {
    match hovered {
        Some(h) => if h + 1 < len {
            Some((h + 1) as usize)
        } else {
            Some(h)
        },
        None => None,
    }
}

/// Whether a key other than Enter turns the state `before` into `after`.
pub open spec fn key_pressed(before: AppState, after: AppState, keysym: u32) -> bool {
    if keysym == XK_ESC {
        after == AppState { running: false, ..before }
    } else if keysym == XK_UP {
        after == AppState { hovered_idx: one_up(before.hovered_idx), ..before }
    } else if keysym == XK_DOWN {
        after == AppState {
            hovered_idx: one_down(before.hovered_idx, before.filtered@.len()),
            ..before
        }
    } else if keysym == XK_BS || keysym == XK_DEL {
        if before.search@.len() > 0 {
            retyped(before, after, before.search@.drop_last())
        } else {
            after == before
        }
    } else {
        match typed_char(keysym) {
            Some(c) => retyped(before, after, before.search@.push(c)),
            None => after == before,
        }
    }
}

/// Whether `l` is the launch of `argv`: the process to start, or the error that there is none.
pub open spec fn is_launch(
    l: Result<LaunchCommand, LaunchError>,
    argv: Option<Seq<Seq<char>>>,
) -> bool {
    match l {
        Ok(c) => argv == Some(c@),
        Err(e) => e is EmptyCommand && argv is None,
    }
}

/// Every entry that is shown is a hit, they keep their order, none is shown twice, and where fewer
/// are shown than can be, every hit is.
pub proof fn law_filter(entries: Seq<EntryModel>, search: Seq<char>)
    requires
        entries.len() <= usize::MAX,
    ensures
        filter_of(entries, search).len() <= MAX_ENTRIES,
        forall|i: int|
            0 <= i < filter_of(entries, search).len() ==> (#[trigger] filter_of(entries, search)[i])
                < entries.len() && hits(entries, search)[filter_of(entries, search)[i] as int],
        forall|i: int, j: int|
            0 <= i < j < filter_of(entries, search).len() ==> #[trigger] filter_of(
                entries,
                search,
            )[i] < #[trigger] filter_of(entries, search)[j],
        forall|k: int|
            0 <= k < entries.len() && hits(entries, search)[k] && filter_of(entries, search).len()
                < MAX_ENTRIES ==> filter_of(entries, search).contains(k as usize),
{
    let h = hits(entries, search);
    law_places(h);
    let p = places(h);
    let f = filter_of(entries, search);
    assert forall|i: int| 0 <= i < f.len() implies (#[trigger] f[i]) < entries.len()
        && h[f[i] as int] by {
        assert(f[i] == p[i]);
    }
    assert forall|i: int, j: int| 0 <= i < j < f.len() implies #[trigger] f[i]
        < #[trigger] f[j] by {
        assert(f[i] == p[i]);
        assert(f[j] == p[j]);
    }
}

/// With nothing typed, every entry is a hit.
pub proof fn law_nothing_typed_shows_all(entries: Seq<EntryModel>, i: int)
    requires
        0 <= i < entries.len(),
    ensures
        hits(entries, Seq::empty())[i],
{
}

/// One more ASCII character behind what was typed makes no entry a hit that was none before.
pub proof fn law_typing_narrows(entries: Seq<EntryModel>, search: Seq<char>, c: char, i: int)
    requires
        0 <= i < entries.len(),
        is_ascii_chars(search.push(c)),
        hits(entries, search.push(c))[i],
    ensures
        hits(entries, search)[i],
{
    let longer = search.push(c);
    assert(is_ascii_chars(search)) by {
        assert forall|k: int| 0 <= k < search.len() implies '\0' <= #[trigger] search[k]
            <= '\u{7f}' by {
            assert(longer[k] == search[k]);
        }
    }
    let a = ascii_lowercase(search);
    let b = ascii_lowercase(longer);
    assert(b.take(a.len() as int) =~= a);
    let name = lowercase(entries[i].name);
    let command = lowercase(entries[i].command);
    assert(longer.len() > 0);
    if occurs_in(b, name) {
        lemma_part_occurs(a, b, name);
    } else {
        lemma_part_occurs(a, b, command);
    }
}

proof fn lemma_part_occurs(a: Seq<char>, b: Seq<char>, s: Seq<char>)
    requires
        a.len() <= b.len(),
        b.take(a.len() as int) == a,
        occurs_in(b, s),
    ensures
        occurs_in(a, s),
{
    let at = choose|at: int| stands_at(s, b, at);
    assert(s.subrange(at, at + a.len()) =~= s.subrange(at, at + b.len()).take(a.len() as int));
    assert(stands_at(s, a, at));
}

/// Taking back a character that was just typed leads to what was typed before, with the same
/// entries shown.
pub proof fn law_backspace_undoes_typing(
    before: AppState,
    typed: AppState,
    after: AppState,
    keysym: u32,
)
    requires
        before.is_filtered(),
        keysym != XK_RET,
        typed_char(keysym) is Some,
        key_pressed(before, typed, keysym),
        key_pressed(typed, after, XK_BS),
    ensures
        after.search@ == before.search@,
        after.filtered@ == before.filtered@,
        after.entries == before.entries,
        after.running == before.running,
{
    crate::keys::law_steering_keys_type_nothing(XK_ESC);
    crate::keys::law_steering_keys_type_nothing(XK_UP);
    crate::keys::law_steering_keys_type_nothing(XK_DOWN);
    crate::keys::law_steering_keys_type_nothing(XK_BS);
    crate::keys::law_steering_keys_type_nothing(XK_DEL);
    let c = typed_char(keysym).unwrap();
    assert(before.search@.push(c).drop_last() =~= before.search@);
}

/// With an entry selected, Enter launches it and the launcher stops; with none selected, what was
/// typed is launched, and the launcher goes on.
pub proof fn law_enter(
    before: AppState,
    after: AppState,
    r: Option<Result<LaunchCommand, LaunchError>>,
)
    requires
        launches(before, after, r),
    ensures
        before.selected() is Some ==> r is Some && !after.running,
        before.selected() is None && before.search@.len() > 0 ==> r is Some && after.running,
        before.selected() is None && before.search@.len() == 0 ==> r is None,
{
}

/// What is typed where no entry matches runs in the shell as it is, unless it is blank or begins
/// with a shortcut.
pub proof fn law_unmatched_command_runs(
    before: AppState,
    after: AppState,
    r: Option<Result<LaunchCommand, LaunchError>>,
)
    requires
        before.filtered@.len() == 0,
        trim(before.search@).len() > 0,
        shortcut(before.search@) is None,
        launches(before, after, r),
    ensures
        r matches Some(Ok(c)) && c@ == in_shell(trim(before.search@)),
{
    law_raw_command_runs_in_shell(before.search@);
    if before.search@.len() == 0 {
        assert(trim(before.search@).len() == 0);
    }
}

/// An application that a desktop file describes can always be launched: one of a stratum runs in
/// it, and one of the system in the shell, with its command as it is, unless that begins with a
/// shortcut.
pub proof fn law_listed_can_be_launched(content: Seq<char>, stratum: Option<Seq<char>>)
    ensures
        desktop_entry(content, stratum) matches Some(e) ==> {
            &&& launched(e.command, e.stratum) is Some
            &&& stratum matches Some(s) ==> launched(e.command, e.stratum) == Some(
                in_stratum(s, e.command),
            )
            &&& stratum is None ==> launched(e.command, e.stratum) == (match shortcut(e.command) {
                Some((s, cmd)) => Some(in_stratum(s, cmd)),
                None => Some(in_shell(e.command)),
            })
        },
{
    if desktop_entry(content, stratum) is Some {
        let line = first_value(trimmed_lines(content), "Exec="@).unwrap();
        law_trim_idempotent(line.take(first_index(line, '%')));
    }
}

/// An entry is a hit for what was typed exactly where that, in small letters, stands somewhere in
/// its name or its command, in small letters too, with whatever before and behind; and with
/// nothing typed every entry is.
pub proof fn law_hits(entries: Seq<EntryModel>, search: Seq<char>, i: int)
    requires
        0 <= i < entries.len(),
    ensures
        hits(entries, search).len() == entries.len(),
        search.len() == 0 ==> hits(entries, search)[i],
        forall|a: Seq<char>, b: Seq<char>|
            lowercase(entries[i].name) == #[trigger] (a + lowercase(search) + b) ==> hits(
                entries,
                search,
            )[i],
        forall|a: Seq<char>, b: Seq<char>|
            lowercase(entries[i].command) == #[trigger] (a + lowercase(search) + b) ==> hits(
                entries,
                search,
            )[i],
        hits(entries, search)[i] && search.len() > 0 ==> {
            ||| exists|a: Seq<char>, b: Seq<char>|
                lowercase(entries[i].name) == #[trigger] (a + lowercase(search) + b)
            ||| exists|a: Seq<char>, b: Seq<char>|
                lowercase(entries[i].command) == #[trigger] (a + lowercase(search) + b)
        },
{
    law_occurs_in_the_middle(lowercase(search), lowercase(entries[i].name));
    law_occurs_in_the_middle(lowercase(search), lowercase(entries[i].command));
}

/// The entries shown are the first of the hits, 512 at most: a hit that stands before one that is
/// shown is shown too, and so is every hit where they are not that many.
pub proof fn law_first_hits_are_shown(entries: Seq<EntryModel>, search: Seq<char>, i: int, k: int)
    requires
        entries.len() <= usize::MAX,
        0 <= k < entries.len(),
        hits(entries, search)[k],
    ensures
        filter_of(entries, search).len() <= 512,
        filter_of(entries, search).len() < 512 ==> filter_of(entries, search).contains(k as usize),
        0 <= i < filter_of(entries, search).len() && k < filter_of(entries, search)[i]
            ==> filter_of(entries, search).contains(k as usize),
{
    let h = hits(entries, search);
    let p = places(h);
    let f = filter_of(entries, search);
    law_places(h);
    let j = choose|j: int| 0 <= j < p.len() && p[j] == k as usize;
    if 0 <= i < f.len() && k < f[i] {
        assert(f[i] == p[i]);
        if j > i {
            assert(p[i] < p[j]);
        }
        assert(f[j] == p[j]);
    }
    if f.len() < 512 {
        assert(f[j] == p[j]);
    }
}

/// A list that has just been filtered has its first entry selected, unless it is empty.
pub proof fn law_first_is_selected(filtered: Seq<usize>)
    ensures
        filtered.len() > 0 ==> first_of(filtered) == Some(0usize),
        filtered.len() == 0 ==> first_of(filtered) is None,
{
}

/// With the place `h` of the list selected, what Enter launches is the command of the entry that is
/// the `h`-th of those shown, in its own stratum if it has one, and the launcher stops, with
/// nothing else changed. Where the entries shown are those for what was typed, that entry is a hit
/// for it.
pub proof fn law_enter_launches_what_is_shown(
    before: AppState,
    after: AppState,
    r: Option<Result<LaunchCommand, LaunchError>>,
    h: usize,
)
    requires
        launches(before, after, r),
        before.hovered_idx == Some(h),
        h < before.filtered@.len(),
        before.filtered@[h as int] < before.entries@.len(),
    ensures
        ({
            let e = before.entries@[before.filtered@[h as int] as int];
            &&& r matches Some(l) && {
                &&& trim(e.command@).len() > 0 ==> (l matches Ok(c) && launched(
                    e.command@,
                    owned_text(e.stratum),
                ) == Some(c@))
                &&& trim(e.command@).len() == 0 ==> (l matches Err(x) && x is EmptyCommand)
                &&& trim(e.command@).len() > 0 ==> (e.stratum matches Some(s) ==> (l matches Ok(c)
                    && c@ == seq!["strat"@, s@, "sh"@, "-c"@, "exec "@ + trim(e.command@)]))
                &&& trim(e.command@).len() > 0 && e.stratum is None && !e.command@.contains(':')
                    ==> (l matches Ok(c) && c@ == seq!["sh"@, "-c"@, trim(e.command@)])
            }
            &&& !after.running
            &&& after.entries == before.entries
            &&& after.filtered == before.filtered
            &&& after.search == before.search
            &&& after.hovered_idx == before.hovered_idx
            &&& after.scroll_offset == before.scroll_offset
            &&& after.theme == before.theme
            &&& before.is_filtered() && before.search@.len() > 0 ==> {
                ||| exists|a: Seq<char>, b: Seq<char>|
                    lowercase(e.name@) == #[trigger] (a + lowercase(before.search@) + b)
                ||| exists|a: Seq<char>, b: Seq<char>|
                    lowercase(e.command@) == #[trigger] (a + lowercase(before.search@) + b)
            }
        }),
{
    let at = before.filtered@[h as int] as int;
    let e = before.entries@[at];
    let m = models(before.entries@);
    assert(m[at] == e@);
    if trim(e.command@).len() > 0 {
        if let Some(s) = e.stratum {
            law_given_stratum_wins(e.command@, s@);
        } else if !e.command@.contains(':') {
            law_plain_command_runs_in_shell(e.command@);
        }
    }
    if before.is_filtered() && before.search@.len() > 0 {
        let n = before.entries.len();
        assert(m.len() == n);
        law_filter(m, before.search@);
        assert(hits(m, before.search@)[filter_of(m, before.search@)[h as int] as int]);
        law_hits(m, before.search@, at);
    }
}

/// With no place of the list selected, what Enter launches is what was typed, and the launcher goes
/// on; with nothing typed either, nothing happens.
pub proof fn law_enter_launches_what_was_typed(
    before: AppState,
    after: AppState,
    r: Option<Result<LaunchCommand, LaunchError>>,
)
    requires
        launches(before, after, r),
        before.hovered_idx matches Some(h) ==> h >= before.filtered@.len(),
    ensures
        before.search@.len() == 0 ==> r is None && after == before,
        before.search@.len() > 0 ==> after == (AppState { running: true, ..before }),
        before.search@.len() > 0 && trim(before.search@).len() == 0 ==> (r matches Some(Err(x))
            && x is EmptyCommand),
        trim(before.search@).len() > 0 ==> (r matches Some(Ok(c)) && launched(
            before.search@,
            None,
        ) == Some(c@)),
        trim(before.search@).len() > 0 && !before.search@.contains(':') ==> (r matches Some(Ok(c))
            && c@ == seq!["sh"@, "-c"@, trim(before.search@)]),
{
    if before.search@.len() == 0 {
        assert(trim(before.search@).len() == 0);
    }
    if trim(before.search@).len() > 0 && !before.search@.contains(':') {
        law_plain_command_runs_in_shell(before.search@);
    }
}

/// A key that types a character puts it behind what was typed; Backspace and Delete take the last
/// character away, if there is one. Either way the entries for what is then typed are shown, with
/// the first selected, and the entries, the theme and whether the launcher runs stay as they are.
pub proof fn law_typing_and_erasing(before: AppState, after: AppState, keysym: u32, c: char)
    ensures
        key_pressed(before, after, (0x01000000 + c as u32) as u32) ==> after.search@
            == before.search@ + seq![c] && after.filtered@ == filter_of(
            models(before.entries@),
            before.search@ + seq![c],
        ),
        (' ' <= c <= '~' || '\u{a0}' <= c <= '\u{ff}') && key_pressed(before, after, c as u32)
            ==> after.search@ == before.search@ + seq![c] && after.filtered@ == filter_of(
            models(before.entries@),
            before.search@ + seq![c],
        ),
        (keysym == 0xFF08 || keysym == 0xFFFF) && key_pressed(before, after, keysym)
            && before.search@.len() > 0 ==> before.search@ == after.search@ + seq![
            before.search@.last(),
        ] && after.filtered@ == filter_of(models(before.entries@), after.search@),
        (keysym == 0xFF08 || keysym == 0xFFFF) && key_pressed(before, after, keysym)
            && before.search@.len() == 0 ==> after == before,
        key_pressed(before, after, keysym) && after.search@ != before.search@ ==> {
            &&& after.entries == before.entries
            &&& after.theme == before.theme
            &&& after.running == before.running
            &&& after.scroll_offset == 0
            &&& after.filtered@.len() > 0 ==> after.hovered_idx == Some(0usize)
            &&& after.filtered@.len() == 0 ==> after.hovered_idx is None
        },
{
    crate::keys::law_unicode_keys(c);
    assert(before.search@.push(c) =~= before.search@ + seq![c]);
    if ' ' <= c <= '~' || '\u{a0}' <= c <= '\u{ff}' {
        crate::keys::law_latin_keys(c);
    }
    if before.search@.len() > 0 {
        assert(before.search@ =~= before.search@.drop_last() + seq![before.search@.last()]);
    }
}

/// Down selects the next place of the list and Up the one before, each as long as there is one, and
/// nothing else changes; so that either undoes the other.
pub proof fn law_arrow_keys(before: AppState, after: AppState, back: AppState, h: usize)
    requires
        before.hovered_idx == Some(h),
        h < before.filtered@.len(),
    ensures
        key_pressed(before, after, 0xFF54) && h + 1 < before.filtered@.len() ==> after.hovered_idx
            == Some((h + 1) as usize) && (key_pressed(after, back, 0xFF52) ==> back == before),
        key_pressed(before, after, 0xFF52) && h > 0 ==> after.hovered_idx == Some((h - 1) as usize)
            && (key_pressed(after, back, 0xFF54) ==> back == before),
        key_pressed(before, after, 0xFF54) && h + 1 == before.filtered@.len() ==> after == before,
        key_pressed(before, after, 0xFF52) && h == 0 ==> after == before,
        key_pressed(before, after, 0xFF52) || key_pressed(before, after, 0xFF54) ==> after.entries
            == before.entries && after.filtered == before.filtered && after.search == before.search
            && after.running == before.running && after.theme == before.theme
            && after.scroll_offset == before.scroll_offset,
{
    let n = before.filtered.len();
    assert(before.filtered@.len() == n);
}

/// Without a selection the arrows do nothing; Esc stops the launcher and does nothing else; and a
/// key that types nothing and steers nothing does nothing.
pub proof fn law_other_keys(before: AppState, after: AppState, keysym: u32)
    ensures
        before.hovered_idx is None && (key_pressed(before, after, 0xFF52) || key_pressed(
            before,
            after,
            0xFF54,
        )) ==> after == before,
        key_pressed(before, after, 0xFF1B) ==> !after.running && after == (AppState {
            running: after.running,
            ..before
        }),
        key_pressed(before, after, keysym) && typed_char(keysym) is None && keysym != 0xFF1B
            && keysym != 0xFF52 && keysym != 0xFF54 && keysym != 0xFF08 && keysym != 0xFFFF
            ==> after == before,
{
}

/// An icon that has a name and neither a file nor a picture yet is looked for; one that has no
/// name, or that is drawn, is left alone; and one whose file is known is read.
pub proof fn law_icon_requests(e: EntryModel)
    ensures
        icon_request(e) == IconRequest::FindPath <==> e.icon_key is Some && e.icon_path is None
            && e.icon_surface is None,
        icon_request(e) == IconRequest::Done <==> e.icon_surface is Some || (e.icon_key is None
            && e.icon_path is None),
        forall|p: usize| icon_request(e) == IconRequest::Load(p) <==> e.icon_surface is None
            && e.icon_path == Some(p),
{
}

} // verus!
