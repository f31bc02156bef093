//! Applications, as desktop files describe them.

use vstd::prelude::*;
use vstd::slice::slice_subrange;

use crate::text::{
    begins_with, chars_of, find_char, first_index, has_prefix, law_begins_with_prefix,
    lemma_first_index_unique, opt_text, owned_text, read_trimmed_lines, string_of, texts, trim,
    trimmed, trimmed_lines,
};

verus! {

/// An application that can be launched.
#[derive(Clone, Debug)]
pub struct Entry {
    pub name: String,
    /// The command that the `Exec` line of the desktop file holds.
    pub command: String,
    /// What the desktop file calls the icon.
    pub icon_key: Option<String>,
    /// The handle of the icon's file, once it has been found.
    pub icon_path: Option<usize>,
    /// The handle of the icon's picture, once it has been drawn.
    pub icon_surface: Option<usize>,
    /// The Bedrock stratum that the application belongs to.
    pub stratum: Option<String>,
}

/// What an `Entry` holds.
pub struct EntryModel {
    pub name: Seq<char>,
    pub command: Seq<char>,
    pub icon_key: Option<Seq<char>>,
    pub icon_path: Option<usize>,
    pub icon_surface: Option<usize>,
    pub stratum: Option<Seq<char>>,
}

impl View for Entry {
    type V = EntryModel;

    open spec fn view(&self) -> EntryModel {
        EntryModel {
            name: self.name@,
            command: self.command@,
            icon_key: owned_text(self.icon_key),
            icon_path: self.icon_path,
            icon_surface: self.icon_surface,
            stratum: owned_text(self.stratum),
        }
    }
}

/// What a list of entries holds.
pub open spec fn models(v: Seq<Entry>) -> Seq<EntryModel> {
    v.map_values(|e: Entry| e@)
}

/// What follows `prefix` in the first line that begins with it.
pub open spec fn first_value(lines: Seq<Seq<char>>, prefix: Seq<char>) -> Option<Seq<char>>
    decreases lines.len(),
{
    if lines.len() == 0 {
        None
    } else if begins_with(lines[0], prefix) {
        Some(lines[0].skip(prefix.len() as int))
    } else {
        first_value(lines.skip(1), prefix)
    }
}

fn read_first_value(lines: &Vec<Vec<char>>, prefix: &str) -> (r: Option<Vec<char>>)
    ensures
        match r {
            Some(v) => first_value(texts(lines@), prefix@) == Some(v@),
            None => first_value(texts(lines@), prefix@) is None,
        },
{
    let p = chars_of(prefix);
    let n = lines.len();
    let ghost all = texts(lines@);
    let mut i: usize = 0;
    assert(all.skip(0) =~= all);
    while i < n
        invariant
            i <= n == lines@.len(),
            all == texts(lines@),
            p@ == prefix@,
            first_value(all.skip(i as int), prefix@) == first_value(all, prefix@),
        decreases n - i,
    {
        let line = lines[i].as_slice();
        assert(all.skip(i as int)[0] == line@);
        assert(all.skip(i as int).skip(1) =~= all.skip(i + 1));
        if has_prefix(line, p.as_slice()) {
            assert(line@.subrange(p@.len() as int, line@.len() as int) =~= line@.skip(
                p@.len() as int,
            ));
            return Some(
                vstd::slice::slice_to_vec(slice_subrange(line, p.len(), line.len())),
            );
        }
        i = i + 1;
    }
    None
}

/// Whether the desktop file asks not to be shown.
pub open spec fn is_hidden(lines: Seq<Seq<char>>) -> bool {
    first_value(lines, "NoDisplay=true"@) is Some
}

/// The command of an `Exec` line: what stands before the first field code, trimmed.
pub open spec fn command_of(line: Seq<char>) -> Seq<char> {
    trim(line.take(first_index(line, '%')))
}

/// The application that a desktop file describes: it has a name and a command that is not empty,
/// and does not ask to be hidden. Of several lines with one key the first counts.
pub open spec fn desktop_entry(content: Seq<char>, stratum: Option<Seq<char>>) -> Option<
    EntryModel,
> {
    let lines = trimmed_lines(content);
    match (first_value(lines, "Name="@), first_value(lines, "Exec="@)) {
        (Some(name), Some(line)) => if !is_hidden(lines) && command_of(line).len() > 0 {
            Some(
                EntryModel {
                    name,
                    command: command_of(line),
                    icon_key: first_value(lines, "Icon="@),
                    icon_path: None,
                    icon_surface: None,
                    stratum,
                },
            )
        } else {
            None
        },
        _ => None,
    }
}

/// The application that a desktop file describes.
pub fn parse_desktop_entry(content: &str, stratum: Option<&str>) -> (r: Option<Entry>)
    ensures
        match r {
            Some(e) => desktop_entry(content@, opt_text(stratum)) == Some(e@),
            None => desktop_entry(content@, opt_text(stratum)) is None,
        },
{
    let lines = read_trimmed_lines(content);
    let name = read_first_value(&lines, "Name=");
    let line = read_first_value(&lines, "Exec=");
    let hidden = read_first_value(&lines, "NoDisplay=true").is_some();
    match (name, line) {
        (Some(n), Some(e)) => {
            let k = find_char(e.as_slice(), '%');
            let before = slice_subrange(e.as_slice(), 0, k);
            assert(before@ =~= e@.take(k as int));
            let c = trimmed(before);
            if hidden || c.len() == 0 {
                return None;
            }
            let icon_key = match read_first_value(&lines, "Icon=") {
                Some(v) => Some(string_of(v.as_slice())),
                None => None,
            };
            Some(
                Entry {
                    name: string_of(n.as_slice()),
                    command: string_of(c),
                    icon_key,
                    icon_path: None,
                    icon_surface: None,
                    stratum: match stratum {
                        Some(s) => Some(s.to_owned()),
                        None => None,
                    },
                },
            )
        },
        _ => None,
    }
}

/// An application of a stratum is described as one of the system is, in everything but the
/// stratum.
pub proof fn law_strata_make_no_difference(content: Seq<char>, stratum: Seq<char>)
    ensures
        desktop_entry(content, Some(stratum)) is Some <==> desktop_entry(content, None) is Some,
        desktop_entry(content, None) matches Some(e) ==> {
            let f = desktop_entry(content, Some(stratum)).unwrap();
            &&& f.name == e.name
            &&& f.command == e.command
            &&& f.icon_key == e.icon_key
            &&& f.icon_path is None && e.icon_path is None
            &&& f.icon_surface is None && e.icon_surface is None
            &&& f.stratum == Some(stratum)
            &&& e.stratum is None
        },
{
}

/// Whether `prefix` leads the line `i`, with `v` behind it, and none of the lines before.
pub open spec fn leads_first(
    lines: Seq<Seq<char>>,
    prefix: Seq<char>,
    i: int,
    v: Seq<char>,
) -> bool {
    &&& 0 <= i < lines.len()
    &&& lines[i] == prefix + v
    &&& forall|j: int, t: Seq<char>|
        #![trigger lines[j], prefix + t]
        0 <= j < i ==> lines[j] != prefix + t
}

/// Whether `prefix` leads none of the lines.
pub open spec fn leads_none(lines: Seq<Seq<char>>, prefix: Seq<char>) -> bool {
    forall|j: int, t: Seq<char>|
        #![trigger lines[j], prefix + t]
        0 <= j < lines.len() ==> lines[j] != prefix + t
}

proof fn lemma_leads_first(lines: Seq<Seq<char>>, prefix: Seq<char>, i: int, v: Seq<char>)
    requires
        leads_first(lines, prefix, i, v),
    ensures
        first_value(lines, prefix) == Some(v),
    decreases lines.len(),
{
    let head = lines[0];
    law_begins_with_prefix(head, prefix);
    if i == 0 {
        assert(begins_with(head, prefix));
        assert(head.skip(prefix.len() as int) =~= v);
    } else {
        if begins_with(head, prefix) {
            assert(lines[0] == prefix + head.skip(prefix.len() as int));
        }
        let rest = lines.skip(1);
        assert(rest[i - 1] == lines[i]);
        assert forall|j: int, t: Seq<char>|
            #![trigger rest[j], prefix + t]
            0 <= j < i - 1 implies rest[j] != prefix + t by {
            assert(rest[j] == lines[j + 1]);
        }
        lemma_leads_first(rest, prefix, i - 1, v);
    }
}

proof fn lemma_leads_none(lines: Seq<Seq<char>>, prefix: Seq<char>)
    ensures
        leads_none(lines, prefix) <==> first_value(lines, prefix) is None,
    decreases lines.len(),
{
    if lines.len() > 0 {
        let head = lines[0];
        let rest = lines.skip(1);
        law_begins_with_prefix(head, prefix);
        lemma_leads_none(rest, prefix);
        if begins_with(head, prefix) {
            assert(lines[0] == prefix + head.skip(prefix.len() as int));
        } else if leads_none(rest, prefix) {
            assert forall|j: int, t: Seq<char>|
                #![trigger lines[j], prefix + t]
                0 <= j < lines.len() implies lines[j] != prefix + t by {
                if j > 0 {
                    assert(rest[j - 1] == lines[j]);
                }
            }
        } else {
            let (j, t) = choose|j: int, t: Seq<char>|
                #![trigger rest[j], prefix + t]
                0 <= j < rest.len() && rest[j] == prefix + t;
            assert(lines[j + 1] == prefix + t);
        }
    }
}

/// The first of the lines that `Name=` leads names the application, the first that `Exec=` leads
/// holds its command, up to a percent sign and trimmed, and the first that `Icon=` leads, if any,
/// its icon. There is such an application wherever no line begins `NoDisplay=true` and the command
/// is not blank.
pub proof fn law_entry_lines(
    content: Seq<char>,
    stratum: Option<Seq<char>>,
    n: int,
    name: Seq<char>,
    x: int,
    command: Seq<char>,
    codes: Seq<char>,
)
    requires
        leads_first(trimmed_lines(content), "Name="@, n, name),
        leads_first(trimmed_lines(content), "Exec="@, x, command + codes),
        !command.contains('%'),
        codes.len() > 0 ==> codes[0] == '%',
    ensures
        desktop_entry(content, stratum) is Some <==> trim(command).len() > 0 && leads_none(
            trimmed_lines(content),
            "NoDisplay=true"@,
        ),
        desktop_entry(content, stratum) matches Some(e) ==> {
            &&& e.name == name
            &&& e.command == trim(command)
            &&& e.stratum == stratum
            &&& forall|i: int, v: Seq<char>| #[trigger]
                leads_first(trimmed_lines(content), "Icon="@, i, v) ==> e.icon_key == Some(v)
            &&& leads_none(trimmed_lines(content), "Icon="@) ==> e.icon_key is None
        },
{
    let lines = trimmed_lines(content);
    lemma_leads_first(lines, "Name="@, n, name);
    lemma_leads_first(lines, "Exec="@, x, command + codes);
    lemma_leads_none(lines, "NoDisplay=true"@);
    lemma_leads_none(lines, "Icon="@);
    let line = command + codes;
    assert forall|i: int| 0 <= i < command.len() implies line[i] != '%' by {
        assert(command.contains(command[i]));
    }
    lemma_first_index_unique(line, '%', command.len() as int);
    assert(line.take(command.len() as int) =~= command);
    assert forall|i: int, v: Seq<char>| #[trigger]
        leads_first(lines, "Icon="@, i, v) implies first_value(lines, "Icon="@) == Some(v) by {
        lemma_leads_first(lines, "Icon="@, i, v);
    }
}

/// Without a line that `Name=` leads, or without one that `Exec=` leads, there is no application.
pub proof fn law_no_entry_without_lines(content: Seq<char>, stratum: Option<Seq<char>>)
    ensures
        leads_none(trimmed_lines(content), "Name="@) ==> desktop_entry(content, stratum) is None,
        leads_none(trimmed_lines(content), "Exec="@) ==> desktop_entry(content, stratum) is None,
{
    lemma_leads_none(trimmed_lines(content), "Name="@);
    lemma_leads_none(trimmed_lines(content), "Exec="@);
}

} // verus!
