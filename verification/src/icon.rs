//! Icons: where they are looked for, which file is taken, and how it is read.

use vstd::prelude::*;
use vstd::string::*;

use crate::places::{list_places, places};
use crate::text::{
    ascii_lowercase, chars_of, lowercase, opt_text, owned_text, same_ignoring_case, split,
    split_at_char, string_of, strings, texts,
};

verus! {

/// The directories of icons that every system has.
pub open spec fn common_roots() -> Seq<Seq<char>> {
    seq!["/usr/share/icons"@, "/usr/share/pixmaps"@, "/usr/local/share/icons"@]
}

/// The directories of icons of a stratum.
pub open spec fn stratum_roots(stratum: Option<Seq<char>>) -> Seq<Seq<char>> {
    match stratum {
        Some(s) => seq![
            "/bedrock/strata/"@ + s + "/usr/share/icons"@,
            "/bedrock/strata/"@ + s + "/usr/share/pixmaps"@,
        ],
        None => Seq::empty(),
    }
}

/// The directories of icons under each of `dirs` whose name is not empty.
pub open spec fn data_roots(dirs: Seq<Seq<char>>) -> Seq<Seq<char>>
    decreases dirs.len(),
{
    if dirs.len() == 0 {
        Seq::empty()
    } else {
        let d = dirs.last();
        data_roots(dirs.drop_last()) + if d.len() > 0 {
            seq![d + "/icons"@, d + "/pixmaps"@]
        } else {
            Seq::empty()
        }
    }
}

/// The directories of icons under those of `XDG_DATA_DIRS`, which colons part.
pub open spec fn data_dir_roots(data_dirs: Option<Seq<char>>) -> Seq<Seq<char>> {
    match data_dirs {
        Some(d) => data_roots(split(d, ':')),
        None => Seq::empty(),
    }
}

/// The directories of icons under `XDG_DATA_HOME` and `HOME`.
pub open spec fn home_roots(data_home: Option<Seq<char>>, home: Option<Seq<char>>) -> Seq<
    Seq<char>,
> {
    (match data_home {
        Some(d) => seq![d + "/icons"@],
        None => Seq::empty(),
    }) + match home {
        Some(h) => seq![h + "/.local/share/icons"@, h + "/.icons"@],
        None => Seq::empty(),
    }
}

/// The directories that an icon is looked for in, first to last.
pub open spec fn all_roots(
    stratum: Option<Seq<char>>,
    data_dirs: Option<Seq<char>>,
    data_home: Option<Seq<char>>,
    home: Option<Seq<char>>,
) -> Seq<Seq<char>> {
    common_roots() + stratum_roots(stratum) + data_dir_roots(data_dirs) + home_roots(
        data_home,
        home,
    )
}

fn push_joined(v: &mut Vec<String>, a: &str, b: &str)
    ensures
        strings(final(v)@) == strings(old(v)@).push(a@ + b@),
{
    let mut s = a.to_owned();
    s.append(b);
    v.push(s);
    assert(strings(v@) =~= strings(old(v)@).push(a@ + b@));
}

/// The directories that an icon is looked for in, first to last.
pub fn icon_roots(
    stratum: Option<&str>,
    data_dirs: Option<&str>,
    data_home: Option<&str>,
    home: Option<&str>,
) -> (r: Vec<String>)
    ensures
        strings(r@) == common_roots() + stratum_roots(opt_text(stratum)) + data_dir_roots(
            opt_text(data_dirs),
        ) + home_roots(opt_text(data_home), opt_text(home)),
        strings(r@) == all_roots(
            opt_text(stratum),
            opt_text(data_dirs),
            opt_text(data_home),
            opt_text(home),
        ),
{
    let mut r: Vec<String> = Vec::new();
    r.push("/usr/share/icons".to_owned());
    r.push("/usr/share/pixmaps".to_owned());
    r.push("/usr/local/share/icons".to_owned());
    assert(strings(r@) =~= common_roots());
    if let Some(s) = stratum {
        let mut base = "/bedrock/strata/".to_owned();
        base.append(s);
        push_joined(&mut r, base.as_str(), "/usr/share/icons");
        push_joined(&mut r, base.as_str(), "/usr/share/pixmaps");
    }
    assert(strings(r@) =~= common_roots() + stratum_roots(opt_text(stratum)));
    let ghost front = strings(r@);
    if let Some(d) = data_dirs {
        let chars = chars_of(d);
        let dirs = split_at_char(chars.as_slice(), ':');
        let ghost all = split(d@, ':');
        let mut i: usize = 0;
        assert(all.take(0).len() == 0);
        assert(front + data_roots(all.take(0)) =~= front);
        while i < dirs.len()
            invariant
                i <= dirs@.len(),
                texts(dirs@) == all,
                strings(r@) =~= front + data_roots(all.take(i as int)),
            decreases dirs@.len() - i,
        {
            assert(all[i as int] == dirs@[i as int]@);
            assert(all.take(i + 1).drop_last() =~= all.take(i as int));
            assert(all.take(i + 1).last() == dirs@[i as int]@);
            if dirs[i].len() > 0 {
                let dir = string_of(dirs[i].as_slice());
                push_joined(&mut r, dir.as_str(), "/icons");
                push_joined(&mut r, dir.as_str(), "/pixmaps");
            }
            i = i + 1;
        }
        assert(all.take(i as int) =~= all);
    }
    assert(strings(r@) =~= front + data_dir_roots(opt_text(data_dirs)));
    let ghost middle = strings(r@);
    if let Some(d) = data_home {
        push_joined(&mut r, d, "/icons");
    }
    if let Some(h) = home {
        push_joined(&mut r, h, "/.local/share/icons");
        push_joined(&mut r, h, "/.icons");
    }
    assert(strings(r@) =~= middle + home_roots(opt_text(data_home), opt_text(home)));
    r
}

/// Whether an icon is named by the path of its file.
pub open spec fn is_path(icon_name: Seq<char>) -> bool {
    icon_name.len() > 0 && icon_name[0] == '/'
}

/// Whether an icon is named by the path of its file.
fn icon_is_path(icon_name: &str) -> (b: bool)
    ensures
        b == is_path(icon_name@),
{
    if icon_name.is_empty() {
        false
    } else {
        icon_name.get_char(0) == '/'
    }
}

/// The extensions of the files that can be shown, in small letters.
pub open spec fn is_picture_extension(ext: Seq<char>) -> bool {
    ||| ext == "png"@
    ||| ext == "svg"@
    ||| ext == "xpm"@
    ||| ext == "jpg"@
    ||| ext == "jpeg"@
    ||| ext == "webp"@
}

/// Whether a file whose stem and extension read so in small letters is the icon `target`.
pub open spec fn is_icon(
    target: Seq<char>,
    stem: Option<Seq<char>>,
    extension: Option<Seq<char>>,
) -> bool {
    &&& stem == Some(target)
    &&& extension matches Some(e) ==> is_picture_extension(e)
}

/// Whether a file whose stem and extension read so in small letters is the icon `target`.
pub fn icon_matches(target: &str, stem: Option<&str>, extension: Option<&str>) -> (b: bool)
    ensures
        b == is_icon(target@, opt_text(stem), opt_text(extension)),
{
    match stem {
        None => false,
        Some(s) => if s.to_owned() == target.to_owned() {
            match extension {
                None => true,
                Some(e) => {
                    let e = e.to_owned();
                    e == "png".to_owned() || e == "svg".to_owned() || e == "xpm".to_owned() || e
                        == "jpg".to_owned() || e == "jpeg".to_owned() || e == "webp".to_owned()
                },
            }
        } else {
            false
        },
    }
}

/// One thing in a directory. The handle stands for its path.
#[derive(Debug)]
pub struct DirItem {
    pub handle: usize,
    pub is_dir: bool,
    /// The name without its extension, where it can be read as text.
    pub stem: Option<String>,
    /// The extension, where there is one and it can be read as text.
    pub extension: Option<String>,
}

/// What a `DirItem` holds.
pub struct ItemModel {
    pub handle: usize,
    pub is_dir: bool,
    pub stem: Option<Seq<char>>,
    pub extension: Option<Seq<char>>,
}

impl View for DirItem {
    type V = ItemModel;

    open spec fn view(&self) -> ItemModel {
        ItemModel {
            handle: self.handle,
            is_dir: self.is_dir,
            stem: owned_text(self.stem),
            extension: owned_text(self.extension),
        }
    }
}

/// What a list of items holds.
pub open spec fn items(v: Seq<DirItem>) -> Seq<ItemModel> {
    v.map_values(|i: DirItem| i@)
}

/// A text that may be there, in small letters.
pub open spec fn opt_lowercase(s: Option<Seq<char>>) -> Option<Seq<char>> {
    match s {
        Some(t) => Some(lowercase(t)),
        None => None,
    }
}

/// Whether `item` is the icon `target`, which is named in small letters.
pub open spec fn item_matches(target: Seq<char>, item: ItemModel) -> bool {
    !item.is_dir && is_icon(target, opt_lowercase(item.stem), opt_lowercase(item.extension))
}

/// The first file in a directory that is the icon `target`.
pub open spec fn first_match(target: Seq<char>, s: Seq<ItemModel>) -> Option<usize>
    decreases s.len(),
{
    if s.len() == 0 {
        None
    } else if item_matches(target, s[0]) {
        Some(s[0].handle)
    } else {
        first_match(target, s.skip(1))
    }
}

/// The directories in a directory.
pub open spec fn sub_dirs(s: Seq<ItemModel>) -> Seq<usize>
    decreases s.len(),
{
    if s.len() == 0 {
        Seq::empty()
    } else if s[0].is_dir {
        seq![s[0].handle] + sub_dirs(s.skip(1))
    } else {
        sub_dirs(s.skip(1))
    }
}

fn lower(s: &Option<String>) -> (r: Option<String>)
    ensures
        owned_text(r) == opt_lowercase(owned_text(*s)),
{
    match s {
        Some(t) => Some(t.as_str().to_lowercase()),
        None => None,
    }
}

fn as_text(s: &Option<String>) -> (r: Option<&str>)
    ensures
        opt_text(r) == owned_text(*s),
{
    match s {
        Some(t) => Some(t.as_str()),
        None => None,
    }
}

fn check_item(target: &str, item: &DirItem) -> (b: bool)
    ensures
        b == item_matches(target@, item@),
{
    if item.is_dir {
        return false;
    }
    let stem = lower(&item.stem);
    let extension = lower(&item.extension);
    icon_matches(target, as_text(&stem), as_text(&extension))
}

/// A search for an icon, one directory after the other.
///
/// The files of a directory come before the directories in it, and these before what was still to
/// be searched.
#[derive(Debug)]
pub struct IconSearch {
    /// The name of the icon in small letters.
    pub target: String,
    /// The handles of the directories still to be searched, the next one last.
    pub pending: Vec<usize>,
}

impl IconSearch {
    /// The directories still to be searched, the next one first.
    pub open spec fn queue(self) -> Seq<usize> {
        self.pending@.reverse()
    }

    /// A search for the icon called `icon_name` in the directories `roots`.
    pub fn new(icon_name: &str, roots: &Vec<usize>) -> (r: Self)
        ensures
            r.target@ == lowercase(icon_name@),
            r.queue() == roots@,
    {
        let mut pending: Vec<usize> = Vec::new();
        let n = roots.len();
        let mut i: usize = n;
        while i > 0
            invariant
                i <= n == roots@.len(),
                pending@ =~= roots@.skip(i as int).reverse(),
            decreases i,
        {
            i = i - 1;
            pending.push(roots[i]);
        }
        let r = IconSearch { target: icon_name.to_lowercase(), pending };
        assert(roots@.skip(0) =~= roots@);
        assert(r.queue() =~= roots@);
        r
    }

    /// The directory to search next; `None` where the icon has not been found.
    pub fn next_dir(&mut self) -> (r: Option<usize>)
        ensures
            final(self).target == old(self).target,
            match r {
                Some(d) => old(self).queue().len() > 0 && d == old(self).queue()[0]
                    && final(self).queue() == old(self).queue().skip(1),
                None => old(self).queue().len() == 0 && final(self).queue() == old(self).queue(),
            },
    {
        let r = self.pending.pop();
        proof {
            if r is Some {
                assert(self.queue() =~= old(self).queue().skip(1));
            }
        }
        r
    }

    /// Takes what is in the directory that was to be searched: the icon, or else the directories
    /// in it, which come next.
    pub fn check_dir(&mut self, listing: &Vec<DirItem>) -> (r: Option<usize>)
        ensures
            r == first_match(old(self).target@, items(listing@)),
            final(self).target == old(self).target,
            final(self).queue() == (if r is Some {
                old(self).queue()
            } else {
                sub_dirs(items(listing@)) + old(self).queue()
            }),
    {
        let ghost all = items(listing@);
        let n = listing.len();
        let mut i: usize = 0;
        assert(all.skip(0) =~= all);
        while i < n
            invariant
                i <= n == listing@.len(),
                all == items(listing@),
                *self == *old(self),
                first_match(self.target@, all.skip(i as int)) == first_match(self.target@, all),
            decreases n - i,
        {
            assert(all.skip(i as int)[0] == listing@[i as int]@);
            assert(all.skip(i as int).skip(1) =~= all.skip(i + 1));
            if check_item(self.target.as_str(), &listing[i]) {
                return Some(listing[i].handle);
            }
            i = i + 1;
        }
        let ghost rest = self.queue();
        assert(sub_dirs(all.skip(n as int)) + rest =~= rest);
        while i > 0
            invariant
                i <= n == listing@.len(),
                all == items(listing@),
                self.target == old(self).target,
                self.queue() == sub_dirs(all.skip(i as int)) + rest,
            decreases i,
        {
            i = i - 1;
            assert(all.skip(i as int)[0] == listing@[i as int]@);
            assert(all.skip(i as int).skip(1) =~= all.skip(i + 1));
            if listing[i].is_dir {
                let ghost before = self.queue();
                self.pending.push(listing[i].handle);
                assert(self.queue() =~= seq![listing@[i as int].handle] + before);
                assert(self.queue() =~= sub_dirs(all.skip(i as int)) + rest);
            }
        }
        assert(all.skip(0) =~= all);
        None
    }
}

/// How an icon is found.
#[derive(Debug)]
pub enum IconLookup {
    /// Its name is the path of its file.
    Path,
    /// It has to be searched for.
    Search(IconSearch),
}

/// How the icon called `icon_name` is found: a name that is the path of a file that exists is taken
/// as such; any other is searched for in the directories of `icon_roots` that exist. The place of
/// each of them in that list is its handle.
pub fn find_icon_path(icon_name: &str, path_exists: bool, root_exists: &Vec<bool>) -> (r:
    IconLookup)
    ensures
        match r {
            IconLookup::Path => is_path(icon_name@) && path_exists,
            IconLookup::Search(s) => !(is_path(icon_name@) && path_exists) && s.target@
                == lowercase(icon_name@) && s.queue() == places(root_exists@),
        },
{
    if path_exists && icon_is_path(icon_name) {
        IconLookup::Path
    } else {
        IconLookup::Search(IconSearch::new(icon_name, &list_places(root_exists)))
    }
}

/// A file, or a directory with all that is in it.
pub enum Node {
    File { item: ItemModel },
    Dir { handle: usize, children: Seq<Node> },
}

/// What the node looks like in a listing of the directory that it is in.
pub open spec fn listed(n: Node) -> ItemModel {
    match n {
        Node::File { item } => ItemModel { is_dir: false, ..item },
        Node::Dir { handle, children } => ItemModel {
            handle,
            is_dir: true,
            stem: None,
            extension: None,
        },
    }
}

/// The listing of a directory with the children `c`.
pub open spec fn listing_of(c: Seq<Node>) -> Seq<ItemModel> {
    c.map_values(|n: Node| listed(n))
}

/// The icon that lies first under `c`: in each directory the files first, then what is in its
/// directories, one after the other.
pub open spec fn search_all(target: Seq<char>, c: Seq<Node>) -> Option<usize>
    decreases c,
{
    if c.len() == 0 {
        None
    } else {
        match search(target, c[0]) {
            Some(h) => Some(h),
            None => search_all(target, c.skip(1)),
        }
    }
}

/// The icon that lies first in the directory `n`.
pub open spec fn search(target: Seq<char>, n: Node) -> Option<usize>
    decreases n,
{
    match n {
        Node::File { item } => None,
        Node::Dir { handle, children } => match first_match(target, listing_of(children)) {
            Some(h) => Some(h),
            None => search_all(target, children),
        },
    }
}

/// The directories among `c`.
pub open spec fn dirs_of(c: Seq<Node>) -> Seq<Node>
    decreases c.len(),
{
    if c.len() == 0 {
        Seq::empty()
    } else if c[0] is Dir {
        seq![c[0]] + dirs_of(c.skip(1))
    } else {
        dirs_of(c.skip(1))
    }
}

/// The handles of the directories `c`.
pub open spec fn handles(c: Seq<Node>) -> Seq<usize> {
    c.map_values(|n: Node| listed(n).handle)
}

/// How many files and directories there are under `c`.
pub open spec fn node_count(c: Seq<Node>) -> nat
    decreases c,
{
    if c.len() == 0 {
        0
    } else {
        node_size(c[0]) + node_count(c.skip(1))
    }
}

/// How many files and directories `n` is and holds.
pub open spec fn node_size(n: Node) -> nat
    decreases n,
{
    match n {
        Node::File { item } => 1,
        Node::Dir { handle, children } => 1 + node_count(children),
    }
}

proof fn lemma_search_append(target: Seq<char>, a: Seq<Node>, b: Seq<Node>)
    ensures
        search_all(target, a + b) == (match search_all(target, a) {
            Some(h) => Some(h),
            None => search_all(target, b),
        }),
        node_count(a + b) == node_count(a) + node_count(b),
    decreases a.len(),
{
    if a.len() == 0 {
        assert(a + b =~= b);
    } else {
        assert((a + b).skip(1) =~= a.skip(1) + b);
        assert((a + b)[0] == a[0]);
        lemma_search_append(target, a.skip(1), b);
    }
}

proof fn lemma_dirs(target: Seq<char>, c: Seq<Node>)
    ensures
        search_all(target, dirs_of(c)) == search_all(target, c),
        node_count(dirs_of(c)) <= node_count(c),
        sub_dirs(listing_of(c)) == handles(dirs_of(c)),
        forall|i: int| 0 <= i < dirs_of(c).len() ==> (#[trigger] dirs_of(c)[i]) is Dir,
    decreases c.len(),
{
    if c.len() > 0 {
        let rest = c.skip(1);
        lemma_dirs(target, rest);
        assert(listing_of(c).skip(1) =~= listing_of(rest));
        assert(listing_of(c)[0] == listed(c[0]));
        if c[0] is Dir {
            let one = seq![c[0]];
            lemma_search_append(target, one, dirs_of(rest));
            assert(one.skip(1).len() == 0);
            assert(search_all(target, one.skip(1)) is None);
            assert(search_all(target, one) == search(target, c[0]));
            assert(node_count(one.skip(1)) == 0);
            assert(node_count(one) == node_size(c[0]));
            assert(handles(dirs_of(c)) =~= seq![listed(c[0]).handle] + handles(dirs_of(rest)));
        }
    } else {
        assert(handles(dirs_of(c)) =~= sub_dirs(listing_of(c)));
    }
}

/// One step of a search: of the directories `queue` the first is looked into. Either the icon is
/// there, and it is the one that lies first in all of them; or its directories take its place, and
/// what lies first stays the same, with less left to look into.
pub proof fn law_search_step(target: Seq<char>, queue: Seq<Node>)
    requires
        queue.len() > 0,
        queue[0] is Dir,
    ensures
        ({
            let children = queue[0]->children;
            let next = dirs_of(children) + queue.skip(1);
            match first_match(target, listing_of(children)) {
                Some(h) => search_all(target, queue) == Some(h),
                None => {
                    &&& search_all(target, queue) == search_all(target, next)
                    &&& handles(next) == sub_dirs(listing_of(children)) + handles(queue).skip(1)
                    &&& node_count(next) < node_count(queue)
                },
            }
        }),
{
    let children = queue[0]->children;
    let next = dirs_of(children) + queue.skip(1);
    lemma_dirs(target, children);
    lemma_search_append(target, dirs_of(children), queue.skip(1));
    reveal_with_fuel(search_all, 2);
    reveal_with_fuel(search, 2);
    reveal_with_fuel(node_count, 2);
    reveal_with_fuel(node_size, 2);
    assert(handles(next) =~= handles(dirs_of(children)) + handles(queue).skip(1));
}

/// What a search comes to that takes the directories `queue` step by step.
pub open spec fn stepwise(target: Seq<char>, queue: Seq<Node>) -> Option<usize>
    decreases node_count(queue),
    when forall|i: int| 0 <= i < queue.len() ==> (#[trigger] queue[i]) is Dir
    via stepwise_decreases
{
    if queue.len() == 0 {
        None
    } else {
        let children = queue[0]->children;
        match first_match(target, listing_of(children)) {
            Some(h) => Some(h),
            None => stepwise(target, dirs_of(children) + queue.skip(1)),
        }
    }
}

#[via_fn]
proof fn stepwise_decreases(target: Seq<char>, queue: Seq<Node>) {
    if queue.len() > 0 {
        law_search_step(target, queue);
    }
}

/// A search that takes the directories step by step ends with the icon that lies first in them, or
/// with none where there is none.
pub proof fn law_search_finds_first(target: Seq<char>, queue: Seq<Node>)
    requires
        forall|i: int| 0 <= i < queue.len() ==> (#[trigger] queue[i]) is Dir,
    ensures
        stepwise(target, queue) == search_all(target, queue),
    decreases node_count(queue),
{
    if queue.len() > 0 {
        law_search_step(target, queue);
        let children = queue[0]->children;
        let next = dirs_of(children) + queue.skip(1);
        if first_match(target, listing_of(children)) is None {
            lemma_dirs(target, children);
            assert forall|i: int| 0 <= i < next.len() implies (#[trigger] next[i]) is Dir by {
                if i >= dirs_of(children).len() {
                    assert(next[i] == queue[i - dirs_of(children).len() + 1]);
                }
            }
            law_search_finds_first(target, next);
        }
    }
}

/// A way to read the file of an icon.
#[derive(Clone, Copy, Debug, PartialEq, Eq, Structural)]
pub enum Decoder {
    Svg,
    Png,
    Xpm,
    Image,
}

/// The ways to read the file of an icon, in the order in which they are tried: a vector graphic
/// is only ever read as such; anything else is first taken for a PNG, and then for what its
/// extension says.
pub open spec fn decoder_order(extension: Option<Seq<char>>) -> Seq<Decoder> {
    if extension matches Some(e) && ascii_lowercase(e) == "svg"@ {
        seq![Decoder::Svg]
    } else if extension matches Some(e) && ascii_lowercase(e) == "xpm"@ {
        seq![Decoder::Png, Decoder::Xpm]
    } else {
        seq![Decoder::Png, Decoder::Image]
    }
}

fn extension_is(extension: Option<&str>, name: &str) -> (b: bool)
    requires
        ascii_lowercase(name@) == name@,
    ensures
        b == (opt_text(extension) matches Some(e) && ascii_lowercase(e) == name@),
{
    match extension {
        None => false,
        Some(e) => {
            let a = chars_of(e);
            let b = chars_of(name);
            same_ignoring_case(a.as_slice(), b.as_slice())
        },
    }
}

/// The ways to read the file of an icon, in the order in which they are tried.
pub fn decoders(extension: Option<&str>) -> (r: Vec<Decoder>)
    ensures
        r@ == decoder_order(opt_text(extension)),
{
    proof {
        reveal_strlit("svg");
        reveal_strlit("xpm");
        assert(ascii_lowercase("svg"@) =~= "svg"@);
        assert(ascii_lowercase("xpm"@) =~= "xpm"@);
    }
    let mut r: Vec<Decoder> = Vec::new();
    if extension_is(extension, "svg") {
        r.push(Decoder::Svg);
    } else if extension_is(extension, "xpm") {
        r.push(Decoder::Png);
        r.push(Decoder::Xpm);
    } else {
        r.push(Decoder::Png);
        r.push(Decoder::Image);
    }
    assert(r@ =~= decoder_order(opt_text(extension)));
    r
}

/// The user's own directories come last, whatever stands before them.
pub proof fn law_home_roots_come_last(
    stratum: Option<Seq<char>>,
    data_dirs: Option<Seq<char>>,
    data_home: Option<Seq<char>>,
    home: Seq<char>,
)
    ensures
        all_roots(stratum, data_dirs, data_home, Some(home)) == all_roots(
            stratum,
            data_dirs,
            data_home,
            None,
        ) + seq![home + "/.local/share/icons"@, home + "/.icons"@],
{
    assert(all_roots(stratum, data_dirs, data_home, Some(home)) =~= all_roots(
        stratum,
        data_dirs,
        data_home,
        None,
    ) + seq![home + "/.local/share/icons"@, home + "/.icons"@]);
}

/// Before them comes the icon directory of the data home, and before that, all else.
pub proof fn law_data_home_root(
    stratum: Option<Seq<char>>,
    data_dirs: Option<Seq<char>>,
    data_home: Seq<char>,
)
    ensures
        all_roots(stratum, data_dirs, Some(data_home), None) == all_roots(
            stratum,
            data_dirs,
            None,
            None,
        ).push(data_home + "/icons"@),
{
    assert(all_roots(stratum, data_dirs, Some(data_home), None) =~= all_roots(
        stratum,
        data_dirs,
        None,
        None,
    ).push(data_home + "/icons"@));
}

proof fn lemma_data_roots_add(x: Seq<Seq<char>>, y: Seq<Seq<char>>)
    ensures
        data_roots(x + y) == data_roots(x) + data_roots(y),
    decreases y.len(),
{
    if y.len() == 0 {
        assert(x + y =~= x);
        assert(data_roots(x) + data_roots(y) =~= data_roots(x));
    } else {
        assert((x + y).drop_last() =~= x + y.drop_last());
        assert((x + y).last() == y.last());
        lemma_data_roots_add(x, y.drop_last());
        assert(data_roots(x + y) =~= data_roots(x) + data_roots(y));
    }
}

/// Each of the data directories, which colons part, adds one for icons and one for pixmaps, in
/// their order; one without a name adds none.
pub proof fn law_data_dir_roots(stratum: Option<Seq<char>>, a: Seq<char>, b: Seq<char>)
    requires
        !a.contains(':'),
    ensures
        a.len() > 0 ==> all_roots(stratum, Some(a), None, None) == all_roots(
            stratum,
            None,
            None,
            None,
        ) + seq![a + "/icons"@, a + "/pixmaps"@],
        a.len() == 0 ==> all_roots(stratum, Some(a), None, None) == all_roots(
            stratum,
            None,
            None,
            None,
        ),
        all_roots(stratum, Some(a + seq![':'] + b), None, None) == all_roots(
            stratum,
            Some(a),
            None,
            None,
        ) + all_roots(stratum, Some(b), None, None).skip(
            all_roots(stratum, None, None, None).len() as int,
        ),
{
    crate::text::law_split_at_separators(a, ':', b);
    let base = all_roots(stratum, None, None, None);
    assert(seq![a].drop_last().len() == 0);
    assert(data_roots(seq![a].drop_last()) =~= Seq::empty());
    assert(seq![a].last() == a);
    lemma_data_roots_add(seq![a], split(b, ':'));
    assert(all_roots(stratum, Some(a), None, None) =~= base + data_roots(seq![a]));
    assert(all_roots(stratum, Some(b), None, None) =~= base + data_roots(split(b, ':')));
    assert(all_roots(stratum, Some(b), None, None).skip(base.len() as int) =~= data_roots(
        split(b, ':'),
    ));
    assert(all_roots(stratum, Some(a + seq![':'] + b), None, None) =~= base + (data_roots(seq![a])
        + data_roots(split(b, ':'))));
    if a.len() > 0 {
        assert(data_roots(seq![a]) =~= seq![a + "/icons"@, a + "/pixmaps"@]);
    } else {
        assert(data_roots(seq![a]) =~= Seq::empty());
    }
    assert(all_roots(stratum, Some(a + seq![':'] + b), None, None) =~= all_roots(
        stratum,
        Some(a),
        None,
        None,
    ) + data_roots(split(b, ':')));
}

/// Three directories are there on every system and come first, and two of the stratum follow.
pub proof fn law_first_roots(stratum: Seq<char>)
    ensures
        all_roots(None, None, None, None) == seq![
            "/usr/share/icons"@,
            "/usr/share/pixmaps"@,
            "/usr/local/share/icons"@,
        ],
        all_roots(Some(stratum), None, None, None) == seq![
            "/usr/share/icons"@,
            "/usr/share/pixmaps"@,
            "/usr/local/share/icons"@,
            "/bedrock/strata/"@ + stratum + "/usr/share/icons"@,
            "/bedrock/strata/"@ + stratum + "/usr/share/pixmaps"@,
        ],
{
    assert(all_roots(None, None, None, None) =~= common_roots());
    assert(all_roots(Some(stratum), None, None, None) =~= common_roots() + stratum_roots(
        Some(stratum),
    ));
    assert(common_roots() + stratum_roots(Some(stratum)) =~= seq![
        "/usr/share/icons"@,
        "/usr/share/pixmaps"@,
        "/usr/local/share/icons"@,
        "/bedrock/strata/"@ + stratum + "/usr/share/icons"@,
        "/bedrock/strata/"@ + stratum + "/usr/share/pixmaps"@,
    ]);
}

/// An icon is named by a path exactly where its name begins with a slash.
pub proof fn law_paths_begin_with_a_slash(c: char, t: Seq<char>)
    ensures
        is_path(seq![c] + t) <==> c == '/',
        !is_path(Seq::empty()),
{
    assert((seq![c] + t)[0] == c);
}

/// A file is the icon exactly where its stem, in small letters, is the name looked for, and its
/// extension, in small letters, is that of a picture or missing; a directory never is.
pub proof fn law_icon_files(target: Seq<char>, item: ItemModel)
    ensures
        item.is_dir || item.stem is None ==> !item_matches(target, item),
        !item.is_dir && item.stem is Some && item.extension is None ==> (item_matches(target, item)
            <==> lowercase(item.stem.unwrap()) == target),
        !item.is_dir && item.stem is Some && item.extension is Some ==> (item_matches(target, item)
            <==> lowercase(item.stem.unwrap()) == target && seq![
            "png"@,
            "svg"@,
            "xpm"@,
            "jpg"@,
            "jpeg"@,
            "webp"@,
        ].contains(lowercase(item.extension.unwrap()))),
{
    let all = seq!["png"@, "svg"@, "xpm"@, "jpg"@, "jpeg"@, "webp"@];
    if let Some(e) = item.extension {
        let l = lowercase(e);
        if is_picture_extension(l) {
            let i: int = if l == "png"@ {
                0
            } else if l == "svg"@ {
                1
            } else if l == "xpm"@ {
                2
            } else if l == "jpg"@ {
                3
            } else if l == "jpeg"@ {
                4
            } else {
                5
            };
            assert(all[i] == l);
        }
    }
}

/// Of the files in a directory the first that is the icon is taken, wherever it stands and
/// whatever follows it; where none is, nothing is found.
pub proof fn law_first_match(
    target: Seq<char>,
    a: Seq<ItemModel>,
    item: ItemModel,
    b: Seq<ItemModel>,
)
    requires
        forall|i: int| 0 <= i < a.len() ==> !item_matches(target, #[trigger] a[i]),
    ensures
        first_match(target, a) is None,
        item_matches(target, item) ==> first_match(target, a + seq![item] + b) == Some(item.handle),
        !item_matches(target, item) ==> first_match(target, a + seq![item] + b) == first_match(
            target,
            b,
        ),
    decreases a.len(),
{
    let s = a + seq![item] + b;
    if a.len() == 0 {
        assert(s[0] == item);
        assert(s.skip(1) =~= b);
    } else {
        let t = a.skip(1);
        assert(s[0] == a[0]);
        assert(s.skip(1) =~= t + seq![item] + b);
        assert forall|i: int| 0 <= i < t.len() implies !item_matches(target, #[trigger] t[i]) by {
            assert(t[i] == a[i + 1]);
        }
        law_first_match(target, t, item, b);
    }
}

/// The directories in a directory are searched in the order in which they are listed.
pub proof fn law_sub_dirs(a: Seq<ItemModel>, item: ItemModel)
    ensures
        sub_dirs(Seq::empty()) == Seq::<usize>::empty(),
        item.is_dir ==> sub_dirs(a.push(item)) == sub_dirs(a).push(item.handle),
        !item.is_dir ==> sub_dirs(a.push(item)) == sub_dirs(a),
    decreases a.len(),
{
    let s = a.push(item);
    if a.len() == 0 {
        assert(s[0] == item);
        assert(s.skip(1) =~= a);
        assert(sub_dirs(a) =~= Seq::empty());
        if item.is_dir {
            assert(sub_dirs(s) =~= sub_dirs(a).push(item.handle));
        }
    } else {
        assert(s[0] == a[0]);
        assert(s.skip(1) =~= a.skip(1).push(item));
        law_sub_dirs(a.skip(1), item);
        if item.is_dir {
            assert(sub_dirs(s) =~= sub_dirs(a).push(item.handle));
        }
    }
}

/// A directory holds the icon that is the first match among its files; where there is none, what
/// its directories hold counts, the first of them before the others; and files that stand among
/// the directories searched make no difference.
pub proof fn law_files_before_directories(
    target: Seq<char>,
    handle: usize,
    children: Seq<Node>,
    first: Node,
    rest: Seq<Node>,
)
    ensures
        first_match(target, listing_of(children)) matches Some(h) ==> search(
            target,
            Node::Dir { handle, children },
        ) == Some(h),
        first_match(target, listing_of(children)) is None ==> search(
            target,
            Node::Dir { handle, children },
        ) == search_all(target, children),
        search(target, first) is Some ==> search_all(target, seq![first] + rest) == search(
            target,
            first,
        ),
        search(target, first) is None ==> search_all(target, seq![first] + rest) == search_all(
            target,
            rest,
        ),
        first is File ==> search(target, first) is None,
        search_all(target, Seq::empty()) is None,
{
    reveal_with_fuel(search_all, 2);
    reveal_with_fuel(search, 2);
    assert((seq![first] + rest)[0] == first);
    assert((seq![first] + rest).skip(1) =~= rest);
}

/// A file with the extension of a vector graphic, in letters of either case, is read as such and
/// nothing else; any other is taken for a PNG first, and then for a pixmap where the extension says
/// so, or else for what the extension says.
pub proof fn law_decoder_order(extension: Option<Seq<char>>)
    ensures
        extension is None ==> decoder_order(extension) == seq![Decoder::Png, Decoder::Image],
        extension matches Some(e) ==> {
            &&& ascii_lowercase(e) == "svg"@ ==> decoder_order(extension) == seq![Decoder::Svg]
            &&& ascii_lowercase(e) == "xpm"@ ==> decoder_order(extension) == seq![
                Decoder::Png,
                Decoder::Xpm,
            ]
            &&& ascii_lowercase(e) != "svg"@ && ascii_lowercase(e) != "xpm"@ ==> decoder_order(
                extension,
            ) == seq![Decoder::Png, Decoder::Image]
        },
{
    reveal_strlit("svg");
    reveal_strlit("xpm");
    assert("svg"@[0] == 's');
    assert("xpm"@[0] == 'x');
}

} // verus!
