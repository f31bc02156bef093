//! The list of applications: reading it from desktop files and putting it in order.

use vstd::prelude::*;

use crate::entry::{desktop_entry, models, parse_desktop_entry, Entry, EntryModel};
use crate::text::{chars_of, strings};

verus! {

/// Whether `a` comes no later than `b` in the order of their code points, which is also that of
/// the bytes of their UTF-8 encodings.
pub open spec fn name_le(a: Seq<char>, b: Seq<char>) -> bool
    decreases a.len(),
{
    if a.len() == 0 {
        true
    } else if b.len() == 0 {
        false
    } else if a[0] == b[0] {
        name_le(a.skip(1), b.skip(1))
    } else {
        a[0] < b[0]
    }
}

/// Of two names at least one comes no later than the other.
pub proof fn law_name_order_total(a: Seq<char>, b: Seq<char>)
    ensures
        name_le(a, b) || name_le(b, a),
    decreases a.len(),
{
    if a.len() > 0 && b.len() > 0 && a[0] == b[0] {
        law_name_order_total(a.skip(1), b.skip(1));
    }
}

/// Two names that come no later than each other are the same.
pub proof fn law_name_order_antisymmetric(a: Seq<char>, b: Seq<char>)
    requires
        name_le(a, b),
        name_le(b, a),
    ensures
        a == b,
    decreases a.len(),
{
    if a.len() > 0 && b.len() > 0 {
        law_name_order_antisymmetric(a.skip(1), b.skip(1));
        assert(a =~= seq![a[0]] + a.skip(1));
        assert(b =~= seq![b[0]] + b.skip(1));
    } else {
        assert(a =~= b);
    }
}

/// The order of names carries over.
pub proof fn law_name_order_transitive(a: Seq<char>, b: Seq<char>, c: Seq<char>)
    requires
        name_le(a, b),
        name_le(b, c),
    ensures
        name_le(a, c),
    decreases a.len(),
{
    if a.len() > 0 && b.len() > 0 && c.len() > 0 && a[0] == b[0] && b[0] == c[0] {
        law_name_order_transitive(a.skip(1), b.skip(1), c.skip(1));
    }
}

fn name_is_le(a: &[char], b: &[char]) -> (r: bool)
    ensures
        r == name_le(a@, b@),
{
    let mut i: usize = 0;
    assert(a@.skip(0) =~= a@);
    assert(b@.skip(0) =~= b@);
    while i < a.len()
        invariant
            i <= a@.len(),
            i <= b@.len(),
            name_le(a@.skip(i as int), b@.skip(i as int)) == name_le(a@, b@),
        decreases a@.len() - i,
    {
        if i == b.len() {
            return false;
        }
        if a[i] != b[i] {
            return a[i] < b[i];
        }
        assert(a@.skip(i as int).skip(1) =~= a@.skip(i + 1));
        assert(b@.skip(i as int).skip(1) =~= b@.skip(i + 1));
        i = i + 1;
    }
    true
}

/// Whether the names of `s` do not go back.
pub open spec fn in_name_order(s: Seq<EntryModel>) -> bool {
    forall|i: int, j: int|
        0 <= i <= j < s.len() ==> name_le(#[trigger] s[i].name, #[trigger] s[j].name)
}

/// The entries of `s` that bear the name `n`, in their order.
pub open spec fn named(s: Seq<EntryModel>, n: Seq<char>) -> Seq<EntryModel> {
    s.filter(|e: EntryModel| e.name == n)
}

/// Whether `t` is `s` put in the order of names, entries of one name keeping theirs.
pub open spec fn is_stable_order(s: Seq<EntryModel>, t: Seq<EntryModel>) -> bool {
    &&& in_name_order(t)
    &&& forall|n: Seq<char>| #[trigger] named(t, n) == named(s, n)
}

/// `s` put in the order of names, entries of one name keeping theirs.
pub open spec fn by_name(s: Seq<EntryModel>) -> Seq<EntryModel> {
    choose|t: Seq<EntryModel>| is_stable_order(s, t)
}

/// There is but one such order.
pub proof fn law_stable_order_unique(s: Seq<EntryModel>, t: Seq<EntryModel>, u: Seq<EntryModel>)
    requires
        is_stable_order(s, t),
        is_stable_order(s, u),
    ensures
        t == u,
{
    assert forall|n: Seq<char>| #[trigger] named(t, n) == named(u, n) by {
        assert(named(t, n) == named(s, n));
        assert(named(u, n) == named(s, n));
    }
    lemma_orders_agree(t, u);
}

proof fn lemma_named_last(s: Seq<EntryModel>)
    requires
        s.len() > 0,
    ensures
        named(s, s.last().name) == named(s.drop_last(), s.last().name).push(s.last()),
        forall|n: Seq<char>|
            n != s.last().name ==> #[trigger] named(s, n) == named(s.drop_last(), n),
{
    reveal(Seq::filter);
}

proof fn lemma_named_member(s: Seq<EntryModel>, n: Seq<char>)
    requires
        named(s, n).len() > 0,
    ensures
        exists|i: int| 0 <= i < s.len() && (#[trigger] s[i]).name == n,
    decreases s.len(),
{
    reveal(Seq::filter);
    if s.len() > 0 {
        if s.last().name == n {
            assert(s[s.len() - 1].name == n);
        } else {
            lemma_named_member(s.drop_last(), n);
            let i = choose|i: int|
                0 <= i < s.drop_last().len() && (#[trigger] s.drop_last()[i]).name == n;
            assert(s[i].name == n);
        }
    }
}

proof fn lemma_orders_agree(t: Seq<EntryModel>, u: Seq<EntryModel>)
    requires
        in_name_order(t),
        in_name_order(u),
        forall|n: Seq<char>| #[trigger] named(t, n) == named(u, n),
    ensures
        t == u,
    decreases t.len(),
{
    reveal(Seq::filter);
    if t.len() == 0 {
        if u.len() > 0 {
            lemma_named_last(u);
            assert(named(t, u.last().name).len() == 0);
        }
        assert(t =~= u);
    } else {
        let a = t.last().name;
        lemma_named_last(t);
        assert(named(u, a) == named(t, a));
        lemma_named_member(u, a);
        let i = choose|i: int| 0 <= i < u.len() && (#[trigger] u[i]).name == a;
        assert(u.len() > 0);
        let b = u.last().name;
        lemma_named_last(u);
        assert(named(t, b) == named(u, b));
        lemma_named_member(t, b);
        let j = choose|j: int| 0 <= j < t.len() && (#[trigger] t[j]).name == b;
        assert(name_le(u[i].name, u[u.len() - 1].name));
        assert(name_le(t[j].name, t[t.len() - 1].name));
        law_name_order_antisymmetric(a, b);
        assert(named(t, a).last() == t.last());
        assert(named(u, a).last() == u.last());
        assert(t.last() == u.last());
        let t1 = t.drop_last();
        let u1 = u.drop_last();
        assert forall|n: Seq<char>| #[trigger] named(t1, n) == named(u1, n) by {
            if n == a {
                assert(named(t, a).drop_last() =~= named(t1, a));
                assert(named(u, a).drop_last() =~= named(u1, a));
            } else {
                assert(named(t, n) == named(t1, n));
                assert(named(u, n) == named(u1, n));
            }
        }
        assert forall|x: int, y: int| 0 <= x <= y < t1.len() implies name_le(
            #[trigger] t1[x].name,
            #[trigger] t1[y].name,
        ) by {
            assert(name_le(t[x].name, t[y].name));
        }
        assert forall|x: int, y: int| 0 <= x <= y < u1.len() implies name_le(
            #[trigger] u1[x].name,
            #[trigger] u1[y].name,
        ) by {
            assert(name_le(u[x].name, u[y].name));
        }
        lemma_orders_agree(t1, u1);
        assert(t =~= t1.push(t.last()));
        assert(u =~= u1.push(u.last()));
    }
}

/// A further entry goes behind all that come no later than it.
proof fn lemma_insert_in_order(
    s: Seq<EntryModel>,
    t: Seq<EntryModel>,
    e: EntryModel,
    at: int,
)
    requires
        is_stable_order(s, t),
        0 <= at <= t.len(),
        forall|i: int| 0 <= i < at ==> name_le(#[trigger] t[i].name, e.name),
        at < t.len() ==> !name_le(t[at].name, e.name),
    ensures
        is_stable_order(s.push(e), t.insert(at, e)),
{
    let r = t.insert(at, e);
    let front = t.take(at);
    let back = t.skip(at);
    assert(r =~= front + seq![e] + back);
    assert(t =~= front + back);
    assert forall|i: int| at <= i < t.len() implies name_le(e.name, #[trigger] t[i].name)
        && t[i].name != e.name by {
        law_name_order_total(t[at].name, e.name);
        assert(name_le(t[at].name, t[i].name));
        law_name_order_transitive(e.name, t[at].name, t[i].name);
    }
    assert forall|i: int, j: int| 0 <= i <= j < r.len() implies name_le(
        #[trigger] r[i].name,
        #[trigger] r[j].name,
    ) by {
        law_name_order_total(e.name, e.name);
        let a = if i < at { i } else { i - 1 };
        let b = if j < at { j } else { j - 1 };
        if i != at && j != at {
            assert(r[i] == t[a]);
            assert(r[j] == t[b]);
            assert(name_le(t[a].name, t[b].name));
        } else if i == at && j != at {
            assert(r[j] == t[b]);
        } else if i != at {
            assert(r[i] == t[a]);
        }
    }
    assert forall|n: Seq<char>| #[trigger] named(r, n) == named(s.push(e), n) by {
        let p = |x: EntryModel| x.name == n;
        Seq::filter_distributes_over_add(front + seq![e], back, p);
        Seq::filter_distributes_over_add(front, seq![e], p);
        Seq::filter_distributes_over_add(front, back, p);
        s.lemma_filter_push(e, p);
        assert(named(t, n) == named(s, n));
        reveal(Seq::filter);
        let none = Seq::<EntryModel>::empty();
        none.lemma_filter_push(e, p);
        assert(none.push(e) =~= seq![e]);
        assert(none.filter(p) =~= none);
        if n == e.name {
            assert(back.filter(p) =~= Seq::empty()) by {
                if back.filter(p).len() > 0 {
                    lemma_named_member(back, n);
                    let i = choose|i: int| 0 <= i < back.len() && (#[trigger] back[i]).name == n;
                    assert(t[at + i].name == n);
                }
            }
        } else {
            assert(seq![e].filter(p) =~= Seq::empty());
        }
        assert(named(r, n) =~= named(s.push(e), n));
    }
}

/// Where an entry named `n` goes.
proof fn lemma_place(t: Seq<EntryModel>, n: Seq<char>) -> (at: int)
    ensures
        0 <= at <= t.len(),
        forall|i: int| 0 <= i < at ==> name_le(#[trigger] t[i].name, n),
        at < t.len() ==> !name_le(t[at].name, n),
    decreases t.len(),
{
    if t.len() == 0 || !name_le(t[0].name, n) {
        0
    } else {
        let k = lemma_place(t.skip(1), n);
        assert forall|i: int| 0 <= i < k + 1 implies name_le(#[trigger] t[i].name, n) by {
            if i > 0 {
                assert(t.skip(1)[i - 1] == t[i]);
            }
        }
        k + 1
    }
}

/// Every list can be put in the order of names.
pub proof fn law_stable_order_exists(s: Seq<EntryModel>)
    ensures
        is_stable_order(s, by_name(s)),
    decreases s.len(),
{
    if s.len() == 0 {
        assert(is_stable_order(s, s));
    } else {
        let front = s.drop_last();
        law_stable_order_exists(front);
        let t = by_name(front);
        let at = lemma_place(t, s.last().name);
        lemma_insert_in_order(front, t, s.last(), at);
        assert(front.push(s.last()) =~= s);
    }
}

/// Puts `e` into a list kept in the order of names, behind the entries that come no later.
fn insert_by_name(v: &mut Vec<Entry>, e: Entry, Ghost(s): Ghost<Seq<EntryModel>>)
    requires
        is_stable_order(s, models(old(v)@)),
    ensures
        is_stable_order(s.push(e@), models(final(v)@)),
{
    let name = chars_of(e.name.as_str());
    let mut at: usize = 0;
    let mut going = true;
    while going && at < v.len()
        invariant
            at <= v@.len(),
            v@ == old(v)@,
            name@ == e.name@,
            forall|i: int| 0 <= i < at ==> name_le(#[trigger] models(v@)[i].name, e@.name),
            !going ==> at < v@.len() && !name_le(models(v@)[at as int].name, e@.name),
        decreases v@.len() - at + (if going { 1int } else { 0int }),
    {
        let other = chars_of(v[at].name.as_str());
        assert(models(v@)[at as int].name == other@);
        if name_is_le(other.as_slice(), name.as_slice()) {
            at = at + 1;
        } else {
            going = false;
        }
    }
    let ghost before = models(v@);
    proof {
        lemma_insert_in_order(s, before, e@, at as int);
    }
    v.insert(at, e);
    assert(models(v@) =~= before.insert(at as int, e@));
}

/// `s` without each entry whose command is that of the entry just before it.
pub open spec fn drop_repeats(s: Seq<EntryModel>) -> Seq<EntryModel>
    decreases s.len(),
{
    if s.len() <= 1 {
        s
    } else if s.last().command == s[s.len() - 2].command {
        drop_repeats(s.drop_last())
    } else {
        drop_repeats(s.drop_last()).push(s.last())
    }
}

/// What is left ends in the command that the list ended in.
proof fn lemma_drop_repeats_last(s: Seq<EntryModel>)
    requires
        s.len() > 0,
    ensures
        drop_repeats(s).len() > 0,
        drop_repeats(s).last().command == s.last().command,
    decreases s.len(),
{
    if s.len() > 1 {
        lemma_drop_repeats_last(s.drop_last());
        assert(s.drop_last().last() == s[s.len() - 2]);
    }
}

/// No two neighbours are left with one command.
pub proof fn law_no_repeats(s: Seq<EntryModel>, i: int)
    requires
        0 <= i,
        i + 1 < drop_repeats(s).len(),
    ensures
        drop_repeats(s)[i].command != drop_repeats(s)[i + 1].command,
    decreases s.len(),
{
    if s.len() > 1 {
        let front = s.drop_last();
        if s.last().command == s[s.len() - 2].command {
            law_no_repeats(front, i);
        } else {
            lemma_drop_repeats_last(front);
            assert(front.last() == s[s.len() - 2]);
            if i + 2 < drop_repeats(s).len() {
                law_no_repeats(front, i);
            }
        }
    }
}

/// Dropping repeats takes entries away and changes none: what is left stands in the list, in its
/// order.
pub proof fn law_repeats_dropped_in_order(s: Seq<EntryModel>, i: int, j: int)
    requires
        0 <= i < j < drop_repeats(s).len(),
    ensures
        exists|a: int, b: int|
            0 <= a < b < s.len() && #[trigger] s[a] == drop_repeats(s)[i] && #[trigger] s[b]
                == drop_repeats(s)[j],
    decreases s.len(),
{
    if s.len() > 1 {
        let front = s.drop_last();
        let kept = drop_repeats(front);
        if s.last().command == s[s.len() - 2].command || j < kept.len() {
            law_repeats_dropped_in_order(front, i, j);
            let (a, b) = choose|a: int, b: int|
                0 <= a < b < front.len() && #[trigger] front[a] == kept[i] && #[trigger] front[b]
                    == kept[j];
            assert(s[a] == drop_repeats(s)[i]);
            assert(s[b] == drop_repeats(s)[j]);
        } else {
            lemma_kept_member(front, i);
            let a = choose|a: int| 0 <= a < front.len() && #[trigger] front[a] == kept[i];
            assert(s[a] == drop_repeats(s)[i]);
            assert(s[s.len() - 1] == drop_repeats(s)[j]);
        }
    }
}

proof fn lemma_kept_member(s: Seq<EntryModel>, i: int)
    requires
        0 <= i < drop_repeats(s).len(),
    ensures
        exists|a: int| 0 <= a < s.len() && #[trigger] s[a] == drop_repeats(s)[i],
    decreases s.len(),
{
    if s.len() > 1 {
        let front = s.drop_last();
        let kept = drop_repeats(front);
        if i < kept.len() {
            lemma_kept_member(front, i);
            let a = choose|a: int| 0 <= a < front.len() && #[trigger] front[a] == kept[i];
            assert(s[a] == drop_repeats(s)[i]);
        } else {
            assert(s[s.len() - 1] == drop_repeats(s)[i]);
        }
    } else {
        assert(s[i] == drop_repeats(s)[i]);
    }
}

/// Every command of the list is still there.
pub proof fn law_repeats_lose_no_command(s: Seq<EntryModel>, i: int)
    requires
        0 <= i < s.len(),
    ensures
        exists|k: int|
            0 <= k < drop_repeats(s).len() && (#[trigger] drop_repeats(s)[k]).command
                == s[i].command,
    decreases s.len(),
{
    if s.len() > 1 {
        let front = s.drop_last();
        let kept = drop_repeats(front);
        if i < front.len() {
            law_repeats_lose_no_command(front, i);
            let k = choose|k: int|
                0 <= k < kept.len() && (#[trigger] kept[k]).command == front[i].command;
            assert(drop_repeats(s)[k].command == s[i].command);
        } else {
            lemma_drop_repeats_last(s);
            assert(drop_repeats(s)[drop_repeats(s).len() - 1].command == s[i].command);
        }
    } else {
        assert(drop_repeats(s)[i].command == s[i].command);
    }
}

/// Takes away each entry whose command is that of the entry just before it.
fn remove_repeats(v: &mut Vec<Entry>)
    ensures
        models(final(v)@) == drop_repeats(models(old(v)@)),
{
    if v.len() == 0 {
        assert(models(v@) =~= drop_repeats(models(v@)));
        return;
    }
    let ghost s = models(v@);
    let ghost mut k: int = 1;
    let mut i: usize = 1;
    assert(s.take(1).len() == 1);
    assert(models(v@) =~= drop_repeats(s.take(1)) + s.skip(1));
    while i < v.len()
        invariant
            1 <= i <= v@.len(),
            1 <= k <= s.len(),
            i == drop_repeats(s.take(k)).len(),
            models(v@) =~= drop_repeats(s.take(k)) + s.skip(k),
        decreases v@.len() - i,
    {
        let ghost now = models(v@);
        proof {
            lemma_drop_repeats_last(s.take(k));
            assert(now[i as int] == s[k]);
            assert(now[i - 1] == drop_repeats(s.take(k)).last());
            assert(s.take(k).last() == s[k - 1]);
            assert(s.take(k + 1).drop_last() =~= s.take(k));
            assert(s.take(k + 1).last() == s[k]);
            assert(s.take(k + 1)[k - 1] == s[k - 1]);
            assert(now[i as int].command == v@[i as int].command@);
            assert(now[i - 1].command == v@[i - 1].command@);
        }
        if v[i].command == v[i - 1].command {
            v.remove(i);
            assert(models(v@) =~= now.remove(i as int));
        } else {
            i = i + 1;
        }
        proof {
            k = k + 1;
        }
    }
    assert(k == s.len());
    assert(s.take(k) =~= s);
    assert(models(v@) =~= drop_repeats(s));
}

/// The applications that desktop files of the system describe, before they are put in order.
pub open spec fn described(files: Seq<Seq<char>>) -> Seq<EntryModel> {
    files.filter_map(|c: Seq<char>| desktop_entry(c, None))
}

/// The applications of the system: in the order of their names, and without those that repeat the
/// command just before them.
pub open spec fn system_entries(files: Seq<Seq<char>>) -> Seq<EntryModel> {
    drop_repeats(by_name(described(files)))
}

/// The applications of the system, out of the contents of its desktop files.
pub fn read_system_entries(files: &Vec<String>) -> (r: Vec<Entry>)
    ensures
        models(r@) == system_entries(strings(files@)),
{
    let mut v: Vec<Entry> = Vec::new();
    let ghost all = strings(files@);
    let ghost f = |c: Seq<char>| desktop_entry(c, None);
    let mut i: usize = 0;
    proof {
        reveal(Seq::filter_map);
        reveal(Seq::filter);
        assert(all.take(0).filter_map(f) =~= Seq::empty());
        assert(models(v@) =~= Seq::empty());
        assert forall|n: Seq<char>| #[trigger]
            named(models(v@), n) == named(all.take(0).filter_map(f), n) by {}
    }
    while i < files.len()
        invariant
            i <= files@.len(),
            all == strings(files@),
            f == (|c: Seq<char>| desktop_entry(c, None)),
            is_stable_order(all.take(i as int).filter_map(f), models(v@)),
        decreases files@.len() - i,
    {
        assert(all[i as int] == files@[i as int]@);
        let e = parse_desktop_entry(files[i].as_str(), None);
        proof {
            all.lemma_filter_map_take_succ(f, i as int);
        }
        match e {
            Some(e) => {
                insert_by_name(&mut v, e, Ghost(all.take(i as int).filter_map(f)));
                assert(all.take(i as int).filter_map(f) + seq![e@] =~= all.take(
                    i as int,
                ).filter_map(f).push(e@));
            },
            None => {
                assert(all.take(i as int).filter_map(f) + Seq::<EntryModel>::empty() =~= all.take(
                    i as int,
                ).filter_map(f));
            },
        }
        i = i + 1;
    }
    proof {
        assert(all.take(i as int) =~= all);
        law_stable_order_unique(described(all), models(v@), by_name(described(all)));
    }
    remove_repeats(&mut v);
    v
}

/// A desktop file of a Bedrock stratum.
#[derive(Debug)]
pub struct StratumFile {
    pub stratum: String,
    pub content: String,
}

/// What desktop files of strata hold.
pub open spec fn stratum_contents(v: Seq<StratumFile>) -> Seq<(Seq<char>, Seq<char>)> {
    v.map_values(|f: StratumFile| (f.stratum@, f.content@))
}

/// The applications of the strata, in the order of their files.
pub open spec fn bedrock_entries(files: Seq<(Seq<char>, Seq<char>)>) -> Seq<EntryModel> {
    files.filter_map(|f: (Seq<char>, Seq<char>)| desktop_entry(f.1, Some(f.0)))
}

/// The applications of the strata, out of the contents of their desktop files.
pub fn read_bedrock_entries(files: &Vec<StratumFile>) -> (r: Vec<Entry>)
    ensures
        models(r@) == bedrock_entries(stratum_contents(files@)),
{
    let mut v: Vec<Entry> = Vec::new();
    let ghost all = stratum_contents(files@);
    let ghost f = |f: (Seq<char>, Seq<char>)| desktop_entry(f.1, Some(f.0));
    let mut i: usize = 0;
    proof {
        reveal(Seq::filter_map);
        assert(all.take(0).filter_map(f) =~= Seq::empty());
    }
    while i < files.len()
        invariant
            i <= files@.len(),
            all == stratum_contents(files@),
            f == (|f: (Seq<char>, Seq<char>)| desktop_entry(f.1, Some(f.0))),
            models(v@) =~= all.take(i as int).filter_map(f),
        decreases files@.len() - i,
    {
        assert(all[i as int] == (files@[i as int].stratum@, files@[i as int].content@));
        let e = parse_desktop_entry(
            files[i].content.as_str(),
            Some(files[i].stratum.as_str()),
        );
        proof {
            all.lemma_filter_map_take_succ(f, i as int);
        }
        if let Some(e) = e {
            let ghost before = v@;
            v.push(e);
            assert(models(v@) =~= models(before).push(e@));
        }
        i = i + 1;
    }
    assert(all.take(i as int) =~= all);
    v
}

/// The applications of the system stand in the order of their names, and no two neighbours have
/// one command.
pub proof fn law_system_entries_in_order(files: Seq<Seq<char>>)
    ensures
        in_name_order(system_entries(files)),
        forall|i: int|
            0 <= i && i + 1 < system_entries(files).len() ==> (#[trigger] system_entries(
                files,
            )[i]).command != system_entries(files)[i + 1].command,
{
    let t = by_name(described(files));
    let r = system_entries(files);
    law_stable_order_exists(described(files));
    assert forall|i: int, j: int| 0 <= i <= j < r.len() implies name_le(
        #[trigger] r[i].name,
        #[trigger] r[j].name,
    ) by {
        if i < j {
            law_repeats_dropped_in_order(t, i, j);
            let (a, b) = choose|a: int, b: int|
                0 <= a < b < t.len() && #[trigger] t[a] == r[i] && #[trigger] t[b] == r[j];
            assert(name_le(t[a].name, t[b].name));
        } else {
            law_name_order_total(r[i].name, r[i].name);
        }
    }
    assert forall|i: int| 0 <= i && i + 1 < r.len() implies (#[trigger] r[i]).command != r[i
        + 1].command by {
        law_no_repeats(t, i);
    }
}

/// An application described by a desktop file, and only such a one, is in the list of the system,
/// unless another with its command is there in its place.
pub proof fn law_system_entries_complete(files: Seq<Seq<char>>)
    ensures
        forall|i: int|
            0 <= i < files.len() && (#[trigger] desktop_entry(files[i], None)) is Some
                ==> exists|k: int|
                0 <= k < system_entries(files).len() && (#[trigger] system_entries(
                    files,
                )[k]).command == desktop_entry(files[i], None).unwrap().command,
        forall|k: int|
            0 <= k < system_entries(files).len() ==> exists|i: int|
                0 <= i < files.len() && #[trigger] desktop_entry(files[i], None) == Some(
                    #[trigger] system_entries(files)[k],
                ),
{
    let f = |c: Seq<char>| desktop_entry(c, None);
    let d = described(files);
    let t = by_name(d);
    let r = system_entries(files);
    law_stable_order_exists(d);
    assert forall|i: int|
        0 <= i < files.len() && (#[trigger] desktop_entry(files[i], None)) is Some implies exists|
        k: int,
    |
        0 <= k < r.len() && (#[trigger] r[k]).command == desktop_entry(
            files[i],
            None,
        ).unwrap().command by {
        let e = desktop_entry(files[i], None).unwrap();
        lemma_described_member(files, i);
        lemma_order_keeps_members(d, t, e);
        let a = choose|a: int| 0 <= a < t.len() && t[a] == e;
        law_repeats_lose_no_command(t, a);
    }
    assert forall|k: int| 0 <= k < r.len() implies exists|i: int|
        0 <= i < files.len() && #[trigger] desktop_entry(files[i], None) == Some(
            #[trigger] r[k],
        ) by {
        lemma_kept_member(t, k);
        let a = choose|a: int| 0 <= a < t.len() && #[trigger] t[a] == r[k];
        assert(t.contains(r[k]));
        lemma_order_keeps_members(d, t, r[k]);
        files.lemma_filter_map_contains(f, r[k]);
        let c = choose|c: Seq<char>| #[trigger] files.contains(c) && f(c) == Some(r[k]);
        let i = choose|i: int| 0 <= i < files.len() && files[i] == c;
        assert(desktop_entry(files[i], None) == Some(r[k]));
    }
}

/// What a desktop file describes is among the applications described.
proof fn lemma_described_member(files: Seq<Seq<char>>, i: int)
    requires
        0 <= i < files.len(),
        desktop_entry(files[i], None) is Some,
    ensures
        described(files).contains(desktop_entry(files[i], None).unwrap()),
    decreases files.len(),
{
    let f = |c: Seq<char>| desktop_entry(c, None);
    let rest = files.drop_last();
    let e = desktop_entry(files[i], None).unwrap();
    let d = described(files);
    assert(f(files.last()) == desktop_entry(files.last(), None));
    if i < rest.len() {
        lemma_described_member(rest, i);
        let k = choose|k: int| 0 <= k < described(rest).len() && described(rest)[k] == e;
        assert(d[k] == e);
    } else {
        assert(d[d.len() - 1] == e);
    }
}

/// Putting a list in order loses nothing and adds nothing.
proof fn lemma_order_keeps_members(s: Seq<EntryModel>, t: Seq<EntryModel>, e: EntryModel)
    requires
        is_stable_order(s, t),
    ensures
        s.contains(e) <==> t.contains(e),
{
    let p = |x: EntryModel| x.name == e.name;
    assert(named(t, e.name) == named(s, e.name));
    lemma_filter_members(s, p, e);
    lemma_filter_members(t, p, e);
}

proof fn lemma_filter_members(s: Seq<EntryModel>, p: spec_fn(EntryModel) -> bool, e: EntryModel)
    requires
        p(e),
    ensures
        s.filter(p).contains(e) <==> s.contains(e),
{
    if s.contains(e) {
        let i = choose|i: int| 0 <= i < s.len() && s[i] == e;
        s.lemma_filter_contains(p, i);
    }
    if s.filter(p).contains(e) {
        s.lemma_filter_contains_rev(p, e);
    }
}

/// Of two names the one with the smaller character where they first differ comes first, and one
/// that goes on where the other ends comes second.
pub proof fn law_name_order(
    p: Seq<char>,
    c: char,
    a: Seq<char>,
    d: char,
    b: Seq<char>,
)
    requires
        c < d,
    ensures
        name_le(p + seq![c] + a, p + seq![d] + b),
        !name_le(p + seq![d] + b, p + seq![c] + a),
        name_le(p, p),
        name_le(p, p + seq![c] + a),
        !name_le(p + seq![c] + a, p),
    decreases p.len(),
{
    let x = p + seq![c] + a;
    let y = p + seq![d] + b;
    if p.len() == 0 {
        assert(x[0] == c);
        assert(y[0] == d);
    } else {
        let q = p.skip(1);
        assert(x[0] == p[0]);
        assert(y[0] == p[0]);
        assert(x.skip(1) =~= q + seq![c] + a);
        assert(y.skip(1) =~= q + seq![d] + b);
        law_name_order(q, c, a, d, b);
    }
}

/// A further entry at the end is dropped where its command is that of the entry before it, and else
/// it stays.
pub proof fn law_earlier_of_repeats_stays(s: Seq<EntryModel>, e: EntryModel)
    ensures
        s.len() > 0 && e.command == s.last().command ==> drop_repeats(s.push(e)) == drop_repeats(s),
        s.len() == 0 || e.command != s.last().command ==> drop_repeats(s.push(e)) == drop_repeats(
            s,
        ).push(e),
        drop_repeats(Seq::empty()) == Seq::<EntryModel>::empty(),
{
    assert(s.push(e).drop_last() =~= s);
    if s.len() == 0 {
        assert(s.push(e) =~= drop_repeats(s).push(e));
    }
}

/// One more desktop file of the system adds what it describes, if anything, to the end of what is
/// put in order; and so does one of a stratum to the end of the list, with its stratum.
pub proof fn law_one_more_file(
    files: Seq<Seq<char>>,
    others: Seq<(Seq<char>, Seq<char>)>,
    stratum: Seq<char>,
    content: Seq<char>,
)
    ensures
        described(Seq::empty()) == Seq::<EntryModel>::empty(),
        described(files.push(content)) == (match desktop_entry(content, None) {
            Some(e) => described(files).push(e),
            None => described(files),
        }),
        bedrock_entries(Seq::empty()) == Seq::<EntryModel>::empty(),
        bedrock_entries(others.push((stratum, content))) == (match desktop_entry(
            content,
            Some(stratum),
        ) {
            Some(e) => bedrock_entries(others).push(e),
            None => bedrock_entries(others),
        }),
{
    reveal(Seq::filter_map);
    assert(files.push(content).drop_last() =~= files);
    assert(others.push((stratum, content)).drop_last() =~= others);
}

/// However the applications described are put in the order of their names, those of one name
/// keeping theirs, the list of the system is that without the repeats in it.
pub proof fn law_system_entries_are_sorted_first(files: Seq<Seq<char>>, t: Seq<EntryModel>)
    requires
        is_stable_order(described(files), t),
    ensures
        system_entries(files) == drop_repeats(t),
{
    let d = described(files);
    law_stable_order_exists(d);
    law_stable_order_unique(d, t, by_name(d));
}

/// Nowhere in the list of the system does a name with a greater character come before one with a
/// smaller character in its place.
pub proof fn law_system_names_never_go_back(
    files: Seq<Seq<char>>,
    i: int,
    j: int,
    p: Seq<char>,
    c: char,
    a: Seq<char>,
    d: char,
    b: Seq<char>,
)
    requires
        0 <= i < j < system_entries(files).len(),
        system_entries(files)[i].name == p + seq![c] + a,
        system_entries(files)[j].name == p + seq![d] + b,
    ensures
        c <= d,
{
    law_system_entries_in_order(files);
    let r = system_entries(files);
    assert(name_le(r[i].name, r[j].name));
    if d < c {
        law_name_order(p, d, b, c, a);
    }
}

proof fn lemma_filter_keeps_order(
    s: Seq<EntryModel>,
    p: spec_fn(EntryModel) -> bool,
    a: int,
    b: int,
)
    requires
        0 <= a < b < s.len(),
        p(s[a]),
        p(s[b]),
    ensures
        exists|x: int, y: int|
            0 <= x < y < s.filter(p).len() && #[trigger] s.filter(p)[x] == s[a]
                && #[trigger] s.filter(p)[y] == s[b],
    decreases s.len(),
{
    reveal(Seq::filter);
    let front = s.drop_last();
    let f = front.filter(p);
    let g = s.filter(p);
    if b < front.len() {
        lemma_filter_keeps_order(front, p, a, b);
        let (x, y) = choose|x: int, y: int|
            0 <= x < y < f.len() && #[trigger] f[x] == front[a] && #[trigger] f[y] == front[b];
        assert(g[x] == s[a]);
        assert(g[y] == s[b]);
    } else {
        assert(front[a] == s[a]);
        front.lemma_filter_contains(p, a);
        let x = choose|x: int| 0 <= x < f.len() && f[x] == s[a];
        assert(g[x] == s[a]);
        assert(g[g.len() - 1] == s[b]);
    }
}

proof fn lemma_filtered_stood_in_order(
    s: Seq<EntryModel>,
    p: spec_fn(EntryModel) -> bool,
    x: int,
    y: int,
)
    requires
        0 <= x < y < s.filter(p).len(),
    ensures
        exists|a: int, b: int|
            0 <= a < b < s.len() && #[trigger] s[a] == s.filter(p)[x] && #[trigger] s[b]
                == s.filter(p)[y],
    decreases s.len(),
{
    reveal(Seq::filter);
    if s.len() > 0 {
        let front = s.drop_last();
        let f = front.filter(p);
        let g = s.filter(p);
        if y < f.len() {
            lemma_filtered_stood_in_order(front, p, x, y);
            let (a, b) = choose|a: int, b: int|
                0 <= a < b < front.len() && #[trigger] front[a] == f[x] && #[trigger] front[b]
                    == f[y];
            assert(s[a] == g[x]);
            assert(s[b] == g[y]);
        } else {
            assert(f.contains(f[x]));
            front.lemma_filter_contains_rev(p, f[x]);
            let a = choose|a: int| 0 <= a < front.len() && front[a] == f[x];
            assert(s[a] == g[x]);
            assert(s[s.len() - 1] == g[y]);
        }
    }
}

proof fn lemma_described_in_order(files: Seq<Seq<char>>, a: int, b: int)
    requires
        0 <= a < b < described(files).len(),
    ensures
        exists|x: int, y: int|
            0 <= x < y < files.len() && #[trigger] desktop_entry(files[x], None) == Some(
                described(files)[a],
            ) && #[trigger] desktop_entry(files[y], None) == Some(described(files)[b]),
    decreases files.len(),
{
    reveal(Seq::filter_map);
    if files.len() > 0 {
        let front = files.drop_last();
        let d = described(front);
        let e = described(files);
        assert(front.push(files.last()) =~= files);
        law_one_more_file(front, Seq::empty(), Seq::empty(), files.last());
        if b < d.len() {
            lemma_described_in_order(front, a, b);
            let (x, y) = choose|x: int, y: int|
                0 <= x < y < front.len() && #[trigger] desktop_entry(front[x], None) == Some(d[a])
                    && #[trigger] desktop_entry(front[y], None) == Some(d[b]);
            assert(desktop_entry(files[x], None) == Some(e[a]));
            assert(desktop_entry(files[y], None) == Some(e[b]));
        } else {
            let f = |c: Seq<char>| desktop_entry(c, None);
            assert(d.contains(d[a]));
            front.lemma_filter_map_contains(f, d[a]);
            let c = choose|c: Seq<char>| #[trigger] front.contains(c) && f(c) == Some(d[a]);
            let x = choose|x: int| 0 <= x < front.len() && front[x] == c;
            assert(desktop_entry(files[x], None) == Some(e[a]));
            assert(desktop_entry(files[files.len() - 1], None) == Some(e[b]));
        }
    }
}

/// Applications of one name stand in the order of the files that describe them.
pub proof fn law_one_name_keeps_file_order(files: Seq<Seq<char>>, i: int, j: int)
    requires
        0 <= i < j < system_entries(files).len(),
        system_entries(files)[i].name == system_entries(files)[j].name,
    ensures
        exists|x: int, y: int|
            0 <= x < y < files.len() && #[trigger] desktop_entry(files[x], None) == Some(
                system_entries(files)[i],
            ) && #[trigger] desktop_entry(files[y], None) == Some(system_entries(files)[j]),
{
    let d = described(files);
    let t = by_name(d);
    let r = system_entries(files);
    let n = r[i].name;
    let p = |e: EntryModel| e.name == n;
    law_stable_order_exists(d);
    law_repeats_dropped_in_order(t, i, j);
    let (a, b) = choose|a: int, b: int|
        0 <= a < b < t.len() && #[trigger] t[a] == r[i] && #[trigger] t[b] == r[j];
    lemma_filter_keeps_order(t, p, a, b);
    assert(named(t, n) == named(d, n));
    let f = d.filter(p);
    let (x, y) = choose|x: int, y: int|
        0 <= x < y < t.filter(p).len() && #[trigger] t.filter(p)[x] == t[a]
            && #[trigger] t.filter(p)[y] == t[b];
    lemma_filtered_stood_in_order(d, p, x, y);
    let (u, v) = choose|u: int, v: int|
        0 <= u < v < d.len() && #[trigger] d[u] == d.filter(p)[x] && #[trigger] d[v] == d.filter(
            p,
        )[y];
    lemma_described_in_order(files, u, v);
}

} // verus!
