//! Aggregation of measured entries into the M3U8 and TXT playlists.
//!
//! Entries are grouped by channel name; the channels are put in playlist
//! order; each channel keeps one entry per stream URL (the first), ordered
//! by speed tier and then by discovery index.
use vstd::prelude::*;

use crate::channel::{
    base_group, base_group_of, lemma_tier_ranks, tier_label, tier_label_of, tier_order, tier_rank, SpeedTier,
};
use crate::config::EPG_URL;
use crate::text::{lemma_concat_contains, str_eq};
use crate::ordering::{
    channel_sort_key, key_less, key_lt, lemma_key_lt_irreflexive, lemma_key_lt_negative_transitive,
    lemma_key_lt_transitive,
    sort_key_of, ChannelSortKey,
};

verus! {

/// What a measured stream entry holds.
pub struct EntryView {
    pub name: Seq<char>,
    pub url: Seq<char>,
    pub tier: SpeedTier,
    pub index: usize,
    pub content: Seq<char>,
}

/// A measured stream: the channel name, the stream URL, the speed tier, the
/// order in which it was found, and its rendered M3U8 entry.
pub struct Entry {
    pub name: String,
    pub url: String,
    pub tier: SpeedTier,
    pub index: usize,
    pub content: String,
}

impl View for Entry {
    type V = EntryView;

    open spec fn view(&self) -> EntryView {
        EntryView {
            name: self.name@,
            url: self.url@,
            tier: self.tier,
            index: self.index,
            content: self.content@,
        }
    }
}

impl Entry {
    /// A copy of this entry.
    pub fn duplicate(&self) -> (r: Entry)
        ensures
            r@ == self@,
    {
        Entry {
            name: self.name.clone(),
            url: self.url.clone(),
            tier: self.tier,
            index: self.index,
            content: self.content.clone(),
        }
    }
}

/// The views of a list of entries.
pub open spec fn entry_views(es: Seq<Entry>) -> Seq<EntryView> {
    es.map_values(|e: Entry| e@)
}

/// The views of a list of strings.
pub open spec fn string_views(v: Seq<String>) -> Seq<Seq<char>> {
    v.map_values(|s: String| s@)
}

/// The channel names of the entries, each once, in order of first appearance.
pub open spec fn distinct_names(es: Seq<EntryView>) -> Seq<Seq<char>>
    decreases es.len(),
{
    if es.len() == 0 {
        Seq::empty()
    } else {
        let p = distinct_names(es.drop_last());
        if p.contains(es.last().name) {
            p
        } else {
            p.push(es.last().name)
        }
    }
}

/// `x` inserted into `s` before the first element that it orders strictly
/// before, or at the end.
pub open spec fn insert_sorted<A>(s: Seq<A>, x: A, lt: spec_fn(A, A) -> bool) -> Seq<A>
    decreases s.len(),
{
    if s.len() == 0 {
        seq![x]
    } else if lt(x, s[0]) {
        seq![x] + s
    } else {
        seq![s[0]] + insert_sorted(s.skip(1), x, lt)
    }
}

/// Stable insertion sort of `s` by the strict order `lt`.
pub open spec fn insertion_sorted<A>(s: Seq<A>, lt: spec_fn(A, A) -> bool) -> Seq<A>
    decreases s.len(),
{
    if s.len() == 0 {
        s
    } else {
        insert_sorted(insertion_sorted(s.drop_last(), lt), s.last(), lt)
    }
}

/// Channel `a` orders before channel `b` by their sort keys.
pub open spec fn name_lt(a: Seq<char>, b: Seq<char>) -> bool {
    key_lt(sort_key_of(a), sort_key_of(b))
}

/// The order of channels by sort key.
pub open spec fn by_channel_key() -> spec_fn(Seq<char>, Seq<char>) -> bool {
    |a: Seq<char>, b: Seq<char>| name_lt(a, b)
}

/// The channels of the entries in playlist order: sorted by key, channels
/// with equal keys in order of first appearance.
pub open spec fn channel_order(es: Seq<EntryView>) -> Seq<Seq<char>> {
    insertion_sorted(distinct_names(es), by_channel_key())
}

/// The entries of channel `n`, in their order.
pub open spec fn entries_named(es: Seq<EntryView>, n: Seq<char>) -> Seq<EntryView>
    decreases es.len(),
{
    if es.len() == 0 {
        Seq::empty()
    } else {
        let p = entries_named(es.drop_last(), n);
        if es.last().name == n {
            p.push(es.last())
        } else {
            p
        }
    }
}

/// Some entry of `es` has stream URL `u`.
pub open spec fn has_url(es: Seq<EntryView>, u: Seq<char>) -> bool {
    exists|i: int| 0 <= i < es.len() && #[trigger] es[i].url == u
}

/// The entries with the first entry of each stream URL kept.
pub open spec fn dedup_urls(es: Seq<EntryView>) -> Seq<EntryView>
    decreases es.len(),
{
    if es.len() == 0 {
        Seq::empty()
    } else {
        let p = dedup_urls(es.drop_last());
        if has_url(p, es.last().url) {
            p
        } else {
            p.push(es.last())
        }
    }
}

/// Entry `a` orders before entry `b`: a faster tier, or the same tier and
/// an earlier index.
pub open spec fn entry_lt(a: EntryView, b: EntryView) -> bool {
    tier_rank(a.tier) < tier_rank(b.tier) || (tier_rank(a.tier) == tier_rank(b.tier) && a.index
        < b.index)
}

/// The order of entries by tier and index.
pub open spec fn by_tier_index() -> spec_fn(EntryView, EntryView) -> bool {
    |a: EntryView, b: EntryView| entry_lt(a, b)
}

/// The entries of channel `n` as they are listed: one per stream URL (the
/// first), sorted by tier and then index, entries that tie keeping their order.
pub open spec fn channel_entries(es: Seq<EntryView>, n: Seq<char>) -> Seq<EntryView> {
    insertion_sorted(dedup_urls(entries_named(es, n)), by_tier_index())
}

/// Where `insert_sorted` puts `x`: before the first element that `x` orders
/// strictly before.
proof fn lemma_insert_sorted_at<A>(s: Seq<A>, x: A, lt: spec_fn(A, A) -> bool, j: int)
    requires
        0 <= j <= s.len(),
        forall|k: int| 0 <= k < j ==> !lt(x, #[trigger] s[k]),
        j < s.len() ==> lt(x, s[j]),
    ensures
        insert_sorted(s, x, lt) == s.insert(j, x),
    decreases s.len(),
{
    if s.len() == 0 {
        assert(s.insert(j, x) =~= seq![x]);
    } else if j == 0 {
        assert(s.insert(0, x) =~= seq![x] + s);
    } else {
        let t = s.skip(1);
        assert forall|k: int| 0 <= k < j - 1 implies !lt(x, #[trigger] t[k]) by {
            assert(t[k] == s[k + 1]);
        }
        if j < s.len() {
            assert(t[j - 1] == s[j]);
        }
        lemma_insert_sorted_at(t, x, lt, j - 1);
        assert(seq![s[0]] + t.insert(j - 1, x) =~= s.insert(j, x));
    }
}

/// The distinct channel names of the entries, in order of first appearance.
pub fn distinct_channel_names(entries: &Vec<Entry>) -> (r: Vec<String>)
    ensures
        string_views(r@) == distinct_names(entry_views(entries@)),
{
    let ghost ev = entry_views(entries@);
    let mut names: Vec<String> = Vec::new();
    let mut i: usize = 0;
    assert(ev.take(0) =~= Seq::<EntryView>::empty());
    while i < entries.len()
        invariant
            i <= entries.len(),
            ev == entry_views(entries@),
            string_views(names@) == distinct_names(ev.take(i as int)),
        decreases entries.len() - i,
    {
        let name = &entries[i].name;
        let mut found = false;
        let mut j: usize = 0;
        while j < names.len()
            invariant
                j <= names.len(),
                found == exists|k: int| 0 <= k < j && names@[k]@ == name@,
            decreases names.len() - j,
        {
            if names[j] == *name {
                found = true;
            }
            j = j + 1;
        }
        let ghost before = string_views(names@);
        proof {
            assert(ev.take(i + 1).drop_last() =~= ev.take(i as int));
            assert(ev.take(i + 1).last() == entries@[i as int]@);
            if found {
                let k = choose|k: int| 0 <= k < names.len() && names@[k]@ == name@;
                assert(before[k] == name@);
            } else {
                assert forall|k: int| 0 <= k < before.len() implies before[k] != name@ by {
                    assert(before[k] == names@[k]@);
                }
            }
        }
        if !found {
            names.push(name.clone());
            assert(string_views(names@) =~= before.push(name@));
        }
        i = i + 1;
    }
    assert(ev.take(entries.len() as int) =~= ev);
    names
}

/// The channel names in playlist order.
fn sort_channels(names: &Vec<String>) -> (r: Vec<String>)
    ensures
        string_views(r@) == insertion_sorted(string_views(names@), by_channel_key()),
{
    let ghost nv = string_views(names@);
    let mut keys: Vec<ChannelSortKey> = Vec::new();
    let mut out: Vec<String> = Vec::new();
    let mut i: usize = 0;
    assert(nv.take(0) =~= Seq::<Seq<char>>::empty());
    while i < names.len()
        invariant
            i <= names.len(),
            nv == string_views(names@),
            keys.len() == out.len(),
            forall|m: int| 0 <= m < keys.len() ==> #[trigger] keys@[m]@ == sort_key_of(out@[m]@),
            string_views(out@) == insertion_sorted(nv.take(i as int), by_channel_key()),
        decreases names.len() - i,
    {
        let k = channel_sort_key(names[i].as_str());
        let mut j: usize = 0;
        while j < keys.len() && !key_less(&k, &keys[j])
            invariant
                j <= keys.len(),
                keys.len() == out.len(),
                forall|m: int| 0 <= m < keys.len() ==> #[trigger] keys@[m]@ == sort_key_of(out@[m]@),
                k@ == sort_key_of(names@[i as int]@),
                forall|m: int| 0 <= m < j ==> !name_lt(names@[i as int]@, #[trigger] out@[m]@),
            decreases keys.len() - j,
        {
            j = j + 1;
        }
        let ghost before = string_views(out@);
        proof {
            assert(nv.take(i + 1).drop_last() =~= nv.take(i as int));
            assert(nv.take(i + 1).last() == names@[i as int]@);
            assert forall|m: int| 0 <= m < j implies !(#[trigger] by_channel_key()(
                names@[i as int]@,
                before[m],
            )) by {
                assert(before[m] == out@[m]@);
            }
            if j < keys.len() {
                assert(before[j as int] == out@[j as int]@);
            }
            lemma_insert_sorted_at(before, names@[i as int]@, by_channel_key(), j as int);
        }
        keys.insert(j, k);
        out.insert(j, names[i].clone());
        assert(string_views(out@) =~= before.insert(j as int, names@[i as int]@));
        i = i + 1;
    }
    assert(nv.take(names.len() as int) =~= nv);
    out
}

/// The rank of an entry's tier.
fn tier_rank_exec(t: SpeedTier) -> (r: i32)
    ensures
        r == tier_rank(t),
{
    tier_order(tier_label(t))
}

/// Whether entry `a` orders before entry `b`.
fn entry_less(a: &Entry, b: &Entry) -> (r: bool)
    ensures
        r == entry_lt(a@, b@),
{
    let ra = tier_rank_exec(a.tier);
    let rb = tier_rank_exec(b.tier);
    ra < rb || (ra == rb && a.index < b.index)
}

/// The entries of channel `name` as they are listed in the playlists.
fn entries_of_channel(entries: &Vec<Entry>, name: &String) -> (r: Vec<Entry>)
    ensures
        entry_views(r@) == channel_entries(entry_views(entries@), name@),
{
    let ghost ev = entry_views(entries@);
    // The entries of the channel.
    let mut named: Vec<Entry> = Vec::new();
    let mut i: usize = 0;
    assert(ev.take(0) =~= Seq::<EntryView>::empty());
    while i < entries.len()
        invariant
            i <= entries.len(),
            ev == entry_views(entries@),
            entry_views(named@) == entries_named(ev.take(i as int), name@),
        decreases entries.len() - i,
    {
        let ghost before = entry_views(named@);
        assert(ev.take(i + 1).drop_last() =~= ev.take(i as int));
        assert(ev.take(i + 1).last() == entries@[i as int]@);
        if entries[i].name == *name {
            named.push(entries[i].duplicate());
            assert(entry_views(named@) =~= before.push(entries@[i as int]@));
        }
        i = i + 1;
    }
    assert(ev.take(entries.len() as int) =~= ev);
    // The first entry of each stream URL.
    let ghost nv = entry_views(named@);
    let mut kept: Vec<Entry> = Vec::new();
    let mut i: usize = 0;
    assert(nv.take(0) =~= Seq::<EntryView>::empty());
    while i < named.len()
        invariant
            i <= named.len(),
            nv == entry_views(named@),
            entry_views(kept@) == dedup_urls(nv.take(i as int)),
        decreases named.len() - i,
    {
        let ghost before = entry_views(kept@);
        let mut seen = false;
        let mut j: usize = 0;
        while j < kept.len()
            invariant
                j <= kept.len(),
                i < named.len(),
                seen == exists|k: int| 0 <= k < j && kept@[k].url@ == named@[i as int].url@,
            decreases kept.len() - j,
        {
            if kept[j].url == named[i].url {
                seen = true;
            }
            j = j + 1;
        }
        proof {
            assert(nv.take(i + 1).drop_last() =~= nv.take(i as int));
            assert(nv.take(i + 1).last() == named@[i as int]@);
            if seen {
                let k = choose|k: int| 0 <= k < kept.len() && kept@[k].url@ == named@[i as int].url@;
                assert(before[k].url == named@[i as int]@.url);
            } else {
                assert forall|k: int| 0 <= k < before.len() implies #[trigger] before[k].url
                    != named@[i as int]@.url by {
                    assert(before[k] == kept@[k]@);
                }
            }
        }
        if !seen {
            kept.push(named[i].duplicate());
            assert(entry_views(kept@) =~= before.push(named@[i as int]@));
        }
        i = i + 1;
    }
    assert(nv.take(named.len() as int) =~= nv);
    // Sorted by tier and index, ties keeping their order.
    let ghost kv = entry_views(kept@);
    let mut out: Vec<Entry> = Vec::new();
    let mut i: usize = 0;
    assert(kv.take(0) =~= Seq::<EntryView>::empty());
    while i < kept.len()
        invariant
            i <= kept.len(),
            kv == entry_views(kept@),
            entry_views(out@) == insertion_sorted(kv.take(i as int), by_tier_index()),
        decreases kept.len() - i,
    {
        let mut j: usize = 0;
        while j < out.len() && !entry_less(&kept[i], &out[j])
            invariant
                j <= out.len(),
                i < kept.len(),
                forall|m: int| 0 <= m < j ==> !entry_lt(kept@[i as int]@, #[trigger] out@[m]@),
            decreases out.len() - j,
        {
            j = j + 1;
        }
        let ghost before = entry_views(out@);
        proof {
            assert(kv.take(i + 1).drop_last() =~= kv.take(i as int));
            assert(kv.take(i + 1).last() == kept@[i as int]@);
            assert forall|m: int| 0 <= m < j implies !(#[trigger] by_tier_index()(
                kept@[i as int]@,
                before[m],
            )) by {
                assert(before[m] == out@[m]@);
            }
            if j < out.len() {
                assert(before[j as int] == out@[j as int]@);
            }
            lemma_insert_sorted_at(before, kept@[i as int]@, by_tier_index(), j as int);
        }
        out.insert(j, kept[i].duplicate());
        assert(entry_views(out@) =~= before.insert(j as int, kept@[i as int]@));
        i = i + 1;
    }
    assert(kv.take(kept.len() as int) =~= kv);
    out
}

/// The address of the placeholder stream that carries the update time.
pub const DUMMY_URL: &'static str = "http://127.0.0.1/";

/// The lines joined by '\n'.
pub open spec fn join_lines(ls: Seq<Seq<char>>) -> Seq<char>
    decreases ls.len(),
{
    if ls.len() == 0 {
        Seq::empty()
    } else if ls.len() == 1 {
        ls[0]
    } else {
        join_lines(ls.drop_last()) + "\n"@ + ls.last()
    }
}

/// The lines joined by '\n'.
pub fn join(lines: &Vec<String>) -> (r: String)
    ensures
        r@ == join_lines(string_views(lines@)),
{
    let ghost lv = string_views(lines@);
    let mut r = String::new();
    let mut i: usize = 0;
    assert(lv.take(0) =~= Seq::<Seq<char>>::empty());
    while i < lines.len()
        invariant
            i <= lines.len(),
            lv == string_views(lines@),
            r@ == join_lines(lv.take(i as int)),
        decreases lines.len() - i,
    {
        assert(lv.take(i + 1).drop_last() =~= lv.take(i as int));
        assert(lv.take(i + 1).last() == lines@[i as int]@);
        if i != 0 {
            r.append("\n");
        } else {
            assert(lv.take(1) =~= seq![lines@[0]@]);
        }
        r.append(lines[i].as_str());
        i = i + 1;
    }
    assert(lv.take(lines.len() as int) =~= lv);
    r
}

/// The name of the placeholder entry that shows when the playlists were made.
pub open spec fn update_stamp(ts: Seq<char>) -> Seq<char> {
    "更新时间: "@ + ts
}

/// The M3U8 entries of the channels `ns`, channel after channel.
pub open spec fn contents_of(ns: Seq<Seq<char>>, es: Seq<EntryView>) -> Seq<Seq<char>>
    decreases ns.len(),
{
    if ns.len() == 0 {
        Seq::empty()
    } else {
        contents_of(ns.drop_last(), es) + channel_entries(es, ns.last()).map_values(
            |e: EntryView| e.content,
        )
    }
}

/// The lines of the M3U8 playlist: the header with the guide URL, the update
/// time, the entries of every channel in playlist order, and the placeholder
/// entry that carries the update time.
pub open spec fn m3u8_lines(es: Seq<EntryView>, ts: Seq<char>) -> Seq<Seq<char>> {
    seq!["#EXTM3U x-tvg-url=\""@ + EPG_URL@ + "\""@, "#EXT-X-UPDATED: "@ + ts] + contents_of(
        channel_order(es),
        es,
    ) + seq!["#EXTINF:-1 group-title=\"更新时间\","@ + update_stamp(ts) + "\n"@ + DUMMY_URL@]
}

/// The nine (group, tier) sections of the TXT playlist, in order.
pub open spec fn tier_groups() -> Seq<(Seq<char>, SpeedTier)> {
    seq![
        ("央视"@, SpeedTier::High),
        ("央视"@, SpeedTier::Normal),
        ("央视"@, SpeedTier::Low),
        ("卫视"@, SpeedTier::High),
        ("卫视"@, SpeedTier::Normal),
        ("卫视"@, SpeedTier::Low),
        ("其他"@, SpeedTier::High),
        ("其他"@, SpeedTier::Normal),
        ("其他"@, SpeedTier::Low),
    ]
}

fn tier_group_list() -> (v: Vec<(&'static str, SpeedTier)>)
    ensures
        v@.map_values(|p: (&'static str, SpeedTier)| (p.0@, p.1)) == tier_groups(),
{
    let v = vec![
        ("央视", SpeedTier::High),
        ("央视", SpeedTier::Normal),
        ("央视", SpeedTier::Low),
        ("卫视", SpeedTier::High),
        ("卫视", SpeedTier::Normal),
        ("卫视", SpeedTier::Low),
        ("其他", SpeedTier::High),
        ("其他", SpeedTier::Normal),
        ("其他", SpeedTier::Low),
    ];
    assert(v@.map_values(|p: (&'static str, SpeedTier)| (p.0@, p.1)) =~= tier_groups());
    v
}

/// The "name,url" lines of the entries in group `g` and tier `t`.
pub open spec fn entry_lines(cs: Seq<EntryView>, g: Seq<char>, t: SpeedTier) -> Seq<Seq<char>>
    decreases cs.len(),
{
    if cs.len() == 0 {
        Seq::empty()
    } else {
        entry_lines(cs.drop_last(), g, t) + if base_group_of(cs.last().name) == g
            && cs.last().tier == t {
            seq![cs.last().name + ","@ + cs.last().url]
        } else {
            Seq::empty()
        }
    }
}

/// The "name,url" lines of group `g` and tier `t`, channel after channel.
pub open spec fn group_lines(ns: Seq<Seq<char>>, es: Seq<EntryView>, g: Seq<char>, t: SpeedTier) -> Seq<
    Seq<char>,
>
    decreases ns.len(),
{
    if ns.len() == 0 {
        Seq::empty()
    } else {
        group_lines(ns.drop_last(), es, g, t) + entry_lines(channel_entries(es, ns.last()), g, t)
    }
}

/// A section of the TXT playlist: nothing when it has no lines, else the
/// "<group>（<tier>）,#genre#" line, the lines, and an empty line.
pub open spec fn txt_section(g: Seq<char>, t: SpeedTier, lines: Seq<Seq<char>>) -> Seq<Seq<char>> {
    if lines.len() == 0 {
        Seq::empty()
    } else {
        seq![g + "（"@ + tier_label_of(t) + "）,#genre#"@] + lines + seq![Seq::empty()]
    }
}

/// The sections for the (group, tier) pairs `gs`, in order.
pub open spec fn txt_sections(gs: Seq<(Seq<char>, SpeedTier)>, ns: Seq<Seq<char>>, es: Seq<EntryView>) -> Seq<
    Seq<char>,
>
    decreases gs.len(),
{
    if gs.len() == 0 {
        Seq::empty()
    } else {
        txt_sections(gs.drop_last(), ns, es) + txt_section(
            gs.last().0,
            gs.last().1,
            group_lines(ns, es, gs.last().0, gs.last().1),
        )
    }
}

/// The lines of the TXT playlist: the sections in their fixed order, then
/// the update-time section.
pub open spec fn txt_lines(es: Seq<EntryView>, ts: Seq<char>) -> Seq<Seq<char>> {
    txt_sections(tier_groups(), channel_order(es), es) + seq![
        "更新时间,#genre#"@,
        update_stamp(ts) + ","@ + DUMMY_URL@,
    ]
}

/// The M3U8 playlist text.
pub open spec fn m3u8_of(es: Seq<EntryView>, ts: Seq<char>) -> Seq<char> {
    join_lines(m3u8_lines(es, ts))
}

/// The TXT playlist text.
pub open spec fn txt_of(es: Seq<EntryView>, ts: Seq<char>) -> Seq<char> {
    join_lines(txt_lines(es, ts))
}

/// The channels in playlist order, each with its listed entries.
fn channel_table(entries: &Vec<Entry>) -> (r: (Vec<String>, Vec<Vec<Entry>>))
    ensures
        string_views(r.0@) == channel_order(entry_views(entries@)),
        r.1.len() == r.0.len(),
        forall|k: int|
            0 <= k < r.1.len() ==> entry_views(#[trigger] r.1@[k]@) == channel_entries(
                entry_views(entries@),
                r.0@[k]@,
            ),
{
    let names = distinct_channel_names(entries);
    let order = sort_channels(&names);
    let mut chans: Vec<Vec<Entry>> = Vec::new();
    let mut k: usize = 0;
    while k < order.len()
        invariant
            k <= order.len(),
            chans.len() == k,
            forall|m: int|
                0 <= m < k ==> entry_views(#[trigger] chans@[m]@) == channel_entries(
                    entry_views(entries@),
                    order@[m]@,
                ),
        decreases order.len() - k,
    {
        chans.push(entries_of_channel(entries, &order[k]));
        k = k + 1;
    }
    (order, chans)
}

/// The M3U8 lines for the channel table.
fn m3u8_line_list(
    order: &Vec<String>,
    chans: &Vec<Vec<Entry>>,
    ts: &str,
    Ghost(es): Ghost<Seq<EntryView>>,
) -> (r: Vec<String>)
    requires
        string_views(order@) == channel_order(es),
        chans.len() == order.len(),
        forall|k: int|
            0 <= k < chans.len() ==> entry_views(#[trigger] chans@[k]@) == channel_entries(
                es,
                order@[k]@,
            ),
    ensures
        string_views(r@) == m3u8_lines(es, ts@),
{
    let ghost ov = string_views(order@);
    let mut lines: Vec<String> = Vec::new();
    let mut h1 = String::new();
    h1.append("#EXTM3U x-tvg-url=\"");
    h1.append(EPG_URL);
    h1.append("\"");
    lines.push(h1);
    let mut h2 = String::new();
    h2.append("#EXT-X-UPDATED: ");
    h2.append(ts);
    lines.push(h2);
    let ghost head = string_views(lines@);
    let mut k: usize = 0;
    assert(ov.take(0) =~= Seq::<Seq<char>>::empty());
    assert(string_views(lines@) =~= head + contents_of(ov.take(0), es));
    while k < order.len()
        invariant
            k <= order.len(),
            chans.len() == order.len(),
            ov == string_views(order@),
            forall|m: int|
                0 <= m < chans.len() ==> entry_views(#[trigger] chans@[m]@) == channel_entries(
                    es,
                    order@[m]@,
                ),
            string_views(lines@) == head + contents_of(ov.take(k as int), es),
        decreases order.len() - k,
    {
        let chan = &chans[k];
        let ghost cv = entry_views(chan@).map_values(|e: EntryView| e.content);
        let ghost start = string_views(lines@);
        let mut m: usize = 0;
        assert(cv.take(0) =~= Seq::<Seq<char>>::empty());
        assert(start =~= start + cv.take(0));
        while m < chan.len()
            invariant
                m <= chan.len(),
                cv == entry_views(chan@).map_values(|e: EntryView| e.content),
                string_views(lines@) == start + cv.take(m as int),
            decreases chan.len() - m,
        {
            let ghost before = string_views(lines@);
            lines.push(chan[m].content.clone());
            assert(cv.take(m + 1) =~= cv.take(m as int).push(chan@[m as int].content@));
            assert(string_views(lines@) =~= before.push(chan@[m as int].content@));
            m = m + 1;
        }
        proof {
            assert(cv.take(chan.len() as int) =~= cv);
            assert(ov.take(k + 1).drop_last() =~= ov.take(k as int));
            assert(ov.take(k + 1).last() == order@[k as int]@);
            assert(head + contents_of(ov.take(k + 1), es) =~= head + contents_of(ov.take(k as int), es)
                + cv);
        }
        k = k + 1;
    }
    assert(ov.take(order.len() as int) =~= ov);
    let ghost body = string_views(lines@);
    let mut tail = String::new();
    tail.append("#EXTINF:-1 group-title=\"更新时间\",");
    tail.append("更新时间: ");
    tail.append(ts);
    tail.append("\n");
    tail.append(DUMMY_URL);
    assert(tail@ =~= "#EXTINF:-1 group-title=\"更新时间\","@ + update_stamp(ts@) + "\n"@ + DUMMY_URL@);
    assert(head =~= seq!["#EXTM3U x-tvg-url=\""@ + EPG_URL@ + "\""@, "#EXT-X-UPDATED: "@ + ts@]);
    let ghost tv = tail@;
    lines.push(tail);
    assert(string_views(lines@) =~= body.push(tv));
    assert(string_views(lines@) =~= m3u8_lines(es, ts@));
    lines
}

/// The "name,url" lines of group `g` and tier `tier` for the channel table.
fn group_line_list(
    order: &Vec<String>,
    chans: &Vec<Vec<Entry>>,
    g: &str,
    tier: SpeedTier,
    Ghost(es): Ghost<Seq<EntryView>>,
) -> (r: Vec<String>)
    requires
        chans.len() == order.len(),
        forall|k: int|
            0 <= k < chans.len() ==> entry_views(#[trigger] chans@[k]@) == channel_entries(
                es,
                order@[k]@,
            ),
    ensures
        string_views(r@) == group_lines(string_views(order@), es, g@, tier),
{
    let ghost ov = string_views(order@);
    let mut lines: Vec<String> = Vec::new();
    let mut k: usize = 0;
    assert(ov.take(0) =~= Seq::<Seq<char>>::empty());
    while k < order.len()
        invariant
            k <= order.len(),
            chans.len() == order.len(),
            ov == string_views(order@),
            forall|m: int|
                0 <= m < chans.len() ==> entry_views(#[trigger] chans@[m]@) == channel_entries(
                    es,
                    order@[m]@,
                ),
            string_views(lines@) == group_lines(ov.take(k as int), es, g@, tier),
        decreases order.len() - k,
    {
        let chan = &chans[k];
        let ghost cv = entry_views(chan@);
        let ghost start = string_views(lines@);
        let mut m: usize = 0;
        assert(cv.take(0) =~= Seq::<EntryView>::empty());
        assert(start =~= start + entry_lines(cv.take(0), g@, tier));
        while m < chan.len()
            invariant
                m <= chan.len(),
                cv == entry_views(chan@),
                string_views(lines@) == start + entry_lines(cv.take(m as int), g@, tier),
            decreases chan.len() - m,
        {
            let e = &chan[m];
            let ghost before = string_views(lines@);
            assert(cv.take(m + 1).drop_last() =~= cv.take(m as int));
            assert(cv.take(m + 1).last() == e@);
            if str_eq(base_group(e.name.as_str()), g) && e.tier == tier {
                let mut line = String::new();
                line.append(e.name.as_str());
                line.append(",");
                line.append(e.url.as_str());
                let ghost lv = line@;
                lines.push(line);
                assert(string_views(lines@) =~= before.push(lv));
                assert(entry_lines(cv.take(m + 1), g@, tier) =~= entry_lines(cv.take(m as int), g@, tier).push(lv));
                assert(string_views(lines@) =~= start + entry_lines(cv.take(m + 1), g@, tier));
            } else {
                assert(string_views(lines@) =~= start + entry_lines(cv.take(m + 1), g@, tier));
            }
            m = m + 1;
        }
        proof {
            assert(cv.take(chan.len() as int) =~= cv);
            assert(ov.take(k + 1).drop_last() =~= ov.take(k as int));
            assert(ov.take(k + 1).last() == order@[k as int]@);
        }
        k = k + 1;
    }
    assert(ov.take(order.len() as int) =~= ov);
    lines
}

/// The TXT lines for the channel table.
fn txt_line_list(
    order: &Vec<String>,
    chans: &Vec<Vec<Entry>>,
    ts: &str,
    Ghost(es): Ghost<Seq<EntryView>>,
) -> (r: Vec<String>)
    requires
        string_views(order@) == channel_order(es),
        chans.len() == order.len(),
        forall|k: int|
            0 <= k < chans.len() ==> entry_views(#[trigger] chans@[k]@) == channel_entries(
                es,
                order@[k]@,
            ),
    ensures
        string_views(r@) == txt_lines(es, ts@),
{
    let ghost ov = string_views(order@);
    let groups = tier_group_list();
    let ghost gv = groups@.map_values(|p: (&'static str, SpeedTier)| (p.0@, p.1));
    let mut lines: Vec<String> = Vec::new();
    let mut i: usize = 0;
    assert(gv.take(0) =~= Seq::<(Seq<char>, SpeedTier)>::empty());
    while i < groups.len()
        invariant
            i <= groups.len(),
            gv == groups@.map_values(|p: (&'static str, SpeedTier)| (p.0@, p.1)),
            gv == tier_groups(),
            ov == string_views(order@),
            chans.len() == order.len(),
            forall|m: int|
                0 <= m < chans.len() ==> entry_views(#[trigger] chans@[m]@) == channel_entries(
                    es,
                    order@[m]@,
                ),
            string_views(lines@) == txt_sections(gv.take(i as int), ov, es),
        decreases groups.len() - i,
    {
        let (g, tier) = groups[i];
        let gl = group_line_list(order, chans, g, tier, Ghost(es));
        let ghost before = string_views(lines@);
        assert(gv.take(i + 1).drop_last() =~= gv.take(i as int));
        assert(gv.take(i + 1).last() == (g@, tier));
        if gl.len() > 0 {
            let mut label = String::new();
            label.append(g);
            label.append("（");
            label.append(tier_label(tier));
            label.append("）,#genre#");
            lines.push(label);
            let ghost with_label = string_views(lines@);
            let mut m: usize = 0;
            assert(string_views(gl@).take(0) =~= Seq::<Seq<char>>::empty());
            while m < gl.len()
                invariant
                    m <= gl.len(),
                    string_views(lines@) == with_label + string_views(gl@).take(m as int),
                decreases gl.len() - m,
            {
                let ghost b = string_views(lines@);
                lines.push(gl[m].clone());
                assert(string_views(gl@).take(m + 1) =~= string_views(gl@).take(m as int).push(
                    gl@[m as int]@,
                ));
                assert(string_views(lines@) =~= b.push(gl@[m as int]@));
                m = m + 1;
            }
            assert(string_views(gl@).take(gl.len() as int) =~= string_views(gl@));
            let ghost b = string_views(lines@);
            lines.push(String::new());
            assert(string_views(lines@) =~= b.push(Seq::empty()));
            assert(string_views(lines@) =~= txt_sections(gv.take(i + 1), ov, es));
        } else {
            assert(string_views(lines@) =~= txt_sections(gv.take(i + 1), ov, es));
        }
        i = i + 1;
    }
    assert(gv.take(groups.len() as int) =~= gv);
    let ghost body = string_views(lines@);
    lines.push(String::from_str("更新时间,#genre#"));
    let mut last = String::new();
    last.append("更新时间: ");
    last.append(ts);
    last.append(",");
    last.append(DUMMY_URL);
    let ghost lv = last@;
    lines.push(last);
    assert(lv =~= update_stamp(ts@) + ","@ + DUMMY_URL@);
    assert(string_views(lines@) =~= txt_lines(es, ts@));
    lines
}

/// Builds the M3U8 and TXT playlists from the measured entries and the
/// update time stamp.
pub fn build_playlists(entries: &Vec<Entry>, ts: &str) -> (r: (String, String))
    ensures
        r.0@ == m3u8_of(entry_views(entries@), ts@),
        r.1@ == txt_of(entry_views(entries@), ts@),
{
    let ghost es = entry_views(entries@);
    let (order, chans) = channel_table(entries);
    let m3u8_lines = m3u8_line_list(&order, &chans, ts, Ghost(es));
    let txt_lines = txt_line_list(&order, &chans, ts, Ghost(es));
    (join(&m3u8_lines), join(&txt_lines))
}

/// The section of the TXT playlist for group `g` and tier `t`.
pub open spec fn txt_section_for(es: Seq<EntryView>, g: Seq<char>, t: SpeedTier) -> Seq<Seq<char>> {
    txt_section(g, t, group_lines(channel_order(es), es, g, t))
}

/// The TXT playlist has its sections in this order: 央视, then 卫视, then
/// 其他, each with its high-speed, normal and low-speed sections in turn;
/// then the update-time section.
pub proof fn lemma_txt_section_order(es: Seq<EntryView>, ts: Seq<char>)
    ensures
        txt_lines(es, ts) == txt_section_for(es, "央视"@, SpeedTier::High) + txt_section_for(
            es,
            "央视"@,
            SpeedTier::Normal,
        ) + txt_section_for(es, "央视"@, SpeedTier::Low) + txt_section_for(
            es,
            "卫视"@,
            SpeedTier::High,
        ) + txt_section_for(es, "卫视"@, SpeedTier::Normal) + txt_section_for(
            es,
            "卫视"@,
            SpeedTier::Low,
        ) + txt_section_for(es, "其他"@, SpeedTier::High) + txt_section_for(
            es,
            "其他"@,
            SpeedTier::Normal,
        ) + txt_section_for(es, "其他"@, SpeedTier::Low) + seq![
            "更新时间,#genre#"@,
            update_stamp(ts) + ","@ + DUMMY_URL@,
        ],
{
    let gs = tier_groups();
    let o = channel_order(es);
    assert(gs.take(1).drop_last() =~= gs.take(0));
    assert(gs.take(2).drop_last() =~= gs.take(1));
    assert(gs.take(3).drop_last() =~= gs.take(2));
    assert(gs.take(4).drop_last() =~= gs.take(3));
    assert(gs.take(5).drop_last() =~= gs.take(4));
    assert(gs.take(6).drop_last() =~= gs.take(5));
    assert(gs.take(7).drop_last() =~= gs.take(6));
    assert(gs.take(8).drop_last() =~= gs.take(7));
    assert(gs.drop_last() =~= gs.take(8));
    assert(txt_sections(gs.take(0), o, es) == Seq::<Seq<char>>::empty());
    assert(txt_sections(gs.take(1), o, es) =~= txt_section_for(es, "央视"@, SpeedTier::High));
    assert(txt_sections(gs.take(2), o, es) == txt_sections(gs.take(1), o, es) + txt_section_for(
        es,
        "央视"@,
        SpeedTier::Normal,
    ));
    assert(txt_sections(gs.take(3), o, es) == txt_sections(gs.take(2), o, es) + txt_section_for(
        es,
        "央视"@,
        SpeedTier::Low,
    ));
    assert(txt_sections(gs.take(4), o, es) == txt_sections(gs.take(3), o, es) + txt_section_for(
        es,
        "卫视"@,
        SpeedTier::High,
    ));
    assert(txt_sections(gs.take(5), o, es) == txt_sections(gs.take(4), o, es) + txt_section_for(
        es,
        "卫视"@,
        SpeedTier::Normal,
    ));
    assert(txt_sections(gs.take(6), o, es) == txt_sections(gs.take(5), o, es) + txt_section_for(
        es,
        "卫视"@,
        SpeedTier::Low,
    ));
    assert(txt_sections(gs.take(7), o, es) == txt_sections(gs.take(6), o, es) + txt_section_for(
        es,
        "其他"@,
        SpeedTier::High,
    ));
    assert(txt_sections(gs.take(8), o, es) == txt_sections(gs.take(7), o, es) + txt_section_for(
        es,
        "其他"@,
        SpeedTier::Normal,
    ));
    assert(txt_sections(gs, o, es) == txt_sections(gs.take(8), o, es) + txt_section_for(
        es,
        "其他"@,
        SpeedTier::Low,
    ));
}

/// The rank of a channel group in the TXT playlist: 央视 first, then 卫视,
/// then the rest.
pub open spec fn group_rank(g: Seq<char>) -> int {
    if g == "央视"@ {
        0
    } else if g == "卫视"@ {
        1
    } else {
        2
    }
}

/// The (group, tier) sections of the TXT playlist cover the three groups in
/// all three tiers, and come in increasing (group rank, tier rank) order.
pub proof fn lemma_tier_groups_ranked()
    ensures
        tier_groups().len() == 9,
        forall|g: Seq<char>, t: SpeedTier|
            (g == "央视"@ || g == "卫视"@ || g == "其他"@) ==> #[trigger] tier_groups().contains(
                (g, t),
            ),
        forall|i: int, j: int|
            #![trigger tier_groups()[i], tier_groups()[j]]
            0 <= i < j < 9 ==> group_rank(tier_groups()[i].0) < group_rank(tier_groups()[j].0) || (
            group_rank(tier_groups()[i].0) == group_rank(tier_groups()[j].0) && tier_rank(
                tier_groups()[i].1,
            ) < tier_rank(tier_groups()[j].1)),
{
    reveal_strlit("央视");
    reveal_strlit("卫视");
    reveal_strlit("其他");
    lemma_tier_ranks();
    assert("央视"@[0] != "卫视"@[0]);
    assert("央视"@[0] != "其他"@[0]);
    assert("卫视"@[0] != "其他"@[0]);
    let gs = tier_groups();
    assert(group_rank(gs[0].0) == 0 && group_rank(gs[1].0) == 0 && group_rank(gs[2].0) == 0);
    assert(group_rank(gs[3].0) == 1 && group_rank(gs[4].0) == 1 && group_rank(gs[5].0) == 1);
    assert(group_rank(gs[6].0) == 2 && group_rank(gs[7].0) == 2 && group_rank(gs[8].0) == 2);
    assert forall|g: Seq<char>, t: SpeedTier|
        (g == "央视"@ || g == "卫视"@ || g == "其他"@) implies #[trigger] gs.contains((g, t)) by {
        let base: int = if g == "央视"@ {
            0
        } else if g == "卫视"@ {
            3
        } else {
            6
        };
        let off: int = match t {
            SpeedTier::High => 0,
            SpeedTier::Normal => 1,
            SpeedTier::Low => 2,
        };
        assert(gs[base + off] == (g, t));
    }
}

/// `lt` is a strict partial order: irreflexive and transitive.
pub open spec fn strict_order<A>(lt: spec_fn(A, A) -> bool) -> bool {
    &&& forall|a: A| !#[trigger] lt(a, a)
    &&& forall|a: A, b: A, c: A| #[trigger] lt(a, b) && #[trigger] lt(b, c) ==> lt(a, c)
}

/// No element of `s` orders strictly before an earlier one.
pub open spec fn sorted_by<A>(s: Seq<A>, lt: spec_fn(A, A) -> bool) -> bool {
    forall|i: int, j: int| 0 <= i < j < s.len() ==> !lt(#[trigger] s[j], #[trigger] s[i])
}

proof fn lemma_insert_sorted<A>(s: Seq<A>, x: A, lt: spec_fn(A, A) -> bool)
    ensures
        insert_sorted(s, x, lt).len() == s.len() + 1,
        forall|y: A| #[trigger] insert_sorted(s, x, lt).contains(y) <==> (y == x || s.contains(y)),
        sorted_by(s, lt) && strict_order(lt) ==> sorted_by(insert_sorted(s, x, lt), lt),
        s.no_duplicates() && !s.contains(x) ==> insert_sorted(s, x, lt).no_duplicates(),
    decreases s.len(),
{
    let r = insert_sorted(s, x, lt);
    if s.len() == 0 {
        assert forall|y: A| #[trigger] r.contains(y) <==> (y == x || s.contains(y)) by {
            if r.contains(y) {
                assert(r[0] == x);
            }
            if y == x {
                assert(r[0] == x);
            }
        }
    } else if lt(x, s[0]) {
        assert forall|k: int| 0 <= k < s.len() implies #[trigger] r[k + 1] == s[k] by {}
        assert forall|y: A| #[trigger] r.contains(y) <==> (y == x || s.contains(y)) by {
            if r.contains(y) {
                let k = choose|k: int| 0 <= k < r.len() && r[k] == y;
                if k > 0 {
                    assert(s[k - 1] == y);
                }
            }
            if y == x {
                assert(r[0] == y);
            }
            if s.contains(y) {
                let k = choose|k: int| 0 <= k < s.len() && s[k] == y;
                assert(r[k + 1] == y);
            }
        }
        if sorted_by(s, lt) && strict_order(lt) {
            assert forall|i: int, j: int| 0 <= i < j < r.len() implies !lt(
                #[trigger] r[j],
                #[trigger] r[i],
            ) by {
                if i == 0 {
                    if lt(r[j], r[i]) {
                        assert(lt(s[j - 1], x));
                        assert(lt(s[j - 1], s[0]));
                        if j - 1 == 0 {
                            assert(!lt(s[0], s[0]));
                        } else {
                            assert(!lt(s[j - 1], s[0]));
                        }
                    }
                } else {
                    assert(r[i] == s[i - 1] && r[j] == s[j - 1]);
                }
            }
        }
        if s.no_duplicates() && !s.contains(x) {
            assert forall|i: int, j: int| 0 <= i < r.len() && 0 <= j < r.len() && i != j implies r[i]
                != r[j] by {
                if i == 0 && j > 0 {
                    assert(r[j] == s[j - 1]);
                } else if j == 0 && i > 0 {
                    assert(r[i] == s[i - 1]);
                } else if i > 0 && j > 0 {
                    assert(r[i] == s[i - 1] && r[j] == s[j - 1]);
                }
            }
        }
    } else {
        let t = s.skip(1);
        let rt = insert_sorted(t, x, lt);
        lemma_insert_sorted(t, x, lt);
        assert(r == seq![s[0]] + rt);
        assert forall|k: int| 0 <= k < rt.len() implies #[trigger] r[k + 1] == rt[k] by {}
        assert forall|k: int| 0 <= k < t.len() implies #[trigger] t[k] == s[k + 1] by {}
        assert forall|y: A| #[trigger] r.contains(y) <==> (y == x || s.contains(y)) by {
            if r.contains(y) {
                let k = choose|k: int| 0 <= k < r.len() && r[k] == y;
                if k > 0 {
                    assert(rt.contains(y));
                    if t.contains(y) {
                        let m = choose|m: int| 0 <= m < t.len() && t[m] == y;
                        assert(s[m + 1] == y);
                    }
                } else {
                    assert(s[0] == y);
                }
            }
            if y == x {
                assert(rt.contains(y));
                let k = choose|k: int| 0 <= k < rt.len() && rt[k] == y;
                assert(r[k + 1] == y);
            }
            if s.contains(y) {
                let k = choose|k: int| 0 <= k < s.len() && s[k] == y;
                if k == 0 {
                    assert(r[0] == y);
                } else {
                    assert(t[k - 1] == y);
                    assert(rt.contains(y));
                    let m = choose|m: int| 0 <= m < rt.len() && rt[m] == y;
                    assert(r[m + 1] == y);
                }
            }
        }
        if sorted_by(s, lt) && strict_order(lt) {
            assert(sorted_by(t, lt)) by {
                assert forall|i: int, j: int| 0 <= i < j < t.len() implies !lt(
                    #[trigger] t[j],
                    #[trigger] t[i],
                ) by {
                    assert(t[i] == s[i + 1] && t[j] == s[j + 1]);
                }
            }
            assert forall|i: int, j: int| 0 <= i < j < r.len() implies !lt(
                #[trigger] r[j],
                #[trigger] r[i],
            ) by {
                if i == 0 {
                    let y = r[j];
                    assert(y == rt[j - 1]);
                    assert(rt.contains(y));
                    if y != x {
                        assert(t.contains(y));
                        let m = choose|m: int| 0 <= m < t.len() && t[m] == y;
                        assert(s[m + 1] == y);
                        assert(!lt(s[m + 1], s[0]));
                    }
                } else {
                    assert(r[i] == rt[i - 1] && r[j] == rt[j - 1]);
                }
            }
        }
        if s.no_duplicates() && !s.contains(x) {
            assert(t.no_duplicates()) by {
                assert forall|i: int, j: int| 0 <= i < t.len() && 0 <= j < t.len() && i != j implies t[i]
                    != t[j] by {
                    assert(t[i] == s[i + 1] && t[j] == s[j + 1]);
                }
            }
            assert(!t.contains(x)) by {
                if t.contains(x) {
                    let m = choose|m: int| 0 <= m < t.len() && t[m] == x;
                    assert(s[m + 1] == x);
                }
            }
            assert forall|i: int, j: int| 0 <= i < r.len() && 0 <= j < r.len() && i != j implies r[i]
                != r[j] by {
                if i == 0 || j == 0 {
                    let k = if i == 0 {
                        j
                    } else {
                        i
                    };
                    let y = r[k];
                    assert(y == rt[k - 1]);
                    assert(rt.contains(y));
                    if y == s[0] {
                        if y == x {
                            assert(s.contains(x));
                        } else {
                            assert(t.contains(y));
                            let m = choose|m: int| 0 <= m < t.len() && t[m] == y;
                            assert(s[m + 1] == s[0]);
                        }
                    }
                } else {
                    assert(r[i] == rt[i - 1] && r[j] == rt[j - 1]);
                }
            }
        }
    }
}

/// Insertion sort keeps the elements, sorts by a strict partial order, and
/// adds no duplicates.
pub proof fn lemma_insertion_sorted<A>(s: Seq<A>, lt: spec_fn(A, A) -> bool)
    ensures
        insertion_sorted(s, lt).len() == s.len(),
        forall|y: A| #[trigger] insertion_sorted(s, lt).contains(y) <==> s.contains(y),
        strict_order(lt) ==> sorted_by(insertion_sorted(s, lt), lt),
        s.no_duplicates() ==> insertion_sorted(s, lt).no_duplicates(),
    decreases s.len(),
{
    if s.len() > 0 {
        let p = s.drop_last();
        lemma_insertion_sorted(p, lt);
        lemma_insert_sorted(insertion_sorted(p, lt), s.last(), lt);
        assert forall|y: A| #[trigger] insertion_sorted(s, lt).contains(y) <==> s.contains(y) by {
            if s.contains(y) {
                let k = choose|k: int| 0 <= k < s.len() && s[k] == y;
                if k < s.len() - 1 {
                    assert(p[k] == y);
                }
            }
            if p.contains(y) {
                let k = choose|k: int| 0 <= k < p.len() && p[k] == y;
                assert(s[k] == y);
            }
        }
        if s.no_duplicates() {
            assert(p.no_duplicates()) by {
                assert forall|i: int, j: int| 0 <= i < p.len() && 0 <= j < p.len() && i != j implies p[i]
                    != p[j] by {
                    assert(p[i] == s[i] && p[j] == s[j]);
                }
            }
            assert(!p.contains(s.last())) by {
                if p.contains(s.last()) {
                    let k = choose|k: int| 0 <= k < p.len() && p[k] == s.last();
                    assert(s[k] == s[s.len() - 1]);
                }
            }
        }
    }
}

/// Some entry of `es` belongs to channel `n`.
pub open spec fn has_channel(es: Seq<EntryView>, n: Seq<char>) -> bool {
    exists|i: int| 0 <= i < es.len() && #[trigger] es[i].name == n
}

proof fn lemma_distinct_names(es: Seq<EntryView>)
    ensures
        distinct_names(es).no_duplicates(),
        forall|n: Seq<char>| #[trigger] distinct_names(es).contains(n) <==> has_channel(es, n),
    decreases es.len(),
{
    if es.len() > 0 {
        let p = distinct_names(es.drop_last());
        lemma_distinct_names(es.drop_last());
        let x = es.last().name;
        assert forall|n: Seq<char>| #[trigger] distinct_names(es).contains(n) <==> has_channel(es, n) by {
            if has_channel(es, n) {
                let i = choose|i: int| 0 <= i < es.len() && es[i].name == n;
                if i < es.len() - 1 {
                    assert(es.drop_last()[i].name == n);
                    assert(has_channel(es.drop_last(), n));
                }
            }
            if has_channel(es.drop_last(), n) {
                let i = choose|i: int| 0 <= i < es.len() - 1 && es.drop_last()[i].name == n;
                assert(es[i].name == n);
            }
            if !p.contains(x) {
                if p.push(x).contains(n) {
                    let k = choose|k: int| 0 <= k < p.len() + 1 && p.push(x)[k] == n;
                    if k < p.len() {
                        assert(p[k] == n);
                    }
                }
                if p.contains(n) {
                    let k = choose|k: int| 0 <= k < p.len() && p[k] == n;
                    assert(p.push(x)[k] == n);
                }
                if n == x {
                    assert(p.push(x)[p.len() as int] == n);
                }
            }
        }
        if !p.contains(x) {
            assert forall|i: int, j: int|
                0 <= i < p.len() + 1 && 0 <= j < p.len() + 1 && i != j implies p.push(x)[i] != p.push(
                x,
            )[j] by {
                if i < p.len() && j < p.len() {
                    assert(p.push(x)[i] == p[i] && p.push(x)[j] == p[j]);
                } else if i < p.len() {
                    assert(p.push(x)[i] == p[i]);
                } else {
                    assert(p.push(x)[j] == p[j]);
                }
            }
        }
    }
}

/// The channel order lists every channel of the entries exactly once,
/// sorted by key; in particular the CCTV channels come first, the satellite
/// channels next, and the other channels last.
pub proof fn lemma_channel_order(es: Seq<EntryView>)
    ensures
        channel_order(es).no_duplicates(),
        forall|n: Seq<char>| #[trigger] channel_order(es).contains(n) <==> has_channel(es, n),
        forall|i: int, j: int|
            0 <= i < j < channel_order(es).len() ==> !name_lt(
                #[trigger] channel_order(es)[j],
                #[trigger] channel_order(es)[i],
            ),
        forall|i: int, j: int|
            0 <= i < j < channel_order(es).len() ==> sort_key_of(#[trigger] channel_order(es)[i]).0
                <= sort_key_of(#[trigger] channel_order(es)[j]).0,
{
    lemma_distinct_names(es);
    let lt = by_channel_key();
    assert(strict_order(lt)) by {
        assert forall|a: Seq<char>| !#[trigger] lt(a, a) by {
            lemma_key_lt_irreflexive(sort_key_of(a));
        }
        assert forall|a: Seq<char>, b: Seq<char>, c: Seq<char>| #[trigger] lt(a, b) && #[trigger] lt(
            b,
            c,
        ) implies lt(a, c) by {
            lemma_key_lt_transitive(sort_key_of(a), sort_key_of(b), sort_key_of(c));
        }
    }
    lemma_insertion_sorted(distinct_names(es), lt);
    let o = channel_order(es);
    assert forall|i: int, j: int| 0 <= i < j < o.len() implies !name_lt(
        #[trigger] o[j],
        #[trigger] o[i],
    ) by {
        assert(!lt(o[j], o[i]));
    }
}

proof fn lemma_entries_named(es: Seq<EntryView>, n: Seq<char>)
    ensures
        forall|k: int|
            0 <= k < entries_named(es, n).len() ==> (#[trigger] entries_named(es, n)[k]).name == n
                && es.contains(entries_named(es, n)[k]),
        forall|i: int|
            0 <= i < es.len() && #[trigger] es[i].name == n ==> entries_named(es, n).contains(es[i]),
    decreases es.len(),
{
    if es.len() > 0 {
        let p = entries_named(es.drop_last(), n);
        lemma_entries_named(es.drop_last(), n);
        let r = entries_named(es, n);
        assert forall|k: int| 0 <= k < r.len() implies (#[trigger] r[k]).name == n && es.contains(
            r[k],
        ) by {
            if k < p.len() {
                assert(r[k] == p[k]);
                let m = choose|m: int| 0 <= m < es.len() - 1 && es.drop_last()[m] == p[k];
                assert(es[m] == p[k]);
            } else {
                assert(r[k] == es.last());
                assert(es[es.len() - 1] == r[k]);
            }
        }
        assert forall|i: int| 0 <= i < es.len() && #[trigger] es[i].name == n implies r.contains(
            es[i],
        ) by {
            if i < es.len() - 1 {
                assert(es.drop_last()[i] == es[i]);
                let m = choose|m: int| 0 <= m < p.len() && p[m] == es[i];
                assert(r[m] == es[i]);
            } else {
                assert(r[r.len() - 1] == es[i]);
            }
        }
    }
}

/// No two entries share a stream URL.
pub open spec fn urls_distinct(es: Seq<EntryView>) -> bool {
    forall|i: int, j: int| 0 <= i < j < es.len() ==> (#[trigger] es[i]).url != (#[trigger] es[j]).url
}

proof fn lemma_dedup_urls(es: Seq<EntryView>)
    ensures
        urls_distinct(dedup_urls(es)),
        forall|k: int|
            0 <= k < dedup_urls(es).len() ==> es.contains(#[trigger] dedup_urls(es)[k]),
        forall|i: int| 0 <= i < es.len() ==> has_url(dedup_urls(es), #[trigger] es[i].url),
    decreases es.len(),
{
    if es.len() > 0 {
        let p = dedup_urls(es.drop_last());
        lemma_dedup_urls(es.drop_last());
        let r = dedup_urls(es);
        let x = es.last();
        assert forall|k: int| 0 <= k < r.len() implies es.contains(#[trigger] r[k]) by {
            if k < p.len() {
                assert(r[k] == p[k]);
                let m = choose|m: int| 0 <= m < es.len() - 1 && es.drop_last()[m] == p[k];
                assert(es[m] == p[k]);
            } else {
                assert(es[es.len() - 1] == r[k]);
            }
        }
        assert forall|i: int| 0 <= i < es.len() implies has_url(r, #[trigger] es[i].url) by {
            if i < es.len() - 1 {
                assert(es.drop_last()[i] == es[i]);
                assert(has_url(p, es[i].url));
                let m = choose|m: int| 0 <= m < p.len() && p[m].url == es[i].url;
                assert(r[m] == p[m]);
            } else if has_url(p, x.url) {
                let m = choose|m: int| 0 <= m < p.len() && p[m].url == x.url;
                assert(r[m] == p[m]);
            } else {
                assert(r[r.len() - 1] == x);
            }
        }
        if !has_url(p, x.url) {
            assert forall|i: int, j: int| 0 <= i < j < r.len() implies (#[trigger] r[i]).url != (
            #[trigger] r[j]).url by {
                if j < p.len() {
                    assert(r[i] == p[i] && r[j] == p[j]);
                } else {
                    assert(r[i] == p[i]);
                }
            }
        }
    }
}

/// The listed entries of a channel: all belong to the channel and come from
/// the input, no two share a stream URL, every stream URL of the channel is
/// listed, and they are sorted by tier and then index.
pub proof fn lemma_channel_entries(es: Seq<EntryView>, n: Seq<char>)
    ensures
        forall|k: int|
            0 <= k < channel_entries(es, n).len() ==> (#[trigger] channel_entries(es, n)[k]).name
                == n && es.contains(channel_entries(es, n)[k]),
        urls_distinct(channel_entries(es, n)),
        forall|i: int|
            0 <= i < es.len() && #[trigger] es[i].name == n ==> has_url(
                channel_entries(es, n),
                es[i].url,
            ),
        forall|i: int, j: int|
            0 <= i < j < channel_entries(es, n).len() ==> !entry_lt(
                #[trigger] channel_entries(es, n)[j],
                #[trigger] channel_entries(es, n)[i],
            ),
{
    let named = entries_named(es, n);
    let d = dedup_urls(named);
    let c = channel_entries(es, n);
    let lt = by_tier_index();
    lemma_entries_named(es, n);
    lemma_dedup_urls(named);
    assert(d.no_duplicates()) by {
        assert forall|i: int, j: int| 0 <= i < d.len() && 0 <= j < d.len() && i != j implies d[i]
            != d[j] by {
            if i < j {
                assert(d[i].url != d[j].url);
            } else {
                assert(d[j].url != d[i].url);
            }
        }
    }
    assert(strict_order(lt));
    lemma_insertion_sorted(d, lt);
    assert forall|k: int| 0 <= k < c.len() implies (#[trigger] c[k]).name == n && es.contains(c[k]) by {
        assert(c.contains(c[k]));
        assert(d.contains(c[k]));
        let m = choose|m: int| 0 <= m < d.len() && d[m] == c[k];
        assert(named.contains(d[m]));
        let q = choose|q: int| 0 <= q < named.len() && named[q] == d[m];
        assert(named[q].name == n);
    }
    assert forall|i: int, j: int| 0 <= i < j < c.len() implies (#[trigger] c[i]).url != (
    #[trigger] c[j]).url by {
        assert(c.contains(c[i]) && c.contains(c[j]));
        let a = choose|a: int| 0 <= a < d.len() && d[a] == c[i];
        let b = choose|b: int| 0 <= b < d.len() && d[b] == c[j];
        assert(c[i] != c[j]);
        if a < b {
            assert(d[a].url != d[b].url);
        } else if b < a {
            assert(d[b].url != d[a].url);
        }
    }
    assert forall|i: int| 0 <= i < es.len() && #[trigger] es[i].name == n implies has_url(
        c,
        es[i].url,
    ) by {
        assert(named.contains(es[i]));
        let q = choose|q: int| 0 <= q < named.len() && named[q] == es[i];
        assert(has_url(d, named[q].url));
        let m = choose|m: int| 0 <= m < d.len() && d[m].url == named[q].url;
        assert(d.contains(d[m]));
        assert(c.contains(d[m]));
        let k = choose|k: int| 0 <= k < c.len() && c[k] == d[m];
        assert(c[k].url == es[i].url);
    }
    assert forall|i: int, j: int| 0 <= i < j < c.len() implies !entry_lt(
        #[trigger] c[j],
        #[trigger] c[i],
    ) by {
        assert(!lt(c[j], c[i]));
    }
}

proof fn lemma_contents_of_contains(ns: Seq<Seq<char>>, es: Seq<EntryView>, p: int, m: int)
    requires
        0 <= p < ns.len(),
        0 <= m < channel_entries(es, ns[p]).len(),
    ensures
        contents_of(ns, es).contains(channel_entries(es, ns[p])[m].content),
    decreases ns.len(),
{
    let chunk = channel_entries(es, ns.last()).map_values(|e: EntryView| e.content);
    let x = channel_entries(es, ns[p])[m].content;
    if p == ns.len() - 1 {
        assert(chunk[m] == x);
        assert(chunk.contains(x));
    } else {
        assert(ns.drop_last()[p] == ns[p]);
        lemma_contents_of_contains(ns.drop_last(), es, p, m);
    }
    lemma_concat_contains(contents_of(ns.drop_last(), es), chunk, x);
}

/// Every stream of the input is listed in the M3U8 playlist: for each
/// entry, the M3U8 holds the content of an entry of the same channel with
/// the same stream URL (the first one of that URL).
pub proof fn lemma_m3u8_lists_every_stream(es: Seq<EntryView>, ts: Seq<char>, i: int)
    requires
        0 <= i < es.len(),
    ensures
        exists|k: int|
            0 <= k < es.len() && es[k].name == es[i].name && es[k].url == es[i].url
                && m3u8_lines(es, ts).contains(#[trigger] es[k].content),
{
    let n = es[i].name;
    let o = channel_order(es);
    lemma_channel_order(es);
    assert(has_channel(es, n));
    assert(o.contains(n));
    let p = choose|p: int| 0 <= p < o.len() && o[p] == n;
    let c = channel_entries(es, n);
    lemma_channel_entries(es, n);
    assert(has_url(c, es[i].url));
    let m = choose|m: int| 0 <= m < c.len() && c[m].url == es[i].url;
    assert(es.contains(c[m]));
    let k = choose|k: int| 0 <= k < es.len() && es[k] == c[m];
    lemma_contents_of_contains(o, es, p, m);
    let head = seq!["#EXTM3U x-tvg-url=\""@ + EPG_URL@ + "\""@, "#EXT-X-UPDATED: "@ + ts];
    let tail = seq!["#EXTINF:-1 group-title=\"更新时间\","@ + update_stamp(ts) + "\n"@ + DUMMY_URL@];
    lemma_concat_contains(head, contents_of(o, es), c[m].content);
    lemma_concat_contains(head + contents_of(o, es), tail, c[m].content);
    assert(m3u8_lines(es, ts).contains(es[k].content));
}

proof fn lemma_entry_lines_contains(cs: Seq<EntryView>, g: Seq<char>, t: SpeedTier, m: int)
    requires
        0 <= m < cs.len(),
        base_group_of(cs[m].name) == g,
        cs[m].tier == t,
    ensures
        entry_lines(cs, g, t).contains(cs[m].name + ","@ + cs[m].url),
    decreases cs.len(),
{
    let x = cs[m].name + ","@ + cs[m].url;
    let last = cs.last();
    let piece = if base_group_of(last.name) == g && last.tier == t {
        seq![last.name + ","@ + last.url]
    } else {
        Seq::empty()
    };
    if m == cs.len() - 1 {
        assert(piece[0] == x);
        assert(piece.contains(x));
    } else {
        assert(cs.drop_last()[m] == cs[m]);
        lemma_entry_lines_contains(cs.drop_last(), g, t, m);
    }
    lemma_concat_contains(entry_lines(cs.drop_last(), g, t), piece, x);
}

proof fn lemma_group_lines_contains(
    ns: Seq<Seq<char>>,
    es: Seq<EntryView>,
    g: Seq<char>,
    t: SpeedTier,
    p: int,
    x: Seq<char>,
)
    requires
        0 <= p < ns.len(),
        entry_lines(channel_entries(es, ns[p]), g, t).contains(x),
    ensures
        group_lines(ns, es, g, t).contains(x),
    decreases ns.len(),
{
    if p < ns.len() - 1 {
        assert(ns.drop_last()[p] == ns[p]);
        lemma_group_lines_contains(ns.drop_last(), es, g, t, p, x);
    }
    lemma_concat_contains(
        group_lines(ns.drop_last(), es, g, t),
        entry_lines(channel_entries(es, ns.last()), g, t),
        x,
    );
}

proof fn lemma_txt_sections_contains(
    gs: Seq<(Seq<char>, SpeedTier)>,
    ns: Seq<Seq<char>>,
    es: Seq<EntryView>,
    q: int,
    x: Seq<char>,
)
    requires
        0 <= q < gs.len(),
        group_lines(ns, es, gs[q].0, gs[q].1).contains(x),
    ensures
        txt_sections(gs, ns, es).contains(x),
    decreases gs.len(),
{
    let last = gs.last();
    let lines = group_lines(ns, es, last.0, last.1);
    let sec = txt_section(last.0, last.1, lines);
    if q == gs.len() - 1 {
        let label = seq![last.0 + "（"@ + tier_label_of(last.1) + "）,#genre#"@];
        lemma_concat_contains(label, lines, x);
        lemma_concat_contains(label + lines, seq![Seq::<char>::empty()], x);
    } else {
        assert(gs.drop_last()[q] == gs[q]);
        lemma_txt_sections_contains(gs.drop_last(), ns, es, q, x);
    }
    lemma_concat_contains(txt_sections(gs.drop_last(), ns, es), sec, x);
}

/// Every stream of the input is listed in the TXT playlist: for each entry,
/// the TXT holds the line "<channel>,<stream URL>".
pub proof fn lemma_txt_lists_every_stream(es: Seq<EntryView>, ts: Seq<char>, i: int)
    requires
        0 <= i < es.len(),
    ensures
        txt_lines(es, ts).contains(es[i].name + ","@ + es[i].url),
{
    let n = es[i].name;
    let o = channel_order(es);
    lemma_channel_order(es);
    assert(has_channel(es, n));
    assert(o.contains(n));
    let p = choose|p: int| 0 <= p < o.len() && o[p] == n;
    let c = channel_entries(es, n);
    lemma_channel_entries(es, n);
    assert(has_url(c, es[i].url));
    let m = choose|m: int| 0 <= m < c.len() && c[m].url == es[i].url;
    let g = base_group_of(n);
    let t = c[m].tier;
    let x = es[i].name + ","@ + es[i].url;
    assert(c[m].name == n);
    lemma_entry_lines_contains(c, g, t, m);
    assert(x == c[m].name + ","@ + c[m].url);
    lemma_group_lines_contains(o, es, g, t, p, x);
    let gs = tier_groups();
    let base: int = if g == "央视"@ {
        0
    } else if g == "卫视"@ {
        3
    } else {
        6
    };
    let off: int = match t {
        SpeedTier::High => 0,
        SpeedTier::Normal => 1,
        SpeedTier::Low => 2,
    };
    assert(gs[base + off] == (g, t));
    lemma_txt_sections_contains(gs, o, es, base + off, x);
    lemma_concat_contains(
        txt_sections(gs, o, es),
        seq!["更新时间,#genre#"@, update_stamp(ts) + ","@ + DUMMY_URL@],
        x,
    );
}

/// `lt` is a strict weak order: a strict partial order in which, when `a`
/// orders before `c`, any `b` orders after `a` or before `c`.
pub open spec fn strict_weak_order<A>(lt: spec_fn(A, A) -> bool) -> bool {
    &&& strict_order(lt)
    &&& forall|a: A, b: A, c: A|
        #![trigger lt(a, c), lt(a, b)]
        #![trigger lt(a, c), lt(b, c)]
        lt(a, c) ==> lt(a, b) || lt(b, c)
}

/// Where `insert_sorted` puts `x`, as an index.
proof fn lemma_insert_position<A>(s: Seq<A>, x: A, lt: spec_fn(A, A) -> bool) -> (j: int)
    ensures
        0 <= j <= s.len(),
        forall|k: int| 0 <= k < j ==> !lt(x, #[trigger] s[k]),
        j < s.len() ==> lt(x, s[j]),
    decreases s.len(),
{
    if s.len() == 0 {
        0
    } else if lt(x, s[0]) {
        0
    } else {
        let j = lemma_insert_position(s.skip(1), x, lt);
        assert forall|k: int| 0 <= k < j + 1 implies !lt(x, #[trigger] s[k]) by {
            if k > 0 {
                assert(s[k] == s.skip(1)[k - 1]);
            }
        }
        if j + 1 < s.len() {
            assert(s[j + 1] == s.skip(1)[j]);
        }
        j + 1
    }
}

/// Insertion sort is stable: two elements that neither orders before the
/// other keep the order they had.
pub proof fn lemma_insertion_sorted_stable<A>(s: Seq<A>, lt: spec_fn(A, A) -> bool)
    requires
        s.no_duplicates(),
        strict_weak_order(lt),
    ensures
        forall|i: int, j: int|
            0 <= i < j < insertion_sorted(s, lt).len() && !lt(
                #[trigger] insertion_sorted(s, lt)[i],
                #[trigger] insertion_sorted(s, lt)[j],
            ) && !lt(insertion_sorted(s, lt)[j], insertion_sorted(s, lt)[i]) ==> exists|a: int, b: int|
                0 <= a < b < s.len() && s[a] == insertion_sorted(s, lt)[i] && s[b]
                    == insertion_sorted(s, lt)[j],
    decreases s.len(),
{
    if s.len() > 0 {
        let p = s.drop_last();
        let x = s.last();
        assert(p.no_duplicates()) by {
            assert forall|i: int, j: int| 0 <= i < p.len() && 0 <= j < p.len() && i != j implies p[i]
                != p[j] by {
                assert(p[i] == s[i] && p[j] == s[j]);
            }
        }
        lemma_insertion_sorted_stable(p, lt);
        let r0 = insertion_sorted(p, lt);
        lemma_insertion_sorted(p, lt);
        let pos = lemma_insert_position(r0, x, lt);
        lemma_insert_sorted_at(r0, x, lt, pos);
        let r = insertion_sorted(s, lt);
        assert(r == r0.insert(pos, x));
        assert forall|i: int, j: int|
            0 <= i < j < r.len() && !lt(#[trigger] r[i], #[trigger] r[j]) && !lt(
                r[j],
                r[i],
            ) implies exists|a: int, b: int| 0 <= a < b < s.len() && s[a] == r[i] && s[b] == r[j] by {
            if i == pos {
                // `x` ties with an element after it: impossible in a sorted list.
                let z = r[j];
                assert(z == r0[j - 1]);
                assert(lt(x, r0[pos]));
                if j - 1 == pos {
                } else {
                    assert(lt(x, z) || lt(z, r0[pos]));
                    assert(!lt(r0[j - 1], r0[pos]));
                }
            } else if j == pos {
                let y = r[i];
                assert(y == r0[i]);
                assert(r0.contains(y));
                assert(p.contains(y));
                let a = choose|a: int| 0 <= a < p.len() && p[a] == y;
                assert(s[a] == y);
                assert(s[s.len() - 1] == x);
            } else {
                let ii = if i < pos {
                    i
                } else {
                    i - 1
                };
                let jj = if j < pos {
                    j
                } else {
                    j - 1
                };
                assert(r[i] == r0[ii]);
                assert(r[j] == r0[jj]);
                assert(ii < jj);
                let (a, b) = choose|a: int, b: int|
                    0 <= a < b < p.len() && p[a] == r0[ii] && p[b] == r0[jj];
                assert(s[a] == p[a] && s[b] == p[b]);
            }
        }
    }
}

/// `x` is the first entry of `es` with its channel name and stream URL.
pub open spec fn is_first_entry(es: Seq<EntryView>, x: EntryView) -> bool {
    exists|i: int|
        0 <= i < es.len() && #[trigger] es[i] == x && forall|j: int|
            0 <= j < i ==> !(#[trigger] es[j].name == x.name && es[j].url == x.url)
}

/// The kept entries of a channel, before sorting, are first entries of their
/// (name, URL) pair, in input order.
proof fn lemma_dedup_named_first(es: Seq<EntryView>, n: Seq<char>)
    ensures
        forall|k: int|
            0 <= k < dedup_urls(entries_named(es, n)).len() ==> (#[trigger] dedup_urls(
                entries_named(es, n),
            )[k]).name == n && is_first_entry(es, dedup_urls(entries_named(es, n))[k]),
        forall|a: int, b: int|
            0 <= a < b < dedup_urls(entries_named(es, n)).len() ==> exists|p: int, q: int|
                0 <= p < q < es.len() && es[p] == #[trigger] dedup_urls(entries_named(es, n))[a]
                    && es[q] == #[trigger] dedup_urls(entries_named(es, n))[b],
    decreases es.len(),
{
    if es.len() > 0 {
        let e0 = es.drop_last();
        let x = es.last();
        lemma_dedup_named_first(e0, n);
        let named0 = entries_named(e0, n);
        let d0 = dedup_urls(named0);
        let named = entries_named(es, n);
        let d = dedup_urls(named);
        // Facts about `d0` carry over to `es`.
        assert forall|k: int| 0 <= k < d0.len() implies is_first_entry(es, #[trigger] d0[k]) by {
            let i = choose|i: int|
                0 <= i < e0.len() && #[trigger] e0[i] == d0[k] && forall|j: int|
                    0 <= j < i ==> !(#[trigger] e0[j].name == d0[k].name && e0[j].url == d0[k].url);
            assert(es[i] == d0[k]);
            assert forall|j: int| 0 <= j < i implies !(#[trigger] es[j].name == d0[k].name
                && es[j].url == d0[k].url) by {
                assert(es[j] == e0[j]);
            }
        }
        assert forall|a: int, b: int| 0 <= a < b < d0.len() implies exists|p: int, q: int|
            0 <= p < q < es.len() && es[p] == #[trigger] d0[a] && es[q] == #[trigger] d0[b] by {
            let (p, q) = choose|p: int, q: int|
                0 <= p < q < e0.len() && e0[p] == d0[a] && e0[q] == d0[b];
            assert(es[p] == e0[p] && es[q] == e0[q]);
        }
        if x.name != n {
            assert(named == named0);
        } else {
            assert(named == named0.push(x));
            assert(named.drop_last() =~= named0);
            if !has_url(d0, x.url) {
                assert(d == d0.push(x));
                lemma_entries_named(e0, n);
                lemma_dedup_urls(named0);
                assert(is_first_entry(es, x)) by {
                    let i = es.len() - 1;
                    assert(es[i] == x);
                    assert forall|j: int| 0 <= j < i implies !(#[trigger] es[j].name == x.name
                        && es[j].url == x.url) by {
                        if es[j].name == x.name && es[j].url == x.url {
                            assert(e0[j] == es[j]);
                            assert(named0.contains(e0[j]));
                            let q = choose|q: int| 0 <= q < named0.len() && named0[q] == e0[j];
                            assert(has_url(d0, named0[q].url));
                        }
                    }
                }
                assert forall|a: int, b: int| 0 <= a < b < d.len() implies exists|p: int, q: int|
                    0 <= p < q < es.len() && es[p] == #[trigger] d[a] && es[q] == #[trigger] d[b] by {
                    if b < d0.len() {
                        assert(d[a] == d0[a] && d[b] == d0[b]);
                    } else {
                        assert(d[a] == d0[a]);
                        assert(d[b] == x);
                        let k = a;
                        let i = choose|i: int|
                            0 <= i < e0.len() && #[trigger] e0[i] == d0[k] && forall|j: int|
                                0 <= j < i ==> !(#[trigger] e0[j].name == d0[k].name && e0[j].url
                                    == d0[k].url);
                        assert(es[i] == d0[k]);
                        assert(es[es.len() - 1] == x);
                    }
                }
                assert forall|k: int| 0 <= k < d.len() implies (#[trigger] d[k]).name == n
                    && is_first_entry(es, d[k]) by {
                    if k < d0.len() {
                        assert(d[k] == d0[k]);
                    }
                }
            } else {
                assert(d == d0);
            }
        }
    }
}


proof fn lemma_dedup_named_no_dup(es: Seq<EntryView>, n: Seq<char>)
    ensures
        dedup_urls(entries_named(es, n)).no_duplicates(),
{
    let d = dedup_urls(entries_named(es, n));
    lemma_dedup_urls(entries_named(es, n));
    assert forall|i: int, j: int| 0 <= i < d.len() && 0 <= j < d.len() && i != j implies d[i]
        != d[j] by {
        if i < j {
            assert(d[i].url != d[j].url);
        } else {
            assert(d[j].url != d[i].url);
        }
    }
}

/// Two first entries of the same (name, URL) pair are the same entry.
proof fn lemma_first_entry_unique(es: Seq<EntryView>, x: EntryView, y: EntryView)
    requires
        is_first_entry(es, x),
        is_first_entry(es, y),
        x.name == y.name,
        x.url == y.url,
    ensures
        x == y,
{
    let i = choose|i: int|
        0 <= i < es.len() && #[trigger] es[i] == x && forall|j: int|
            0 <= j < i ==> !(#[trigger] es[j].name == x.name && es[j].url == x.url);
    let i2 = choose|i2: int|
        0 <= i2 < es.len() && #[trigger] es[i2] == y && forall|j: int|
            0 <= j < i2 ==> !(#[trigger] es[j].name == y.name && es[j].url == y.url);
    if i < i2 {
        assert(!(es[i].name == y.name && es[i].url == y.url));
    } else if i2 < i {
        assert(!(es[i2].name == x.name && es[i2].url == x.url));
    }
}

proof fn lemma_first_entry_kept(es: Seq<EntryView>, n: Seq<char>, x: EntryView)
    requires
        x.name == n,
        is_first_entry(es, x),
    ensures
        dedup_urls(entries_named(es, n)).contains(x),
{
    let named = entries_named(es, n);
    let d = dedup_urls(named);
    let i = choose|i: int|
        0 <= i < es.len() && #[trigger] es[i] == x && forall|j: int|
            0 <= j < i ==> !(#[trigger] es[j].name == x.name && es[j].url == x.url);
    assert(named.contains(es[i])) by {
        lemma_entries_named(es, n);
    }
    let q = choose|q: int| 0 <= q < named.len() && named[q] == es[i];
    assert(has_url(d, named[q].url)) by {
        lemma_dedup_urls(named);
    }
    let m = choose|m: int| 0 <= m < d.len() && d[m].url == named[q].url;
    assert(d[m].name == n && is_first_entry(es, d[m])) by {
        lemma_dedup_named_first(es, n);
    }
    lemma_first_entry_unique(es, x, d[m]);
}

proof fn lemma_dedup_named_members(es: Seq<EntryView>, n: Seq<char>, x: EntryView)
    ensures
        dedup_urls(entries_named(es, n)).contains(x) <==> (x.name == n && is_first_entry(es, x)),
{
    let d = dedup_urls(entries_named(es, n));
    if d.contains(x) {
        lemma_dedup_named_first(es, n);
        let k = choose|k: int| 0 <= k < d.len() && d[k] == x;
        assert(d[k].name == n && is_first_entry(es, d[k]));
    }
    if x.name == n && is_first_entry(es, x) {
        lemma_first_entry_kept(es, n, x);
    }
}

proof fn lemma_entry_order_weak()
    ensures
        strict_weak_order(by_tier_index()),
{
}

/// The listed entries of a channel are exactly the first entries of each of
/// the channel's (name, URL) pairs, each once.
pub proof fn lemma_channel_entries_first(es: Seq<EntryView>, n: Seq<char>)
    ensures
        channel_entries(es, n).no_duplicates(),
        forall|x: EntryView| #[trigger]
            channel_entries(es, n).contains(x) <==> (x.name == n && is_first_entry(es, x)),
{
    let d = dedup_urls(entries_named(es, n));
    lemma_dedup_named_no_dup(es, n);
    lemma_insertion_sorted(d, by_tier_index());
    assert forall|x: EntryView| #[trigger] channel_entries(es, n).contains(x) <==> (x.name == n
        && is_first_entry(es, x)) by {
        lemma_dedup_named_members(es, n, x);
    }
}

/// Entries of a channel that tie in tier and index keep their input order.
pub proof fn lemma_channel_entries_stable(es: Seq<EntryView>, n: Seq<char>)
    ensures
        forall|i: int, j: int|
            0 <= i < j < channel_entries(es, n).len() && !entry_lt(
                #[trigger] channel_entries(es, n)[i],
                #[trigger] channel_entries(es, n)[j],
            ) && !entry_lt(channel_entries(es, n)[j], channel_entries(es, n)[i])
                ==> exists|p: int, q: int|
                0 <= p < q < es.len() && es[p] == channel_entries(es, n)[i] && es[q]
                    == channel_entries(es, n)[j],
{
    let d = dedup_urls(entries_named(es, n));
    let c = channel_entries(es, n);
    let lt = by_tier_index();
    lemma_dedup_named_no_dup(es, n);
    lemma_dedup_named_first(es, n);
    lemma_entry_order_weak();
    lemma_insertion_sorted_stable(d, lt);
    assert forall|i: int, j: int|
        0 <= i < j < c.len() && !entry_lt(#[trigger] c[i], #[trigger] c[j]) && !entry_lt(
            c[j],
            c[i],
        ) implies exists|p: int, q: int| 0 <= p < q < es.len() && es[p] == c[i] && es[q] == c[j] by {
        assert(!lt(c[i], c[j]) && !lt(c[j], c[i]));
        let (a, b) = choose|a: int, b: int| 0 <= a < b < d.len() && d[a] == c[i] && d[b] == c[j];
        assert(exists|p: int, q: int| 0 <= p < q < es.len() && es[p] == d[a] && es[q] == d[b]);
    }
}

/// Channel `n2` first appears in `es` after some entry of channel `n1`.
pub open spec fn appears_before_first(es: Seq<EntryView>, n1: Seq<char>, n2: Seq<char>) -> bool {
    exists|p: int, q: int|
        0 <= p < q < es.len() && es[p].name == n1 && es[q].name == n2 && forall|r: int|
            0 <= r < q ==> #[trigger] es[r].name != n2
}

#[verifier::rlimit(60)]
proof fn lemma_distinct_names_order(es: Seq<EntryView>)
    ensures
        forall|a: int, b: int|
            0 <= a < b < distinct_names(es).len() ==> appears_before_first(
                es,
                #[trigger] distinct_names(es)[a],
                #[trigger] distinct_names(es)[b],
            ),
    decreases es.len(),
{
    if es.len() > 0 {
        let e0 = es.drop_last();
        let dn0 = distinct_names(e0);
        let dn = distinct_names(es);
        let x = es.last().name;
        lemma_distinct_names_order(e0);
        lemma_distinct_names(e0);
        assert forall|a: int, b: int| 0 <= a < b < dn.len() implies appears_before_first(
            es,
            #[trigger] dn[a],
            #[trigger] dn[b],
        ) by {
            if b < dn0.len() {
                assert(dn[a] == dn0[a] && dn[b] == dn0[b]);
                assert(appears_before_first(e0, dn0[a], dn0[b]));
                let (p, q) = choose|p: int, q: int|
                    0 <= p < q < e0.len() && e0[p].name == dn0[a] && e0[q].name == dn0[b]
                        && forall|r: int| 0 <= r < q ==> #[trigger] e0[r].name != dn0[b];
                assert(es[p] == e0[p] && es[q] == e0[q]);
                assert forall|r: int| 0 <= r < q implies #[trigger] es[r].name != dn[b] by {
                    assert(es[r] == e0[r]);
                }
            } else {
                assert(!dn0.contains(x));
                assert(dn == dn0.push(x));
                assert(dn[b] == x);
                assert(dn[a] == dn0[a]);
                assert(dn0.contains(dn0[a]));
                assert(has_channel(e0, dn0[a]));
                let p = choose|p: int| 0 <= p < e0.len() && #[trigger] e0[p].name == dn0[a];
                let q = es.len() - 1;
                assert(es[p] == e0[p]);
                assert forall|r: int| 0 <= r < q implies #[trigger] es[r].name != x by {
                    if es[r].name == x {
                        assert(e0[r] == es[r]);
                        assert(has_channel(e0, x));
                    }
                }
            }
        }
    }
}

proof fn lemma_channel_order_weak()
    ensures
        strict_weak_order(by_channel_key()),
{
    let lt = by_channel_key();
    assert forall|a: Seq<char>| !#[trigger] lt(a, a) by {
        lemma_key_lt_irreflexive(sort_key_of(a));
    }
    assert forall|a: Seq<char>, b: Seq<char>, c: Seq<char>| #[trigger] lt(a, b) && #[trigger] lt(
        b,
        c,
    ) implies lt(a, c) by {
        lemma_key_lt_transitive(sort_key_of(a), sort_key_of(b), sort_key_of(c));
    }
    assert forall|a: Seq<char>, b: Seq<char>, c: Seq<char>|
        #![trigger lt(a, c), lt(a, b)]
        #![trigger lt(a, c), lt(b, c)]
        lt(a, c) implies lt(a, b) || lt(b, c) by {
        lemma_key_lt_negative_transitive(sort_key_of(a), sort_key_of(b), sort_key_of(c));
    }
}

/// Channels with equal sort keys keep the order in which they first appear:
/// the later one first appears after an entry of the earlier one.
pub proof fn lemma_channel_order_stable(es: Seq<EntryView>)
    ensures
        forall|i: int, j: int|
            0 <= i < j < channel_order(es).len() && !name_lt(
                #[trigger] channel_order(es)[i],
                #[trigger] channel_order(es)[j],
            ) && !name_lt(channel_order(es)[j], channel_order(es)[i]) ==> appears_before_first(
                es,
                channel_order(es)[i],
                channel_order(es)[j],
            ),
{
    let dn = distinct_names(es);
    let o = channel_order(es);
    let lt = by_channel_key();
    lemma_distinct_names(es);
    lemma_distinct_names_order(es);
    lemma_channel_order_weak();
    lemma_insertion_sorted_stable(dn, lt);
    assert forall|i: int, j: int|
        0 <= i < j < o.len() && !name_lt(#[trigger] o[i], #[trigger] o[j]) && !name_lt(
            o[j],
            o[i],
        ) implies appears_before_first(es, o[i], o[j]) by {
        assert(!lt(o[i], o[j]) && !lt(o[j], o[i]));
        let (a, b) = choose|a: int, b: int| 0 <= a < b < dn.len() && dn[a] == o[i] && dn[b] == o[j];
        assert(appears_before_first(es, dn[a], dn[b]));
    }
}

/// The listed entries of the channels `ns`, channel after channel.
pub open spec fn listed_entries(ns: Seq<Seq<char>>, es: Seq<EntryView>) -> Seq<EntryView>
    decreases ns.len(),
{
    if ns.len() == 0 {
        Seq::empty()
    } else {
        listed_entries(ns.drop_last(), es) + channel_entries(es, ns.last())
    }
}

proof fn lemma_contents_are_listed(ns: Seq<Seq<char>>, es: Seq<EntryView>)
    ensures
        contents_of(ns, es) == listed_entries(ns, es).map_values(|e: EntryView| e.content),
    decreases ns.len(),
{
    if ns.len() > 0 {
        lemma_contents_are_listed(ns.drop_last(), es);
        let a = listed_entries(ns.drop_last(), es);
        let b = channel_entries(es, ns.last());
        assert((a + b).map_values(|e: EntryView| e.content) =~= a.map_values(|e: EntryView| e.content)
            + b.map_values(|e: EntryView| e.content));
    }
}

proof fn lemma_listed_contains(ns: Seq<Seq<char>>, es: Seq<EntryView>, x: EntryView)
    ensures
        listed_entries(ns, es).contains(x) <==> exists|p: int|
            0 <= p < ns.len() && #[trigger] channel_entries(es, ns[p]).contains(x),
    decreases ns.len(),
{
    if ns.len() > 0 {
        let n0 = ns.drop_last();
        lemma_listed_contains(n0, es, x);
        lemma_concat_contains(listed_entries(n0, es), channel_entries(es, ns.last()), x);
        if exists|p: int| 0 <= p < ns.len() && #[trigger] channel_entries(es, ns[p]).contains(x) {
            let p = choose|p: int| 0 <= p < ns.len() && #[trigger] channel_entries(es, ns[p]).contains(x);
            if p < ns.len() - 1 {
                assert(n0[p] == ns[p]);
            }
        }
        if exists|p: int| 0 <= p < n0.len() && #[trigger] channel_entries(es, n0[p]).contains(x) {
            let p = choose|p: int| 0 <= p < n0.len() && #[trigger] channel_entries(es, n0[p]).contains(x);
            assert(n0[p] == ns[p]);
        }
    }
}

proof fn lemma_listed_no_dup(ns: Seq<Seq<char>>, es: Seq<EntryView>)
    requires
        ns.no_duplicates(),
    ensures
        listed_entries(ns, es).no_duplicates(),
    decreases ns.len(),
{
    if ns.len() > 0 {
        let n0 = ns.drop_last();
        assert(n0.no_duplicates()) by {
            assert forall|i: int, j: int| 0 <= i < n0.len() && 0 <= j < n0.len() && i != j implies n0[i]
                != n0[j] by {
                assert(n0[i] == ns[i] && n0[j] == ns[j]);
            }
        }
        lemma_listed_no_dup(n0, es);
        let a = listed_entries(n0, es);
        let b = channel_entries(es, ns.last());
        lemma_channel_entries_first(es, ns.last());
        assert forall|i: int, j: int| 0 <= i < a.len() && 0 <= j < b.len() implies a[i] != b[j] by {
            assert(a.contains(a[i]));
            lemma_listed_contains(n0, es, a[i]);
            let p = choose|p: int| 0 <= p < n0.len() && #[trigger] channel_entries(es, n0[p]).contains(
                a[i],
            );
            lemma_channel_entries_first(es, n0[p]);
            assert(b.contains(b[j]));
            assert(a[i].name == n0[p]);
            assert(b[j].name == ns.last());
            assert(n0[p] == ns[p]);
            assert(ns[p] != ns[ns.len() - 1]);
        }
        vstd::seq_lib::lemma_no_dup_in_concat(a, b);
    }
}

/// The M3U8 playlist lists exactly the first entry of each (channel, stream
/// URL) pair, each once: its body is the contents of `listed_entries`, which
/// holds no entry twice and holds an entry exactly when it is the first of
/// its pair in the input.
pub proof fn lemma_playlist_lists_first_entries(es: Seq<EntryView>)
    ensures
        contents_of(channel_order(es), es) == listed_entries(channel_order(es), es).map_values(
            |e: EntryView| e.content,
        ),
        listed_entries(channel_order(es), es).no_duplicates(),
        forall|x: EntryView| #[trigger]
            listed_entries(channel_order(es), es).contains(x) <==> is_first_entry(es, x),
{
    let o = channel_order(es);
    lemma_channel_order(es);
    lemma_contents_are_listed(o, es);
    lemma_listed_no_dup(o, es);
    assert forall|x: EntryView| #[trigger] listed_entries(o, es).contains(x) <==> is_first_entry(
        es,
        x,
    ) by {
        lemma_listed_contains(o, es, x);
        if listed_entries(o, es).contains(x) {
            let p = choose|p: int| 0 <= p < o.len() && #[trigger] channel_entries(es, o[p]).contains(x);
            lemma_channel_entries_first(es, o[p]);
        }
        if is_first_entry(es, x) {
            let i = choose|i: int|
                0 <= i < es.len() && #[trigger] es[i] == x && forall|j: int|
                    0 <= j < i ==> !(#[trigger] es[j].name == x.name && es[j].url == x.url);
            assert(has_channel(es, x.name));
            assert(o.contains(x.name));
            let p = choose|p: int| 0 <= p < o.len() && o[p] == x.name;
            lemma_channel_entries_first(es, o[p]);
            assert(channel_entries(es, o[p]).contains(x));
        }
    }
}

} // verus!
