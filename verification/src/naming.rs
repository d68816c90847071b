//! Channel-name cleaning and mapping to standard names.
use vstd::prelude::*;

use crate::text::{
    lemma_no_sub_of_short, lemma_replaced_absent, lemma_replaced_concat, lemma_replaced_prefix,
    chars_eq, chars_of, lemma_removed_single, lemma_replaced_contains, lemma_split_newlines_nonempty,
    lemma_without_char_concat,
    lines_of, occurs_at, has_sub, without_char, removed, replaced, split_newlines, str_eq, str_replace,
    string_of, strip_cr, to_uppercase, trim, trimmed_of, uppercase_of,
};

verus! {

/// The aliases of CCTV channels and the names they stand for.
pub open spec fn cctv_aliases() -> Seq<(Seq<char>, Seq<char>)> {
    seq![
        ("CCTV1综合"@, "CCTV1"@),
        ("CCTV2财经"@, "CCTV2"@),
        ("CCTV3综艺"@, "CCTV3"@),
        ("CCTV4国际"@, "CCTV4"@),
        ("CCTV4中文国际"@, "CCTV4"@),
        ("CCTV4欧洲"@, "CCTV4"@),
        ("CCTV5体育"@, "CCTV5"@),
        ("CCTV6电影"@, "CCTV6"@),
        ("CCTV7军事"@, "CCTV7"@),
        ("CCTV7军农"@, "CCTV7"@),
        ("CCTV7农业"@, "CCTV7"@),
        ("CCTV7国防军事"@, "CCTV7"@),
        ("CCTV8电视剧"@, "CCTV8"@),
        ("CCTV9记录"@, "CCTV9"@),
        ("CCTV9纪录"@, "CCTV9"@),
        ("CCTV10科教"@, "CCTV10"@),
        ("CCTV11戏曲"@, "CCTV11"@),
        ("CCTV12社会与法"@, "CCTV12"@),
        ("CCTV13新闻"@, "CCTV13"@),
        ("CCTV新闻"@, "CCTV13"@),
        ("CCTV14少儿"@, "CCTV14"@),
        ("CCTV15音乐"@, "CCTV15"@),
        ("CCTV16奥林匹克"@, "CCTV16"@),
        ("CCTV17农业农村"@, "CCTV17"@),
        ("CCTV17农业"@, "CCTV17"@),
        ("CCTV5+体育赛视"@, "CCTV5+"@),
        ("CCTV5+体育赛事"@, "CCTV5+"@),
        ("CCTV5+体育"@, "CCTV5+"@),
        ("CCTV01"@, "CCTV1"@),
        ("CCTV02"@, "CCTV2"@),
        ("CCTV03"@, "CCTV3"@),
        ("CCTV04"@, "CCTV4"@),
        ("CCTV05"@, "CCTV5"@),
        ("CCTV06"@, "CCTV6"@),
        ("CCTV07"@, "CCTV7"@),
        ("CCTV08"@, "CCTV8"@),
        ("CCTV09"@, "CCTV9"@),
    ]
}

/// The value of the last pair in `t` whose key is `k`, if any.
pub open spec fn lookup_last(t: Seq<(Seq<char>, Seq<char>)>, k: Seq<char>) -> Option<Seq<char>>
    decreases t.len(),
{
    if t.len() == 0 {
        None
    } else if t.last().0 == k {
        Some(t.last().1)
    } else {
        lookup_last(t.drop_last(), k)
    }
}

fn cctv_alias_table() -> (v: Vec<(&'static str, &'static str)>)
    ensures
        v@.map_values(|p: (&'static str, &'static str)| (p.0@, p.1@)) == cctv_aliases(),
{
    let v = vec![
        ("CCTV1综合", "CCTV1"),
        ("CCTV2财经", "CCTV2"),
        ("CCTV3综艺", "CCTV3"),
        ("CCTV4国际", "CCTV4"),
        ("CCTV4中文国际", "CCTV4"),
        ("CCTV4欧洲", "CCTV4"),
        ("CCTV5体育", "CCTV5"),
        ("CCTV6电影", "CCTV6"),
        ("CCTV7军事", "CCTV7"),
        ("CCTV7军农", "CCTV7"),
        ("CCTV7农业", "CCTV7"),
        ("CCTV7国防军事", "CCTV7"),
        ("CCTV8电视剧", "CCTV8"),
        ("CCTV9记录", "CCTV9"),
        ("CCTV9纪录", "CCTV9"),
        ("CCTV10科教", "CCTV10"),
        ("CCTV11戏曲", "CCTV11"),
        ("CCTV12社会与法", "CCTV12"),
        ("CCTV13新闻", "CCTV13"),
        ("CCTV新闻", "CCTV13"),
        ("CCTV14少儿", "CCTV14"),
        ("CCTV15音乐", "CCTV15"),
        ("CCTV16奥林匹克", "CCTV16"),
        ("CCTV17农业农村", "CCTV17"),
        ("CCTV17农业", "CCTV17"),
        ("CCTV5+体育赛视", "CCTV5+"),
        ("CCTV5+体育赛事", "CCTV5+"),
        ("CCTV5+体育", "CCTV5+"),
        ("CCTV01", "CCTV1"),
        ("CCTV02", "CCTV2"),
        ("CCTV03", "CCTV3"),
        ("CCTV04", "CCTV4"),
        ("CCTV05", "CCTV5"),
        ("CCTV06", "CCTV6"),
        ("CCTV07", "CCTV7"),
        ("CCTV08", "CCTV8"),
        ("CCTV09", "CCTV9"),
    ];
    assert(v@.map_values(|p: (&'static str, &'static str)| (p.0@, p.1@)) =~= cctv_aliases());
    v
}

/// A name with its CCTV alias resolved: the standard name when the name is a
/// known alias, else the name itself.
pub open spec fn alias_resolved(s: Seq<char>) -> Seq<char> {
    match lookup_last(cctv_aliases(), s) {
        Some(a) => a,
        None => s,
    }
}

/// Resolves a CCTV alias, such as "CCTV5体育" to "CCTV5"; other names are
/// returned unchanged.
pub fn resolve_alias(s: &str) -> (r: String)
    ensures
        r@ == alias_resolved(s@),
{
    let table = cctv_alias_table();
    let ghost t = table@.map_values(|p: (&'static str, &'static str)| (p.0@, p.1@));
    let mut found: Option<&'static str> = None;
    let mut i: usize = 0;
    assert(t.take(0) =~= Seq::<(Seq<char>, Seq<char>)>::empty());
    while i < table.len()
        invariant
            i <= table.len(),
            t == table@.map_values(|p: (&'static str, &'static str)| (p.0@, p.1@)),
            match found {
                Some(a) => lookup_last(t.take(i as int), s@) == Some(a@),
                None => lookup_last(t.take(i as int), s@) is None,
            },
        decreases table.len() - i,
    {
        let (k, v) = table[i];
        assert(t.take(i + 1).drop_last() =~= t.take(i as int));
        if str_eq(k, s) {
            found = Some(v);
        }
        i = i + 1;
    }
    assert(t.take(table.len() as int) =~= t);
    match found {
        Some(a) => String::from_str(a),
        None => String::from_str(s),
    }
}

/// What the regular expression `CCTV(\d+)台` with every match replaced by
/// `CCTV` and the captured digits gives for a string.
pub uninterp spec fn cctv_station_rewritten(s: Seq<char>) -> Seq<char>;

/// Calls `regex::Regex::replace_all` with the pattern `CCTV(\d+)台` and the
/// replacement `CCTV${1}`, turning "CCTV5台" into "CCTV5".  The contract
/// names the result: `\d` matches every Unicode decimal digit, a table-driven
/// class.  It also states two facts: a string without "台" has no match and
/// comes back unchanged; and every character of the result occurs in the
/// string, since each replacement is "CCTV" and the captured digits, both
/// taken from the match itself.
#[verifier::external_body]
fn rewrite_cctv_station(s: &str) -> (r: String)
    ensures
        r@ == cctv_station_rewritten(s@),
        !has_sub(s@, "台"@) ==> r@ == s@,
        forall|c: char| #[trigger] r@.contains(c) ==> s@.contains(c),
{
    regex::Regex::new(r"CCTV(\d+)台").unwrap().replace_all(s, "CCTV${1}").into_owned()
}

/// A channel name after the text replacements that precede the station
/// rewrite: lower-case "cctv", "中央" and "央视" become "CCTV"; the quality
/// and punctuation words "高清", "超高", "HD", "标清", "频道", "-", " ", "(" and
/// ")" are removed; "PLUS" and the full-width plus become "+".
pub open spec fn pre_cleaned_of(name: Seq<char>) -> Seq<char> {
    let s = replaced(name, "cctv"@, "CCTV"@);
    let s = replaced(s, "中央"@, "CCTV"@);
    let s = replaced(s, "央视"@, "CCTV"@);
    let s = removed(s, "高清"@);
    let s = removed(s, "超高"@);
    let s = removed(s, "HD"@);
    let s = removed(s, "标清"@);
    let s = removed(s, "频道"@);
    let s = removed(s, "-"@);
    let s = removed(s, " "@);
    let s = removed(s, "("@);
    let s = removed(s, ")"@);
    let s = replaced(s, "PLUS"@, "+"@);
    replaced(s, "＋"@, "+"@)
}

/// The cleaned form of a channel name.
pub open spec fn cleaned_name_of(name: Seq<char>) -> Seq<char> {
    alias_resolved(cctv_station_rewritten(pre_cleaned_of(name)))
}

/// Applies the text replacements that precede the station rewrite.
pub fn pre_clean(name: &str) -> (r: String)
    ensures
        r@ == pre_cleaned_of(name@),
{
    proof {
        reveal_strlit("cctv");
        reveal_strlit("中央");
        reveal_strlit("央视");
        reveal_strlit("高清");
        reveal_strlit("超高");
        reveal_strlit("HD");
        reveal_strlit("标清");
        reveal_strlit("频道");
        reveal_strlit("-");
        reveal_strlit(" ");
        reveal_strlit("(");
        reveal_strlit(")");
        reveal_strlit("PLUS");
        reveal_strlit("＋");
    }
    let s = str_replace(name, "cctv", "CCTV");
    let s = str_replace(s.as_str(), "中央", "CCTV");
    let s = str_replace(s.as_str(), "央视", "CCTV");
    let s = str_replace(s.as_str(), "高清", "");
    let s = str_replace(s.as_str(), "超高", "");
    let s = str_replace(s.as_str(), "HD", "");
    let s = str_replace(s.as_str(), "标清", "");
    let s = str_replace(s.as_str(), "频道", "");
    let s = str_replace(s.as_str(), "-", "");
    let s = str_replace(s.as_str(), " ", "");
    let s = str_replace(s.as_str(), "(", "");
    let s = str_replace(s.as_str(), ")", "");
    let s = str_replace(s.as_str(), "PLUS", "+");
    proof {
        reveal_strlit("");
        assert(""@ =~= Seq::<char>::empty());
    }
    str_replace(s.as_str(), "＋", "+")
}

/// Cleans a channel name: the text replacements, then "CCTV<digits>台"
/// rewritten to "CCTV<digits>", then a known CCTV alias mapped to its
/// standard name.  A name that no step touches comes back as it is ("北京台"
/// among them), and the result holds no '-', ' ', '(', ')' or '＋'.
pub fn clean_channel_name(name: &str) -> (r: String)
    ensures
        r@ == cleaned_name_of(name@),
        already_clean(name@) && cctv_station_rewritten(name@) == name@ ==> r@ == name@,
        already_clean(name@) && !has_sub(name@, "台"@) ==> r@ == name@,
        free_of_punctuation(r@),
{
    let s = pre_clean(name);
    let s2 = rewrite_cctv_station(s.as_str());
    let r = resolve_alias(s2.as_str());
    proof {
        if already_clean(name@) {
            lemma_pre_clean_keeps_clean_name(name@);
        }
        lemma_pre_cleaned_free_of_punctuation(name@);
        assert(free_of_punctuation(s2@)) by {
            if s2@.contains('-') {
                assert(s@.contains('-'));
            }
            if s2@.contains(' ') {
                assert(s@.contains(' '));
            }
            if s2@.contains('(') {
                assert(s@.contains('('));
            }
            if s2@.contains(')') {
                assert(s@.contains(')'));
            }
            if s2@.contains('＋') {
                assert(s@.contains('＋'));
            }
        }
        lemma_alias_resolved_free_of_punctuation(s2@);
    }
    r
}

/// The lookup key of a name given its upper-case form: the upper-case form
/// without '-' and ' '.
pub open spec fn key_of_upper(upper: Seq<char>) -> Seq<char> {
    removed(removed(upper, "-"@), " "@)
}

/// The lookup key of a channel name: upper-case, without '-' and ' '.
pub open spec fn normal_key_of(s: Seq<char>) -> Seq<char> {
    key_of_upper(uppercase_of(s))
}

/// The lookup key of a name, given the upper-case form of the name.
pub fn key_from_upper(upper: &str) -> (r: String)
    ensures
        r@ == key_of_upper(upper@),
{
    proof {
        reveal_strlit("-");
        reveal_strlit(" ");
        reveal_strlit("");
        assert(""@ =~= Seq::<char>::empty());
    }
    let s = str_replace(upper, "-", "");
    str_replace(s.as_str(), " ", "")
}

/// The lookup key of a channel name: upper-cased, with '-' and ' ' removed.
pub fn normal_key(s: &str) -> (r: String)
    ensures
        r@ == normal_key_of(s@),
{
    let upper = to_uppercase(s);
    key_from_upper(upper.as_str())
}

/// A map from lookup keys to standard channel names.
pub struct StandardMap {
    entries: Vec<(String, String)>,
}

impl StandardMap {
    /// No key occurs twice.
    #[verifier::type_invariant]
    closed spec fn keys_distinct(self) -> bool {
        forall|i: int, j: int|
            0 <= i < j < self.entries@.len() ==> #[trigger] self.entries@[i].0@
                != #[trigger] self.entries@[j].0@
    }

    closed spec fn has_key_at(self, k: Seq<char>, i: int) -> bool {
        0 <= i < self.entries@.len() && self.entries@[i].0@ == k
    }

    /// The keys and the names they map to.
    pub closed spec fn map(self) -> Map<Seq<char>, Seq<char>> {
        Map::new(
            |k: Seq<char>| exists|i: int| self.has_key_at(k, i),
            |k: Seq<char>| self.entries@[choose|i: int| self.has_key_at(k, i)].1@,
        )
    }

    proof fn lemma_lookup(self, k: Seq<char>, i: int)
        requires
            self.keys_distinct(),
            self.has_key_at(k, i),
        ensures
            self.map().contains_key(k),
            self.map()[k] == self.entries@[i].1@,
    {
        assert(self.has_key_at(k, i));
        let j = choose|j: int| self.has_key_at(k, j);
        if j != i {
            if i < j {
                assert(self.entries@[i].0@ != self.entries@[j].0@);
            } else {
                assert(self.entries@[j].0@ != self.entries@[i].0@);
            }
        }
    }

    /// An empty map.
    pub fn new() -> (m: StandardMap)
        ensures
            m@ == Map::<Seq<char>, Seq<char>>::empty(),
    {
        let m = StandardMap { entries: Vec::new() };
        assert(m.map() =~= Map::<Seq<char>, Seq<char>>::empty());
        m
    }

    /// The position of key `k`, if present.
    fn position(&self, k: &str) -> (r: Option<usize>)
        ensures
            match r {
                Some(i) => self.has_key_at(k@, i as int),
                None => forall|i: int| !self.has_key_at(k@, i),
            },
    {
        let kv = chars_of(k);
        let mut i: usize = 0;
        while i < self.entries.len()
            invariant
                i <= self.entries@.len(),
                kv@ == k@,
                forall|j: int| 0 <= j < i ==> !self.has_key_at(k@, j),
            decreases self.entries.len() - i,
        {
            let ev = chars_of(self.entries[i].0.as_str());
            if chars_eq(&ev, &kv) {
                return Some(i);
            }
            i = i + 1;
        }
        None
    }

    /// The name stored under key `k`, if any.
    pub fn get(&self, k: &str) -> (r: Option<&String>)
        ensures
            match r {
                Some(v) => self@.contains_key(k@) && v@ == self@[k@],
                None => !self@.contains_key(k@),
            },
    {
        proof {
            use_type_invariant(self);
        }
        match self.position(k) {
            Some(i) => {
                proof {
                    self.lemma_lookup(k@, i as int);
                }
                Some(&self.entries[i].1)
            },
            None => None,
        }
    }

    /// Stores `v` under `k`, replacing what was there.
    pub fn insert(&mut self, k: String, v: String)
        ensures
            final(self)@ == old(self)@.insert(k@, v@),
    {
        proof {
            use_type_invariant(&*self);
        }
        let ghost before = *self;
        let ghost kk = k@;
        let ghost vv = v@;
        let found = self.position(k.as_str());
        let mut entries = Vec::new();
        std::mem::swap(&mut entries, &mut self.entries);
        let ghost pos: int;
        match found {
            Some(i) => {
                entries.set(i, (k, v));
                proof {
                    pos = i as int;
                }
            },
            None => {
                entries.push((k, v));
                proof {
                    pos = before.entries@.len() as int;
                    assert forall|a: int, b: int|
                        0 <= a < b < entries@.len() implies #[trigger] entries@[a].0@
                        != #[trigger] entries@[b].0@ by {
                        if b == pos {
                            assert(!before.has_key_at(kk, a));
                        } else {
                            assert(before.entries@[a].0@ != before.entries@[b].0@);
                        }
                    }
                }
            },
        }
        self.entries = entries;
        proof {
            use_type_invariant(&*self);
            Self::lemma_map_after_update(before, *self, kk, vv, pos);
        }
    }

    /// Writing the entry `(kk, vv)` at position `pos`, either over the entry
    /// that holds key `kk` or, where no entry holds it, at the end, stores
    /// `vv` under `kk` and keeps every other key and its name.
    proof fn lemma_map_after_update(
        before: Self,
        after: Self,
        kk: Seq<char>,
        vv: Seq<char>,
        pos: int,
    )
        requires
            before.keys_distinct(),
            after.keys_distinct(),
            0 <= pos <= before.entries@.len(),
            pos < before.entries@.len() ==> before.has_key_at(kk, pos) && after.entries@.len()
                == before.entries@.len(),
            pos == before.entries@.len() ==> (forall|j: int| !before.has_key_at(kk, j))
                && after.entries@.len() == before.entries@.len() + 1,
            after.entries@[pos].0@ == kk,
            after.entries@[pos].1@ == vv,
            forall|j: int|
                0 <= j < before.entries@.len() && j != pos ==> #[trigger] after.entries@[j]
                    == before.entries@[j],
        ensures
            after.map() =~= before.map().insert(kk, vv),
    {
        assert forall|key: Seq<char>| #[trigger]
            after.map().contains_key(key) == before.map().insert(kk, vv).contains_key(key) by {
            if key == kk {
                assert(after.has_key_at(key, pos));
            } else {
                if exists|j: int| before.has_key_at(key, j) {
                    let j = choose|j: int| before.has_key_at(key, j);
                    assert(after.entries@[j] == before.entries@[j]);
                    assert(after.has_key_at(key, j));
                }
                if exists|j: int| after.has_key_at(key, j) {
                    let j = choose|j: int| after.has_key_at(key, j);
                    assert(after.entries@[j] == before.entries@[j]);
                    assert(before.has_key_at(key, j));
                }
            }
        }
        assert forall|key: Seq<char>| #[trigger] after.map().contains_key(key) implies after.map()[key]
            == before.map().insert(kk, vv)[key] by {
            if key == kk {
                after.lemma_lookup(key, pos);
            } else {
                let j = choose|j: int| after.has_key_at(key, j);
                assert(after.entries@[j] == before.entries@[j]);
                assert(before.has_key_at(key, j));
                after.lemma_lookup(key, j);
                before.lemma_lookup(key, j);
            }
        }
    }

    /// Files a standard name under its lookup key, given the name and the
    /// upper-case form of it; an empty name is skipped.
    pub fn add_standard_name(&mut self, name: &str, upper: &str)
        ensures
            name@.len() == 0 ==> final(self)@ == old(self)@,
            name@.len() > 0 ==> final(self)@ == old(self)@.insert(key_of_upper(upper@), name@),
    {
        if name.unicode_len() > 0 {
            let key = key_from_upper(upper);
            self.insert(key, String::from_str(name));
        }
    }

    /// The number of keys.
    pub fn len(&self) -> (n: usize)
        ensures
            n == self@.dom().len(),
    {
        proof {
            use_type_invariant(self);
            self.lemma_dom_len();
        }
        self.entries.len()
    }

    proof fn lemma_dom_len(self)
        requires
            self.keys_distinct(),
        ensures
            self.map().dom().len() == self.entries@.len(),
            self.map().dom().finite(),
    {
        let keys = self.entries@.map_values(|e: (String, String)| e.0@);
        assert forall|a: int, b: int| 0 <= a < b < keys.len() implies keys[a] != keys[b] by {
            assert(self.entries@[a].0@ != self.entries@[b].0@);
        }
        assert(keys.no_duplicates());
        assert forall|k: Seq<char>| #[trigger] self.map().dom().contains(k) == keys.to_set().contains(k) by {
            if self.map().dom().contains(k) {
                let j = choose|j: int| self.has_key_at(k, j);
                assert(keys[j] == k);
            }
            if keys.to_set().contains(k) {
                let j = choose|j: int| 0 <= j < keys.len() && keys[j] == k;
                assert(self.has_key_at(k, j));
            }
        }
        assert(self.map().dom() =~= keys.to_set());
        keys.unique_seq_to_set();
    }
}

impl View for StandardMap {
    type V = Map<Seq<char>, Seq<char>>;

    open spec fn view(&self) -> Map<Seq<char>, Seq<char>> {
        self.map()
    }
}

/// The first `n` characters of `v` as a `String`.
fn string_of_prefix(v: &Vec<char>, n: usize) -> (s: String)
    requires
        n <= v.len(),
    ensures
        s@ == v@.take(n as int),
{
    let mut w: Vec<char> = Vec::new();
    let mut i: usize = 0;
    while i < n
        invariant
            i <= n <= v.len(),
            w@ == v@.take(i as int),
        decreases n - i,
    {
        w.push(v[i]);
        i = i + 1;
        assert(w@ == v@.take(i as int));
    }
    string_of(&w)
}

/// A line piece with one trailing '\r' removed.
fn strip_cr_exec(v: &Vec<char>) -> (s: String)
    ensures
        s@ == strip_cr(v@),
{
    if v.len() > 0 && v[v.len() - 1] == '\r' {
        string_of_prefix(v, v.len() - 1)
    } else {
        string_of(v)
    }
}

/// The views of a list of strings.
pub open spec fn views(v: Seq<String>) -> Seq<Seq<char>> {
    v.map_values(|l: String| l@)
}

/// The lines of `s`, as `str::lines` yields them.
pub fn split_lines(s: &str) -> (r: Vec<String>)
    ensures
        views(r@) == lines_of(s@),
{
    let cs = chars_of(s);
    let mut out: Vec<String> = Vec::new();
    let mut cur: Vec<char> = Vec::new();
    let mut i: usize = 0;
    assert(cs@.take(0) =~= Seq::<char>::empty());
    while i < cs.len()
        invariant
            i <= cs.len(),
            cs@ == s@,
            views(out@) == split_newlines(cs@.take(i as int)).drop_last().map_values(
                |l: Seq<char>| strip_cr(l),
            ),
            cur@ == split_newlines(cs@.take(i as int)).last(),
        decreases cs.len() - i,
    {
        let c = cs[i];
        let ghost p = split_newlines(cs@.take(i as int));
        proof {
            lemma_split_newlines_nonempty(cs@.take(i as int));
            assert(cs@.take(i + 1).drop_last() =~= cs@.take(i as int));
        }
        if c == '\n' {
            let line = strip_cr_exec(&cur);
            let ghost before = views(out@);
            out.push(line);
            cur = Vec::new();
            proof {
                let q = split_newlines(cs@.take(i + 1));
                assert(q == p.push(Seq::empty()));
                assert(q.drop_last() =~= p);
                assert(views(out@) =~= before.push(strip_cr(p.last())));
                assert(p.map_values(|l: Seq<char>| strip_cr(l)) =~= p.drop_last().map_values(
                    |l: Seq<char>| strip_cr(l),
                ).push(strip_cr(p.last())));
                assert(cur@ =~= q.last());
            }
        } else {
            cur.push(c);
            proof {
                let q = split_newlines(cs@.take(i + 1));
                assert(q == p.update(p.len() - 1, p.last().push(c)));
                assert(q.drop_last() =~= p.drop_last());
            }
        }
        i = i + 1;
    }
    proof {
        assert(cs@.take(i as int) =~= s@);
        lemma_split_newlines_nonempty(s@);
    }
    if cur.len() > 0 {
        let last = string_of(&cur);
        let ghost before = views(out@);
        out.push(last);
        assert(views(out@) =~= before.push(cur@));
    }
    out
}

/// The map built from a list of lines: each line trimmed, empty lines
/// skipped, and each trimmed line stored under its lookup key, a later line
/// replacing an earlier one with the same key.
pub open spec fn standard_map_of(lines: Seq<Seq<char>>) -> Map<Seq<char>, Seq<char>>
    decreases lines.len(),
{
    if lines.len() == 0 {
        Map::empty()
    } else {
        let m = standard_map_of(lines.drop_last());
        let t = trimmed_of(lines.last());
        if t.len() == 0 {
            m
        } else {
            m.insert(normal_key_of(t), t)
        }
    }
}

/// Builds the map of standard channel names from the text of a channel list,
/// one standard name per line.
pub fn standard_channel_map(data: &str) -> (m: StandardMap)
    ensures
        m@ == standard_map_of(lines_of(data@)),
{
    let lines = split_lines(data);
    let ghost ls = views(lines@);
    let mut m = StandardMap::new();
    let mut i: usize = 0;
    assert(ls.take(0) =~= Seq::<Seq<char>>::empty());
    while i < lines.len()
        invariant
            i <= lines.len(),
            ls == views(lines@),
            m@ == standard_map_of(ls.take(i as int)),
        decreases lines.len() - i,
    {
        let t = trim(lines[i].as_str());
        assert(ls.take(i + 1).drop_last() =~= ls.take(i as int));
        assert(ls.take(i + 1).last() == lines@[i as int]@);
        let upper = to_uppercase(t.as_str());
        m.add_standard_name(t.as_str(), upper.as_str());
        i = i + 1;
    }
    assert(ls.take(lines.len() as int) =~= ls);
    m
}

/// The standard name of a channel: the name that the map holds under the
/// channel's lookup key, else the channel name itself.
pub open spec fn standard_name_of(name: Seq<char>, m: Map<Seq<char>, Seq<char>>) -> Seq<char> {
    if m.contains_key(normal_key_of(name)) {
        m[normal_key_of(name)]
    } else {
        name
    }
}

/// Maps a channel name to its standard name, if the map knows one.
pub fn map_to_standard_name<'a>(name: &'a str, m: &'a StandardMap) -> (r: &'a str)
    ensures
        r@ == standard_name_of(name@, m@),
{
    let key = normal_key(name);
    match m.get(key.as_str()) {
        Some(v) => v.as_str(),
        None => name,
    }
}

/// Every name in the standard map is a non-empty trimmed line filed under
/// its own lookup key, and every non-empty trimmed line is found under its
/// key, as that line or as a later line with the same key.
pub proof fn lemma_standard_map(lines: Seq<Seq<char>>)
    ensures
        forall|k: Seq<char>| #[trigger]
            standard_map_of(lines).contains_key(k) ==> normal_key_of(standard_map_of(lines)[k]) == k
                && standard_map_of(lines)[k].len() > 0,
        forall|i: int|
            0 <= i < lines.len() && trimmed_of(#[trigger] lines[i]).len() > 0
                ==> standard_map_of(lines).contains_key(normal_key_of(trimmed_of(lines[i]))),
    decreases lines.len(),
{
    if lines.len() > 0 {
        lemma_standard_map(lines.drop_last());
        let m0 = standard_map_of(lines.drop_last());
        let m = standard_map_of(lines);
        let tl = trimmed_of(lines.last());
        assert forall|k: Seq<char>| #[trigger] m.contains_key(k) implies normal_key_of(m[k]) == k
            && m[k].len() > 0 by {
            if tl.len() > 0 && k == normal_key_of(tl) {
                assert(m[k] == tl);
            } else {
                assert(m0.contains_key(k));
                assert(m[k] == m0[k]);
            }
        }
        assert forall|i: int|
            0 <= i < lines.len() && trimmed_of(#[trigger] lines[i]).len() > 0 implies standard_map_of(
            lines,
        ).contains_key(normal_key_of(trimmed_of(lines[i]))) by {
            if i < lines.len() - 1 {
                assert(lines.drop_last()[i] == lines[i]);
            }
        }
    }
}

proof fn lemma_key_of_upper_filters(u: Seq<char>)
    ensures
        key_of_upper(u) == without_char(without_char(u, '-'), ' '),
{
    reveal_strlit("-");
    reveal_strlit(" ");
    assert("-"@ =~= seq!['-']);
    assert(" "@ =~= seq![' ']);
    lemma_removed_single(u, '-');
    lemma_removed_single(without_char(u, '-'), ' ');
}

/// A lookup key holds neither '-' nor ' '.
pub proof fn lemma_key_has_no_dash_or_space(u: Seq<char>)
    ensures
        !key_of_upper(u).contains('-'),
        !key_of_upper(u).contains(' '),
{
    reveal_strlit("-");
    reveal_strlit(" ");
    assert("-"@ =~= seq!['-']);
    assert(" "@ =~= seq![' ']);
    let a = removed(u, "-"@);
    lemma_replaced_contains(u, "-"@, Seq::empty(), '-');
    lemma_replaced_contains(a, " "@, Seq::empty(), '-');
    lemma_replaced_contains(a, " "@, Seq::empty(), ' ');
}

/// The lookup key of a channel name holds neither '-' nor ' '.
pub proof fn lemma_normal_key_has_no_dash_or_space(s: Seq<char>)
    ensures
        !normal_key_of(s).contains('-'),
        !normal_key_of(s).contains(' '),
{
    lemma_key_has_no_dash_or_space(uppercase_of(s));
}

/// Inserting a '-' or a ' ' anywhere into the upper-case form of a name
/// does not change its lookup key.
pub proof fn lemma_key_ignores_dash_and_space(u: Seq<char>, i: int, x: char)
    requires
        0 <= i <= u.len(),
        x == '-' || x == ' ',
    ensures
        key_of_upper(u.insert(i, x)) == key_of_upper(u),
{
    let a = u.take(i);
    let b = u.skip(i);
    assert(u =~= a + b);
    assert(u.insert(i, x) =~= (a + seq![x]) + b);
    lemma_key_of_upper_filters(u);
    lemma_key_of_upper_filters(u.insert(i, x));
    lemma_without_char_concat(a + seq![x], b, '-');
    lemma_without_char_concat(a, seq![x], '-');
    lemma_without_char_concat(a, b, '-');
    let wa = without_char(a, '-');
    let wb = without_char(b, '-');
    let wx = without_char(seq![x], '-');
    assert(seq![x].skip(1) =~= Seq::<char>::empty());
    assert(without_char(Seq::<char>::empty(), '-') =~= Seq::<char>::empty());
    lemma_without_char_concat(wa + wx, wb, ' ');
    lemma_without_char_concat(wa, wx, ' ');
    lemma_without_char_concat(wa, wb, ' ');
    assert(without_char(Seq::<char>::empty(), ' ') =~= Seq::<char>::empty());
    if x == '-' {
        assert(wx =~= Seq::<char>::empty());
        assert(wa + wx =~= wa);
    } else {
        assert(wx =~= seq![' ']);
        assert(seq![' '].skip(1) =~= Seq::<char>::empty());
        assert(without_char(wx, ' ') =~= Seq::<char>::empty());
        assert(without_char(wa, ' ') + Seq::<char>::empty() =~= without_char(wa, ' '));
    }
}

/// A name that none of the text replacements touches and that is not a CCTV
/// alias: it holds none of the replaced words.
pub open spec fn already_clean(name: Seq<char>) -> bool {
    &&& !has_sub(name, "cctv"@)
    &&& !has_sub(name, "中央"@)
    &&& !has_sub(name, "央视"@)
    &&& !has_sub(name, "高清"@)
    &&& !has_sub(name, "超高"@)
    &&& !has_sub(name, "HD"@)
    &&& !has_sub(name, "标清"@)
    &&& !has_sub(name, "频道"@)
    &&& !has_sub(name, "-"@)
    &&& !has_sub(name, " "@)
    &&& !has_sub(name, "("@)
    &&& !has_sub(name, ")"@)
    &&& !has_sub(name, "PLUS"@)
    &&& !has_sub(name, "＋"@)
    &&& lookup_last(cctv_aliases(), name) is None
}

/// The text replacements leave a name that none of them touches as it is.
pub proof fn lemma_pre_clean_keeps_clean_name(name: Seq<char>)
    requires
        already_clean(name),
    ensures
        pre_cleaned_of(name) == name,
{
    lemma_replaced_absent(name, "cctv"@, "CCTV"@);
    lemma_replaced_absent(name, "中央"@, "CCTV"@);
    lemma_replaced_absent(name, "央视"@, "CCTV"@);
    lemma_replaced_absent(name, "高清"@, Seq::empty());
    lemma_replaced_absent(name, "超高"@, Seq::empty());
    lemma_replaced_absent(name, "HD"@, Seq::empty());
    lemma_replaced_absent(name, "标清"@, Seq::empty());
    lemma_replaced_absent(name, "频道"@, Seq::empty());
    lemma_replaced_absent(name, "-"@, Seq::empty());
    lemma_replaced_absent(name, " "@, Seq::empty());
    lemma_replaced_absent(name, "("@, Seq::empty());
    lemma_replaced_absent(name, ")"@, Seq::empty());
    lemma_replaced_absent(name, "PLUS"@, "+"@);
    lemma_replaced_absent(name, "＋"@, "+"@);
}

/// One text replacement on a two-character word `w` appended to `n`: where
/// the pattern is `w` itself and is removed, `n` is left; where it is another
/// pattern, that occurs in `n` nowhere and cannot reach from `n` into `w`,
/// nothing changes.
proof fn lemma_step_on_appended_word(n: Seq<char>, w: Seq<char>, p: Seq<char>, r: Seq<char>)
    requires
        w.len() == 2,
        p.len() >= 2,
        !has_sub(n, p),
        forall|k: int| 1 <= k < p.len() ==> #[trigger] p[k] != w[0],
        (w == p && r.len() == 0) || w[0] != p[0] || w[1] != p[1],
    ensures
        replaced(n + w, p, r) == if w == p {
            n
        } else {
            n + w
        },
{
    lemma_replaced_concat(n, w, p, r);
    if w == p {
        assert(w.take(p.len() as int) =~= p);
        assert(w.skip(p.len() as int) =~= Seq::<char>::empty());
        assert(r =~= Seq::<char>::empty());
        assert(replaced(Seq::<char>::empty(), p, r) == Seq::<char>::empty());
        assert(replaced(w, p, r) == r + replaced(w.skip(p.len() as int), p, r));
        assert(replaced(w, p, r) =~= Seq::<char>::empty());
        assert(n + Seq::<char>::empty() =~= n);
    } else {
        lemma_no_sub_of_short(w, p);
        lemma_replaced_absent(w, p, r);
    }
}

/// A quality word (高清, 超高, HD, 标清 or 频道) appended to a name that no
/// cleaning step touches is dropped: the text replacements give the name
/// back, and the name cleans to what the name alone cleans to.
pub proof fn lemma_quality_word_dropped(n: Seq<char>, w: Seq<char>)
    requires
        already_clean(n),
        w == "高清"@ || w == "超高"@ || w == "HD"@ || w == "标清"@ || w == "频道"@,
    ensures
        pre_cleaned_of(n + w) == n,
        cleaned_name_of(n + w) == cleaned_name_of(n),
{
    reveal_strlit("cctv");
    reveal_strlit("CCTV");
    reveal_strlit("中央");
    reveal_strlit("央视");
    reveal_strlit("高清");
    reveal_strlit("超高");
    reveal_strlit("HD");
    reveal_strlit("标清");
    reveal_strlit("频道");
    assert("cctv"@ =~= seq!['c', 'c', 't', 'v']);
    assert("中央"@ =~= seq!['中', '央']);
    assert("央视"@ =~= seq!['央', '视']);
    assert("高清"@ =~= seq!['高', '清']);
    assert("超高"@ =~= seq!['超', '高']);
    assert("HD"@ =~= seq!['H', 'D']);
    assert("标清"@ =~= seq!['标', '清']);
    assert("频道"@ =~= seq!['频', '道']);
    let e = Seq::<char>::empty();
    lemma_pre_clean_keeps_clean_name(n);
    lemma_replaced_absent(n, "cctv"@, "CCTV"@);
    lemma_replaced_absent(n, "中央"@, "CCTV"@);
    lemma_replaced_absent(n, "央视"@, "CCTV"@);
    lemma_replaced_absent(n, "高清"@, e);
    lemma_replaced_absent(n, "超高"@, e);
    lemma_replaced_absent(n, "HD"@, e);
    lemma_replaced_absent(n, "标清"@, e);
    lemma_replaced_absent(n, "频道"@, e);
    lemma_replaced_absent(n, "-"@, e);
    lemma_replaced_absent(n, " "@, e);
    lemma_replaced_absent(n, "("@, e);
    lemma_replaced_absent(n, ")"@, e);
    lemma_replaced_absent(n, "PLUS"@, "+"@);
    lemma_replaced_absent(n, "＋"@, "+"@);
    assert(w.len() == 2);
    assert(w[0] == '高' || w[0] == '超' || w[0] == 'H' || w[0] == '标' || w[0] == '频');
    assert forall|k: int| 1 <= k < "cctv"@.len() implies #[trigger] "cctv"@[k] != w[0] by {
        assert(k == 1 || k == 2 || k == 3);
    }
    lemma_step_on_appended_word(n, w, "cctv"@, "CCTV"@);
    lemma_step_on_appended_word(n, w, "中央"@, "CCTV"@);
    lemma_step_on_appended_word(n, w, "央视"@, "CCTV"@);
    lemma_step_on_appended_word(n, w, "高清"@, e);
    if w != "高清"@ {
        lemma_step_on_appended_word(n, w, "超高"@, e);
        if w != "超高"@ {
            lemma_step_on_appended_word(n, w, "HD"@, e);
            if w != "HD"@ {
                lemma_step_on_appended_word(n, w, "标清"@, e);
                if w != "标清"@ {
                    lemma_step_on_appended_word(n, w, "频道"@, e);
                }
            }
        }
    }
}

/// The character facts about the replaced words that the spelling laws use.
proof fn lemma_replaced_words_spelled()
    ensures
        "cctv"@ =~= seq!['c', 'c', 't', 'v'],
        "CCTV"@ =~= seq!['C', 'C', 'T', 'V'],
        "中央"@ =~= seq!['中', '央'],
        "央视"@ =~= seq!['央', '视'],
        "高清"@ =~= seq!['高', '清'],
        "超高"@ =~= seq!['超', '高'],
        "HD"@ =~= seq!['H', 'D'],
        "标清"@ =~= seq!['标', '清'],
        "频道"@ =~= seq!['频', '道'],
        "-"@ =~= seq!['-'],
        " "@ =~= seq![' '],
        "("@ =~= seq!['('],
        ")"@ =~= seq![')'],
        "PLUS"@ =~= seq!['P', 'L', 'U', 'S'],
        "＋"@ =~= seq!['＋'],
        "+"@ =~= seq!['+'],
{
    reveal_strlit("cctv");
    reveal_strlit("CCTV");
    reveal_strlit("中央");
    reveal_strlit("央视");
    reveal_strlit("高清");
    reveal_strlit("超高");
    reveal_strlit("HD");
    reveal_strlit("标清");
    reveal_strlit("频道");
    reveal_strlit("-");
    reveal_strlit(" ");
    reveal_strlit("(");
    reveal_strlit(")");
    reveal_strlit("PLUS");
    reveal_strlit("＋");
    reveal_strlit("+");
}

/// The replacements after the first `k` ones leave `a + n` as it is, where
/// `n` holds none of the replaced words and `a` holds none of the first
/// characters of the words that they look for.
proof fn lemma_later_steps_keep(a: Seq<char>, n: Seq<char>)
    requires
        already_clean(n),
        !a.contains('c'),
        !a.contains('中'),
        !a.contains('央'),
        !a.contains('高'),
        !a.contains('超'),
        !a.contains('H'),
        !a.contains('标'),
        !a.contains('频'),
        !a.contains('-'),
        !a.contains(' '),
        !a.contains('('),
        !a.contains(')'),
        !a.contains('P'),
        !a.contains('＋'),
    ensures
        pre_cleaned_of(a + n) == a + n,
        replaced(a + n, "cctv"@, "CCTV"@) == a + n,
        replaced(a + n, "中央"@, "CCTV"@) == a + n,
        replaced(a + n, "央视"@, "CCTV"@) == a + n,
        replaced(a + n, "高清"@, Seq::empty()) == a + n,
        replaced(a + n, "超高"@, Seq::empty()) == a + n,
        replaced(a + n, "HD"@, Seq::empty()) == a + n,
        replaced(a + n, "标清"@, Seq::empty()) == a + n,
        replaced(a + n, "频道"@, Seq::empty()) == a + n,
        replaced(a + n, "-"@, Seq::empty()) == a + n,
        replaced(a + n, " "@, Seq::empty()) == a + n,
        replaced(a + n, "("@, Seq::empty()) == a + n,
        replaced(a + n, ")"@, Seq::empty()) == a + n,
        replaced(a + n, "PLUS"@, "+"@) == a + n,
        replaced(a + n, "＋"@, "+"@) == a + n,
{
    lemma_replaced_words_spelled();
    let e = Seq::<char>::empty();
    lemma_replaced_prefix(a, n, "cctv"@, "CCTV"@);
    lemma_replaced_prefix(a, n, "中央"@, "CCTV"@);
    lemma_replaced_prefix(a, n, "央视"@, "CCTV"@);
    lemma_replaced_prefix(a, n, "高清"@, e);
    lemma_replaced_prefix(a, n, "超高"@, e);
    lemma_replaced_prefix(a, n, "HD"@, e);
    lemma_replaced_prefix(a, n, "标清"@, e);
    lemma_replaced_prefix(a, n, "频道"@, e);
    lemma_replaced_prefix(a, n, "-"@, e);
    lemma_replaced_prefix(a, n, " "@, e);
    lemma_replaced_prefix(a, n, "("@, e);
    lemma_replaced_prefix(a, n, ")"@, e);
    lemma_replaced_prefix(a, n, "PLUS"@, "+"@);
    lemma_replaced_prefix(a, n, "＋"@, "+"@);
}

/// "cctv", "中央" and "央视" in front of a name that no cleaning step touches
/// are all spelled "CCTV": the name cleans as if "CCTV" stood there.
pub proof fn lemma_cctv_spellings(n: Seq<char>, w: Seq<char>)
    requires
        already_clean(n),
        w == "cctv"@ || w == "中央"@ || w == "央视"@,
    ensures
        pre_cleaned_of(w + n) == "CCTV"@ + n,
        cleaned_name_of(w + n) == cleaned_name_of("CCTV"@ + n),
{
    lemma_replaced_words_spelled();
    let c = "CCTV"@;
    lemma_later_steps_keep(c, n);
    lemma_replaced_prefix(w, n, "cctv"@, c);
    if w != "cctv"@ {
        lemma_replaced_prefix(w, n, "中央"@, c);
        if w != "中央"@ {
            lemma_replaced_prefix(w, n, "央视"@, c);
        }
    }
}

/// "PLUS" and the full-width plus in front of a name that no cleaning step
/// touches are both written '+': the name cleans as if '+' stood there.
pub proof fn lemma_plus_spellings(n: Seq<char>, w: Seq<char>)
    requires
        already_clean(n),
        w == "PLUS"@ || w == "＋"@,
    ensures
        pre_cleaned_of(w + n) == "+"@ + n,
        cleaned_name_of(w + n) == cleaned_name_of("+"@ + n),
{
    lemma_replaced_words_spelled();
    let e = Seq::<char>::empty();
    lemma_later_steps_keep("+"@, n);
    lemma_replaced_prefix(w, n, "cctv"@, "CCTV"@);
    lemma_replaced_prefix(w, n, "中央"@, "CCTV"@);
    lemma_replaced_prefix(w, n, "央视"@, "CCTV"@);
    lemma_replaced_prefix(w, n, "高清"@, e);
    lemma_replaced_prefix(w, n, "超高"@, e);
    lemma_replaced_prefix(w, n, "HD"@, e);
    lemma_replaced_prefix(w, n, "标清"@, e);
    lemma_replaced_prefix(w, n, "频道"@, e);
    lemma_replaced_prefix(w, n, "-"@, e);
    lemma_replaced_prefix(w, n, " "@, e);
    lemma_replaced_prefix(w, n, "("@, e);
    lemma_replaced_prefix(w, n, ")"@, e);
    lemma_replaced_prefix(w, n, "PLUS"@, "+"@);
    lemma_replaced_prefix(w, n, "＋"@, "+"@);
}

/// The text holds none of '-', ' ', '(', ')' and the full-width plus '＋'.
pub open spec fn free_of_punctuation(s: Seq<char>) -> bool {
    &&& !s.contains('-')
    &&& !s.contains(' ')
    &&& !s.contains('(')
    &&& !s.contains(')')
    &&& !s.contains('＋')
}

proof fn lemma_pre_clean_step(s: Seq<char>, p: Seq<char>, r: Seq<char>, c: char)
    requires
        p.len() > 0,
        !r.contains(c),
        !s.contains(c) || p == seq![c],
    ensures
        !replaced(s, p, r).contains(c),
{
    lemma_replaced_contains(s, p, r, c);
}

/// The text replacements remove every '-', ' ', '(' and ')', and turn every
/// full-width plus into '+'.
pub proof fn lemma_pre_cleaned_free_of_punctuation(name: Seq<char>)
    ensures
        free_of_punctuation(pre_cleaned_of(name)),
{
    reveal_strlit("-");
    reveal_strlit(" ");
    reveal_strlit("(");
    reveal_strlit(")");
    reveal_strlit("+");
    reveal_strlit("PLUS");
    reveal_strlit("＋");
    reveal_strlit("cctv");
    reveal_strlit("中央");
    reveal_strlit("央视");
    reveal_strlit("高清");
    reveal_strlit("超高");
    reveal_strlit("HD");
    reveal_strlit("标清");
    reveal_strlit("频道");
    assert("-"@ =~= seq!['-']);
    assert(" "@ =~= seq![' ']);
    assert("("@ =~= seq!['(']);
    assert(")"@ =~= seq![')']);
    assert("+"@ =~= seq!['+']);
    assert("＋"@ =~= seq!['＋']);
    let e = Seq::<char>::empty();
    assert(free_of_punctuation(e));
    assert(free_of_punctuation("+"@)) by {
        assert("+"@[0] == '+');
    }
    let s = replaced(name, "cctv"@, "CCTV"@);
    let s = replaced(s, "中央"@, "CCTV"@);
    let s = replaced(s, "央视"@, "CCTV"@);
    let s = removed(s, "高清"@);
    let s = removed(s, "超高"@);
    let s = removed(s, "HD"@);
    let s = removed(s, "标清"@);
    let s8 = removed(s, "频道"@);
    let s9 = removed(s8, "-"@);
    let s10 = removed(s9, " "@);
    let s11 = removed(s10, "("@);
    let s12 = removed(s11, ")"@);
    let s13 = replaced(s12, "PLUS"@, "+"@);
    let s14 = replaced(s13, "＋"@, "+"@);
    assert(s14 == pre_cleaned_of(name));
    lemma_pre_clean_step(s8, "-"@, e, '-');
    lemma_pre_clean_step(s9, " "@, e, '-');
    lemma_pre_clean_step(s9, " "@, e, ' ');
    lemma_pre_clean_step(s10, "("@, e, '-');
    lemma_pre_clean_step(s10, "("@, e, ' ');
    lemma_pre_clean_step(s10, "("@, e, '(');
    lemma_pre_clean_step(s11, ")"@, e, '-');
    lemma_pre_clean_step(s11, ")"@, e, ' ');
    lemma_pre_clean_step(s11, ")"@, e, '(');
    lemma_pre_clean_step(s11, ")"@, e, ')');
    lemma_pre_clean_step(s12, "PLUS"@, "+"@, '-');
    lemma_pre_clean_step(s12, "PLUS"@, "+"@, ' ');
    lemma_pre_clean_step(s12, "PLUS"@, "+"@, '(');
    lemma_pre_clean_step(s12, "PLUS"@, "+"@, ')');
    lemma_pre_clean_step(s13, "＋"@, "+"@, '-');
    lemma_pre_clean_step(s13, "＋"@, "+"@, ' ');
    lemma_pre_clean_step(s13, "＋"@, "+"@, '(');
    lemma_pre_clean_step(s13, "＋"@, "+"@, ')');
    lemma_pre_clean_step(s13, "＋"@, "+"@, '＋');
}

proof fn lemma_lookup_last_value(t: Seq<(Seq<char>, Seq<char>)>, k: Seq<char>)
    ensures
        lookup_last(t, k) matches Some(v) ==> exists|i: int| 0 <= i < t.len() && #[trigger] t[i].1 == v,
    decreases t.len(),
{
    if t.len() > 0 {
        lemma_lookup_last_value(t.drop_last(), k);
        if t.last().0 != k {
            if let Some(v) = lookup_last(t.drop_last(), k) {
                let i = choose|i: int| 0 <= i < t.len() - 1 && #[trigger] t.drop_last()[i].1 == v;
                assert(t[i].1 == v);
            }
        } else {
            assert(t[t.len() - 1].1 == t.last().1);
        }
    }
}

/// The standard names that the aliases stand for hold no '-', ' ', '(', ')'
/// or '＋'.
proof fn lemma_alias_targets_free_of_punctuation()
    ensures
        forall|i: int|
            0 <= i < cctv_aliases().len() ==> free_of_punctuation(#[trigger] cctv_aliases()[i].1),
{
    reveal_strlit("CCTV1");
    reveal_strlit("CCTV2");
    reveal_strlit("CCTV3");
    reveal_strlit("CCTV4");
    reveal_strlit("CCTV5");
    reveal_strlit("CCTV6");
    reveal_strlit("CCTV7");
    reveal_strlit("CCTV8");
    reveal_strlit("CCTV9");
    reveal_strlit("CCTV10");
    reveal_strlit("CCTV11");
    reveal_strlit("CCTV12");
    reveal_strlit("CCTV13");
    reveal_strlit("CCTV14");
    reveal_strlit("CCTV15");
    reveal_strlit("CCTV16");
    reveal_strlit("CCTV17");
    reveal_strlit("CCTV5+");
    assert("CCTV1"@ =~= seq!['C', 'C', 'T', 'V', '1']);
    assert("CCTV2"@ =~= seq!['C', 'C', 'T', 'V', '2']);
    assert("CCTV3"@ =~= seq!['C', 'C', 'T', 'V', '3']);
    assert("CCTV4"@ =~= seq!['C', 'C', 'T', 'V', '4']);
    assert("CCTV5"@ =~= seq!['C', 'C', 'T', 'V', '5']);
    assert("CCTV6"@ =~= seq!['C', 'C', 'T', 'V', '6']);
    assert("CCTV7"@ =~= seq!['C', 'C', 'T', 'V', '7']);
    assert("CCTV8"@ =~= seq!['C', 'C', 'T', 'V', '8']);
    assert("CCTV9"@ =~= seq!['C', 'C', 'T', 'V', '9']);
    assert("CCTV10"@ =~= seq!['C', 'C', 'T', 'V', '1', '0']);
    assert("CCTV11"@ =~= seq!['C', 'C', 'T', 'V', '1', '1']);
    assert("CCTV12"@ =~= seq!['C', 'C', 'T', 'V', '1', '2']);
    assert("CCTV13"@ =~= seq!['C', 'C', 'T', 'V', '1', '3']);
    assert("CCTV14"@ =~= seq!['C', 'C', 'T', 'V', '1', '4']);
    assert("CCTV15"@ =~= seq!['C', 'C', 'T', 'V', '1', '5']);
    assert("CCTV16"@ =~= seq!['C', 'C', 'T', 'V', '1', '6']);
    assert("CCTV17"@ =~= seq!['C', 'C', 'T', 'V', '1', '7']);
    assert("CCTV5+"@ =~= seq!['C', 'C', 'T', 'V', '5', '+']);
    assert forall|i: int| 0 <= i < cctv_aliases().len() implies free_of_punctuation(
        #[trigger] cctv_aliases()[i].1,
    ) by {
        let v = cctv_aliases()[i].1;
        assert(forall|j: int| 0 <= j < v.len() ==> v[j] != '-' && v[j] != ' ' && v[j] != '(' && v[j] != ')' && v[j] != '＋');
    }
}

/// Resolving an alias brings in no '-', ' ', '(', ')' or '＋'.
pub proof fn lemma_alias_resolved_free_of_punctuation(s: Seq<char>)
    requires
        free_of_punctuation(s),
    ensures
        free_of_punctuation(alias_resolved(s)),
{
    lemma_lookup_last_value(cctv_aliases(), s);
    lemma_alias_targets_free_of_punctuation();
}

} // verus!
