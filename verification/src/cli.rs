//! Command-line settings, the list of subscription URLs, the update
//! interval, and the playlists that the server hands out.
use vstd::prelude::*;

use crate::config::DEFAULT_SUB_URL;
use crate::ordering::{all_ascii_digits, decimal_value, is_ascii_digit};

verus! {

/// The settings of a run: HTTP port, number of concurrent speed tests,
/// sources kept per kind, update interval, and up to twenty custom
/// subscription URLs.
pub struct Cli {
    pub port: u16,
    pub workers: usize,
    pub top_n: usize,
    pub interval: String,
    pub url1: Option<String>,
    pub url2: Option<String>,
    pub url3: Option<String>,
    pub url4: Option<String>,
    pub url5: Option<String>,
    pub url6: Option<String>,
    pub url7: Option<String>,
    pub url8: Option<String>,
    pub url9: Option<String>,
    pub url10: Option<String>,
    pub url11: Option<String>,
    pub url12: Option<String>,
    pub url13: Option<String>,
    pub url14: Option<String>,
    pub url15: Option<String>,
    pub url16: Option<String>,
    pub url17: Option<String>,
    pub url18: Option<String>,
    pub url19: Option<String>,
    pub url20: Option<String>,
}

/// The URLs that are present, in order.
pub open spec fn present_urls(opts: Seq<Option<String>>) -> Seq<Seq<char>>
    decreases opts.len(),
{
    if opts.len() == 0 {
        Seq::empty()
    } else {
        let p = present_urls(opts.drop_last());
        match opts.last() {
            Some(u) => p.push(u@),
            None => p,
        }
    }
}

impl Cli {
    /// The twenty custom URL settings, in order.
    pub open spec fn url_settings(&self) -> Seq<Option<String>> {
        seq![
            self.url1,
            self.url2,
            self.url3,
            self.url4,
            self.url5,
            self.url6,
            self.url7,
            self.url8,
            self.url9,
            self.url10,
            self.url11,
            self.url12,
            self.url13,
            self.url14,
            self.url15,
            self.url16,
            self.url17,
            self.url18,
            self.url19,
            self.url20,
        ]
    }

    /// The subscription URLs: the custom URLs that are set, in order, then
    /// the built-in default subscription.
    pub fn collect_urls(&self) -> (urls: Vec<String>)
        ensures
            urls@.map_values(|u: String| u@) == present_urls(self.url_settings()).push(
                DEFAULT_SUB_URL@,
            ),
    {
        let opts: Vec<&Option<String>> = vec![
            &self.url1,
            &self.url2,
            &self.url3,
            &self.url4,
            &self.url5,
            &self.url6,
            &self.url7,
            &self.url8,
            &self.url9,
            &self.url10,
            &self.url11,
            &self.url12,
            &self.url13,
            &self.url14,
            &self.url15,
            &self.url16,
            &self.url17,
            &self.url18,
            &self.url19,
            &self.url20,
        ];
        let ghost settings = self.url_settings();
        assert(opts@.map_values(|o: &Option<String>| *o) =~= settings);
        let mut urls: Vec<String> = Vec::new();
        let mut i: usize = 0;
        assert(settings.take(0) =~= Seq::<Option<String>>::empty());
        while i < opts.len()
            invariant
                i <= opts.len(),
                opts@.map_values(|o: &Option<String>| *o) == settings,
                urls@.map_values(|u: String| u@) == present_urls(settings.take(i as int)),
            decreases opts.len() - i,
        {
            let ghost before = urls@.map_values(|u: String| u@);
            assert(settings.take(i + 1).drop_last() =~= settings.take(i as int));
            assert(settings.take(i + 1).last() == *opts@[i as int]);
            match opts[i] {
                Some(u) => {
                    urls.push(u.clone());
                    assert(urls@.map_values(|u: String| u@) =~= before.push(u@));
                },
                None => {},
            }
            i = i + 1;
        }
        assert(settings.take(20) =~= settings);
        let ghost before = urls@.map_values(|u: String| u@);
        urls.push(String::from_str(DEFAULT_SUB_URL));
        assert(urls@.map_values(|u: String| u@) =~= before.push(DEFAULT_SUB_URL@));
        urls
    }
}

/// The number of settings in `opts` that are set.
pub open spec fn set_count(opts: Seq<Option<String>>) -> int
    decreases opts.len(),
{
    if opts.len() == 0 {
        0
    } else {
        set_count(opts.drop_last()) + if opts.last() is Some {
            1int
        } else {
            0int
        }
    }
}

proof fn lemma_set_count_step(opts: Seq<Option<String>>, k: int)
    requires
        0 <= k < opts.len(),
    ensures
        set_count(opts.take(k + 1)) == set_count(opts.take(k)) + if opts[k] is Some {
            1int
        } else {
            0int
        },
        set_count(opts.take(k)) >= 0,
    decreases k,
{
    assert(opts.take(k + 1).drop_last() =~= opts.take(k));
    assert(opts.take(k + 1).last() == opts[k]);
    if k > 0 {
        lemma_set_count_step(opts, k - 1);
    } else {
        assert(opts.take(0) =~= Seq::<Option<String>>::empty());
    }
}

proof fn lemma_present_urls_contains(opts: Seq<Option<String>>, k: int)
    requires
        0 <= k < opts.len(),
    ensures
        opts[k] matches Some(u) ==> present_urls(opts).contains(u@),
        present_urls(opts).len() == set_count(opts),
    decreases opts.len(),
{
    let p = present_urls(opts.drop_last());
    if k < opts.len() - 1 {
        lemma_present_urls_contains(opts.drop_last(), k);
        assert(opts.drop_last()[k] == opts[k]);
        if let Some(u) = opts[k] {
            let j = choose|j: int| 0 <= j < p.len() && p[j] == u@;
            if let Some(v) = opts.last() {
                assert(p.push(v@)[j] == u@);
            }
        }
    } else {
        if opts.len() > 1 {
            lemma_present_urls_contains(opts.drop_last(), 0);
        }
        if let Some(u) = opts[k] {
            assert(p.push(u@)[p.len() as int] == u@);
        }
    }
}

/// The custom URL setting number `k`, from `url1` to `url20`.
pub open spec fn url_setting(c: Cli, k: int) -> Option<String> {
    if k == 1 {
        c.url1
    } else if k == 2 {
        c.url2
    } else if k == 3 {
        c.url3
    } else if k == 4 {
        c.url4
    } else if k == 5 {
        c.url5
    } else if k == 6 {
        c.url6
    } else if k == 7 {
        c.url7
    } else if k == 8 {
        c.url8
    } else if k == 9 {
        c.url9
    } else if k == 10 {
        c.url10
    } else if k == 11 {
        c.url11
    } else if k == 12 {
        c.url12
    } else if k == 13 {
        c.url13
    } else if k == 14 {
        c.url14
    } else if k == 15 {
        c.url15
    } else if k == 16 {
        c.url16
    } else if k == 17 {
        c.url17
    } else if k == 18 {
        c.url18
    } else if k == 19 {
        c.url19
    } else if k == 20 {
        c.url20
    } else {
        None
    }
}

proof fn lemma_set_count_prefix_mono(opts: Seq<Option<String>>, a: int, b: int)
    requires
        0 <= a <= b <= opts.len(),
    ensures
        set_count(opts.take(a)) <= set_count(opts.take(b)),
        a < b && opts[a] is Some ==> set_count(opts.take(a)) < set_count(opts.take(b)),
    decreases b - a,
{
    if a < b {
        lemma_set_count_prefix_mono(opts, a, b - 1);
        assert(opts.take(b).drop_last() =~= opts.take(b - 1));
        assert(opts.take(b).last() == opts[b - 1]);
        if a == b - 1 {
            assert(opts.take(b).drop_last() =~= opts.take(a));
        }
    }
}

#[verifier::spinoff_prover]
proof fn lemma_present_urls_at(opts: Seq<Option<String>>, k: int)
    requires
        0 <= k < opts.len(),
        opts[k] is Some,
    ensures
        0 <= set_count(opts.take(k)) < present_urls(opts).len(),
        present_urls(opts)[set_count(opts.take(k))] == opts[k]->0@,
    decreases opts.len(),
{
    let p = present_urls(opts.drop_last());
    lemma_set_count_step(opts, k);
    if opts.len() > 1 {
        lemma_present_urls_contains(opts.drop_last(), 0);
    } else {
        assert(opts.drop_last() =~= Seq::<Option<String>>::empty());
    }
    assert(p.len() == set_count(opts.drop_last()));
    if k == opts.len() - 1 {
        assert(opts.take(k) =~= opts.drop_last());
        assert(opts.last() == opts[k]);
        assert(present_urls(opts) == p.push(opts[k]->0@));
    } else {
        assert(opts.drop_last().take(k) =~= opts.take(k));
        assert(opts.drop_last()[k] == opts[k]);
        lemma_present_urls_at(opts.drop_last(), k);
        let x = set_count(opts.take(k));
        assert(x < p.len());
        match opts.last() {
            Some(v) => {
                assert(present_urls(opts) == p.push(v@));
                assert(p.push(v@)[x] == p[x]);
            },
            None => {
                assert(present_urls(opts) == p);
            },
        }
    }
}

/// The set custom URLs are collected in the order of their settings: when
/// settings `k` and `l`, with `k` before `l`, are both set, the URL of `k`
/// comes at an earlier place of the collected list than the URL of `l`.
#[verifier::spinoff_prover]
pub proof fn lemma_set_urls_in_order(c: Cli, k: int, l: int)
    requires
        1 <= k < l <= 20,
        url_setting(c, k) is Some,
        url_setting(c, l) is Some,
    ensures
        exists|i: int, j: int|
            0 <= i < j < present_urls(c.url_settings()).push(DEFAULT_SUB_URL@).len()
                && present_urls(c.url_settings()).push(DEFAULT_SUB_URL@)[i] == url_setting(
                c,
                k,
            )->0@ && present_urls(c.url_settings()).push(DEFAULT_SUB_URL@)[j] == url_setting(
                c,
                l,
            )->0@,
{
    let st = c.url_settings();
    assert(st[k - 1] == url_setting(c, k));
    assert(st[l - 1] == url_setting(c, l));
    lemma_present_urls_at(st, k - 1);
    lemma_present_urls_at(st, l - 1);
    lemma_set_count_prefix_mono(st, k - 1, l - 1);
    let r = present_urls(st).push(DEFAULT_SUB_URL@);
    let i = set_count(st.take(k - 1));
    let j = set_count(st.take(l - 1));
    assert(r[i] == present_urls(st)[i]);
    assert(r[j] == present_urls(st)[j]);
    assert(0 <= i < j < r.len() && r[i] == url_setting(c, k)->0@ && r[j] == url_setting(c, l)->0@);
}

/// The settings list holds the twenty custom URL settings, `url1` first.
proof fn lemma_url_settings_fields(c: Cli)
    ensures
        c.url_settings().len() == 20,
        forall|i: int| 0 <= i < 20 ==> c.url_settings()[i] == #[trigger] url_setting(c, i + 1),
{
    assert forall|i: int| 0 <= i < 20 implies c.url_settings()[i] == #[trigger] url_setting(
        c,
        i + 1,
    ) by {
        if i == 0 {
        } else if i == 1 {
        } else if i == 2 {
        } else if i == 3 {
        } else if i == 4 {
        } else if i == 5 {
        } else if i == 6 {
        } else if i == 7 {
        } else if i == 8 {
        } else if i == 9 {
        } else if i == 10 {
        } else if i == 11 {
        } else if i == 12 {
        } else if i == 13 {
        } else if i == 14 {
        } else if i == 15 {
        } else if i == 16 {
        } else if i == 17 {
        } else if i == 18 {
        } else if i == 19 {
        }
    }
}

/// Every custom URL that is set, from `url1` to `url20`, is among the
/// collected URLs; the collected list holds one URL for each setting that is
/// set, and then the default subscription last.
pub proof fn lemma_every_set_url_collected(c: Cli)
    ensures
        forall|k: int|
            1 <= k <= 20 && #[trigger] url_setting(c, k) is Some ==> present_urls(
                c.url_settings(),
            ).contains(url_setting(c, k)->0@),
        present_urls(c.url_settings()).push(DEFAULT_SUB_URL@).len() == 1 + set_count(
            Seq::new(20, |i: int| url_setting(c, i + 1)),
        ),
        present_urls(c.url_settings()).push(DEFAULT_SUB_URL@).last() == DEFAULT_SUB_URL@,
{
    let st = c.url_settings();
    lemma_url_settings_fields(c);
    assert(st =~= Seq::new(20, |i: int| url_setting(c, i + 1)));
    lemma_present_urls_contains(st, 0);
    assert forall|k: int| 1 <= k <= 20 && #[trigger] url_setting(c, k) is Some implies present_urls(
        st,
    ).contains(url_setting(c, k)->0@) by {
        assert(st[k - 1] == url_setting(c, k - 1 + 1));
        lemma_present_urls_contains(st, k - 1);
    }
}

/// What `str::parse::<u64>` gives for a string: an optional '+' followed by
/// one or more ASCII digits whose value fits in a `u64`, else nothing.
pub open spec fn parse_u64_of(s: Seq<char>) -> Option<u64> {
    let d = if s.len() > 0 && s[0] == '+' {
        s.skip(1)
    } else {
        s
    };
    if d.len() > 0 && all_ascii_digits(d) && decimal_value(d) <= u64::MAX {
        Some(decimal_value(d) as u64)
    } else {
        None
    }
}

proof fn lemma_value_prefix_le(d: Seq<char>, i: int)
    requires
        all_ascii_digits(d),
        0 <= i <= d.len(),
    ensures
        0 <= decimal_value(d.take(i)) <= decimal_value(d),
    decreases d.len() - i,
{
    if i == d.len() {
        assert(d.take(i) =~= d);
        lemma_value_nonneg(d);
    } else {
        lemma_value_prefix_le(d, i + 1);
        assert(d.take(i + 1).drop_last() =~= d.take(i));
        assert(is_ascii_digit(d[i]));
        assert(d.take(i + 1).last() == d[i]);
        lemma_value_nonneg(d.take(i));
    }
}

proof fn lemma_value_nonneg(d: Seq<char>)
    requires
        all_ascii_digits(d),
    ensures
        decimal_value(d) >= 0,
    decreases d.len(),
{
    if d.len() > 0 {
        assert(all_ascii_digits(d.drop_last())) by {
            assert forall|i: int| 0 <= i < d.len() - 1 implies is_ascii_digit(
                #[trigger] d.drop_last()[i],
            ) by {
                assert(d.drop_last()[i] == d[i]);
            }
        }
        assert(is_ascii_digit(d[d.len() - 1]));
        lemma_value_nonneg(d.drop_last());
    }
}

/// Parses a decimal `u64` as `str::parse::<u64>` does.
pub fn parse_u64(s: &str) -> (r: Option<u64>)
    ensures
        r == parse_u64_of(s@),
{
    let cs = chars_of_str(s);
    let start: usize = if cs.len() > 0 && cs[0] == '+' {
        1
    } else {
        0
    };
    let ghost d = if s@.len() > 0 && s@[0] == '+' {
        s@.skip(1)
    } else {
        s@
    };
    assert(d =~= s@.skip(start as int));
    if cs.len() == start {
        return None;
    }
    let mut ok = true;
    let mut i: usize = start;
    while i < cs.len()
        invariant
            start <= i <= cs.len(),
            cs@ == s@,
            d == s@.skip(start as int),
            ok == forall|j: int| start <= j < i ==> is_ascii_digit(#[trigger] cs@[j]),
        decreases cs.len() - i,
    {
        if !(cs[i] >= '0' && cs[i] <= '9') {
            ok = false;
        }
        i = i + 1;
    }
    assert(ok == all_ascii_digits(d)) by {
        if ok {
            assert forall|j: int| 0 <= j < d.len() implies is_ascii_digit(#[trigger] d[j]) by {
                assert(d[j] == cs@[start + j]);
            }
        } else {
            let j = choose|j: int| start <= j < cs.len() && !is_ascii_digit(#[trigger] cs@[j]);
            assert(d[j - start] == cs@[j]);
        }
    }
    if !ok {
        return None;
    }
    let mut v: u64 = 0;
    let mut i: usize = start;
    assert(d.take(0) =~= Seq::<char>::empty());
    while i < cs.len()
        invariant
            start <= i <= cs.len(),
            cs@ == s@,
            d == s@.skip(start as int),
            d == (if s@.len() > 0 && s@[0] == '+' {
                s@.skip(1)
            } else {
                s@
            }),
            d.len() > 0,
            all_ascii_digits(d),
            v == decimal_value(d.take(i - start)),
        decreases cs.len() - i,
    {
        let ghost k = i - start;
        assert(d.take(k + 1).drop_last() =~= d.take(k));
        assert(d.take(k + 1).last() == cs@[i as int]);
        assert(is_ascii_digit(d[k]));
        let x: u64 = (cs[i] as u32 - '0' as u32) as u64;
        assert(decimal_value(d.take(k + 1)) == 10 * decimal_value(d.take(k)) + x);
        match v.checked_mul(10) {
            Some(t) => match t.checked_add(x) {
                Some(w) => {
                    v = w;
                },
                None => {
                    proof {
                        lemma_value_prefix_le(d, k + 1);
                        assert(decimal_value(d) > u64::MAX);
                        assert(parse_u64_of(s@) is None);
                    }
                    return None;
                },
            },
            None => {
                proof {
                    lemma_value_prefix_le(d, k + 1);
                    lemma_value_nonneg(d.take(k));
                    assert(decimal_value(d) > u64::MAX);
                    assert(parse_u64_of(s@) is None);
                }
                return None;
            },
        }
        i = i + 1;
    }
    assert(d.take(d.len() as int) =~= d);
    Some(v)
}

fn chars_of_str(s: &str) -> (v: Vec<char>)
    ensures
        v@ == s@,
{
    crate::text::chars_of(s)
}

/// The value that a parse gives, or `default` when the parse fails.
pub open spec fn parse_or(s: Seq<char>, default: u64) -> int {
    match parse_u64_of(s) {
        Some(n) => n as int,
        None => default as int,
    }
}

/// The number of seconds that an interval setting stands for: "<n>h" is n
/// hours, "<n>m" n minutes, "<n>s" n seconds and a bare "<n>" n seconds;
/// an unreadable number counts as 6 hours in every form.
pub open spec fn interval_secs_of(s: Seq<char>) -> int {
    if s.len() > 0 && s.last() == 'h' {
        parse_or(s.drop_last(), 6) * 3600
    } else if s.len() > 0 && s.last() == 'm' {
        parse_or(s.drop_last(), 360) * 60
    } else if s.len() > 0 && s.last() == 's' {
        parse_or(s.drop_last(), 21600)
    } else {
        parse_or(s, 21600)
    }
}

/// The interval setting stands for a number of seconds that fits in a `u64`.
pub open spec fn interval_in_range_of(s: Seq<char>) -> bool {
    interval_secs_of(s) <= u64::MAX
}

/// The string without its last character.
fn drop_last_char(s: &str) -> (r: String)
    requires
        s@.len() > 0,
    ensures
        r@ == s@.drop_last(),
{
    let n = s.unicode_len();
    let t = s.substring_char(0, n - 1);
    String::from_str(t)
}

/// Whether the interval setting stands for a number of seconds that fits in
/// a `u64`.
pub fn interval_in_range(s: &str) -> (r: bool)
    ensures
        r == interval_in_range_of(s@),
{
    let n = s.unicode_len();
    let last = if n > 0 {
        s.get_char(n - 1)
    } else {
        ' '
    };
    if n > 0 && last == 'h' {
        let v = match parse_u64(drop_last_char(s).as_str()) {
            Some(v) => v,
            None => 6,
        };
        v <= u64::MAX / 3600
    } else if n > 0 && last == 'm' {
        let v = match parse_u64(drop_last_char(s).as_str()) {
            Some(v) => v,
            None => 360,
        };
        v <= u64::MAX / 60
    } else {
        true
    }
}

/// The number of seconds that an interval setting such as "6h", "30m",
/// "3600s" or "3600" stands for.
pub fn parse_interval(s: &str) -> (secs: u64)
    requires
        interval_in_range_of(s@),
    ensures
        secs == interval_secs_of(s@),
{
    let n = s.unicode_len();
    let last = if n > 0 {
        s.get_char(n - 1)
    } else {
        ' '
    };
    if n > 0 && last == 'h' {
        let v = match parse_u64(drop_last_char(s).as_str()) {
            Some(v) => v,
            None => 6,
        };
        return v * 3600;
    }
    if n > 0 && last == 'm' {
        let v = match parse_u64(drop_last_char(s).as_str()) {
            Some(v) => v,
            None => 360,
        };
        return v * 60;
    }
    if n > 0 && last == 's' {
        return match parse_u64(drop_last_char(s).as_str()) {
            Some(v) => v,
            None => 21600,
        };
    }
    match parse_u64(s) {
        Some(v) => v,
        None => 6 * 3600,
    }
}

/// The playlists and the time of the last run, as the server hands them out.
pub struct SharedData {
    pub m3u8: String,
    pub txt: String,
    pub last_run: String,
}

impl Default for SharedData {
    fn default() -> (d: SharedData)
        ensures
            d.m3u8@ == Seq::<char>::empty(),
            d.txt@ == Seq::<char>::empty(),
            d.last_run@ == Seq::<char>::empty(),
    {
        SharedData { m3u8: String::new(), txt: String::new(), last_run: String::new() }
    }
}

} // verus!
