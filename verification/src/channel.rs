//! Speed tiers, channel groups, logo URLs and playlist entries.
use vstd::prelude::*;

use crate::config::LOGO_BASE_URL;
use crate::text::{has_sub, occurs_at, lemma_concat_contains, lemma_replaced_contains, replaced, str_contains, str_eq, str_replace, to_uppercase, uppercase_of};

verus! {

/// The speed class of a source: at least 5 MB/s, at least 1 MB/s, or slower.
#[derive(Clone, Copy, Debug, PartialEq, Eq, Structural)]
pub enum SpeedTier {
    High,
    Normal,
    Low,
}

/// The label of a tier as it appears in group titles.
pub open spec fn tier_label_of(t: SpeedTier) -> Seq<char> {
    match t {
        SpeedTier::High => "高速"@,
        SpeedTier::Normal => "普通"@,
        SpeedTier::Low => "低速"@,
    }
}

/// The rank of a tier label: the high-speed label first, then the normal
/// one, then everything else.
pub open spec fn tier_order_of(label: Seq<char>) -> i32 {
    if label == "高速"@ {
        0
    } else if label == "普通"@ {
        1
    } else {
        2
    }
}

/// The rank of a tier, by its label.
pub open spec fn tier_rank(t: SpeedTier) -> i32 {
    tier_order_of(tier_label_of(t))
}

/// The label of a speed tier.
pub fn tier_label(t: SpeedTier) -> (r: &'static str)
    ensures
        r@ == tier_label_of(t),
{
    match t {
        SpeedTier::High => "高速",
        SpeedTier::Normal => "普通",
        SpeedTier::Low => "低速",
    }
}

/// The rank of a tier label: 0 for "高速", 1 for "普通", 2 for any other text.
pub fn tier_order(tier: &str) -> (r: i32)
    ensures
        r == tier_order_of(tier@),
{
    if str_eq(tier, "高速") {
        0
    } else if str_eq(tier, "普通") {
        1
    } else {
        2
    }
}

/// The ranks of the three tiers are 0, 1 and 2, in the order high, normal, low.
pub proof fn lemma_tier_ranks()
    ensures
        tier_rank(SpeedTier::High) == 0,
        tier_rank(SpeedTier::Normal) == 1,
        tier_rank(SpeedTier::Low) == 2,
{
    reveal_strlit("高速");
    reveal_strlit("普通");
    reveal_strlit("低速");
    assert("普通"@[0] != "高速"@[0]);
    assert("低速"@[0] != "高速"@[0]);
    assert("低速"@[0] != "普通"@[0]);
}

/// The group of a channel given its name and the upper-case form of that
/// name: "央视" when the upper-case form holds "CCTV", else "卫视" when the
/// name holds "卫视", else "其他".
pub open spec fn group_of(name: Seq<char>, upper: Seq<char>) -> Seq<char> {
    if has_sub(upper, "CCTV"@) {
        "央视"@
    } else if has_sub(name, "卫视"@) {
        "卫视"@
    } else {
        "其他"@
    }
}

/// The group of a channel name.
pub open spec fn base_group_of(name: Seq<char>) -> Seq<char> {
    group_of(name, uppercase_of(name))
}

/// The group of a channel, given its name and the upper-case form of it.
pub fn group_from_upper(name: &str, upper: &str) -> (r: &'static str)
    ensures
        r@ == group_of(name@, upper@),
{
    if str_contains(upper, "CCTV") {
        "央视"
    } else if str_contains(name, "卫视") {
        "卫视"
    } else {
        "其他"
    }
}

/// The group of a channel name: CCTV channels, satellite channels, others.
pub fn base_group(name: &str) -> (r: &'static str)
    ensures
        r@ == base_group_of(name@),
{
    let upper = to_uppercase(name);
    group_from_upper(name, upper.as_str())
}

/// The group title of a channel in a tier: "<group>（<tier>）".
pub open spec fn full_group_of(name: Seq<char>, t: SpeedTier) -> Seq<char> {
    base_group_of(name) + "（"@ + tier_label_of(t) + "）"@
}

/// The group title of a channel in a speed tier, such as "央视（高速）".
pub fn full_group(name: &str, tier: SpeedTier) -> (r: String)
    ensures
        r@ == full_group_of(name@, tier),
{
    let mut s = String::new();
    s.append(base_group(name));
    s.append("（");
    s.append(tier_label(tier));
    s.append("）");
    s
}

/// A byte that `application/x-www-form-urlencoded` serialisation keeps as is.
pub open spec fn form_kept_byte(b: u8) -> bool {
    ||| b == 0x2a  // '*'
    ||| b == 0x2d  // '-'
    ||| b == 0x2e  // '.'
    ||| 0x30 <= b <= 0x39  // '0'..='9'
    ||| 0x41 <= b <= 0x5a  // 'A'..='Z'
    ||| b == 0x5f  // '_'
    ||| 0x61 <= b <= 0x7a  // 'a'..='z'

}

/// The upper-case hexadecimal digit of a value below 16.
pub open spec fn hex_digit(n: u8) -> char {
    if n < 10 {
        (0x30 + n) as char
    } else {
        (0x41 + n - 10) as char
    }
}

/// The serialisation of one byte: kept bytes as themselves, a space as '+',
/// any other byte as '%' and two upper-case hexadecimal digits.
pub open spec fn form_encoded_byte(b: u8) -> Seq<char> {
    if form_kept_byte(b) {
        seq![b as char]
    } else if b == 0x20 {
        seq!['+']
    } else {
        seq!['%', hex_digit(b / 16), hex_digit(b % 16)]
    }
}

/// The `application/x-www-form-urlencoded` byte serialisation of `bytes`.
pub open spec fn form_encoded(bytes: Seq<u8>) -> Seq<char>
    decreases bytes.len(),
{
    if bytes.len() == 0 {
        Seq::empty()
    } else {
        form_encoded(bytes.drop_last()) + form_encoded_byte(bytes.last())
    }
}

/// Calls `url::form_urlencoded::byte_serialize` and collects the pieces.
/// Each byte is kept when it is one of `*-._`, an ASCII digit or an ASCII
/// letter, a space becomes '+', and any other byte becomes '%' followed by
/// its value in two upper-case hexadecimal digits.
#[verifier::external_body]
fn form_urlencode(bytes: &[u8]) -> (r: String)
    ensures
        r@ == form_encoded(bytes@),
{
    url::form_urlencoded::byte_serialize(bytes).collect::<String>()
}

/// The file-name part of a channel's logo URL: the UTF-8 bytes of the name,
/// form-urlencoded, with '+' written as "%20".
pub open spec fn logo_name_of(name: Seq<char>) -> Seq<char> {
    replaced(form_encoded(vstd::utf8::encode_utf8(name)), "+"@, "%20"@)
}

/// The logo URL of a channel.
pub open spec fn logo_url_of(name: Seq<char>) -> Seq<char> {
    LOGO_BASE_URL@ + logo_name_of(name) + ".png"@
}

/// The logo URL of a channel: the logo base URL, the percent-encoded name
/// and ".png".
pub fn build_logo_url(name: &str) -> (r: String)
    ensures
        r@ == logo_url_of(name@),
{
    let encoded = form_urlencode(name.as_bytes());
    proof {
        reveal_strlit("+");
    }
    let spaced = str_replace(encoded.as_str(), "+", "%20");
    let mut s = String::new();
    s.append(LOGO_BASE_URL);
    s.append(spaced.as_str());
    s.append(".png");
    s
}

/// The M3U8 entry of a stream: an `#EXTINF` line with name, logo and group
/// title, then the stream URL on the next line.
pub open spec fn m3u8_entry_of(name: Seq<char>, stream_url: Seq<char>, t: SpeedTier) -> Seq<
    char,
> {
    "#EXTINF:-1 tvg-name=\""@ + name + "\" tvg-logo=\""@ + logo_url_of(name)
        + "\" group-title=\""@ + full_group_of(name, t) + "\","@ + name + "\n"@ + stream_url
}

/// The M3U8 entry of a stream of a channel in a speed tier.
pub fn build_m3u8_entry(name: &str, stream_url: &str, tier: SpeedTier) -> (r: String)
    ensures
        r@ == m3u8_entry_of(name@, stream_url@, tier),
{
    let grp = full_group(name, tier);
    let logo = build_logo_url(name);
    let mut s = String::new();
    s.append("#EXTINF:-1 tvg-name=\"");
    s.append(name);
    s.append("\" tvg-logo=\"");
    s.append(logo.as_str());
    s.append("\" group-title=\"");
    s.append(grp.as_str());
    s.append("\",");
    s.append(name);
    s.append("\n");
    s.append(stream_url);
    s
}

/// The group title of an entry is the full group of its name in its own
/// tier: the entry holds `group-title="<group>（<tier>）"`, and entries of one
/// name and URL in different tiers differ.
pub proof fn lemma_entry_group_title(name: Seq<char>, stream_url: Seq<char>, t: SpeedTier, t2: SpeedTier)
    ensures
        has_sub(
            m3u8_entry_of(name, stream_url, t),
            "group-title=\""@ + base_group_of(name) + "（"@ + tier_label_of(t) + "）\""@,
        ),
        t != t2 ==> m3u8_entry_of(name, stream_url, t) != m3u8_entry_of(name, stream_url, t2),
{
    reveal_strlit("\" group-title=\"");
    reveal_strlit("group-title=\"");
    reveal_strlit("\",");
    reveal_strlit("）\"");
    reveal_strlit("）");
    reveal_strlit("高速");
    reveal_strlit("普通");
    reveal_strlit("低速");
    let head = "#EXTINF:-1 tvg-name=\""@ + name + "\" tvg-logo=\""@ + logo_url_of(name);
    let g = base_group_of(name);
    let want = "group-title=\""@ + g + "（"@ + tier_label_of(t) + "）\""@;
    let e = m3u8_entry_of(name, stream_url, t);
    assert("\" group-title=\""@ =~= seq!['"', ' '] + "group-title=\""@);
    assert("）\""@ =~= "）"@ + seq!['"']);
    assert("\","@ =~= seq!['"', ',']);
    let start: int = head.len() + 2int;
    let rest = "\","@ + name + "\n"@ + stream_url;
    let grp = g + "（"@ + tier_label_of(t) + "）"@;
    assert(e =~= head + seq!['"', ' '] + "group-title=\""@ + grp + rest);
    assert(e.subrange(start, start + want.len()) =~= want);
    assert(occurs_at(e, want, start));
    if t != t2 {
        let e2 = m3u8_entry_of(name, stream_url, t2);
        let grp2 = g + "（"@ + tier_label_of(t2) + "）"@;
        assert(e2 =~= head + seq!['"', ' '] + "group-title=\""@ + grp2 + rest);
        let k: int = start + "group-title=\""@.len() + g.len() + "（"@.len();
        assert(e[k] == tier_label_of(t)[0]);
        assert(e2[k] == tier_label_of(t2)[0]);
    }
}

proof fn lemma_form_encoded_no_space(bytes: Seq<u8>)
    ensures
        !form_encoded(bytes).contains(' '),
    decreases bytes.len(),
{
    if bytes.len() > 0 {
        lemma_form_encoded_no_space(bytes.drop_last());
        let b = bytes.last();
        let e = form_encoded_byte(b);
        assert(!e.contains(' ')) by {
            if e.contains(' ') {
                let k = choose|k: int| 0 <= k < e.len() && e[k] == ' ';
                if form_kept_byte(b) {
                    assert(e[0] == b as char);
                } else if b == 0x20 {
                    assert(e[0] == '+');
                } else {
                    assert(b / 16 < 16 && b % 16 < 16);
                    assert(hex_digit(b / 16) != ' ');
                    assert(hex_digit(b % 16) != ' ');
                }
            }
        }
        lemma_concat_contains(form_encoded(bytes.drop_last()), e, ' ');
    }
}

/// The logo file name of a channel holds neither '+' nor a space, so the
/// logo URL needs no further escaping of them.
pub proof fn lemma_logo_name_safe(name: Seq<char>)
    ensures
        !logo_name_of(name).contains('+'),
        !logo_name_of(name).contains(' '),
{
    let enc = form_encoded(vstd::utf8::encode_utf8(name));
    reveal_strlit("+");
    reveal_strlit("%20");
    assert("+"@ =~= seq!['+']);
    assert(!"%20"@.contains('+')) by {
        if "%20"@.contains('+') {
            let k = choose|k: int| 0 <= k < "%20"@.len() && "%20"@[k] == '+';
        }
    }
    assert(!"%20"@.contains(' ')) by {
        if "%20"@.contains(' ') {
            let k = choose|k: int| 0 <= k < "%20"@.len() && "%20"@[k] == ' ';
        }
    }
    lemma_form_encoded_no_space(vstd::utf8::encode_utf8(name));
    lemma_replaced_contains(enc, "+"@, "%20"@, '+');
    lemma_replaced_contains(enc, "+"@, "%20"@, ' ');
}

} // verus!
