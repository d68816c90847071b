//! The order of channels in a playlist: CCTV channels by number, then the
//! satellite channels in a fixed list order, then the rest by name.
use vstd::prelude::*;

use crate::cli::{parse_u64, parse_u64_of};
use crate::text::{
    chars_of, contains_chars, has_sub, seq_lt, str_contains, string_of, to_uppercase,
    uppercase_of,
};

verus! {

/// The satellite channels in the order in which they are listed.
pub open spec fn weixi_order() -> Seq<Seq<char>> {
    seq![
        "湖南卫视"@,
        "东方卫视"@,
        "浙江卫视"@,
        "江苏卫视"@,
        "北京卫视"@,
        "山东卫视"@,
        "河南卫视"@,
        "广东卫视"@,
        "安徽卫视"@,
        "深圳卫视"@,
        "天津卫视"@,
        "江西卫视"@,
        "四川卫视"@,
        "湖北卫视"@,
        "重庆卫视"@,
        "黑龙江卫视"@,
        "辽宁卫视"@,
        "河北卫视"@,
        "吉林卫视"@,
        "山西卫视"@,
        "广西卫视"@,
        "云南卫视"@,
        "福建东南卫视"@,
        "贵州卫视"@,
        "陕西卫视"@,
        "甘肃卫视"@,
        "内蒙古卫视"@,
        "新疆卫视"@,
        "宁夏卫视"@,
        "青海卫视"@,
        "西藏卫视"@,
        "海南卫视"@,
        "兵团卫视"@
    ]
}

fn weixi_keywords() -> (v: Vec<&'static str>)
    ensures
        v@.map_values(|s: &'static str| s@) == weixi_order(),
{
    let v = vec![
        "湖南卫视",
        "东方卫视",
        "浙江卫视",
        "江苏卫视",
        "北京卫视",
        "山东卫视",
        "河南卫视",
        "广东卫视",
        "安徽卫视",
        "深圳卫视",
        "天津卫视",
        "江西卫视",
        "四川卫视",
        "湖北卫视",
        "重庆卫视",
        "黑龙江卫视",
        "辽宁卫视",
        "河北卫视",
        "吉林卫视",
        "山西卫视",
        "广西卫视",
        "云南卫视",
        "福建东南卫视",
        "贵州卫视",
        "陕西卫视",
        "甘肃卫视",
        "内蒙古卫视",
        "新疆卫视",
        "宁夏卫视",
        "青海卫视",
        "西藏卫视",
        "海南卫视",
        "兵团卫视"
    ];
    assert(v@.map_values(|s: &'static str| s@) =~= weixi_order());
    v
}

/// The position of the first keyword in `ks` that occurs in `name`.
pub open spec fn first_keyword(name: Seq<char>, ks: Seq<Seq<char>>) -> Option<int>
    decreases ks.len(),
{
    if ks.len() == 0 {
        None
    } else {
        match first_keyword(name, ks.drop_last()) {
            Some(i) => Some(i),
            None => if has_sub(name, ks.last()) {
                Some(ks.len() - 1)
            } else {
                None
            },
        }
    }
}

/// The position in the satellite list of the first satellite channel whose
/// name occurs in `name`.
pub open spec fn weixi_index_of(name: Seq<char>) -> Option<int> {
    first_keyword(name, weixi_order())
}

pub proof fn lemma_first_keyword(name: Seq<char>, ks: Seq<Seq<char>>)
    ensures
        match first_keyword(name, ks) {
            Some(i) => 0 <= i < ks.len() && has_sub(name, ks[i]) && forall|j: int|
                0 <= j < i ==> !has_sub(name, #[trigger] ks[j]),
            None => forall|j: int| 0 <= j < ks.len() ==> !has_sub(name, #[trigger] ks[j]),
        },
    decreases ks.len(),
{
    if ks.len() > 0 {
        lemma_first_keyword(name, ks.drop_last());
        assert forall|j: int| 0 <= j < ks.len() - 1 implies ks[j] == ks.drop_last()[j] by {}
    }
}

/// The position in the satellite list of the first satellite channel whose
/// name occurs in `name`, if any.
pub fn weixi_sort_index(name: &str) -> (r: Option<usize>)
    ensures
        match r {
            Some(i) => weixi_index_of(name@) == Some(i as int),
            None => weixi_index_of(name@) is None,
        },
{
    let ks = weixi_keywords();
    let ghost kv = ks@.map_values(|s: &'static str| s@);
    let nv = chars_of(name);
    let mut i: usize = 0;
    assert(kv.take(0) =~= Seq::<Seq<char>>::empty());
    while i < ks.len()
        invariant
            i <= ks.len(),
            nv@ == name@,
            kv == ks@.map_values(|s: &'static str| s@),
            kv == weixi_order(),
            first_keyword(name@, kv.take(i as int)) is None,
        decreases ks.len() - i,
    {
        let kc = chars_of(ks[i]);
        assert(kv.take(i + 1).drop_last() =~= kv.take(i as int));
        if contains_chars(&nv, &kc) {
            assert(first_keyword(name@, kv.take(i + 1)) == Some(i as int));
            proof {
                lemma_first_keyword_prefix(name@, kv, i as int + 1);
            }
            return Some(i);
        }
        i = i + 1;
    }
    assert(kv.take(ks.len() as int) =~= kv);
    None
}

/// The satellite list place by place, from 湖南卫视 at place 0 to 兵团卫视
/// at place 32.
pub proof fn lemma_weixi_list()
    ensures
        weixi_order().len() == 33,
        weixi_order()[0] == "湖南卫视"@,
        weixi_order()[1] == "东方卫视"@,
        weixi_order()[2] == "浙江卫视"@,
        weixi_order()[3] == "江苏卫视"@,
        weixi_order()[4] == "北京卫视"@,
        weixi_order()[5] == "山东卫视"@,
        weixi_order()[6] == "河南卫视"@,
        weixi_order()[7] == "广东卫视"@,
        weixi_order()[8] == "安徽卫视"@,
        weixi_order()[9] == "深圳卫视"@,
        weixi_order()[10] == "天津卫视"@,
        weixi_order()[11] == "江西卫视"@,
        weixi_order()[12] == "四川卫视"@,
        weixi_order()[13] == "湖北卫视"@,
        weixi_order()[14] == "重庆卫视"@,
        weixi_order()[15] == "黑龙江卫视"@,
        weixi_order()[16] == "辽宁卫视"@,
        weixi_order()[17] == "河北卫视"@,
        weixi_order()[18] == "吉林卫视"@,
        weixi_order()[19] == "山西卫视"@,
        weixi_order()[20] == "广西卫视"@,
        weixi_order()[21] == "云南卫视"@,
        weixi_order()[22] == "福建东南卫视"@,
        weixi_order()[23] == "贵州卫视"@,
        weixi_order()[24] == "陕西卫视"@,
        weixi_order()[25] == "甘肃卫视"@,
        weixi_order()[26] == "内蒙古卫视"@,
        weixi_order()[27] == "新疆卫视"@,
        weixi_order()[28] == "宁夏卫视"@,
        weixi_order()[29] == "青海卫视"@,
        weixi_order()[30] == "西藏卫视"@,
        weixi_order()[31] == "海南卫视"@,
        weixi_order()[32] == "兵团卫视"@,
{
}

/// Among satellite channels (names without "CCTV" in their upper-case form
/// and with "卫视"), one found at an earlier place of the satellite list
/// orders before one found at a later place, and every listed one orders
/// before every unlisted one.
pub proof fn lemma_satellites_in_list_order(
    a: Seq<char>,
    ua: Seq<char>,
    na: Option<Seq<char>>,
    b: Seq<char>,
    ub: Seq<char>,
    nb: Option<Seq<char>>,
)
    requires
        !has_sub(ua, "CCTV"@),
        !has_sub(ub, "CCTV"@),
        has_sub(a, "卫视"@),
        has_sub(b, "卫视"@),
        weixi_index_of(a) is Some,
    ensures
        weixi_index_of(b) is None ==> key_lt(sort_key_with(a, ua, na), sort_key_with(b, ub, nb)),
        weixi_index_of(b) matches Some(j) && weixi_index_of(a)->0 < j ==> key_lt(
            sort_key_with(a, ua, na),
            sort_key_with(b, ub, nb),
        ),
{
    lemma_first_keyword(a, weixi_order());
}

/// The three categories in order: a CCTV channel (its upper-case form holds
/// "CCTV") orders before any other; a satellite channel (its name holds
/// "卫视") before any of the rest; and the rest order by name.
pub proof fn lemma_categories_in_order(
    a: Seq<char>,
    ua: Seq<char>,
    na: Option<Seq<char>>,
    b: Seq<char>,
    ub: Seq<char>,
    nb: Option<Seq<char>>,
)
    ensures
        has_sub(ua, "CCTV"@) && !has_sub(ub, "CCTV"@) ==> key_lt(
            sort_key_with(a, ua, na),
            sort_key_with(b, ub, nb),
        ),
        !has_sub(ua, "CCTV"@) && !has_sub(ub, "CCTV"@) && has_sub(a, "卫视"@) && !has_sub(
            b,
            "卫视"@,
        ) ==> key_lt(sort_key_with(a, ua, na), sort_key_with(b, ub, nb)),
        !has_sub(ua, "CCTV"@) && !has_sub(ub, "CCTV"@) && !has_sub(a, "卫视"@) && !has_sub(
            b,
            "卫视"@,
        ) ==> (key_lt(sort_key_with(a, ua, na), sort_key_with(b, ub, nb)) <==> seq_lt(a, b)),
{
    if !has_sub(ua, "CCTV"@) && has_sub(a, "卫视"@) {
        lemma_first_keyword(a, weixi_order());
    }
}

/// CCTV channels with ASCII channel numbers order by the value of the
/// number.
pub proof fn lemma_cctv_numbers_in_order(
    a: Seq<char>,
    ua: Seq<char>,
    da: Seq<char>,
    b: Seq<char>,
    ub: Seq<char>,
    db: Seq<char>,
)
    requires
        has_sub(ua, "CCTV"@),
        has_sub(ub, "CCTV"@),
        da.len() > 0,
        all_ascii_digits(da),
        db.len() > 0,
        all_ascii_digits(db),
    ensures
        key_lt(sort_key_with(a, ua, Some(da)), sort_key_with(b, ub, Some(db))) <==> decimal_value(
            da,
        ) < decimal_value(db),
{
}

/// A CCTV channel without a number whose upper-case form holds "5+" orders
/// after every CCTV channel numbered 5 or less and before every one numbered
/// 6 or more; one without a number and without "5+", or whose digits are
/// not ASCII, orders after every channel numbered below 999 and before every
/// one numbered above 999.
pub proof fn lemma_cctv_unnumbered_in_order(
    a: Seq<char>,
    ua: Seq<char>,
    na: Option<Seq<char>>,
    b: Seq<char>,
    ub: Seq<char>,
    db: Seq<char>,
)
    requires
        has_sub(ua, "CCTV"@),
        has_sub(ub, "CCTV"@),
        db.len() > 0,
        all_ascii_digits(db),
    ensures
        na is None && has_sub(ua, "5+"@) ==> (decimal_value(db) <= 5 ==> key_lt(
            sort_key_with(b, ub, Some(db)),
            sort_key_with(a, ua, na),
        )) && (decimal_value(db) >= 6 ==> key_lt(
            sort_key_with(a, ua, na),
            sort_key_with(b, ub, Some(db)),
        )),
        (na is None && !has_sub(ua, "5+"@)) || (na matches Some(d) && (d.len() == 0
            || !all_ascii_digits(d))) ==> (decimal_value(db) < 999 ==> key_lt(
            sort_key_with(b, ub, Some(db)),
            sort_key_with(a, ua, na),
        )) && (decimal_value(db) > 999 ==> key_lt(
            sort_key_with(a, ua, na),
            sort_key_with(b, ub, Some(db)),
        )),
{
}

proof fn lemma_first_keyword_prefix(name: Seq<char>, ks: Seq<Seq<char>>, n: int)
    requires
        0 <= n <= ks.len(),
        first_keyword(name, ks.take(n)) is Some,
    ensures
        first_keyword(name, ks) == first_keyword(name, ks.take(n)),
    decreases ks.len() - n,
{
    if n < ks.len() {
        assert(ks.take(n + 1).drop_last() =~= ks.take(n));
        lemma_first_keyword_prefix(name, ks, n + 1);
    } else {
        assert(ks.take(n) =~= ks);
    }
}

/// An ASCII decimal digit.
pub open spec fn is_ascii_digit(c: char) -> bool {
    '0' <= c && c <= '9'
}

/// Every character is an ASCII decimal digit.
pub open spec fn all_ascii_digits(d: Seq<char>) -> bool {
    forall|i: int| 0 <= i < d.len() ==> is_ascii_digit(#[trigger] d[i])
}

/// The value of an ASCII decimal digit.
pub open spec fn digit_value(c: char) -> int {
    c as int - '0' as int
}

/// The number that a string of ASCII decimal digits denotes.
pub open spec fn decimal_value(d: Seq<char>) -> int
    decreases d.len(),
{
    if d.len() == 0 {
        0
    } else {
        10 * decimal_value(d.drop_last()) + digit_value(d.last())
    }
}

/// Ten to the power `n`.
pub open spec fn pow10(n: nat) -> int
    decreases n,
{
    if n == 0 {
        1
    } else {
        10 * pow10((n - 1) as nat)
    }
}

/// A digit string without leading zeros (the empty string stands for zero).
pub open spec fn normalized_digits(d: Seq<char>) -> bool {
    all_ascii_digits(d) && (d.len() == 0 || d[0] != '0')
}

proof fn lemma_pow10_mono(a: nat, b: nat)
    requires
        a <= b,
    ensures
        1 <= pow10(a) <= pow10(b),
    decreases b,
{
    if b > 0 {
        if a < b {
            lemma_pow10_mono(a, (b - 1) as nat);
        } else {
            lemma_pow10_mono((b - 1) as nat, (b - 1) as nat);
        }
    }
}

proof fn lemma_pow10_ten()
    ensures
        pow10(10) == 10000000000,
{
    assert(pow10(0) == 1);
    assert(pow10(1) == 10);
    assert(pow10(2) == 100);
    assert(pow10(3) == 1000);
    assert(pow10(4) == 10000);
    assert(pow10(5) == 100000);
    assert(pow10(6) == 1000000);
    assert(pow10(7) == 10000000);
    assert(pow10(8) == 100000000);
    assert(pow10(9) == 1000000000);
}

proof fn lemma_value_upper(d: Seq<char>)
    requires
        all_ascii_digits(d),
    ensures
        0 <= decimal_value(d) < pow10(d.len()),
    decreases d.len(),
{
    if d.len() > 0 {
        assert(is_ascii_digit(d[d.len() - 1]));
        assert(all_ascii_digits(d.drop_last())) by {
            assert forall|i: int| 0 <= i < d.len() - 1 implies is_ascii_digit(
                #[trigger] d.drop_last()[i],
            ) by {
                assert(d.drop_last()[i] == d[i]);
            }
        }
        lemma_value_upper(d.drop_last());
    }
}

proof fn lemma_digits_prefix(d: Seq<char>, n: int)
    requires
        all_ascii_digits(d),
        0 <= n <= d.len(),
    ensures
        all_ascii_digits(d.take(n)),
        all_ascii_digits(d.skip(n)),
{
    assert forall|i: int| 0 <= i < n implies is_ascii_digit(#[trigger] d.take(n)[i]) by {
        assert(d.take(n)[i] == d[i]);
    }
    assert forall|i: int| 0 <= i < d.len() - n implies is_ascii_digit(#[trigger] d.skip(n)[i]) by {
        assert(d.skip(n)[i] == d[n + i]);
    }
}

proof fn lemma_value_lower(d: Seq<char>)
    requires
        normalized_digits(d),
        d.len() >= 1,
    ensures
        decimal_value(d) >= pow10((d.len() - 1) as nat),
    decreases d.len(),
{
    assert(is_ascii_digit(d[0]));
    assert(is_ascii_digit(d[d.len() - 1]));
    assert(digit_value(d.last()) >= 0);
    if d.len() > 1 {
        lemma_digits_prefix(d, d.len() - 1);
        assert(d.take(d.len() - 1) == d.drop_last());
        assert(d.drop_last()[0] == d[0]);
        lemma_value_lower(d.drop_last());
        assert(pow10((d.len() - 1) as nat) == 10 * pow10((d.len() - 2) as nat));
        assert(decimal_value(d) == 10 * decimal_value(d.drop_last()) + digit_value(d.last()));
        assert(decimal_value(d.drop_last()) >= pow10((d.len() - 2) as nat));
    } else {
        assert(pow10(0) == 1);
        assert(decimal_value(d.drop_last()) == 0);
        assert(decimal_value(d) == digit_value(d[0]));
        assert(d.last() == d[0]);
        assert(d.drop_last().len() == 0);
        assert(digit_value(d[0]) >= 1);
    }
}

proof fn lemma_value_lex(d1: Seq<char>, d2: Seq<char>, k: int)
    requires
        all_ascii_digits(d1),
        all_ascii_digits(d2),
        d1.len() == d2.len(),
        0 <= k < d1.len(),
        forall|i: int| 0 <= i < k ==> d1[i] == d2[i],
        d1[k] < d2[k],
    ensures
        decimal_value(d1) < decimal_value(d2),
    decreases d1.len(),
{
    let n = d1.len() as int;
    lemma_digits_prefix(d1, n - 1);
    lemma_digits_prefix(d2, n - 1);
    assert(d1.take(n - 1) == d1.drop_last());
    assert(d2.take(n - 1) == d2.drop_last());
    assert(is_ascii_digit(d1[n - 1]));
    assert(is_ascii_digit(d2[n - 1]));
    if k == n - 1 {
        assert(d1.drop_last() =~= d2.drop_last());
    } else {
        lemma_value_lex(d1.drop_last(), d2.drop_last(), k);
    }
}

proof fn lemma_leading_zeros(d: Seq<char>, k: int)
    requires
        0 <= k <= d.len(),
        forall|i: int| 0 <= i < k ==> d[i] == '0',
    ensures
        decimal_value(d) == decimal_value(d.skip(k)),
    decreases d.len(),
{
    if d.len() > 0 {
        let n = d.len() as int;
        if k == n {
            lemma_leading_zeros(d.drop_last(), k - 1);
            assert(d.drop_last().skip(k - 1).len() == 0);
            assert(d.skip(k).len() == 0);
        } else {
            lemma_leading_zeros(d.drop_last(), k);
            assert(d.skip(k).drop_last() =~= d.drop_last().skip(k));
            assert(d.skip(k).last() == d.last());
        }
    }
}

/// The numeric order of normalised digit strings, decided by length and then
/// by the first differing digit.
fn digits_less(a: &Vec<char>, b: &Vec<char>) -> (r: bool)
    requires
        normalized_digits(a@),
        normalized_digits(b@),
    ensures
        r == (decimal_value(a@) < decimal_value(b@)),
{
    if a.len() != b.len() {
        proof {
            lemma_value_upper(a@);
            lemma_value_upper(b@);
            if a.len() < b.len() {
                lemma_value_lower(b@);
                lemma_pow10_mono(a.len() as nat, (b.len() - 1) as nat);
            } else {
                lemma_value_lower(a@);
                lemma_pow10_mono(b.len() as nat, (a.len() - 1) as nat);
            }
        }
        return a.len() < b.len();
    }
    let mut i: usize = 0;
    while i < a.len()
        invariant
            a.len() == b.len(),
            i <= a.len(),
            normalized_digits(a@),
            normalized_digits(b@),
            forall|j: int| 0 <= j < i ==> a@[j] == b@[j],
        decreases a.len() - i,
    {
        if a[i] != b[i] {
            proof {
                if a@[i as int] < b@[i as int] {
                    lemma_value_lex(a@, b@, i as int);
                } else {
                    lemma_value_lex(b@, a@, i as int);
                }
            }
            return a[i] < b[i];
        }
        i = i + 1;
    }
    assert(a@ =~= b@);
    false
}

/// The value of a digit string of at most ten digits.
fn small_value(d: &Vec<char>) -> (v: u64)
    requires
        all_ascii_digits(d@),
        d.len() <= 10,
    ensures
        v == decimal_value(d@),
        v < 10000000000,
{
    let mut v: u64 = 0;
    let mut i: usize = 0;
    proof {
        lemma_pow10_ten();
    }
    assert(d@.take(0) =~= Seq::<char>::empty());
    while i < d.len()
        invariant
            i <= d.len() <= 10,
            all_ascii_digits(d@),
            v == decimal_value(d@.take(i as int)),
            v < pow10(i as nat),
            pow10(10) == 10000000000,
        decreases d.len() - i,
    {
        let c = d[i];
        assert(is_ascii_digit(d@[i as int]));
        proof {
            lemma_pow10_mono(i as nat, 10);
            assert(d@.take(i + 1).drop_last() =~= d@.take(i as int));
        }
        let x: u64 = (c as u32 - '0' as u32) as u64;
        v = v * 10 + x;
        i = i + 1;
    }
    assert(d@.take(d.len() as int) =~= d@);
    proof {
        lemma_value_upper(d@);
        lemma_pow10_mono(d.len() as nat, 10);
    }
    v
}

/// How a channel is placed among the channels of its category, in units of
/// one half: a CCTV number n counts 2n, "CCTV5+" counts 11, a satellite
/// channel at list position i counts 2i.
enum SubOrder {
    Number(Vec<char>),
    Halves(u32),
}

impl SubOrder {
    spec fn value(&self) -> int {
        match self {
            SubOrder::Number(d) => 2 * decimal_value(d@),
            SubOrder::Halves(h) => *h as int,
        }
    }

    spec fn wf(&self) -> bool {
        match self {
            SubOrder::Number(d) => normalized_digits(d@),
            SubOrder::Halves(_) => true,
        }
    }
}

fn sub_less(a: &SubOrder, b: &SubOrder) -> (r: bool)
    requires
        a.wf(),
        b.wf(),
    ensures
        r == (a.value() < b.value()),
{
    match (a, b) {
        (SubOrder::Halves(x), SubOrder::Halves(y)) => *x < *y,
        (SubOrder::Number(d), SubOrder::Halves(h)) => {
            if d.len() > 10 {
                proof {
                    lemma_value_lower(d@);
                    lemma_pow10_mono(10, (d.len() - 1) as nat);
                    lemma_pow10_ten();
                }
                false
            } else {
                let v = small_value(d);
                2 * v < *h as u64
            }
        },
        (SubOrder::Halves(h), SubOrder::Number(d)) => {
            if d.len() > 10 {
                proof {
                    lemma_value_lower(d@);
                    lemma_pow10_mono(10, (d.len() - 1) as nat);
                    lemma_pow10_ten();
                }
                true
            } else {
                let v = small_value(d);
                (*h as u64) < 2 * v
            }
        },
        (SubOrder::Number(x), SubOrder::Number(y)) => digits_less(x, y),
    }
}

/// A digit string with its leading zeros removed.
fn normalize_digits(d: &Vec<char>) -> (r: Vec<char>)
    requires
        all_ascii_digits(d@),
    ensures
        normalized_digits(r@),
        decimal_value(r@) == decimal_value(d@),
{
    let mut k: usize = 0;
    while k < d.len() && d[k] == '0'
        invariant
            k <= d.len(),
            forall|i: int| 0 <= i < k ==> d@[i] == '0',
        decreases d.len() - k,
    {
        k = k + 1;
    }
    let mut r: Vec<char> = Vec::new();
    let mut i: usize = k;
    while i < d.len()
        invariant
            k <= i <= d.len(),
            r@ == d@.subrange(k as int, i as int),
        decreases d.len() - i,
    {
        r.push(d[i]);
        i = i + 1;
        assert(r@ == d@.subrange(k as int, i as int));
    }
    proof {
        assert(r@ =~= d@.skip(k as int));
        lemma_digits_prefix(d@, k as int);
        lemma_leading_zeros(d@, k as int);
    }
    r
}

/// What the regular expression `CCTV(\d+)` captures as its group for a
/// string: the digits after the first "CCTV" that is followed by a digit.
pub uninterp spec fn cctv_number_of(upper: Seq<char>) -> Option<Seq<char>>;

/// Calls `regex::Regex::captures` with the pattern `CCTV(\d+)` and returns
/// the text of the first group.  The contract names the result: `\d`
/// matches every Unicode decimal digit, a table-driven class.
#[verifier::external_body]
fn cctv_number(upper: &str) -> (r: Option<String>)
    ensures
        r.deep_view() == cctv_number_of(upper@),
{
    match regex::Regex::new(r"CCTV(\d+)").unwrap().captures(upper) {
        Some(caps) => Some(caps[1].to_string()),
        None => None,
    }
}

/// The position of a CCTV channel among the CCTV channels, in halves: twice
/// its number when the captured digits are ASCII (a string of other decimal
/// digits does not parse as a number), 11 for "5+" (that is, 5.5), 1998
/// (that is, 999) otherwise.
pub open spec fn cctv_sub_order(upper: Seq<char>, number: Option<Seq<char>>) -> int {
    match number {
        Some(d) => if d.len() > 0 && all_ascii_digits(d) {
            2 * decimal_value(d)
        } else {
            1998
        },
        None => if has_sub(upper, "5+"@) {
            11
        } else {
            1998
        },
    }
}

/// The sort key of a channel, given its name, the upper-case form of the
/// name and the digits that follow "CCTV" in it: category 0 for CCTV
/// channels, ordered by number; category 1 for satellite channels, ordered by
/// their place in the satellite list (unlisted ones last) and then by name;
/// category 2 for the rest, ordered by name.  The middle component counts
/// halves.
pub open spec fn sort_key_with(name: Seq<char>, upper: Seq<char>, number: Option<Seq<char>>) -> (
    int,
    int,
    Seq<char>,
) {
    if has_sub(upper, "CCTV"@) {
        (0, cctv_sub_order(upper, number), Seq::empty())
    } else if has_sub(name, "卫视"@) {
        match weixi_index_of(name) {
            Some(i) => (1, 2 * i, name),
            None => (1, 2 * weixi_order().len() as int, name),
        }
    } else {
        (2, 0, name)
    }
}

/// The sort key of a channel name.
pub open spec fn sort_key_of(name: Seq<char>) -> (int, int, Seq<char>) {
    let upper = uppercase_of(name);
    sort_key_with(name, upper, cctv_number_of(upper))
}

/// Strict lexicographic order of sort keys.
pub open spec fn key_lt(a: (int, int, Seq<char>), b: (int, int, Seq<char>)) -> bool {
    a.0 < b.0 || (a.0 == b.0 && (a.1 < b.1 || (a.1 == b.1 && seq_lt(a.2, b.2))))
}

/// The sort key of a channel: category, position within the category, name.
pub struct ChannelSortKey {
    category: i32,
    sub: SubOrder,
    name: String,
}

impl ChannelSortKey {
    #[verifier::type_invariant]
    closed spec fn wf(self) -> bool {
        self.sub.wf()
    }

    /// The key as (category, position in halves, name).
    pub closed spec fn model(self) -> (int, int, Seq<char>) {
        (self.category as int, self.sub.value(), self.name@)
    }

    /// The category: 0 for CCTV channels, 1 for satellite channels, 2 for
    /// the rest.
    pub fn category(&self) -> (c: i32)
        ensures
            c == self@.0,
    {
        self.category
    }

    /// The position within the category, counted in halves: twice the
    /// channel number for a CCTV channel, twice the place in the satellite
    /// list for a satellite channel.  `None` where the count exceeds
    /// `u64::MAX` (a CCTV number of twenty digits or more).
    pub fn position_halves(&self) -> (r: Option<u64>)
        ensures
            match r {
                Some(h) => h == self@.1,
                None => self@.1 > u64::MAX,
            },
    {
        proof {
            use_type_invariant(self);
        }
        match &self.sub {
            SubOrder::Halves(h) => Some(*h as u64),
            SubOrder::Number(d) => {
                if d.len() == 0 {
                    Some(0)
                } else {
                    assert(is_ascii_digit(d@[0]));
                    assert(d@[0] != '+');
                    proof {
                        lemma_value_lower(d@);
                        lemma_pow10_mono(0, (d.len() - 1) as nat);
                    }
                    let text = string_of(d);
                    assert(parse_u64_of(text@) == if decimal_value(d@) <= u64::MAX {
                        Some(decimal_value(d@) as u64)
                    } else {
                        None
                    });
                    match parse_u64(text.as_str()) {
                        Some(v) => v.checked_mul(2),
                        None => None,
                    }
                }
            },
        }
    }

    /// The name part of the key (empty for CCTV channels).
    pub fn name(&self) -> (n: &str)
        ensures
            n@ == self@.2,
    {
        self.name.as_str()
    }
}

impl View for ChannelSortKey {
    type V = (int, int, Seq<char>);

    open spec fn view(&self) -> (int, int, Seq<char>) {
        self.model()
    }
}

/// The sort key of a channel, given its name, the upper-case form of the name
/// and the digits that the pattern `CCTV(\d+)` captures in that form.
pub fn sort_key_from(name: &str, upper: &str, number: Option<&str>) -> (k: ChannelSortKey)
    ensures
        k@ == sort_key_with(name@, upper@, number.deep_view()),
{
    if str_contains(upper, "CCTV") {
        let sub = match number {
            Some(d) => {
                let dv = chars_of(d);
                let mut ok = dv.len() > 0;
                let mut i: usize = 0;
                while i < dv.len()
                    invariant
                        i <= dv.len(),
                        ok == (dv@.len() > 0 && forall|j: int|
                            0 <= j < i ==> is_ascii_digit(#[trigger] dv@[j])),
                    decreases dv.len() - i,
                {
                    if !(dv[i] >= '0' && dv[i] <= '9') {
                        ok = false;
                    }
                    i = i + 1;
                }
                assert(ok == (d@.len() > 0 && all_ascii_digits(d@)));
                if ok {
                    SubOrder::Number(normalize_digits(&dv))
                } else {
                    SubOrder::Halves(1998)
                }
            },
            None => {
                if str_contains(upper, "5+") {
                    SubOrder::Halves(11)
                } else {
                    SubOrder::Halves(1998)
                }
            },
        };
        let k = ChannelSortKey { category: 0, sub, name: String::new() };
        assert(k.sub.value() == cctv_sub_order(upper@, number.deep_view()));
        k
    } else if str_contains(name, "卫视") {
        let sub = match weixi_sort_index(name) {
            Some(i) => {
                proof {
                    lemma_first_keyword(name@, weixi_order());
                }
                SubOrder::Halves(2 * (i as u32))
            },
            None => SubOrder::Halves(66),
        };
        ChannelSortKey { category: 1, sub, name: String::from_str(name) }
    } else {
        ChannelSortKey { category: 2, sub: SubOrder::Halves(0), name: String::from_str(name) }
    }
}

/// The sort key of a channel name.
pub fn channel_sort_key(name: &str) -> (k: ChannelSortKey)
    ensures
        k@ == sort_key_of(name@),
{
    let upper = to_uppercase(name);
    let number = cctv_number(upper.as_str());
    let num_ref: Option<&str> = match &number {
        Some(s) => Some(s.as_str()),
        None => None,
    };
    sort_key_from(name, upper.as_str(), num_ref)
}

/// The strict lexicographic order of strings by character value.
pub fn chars_less(a: &Vec<char>, b: &Vec<char>) -> (r: bool)
    ensures
        r == seq_lt(a@, b@),
{
    let mut i: usize = 0;
    assert(a@.skip(0) =~= a@);
    assert(b@.skip(0) =~= b@);
    while i < a.len() && i < b.len()
        invariant
            i <= a.len(),
            i <= b.len(),
            seq_lt(a@, b@) == seq_lt(a@.skip(i as int), b@.skip(i as int)),
        decreases a.len() - i,
    {
        if a[i] != b[i] {
            return a[i] < b[i];
        }
        assert(a@.skip(i as int).skip(1) =~= a@.skip(i + 1));
        assert(b@.skip(i as int).skip(1) =~= b@.skip(i + 1));
        i = i + 1;
    }
    a.len() - i == 0 && b.len() - i > 0
}

/// Whether key `a` orders strictly before key `b`.
pub fn key_less(a: &ChannelSortKey, b: &ChannelSortKey) -> (r: bool)
    ensures
        r == key_lt(a@, b@),
{
    proof {
        use_type_invariant(a);
        use_type_invariant(b);
    }
    if a.category != b.category {
        return a.category < b.category;
    }
    if sub_less(&a.sub, &b.sub) {
        return true;
    }
    if sub_less(&b.sub, &a.sub) {
        return false;
    }
    let an = chars_of(a.name.as_str());
    let bn = chars_of(b.name.as_str());
    chars_less(&an, &bn)
}

/// No string orders strictly before itself.
pub proof fn lemma_seq_lt_irreflexive(a: Seq<char>)
    ensures
        !seq_lt(a, a),
    decreases a.len(),
{
    if a.len() > 0 {
        lemma_seq_lt_irreflexive(a.skip(1));
    }
}

/// The order of strings is transitive.
pub proof fn lemma_seq_lt_transitive(a: Seq<char>, b: Seq<char>, c: Seq<char>)
    requires
        seq_lt(a, b),
        seq_lt(b, c),
    ensures
        seq_lt(a, c),
    decreases a.len(),
{
    if a.len() > 0 && b.len() > 0 && c.len() > 0 {
        if a[0] == b[0] && b[0] == c[0] {
            lemma_seq_lt_transitive(a.skip(1), b.skip(1), c.skip(1));
        }
    }
}

/// Of two different strings, one orders strictly before the other.
pub proof fn lemma_seq_lt_total(a: Seq<char>, b: Seq<char>)
    requires
        a != b,
    ensures
        seq_lt(a, b) || seq_lt(b, a),
    decreases a.len(),
{
    if a.len() > 0 && b.len() > 0 {
        if a[0] == b[0] {
            if a.skip(1) == b.skip(1) {
                assert(a =~= seq![a[0]] + a.skip(1));
                assert(b =~= seq![b[0]] + b.skip(1));
            }
            lemma_seq_lt_total(a.skip(1), b.skip(1));
        } else {
            assert(a[0] < b[0] || b[0] < a[0]);
        }
    } else if a.len() == 0 && b.len() == 0 {
        assert(a =~= b);
    }
}

/// No key orders strictly before itself.
pub proof fn lemma_key_lt_irreflexive(a: (int, int, Seq<char>))
    ensures
        !key_lt(a, a),
{
    lemma_seq_lt_irreflexive(a.2);
}

/// The order of keys is transitive.
pub proof fn lemma_key_lt_transitive(
    a: (int, int, Seq<char>),
    b: (int, int, Seq<char>),
    c: (int, int, Seq<char>),
)
    requires
        key_lt(a, b),
        key_lt(b, c),
    ensures
        key_lt(a, c),
{
    if a.0 == b.0 && b.0 == c.0 && a.1 == b.1 && b.1 == c.1 {
        lemma_seq_lt_transitive(a.2, b.2, c.2);
    }
}

/// Of three strings, if the first orders before the third, it orders before
/// the second or the second orders before the third.
pub proof fn lemma_seq_lt_negative_transitive(a: Seq<char>, b: Seq<char>, c: Seq<char>)
    requires
        seq_lt(a, c),
    ensures
        seq_lt(a, b) || seq_lt(b, c),
{
    if b != a && b != c && !seq_lt(a, b) && !seq_lt(b, c) {
        lemma_seq_lt_total(a, b);
        lemma_seq_lt_total(b, c);
        lemma_seq_lt_transitive(c, b, a);
        lemma_seq_lt_transitive(a, c, a);
        lemma_seq_lt_irreflexive(a);
    }
}

/// Of three keys, if the first orders before the third, it orders before the
/// second or the second orders before the third.
pub proof fn lemma_key_lt_negative_transitive(
    a: (int, int, Seq<char>),
    b: (int, int, Seq<char>),
    c: (int, int, Seq<char>),
)
    requires
        key_lt(a, c),
    ensures
        key_lt(a, b) || key_lt(b, c),
{
    if a.0 == b.0 && b.0 == c.0 && a.1 == b.1 && b.1 == c.1 {
        lemma_seq_lt_negative_transitive(a.2, b.2, c.2);
    }
}

} // verus!
