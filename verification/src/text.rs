//! Character-level text operations used by the channel and playlist logic.
//!
//! Strings are modelled by their view, a `Seq<char>`.  The searching and
//! replacing here follow the left-to-right, non-overlapping semantics of
//! `str::contains`, `str::find` and `str::replace`.
use vstd::prelude::*;

verus! {

/// `p` occurs in `s` starting at position `i`.
pub open spec fn occurs_at(s: Seq<char>, p: Seq<char>, i: int) -> bool {
    0 <= i && i + p.len() <= s.len() && s.subrange(i, i + p.len()) == p
}

/// `p` occurs somewhere in `s` (the empty pattern occurs everywhere).
pub open spec fn has_sub(s: Seq<char>, p: Seq<char>) -> bool {
    exists|i: int| #[trigger] occurs_at(s, p, i)
}

/// Every non-overlapping occurrence of the non-empty pattern `p`, found from
/// left to right, replaced by `r`.
pub open spec fn replaced(s: Seq<char>, p: Seq<char>, r: Seq<char>) -> Seq<char>
    decreases s.len(),
{
    if p.len() == 0 || s.len() < p.len() {
        s
    } else if s.take(p.len() as int) == p {
        r + replaced(s.skip(p.len() as int), p, r)
    } else {
        seq![s[0]] + replaced(s.skip(1), p, r)
    }
}

/// Every occurrence of the non-empty pattern `p` removed.
pub open spec fn removed(s: Seq<char>, p: Seq<char>) -> Seq<char> {
    replaced(s, p, Seq::empty())
}

/// Lexicographic order on strings by character value.
pub open spec fn seq_lt(a: Seq<char>, b: Seq<char>) -> bool
    decreases a.len(),
{
    if a.len() == 0 {
        b.len() > 0
    } else if b.len() == 0 {
        false
    } else if a[0] != b[0] {
        a[0] < b[0]
    } else {
        seq_lt(a.skip(1), b.skip(1))
    }
}

/// The lines of `s` as `str::lines` yields them: pieces separated by `'\n'`,
/// a final empty piece dropped, and one `'\r'` removed from the end of each
/// piece that a `'\n'` ended.
pub open spec fn lines_of(s: Seq<char>) -> Seq<Seq<char>> {
    let p = split_newlines(s);
    let ended = p.drop_last().map_values(|l: Seq<char>| strip_cr(l));
    if p.last().len() == 0 {
        ended
    } else {
        ended.push(p.last())
    }
}

/// The pieces of `s` between `'\n'` characters; there is always at least one.
pub open spec fn split_newlines(s: Seq<char>) -> Seq<Seq<char>>
    decreases s.len(),
{
    if s.len() == 0 {
        seq![Seq::empty()]
    } else {
        let p = split_newlines(s.drop_last());
        if s.last() == '\n' {
            p.push(Seq::empty())
        } else {
            p.update(p.len() - 1, p.last().push(s.last()))
        }
    }
}

/// One trailing `'\r'` removed, if there is one.
pub open spec fn strip_cr(l: Seq<char>) -> Seq<char> {
    if l.len() > 0 && l.last() == '\r' {
        l.drop_last()
    } else {
        l
    }
}

pub proof fn lemma_split_newlines_nonempty(s: Seq<char>)
    ensures
        split_newlines(s).len() >= 1,
    decreases s.len(),
{
    if s.len() > 0 {
        lemma_split_newlines_nonempty(s.drop_last());
    }
}

/// What `str::to_uppercase` returns for a string: its Unicode upper-case mapping.
pub uninterp spec fn uppercase_of(s: Seq<char>) -> Seq<char>;

/// `t` is a contiguous part of `s`.
pub open spec fn is_slice_of(t: Seq<char>, s: Seq<char>) -> bool {
    exists|i: int, j: int| 0 <= i <= j <= s.len() && t == s.subrange(i, j)
}

/// What `str::trim` returns for a string: the string without leading and
/// trailing Unicode white space.
pub uninterp spec fn trimmed_of(s: Seq<char>) -> Seq<char>;

/// Calls `str::to_uppercase`.  The contract names the result and states
/// nothing more of it: Unicode case mapping is table-driven.
#[verifier::external_body]
pub(crate) fn to_uppercase(s: &str) -> (r: String)
    ensures
        r@ == uppercase_of(s@),
{
    s.to_uppercase()
}

/// Calls `str::trim`.  The contract names the result and states that it is a
/// contiguous part of `s`, since `trim` only removes characters at the two
/// ends.  Which characters it removes (those with the Unicode White_Space
/// property) is left unstated.
#[verifier::external_body]
pub(crate) fn trim(s: &str) -> (r: String)
    ensures
        r@ == trimmed_of(s@),
        is_slice_of(r@, s@),
{
    s.trim().to_string()
}

/// Calls `String::push`, which appends one character.
#[verifier::external_body]
pub(crate) fn push_char(s: &mut String, c: char)
    ensures
        final(s)@ == old(s)@.push(c),
{
    s.push(c);
}

/// The characters of `s`, in order.
pub fn chars_of(s: &str) -> (v: Vec<char>)
    ensures
        v@ == s@,
{
    let n = s.unicode_len();
    let mut v: Vec<char> = Vec::new();
    let mut i: usize = 0;
    while i < n
        invariant
            n == s@.len(),
            i <= n,
            v@ == s@.take(i as int),
        decreases n - i,
    {
        v.push(s.get_char(i));
        i = i + 1;
        assert(v@ == s@.take(i as int));
    }
    assert(s@.take(n as int) == s@);
    v
}

/// A `String` holding exactly the characters of `v`.
pub fn string_of(v: &Vec<char>) -> (s: String)
    ensures
        s@ == v@,
{
    let mut s = String::new();
    let mut i: usize = 0;
    while i < v.len()
        invariant
            i <= v.len(),
            s@ == v@.take(i as int),
        decreases v.len() - i,
    {
        push_char(&mut s, v[i]);
        i = i + 1;
        assert(s@ == v@.take(i as int));
    }
    assert(v@.take(v.len() as int) == v@);
    s
}

/// Whether `p` occurs in `s` at position `i`.
pub fn occurs_at_exec(s: &Vec<char>, p: &Vec<char>, i: usize) -> (b: bool)
    ensures
        b == occurs_at(s@, p@, i as int),
{
    if i > s.len() || p.len() > s.len() - i {
        return false;
    }
    let mut j: usize = 0;
    while j < p.len()
        invariant
            i + p.len() <= s.len(),
            j <= p.len(),
            forall|k: int| 0 <= k < j ==> s@[i + k] == p@[k],
        decreases p.len() - j,
    {
        if s[i + j] != p[j] {
            assert(s@.subrange(i as int, i + p.len())[j as int] != p@[j as int]);
            return false;
        }
        j = j + 1;
    }
    assert(s@.subrange(i as int, i + p.len()) == p@);
    true
}

/// The first position at which `p` occurs in `s`, if any.
pub fn find_chars(s: &Vec<char>, p: &Vec<char>) -> (r: Option<usize>)
    ensures
        match r {
            Some(i) => occurs_at(s@, p@, i as int) && forall|j: int|
                0 <= j < i ==> !occurs_at(s@, p@, j),
            None => !has_sub(s@, p@),
        },
{
    let mut i: usize = 0;
    while i < s.len()
        invariant
            i <= s.len(),
            forall|j: int| 0 <= j < i ==> !occurs_at(s@, p@, j),
        decreases s.len() - i,
    {
        if occurs_at_exec(s, p, i) {
            return Some(i);
        }
        i = i + 1;
    }
    if occurs_at_exec(s, p, i) {
        return Some(i);
    }
    assert forall|j: int| !occurs_at(s@, p@, j) by {
        if 0 <= j <= i {
        } else if j > s.len() {
        }
    }
    None
}

/// Whether `p` occurs in `s`.
pub fn contains_chars(s: &Vec<char>, p: &Vec<char>) -> (b: bool)
    ensures
        b == has_sub(s@, p@),
{
    match find_chars(s, p) {
        Some(i) => {
            assert(occurs_at(s@, p@, i as int));
            true
        },
        None => false,
    }
}

/// Whether `p` occurs in `s`, as `str::contains` with a string pattern.
pub fn str_contains(s: &str, p: &str) -> (b: bool)
    ensures
        b == has_sub(s@, p@),
{
    let sv = chars_of(s);
    let pv = chars_of(p);
    contains_chars(&sv, &pv)
}

/// Whether two strings hold the same characters.
pub fn chars_eq(a: &Vec<char>, b: &Vec<char>) -> (r: bool)
    ensures
        r == (a@ == b@),
{
    if a.len() != b.len() {
        return false;
    }
    let mut i: usize = 0;
    while i < a.len()
        invariant
            a.len() == b.len(),
            i <= a.len(),
            forall|k: int| 0 <= k < i ==> a@[k] == b@[k],
        decreases a.len() - i,
    {
        if a[i] != b[i] {
            return false;
        }
        i = i + 1;
    }
    assert(a@ == b@);
    true
}

/// Whether two string slices hold the same characters.
pub fn str_eq(a: &str, b: &str) -> (r: bool)
    ensures
        r == (a@ == b@),
{
    let av = chars_of(a);
    let bv = chars_of(b);
    chars_eq(&av, &bv)
}

proof fn lemma_replaced_step(s: Seq<char>, p: Seq<char>, r: Seq<char>, i: int)
    requires
        p.len() > 0,
        0 <= i < s.len(),
    ensures
        occurs_at(s, p, i) ==> replaced(s.skip(i), p, r) == r + replaced(
            s.skip(i + p.len()),
            p,
            r,
        ),
        !occurs_at(s, p, i) ==> replaced(s.skip(i), p, r) == seq![s[i]] + replaced(
            s.skip(i + 1),
            p,
            r,
        ),
{
    let t = s.skip(i);
    if t.len() >= p.len() {
        assert(t.take(p.len() as int) == s.subrange(i, i + p.len()));
    }
    if i + p.len() <= s.len() {
        assert(t.skip(p.len() as int) == s.skip(i + p.len()));
    }
    assert(t.skip(1) == s.skip(i + 1));
    if t.len() < p.len() {
        lemma_replaced_short(s.skip(i + 1), p, r);
        assert(t == seq![s[i]] + s.skip(i + 1));
    }
}

proof fn lemma_replaced_short(s: Seq<char>, p: Seq<char>, r: Seq<char>)
    requires
        s.len() < p.len(),
    ensures
        replaced(s, p, r) == s,
{
}

/// Replacing in `a + b` leaves `a` as it is when `p` does not occur in `a`
/// and no occurrence can reach from `a` into `b`: no character of `p` after
/// its first is the first character of `b`.
pub proof fn lemma_replaced_concat(a: Seq<char>, b: Seq<char>, p: Seq<char>, r: Seq<char>)
    requires
        p.len() > 0,
        b.len() > 0,
        !has_sub(a, p),
        forall|k: int| 1 <= k < p.len() ==> #[trigger] p[k] != b[0],
    ensures
        replaced(a + b, p, r) == a + replaced(b, p, r),
    decreases a.len(),
{
    let s = a + b;
    if a.len() == 0 {
        assert(s =~= b);
        assert(a + replaced(b, p, r) =~= replaced(b, p, r));
    } else if s.len() < p.len() {
        assert(b.len() < p.len());
    } else if s.take(p.len() as int) == p {
        if p.len() <= a.len() {
            assert(a.subrange(0, p.len() as int) =~= s.take(p.len() as int));
            assert(occurs_at(a, p, 0));
        } else {
            assert(s[a.len() as int] == b[0]);
            assert(p[a.len() as int] == s.take(p.len() as int)[a.len() as int]);
        }
    } else {
        let t = a.skip(1);
        assert(!has_sub(t, p)) by {
            if has_sub(t, p) {
                let i = choose|i: int| occurs_at(t, p, i);
                assert(t.subrange(i, i + p.len()) =~= a.subrange(i + 1, i + 1 + p.len()));
                assert(occurs_at(a, p, i + 1));
            }
        }
        lemma_replaced_concat(t, b, p, r);
        assert(s.skip(1) =~= t + b);
        assert(seq![s[0]] + (t + replaced(b, p, r)) =~= a + replaced(b, p, r));
    }
}

/// Replacing in `a + n`: where `a` is the pattern, it becomes `r` and the
/// rest is `n`; where `a` does not hold the pattern's first character, `a`
/// stays; either way `n`, which does not hold the pattern, stays.
pub proof fn lemma_replaced_prefix(a: Seq<char>, n: Seq<char>, p: Seq<char>, r: Seq<char>)
    requires
        p.len() > 0,
        !has_sub(n, p),
        a == p || !a.contains(p[0]),
    ensures
        replaced(a + n, p, r) == if a == p {
            r + n
        } else {
            a + n
        },
    decreases a.len(),
{
    let s = a + n;
    if a == p {
        assert(s.take(p.len() as int) =~= p);
        assert(s.skip(p.len() as int) =~= n);
        lemma_replaced_absent(n, p, r);
    } else if a.len() == 0 {
        assert(s =~= n);
        lemma_replaced_absent(n, p, r);
    } else {
        if s.len() >= p.len() && s.take(p.len() as int) == p {
            assert(s.take(p.len() as int)[0] == a[0]);
            assert(a.contains(a[0]));
        }
        let t = a.skip(1);
        assert(!t.contains(p[0])) by {
            if t.contains(p[0]) {
                let k = choose|k: int| 0 <= k < t.len() && t[k] == p[0];
                assert(a[k + 1] == p[0]);
            }
        }
        if t == p {
            assert(t[0] == p[0]);
        }
        lemma_replaced_prefix(t, n, p, r);
        assert(s.skip(1) =~= t + n);
        if s.len() < p.len() {
            assert(n.len() < p.len());
            lemma_replaced_absent(n, p, r);
        }
        assert(seq![s[0]] + (t + n) =~= a + n);
    }
}

/// Replacing a pattern that does not occur changes nothing.
pub proof fn lemma_replaced_absent(s: Seq<char>, p: Seq<char>, r: Seq<char>)
    requires
        !has_sub(s, p),
    ensures
        replaced(s, p, r) == s,
    decreases s.len(),
{
    if p.len() > 0 && s.len() >= p.len() {
        if s.take(p.len() as int) == p {
            assert(occurs_at(s, p, 0));
        } else {
            let t = s.skip(1);
            assert(!has_sub(t, p)) by {
                if has_sub(t, p) {
                    let i = choose|i: int| occurs_at(t, p, i);
                    assert(t.subrange(i, i + p.len()) =~= s.subrange(i + 1, i + 1 + p.len()));
                    assert(occurs_at(s, p, i + 1));
                }
            }
            lemma_replaced_absent(t, p, r);
            assert(seq![s[0]] + t =~= s);
        }
    }
}

/// A pattern that is no shorter than a string and differs from it does not
/// occur in it.
pub proof fn lemma_no_sub_of_short(s: Seq<char>, p: Seq<char>)
    requires
        s.len() <= p.len(),
        s != p,
    ensures
        !has_sub(s, p),
{
    if has_sub(s, p) {
        let i = choose|i: int| occurs_at(s, p, i);
        assert(i == 0);
        assert(s.subrange(0, s.len() as int) =~= s);
    }
}

/// `s` with every non-overlapping occurrence of the non-empty `p`, from left
/// to right, replaced by `r`: what `str::replace` returns.
pub fn replace_chars(s: &Vec<char>, p: &Vec<char>, r: &Vec<char>) -> (out: Vec<char>)
    requires
        p.len() > 0,
    ensures
        out@ == replaced(s@, p@, r@),
{
    let mut out: Vec<char> = Vec::new();
    let mut i: usize = 0;
    assert(s@.skip(0) == s@);
    while i < s.len()
        invariant
            p.len() > 0,
            i <= s.len(),
            out@ + replaced(s@.skip(i as int), p@, r@) == replaced(s@, p@, r@),
        decreases s.len() - i,
    {
        proof {
            lemma_replaced_step(s@, p@, r@, i as int);
        }
        if occurs_at_exec(s, p, i) {
            let ghost before = out@;
            let mut k: usize = 0;
            while k < r.len()
                invariant
                    k <= r.len(),
                    out@ == before + r@.take(k as int),
                decreases r.len() - k,
            {
                out.push(r[k]);
                k = k + 1;
                assert(out@ == before + r@.take(k as int));
            }
            assert(r@.take(r.len() as int) == r@);
            assert(out@ + replaced(s@.skip(i + p.len()), p@, r@) == before + (r@ + replaced(
                s@.skip(i + p.len()),
                p@,
                r@,
            )));
            i = i + p.len();
        } else {
            let ghost before = out@;
            out.push(s[i]);
            assert(out@ + replaced(s@.skip(i + 1), p@, r@) == before + (seq![s@[i as int]]
                + replaced(s@.skip(i + 1), p@, r@)));
            i = i + 1;
        }
    }
    assert(s@.skip(i as int).len() == 0);
    assert(out@ + replaced(s@.skip(i as int), p@, r@) == out@);
    out
}

/// `s` with every occurrence of the non-empty `p` replaced by `r`, as
/// `str::replace` does.
pub fn str_replace(s: &str, p: &str, r: &str) -> (out: String)
    requires
        p@.len() > 0,
    ensures
        out@ == replaced(s@, p@, r@),
{
    let sv = chars_of(s);
    let pv = chars_of(p);
    let rv = chars_of(r);
    let ov = replace_chars(&sv, &pv, &rv);
    string_of(&ov)
}

/// A character occurs in a concatenation exactly when it occurs in a part.
pub proof fn lemma_concat_contains<A>(a: Seq<A>, b: Seq<A>, c: A)
    ensures
        (a + b).contains(c) <==> (a.contains(c) || b.contains(c)),
{
    if (a + b).contains(c) {
        let k = choose|k: int| 0 <= k < (a + b).len() && (a + b)[k] == c;
        if k < a.len() {
            assert(a[k] == c);
        } else {
            assert(b[k - a.len()] == c);
        }
    }
    if a.contains(c) {
        let k = choose|k: int| 0 <= k < a.len() && a[k] == c;
        assert((a + b)[k] == c);
    }
    if b.contains(c) {
        let k = choose|k: int| 0 <= k < b.len() && b[k] == c;
        assert((a + b)[a.len() + k] == c);
    }
}

/// Replacing brings in only characters of the replacement, and replacing a
/// one-character pattern by text without that character removes it.
pub proof fn lemma_replaced_contains(s: Seq<char>, p: Seq<char>, r: Seq<char>, c: char)
    requires
        p.len() > 0,
    ensures
        replaced(s, p, r).contains(c) ==> (s.contains(c) || r.contains(c)),
        p == seq![c] && !r.contains(c) ==> !replaced(s, p, r).contains(c),
    decreases s.len(),
{
    if s.len() >= p.len() {
        if s.take(p.len() as int) == p {
            let rest = s.skip(p.len() as int);
            lemma_replaced_contains(rest, p, r, c);
            lemma_concat_contains(r, replaced(rest, p, r), c);
            if rest.contains(c) {
                let k = choose|k: int| 0 <= k < rest.len() && rest[k] == c;
                assert(s[k + p.len()] == c);
            }
        } else {
            let rest = s.skip(1);
            lemma_replaced_contains(rest, p, r, c);
            lemma_concat_contains(seq![s[0]], replaced(rest, p, r), c);
            if rest.contains(c) {
                let k = choose|k: int| 0 <= k < rest.len() && rest[k] == c;
                assert(s[k + 1] == c);
            }
            if seq![s[0]].contains(c) {
                assert(seq![s[0]][0] == c);
                assert(s[0] == c);
            }
            if p == seq![c] && s[0] == c {
                assert(s.take(1) =~= seq![c]);
            }
        }
    }
}

/// `s` with every occurrence of the character `c` left out.
pub open spec fn without_char(s: Seq<char>, c: char) -> Seq<char>
    decreases s.len(),
{
    if s.len() == 0 {
        s
    } else {
        (if s[0] == c {
            Seq::empty()
        } else {
            seq![s[0]]
        }) + without_char(s.skip(1), c)
    }
}

/// Removing a one-character pattern leaves out that character.
pub proof fn lemma_removed_single(s: Seq<char>, c: char)
    ensures
        removed(s, seq![c]) == without_char(s, c),
    decreases s.len(),
{
    if s.len() > 0 {
        lemma_removed_single(s.skip(1), c);
        if s[0] == c {
            assert(s.take(1) =~= seq![c]);
            assert(Seq::<char>::empty() + without_char(s.skip(1), c) =~= without_char(s.skip(1), c));
        } else {
            assert(s.take(1) != seq![c]) by {
                assert(s.take(1)[0] == s[0]);
            }
        }
    }
}

/// Leaving out a character distributes over concatenation.
pub proof fn lemma_without_char_concat(a: Seq<char>, b: Seq<char>, c: char)
    ensures
        without_char(a + b, c) == without_char(a, c) + without_char(b, c),
    decreases a.len(),
{
    if a.len() == 0 {
        assert(a + b =~= b);
        assert(without_char(a, c) + without_char(b, c) =~= without_char(b, c));
    } else {
        lemma_without_char_concat(a.skip(1), b, c);
        assert((a + b).skip(1) =~= a.skip(1) + b);
        assert((a + b)[0] == a[0]);
        let h = if a[0] == c {
            Seq::<char>::empty()
        } else {
            seq![a[0]]
        };
        assert(h + (without_char(a.skip(1), c) + without_char(b, c)) =~= (h + without_char(
            a.skip(1),
            c,
        )) + without_char(b, c));
    }
}

} // verus!
