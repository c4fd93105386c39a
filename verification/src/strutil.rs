//! Verified string scanning: whitespace trimming, first-token extraction,
//! character search, quote removal, parenthesised-term capture, and removal
//! of angle-bracket tag spans.

use vstd::prelude::*;
use vstd::string::StrSliceExecFns;
use vstd::string::StringExecFns;

verus! {

/// The characters that count as whitespace (the Unicode `White_Space` set).
pub open spec fn is_ws(c: char) -> bool {
    let u = c as u32;
    u == 0x20 || (0x09 <= u && u <= 0x0D) || u == 0x85 || u == 0xA0 || u == 0x1680
        || (0x2000 <= u && u <= 0x200A) || u == 0x2028 || u == 0x2029 || u == 0x202F
        || u == 0x205F || u == 0x3000
}

pub fn is_ws_char(c: char) -> (b: bool)
    ensures
        b == is_ws(c),
{
    let u = c as u32;
    u == 0x20 || (0x09 <= u && u <= 0x0D) || u == 0x85 || u == 0xA0 || u == 0x1680
        || (0x2000 <= u && u <= 0x200A) || u == 0x2028 || u == 0x2029 || u == 0x202F
        || u == 0x205F || u == 0x3000
}

/// Index of the first character at or after `i` satisfying `p`, or the length.
pub open spec fn scan_from(s: Seq<char>, i: int, p: spec_fn(char) -> bool) -> int
    decreases s.len() - i when 0 <= i <= s.len()
{
    if i >= s.len() {
        s.len() as int
    } else if p(s[i]) {
        i
    } else {
        scan_from(s, i + 1, p)
    }
}

pub proof fn lemma_scan_from(s: Seq<char>, i: int, p: spec_fn(char) -> bool)
    requires
        0 <= i <= s.len(),
    ensures
        i <= scan_from(s, i, p) <= s.len(),
        scan_from(s, i, p) < s.len() ==> p(s[scan_from(s, i, p)]),
        forall|k: int| i <= k < scan_from(s, i, p) ==> !p(s[k]),
    decreases s.len() - i,
{
    if i < s.len() && !p(s[i]) {
        lemma_scan_from(s, i + 1, p);
    }
}

/// Index of the first occurrence of `c` at or after `i`, or the length.
pub open spec fn find_from(s: Seq<char>, i: int, c: char) -> int
    decreases s.len() - i when 0 <= i <= s.len()
{
    if i >= s.len() {
        s.len() as int
    } else if s[i] == c {
        i
    } else {
        find_from(s, i + 1, c)
    }
}

pub proof fn lemma_find_from(s: Seq<char>, i: int, c: char)
    requires
        0 <= i <= s.len(),
    ensures
        i <= find_from(s, i, c) <= s.len(),
        find_from(s, i, c) < s.len() ==> s[find_from(s, i, c)] == c,
        forall|k: int| i <= k < find_from(s, i, c) ==> s[k] != c,
    decreases s.len() - i,
{
    if i < s.len() && s[i] != c {
        lemma_find_from(s, i + 1, c);
    }
}

/// Whether `c` occurs in `s`.
pub open spec fn has_char(s: Seq<char>, c: char) -> bool {
    find_from(s, 0, c) < s.len()
}

/// End (exclusive) of the trailing whitespace-free part of `s.subrange(0, i)`:
/// scanning left from `i`, one past the last non-whitespace character, or 0.
pub open spec fn ws_end_from(s: Seq<char>, i: int) -> int
    decreases i when 0 <= i <= s.len()
{
    if i <= 0 {
        0
    } else if is_ws(s[i - 1]) {
        ws_end_from(s, i - 1)
    } else {
        i
    }
}

/// `s` with leading and trailing whitespace removed.
pub open spec fn trim_spec(s: Seq<char>) -> Seq<char> {
    let a = scan_from(s, 0, |x: char| !is_ws(x));
    let b = ws_end_from(s, s.len() as int);
    if a < b {
        s.subrange(a, b)
    } else {
        Seq::empty()
    }
}

/// The first whitespace-delimited token of `s`, if any.
pub open spec fn first_token(s: Seq<char>) -> Option<Seq<char>> {
    let a = scan_from(s, 0, |x: char| !is_ws(x));
    if a >= s.len() {
        None
    } else {
        Some(s.subrange(a, scan_from(s, a, |x: char| is_ws(x))))
    }
}

/// The first parenthesised group of `s` scanning from `i`: at a `(`, the
/// characters up to the next `)` are captured when at least one is present;
/// otherwise scanning continues one position further.
pub open spec fn term_from(s: Seq<char>, i: int) -> Option<Seq<char>>
    decreases s.len() - i when 0 <= i <= s.len()
{
    if i >= s.len() {
        None
    } else if s[i] == '(' {
        let j = find_from(s, i + 1, ')');
        if j < s.len() && j > i + 1 {
            Some(s.subrange(i + 1, j))
        } else {
            term_from(s, i + 1)
        }
    } else {
        term_from(s, i + 1)
    }
}

/// The first non-empty parenthesised group of `s`, if any.
pub open spec fn term_of(s: Seq<char>) -> Option<Seq<char>> {
    term_from(s, 0)
}

/// `s` with every double-quote character removed.
pub open spec fn sans_quotes_from(s: Seq<char>, i: int) -> Seq<char>
    decreases s.len() - i when 0 <= i <= s.len()
{
    if i >= s.len() {
        Seq::empty()
    } else if s[i] == '"' {
        sans_quotes_from(s, i + 1)
    } else {
        seq![s[i]] + sans_quotes_from(s, i + 1)
    }
}

pub open spec fn sans_quotes(s: Seq<char>) -> Seq<char> {
    sans_quotes_from(s, 0)
}

/// `s` with every span from a `<` to the next `>` removed: at a `<` that a
/// `>` follows, scanning resumes past that `>`; any other character is kept.
pub open spec fn strip_tags_from(s: Seq<char>, i: int) -> Seq<char>
    decreases s.len() - i when 0 <= i <= s.len()
        via strip_tags_from_decreases
{
    if i >= s.len() {
        Seq::empty()
    } else if s[i] == '<' && find_from(s, i + 1, '>') < s.len() {
        strip_tags_from(s, find_from(s, i + 1, '>') + 1)
    } else {
        seq![s[i]] + strip_tags_from(s, i + 1)
    }
}

#[via_fn]
proof fn strip_tags_from_decreases(s: Seq<char>, i: int) {
    if 0 <= i < s.len() {
        lemma_find_from(s, i + 1, '>');
    }
}

pub open spec fn strip_tags(s: Seq<char>) -> Seq<char> {
    strip_tags_from(s, 0)
}

proof fn lemma_no_char_find(s: Seq<char>, i: int, c: char)
    requires
        0 <= i <= s.len(),
        forall|m: int| i <= m < s.len() ==> s[m] != c,
    ensures
        find_from(s, i, c) == s.len(),
{
    lemma_find_from(s, i, c);
    if find_from(s, i, c) < s.len() {
        assert(s[find_from(s, i, c)] != c);
    }
}

proof fn lemma_find_from_shift(a: Seq<char>, b: Seq<char>, k: int, c: char)
    requires
        0 <= k <= b.len(),
    ensures
        find_from(a + b, a.len() + k, c) == a.len() + find_from(b, k, c),
    decreases b.len() - k,
{
    if k < b.len() {
        assert((a + b)[a.len() + k] == b[k]);
        if b[k] != c {
            lemma_find_from_shift(a, b, k + 1, c);
        }
    }
}

proof fn lemma_strip_tags_shift(a: Seq<char>, b: Seq<char>, k: int)
    requires
        0 <= k <= b.len(),
    ensures
        strip_tags_from(a + b, a.len() + k) =~= strip_tags_from(b, k),
    decreases b.len() - k,
{
    if k < b.len() {
        assert((a + b)[a.len() + k] == b[k]);
        lemma_find_from_shift(a, b, k + 1, '>');
        let j = find_from(b, k + 1, '>');
        lemma_find_from(b, k + 1, '>');
        if b[k] == '<' && j < b.len() {
            lemma_strip_tags_shift(a, b, j + 1);
        } else {
            lemma_strip_tags_shift(a, b, k + 1);
        }
    }
}

proof fn lemma_strip_keeps_no_gt(s: Seq<char>, i: int)
    requires
        0 <= i <= s.len(),
        forall|m: int| i <= m < s.len() ==> s[m] != '>',
    ensures
        forall|m: int|
            0 <= m < strip_tags_from(s, i).len() ==> (#[trigger] strip_tags_from(s, i)[m]) != '>',
    decreases s.len() - i,
{
    if i < s.len() {
        lemma_no_char_find(s, i + 1, '>');
        lemma_strip_keeps_no_gt(s, i + 1);
        let out = strip_tags_from(s, i);
        assert forall|m: int| 0 <= m < out.len() implies (#[trigger] out[m]) != '>' by {
            if m == 0 {
                assert(out[0] == s[i]);
            } else {
                assert(out[m] == strip_tags_from(s, i + 1)[m - 1]);
            }
        }
    }
}

proof fn lemma_strip_tags_idempotent_from(s: Seq<char>, i: int)
    requires
        0 <= i <= s.len(),
    ensures
        strip_tags(strip_tags_from(s, i)) =~= strip_tags_from(s, i),
    decreases s.len() - i,
{
    if i >= s.len() {
        assert(strip_tags(strip_tags_from(s, i)) =~= strip_tags_from(s, i));
    } else {
        let j = find_from(s, i + 1, '>');
        lemma_find_from(s, i + 1, '>');
        if s[i] == '<' && j < s.len() {
            lemma_strip_tags_idempotent_from(s, j + 1);
        } else {
            let rest = strip_tags_from(s, i + 1);
            let head = seq![s[i]];
            let out = head + rest;
            lemma_strip_tags_idempotent_from(s, i + 1);
            lemma_strip_tags_shift(head, rest, 0);
            assert(strip_tags_from(out, 1) =~= strip_tags(rest));
            assert(out[0] == s[i]);
            if s[i] == '<' {
                assert(forall|m: int| i + 1 <= m < s.len() ==> s[m] != '>');
                lemma_strip_keeps_no_gt(s, i + 1);
                assert forall|m: int| 1 <= m < out.len() implies out[m] != '>' by {
                    assert(out[m] == rest[m - 1]);
                }
                lemma_no_char_find(out, 1, '>');
                assert(strip_tags(out) =~= head + strip_tags_from(out, 1));
            } else {
                assert(strip_tags(out) =~= head + strip_tags_from(out, 1));
            }
            assert(strip_tags(out) =~= out);
        }
    }
}

/// Removing tag spans is idempotent: a stripped text strips to itself.
pub proof fn lemma_strip_tags_idempotent(s: Seq<char>)
    ensures
        strip_tags(strip_tags(s)) == strip_tags(s),
{
    lemma_strip_tags_idempotent_from(s, 0);
}

/// Lexicographic order on character sequences, comparing scalar values from
/// position `i` on: the order of keys in a sorted mapping.
pub open spec fn str_lt_from(a: Seq<char>, b: Seq<char>, i: int) -> bool
    decreases a.len() - i when 0 <= i
{
    if i >= b.len() {
        false
    } else if i >= a.len() {
        true
    } else if (a[i] as u32) < (b[i] as u32) {
        true
    } else if (a[i] as u32) > (b[i] as u32) {
        false
    } else {
        str_lt_from(a, b, i + 1)
    }
}

/// Strict lexicographic order on character sequences.
pub open spec fn str_lt(a: Seq<char>, b: Seq<char>) -> bool {
    str_lt_from(a, b, 0)
}

proof fn lemma_char_scalar_injective(c1: char, c2: char)
    requires
        c1 as u32 == c2 as u32,
    ensures
        c1 == c2,
{
}

proof fn lemma_str_lt_from_connex(a: Seq<char>, b: Seq<char>, i: int)
    requires
        0 <= i <= a.len(),
        0 <= i <= b.len(),
    ensures
        str_lt_from(a, b, i) || str_lt_from(b, a, i) || (a.len() == b.len() && forall|k: int|
            i <= k < a.len() ==> a[k] == b[k]),
    decreases a.len() - i,
{
    if i < a.len() && i < b.len() && (a[i] as u32) == (b[i] as u32) {
        lemma_char_scalar_injective(a[i], b[i]);
        assert(a[i] == b[i]);
        lemma_str_lt_from_connex(a, b, i + 1);
        if !str_lt_from(a, b, i) && !str_lt_from(b, a, i) {
            assert(!str_lt_from(a, b, i + 1) && !str_lt_from(b, a, i + 1));
            assert forall|k: int| i <= k < a.len() implies a[k] == b[k] by {
                if k > i {
                    assert(a[k] == b[k]);
                }
            }
        }
    }
}

/// Of two distinct sequences one is strictly below the other.
pub proof fn lemma_str_lt_connex(a: Seq<char>, b: Seq<char>)
    ensures
        str_lt(a, b) || str_lt(b, a) || a == b,
{
    lemma_str_lt_from_connex(a, b, 0);
    if !str_lt(a, b) && !str_lt(b, a) {
        assert(a =~= b);
    }
}

proof fn lemma_str_lt_from_trans(a: Seq<char>, b: Seq<char>, c: Seq<char>, i: int)
    requires
        0 <= i,
        str_lt_from(a, b, i),
        str_lt_from(b, c, i),
    ensures
        str_lt_from(a, c, i),
    decreases b.len() - i,
{
    assert(i < b.len() && i < c.len());
    if i >= a.len() {
        assert(str_lt_from(a, c, i));
    } else if (a[i] as u32) == (b[i] as u32) && (b[i] as u32) == (c[i] as u32) {
        lemma_str_lt_from_trans(a, b, c, i + 1);
        assert(str_lt_from(a, c, i));
    } else {
        assert((a[i] as u32) < (c[i] as u32));
        assert(str_lt_from(a, c, i));
    }
}

/// The order is transitive.
pub proof fn lemma_str_lt_trans(a: Seq<char>, b: Seq<char>, c: Seq<char>)
    requires
        str_lt(a, b),
        str_lt(b, c),
    ensures
        str_lt(a, c),
{
    lemma_str_lt_from_trans(a, b, c, 0);
}

/// Compares two strings in the lexicographic order.
pub fn str_lt_str(a: &str, b: &str) -> (r: bool)
    ensures
        r == str_lt(a@, b@),
{
    let na: usize = a.unicode_len();
    let nb: usize = b.unicode_len();
    let mut i: usize = 0;
    while i < na && i < nb
        invariant
            0 <= i <= na,
            i <= nb,
            na == a@.len(),
            nb == b@.len(),
            str_lt(a@, b@) == str_lt_from(a@, b@, i as int),
        decreases na - i,
    {
        let ca: u32 = a.get_char(i) as u32;
        let cb: u32 = b.get_char(i) as u32;
        if ca < cb {
            return true;
        }
        if ca > cb {
            return false;
        }
        i = i + 1;
    }
    i < nb
}

/// Finds the first occurrence of `c` in `s` at or after `from`.
pub fn find_char(s: &str, from: usize, c: char) -> (r: usize)
    requires
        from <= s@.len(),
    ensures
        r == find_from(s@, from as int, c),
        from <= r <= s@.len(),
{
    proof {
        lemma_find_from(s@, from as int, c);
    }
    let n: usize = s.unicode_len();
    let mut i: usize = from;
    while i < n
        invariant
            from <= i <= n,
            n == s@.len(),
            find_from(s@, from as int, c) == find_from(s@, i as int, c),
        decreases n - i,
    {
        if s.get_char(i) == c {
            return i;
        }
        i = i + 1;
    }
    i
}

/// Trims leading and trailing whitespace.
pub fn trim_str(s: &str) -> (r: String)
    ensures
        r@ == trim_spec(s@),
{
    let n: usize = s.unicode_len();
    let mut a: usize = 0;
    while a < n && is_ws_char(s.get_char(a))
        invariant
            0 <= a <= n,
            n == s@.len(),
            scan_from(s@, 0, |x: char| !is_ws(x)) == scan_from(s@, a as int, |x: char| !is_ws(x)),
        decreases n - a,
    {
        a = a + 1;
    }
    let mut b: usize = n;
    while b > 0 && is_ws_char(s.get_char(b - 1))
        invariant
            0 <= b <= n,
            n == s@.len(),
            ws_end_from(s@, n as int) == ws_end_from(s@, b as int),
        decreases b,
    {
        b = b - 1;
    }
    proof {
        lemma_scan_from(s@, 0, |x: char| !is_ws(x));
    }
    if a < b {
        String::from_str(s.substring_char(a, b))
    } else {
        proof {
            assert(trim_spec(s@) =~= Seq::empty());
        }
        String::new()
    }
}

/// The first whitespace-delimited token, if the string has one.
pub fn first_token_str(s: &str) -> (r: Option<String>)
    ensures
        match r {
            Some(t) => first_token(s@) == Some(t@),
            None => first_token(s@) is None,
        },
{
    let n: usize = s.unicode_len();
    let mut a: usize = 0;
    while a < n && is_ws_char(s.get_char(a))
        invariant
            0 <= a <= n,
            n == s@.len(),
            scan_from(s@, 0, |x: char| !is_ws(x)) == scan_from(s@, a as int, |x: char| !is_ws(x)),
        decreases n - a,
    {
        a = a + 1;
    }
    if a >= n {
        return None;
    }
    let mut e: usize = a;
    while e < n && !is_ws_char(s.get_char(e))
        invariant
            a <= e <= n,
            n == s@.len(),
            scan_from(s@, a as int, |x: char| is_ws(x)) == scan_from(s@, e as int, |x: char| is_ws(x)),
        decreases n - e,
    {
        e = e + 1;
    }
    Some(String::from_str(s.substring_char(a, e)))
}

/// The first non-empty parenthesised group, if any.
pub fn find_term(s: &str) -> (r: Option<String>)
    ensures
        match r {
            Some(t) => term_of(s@) == Some(t@),
            None => term_of(s@) is None,
        },
{
    let n: usize = s.unicode_len();
    let mut i: usize = 0;
    while i < n
        invariant
            0 <= i <= n,
            n == s@.len(),
            term_of(s@) == term_from(s@, i as int),
        decreases n - i,
    {
        if s.get_char(i) == '(' {
            let j: usize = find_char(s, i + 1, ')');
            if j < n && j > i + 1 {
                return Some(String::from_str(s.substring_char(i + 1, j)));
            }
        }
        i = i + 1;
    }
    None
}

/// Removes every double-quote character.
pub fn sans_quotes_str(s: &str) -> (r: String)
    ensures
        r@ == sans_quotes(s@),
{
    let n: usize = s.unicode_len();
    let mut out: String = String::new();
    let mut i: usize = 0;
    while i < n
        invariant
            0 <= i <= n,
            n == s@.len(),
            out@ + sans_quotes_from(s@, i as int) == sans_quotes(s@),
        decreases n - i,
    {
        if s.get_char(i) != '"' {
            out.append(s.substring_char(i, i + 1));
            proof {
                assert(s@.subrange(i as int, i + 1) =~= seq![s@[i as int]]);
            }
        }
        i = i + 1;
    }
    proof {
        assert(out@ + sans_quotes_from(s@, n as int) =~= out@);
    }
    out
}

/// Removes every angle-bracket tag span from the text.
pub fn strip_html(s: &str) -> (r: String)
    ensures
        r@ == strip_tags(s@),
{
    let n: usize = s.unicode_len();
    let mut out: String = String::new();
    let mut i: usize = 0;
    while i < n
        invariant
            0 <= i <= n,
            n == s@.len(),
            out@ + strip_tags_from(s@, i as int) == strip_tags(s@),
        decreases n - i,
    {
        let c = s.get_char(i);
        if c == '<' {
            let j: usize = find_char(s, i + 1, '>');
            if j < n {
                i = j + 1;
            } else {
                out.append(s.substring_char(i, i + 1));
                proof {
                    assert(s@.subrange(i as int, i + 1) =~= seq![s@[i as int]]);
                }
                i = i + 1;
            }
        } else {
            out.append(s.substring_char(i, i + 1));
            proof {
                assert(s@.subrange(i as int, i + 1) =~= seq![s@[i as int]]);
            }
            i = i + 1;
        }
    }
    proof {
        assert(out@ + strip_tags_from(s@, n as int) =~= out@);
    }
    out
}

/// Character-wise string equality.
pub fn str_eq_str(a: &str, b: &str) -> (r: bool)
    ensures
        r == (a@ == b@),
{
    let na: usize = a.unicode_len();
    let nb: usize = b.unicode_len();
    if na != nb {
        return false;
    }
    let mut i: usize = 0;
    while i < na
        invariant
            0 <= i <= na,
            na == a@.len(),
            na == b@.len(),
            forall|k: int| 0 <= k < i ==> a@[k] == b@[k],
        decreases na - i,
    {
        if a.get_char(i) != b.get_char(i) {
            return false;
        }
        i = i + 1;
    }
    proof {
        assert(a@ =~= b@);
    }
    true
}

} // verus!
