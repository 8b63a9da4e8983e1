//! The trojan share-URL grammar.
//!
//! A share link has the shape
//! `trojan://PASSWORD@DOMAIN:PORT<query>#REMARKS`; its grammar is the pattern
//! `^trojan://([^@]+)@([D]+[E]*):([0-9]{1,5})[^#]+#([R]+)$`, where
//! `D`, `E` and `R` are the character classes below. Matching follows
//! leftmost-first priority: of all ways to split a link, the one chosen
//! is the lexicographically greatest in the lengths of its pieces, taken
//! from left to right.

use vstd::prelude::*;

verus! {

/// ASCII letters and digits.
pub open spec fn is_alnum(ch: char) -> bool {
    ('a' <= ch && ch <= 'z') || ('A' <= ch && ch <= 'Z') || ('0' <= ch && ch <= '9')
}

/// ASCII decimal digits.
pub open spec fn is_digit(ch: char) -> bool {
    '0' <= ch && ch <= '9'
}

/// The leading domain class `[-A-Za-z0-9+&@#/%?=~_|!:,.;]`.
pub open spec fn is_domain_head_char(ch: char) -> bool {
    is_alnum(ch) || ch == '-' || ch == '+' || ch == '&' || ch == '@' || ch == '#' || ch == '/'
        || ch == '%' || ch == '?' || ch == '=' || ch == '~' || ch == '_' || ch == '|' || ch == '!'
        || ch == ':' || ch == ',' || ch == '.' || ch == ';'
}

/// The trailing domain class `[-A-Za-z0-9+&@#/%=~_|]`.
pub open spec fn is_domain_tail_char(ch: char) -> bool {
    is_alnum(ch) || ch == '-' || ch == '+' || ch == '&' || ch == '@' || ch == '#' || ch == '/'
        || ch == '%' || ch == '=' || ch == '~' || ch == '_' || ch == '|'
}

/// The remarks class `[-A-Za-z0-9+&@#/%=~_|.]`.
pub open spec fn is_remarks_char(ch: char) -> bool {
    is_domain_tail_char(ch) || ch == '.'
}


/// `trojan://`, the scheme that every share link starts with.
pub open spec fn trojan_scheme() -> Seq<char> {
    seq!['t', 'r', 'o', 'j', 'a', 'n', ':', '/', '/']
}

/// `s` starts with the scheme, and the password `s[9..a]` (one or more
/// characters other than `@`) is followed by the `@` at `a`.
pub open spec fn password_split(s: Seq<char>, a: int) -> bool {
    &&& 9 <= s.len()
    &&& s.subrange(0, 9) == trojan_scheme()
    &&& 9 < a < s.len()
    &&& s[a] == '@'
    &&& forall|i: int| 9 <= i < a ==> s[i] != '@'
}

/// The domain `s[a+1..c]` is one or more head-class characters (up to `k`)
/// followed by zero or more tail-class characters, and the `:` at `c`
/// follows it.
pub open spec fn domain_split(s: Seq<char>, a: int, k: int, c: int) -> bool {
    &&& a + 1 < k <= c < s.len()
    &&& s[c] == ':'
    &&& forall|i: int| a < i < k ==> is_domain_head_char(s[i])
    &&& forall|i: int| k <= i < c ==> is_domain_tail_char(s[i])
}

/// After the `:` at `c`: the port `s[c+1..e]` (one to five digits), then
/// one or more characters other than `#` up to the `#` at `h`, then the
/// remarks `s[h+1..]` (one or more remarks-class characters) up to the end.
pub open spec fn tail_split(s: Seq<char>, c: int, e: int, h: int) -> bool {
    &&& c + 1 < e <= c + 6
    &&& forall|i: int| c < i < e ==> is_digit(s[i])
    &&& e < h
    &&& h + 1 < s.len()
    &&& s[h] == '#'
    &&& forall|i: int| e <= i < h ==> s[i] != '#'
    &&& forall|i: int| h < i < s.len() ==> is_remarks_char(s[i])
}

/// One way of matching the whole of `s` against the share-link pattern,
/// given by the positions where its pieces end.
pub open spec fn url_match(s: Seq<char>, a: int, k: int, c: int, e: int, h: int) -> bool {
    &&& password_split(s, a)
    &&& domain_split(s, a, k, c)
    &&& tail_split(s, c, e, h)
}

/// `(a1, k1, c1, e1, h1)` is lexicographically at most `(a2, k2, c2, e2, h2)`.
pub open spec fn lex_le(
    a1: int,
    k1: int,
    c1: int,
    e1: int,
    h1: int,
    a2: int,
    k2: int,
    c2: int,
    e2: int,
    h2: int,
) -> bool {
    ||| a1 < a2
    ||| a1 == a2 && k1 < k2
    ||| a1 == a2 && k1 == k2 && c1 < c2
    ||| a1 == a2 && k1 == k2 && c1 == c2 && e1 < e2
    ||| a1 == a2 && k1 == k2 && c1 == c2 && e1 == e2 && h1 <= h2
}

/// The match that leftmost-first priority selects: every greedy piece as
/// long as the rest of the pattern still allows, from left to right.
pub open spec fn preferred_match(s: Seq<char>, a: int, k: int, c: int, e: int, h: int) -> bool {
    &&& url_match(s, a, k, c, e, h)
    &&& forall|a2: int, k2: int, c2: int, e2: int, h2: int|
        #[trigger] url_match(s, a2, k2, c2, e2, h2) ==> lex_le(a2, k2, c2, e2, h2, a, k, c, e, h)
}

/// The pieces that a share link is cut into.
pub struct TrojanUrl {
    pub password: String,
    pub domain: String,
    pub port: String,
    pub remarks: String,
}

/// The four captured pieces of `s` at the given match positions.
pub open spec fn pieces_at(s: Seq<char>, a: int, c: int, e: int, h: int) -> (
    Seq<char>,
    Seq<char>,
    Seq<char>,
    Seq<char>,
) {
    (s.subrange(9, a), s.subrange(a + 1, c), s.subrange(c + 1, e), s.subrange(h + 1, s.len() as int))
}

/// `s` matches the share-link pattern.
pub open spec fn url_matches(s: Seq<char>) -> bool {
    exists|a: int, k: int, c: int, e: int, h: int| #[trigger] url_match(s, a, k, c, e, h)
}

/// Some match of `s` is the preferred one.
pub open spec fn has_preferred_match(s: Seq<char>) -> bool {
    exists|a: int, k: int, c: int, e: int, h: int| #[trigger] preferred_match(s, a, k, c, e, h)
}

/// The pieces that the preferred match of `s` captures: password, domain,
/// port digits and remarks.
pub open spec fn url_pieces(s: Seq<char>) -> (Seq<char>, Seq<char>, Seq<char>, Seq<char>)
    recommends
        url_matches(s),
{
    let (a, k, c, e, h) = choose|a: int, k: int, c: int, e: int, h: int|
        #[trigger] preferred_match(s, a, k, c, e, h);
    pieces_at(s, a, c, e, h)
}

fn char_is_digit(ch: char) -> (r: bool)
    ensures
        r == is_digit(ch),
{
    '0' <= ch && ch <= '9'
}

fn char_is_alnum(ch: char) -> (r: bool)
    ensures
        r == is_alnum(ch),
{
    ('a' <= ch && ch <= 'z') || ('A' <= ch && ch <= 'Z') || ('0' <= ch && ch <= '9')
}

fn char_is_domain_head(ch: char) -> (r: bool)
    ensures
        r == is_domain_head_char(ch),
{
    char_is_alnum(ch) || ch == '-' || ch == '+' || ch == '&' || ch == '@' || ch == '#' || ch == '/'
        || ch == '%' || ch == '?' || ch == '=' || ch == '~' || ch == '_' || ch == '|' || ch == '!'
        || ch == ':' || ch == ',' || ch == '.' || ch == ';'
}

fn char_is_remarks(ch: char) -> (r: bool)
    ensures
        r == is_remarks_char(ch),
{
    char_is_alnum(ch) || ch == '-' || ch == '+' || ch == '&' || ch == '@' || ch == '#' || ch == '/'
        || ch == '%' || ch == '=' || ch == '~' || ch == '_' || ch == '|' || ch == '.'
}


/// Every trailing-domain character is a leading-domain character.
pub proof fn lemma_tail_char_is_head_char(ch: char)
    ensures
        is_domain_tail_char(ch) ==> is_domain_head_char(ch),
{
}

/// A domain written as head characters followed by tail characters can
/// be read as head characters alone.
pub proof fn lemma_domain_collapse(s: Seq<char>, a: int, k: int, c: int)
    requires
        domain_split(s, a, k, c),
    ensures
        domain_split(s, a, c, c),
{
    assert forall|i: int| a < i < c implies is_domain_head_char(s[i]) by {
        if i >= k {
            lemma_tail_char_is_head_char(s[i]);
        }
    }
}

/// The position of the `@` that ends the password is the first `@` after
/// the scheme.
pub proof fn lemma_password_split_unique(s: Seq<char>, a1: int, a2: int)
    requires
        password_split(s, a1),
        password_split(s, a2),
    ensures
        a1 == a2,
{
    if a1 < a2 {
        assert(s[a1] != '@');
    } else if a2 < a1 {
        assert(s[a2] != '@');
    }
}

/// Lexicographic order is antisymmetric.
pub proof fn lemma_lex_antisym(
    a1: int,
    k1: int,
    c1: int,
    e1: int,
    h1: int,
    a2: int,
    k2: int,
    c2: int,
    e2: int,
    h2: int,
)
    requires
        lex_le(a1, k1, c1, e1, h1, a2, k2, c2, e2, h2),
        lex_le(a2, k2, c2, e2, h2, a1, k1, c1, e1, h1),
    ensures
        a1 == a2 && k1 == k2 && c1 == c2 && e1 == e2 && h1 == h2,
{
}

/// There is at most one preferred match.
pub proof fn lemma_preferred_unique(
    s: Seq<char>,
    a1: int,
    k1: int,
    c1: int,
    e1: int,
    h1: int,
    a2: int,
    k2: int,
    c2: int,
    e2: int,
    h2: int,
)
    requires
        preferred_match(s, a1, k1, c1, e1, h1),
        preferred_match(s, a2, k2, c2, e2, h2),
    ensures
        a1 == a2 && k1 == k2 && c1 == c2 && e1 == e2 && h1 == h2,
{
    assert(url_match(s, a1, k1, c1, e1, h1));
    assert(url_match(s, a2, k2, c2, e2, h2));
    lemma_lex_antisym(a1, k1, c1, e1, h1, a2, k2, c2, e2, h2);
}

/// The pieces of a preferred match are the pieces that `url_pieces` names.
pub proof fn lemma_url_pieces_of_preferred(s: Seq<char>, a: int, k: int, c: int, e: int, h: int)
    requires
        preferred_match(s, a, k, c, e, h),
    ensures
        url_matches(s),
        url_pieces(s) == pieces_at(s, a, c, e, h),
{
    assert(url_match(s, a, k, c, e, h));
    let (a2, k2, c2, e2, h2) = choose|a2: int, k2: int, c2: int, e2: int, h2: int|
        #[trigger] preferred_match(s, a2, k2, c2, e2, h2);
    lemma_preferred_unique(s, a, k, c, e, h, a2, k2, c2, e2, h2);
}

/// A position found by scanning `v` from `from` for `target`.
fn find_char(v: &Vec<char>, from: usize, target: char) -> (r: Option<usize>)
    requires
        from <= v.len(),
    ensures
        r matches Some(i) ==> from <= i < v.len() && v@[i as int] == target && forall|j: int|
            from <= j < i ==> v@[j] != target,
        r is None ==> forall|j: int| from <= j < v.len() ==> v@[j] != target,
{
    let mut i = from;
    while i < v.len()
        invariant
            from <= i <= v.len(),
            forall|j: int| from <= j < i ==> v@[j] != target,
        decreases v.len() - i,
    {
        if v[i] == target {
            return Some(i);
        }
        i = i + 1;
    }
    None
}

/// The longest port and its `#` for a link whose domain ends at the `:`
/// at `c`, if any.
fn scan_tail(v: &Vec<char>, c: usize) -> (r: Option<(usize, usize)>)
    requires
        c < v.len(),
    ensures
        r matches Some((e, h)) ==> {
            &&& tail_split(v@, c as int, e as int, h as int)
            &&& forall|e2: int, h2: int| #[trigger]
                tail_split(v@, c as int, e2, h2) ==> e2 < e || (e2 == e && h2 == h)
        },
        r is None ==> forall|e2: int, h2: int| !#[trigger] tail_split(v@, c as int, e2, h2),
{
    let n = v.len();
    let q = c + 1;
    let mut r = q;
    while r < n && char_is_digit(v[r])
        invariant
            q <= r <= n,
            n == v.len(),
            forall|j: int| q <= j < r ==> is_digit(v@[j]),
        decreases n - r,
    {
        r = r + 1;
    }
    // Every port ends at or before `r`.
    assert forall|e2: int, h2: int| #[trigger] tail_split(v@, c as int, e2, h2) implies e2 <= r
        && r <= h2 by {
        if e2 > r {
            assert(is_digit(v@[r as int]));
        }
        if h2 < r {
            assert(is_digit(v@[h2]));
        }
    }
    if r == q {
        return None;
    }
    let f = match find_char(v, r, '#') {
        Some(f) => f,
        None => {
            assert forall|e2: int, h2: int| !#[trigger] tail_split(v@, c as int, e2, h2) by {
                if tail_split(v@, c as int, e2, h2) {
                    assert(v@[h2] == '#');
                }
            }
            return None;
        },
    };
    // Every `#` that ends the query is the one at `f`.
    assert forall|e2: int, h2: int| #[trigger] tail_split(v@, c as int, e2, h2) implies h2
        == f by {
        if h2 < f {
            assert(v@[h2] != '#');
        } else if h2 > f {
            assert(e2 <= f);
            assert(v@[f as int] != '#');
        }
    }
    let cap = if r - q < 5 {
        r
    } else {
        q + 5
    };
    let e = if cap < f {
        cap
    } else {
        f - 1
    };
    if e <= q {
        return None;
    }
    if f + 1 >= n {
        return None;
    }
    let mut i = f + 1;
    while i < n
        invariant
            f + 1 <= i <= n,
            n == v.len(),
            forall|e2: int, h2: int| #[trigger] tail_split(v@, c as int, e2, h2) ==> h2 == f,
            forall|j: int| f < j < i ==> is_remarks_char(v@[j]),
        decreases n - i,
    {
        if !char_is_remarks(v[i]) {
            assert forall|e2: int, h2: int| !#[trigger] tail_split(v@, c as int, e2, h2) by {
                if tail_split(v@, c as int, e2, h2) {
                    assert(is_remarks_char(v@[i as int]));
                }
            }
            return None;
        }
        i = i + 1;
    }
    assert forall|j: int| e <= j < f implies v@[j] != '#' by {
        if j < r {
            assert(is_digit(v@[j]));
        }
    }
    assert(tail_split(v@, c as int, e as int, f as int));
    Some((e, f))
}

/// If the `:` at `c` starts a tail, nothing after it within the domain
/// run does, and the tail `(e, h)` is the longest for `c`, then the match
/// that ends its domain at `c` is the preferred one.
proof fn lemma_preferred_at(s: Seq<char>, a: int, b: int, c: int, e: int, h: int)
    requires
        password_split(s, a),
        a < b <= s.len(),
        forall|i: int| a < i < b ==> is_domain_head_char(s[i]),
        b < s.len() ==> !is_domain_head_char(s[b]),
        a + 1 < c < b,
        s[c] == ':',
        tail_split(s, c, e, h),
        forall|e2: int, h2: int| #[trigger]
            tail_split(s, c, e2, h2) ==> e2 < e || (e2 == e && h2 == h),
        forall|c2: int, e2: int, h2: int|
            c < c2 < b && s[c2] == ':' ==> !#[trigger] tail_split(s, c2, e2, h2),
    ensures
        preferred_match(s, a, c, c, e, h),
{
    assert(domain_split(s, a, c, c));
    assert forall|a2: int, k2: int, c2: int, e2: int, h2: int| #[trigger]
        url_match(s, a2, k2, c2, e2, h2) implies lex_le(a2, k2, c2, e2, h2, a, c, c, e, h) by {
        lemma_password_split_unique(s, a, a2);
        lemma_domain_collapse(s, a2, k2, c2);
        if c2 >= b {
            assert(is_domain_head_char(s[b]));
        }
        if c2 > c {
            assert(tail_split(s, c2, e2, h2));
        }
    }
}

/// If no `:` within the domain run starts a tail, nothing matches.
proof fn lemma_no_match(s: Seq<char>, a: int, b: int)
    requires
        password_split(s, a),
        a < b <= s.len(),
        forall|i: int| a < i < b ==> is_domain_head_char(s[i]),
        b < s.len() ==> !is_domain_head_char(s[b]),
        forall|c2: int, e2: int, h2: int|
            a + 1 < c2 < b && s[c2] == ':' ==> !#[trigger] tail_split(s, c2, e2, h2),
    ensures
        !url_matches(s),
{
    assert forall|a2: int, k2: int, c2: int, e2: int, h2: int|
        !#[trigger] url_match(s, a2, k2, c2, e2, h2) by {
        if url_match(s, a2, k2, c2, e2, h2) {
            lemma_password_split_unique(s, a, a2);
            lemma_domain_collapse(s, a2, k2, c2);
            if c2 >= b {
                assert(is_domain_head_char(s[b]));
            }
            assert(tail_split(s, c2, e2, h2));
        }
    }
}

/// The positions `(a, c, e, h)` of the preferred match of `v`, whose
/// domain is all head-class characters, or `None` when nothing matches.
fn find_preferred_match(v: &Vec<char>) -> (r: Option<(usize, usize, usize, usize)>)
    ensures
        r matches Some((a, c, e, h)) ==> preferred_match(
            v@,
            a as int,
            c as int,
            c as int,
            e as int,
            h as int,
        ),
        r is None ==> !url_matches(v@),
{
    let n = v.len();
    let ghost s = v@;
    if n < 9 || v[0] != 't' || v[1] != 'r' || v[2] != 'o' || v[3] != 'j' || v[4] != 'a' || v[5]
        != 'n' || v[6] != ':' || v[7] != '/' || v[8] != '/' {
        assert forall|a2: int, k2: int, c2: int, e2: int, h2: int|
            !#[trigger] url_match(s, a2, k2, c2, e2, h2) by {
            if url_match(s, a2, k2, c2, e2, h2) {
                assert(s.subrange(0, 9) == trojan_scheme());
                assert(s[0] == s.subrange(0, 9)[0]);
                assert(s[1] == s.subrange(0, 9)[1]);
                assert(s[2] == s.subrange(0, 9)[2]);
                assert(s[3] == s.subrange(0, 9)[3]);
                assert(s[4] == s.subrange(0, 9)[4]);
                assert(s[5] == s.subrange(0, 9)[5]);
                assert(s[6] == s.subrange(0, 9)[6]);
                assert(s[7] == s.subrange(0, 9)[7]);
                assert(s[8] == s.subrange(0, 9)[8]);
            }
        }
        return None;
    }
    assert(s.subrange(0, 9) == trojan_scheme());
    let a = match find_char(v, 9, '@') {
        Some(a) => a,
        None => {
            assert forall|a2: int, k2: int, c2: int, e2: int, h2: int|
                !#[trigger] url_match(s, a2, k2, c2, e2, h2) by {
                if url_match(s, a2, k2, c2, e2, h2) {
                    assert(s[a2] == '@');
                }
            }
            return None;
        },
    };
    if a == 9 {
        assert forall|a2: int, k2: int, c2: int, e2: int, h2: int|
            !#[trigger] url_match(s, a2, k2, c2, e2, h2) by {
            if url_match(s, a2, k2, c2, e2, h2) {
                assert(s[9] != '@');
            }
        }
        return None;
    }
    assert(password_split(s, a as int));
    let mut b = a + 1;
    while b < n && char_is_domain_head(v[b])
        invariant
            a < b <= n,
            n == v.len(),
            s == v@,
            forall|i: int| a < i < b ==> is_domain_head_char(s[i]),
        decreases n - b,
    {
        b = b + 1;
    }
    let mut c = b;
    while c - a > 2
        invariant
            a + 1 <= c <= b,
            b <= n,
            password_split(s, a as int),
            forall|i: int| a < i < b ==> is_domain_head_char(s[i]),
            b < s.len() ==> !is_domain_head_char(s[b as int]),
            n == v.len(),
            s == v@,
            forall|c2: int, e2: int, h2: int|
                c <= c2 < b && s[c2] == ':' ==> !#[trigger] tail_split(s, c2, e2, h2),
        decreases c,
    {
        c = c - 1;
        if v[c] == ':' {
            match scan_tail(v, c) {
                Some((e, h)) => {
                    proof {
                        lemma_preferred_at(s, a as int, b as int, c as int, e as int, h as int);
                    }
                    return Some((a, c, e, h));
                },
                None => {},
            }
        }
    }
    proof {
        lemma_no_match(s, a as int, b as int);
    }
    None
}

/// Cuts a share link into its password, domain, port digits and remarks,
/// as the preferred match of the share-link pattern does, or `None` when
/// the link does not match the pattern.
pub fn parse_trojan_url(url: &str) -> (r: Option<TrojanUrl>)
    ensures
        r is Some <==> url_matches(url@),
        r is Some ==> has_preferred_match(url@),
        r matches Some(p) ==> (p.password@, p.domain@, p.port@, p.remarks@) == url_pieces(url@),
        r matches Some(p) ==> 1 <= p.port@.len() <= 5 && forall|i: int|
            0 <= i < p.port@.len() ==> is_digit(#[trigger] p.port@[i]),
{
    let v = chars_of(url);
    match find_preferred_match(&v) {
        Some((a, c, e, h)) => {
            proof {
                lemma_url_pieces_of_preferred(url@, a as int, c as int, c as int, e as int, h as int);
            }
            assert(preferred_match(url@, a as int, c as int, c as int, e as int, h as int));
            let n = v.len();
            let password = url.substring_char(9, a).to_owned();
            let domain = url.substring_char(a + 1, c).to_owned();
            let port = url.substring_char(c + 1, e).to_owned();
            let remarks = url.substring_char(h + 1, n).to_owned();
            assert forall|i: int| 0 <= i < port@.len() implies is_digit(#[trigger] port@[i]) by {
                assert(port@[i] == url@[c + 1 + i]);
            }
            Some(TrojanUrl { password, domain, port, remarks })
        },
        None => None,
    }
}



/// The share link with the given password, domain, port digits, query
/// and remarks.
pub open spec fn compose_url(
    password: Seq<char>,
    domain: Seq<char>,
    port: Seq<char>,
    query: Seq<char>,
    remarks: Seq<char>,
) -> Seq<char> {
    trojan_scheme() + password + seq!['@'] + domain + seq![':'] + port + query + seq!['#'] + remarks
}

/// Law: a share link written in the documented form
/// `trojan://password@domain:port?query#remarks` is cut back into the
/// password, domain, port digits and remarks it was written from,
/// whenever each piece keeps to its class: a password without `@`, a
/// domain of leading-domain characters, one to five port digits, a query
/// without `#` or `:` that does not start with a digit, and remarks of
/// remarks-class characters.
pub proof fn lemma_compose_then_parse(
    password: Seq<char>,
    domain: Seq<char>,
    port: Seq<char>,
    query: Seq<char>,
    remarks: Seq<char>,
)
    requires
        password.len() >= 1,
        forall|i: int| 0 <= i < password.len() ==> password[i] != '@',
        domain.len() >= 1,
        forall|i: int| 0 <= i < domain.len() ==> is_domain_head_char(#[trigger] domain[i]),
        1 <= port.len() <= 5,
        forall|i: int| 0 <= i < port.len() ==> is_digit(#[trigger] port[i]),
        query.len() >= 1,
        !is_digit(query[0]),
        forall|i: int| 0 <= i < query.len() ==> query[i] != '#' && query[i] != ':',
        remarks.len() >= 1,
        forall|i: int| 0 <= i < remarks.len() ==> is_remarks_char(#[trigger] remarks[i]),
    ensures
        url_matches(compose_url(password, domain, port, query, remarks)),
        url_pieces(compose_url(password, domain, port, query, remarks)) == (
            password,
            domain,
            port,
            remarks,
        ),
{
    let s = compose_url(password, domain, port, query, remarks);
    let a: int = 9 + password.len() as int;
    let c: int = a + 1 + domain.len();
    let e: int = c + 1 + port.len();
    let h: int = e + query.len();
    assert(s.len() == h + 1 + remarks.len());
    assert forall|i: int| 0 <= i < 9 implies s[i] == trojan_scheme()[i] by {}
    assert forall|i: int| 9 <= i < a implies s[i] == password[i - 9] by {}
    assert(s[a] == '@');
    assert forall|i: int| a < i < c implies s[i] == domain[i - a - 1] by {}
    assert(s[c] == ':');
    assert forall|i: int| c < i < e implies s[i] == port[i - c - 1] by {}
    assert forall|i: int| e <= i < h implies s[i] == query[i - e] by {}
    assert(s[h] == '#');
    assert forall|i: int| h < i < s.len() implies s[i] == remarks[i - h - 1] by {}
    assert(s.subrange(0, 9) == trojan_scheme());
    assert(password_split(s, a));
    assert(domain_split(s, a, c, c));
    assert forall|i: int| e <= i < h implies s[i] != '#' by {
        assert(query[i - e] != '#');
    }
    assert(tail_split(s, c, e, h));
    assert forall|a2: int, k2: int, c2: int, e2: int, h2: int| #[trigger]
        url_match(s, a2, k2, c2, e2, h2) implies lex_le(a2, k2, c2, e2, h2, a, c, c, e, h) by {
        lemma_password_split_unique(s, a, a2);
        if c2 > c {
            if c2 < e {
                assert(is_digit(port[c2 - c - 1]));
            } else if c2 < h {
                assert(query[c2 - e] != ':');
            } else if c2 > h {
                assert(is_remarks_char(remarks[c2 - h - 1]));
            }
        }
        if k2 == c && c2 == c {
            if e2 > e {
                assert(is_digit(s[e]));
            }
            if e2 == e {
                if h2 < h {
                    assert(query[h2 - e] != '#');
                } else if h2 > h {
                    assert(s[h] != '#');
                }
            }
        }
    }
    assert(preferred_match(s, a, c, c, e, h));
    lemma_url_pieces_of_preferred(s, a, c, c, e, h);
    assert(s.subrange(9, a) == password);
    assert(s.subrange(a + 1, c) == domain);
    assert(s.subrange(c + 1, e) == port);
    assert(s.subrange(h + 1, s.len() as int) == remarks);
}



/// A predicate on integers that holds somewhere and is bounded above has a
/// greatest witness.
proof fn lemma_greatest_exists(p: spec_fn(int) -> bool, x0: int, bound: int)
    requires
        p(x0),
        forall|x: int| #[trigger] p(x) ==> x <= bound,
    ensures
        exists|m: int| #[trigger] p(m) && forall|x: int| #[trigger] p(x) ==> x <= m,
    decreases bound - x0,
{
    if exists|y: int| #[trigger] p(y) && y > x0 {
        let y = choose|y: int| #[trigger] p(y) && y > x0;
        lemma_greatest_exists(p, y, bound);
    } else {
        assert(forall|x: int| #[trigger] p(x) ==> x <= x0);
    }
}

/// Every match ends its pieces within the link.
proof fn lemma_match_bounds(s: Seq<char>, a: int, k: int, c: int, e: int, h: int)
    requires
        url_match(s, a, k, c, e, h),
    ensures
        a < k <= c < e < h < s.len(),
{
}

/// Law: every link that matches the pattern has a preferred match, so the
/// pieces that `url_pieces` names are those of an actual match.
pub proof fn lemma_matches_has_preferred(s: Seq<char>)
    requires
        url_matches(s),
    ensures
        has_preferred_match(s),
{
    let (a0, k0, c0, e0, h0) = choose|a: int, k: int, c: int, e: int, h: int|
        #[trigger] url_match(s, a, k, c, e, h);
    let bound = s.len() as int;
    // the greatest domain-head length
    let pk = |k: int| exists|c: int, e: int, h: int| #[trigger] url_match(s, a0, k, c, e, h);
    assert(pk(k0));
    assert forall|x: int| #[trigger] pk(x) implies x <= bound by {
        let (c, e, h) = choose|c: int, e: int, h: int| #[trigger] url_match(s, a0, x, c, e, h);
        lemma_match_bounds(s, a0, x, c, e, h);
    }
    lemma_greatest_exists(pk, k0, bound);
    let k = choose|m: int| #[trigger] pk(m) && forall|x: int| #[trigger] pk(x) ==> x <= m;
    // the greatest colon for that length
    let (c1, e1, h1) = choose|c: int, e: int, h: int| #[trigger] url_match(s, a0, k, c, e, h);
    let pc = |c: int| exists|e: int, h: int| #[trigger] url_match(s, a0, k, c, e, h);
    assert(pc(c1));
    assert forall|x: int| #[trigger] pc(x) implies x <= bound by {
        let (e, h) = choose|e: int, h: int| #[trigger] url_match(s, a0, k, x, e, h);
        lemma_match_bounds(s, a0, k, x, e, h);
    }
    lemma_greatest_exists(pc, c1, bound);
    let c = choose|m: int| #[trigger] pc(m) && forall|x: int| #[trigger] pc(x) ==> x <= m;
    // the greatest port end for those
    let (e2, h2) = choose|e: int, h: int| #[trigger] url_match(s, a0, k, c, e, h);
    let pe = |e: int| exists|h: int| #[trigger] url_match(s, a0, k, c, e, h);
    assert(pe(e2));
    assert forall|x: int| #[trigger] pe(x) implies x <= bound by {
        let h = choose|h: int| #[trigger] url_match(s, a0, k, c, x, h);
        lemma_match_bounds(s, a0, k, c, x, h);
    }
    lemma_greatest_exists(pe, e2, bound);
    let e = choose|m: int| #[trigger] pe(m) && forall|x: int| #[trigger] pe(x) ==> x <= m;
    // the greatest query end for those
    let h3 = choose|h: int| #[trigger] url_match(s, a0, k, c, e, h);
    let ph = |h: int| url_match(s, a0, k, c, e, h);
    assert(ph(h3));
    assert forall|x: int| #[trigger] ph(x) implies x <= bound by {
        lemma_match_bounds(s, a0, k, c, e, x);
    }
    lemma_greatest_exists(ph, h3, bound);
    let h = choose|m: int| #[trigger] ph(m) && forall|x: int| #[trigger] ph(x) ==> x <= m;
    assert(url_match(s, a0, k, c, e, h));
    assert forall|a2: int, k2: int, c2: int, e2: int, h2: int| #[trigger]
        url_match(s, a2, k2, c2, e2, h2) implies lex_le(a2, k2, c2, e2, h2, a0, k, c, e, h) by {
        lemma_password_split_unique(s, a0, a2);
        assert(pk(k2));
        if k2 == k {
            assert(pc(c2));
            if c2 == c {
                assert(pe(e2));
                if e2 == e {
                    assert(ph(h2));
                }
            }
        }
    }
    assert(preferred_match(s, a0, k, c, e, h));
}

/// Law: the pieces cut from a matching share link, put back together
/// around the query they were cut from (one or more characters without
/// `#`), give back the link.
pub proof fn lemma_parse_then_compose(s: Seq<char>)
    requires
        url_matches(s),
    ensures
        exists|query: Seq<char>|
            #![trigger compose_url(url_pieces(s).0, url_pieces(s).1, url_pieces(s).2, query, url_pieces(s).3)]
            query.len() >= 1 && (forall|i: int| 0 <= i < query.len() ==> query[i] != '#') && s
                == compose_url(
                url_pieces(s).0,
                url_pieces(s).1,
                url_pieces(s).2,
                query,
                url_pieces(s).3,
            ),
{
    lemma_matches_has_preferred(s);
    let (a, k, c, e, h) = choose|a: int, k: int, c: int, e: int, h: int|
        #[trigger] preferred_match(s, a, k, c, e, h);
    lemma_url_pieces_of_preferred(s, a, k, c, e, h);
    let query = s.subrange(e, h);
    let t = compose_url(url_pieces(s).0, url_pieces(s).1, url_pieces(s).2, query, url_pieces(s).3);
    assert(s.subrange(0, 9) == trojan_scheme());
    assert(t.len() == s.len());
    assert forall|i: int| 0 <= i < s.len() implies t[i] == s[i] by {
        if i < 9 {
            assert(s[i] == s.subrange(0, 9)[i]);
        }
    }
    assert(t == s);
}

/// The value of a decimal digit.
pub open spec fn digit_value(ch: char) -> int {
    ch as int - '0' as int
}

/// The value of a string of decimal digits, most significant first.
pub open spec fn decimal_value(s: Seq<char>) -> int
    decreases s.len(),
{
    if s.len() == 0 {
        0
    } else {
        decimal_value(s.drop_last()) * 10 + digit_value(s.last())
    }
}


/// Law: the empty digit string is worth nothing, a single digit is worth
/// its distance from `0`.
pub proof fn lemma_decimal_small(ch: char)
    ensures
        decimal_value(Seq::<char>::empty()) == 0,
        decimal_value(seq![ch]) == ch as int - '0' as int,
{
    assert(seq![ch].drop_last() == Seq::<char>::empty());
}

/// Law: a digit string is worth its first `j` digits shifted left by the
/// number of remaining digits, plus the remaining digits; with the
/// single-digit law this fixes the value as the base-ten positional sum.
pub proof fn lemma_decimal_split(s: Seq<char>, j: int)
    requires
        0 <= j <= s.len(),
    ensures
        decimal_value(s) == decimal_value(s.take(j)) * pow10((s.len() - j) as nat) + decimal_value(
            s.skip(j),
        ),
    decreases s.len(),
{
    if j == s.len() {
        assert(s.take(j) == s);
        assert(s.skip(j) == Seq::<char>::empty());
    } else {
        let t = s.drop_last();
        lemma_decimal_split(t, j);
        assert(t.take(j) == s.take(j));
        assert(s.skip(j).drop_last() == t.skip(j));
        assert(s.skip(j).last() == s.last());
        let a = decimal_value(s.take(j));
        let b = decimal_value(t.skip(j));
        let p = pow10((t.len() - j) as nat);
        assert(pow10((s.len() - j) as nat) == 10 * p);
        assert((a * p + b) * 10 == a * (10 * p) + b * 10) by (nonlinear_arith);
    }
}

/// Ten to the power `n`.
pub open spec fn pow10(n: nat) -> int
    decreases n,
{
    if n == 0 {
        1
    } else {
        10 * pow10((n - 1) as nat)
    }
}

proof fn lemma_pow10_mono(i: nat, j: nat)
    requires
        i <= j,
    ensures
        1 <= pow10(i) <= pow10(j),
    decreases j,
{
    if j > i {
        lemma_pow10_mono(i, (j - 1) as nat);
    } else if i > 0 {
        lemma_pow10_mono((i - 1) as nat, (i - 1) as nat);
    }
}

/// The value of a string of one to five decimal digits, or `None` when
/// it does not fit in 16 bits.
pub fn port_value(digits: &str) -> (r: Option<u16>)
    requires
        1 <= digits@.len() <= 5,
        forall|i: int| 0 <= i < digits@.len() ==> is_digit(digits@[i]),
    ensures
        r matches Some(p) ==> p == decimal_value(digits@),
        r is None <==> decimal_value(digits@) > 65535,
{
    let v = chars_of(digits);
    let mut value: u32 = 0;
    let mut i: usize = 0;
    proof {
        reveal_with_fuel(pow10, 6);
        assert(pow10(5) == 100000);
    }
    while i < v.len()
        invariant
            i <= v.len() <= 5,
            v@ == digits@,
            forall|j: int| 0 <= j < v.len() ==> is_digit(v@[j]),
            value == decimal_value(v@.take(i as int)),
            value < pow10(i as nat),
            pow10(5) == 100000,
        decreases v.len() - i,
    {
        let d = (v[i] as u32) - ('0' as u32);
        proof {
            lemma_pow10_mono((i + 1) as nat, 5);
            assert(v@.take(i + 1).drop_last() == v@.take(i as int));
            assert(value * 10 + d < pow10((i + 1) as nat)) by (nonlinear_arith)
                requires
                    value < pow10(i as nat),
                    d <= 9,
                    pow10((i + 1) as nat) == 10 * pow10(i as nat),
            ;
        }
        value = value * 10 + d;
        i = i + 1;
    }
    assert(v@.take(v.len() as int) == v@);
    if value <= 65535 {
        Some(value as u16)
    } else {
        None
    }
}

/// The characters of a string slice, in order.
pub fn chars_of(s: &str) -> (v: Vec<char>)
    ensures
        v@ == s@,
{
    let mut v: Vec<char> = Vec::new();
    for ch in it: s.chars()
        invariant
            v@ == it.seq().take(it.index() as int),
    {
        v.push(ch);
    }
    v
}

} // verus!
