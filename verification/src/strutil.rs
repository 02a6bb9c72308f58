//! Verified text utilities: cutting a string at separators, trimming
//! whitespace, joining pieces, and locating a marker substring.
//!
//! All executable functions are specified against recursive spec functions
//! over `Seq<char>`; the rest of the library states its contracts in terms of
//! these spec functions.

use vstd::prelude::*;

verus! {

/// The Unicode white-space characters: the `White_Space` property set, as
/// `char::is_whitespace` counts them.
pub open spec fn is_unicode_ws(c: char) -> bool {
    ||| c == ' '
    ||| c == '\t'
    ||| c == '\n'
    ||| c == '\u{b}'
    ||| c == '\u{c}'
    ||| c == '\r'
    ||| c == '\u{85}'
    ||| c == '\u{a0}'
    ||| c == '\u{1680}'
    ||| c == '\u{2000}'
    ||| c == '\u{2001}'
    ||| c == '\u{2002}'
    ||| c == '\u{2003}'
    ||| c == '\u{2004}'
    ||| c == '\u{2005}'
    ||| c == '\u{2006}'
    ||| c == '\u{2007}'
    ||| c == '\u{2008}'
    ||| c == '\u{2009}'
    ||| c == '\u{200a}'
    ||| c == '\u{2028}'
    ||| c == '\u{2029}'
    ||| c == '\u{202f}'
    ||| c == '\u{205f}'
    ||| c == '\u{3000}'
}

fn is_unicode_ws_exec(c: char) -> (r: bool)
    ensures
        r == is_unicode_ws(c),
{
    c == ' ' || c == '\t' || c == '\n' || c == '\u{b}' || c == '\u{c}' || c == '\r'
        || c == '\u{85}' || c == '\u{a0}' || c == '\u{1680}' || c == '\u{2000}' || c == '\u{2001}'
        || c == '\u{2002}' || c == '\u{2003}' || c == '\u{2004}' || c == '\u{2005}'
        || c == '\u{2006}' || c == '\u{2007}' || c == '\u{2008}' || c == '\u{2009}'
        || c == '\u{200a}' || c == '\u{2028}' || c == '\u{2029}' || c == '\u{202f}'
        || c == '\u{205f}' || c == '\u{3000}'
}

/// The separator classes that the protocol text is cut at.
#[derive(Clone, Copy, Debug, PartialEq, Eq, Structural)]
pub enum Sep {
    /// `/` between path segments.
    Slash,
    /// White space between the tokens of a request line.
    Space,
    /// `\n` between lines.
    Newline,
    /// `:` between a header name and its value.
    Colon,
    /// `?` between a path and its query string.
    Question,
}

pub open spec fn is_sep(c: char, k: Sep) -> bool {
    match k {
        Sep::Slash => c == '/',
        Sep::Space => is_unicode_ws(c),
        Sep::Newline => c == '\n',
        Sep::Colon => c == ':',
        Sep::Question => c == '?',
    }
}

fn is_sep_exec(c: char, k: Sep) -> (r: bool)
    ensures
        r == is_sep(c, k),
{
    match k {
        Sep::Slash => c == '/',
        Sep::Space => is_unicode_ws_exec(c),
        Sep::Newline => c == '\n',
        Sep::Colon => c == ':',
        Sep::Question => c == '?',
    }
}

/// Index of the first separator of class `k` in `s`, or `s.len()` if none occurs.
pub open spec fn find_sep(s: Seq<char>, k: Sep) -> int
    decreases s.len(),
{
    if s.len() == 0 {
        0
    } else if is_sep(s[0], k) {
        0
    } else {
        1 + find_sep(s.skip(1), k)
    }
}

pub proof fn lemma_find_sep(s: Seq<char>, k: Sep)
    ensures
        0 <= find_sep(s, k) <= s.len(),
        find_sep(s, k) < s.len() ==> is_sep(s[find_sep(s, k)], k),
        forall|j: int| 0 <= j < find_sep(s, k) ==> !is_sep(s[j], k),
    decreases s.len(),
{
    if s.len() == 0 {
    } else if is_sep(s[0], k) {
    } else {
        lemma_find_sep(s.skip(1), k);
        let f = find_sep(s, k);
        assert forall|j: int| 0 <= j < f implies !is_sep(s[j], k) by {
            if j > 0 {
                assert(s.skip(1)[j - 1] == s[j]);
            }
        }
        if f < s.len() {
            assert(s.skip(1)[f - 1] == s[f]);
        }
    }
}

/// Converse direction: an index with the first-separator properties is `find_sep`.
pub proof fn lemma_find_sep_at(s: Seq<char>, k: Sep, i: int)
    requires
        0 <= i <= s.len(),
        forall|j: int| 0 <= j < i ==> !is_sep(s[j], k),
        i < s.len() ==> is_sep(s[i], k),
    ensures
        find_sep(s, k) == i,
    decreases s.len(),
{
    if s.len() == 0 {
    } else if i == 0 {
    } else {
        assert(!is_sep(s[0], k));
        assert forall|j: int| 0 <= j < i - 1 implies !is_sep(s.skip(1)[j], k) by {
            assert(s.skip(1)[j] == s[j + 1]);
        }
        if i - 1 < s.skip(1).len() {
            assert(s.skip(1)[i - 1] == s[i]);
        }
        lemma_find_sep_at(s.skip(1), k, i - 1);
    }
}

/// First index `i >= from` holding a separator of class `k`, or the length of `s`.
pub fn find_sep_from(s: &str, k: Sep, from: usize) -> (i: usize)
    requires
        from as int <= s@.len(),
    ensures
        from <= i <= s@.len(),
        forall|j: int| from <= j < i ==> !is_sep(s@[j], k),
        i < s@.len() ==> is_sep(s@[i as int], k),
        find_sep(s@.skip(from as int), k) == i - from,
{
    let n = s.unicode_len();
    let mut i = from;
    while i < n
        invariant
            from <= i <= n,
            n == s@.len(),
            forall|j: int| from <= j < i ==> !is_sep(s@[j], k),
        decreases n - i,
    {
        let c = s.get_char(i);
        if is_sep_exec(c, k) {
            proof {
                let t = s@.skip(from as int);
                assert forall|j: int| 0 <= j < i - from implies !is_sep(t[j], k) by {
                    assert(t[j] == s@[j + from]);
                }
                assert(t[i - from] == s@[i as int]);
                lemma_find_sep_at(t, k, i - from);
            }
            return i;
        }
        i += 1;
    }
    proof {
        let t = s@.skip(from as int);
        assert forall|j: int| 0 <= j < i - from implies !is_sep(t[j], k) by {
            assert(t[j] == s@[j + from]);
        }
        lemma_find_sep_at(t, k, i - from);
    }
    i
}

/// The pieces of `s` between separators of class `k`; empty pieces are kept,
/// so the result always holds at least one piece.
pub open spec fn split_sep(s: Seq<char>, k: Sep) -> Seq<Seq<char>>
    decreases s.len(),
    via split_sep_decreases
{
    let i = find_sep(s, k);
    if i == s.len() {
        seq![s]
    } else {
        seq![s.take(i)] + split_sep(s.skip(i + 1), k)
    }
}

#[via_fn]
proof fn split_sep_decreases(s: Seq<char>, k: Sep) {
    lemma_find_sep(s, k);
}

/// Splitting yields at least one piece, however many separators occur.
pub proof fn lemma_split_sep_len(s: Seq<char>, k: Sep)
    ensures
        split_sep(s, k).len() >= 1,
{
    lemma_find_sep(s, k);
}

/// Cut `s` at every separator of class `k`; empty pieces are kept.
pub fn split_sep_str(s: &str, k: Sep) -> (parts: Vec<String>)
    ensures
        parts@.map_values(|p: String| p@) == split_sep(s@, k),
{
    let n = s.unicode_len();
    let mut parts: Vec<String> = Vec::new();
    let mut pos: usize = 0;
    proof {
        assert(s@.skip(0) =~= s@);
        assert(parts@.map_values(|p: String| p@) + split_sep(s@, k) =~= split_sep(s@, k));
    }
    loop
        invariant
            pos <= n,
            n == s@.len(),
            split_sep(s@, k) == parts@.map_values(|p: String| p@) + split_sep(
                s@.skip(pos as int),
                k,
            ),
        decreases n - pos,
    {
        let j = find_sep_from(s, k, pos);
        let piece = s.substring_char(pos, j).to_owned();
        let ghost rest = s@.skip(pos as int);
        proof {
            assert(piece@ =~= rest.take(j - pos));
        }
        if j == n {
            parts.push(piece);
            proof {
                assert(rest.take(j - pos) =~= rest);
                assert(split_sep(rest, k) =~= seq![rest]);
                assert(parts@.map_values(|p: String| p@) =~= parts@.drop_last().map_values(
                    |p: String| p@,
                ).push(rest));
                assert(parts@.map_values(|p: String| p@) =~= split_sep(s@, k));
            }
            return parts;
        }
        parts.push(piece);
        proof {
            assert(split_sep(rest, k) =~= seq![rest.take(j - pos)] + split_sep(
                rest.skip(j - pos + 1),
                k,
            ));
            assert(rest.skip(j - pos + 1) =~= s@.skip(j + 1));
            assert(parts@.map_values(|p: String| p@) =~= parts@.drop_last().map_values(
                |p: String| p@,
            ).push(rest.take(j - pos)));
            assert(split_sep(s@, k) == parts@.map_values(|p: String| p@) + split_sep(
                s@.skip(j + 1 as int),
                k,
            ));
        }
        pos = j + 1;
    }
}

/// The subsequence of nonempty pieces, in order.
pub open spec fn nonempty_of(ps: Seq<Seq<char>>) -> Seq<Seq<char>>
    decreases ps.len(),
{
    if ps.len() == 0 {
        Seq::empty()
    } else if ps.last().len() > 0 {
        nonempty_of(ps.drop_last()).push(ps.last())
    } else {
        nonempty_of(ps.drop_last())
    }
}

/// The nonempty pieces of `s` between separators of class `k`: the path
/// segments for `Slash`, the request-line tokens for `Space`.
pub open spec fn split_nonempty(s: Seq<char>, k: Sep) -> Seq<Seq<char>> {
    nonempty_of(split_sep(s, k))
}

/// Cut `s` at every separator of class `k` and drop the empty pieces.
pub fn split_nonempty_str(s: &str, k: Sep) -> (parts: Vec<String>)
    ensures
        parts@.map_values(|p: String| p@) == split_nonempty(s@, k),
{
    let all = split_sep_str(s, k);
    let mut parts: Vec<String> = Vec::new();
    let mut i: usize = 0;
    while i < all.len()
        invariant
            i <= all.len(),
            all@.map_values(|p: String| p@) == split_sep(s@, k),
            parts@.map_values(|p: String| p@) == nonempty_of(
                all@.take(i as int).map_values(|p: String| p@),
            ),
        decreases all.len() - i,
    {
        let ghost pref = all@.take(i + 1 as int).map_values(|p: String| p@);
        proof {
            assert(pref.drop_last() =~= all@.take(i as int).map_values(|p: String| p@));
            assert(pref.last() == all@[i as int]@);
        }
        if !all[i].as_str().is_empty() {
            parts.push(all[i].clone());
            proof {
                assert(parts@.map_values(|p: String| p@) =~= parts@.drop_last().map_values(
                    |p: String| p@,
                ).push(all@[i as int]@));
            }
        }
        i += 1;
    }
    proof {
        assert(all@.take(all@.len() as int).map_values(|p: String| p@) =~= all@.map_values(
            |p: String| p@,
        ));
    }
    parts
}

/// All the pieces joined in order, with nothing between them.
pub open spec fn concat_all(ps: Seq<Seq<char>>) -> Seq<char>
    decreases ps.len(),
{
    if ps.len() == 0 {
        Seq::empty()
    } else {
        concat_all(ps.drop_last()) + ps.last()
    }
}

/// Join `ls[from..]` with nothing between the pieces.
pub fn concat_range(ls: &Vec<String>, from: usize) -> (r: String)
    requires
        from as int <= ls@.len(),
    ensures
        r@ == concat_all(ls@.map_values(|p: String| p@).skip(from as int)),
{
    let ghost views = ls@.map_values(|p: String| p@);
    let mut r = String::new();
    let mut j = from;
    while j < ls.len()
        invariant
            from <= j <= ls@.len(),
            views == ls@.map_values(|p: String| p@),
            r@ == concat_all(views.subrange(from as int, j as int)),
        decreases ls.len() - j,
    {
        r.append(ls[j].as_str());
        proof {
            let pref = views.subrange(from as int, j + 1 as int);
            assert(pref.drop_last() =~= views.subrange(from as int, j as int));
            assert(pref.last() == views[j as int]);
        }
        j += 1;
    }
    proof {
        assert(views.subrange(from as int, views.len() as int) =~= views.skip(from as int));
    }
    r
}

/// A sequence of owned string pairs, viewed at the specification level.
pub open spec fn pairs_view(v: Seq<(String, String)>) -> Seq<(Seq<char>, Seq<char>)> {
    v.map_values(|p: (String, String)| (p.0@, p.1@))
}

/// Characters discarded by trimming: the Unicode white-space set.
pub open spec fn is_trim_ws(c: char) -> bool {
    is_unicode_ws(c)
}

fn is_trim_ws_exec(c: char) -> (r: bool)
    ensures
        r == is_trim_ws(c),
{
    is_unicode_ws_exec(c)
}

pub open spec fn trim_start(s: Seq<char>) -> Seq<char>
    decreases s.len(),
{
    if s.len() > 0 && is_trim_ws(s[0]) {
        trim_start(s.skip(1))
    } else {
        s
    }
}

pub open spec fn trim_end(s: Seq<char>) -> Seq<char>
    decreases s.len(),
{
    if s.len() > 0 && is_trim_ws(s.last()) {
        trim_end(s.drop_last())
    } else {
        s
    }
}

/// `s` without leading and trailing whitespace.
pub open spec fn trim_ws(s: Seq<char>) -> Seq<char> {
    trim_end(trim_start(s))
}

proof fn lemma_trim_start_at(s: Seq<char>, a: int)
    requires
        0 <= a <= s.len(),
        forall|j: int| 0 <= j < a ==> is_trim_ws(s[j]),
        a < s.len() ==> !is_trim_ws(s[a]),
    ensures
        trim_start(s) == s.skip(a),
    decreases s.len(),
{
    if a == 0 {
        assert(s.skip(0) =~= s);
    } else {
        assert(is_trim_ws(s[0]));
        let t = s.skip(1);
        assert forall|j: int| 0 <= j < a - 1 implies is_trim_ws(t[j]) by {
            assert(t[j] == s[j + 1]);
        }
        if a - 1 < t.len() {
            assert(t[a - 1] == s[a]);
        }
        lemma_trim_start_at(t, a - 1);
        assert(t.skip(a - 1) =~= s.skip(a));
    }
}

proof fn lemma_trim_end_at(s: Seq<char>, b: int)
    requires
        0 <= b <= s.len(),
        forall|j: int| b <= j < s.len() ==> is_trim_ws(s[j]),
        b > 0 ==> !is_trim_ws(s[b - 1]),
    ensures
        trim_end(s) == s.take(b),
    decreases s.len(),
{
    if b == s.len() {
        if s.len() > 0 && is_trim_ws(s.last()) {
            assert(false);
        }
        assert(s.take(b) =~= s);
    } else {
        assert(is_trim_ws(s.last()));
        let t = s.drop_last();
        assert forall|j: int| b <= j < t.len() implies is_trim_ws(t[j]) by {
            assert(t[j] == s[j]);
        }
        if b > 0 {
            assert(t[b - 1] == s[b - 1]);
        }
        lemma_trim_end_at(t, b);
        assert(t.take(b) =~= s.take(b));
    }
}

/// `s` without leading and trailing whitespace, as a fresh `String`.
pub fn trim_str(s: &str) -> (r: String)
    ensures
        r@ == trim_ws(s@),
{
    let n = s.unicode_len();
    let mut a: usize = 0;
    loop
        invariant
            a <= n,
            n == s@.len(),
            forall|j: int| 0 <= j < a ==> is_trim_ws(s@[j]),
        ensures
            a <= n,
            forall|j: int| 0 <= j < a ==> is_trim_ws(s@[j]),
            a < n ==> !is_trim_ws(s@[a as int]),
        decreases n - a,
    {
        if a >= n {
            break;
        }
        let c = s.get_char(a);
        if !is_trim_ws_exec(c) {
            break;
        }
        a += 1;
    }
    proof {
        lemma_trim_start_at(s@, a as int);
    }
    let mut b: usize = n;
    loop
        invariant
            a <= b <= n,
            n == s@.len(),
            a < n ==> !is_trim_ws(s@[a as int]),
            forall|j: int| b <= j < n ==> is_trim_ws(s@[j]),
        ensures
            a <= b <= n,
            forall|j: int| b <= j < n ==> is_trim_ws(s@[j]),
            b > a ==> !is_trim_ws(s@[b - 1]),
        decreases b,
    {
        if b <= a {
            break;
        }
        let c = s.get_char(b - 1);
        if !is_trim_ws_exec(c) {
            break;
        }
        b -= 1;
    }
    let r = s.substring_char(a, b).to_owned();
    proof {
        let t = s@.skip(a as int);
        assert forall|j: int| b - a <= j < t.len() implies is_trim_ws(t[j]) by {
            assert(t[j] == s@[j + a]);
        }
        if b > a {
            assert(t[b - a - 1] == s@[b as int - 1]);
            assert(!is_trim_ws(s@[b as int - 1]));
        }
        lemma_trim_end_at(t, b - a as int);
        assert(t.take(b - a as int) =~= s@.subrange(a as int, b as int));
    }
    r
}

/// Whether two string slices hold the same characters.
pub fn str_eq(a: &str, b: &str) -> (r: bool)
    ensures
        r == (a@ == b@),
{
    let sa = a.to_owned();
    let sb = b.to_owned();
    sa == sb
}

/// The marker whose presence makes a byte buffer look like an HTTP request.
pub open spec fn http_marker() -> Seq<char> {
    seq!['H', 'T', 'T', 'P', '/']
}

/// Whether the marker occurs anywhere in `s`.
pub open spec fn has_http_marker(s: Seq<char>) -> bool {
    exists|i: int| 0 <= i && i + 5 <= s.len() && #[trigger] s.subrange(i, i + 5) == http_marker()
}

/// Scan for the protocol marker.
pub fn contains_http_marker(s: &str) -> (r: bool)
    ensures
        r == has_http_marker(s@),
{
    let n = s.unicode_len();
    if n < 5 {
        return false;
    }
    let mut i: usize = 0;
    while i <= n - 5
        invariant
            i <= n,
            n == s@.len(),
            n >= 5,
            forall|j: int| 0 <= j < i ==> !(#[trigger] s@.subrange(j, j + 5) == http_marker()),
        decreases n - i,
    {
        let hit = s.get_char(i) == 'H' && s.get_char(i + 1) == 'T' && s.get_char(i + 2) == 'T'
            && s.get_char(i + 3) == 'P' && s.get_char(i + 4) == '/';
        proof {
            let w = s@.subrange(i as int, i + 5 as int);
            assert(w[0] == s@[i as int]);
            assert(w[1] == s@[i + 1 as int]);
            assert(w[2] == s@[i + 2 as int]);
            assert(w[3] == s@[i + 3 as int]);
            assert(w[4] == s@[i + 4 as int]);
            if hit {
                assert(w =~= http_marker());
            } else {
                assert(!(w == http_marker()));
            }
        }
        if hit {
            return true;
        }
        i += 1;
    }
    proof {
        assert forall|j: int| 0 <= j && j + 5 <= s@.len() implies !(#[trigger] s@.subrange(j, j + 5)
            == http_marker()) by {
            assert(j < i);
        }
    }
    false
}

} // verus!
