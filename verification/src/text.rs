//! Text primitives: character sequences, searching, trimming, splitting.
//!
//! Texts are handled as `Vec<char>` inside the library; their mathematical
//! model is `Seq<char>`, which is also the view of `str` and `String`.
use vstd::prelude::*;

verus! {

// ── Case mapping (std) ──

/// The result of `str::to_lowercase` on the given characters.
pub uninterp spec fn lowercase(s: Seq<char>) -> Seq<char>;

/// The result of `str::to_uppercase` on the given characters.
pub uninterp spec fn uppercase(s: Seq<char>) -> Seq<char>;

/// A character with `A`–`Z` mapped to `a`–`z` and every other left alone.
pub open spec fn ascii_lower(c: char) -> char {
    if 'A' <= c && c <= 'Z' {
        (c as int + 32) as char
    } else {
        c
    }
}

/// A character with `a`–`z` mapped to `A`–`Z` and every other left alone.
pub open spec fn ascii_upper(c: char) -> char {
    if 'a' <= c && c <= 'z' {
        (c as int - 32) as char
    } else {
        c
    }
}

/// Each character lowercased by `ascii_lower`.
pub open spec fn ascii_lowercase(s: Seq<char>) -> Seq<char> {
    s.map_values(|c: char| ascii_lower(c))
}

/// Each character uppercased by `ascii_upper`.
pub open spec fn ascii_uppercase(s: Seq<char>) -> Seq<char> {
    s.map_values(|c: char| ascii_upper(c))
}

/// Calls `str::to_lowercase`. Its result is Unicode full lowercase mapping of the
/// whole string (context-sensitive for final sigma); the contract names that
/// result `lowercase(s@)`. Of ASCII text it claims what the Unicode mapping
/// gives there: `A`–`Z` become `a`–`z`, every other character stays, one for
/// one. Of other text it claims nothing more.
#[verifier::external_body]
pub(crate) fn to_lowercase(s: &str) -> (r: String)
    ensures
        r@ == lowercase(s@),
        vstd::utf8::is_ascii_chars(s@) ==> r@ == ascii_lowercase(s@),
{
    s.to_lowercase()
}

/// Calls `str::to_uppercase`. The contract names the result `uppercase(s@)`.
/// Of ASCII text it claims what the Unicode mapping gives there: `a`–`z`
/// become `A`–`Z`, every other character stays, one for one. Of other text it
/// claims nothing more.
#[verifier::external_body]
pub(crate) fn to_uppercase(s: &str) -> (r: String)
    ensures
        r@ == uppercase(s@),
        vstd::utf8::is_ascii_chars(s@) ==> r@ == ascii_uppercase(s@),
{
    s.to_uppercase()
}

/// Calls `String::push`, which appends one character at the end.
#[verifier::external_body]
pub(crate) fn push_char(s: &mut String, c: char)
    ensures
        final(s)@ == old(s)@.push(c),
{
    s.push(c);
}

// ── Conversions ──

/// The characters of a string slice.
pub fn chars_of(s: &str) -> (v: Vec<char>)
    ensures
        v@ == s@,
{
    let mut v: Vec<char> = Vec::new();
    for c in it: s.chars()
        invariant
            v@ == it.seq().take(it.index() as int),
            it.seq() == s@,
    {
        v.push(c);
    }
    v
}

/// A string holding the given characters.
pub fn string_of(v: &Vec<char>) -> (s: String)
    ensures
        s@ == v@,
{
    let mut s = String::new();
    for i in 0..v.len()
        invariant
            s@ == v@.take(i as int),
    {
        push_char(&mut s, v[i]);
        assert(v@.take(i + 1) == v@.take(i as int).push(v@[i as int]));
    }
    assert(v@.take(v.len() as int) == v@);
    s
}

/// The characters of a string.
pub fn chars_of_string(s: &String) -> (v: Vec<char>)
    ensures
        v@ == s@,
{
    chars_of(s.as_str())
}

/// A copy of a string, with the same characters.
pub fn copy_string(s: &String) -> (r: String)
    ensures
        r@ == s@,
{
    s.clone()
}

/// Appends the characters of `v` to `s`.
pub(crate) fn push_chars(s: &mut String, v: &Vec<char>)
    ensures
        final(s)@ == old(s)@ + v@,
{
    let ghost start = s@;
    for i in 0..v.len()
        invariant
            s@ == start + v@.take(i as int),
    {
        push_char(s, v[i]);
        assert(v@.take(i + 1) == v@.take(i as int).push(v@[i as int]));
    }
    assert(v@.take(v.len() as int) == v@);
}

/// Whether two character sequences are equal.
pub fn chars_equal(a: &Vec<char>, b: &Vec<char>) -> (r: bool)
    ensures
        r == (a@ == b@),
{
    if a.len() != b.len() {
        return false;
    }
    let mut i: usize = 0;
    while i < a.len()
        invariant
            a.len() == b.len(),
            i <= a.len(),
            forall|j: int| 0 <= j < i ==> a@[j] == b@[j],
        decreases a.len() - i,
    {
        if a[i] != b[i] {
            return false;
        }
        i = i + 1;
    }
    assert(a@ == b@);
    true
}

// ── Whitespace and trimming ──

/// Unicode `White_Space`, the property that `char::is_whitespace` reports.
pub open spec fn is_ws(c: char) -> bool {
    ||| ('\u{9}' <= c && c <= '\u{d}')
    ||| c == ' '
    ||| c == '\u{85}'
    ||| c == '\u{a0}'
    ||| c == '\u{1680}'
    ||| ('\u{2000}' <= c && c <= '\u{200a}')
    ||| c == '\u{2028}'
    ||| c == '\u{2029}'
    ||| c == '\u{202f}'
    ||| c == '\u{205f}'
    ||| c == '\u{3000}'
}

/// Whether a character is Unicode white space.
pub fn is_whitespace(c: char) -> (b: bool)
    ensures
        b == is_ws(c),
{
    ('\u{9}' <= c && c <= '\u{d}') || c == ' ' || c == '\u{85}' || c == '\u{a0}' || c
        == '\u{1680}' || ('\u{2000}' <= c && c <= '\u{200a}') || c == '\u{2028}' || c
        == '\u{2029}' || c == '\u{202f}' || c == '\u{205f}' || c == '\u{3000}'
}

/// `s` without its leading white space.
pub open spec fn trim_start(s: Seq<char>) -> Seq<char>
    decreases s.len(),
{
    if s.len() > 0 && is_ws(s[0]) {
        trim_start(s.drop_first())
    } else {
        s
    }
}

/// `s` without its trailing white space.
pub open spec fn trim_end(s: Seq<char>) -> Seq<char>
    decreases s.len(),
{
    if s.len() > 0 && is_ws(s.last()) {
        trim_end(s.drop_last())
    } else {
        s
    }
}

/// `s` without leading and trailing white space (`str::trim`).
pub open spec fn trim(s: Seq<char>) -> Seq<char> {
    trim_end(trim_start(s))
}

/// `s` has no white space at either end.
pub open spec fn no_outer_ws(s: Seq<char>) -> bool {
    s.len() == 0 || (!is_ws(s[0]) && !is_ws(s.last()))
}

/// `trim_start` leaves a suffix that starts with no white space.
proof fn lemma_trim_start(s: Seq<char>)
    ensures
        trim_start(s).len() == 0 || !is_ws(trim_start(s)[0]),
    decreases s.len(),
{
    if s.len() > 0 && is_ws(s[0]) {
        lemma_trim_start(s.drop_first());
    }
}

/// `trim_end` leaves a prefix that ends with no white space.
proof fn lemma_trim_end(s: Seq<char>)
    ensures
        trim_end(s).len() <= s.len(),
        forall|i: int| 0 <= i < trim_end(s).len() ==> #[trigger] trim_end(s)[i] == s[i],
        trim_end(s).len() == 0 || !is_ws(trim_end(s).last()),
    decreases s.len(),
{
    if s.len() > 0 && is_ws(s.last()) {
        lemma_trim_end(s.drop_last());
    }
}

/// Trimming leaves no white space at either end.
pub proof fn lemma_trim(s: Seq<char>)
    ensures
        no_outer_ws(trim(s)),
{
    lemma_trim_start(s);
    lemma_trim_end(trim_start(s));
    if trim(s).len() > 0 {
        assert(trim(s)[0] == trim_start(s)[0]);
    }
}

/// Number of leading white-space characters of `v`.
fn leading_ws(v: &Vec<char>) -> (n: usize)
    ensures
        n <= v.len(),
        trim_start(v@) == v@.skip(n as int),
{
    let mut i: usize = 0;
    assert(v@.skip(0) == v@);
    while i < v.len() && is_whitespace(v[i])
        invariant
            i <= v.len(),
            trim_start(v@) == trim_start(v@.skip(i as int)),
        decreases v.len() - i,
    {
        assert(v@.skip(i as int).drop_first() == v@.skip(i + 1));
        i = i + 1;
    }
    i
}

/// `v` without leading and trailing white space.
pub fn trim_chars(v: &Vec<char>) -> (r: Vec<char>)
    ensures
        r@ == trim(v@),
{
    let lo = leading_ws(v);
    let ghost t = v@.skip(lo as int);
    let mut hi: usize = v.len();
    while hi > lo && is_whitespace(v[hi - 1])
        invariant
            lo <= hi <= v.len(),
            t == v@.skip(lo as int),
            trim_end(t) == trim_end(v@.subrange(lo as int, hi as int)),
        decreases hi,
    {
        assert(v@.subrange(lo as int, hi as int).drop_last() == v@.subrange(
            lo as int,
            hi - 1,
        ));
        hi = hi - 1;
    }
    assert(v@.skip(lo as int) == v@.subrange(lo as int, v.len() as int));
    slice_chars(v, lo, hi)
}

/// A copy of `v[lo..hi]`.
pub fn slice_chars(v: &Vec<char>, lo: usize, hi: usize) -> (r: Vec<char>)
    requires
        lo <= hi <= v.len(),
    ensures
        r@ == v@.subrange(lo as int, hi as int),
{
    let mut r: Vec<char> = Vec::new();
    let mut i: usize = lo;
    while i < hi
        invariant
            lo <= i <= hi <= v.len(),
            r@ == v@.subrange(lo as int, i as int),
        decreases hi - i,
    {
        r.push(v[i]);
        assert(v@.subrange(lo as int, i + 1) == v@.subrange(lo as int, i as int).push(
            v@[i as int],
        ));
        i = i + 1;
    }
    r
}

// ── Searching ──

/// `p` occurs in `s` starting at index `i`.
pub open spec fn occurs_at<A>(s: Seq<A>, p: Seq<A>, i: int) -> bool {
    0 <= i && i + p.len() <= s.len() && s.subrange(i, i + p.len()) == p
}

/// The first index at or after `k` at which `p` occurs in `s`.
pub open spec fn find_from<A>(s: Seq<A>, p: Seq<A>, k: int) -> Option<int>
    decreases s.len() + 1 - k,
{
    if k < 0 || k + p.len() > s.len() {
        None
    } else if occurs_at(s, p, k) {
        Some(k)
    } else {
        find_from(s, p, k + 1)
    }
}

/// The first index at which `p` occurs in `s` (`str::find`).
pub open spec fn find<A>(s: Seq<A>, p: Seq<A>) -> Option<int> {
    find_from(s, p, 0)
}

/// `p` occurs somewhere in `s` (`str::contains`).
pub open spec fn contains<A>(s: Seq<A>, p: Seq<A>) -> bool {
    exists|i: int| #[trigger] occurs_at(s, p, i)
}

/// `p` is a prefix of `s` (`str::starts_with`).
pub open spec fn starts_with<A>(s: Seq<A>, p: Seq<A>) -> bool {
    occurs_at(s, p, 0)
}

/// What `find_from` returns is an occurrence, and none lies between `k` and it.
pub proof fn lemma_find_from<A>(s: Seq<A>, p: Seq<A>, k: int)
    requires
        0 <= k,
    ensures
        find_from(s, p, k) matches Some(i) ==> k <= i && occurs_at(s, p, i) && forall|j: int|
            k <= j < i ==> !occurs_at(s, p, j),
        find_from(s, p, k) is None ==> forall|j: int| k <= j ==> !occurs_at(s, p, j),
    decreases s.len() + 1 - k,
{
    if k + p.len() > s.len() {
    } else if occurs_at(s, p, k) {
    } else {
        lemma_find_from(s, p, k + 1);
        assert forall|j: int| k <= j && !(k + 1 <= j) implies !occurs_at(s, p, j) by {
            assert(j == k);
        }
    }
}

/// `find` gives the first occurrence, and finds one exactly when `contains` holds.
pub proof fn lemma_find<A>(s: Seq<A>, p: Seq<A>)
    ensures
        find(s, p) matches Some(i) ==> occurs_at(s, p, i) && forall|j: int|
            0 <= j < i ==> !occurs_at(s, p, j),
        find(s, p) is Some <==> contains(s, p),
{
    lemma_find_from(s, p, 0);
    if find(s, p) is Some {
        let i = find(s, p)->0;
        assert(occurs_at(s, p, i));
    }
}

/// Whether `p` occurs in `h` at index `i`.
pub fn chars_occur_at(h: &Vec<char>, p: &Vec<char>, i: usize) -> (b: bool)
    ensures
        b == occurs_at(h@, p@, i as int),
{
    if i > h.len() || p.len() > h.len() - i {
        return false;
    }
    let mut k: usize = 0;
    while k < p.len()
        invariant
            i + p.len() <= h.len(),
            k <= p.len(),
            forall|j: int| 0 <= j < k ==> h@[i + j] == p@[j],
        decreases p.len() - k,
    {
        if h[i + k] != p[k] {
            assert(h@.subrange(i as int, i + p.len())[k as int] != p@[k as int]);
            return false;
        }
        k = k + 1;
    }
    assert(h@.subrange(i as int, i + p.len()) == p@);
    true
}

/// The first index at or after `from` at which `p` occurs in `h`.
pub fn find_chars_from(h: &Vec<char>, p: &Vec<char>, from: usize) -> (r: Option<usize>)
    ensures
        r matches Some(i) ==> find_from(h@, p@, from as int) == Some(i as int),
        r is None ==> find_from(h@, p@, from as int) is None,
{
    if from > h.len() || p.len() > h.len() - from {
        return None;
    }
    let last = h.len() - p.len();
    let mut i: usize = from;
    while i <= last
        invariant
            from <= i,
            last + p.len() == h.len(),
            i <= last + 1,
            find_from(h@, p@, from as int) == find_from(h@, p@, i as int),
        decreases last + 1 - i,
    {
        if chars_occur_at(h, p, i) {
            return Some(i);
        }
        if i == last {
            assert(find_from(h@, p@, i + 1) is None);
            return None;
        }
        i = i + 1;
    }
    None
}

/// The first index at which `p` occurs in `h`.
pub fn find_chars(h: &Vec<char>, p: &Vec<char>) -> (r: Option<usize>)
    ensures
        r matches Some(i) ==> find(h@, p@) == Some(i as int),
        r is None ==> find(h@, p@) is None,
{
    find_chars_from(h, p, 0)
}

/// Whether `p` occurs in `h`.
pub fn contains_chars(h: &Vec<char>, p: &Vec<char>) -> (b: bool)
    ensures
        b == contains(h@, p@),
{
    proof {
        lemma_find(h@, p@);
    }
    find_chars(h, p).is_some()
}

/// Whether the string `p` occurs in `h`.
pub fn contains_str(h: &Vec<char>, p: &str) -> (b: bool)
    ensures
        b == contains(h@, p@),
{
    let pv = chars_of(p);
    contains_chars(h, &pv)
}

/// Whether `h` starts with the string `p`.
pub fn starts_with_str(h: &Vec<char>, p: &str) -> (b: bool)
    ensures
        b == starts_with(h@, p@),
{
    let pv = chars_of(p);
    chars_occur_at(h, &pv, 0)
}

/// Whether `p` occurs in `h` at byte index `i`.
pub fn bytes_occur_at(h: &[u8], p: &[u8], i: usize) -> (b: bool)
    ensures
        b == occurs_at(h@, p@, i as int),
{
    if i > h.len() || p.len() > h.len() - i {
        return false;
    }
    let mut k: usize = 0;
    while k < p.len()
        invariant
            i + p.len() <= h.len(),
            k <= p.len(),
            forall|j: int| 0 <= j < k ==> h@[i + j] == p@[j],
        decreases p.len() - k,
    {
        if h[i + k] != p[k] {
            assert(h@.subrange(i as int, i + p.len())[k as int] != p@[k as int]);
            return false;
        }
        k = k + 1;
    }
    assert(h@.subrange(i as int, i + p.len()) == p@);
    true
}

/// The first byte index at or after `from` at which `p` occurs in `h`.
pub fn find_bytes_from(h: &[u8], p: &[u8], from: usize) -> (r: Option<usize>)
    ensures
        r matches Some(i) ==> find_from(h@, p@, from as int) == Some(i as int),
        r is None ==> find_from(h@, p@, from as int) is None,
{
    if from > h.len() || p.len() > h.len() - from {
        return None;
    }
    let last = h.len() - p.len();
    let mut i: usize = from;
    while i <= last
        invariant
            from <= i,
            last + p.len() == h.len(),
            i <= last + 1,
            find_from(h@, p@, from as int) == find_from(h@, p@, i as int),
        decreases last + 1 - i,
    {
        if bytes_occur_at(h, p, i) {
            return Some(i);
        }
        if i == last {
            assert(find_from(h@, p@, i + 1) is None);
            return None;
        }
        i = i + 1;
    }
    None
}

// ── Splitting and joining ──

/// The end of the run of non-white-space characters of `s` that starts at `i`.
pub open spec fn word_end(s: Seq<char>, i: int) -> int
    decreases s.len() - i,
{
    if i < 0 || i >= s.len() || is_ws(s[i]) {
        i
    } else {
        word_end(s, i + 1)
    }
}

/// `word_end` lies between `i` and the end, past `i` when `s[i]` is not white space.
pub proof fn lemma_word_end(s: Seq<char>, i: int)
    requires
        0 <= i <= s.len(),
    ensures
        i <= word_end(s, i) <= s.len(),
        i < s.len() && !is_ws(s[i]) ==> word_end(s, i) > i,
        forall|k: int| i <= k < word_end(s, i) ==> !is_ws(#[trigger] s[k]),
        word_end(s, i) < s.len() ==> is_ws(s[word_end(s, i)]),
    decreases s.len() - i,
{
    if i < s.len() && !is_ws(s[i]) {
        lemma_word_end(s, i + 1);
    }
}

/// The white-space separated words of `s` from index `i` on.
pub open spec fn words_from(s: Seq<char>, i: int) -> Seq<Seq<char>>
    decreases s.len() - i,
{
    if i < 0 || i >= s.len() {
        seq![]
    } else if is_ws(s[i]) {
        words_from(s, i + 1)
    } else {
        let e = word_end(s, i);
        if e <= i || e > s.len() {
            seq![]
        } else {
            seq![s.subrange(i, e)] + words_from(s, e)
        }
    }
}

/// The white-space separated words of `s` (`str::split_whitespace`).
pub open spec fn words(s: Seq<char>) -> Seq<Seq<char>> {
    words_from(s, 0)
}

/// The words of `v`, split at white space.
pub fn split_whitespace(v: &Vec<char>) -> (r: Vec<Vec<char>>)
    ensures
        r@.map_values(|w: Vec<char>| w@) == words(v@),
{
    let mut r: Vec<Vec<char>> = Vec::new();
    let mut i: usize = 0;
    while i < v.len()
        invariant
            i <= v.len(),
            words(v@) == r@.map_values(|w: Vec<char>| w@) + words_from(v@, i as int),
        decreases v.len() - i,
    {
        if is_whitespace(v[i]) {
            i = i + 1;
        } else {
            let mut e: usize = i;
            proof {
                lemma_word_end(v@, i as int);
            }
            while e < v.len() && !is_whitespace(v[e])
                invariant
                    i <= e <= v.len(),
                    word_end(v@, i as int) == word_end(v@, e as int),
                decreases v.len() - e,
            {
                e = e + 1;
            }
            let w = slice_chars(v, i, e);
            let ghost before = r@.map_values(|w: Vec<char>| w@);
            r.push(w);
            assert(r@.map_values(|w: Vec<char>| w@) =~= before.push(v@.subrange(i as int, e as int)));
            i = e;
        }
    }
    r
}

/// The sequences of `ws` joined with `sep` between them (`[&str]::join`).
pub open spec fn join(ws: Seq<Seq<char>>, sep: Seq<char>) -> Seq<char>
    decreases ws.len(),
{
    if ws.len() == 0 {
        seq![]
    } else if ws.len() == 1 {
        ws[0]
    } else {
        join(ws.drop_last(), sep) + sep + ws.last()
    }
}

/// `ws[..n]` joined with `sep`.
pub fn join_chars(ws: &Vec<Vec<char>>, n: usize, sep: &str) -> (r: Vec<char>)
    requires
        n <= ws.len(),
    ensures
        r@ == join(ws@.map_values(|w: Vec<char>| w@).take(n as int), sep@),
{
    let ghost wv = ws@.map_values(|w: Vec<char>| w@);
    let sc = chars_of(sep);
    let mut r: Vec<char> = Vec::new();
    for i in 0..n
        invariant
            n <= ws.len(),
            wv == ws@.map_values(|w: Vec<char>| w@),
            sc@ == sep@,
            r@ == join(wv.take(i as int), sep@),
    {
        assert(wv.take(i + 1).drop_last() == wv.take(i as int));
        if i > 0 {
            append_chars(&mut r, &sc);
        }
        append_chars(&mut r, &ws[i]);
        proof {
            if i == 0 {
                assert(r@ == wv.take(1)[0]);
            }
        }
    }
    r
}

/// Appends the characters of `w` to `r`.
pub fn append_chars(r: &mut Vec<char>, w: &Vec<char>)
    ensures
        final(r)@ == old(r)@ + w@,
{
    let ghost start = r@;
    for i in 0..w.len()
        invariant
            r@ == start + w@.take(i as int),
    {
        r.push(w[i]);
        assert(w@.take(i + 1) == w@.take(i as int).push(w@[i as int]));
    }
    assert(w@.take(w.len() as int) == w@);
}

// ── Ordering ──

/// `a` comes strictly before `b` in lexicographic order of code points (the
/// order of `str` comparison).
pub open spec fn lex_lt(a: Seq<char>, b: Seq<char>) -> bool
    decreases a.len(),
{
    if b.len() == 0 {
        false
    } else if a.len() == 0 {
        true
    } else if a[0] != b[0] {
        a[0] < b[0]
    } else {
        lex_lt(a.drop_first(), b.drop_first())
    }
}

/// No sequence comes before itself.
pub proof fn lemma_lex_lt_irreflexive(a: Seq<char>)
    ensures
        !lex_lt(a, a),
    decreases a.len(),
{
    if a.len() > 0 {
        lemma_lex_lt_irreflexive(a.drop_first());
    }
}

/// Lexicographic order is transitive.
pub proof fn lemma_lex_lt_transitive(a: Seq<char>, b: Seq<char>, c: Seq<char>)
    requires
        lex_lt(a, b),
        lex_lt(b, c),
    ensures
        lex_lt(a, c),
    decreases a.len(),
{
    if a.len() > 0 && b.len() > 0 && c.len() > 0 && a[0] == b[0] && b[0] == c[0] {
        lemma_lex_lt_transitive(a.drop_first(), b.drop_first(), c.drop_first());
    }
}

/// Whether `a` comes strictly before `b` in lexicographic order.
pub fn lex_less(a: &Vec<char>, b: &Vec<char>) -> (r: bool)
    ensures
        r == lex_lt(a@, b@),
{
    let mut i: usize = 0;
    assert(a@.skip(0) == a@ && b@.skip(0) == b@);
    loop
        invariant
            i <= a.len(),
            i <= b.len(),
            lex_lt(a@, b@) == lex_lt(a@.skip(i as int), b@.skip(i as int)),
        decreases a.len() - i,
    {
        if i == b.len() {
            return false;
        }
        if i == a.len() {
            return true;
        }
        assert(a@.skip(i as int)[0] == a@[i as int] && b@.skip(i as int)[0] == b@[i as int]);
        if a[i] != b[i] {
            return a[i] < b[i];
        }
        assert(a@.skip(i as int).drop_first() == a@.skip(i + 1));
        assert(b@.skip(i as int).drop_first() == b@.skip(i + 1));
        i = i + 1;
    }
}

// ── Numbers ──

/// The value of a string of decimal digits.
pub open spec fn digits_value(s: Seq<char>) -> nat
    decreases s.len(),
{
    if s.len() == 0 {
        0
    } else {
        digits_value(s.drop_last()) * 10 + (s.last() as nat - '0' as nat) as nat
    }
}

/// The character of a decimal digit `d < 10`.
pub open spec fn digit_char(d: nat) -> char {
    ((48 + d) as u32) as char
}

/// The decimal notation of `n` (as `format!("{}", n)` prints it).
pub open spec fn decimal(n: nat) -> Seq<char>
    decreases n,
{
    if n < 10 {
        seq![digit_char(n)]
    } else {
        decimal(n / 10).push(digit_char(n % 10))
    }
}

/// The character of a decimal digit.
fn digit_char_exec(d: usize) -> (c: char)
    requires
        d < 10,
    ensures
        c == digit_char(d as nat),
{
    if d == 0 {
        '0'
    } else if d == 1 {
        '1'
    } else if d == 2 {
        '2'
    } else if d == 3 {
        '3'
    } else if d == 4 {
        '4'
    } else if d == 5 {
        '5'
    } else if d == 6 {
        '6'
    } else if d == 7 {
        '7'
    } else if d == 8 {
        '8'
    } else {
        '9'
    }
}

/// The decimal notation of `n`.
pub fn decimal_chars(n: usize) -> (r: Vec<char>)
    ensures
        r@ == decimal(n as nat),
    decreases n,
{
    if n < 10 {
        vec![digit_char_exec(n)]
    } else {
        let mut r = decimal_chars(n / 10);
        r.push(digit_char_exec(n % 10));
        r
    }
}


/// `n` hundredths written with two decimals: `n / 100`, a point, then the
/// tens and units digits of `n` (95 gives `0.95`).
pub open spec fn fixed2(n: nat) -> Seq<char> {
    decimal(n / 100).push('.').push(digit_char((n / 10) % 10)).push(digit_char(n % 10))
}

/// `n` hundredths written with two decimals.
pub fn fixed2_chars(n: u32) -> (r: Vec<char>)
    ensures
        r@ == fixed2(n as nat),
{
    let m: usize = n as usize;
    let mut r = decimal_chars(m / 100);
    r.push('.');
    r.push(digit_char_exec((m / 10) % 10));
    r.push(digit_char_exec(m % 10));
    r
}

} // verus!
