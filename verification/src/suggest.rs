//! Suggestions for statements that do not ground well: the similarity of two
//! strings, close matches among the plan's tasks, and the directives that tell
//! the LLM what to fix.
use vstd::prelude::*;
use vstd::math::min;

use crate::grounders::rule::bytes_of;
use crate::order::{
    insert_sorted, lemma_insert_sorted, lemma_sort_by, lemma_sort_by_contains, sort_by, strict_order,
};
use crate::check::{Statement, StatementView};
use crate::text::{
    chars_of, contains, contains_chars, decimal, decimal_chars, fixed2, fixed2_chars, join,
    join_chars, lowercase, push_chars, to_lowercase,
};
use crate::types::{
    sim_lt, strings_view, AtomView, CloseMatch, CloseMatchView, ConstantDef, ConstantView,
    Directive, DirectiveView, GroundedAtom, GroundingResult, GroundingStatus, GroundingView,
    Signature, SignatureView, Similarity,
};

verus! {

// ── Similarity of two strings ──

/// The adjacent byte pairs of `b`, in order.
pub open spec fn bigrams(b: Seq<u8>) -> Seq<(u8, u8)> {
    if b.len() < 2 {
        seq![]
    } else {
        Seq::new((b.len() - 1) as nat, |i: int| (b[i], b[i + 1]))
    }
}

/// The index of the first `x` in `s` (`s.len()` when there is none).
pub open spec fn first_index(s: Seq<(u8, u8)>, x: (u8, u8)) -> int
    decreases s.len(),
{
    if s.len() == 0 || s[0] == x {
        0
    } else {
        1 + first_index(s.drop_first(), x)
    }
}

/// The size of the multiset intersection of `xs` and `ys`: each element of
/// `xs` in turn is matched with an equal element of `ys` not matched before,
/// so that a bigram shared by both counts as often as it occurs in the one
/// where it is rarer.
pub open spec fn shared_count(xs: Seq<(u8, u8)>, ys: Seq<(u8, u8)>) -> nat
    decreases xs.len(),
{
    if xs.len() == 0 {
        0
    } else if ys.contains(xs[0]) {
        1 + shared_count(xs.drop_first(), ys.remove(first_index(ys, xs[0])))
    } else {
        shared_count(xs.drop_first(), ys)
    }
}

/// `first_index` finds the first occurrence.
proof fn lemma_first_index(s: Seq<(u8, u8)>, x: (u8, u8), j: int)
    requires
        0 <= j < s.len(),
        s[j] == x,
        forall|k: int| 0 <= k < j ==> s[k] != x,
    ensures
        first_index(s, x) == j,
    decreases j,
{
    if j > 0 {
        assert(s[0] != x);
        let t = s.drop_first();
        assert forall|k: int| 0 <= k < j - 1 implies t[k] != x by {
            assert(t[k] == s[k + 1]);
        }
        lemma_first_index(t, x, j - 1);
    }
}

/// The similarity 0.
pub open spec fn no_similarity() -> Similarity {
    Similarity { shared: 0, total: 0 }
}

/// The Dice coefficient on byte bigrams, `2 * shared / total`: `shared` counts
/// the bigrams of `a` that occur among those of `b`, `total` is the number of
/// bigrams of both; 0 when either has no bigram.
pub open spec fn dice(a: Seq<u8>, b: Seq<u8>) -> Similarity {
    let xs = bigrams(a);
    let ys = bigrams(b);
    if xs.len() == 0 || ys.len() == 0 {
        no_similarity()
    } else {
        Similarity { shared: shared_count(xs, ys) as usize, total: (xs.len() + ys.len()) as usize }
    }
}

/// The bigrams of a byte string of at least two bytes.
fn bigrams_of(b: &[u8]) -> (r: Vec<(u8, u8)>)
    ensures
        r@ == bigrams(b@),
{
    let mut r: Vec<(u8, u8)> = Vec::new();
    if b.len() < 2 {
        assert(r@ =~= bigrams(b@));
        return r;
    }
    let mut i: usize = 0;
    while i + 1 < b.len()
        invariant
            b.len() >= 2,
            i + 1 <= b.len(),
            r@ =~= bigrams(b@).take(i as int),
        decreases b.len() - i,
    {
        r.push((b[i], b[i + 1]));
        i = i + 1;
    }
    assert(bigrams(b@).take(i as int) =~= bigrams(b@));
    r
}

/// The index of the first `x` in `s`, if any.
fn find_pair(s: &Vec<(u8, u8)>, x: (u8, u8)) -> (r: Option<usize>)
    ensures
        match r {
            Some(j) => s@.contains(x) && j == first_index(s@, x) && j < s.len(),
            None => !s@.contains(x),
        },
{
    let mut j: usize = 0;
    while j < s.len()
        invariant
            j <= s.len(),
            forall|k: int| 0 <= k < j ==> s@[k] != x,
        decreases s.len() - j,
    {
        if s[j].0 == x.0 && s[j].1 == x.1 {
            proof {
                lemma_first_index(s@, x, j as int);
            }
            return Some(j);
        }
        j = j + 1;
    }
    None
}

/// Simple string similarity (Dice coefficient on bigrams).
pub fn strsim(a: &str, b: &str) -> (s: Similarity)
    requires
        bytes_of(a@).len() + bytes_of(b@).len() <= usize::MAX,
    ensures
        s == dice(bytes_of(a@), bytes_of(b@)),
{
    let x = a.as_bytes();
    let y = b.as_bytes();
    assert(x@ == bytes_of(a@));
    assert(y@ == bytes_of(b@));
    if x.len() < 2 || y.len() < 2 {
        return Similarity { shared: 0, total: 0 };
    }
    let xs = bigrams_of(x);
    let mut rest = bigrams_of(y);
    let ghost ys = rest@;
    let mut shared: usize = 0;
    let mut i: usize = 0;
    assert(xs@.skip(0) =~= xs@);
    while i < xs.len()
        invariant
            xs@ == bigrams(x@),
            ys == bigrams(y@),
            i <= xs.len(),
            shared <= i,
            shared_count(xs@, ys) == shared + shared_count(xs@.skip(i as int), rest@),
        decreases xs.len() - i,
    {
        let ghost tail = xs@.skip(i as int);
        assert(tail[0] == xs@[i as int]);
        assert(tail.drop_first() =~= xs@.skip(i + 1));
        match find_pair(&rest, xs[i]) {
            Some(j) => {
                rest.remove(j);
                shared = shared + 1;
            },
            None => {},
        }
        i = i + 1;
    }
    assert(xs@.skip(i as int) =~= Seq::<(u8, u8)>::empty());
    Similarity { shared, total: (x.len() - 1) + (y.len() - 1) }
}

/// Whether `a` is a smaller similarity than `b`.
fn sim_less(a: Similarity, b: Similarity) -> (r: bool)
    ensures
        r == sim_lt(a, b),
{
    if b.total == 0 {
        false
    } else if a.total == 0 {
        b.shared > 0
    } else {
        let x: u128 = a.shared as u128;
        let y: u128 = b.total as u128;
        let z: u128 = b.shared as u128;
        let w: u128 = a.total as u128;
        assert(x * y <= u128::MAX && z * w <= u128::MAX) by (nonlinear_arith)
            requires
                x <= 0xffff_ffff_ffff_ffffu128,
                y <= 0xffff_ffff_ffff_ffffu128,
                z <= 0xffff_ffff_ffff_ffffu128,
                w <= 0xffff_ffff_ffff_ffffu128,
        ;
        x * y < z * w
    }
}

// ── Close matches ──

/// `a` and `b` compared by `dice` on their UTF-8 bytes, where their byte
/// lengths together fit in `usize` (as those of any two strings in memory do);
/// the similarity 0 otherwise.
pub open spec fn score(a: Seq<char>, b: Seq<char>) -> Similarity {
    if bytes_of(a).len() + bytes_of(b).len() <= usize::MAX {
        dice(bytes_of(a), bytes_of(b))
    } else {
        no_similarity()
    }
}

/// A similarity above 0.4: `2 * shared / total > 2 / 5`.
pub open spec fn above_threshold(s: Similarity) -> bool {
    s.total > 0 && 5 * s.shared > s.total
}

/// The alias with the greatest score against `lower`, with that score; of
/// equal scores the last wins.
pub open spec fn best_alias(lower: Seq<char>, aliases: Seq<Seq<char>>) -> Option<
    (Seq<char>, Similarity),
>
    decreases aliases.len(),
{
    if aliases.len() == 0 {
        None
    } else {
        let s = score(lower, aliases.last());
        match best_alias(lower, aliases.drop_last()) {
            None => Some((aliases.last(), s)),
            Some(best) => if sim_lt(s, best.1) {
                Some(best)
            } else {
                Some((aliases.last(), s))
            },
        }
    }
}

/// The close match that a constant offers for the lowercased text: its best
/// alias when that scores strictly above the lowercased name, else the name;
/// none unless the score is above 0.4.
pub open spec fn close_match_of(lower: Seq<char>, c: ConstantView) -> Option<CloseMatchView> {
    let name_score = score(lower, lowercase(c.name));
    let chosen = match best_alias(lower, c.aliases) {
        Some(best) => if sim_lt(name_score, best.1) {
            best
        } else {
            (c.name, name_score)
        },
        None => (c.name, name_score),
    };
    if above_threshold(chosen.1) {
        Some(CloseMatchView { constant: c.name, alias: chosen.0, similarity: chosen.1 })
    } else {
        None
    }
}

/// The close matches of the constants, in their order.
pub open spec fn close_candidates(lower: Seq<char>, cs: Seq<ConstantView>) -> Seq<CloseMatchView>
    decreases cs.len(),
{
    if cs.len() == 0 {
        seq![]
    } else {
        let rest = close_candidates(lower, cs.drop_last());
        match close_match_of(lower, cs.last()) {
            Some(m) => rest.push(m),
            None => rest,
        }
    }
}

/// Orders close matches by descending similarity.
pub open spec fn by_similarity() -> spec_fn(CloseMatchView, CloseMatchView) -> bool {
    |a: CloseMatchView, b: CloseMatchView| sim_lt(b.similarity, a.similarity)
}

/// At most the first five of `s`.
pub open spec fn first_five<A>(s: Seq<A>) -> Seq<A> {
    if s.len() > 5 {
        s.take(5)
    } else {
        s
    }
}

/// The close matches for `text`: the constants' matches stably sorted by
/// descending similarity, at most five.
pub open spec fn close_matches(text: Seq<char>, sig: SignatureView) -> Seq<CloseMatchView> {
    first_five(sort_by(close_candidates(lowercase(text), sig.constants), by_similarity()))
}

/// `score`, computed.
fn score_of(a: &str, b: &str) -> (s: Similarity)
    ensures
        s == score(a@, b@),
{
    let la = a.as_bytes().len();
    let lb = b.as_bytes().len();
    if la <= usize::MAX - lb {
        strsim(a, b)
    } else {
        Similarity { shared: 0, total: 0 }
    }
}

/// Whether a similarity is above 0.4.
fn is_above_threshold(s: Similarity) -> (b: bool)
    ensures
        b == above_threshold(s),
{
    if s.total == 0 {
        return false;
    }
    let q = s.total / 5;
    assert((5 * s.shared > s.total) == (s.shared > q)) by (nonlinear_arith)
        requires
            q == s.total / 5,
    ;
    s.shared > q
}

/// The index of the best alias of `aliases` against `lower`, with its score.
fn best_alias_index(lower: &str, aliases: &Vec<String>) -> (r: Option<(usize, Similarity)>)
    ensures
        match r {
            None => best_alias(lower@, strings_view(aliases@)) is None,
            Some(b) => b.0 < aliases.len() && best_alias(lower@, strings_view(aliases@)) == Some(
                (aliases@[b.0 as int]@, b.1),
            ),
        },
{
    let ghost av = strings_view(aliases@);
    let mut best: Option<(usize, Similarity)> = None;
    for i in 0..aliases.len()
        invariant
            av == strings_view(aliases@),
            match best {
                None => best_alias(lower@, av.take(i as int)) is None,
                Some(b) => b.0 < i && best_alias(lower@, av.take(i as int)) == Some(
                    (av[b.0 as int], b.1),
                ),
            },
    {
        assert(av.take(i + 1).drop_last() == av.take(i as int));
        assert(av.take(i + 1).last() == aliases@[i as int]@);
        let s = score_of(lower, aliases[i].as_str());
        best = match best {
            None => Some((i, s)),
            Some(b) => if sim_less(s, b.1) {
                Some(b)
            } else {
                Some((i, s))
            },
        };
    }
    assert(av.take(aliases.len() as int) == av);
    best
}

/// The close match that constant `c` offers for the lowercased text.
fn close_match(lower: &str, c: &ConstantDef) -> (r: Option<CloseMatch>)
    ensures
        match r {
            Some(m) => close_match_of(lower@, c@) == Some(m@),
            None => close_match_of(lower@, c@) is None,
        },
{
    let name_lower = to_lowercase(c.name.as_str());
    let name_score = score_of(lower, name_lower.as_str());
    let (alias, s) = match best_alias_index(lower, &c.aliases) {
        Some(b) => if sim_less(name_score, b.1) {
            (crate::text::copy_string(&c.aliases[b.0]), b.1)
        } else {
            (crate::text::copy_string(&c.name), name_score)
        },
        None => (crate::text::copy_string(&c.name), name_score),
    };
    if is_above_threshold(s) {
        Some(CloseMatch { constant: crate::text::copy_string(&c.name), alias, similarity: s })
    } else {
        None
    }
}

/// Inserts a close match into a list sorted by descending similarity, after
/// all matches at least as similar.
fn insert_by_similarity(sorted: &mut Vec<CloseMatch>, x: CloseMatch)
    ensures
        final(sorted)@.map_values(|m: CloseMatch| m@) == insert_sorted(
            old(sorted)@.map_values(|m: CloseMatch| m@),
            x@,
            by_similarity(),
        ),
{
    let ghost sv = sorted@.map_values(|m: CloseMatch| m@);
    let mut j: usize = 0;
    while j < sorted.len() && !sim_less(sorted[j].similarity, x.similarity)
        invariant
            j <= sorted.len(),
            sv == sorted@.map_values(|m: CloseMatch| m@),
            forall|i: int| 0 <= i < j ==> !(by_similarity())(x@, #[trigger] sv[i]),
        decreases sorted.len() - j,
    {
        j = j + 1;
    }
    proof {
        lemma_insert_sorted(sv, x@, by_similarity(), j as int);
    }
    let ghost xv = x@;
    sorted.insert(j, x);
    assert(sorted@.map_values(|m: CloseMatch| m@) =~= sv.insert(j as int, xv));
}

/// Find close matches for ungroundable text by comparing against constant
/// names and aliases.
pub fn find_close_matches(text: &str, sig: &Signature) -> (r: Vec<CloseMatch>)
    ensures
        r@.map_values(|m: CloseMatch| m@) == close_matches(text@, sig@),
{
    let lower = to_lowercase(text);
    let ghost cs = sig@.constants;
    let mut sorted: Vec<CloseMatch> = Vec::new();
    for i in 0..sig.constants.len()
        invariant
            lower@ == lowercase(text@),
            cs == sig@.constants,
            sorted@.map_values(|m: CloseMatch| m@) == sort_by(
                close_candidates(lower@, cs.take(i as int)),
                by_similarity(),
            ),
    {
        assert(cs.take(i + 1).drop_last() == cs.take(i as int));
        assert(cs.take(i + 1).last() == sig.constants@[i as int]@);
        let ghost before = close_candidates(lower@, cs.take(i as int));
        match close_match(lower.as_str(), &sig.constants[i]) {
            Some(m) => {
                assert(before.push(m@).drop_last() == before);
                insert_by_similarity(&mut sorted, m);
            },
            None => {},
        }
    }
    assert(cs.take(sig.constants.len() as int) == cs);
    sorted.truncate(5);
    let ghost all = sort_by(close_candidates(lower@, cs), by_similarity());
    assert(sorted@.map_values(|m: CloseMatch| m@) =~= first_five(all));
    sorted
}

// ── Directives ──

/// The first of `ws`, or `d` when there is none.
pub open spec fn first_or(ws: Seq<Seq<char>>, d: Seq<char>) -> Seq<char> {
    if ws.len() > 0 {
        ws[0]
    } else {
        d
    }
}

/// The warning for a `BEFORE` candidate with fewer than two arguments, if the
/// best candidate is one.
pub open spec fn before_directives(best: AtomView, source: Seq<char>) -> Seq<DirectiveView> {
    if best.predicate == "BEFORE"@ && best.arguments.len() < 2 {
        seq![
            DirectiveView {
                severity: "warning"@,
                element: source,
                detail: "BEFORE requires two task IDs, but only '"@ + first_or(best.arguments, "?"@)
                    + "' was found."@,
                suggested_action: "Add a second task ID after 'BEFORE'. Example: 'T2.1 SHALL complete BEFORE T3.1 SHALL run'."@,
                close_matches: None,
            },
        ]
    } else {
        seq![]
    }
}

/// The first constant named `name`.
pub open spec fn constant_named(cs: Seq<ConstantView>, name: Seq<char>) -> Option<ConstantView>
    decreases cs.len(),
{
    if cs.len() == 0 {
        None
    } else if cs[0].name == name {
        Some(cs[0])
    } else {
        constant_named(cs.drop_first(), name)
    }
}

/// The warning for argument `n` (counted from 1) of the best candidate, which
/// the text does not name and which was matched through an alias of a constant.
pub open spec fn alias_directive(
    best: AtomView,
    n: nat,
    c: ConstantView,
    source: Seq<char>,
) -> DirectiveView {
    let arg = best.arguments[n - 1];
    DirectiveView {
        severity: "warning"@,
        element: source,
        detail: "Argument "@ + decimal(n) + " matched '"@ + arg + "' via alias '"@ + first_or(
            c.aliases,
            seq![],
        ) + "' (confidence: "@ + fixed2(best.confidence) + "). Add explicit '"@ + arg
            + "' to raise confidence."@,
        suggested_action: "Replace the NL reference with '"@ + arg + "' or add '("@ + arg
            + ")' after it."@,
        close_matches: None,
    }
}

/// The alias warnings for the first `n` arguments of the best candidate: one
/// for each argument that the text does not contain and that names a constant.
pub open spec fn alias_directives(
    best: AtomView,
    text: Seq<char>,
    source: Seq<char>,
    cs: Seq<ConstantView>,
    n: int,
) -> Seq<DirectiveView>
    decreases n,
{
    if n <= 0 || n > best.arguments.len() {
        seq![]
    } else {
        let rest = alias_directives(best, text, source, cs, n - 1);
        let arg = best.arguments[n - 1];
        if contains(text, arg) {
            rest
        } else {
            match constant_named(cs, arg) {
                None => rest,
                Some(c) => rest.push(alias_directive(best, n as nat, c, source)),
            }
        }
    }
}

/// The warning for a low-confidence grounding that no other warning explains.
pub open spec fn low_confidence_directive(best: AtomView, source: Seq<char>) -> DirectiveView {
    DirectiveView {
        severity: "warning"@,
        element: source,
        detail: "Grounded with low confidence ("@ + fixed2(best.confidence)
            + "). Consider using explicit task IDs."@,
        suggested_action: "Add explicit task ID references (e.g., 'T2.1') to the requirement statement."@,
        close_matches: None,
    }
}

/// A close match as the suggestion lists it: `'T2.1' (alias: 'migration')`.
pub open spec fn match_label(m: CloseMatchView) -> Seq<char> {
    "'"@ + m.constant + "' (alias: '"@ + m.alias + "')"@
}

/// The labels of the close matches.
pub open spec fn match_labels(ms: Seq<CloseMatchView>) -> Seq<Seq<char>> {
    ms.map_values(|m: CloseMatchView| match_label(m))
}

/// The blocker for a statement that could not be grounded, with its close
/// matches.
pub open spec fn blocker_directive(
    text: Seq<char>,
    source: Seq<char>,
    ms: Seq<CloseMatchView>,
) -> DirectiveView {
    DirectiveView {
        severity: "blocker"@,
        element: source,
        detail: "Could not ground: '"@ + text + "'. No matching task or predicate found."@,
        suggested_action: if ms.len() == 0 {
            "Add a task ID reference (e.g., 'T5.1') or a known predicate keyword (BEFORE, AFTER, CONCURRENTLY, IF...THEN, ALWAYS, AT MOST ONE)."@
        } else {
            "Close matches: "@ + join(match_labels(ms), ", "@)
                + ". Use one of these task IDs explicitly in the requirement."@
        },
        close_matches: Some(ms),
    }
}

/// The directives for a grounding result: none when grounded; for an
/// ambiguous result, the warnings about its best candidate (or the
/// low-confidence warning when there is none); for an ungroundable one, a
/// blocker with the close matches of the statement's text.
pub open spec fn directives_of(r: GroundingView, stmt: StatementView, sig: SignatureView) -> Seq<
    DirectiveView,
> {
    match r.status {
        GroundingStatus::Grounded => seq![],
        GroundingStatus::Ambiguous => {
            let best = r.candidates[0];
            let d = before_directives(best, stmt.source) + alias_directives(
                best,
                stmt.text,
                stmt.source,
                sig.constants,
                best.arguments.len() as int,
            );
            if d.len() == 0 {
                seq![low_confidence_directive(best, stmt.source)]
            } else {
                d
            }
        },
        GroundingStatus::Ungroundable => seq![
            blocker_directive(stmt.text, stmt.source, close_matches(stmt.text, sig)),
        ],
    }
}

/// The index of the first constant named `name`.
fn constant_index(cs: &Vec<ConstantDef>, name: &String) -> (r: Option<usize>)
    ensures
        match r {
            Some(j) => j < cs.len() && constant_named(cs@.map_values(|c: ConstantDef| c@), name@)
                == Some(cs@[j as int]@),
            None => constant_named(cs@.map_values(|c: ConstantDef| c@), name@) is None,
        },
{
    let ghost cv = cs@.map_values(|c: ConstantDef| c@);
    assert(cv.skip(0) == cv);
    let mut j: usize = 0;
    while j < cs.len()
        invariant
            j <= cs.len(),
            cv == cs@.map_values(|c: ConstantDef| c@),
            constant_named(cv, name@) == constant_named(cv.skip(j as int), name@),
        decreases cs.len() - j,
    {
        assert(cv.skip(j as int)[0] == cs@[j as int]@);
        if cs[j].name == *name {
            return Some(j);
        }
        assert(cv.skip(j as int).drop_first() == cv.skip(j + 1));
        j = j + 1;
    }
    None
}

/// A warning directive with no close matches.
fn warning(element: &String, detail: String, suggested_action: String) -> (d: Directive)
    ensures
        d@ == (DirectiveView {
            severity: "warning"@,
            element: element@,
            detail: detail@,
            suggested_action: suggested_action@,
            close_matches: None,
        }),
{
    Directive {
        severity: String::from_str("warning"),
        element: crate::text::copy_string(element),
        detail,
        suggested_action,
        close_matches: None,
    }
}

/// The alias warning for argument `i + 1` of `best`.
fn alias_warning(best: &GroundedAtom, i: usize, c: &ConstantDef, source: &String) -> (d: Directive)
    requires
        i < best.arguments.len(),
    ensures
        d@ == alias_directive(best@, (i + 1) as nat, c@, source@),
{
    let arg = best.arguments[i].as_str();
    let mut detail = String::from_str("Argument ");
    push_chars(&mut detail, &decimal_chars(i + 1));
    detail.append(" matched '");
    detail.append(arg);
    detail.append("' via alias '");
    if c.aliases.len() > 0 {
        detail.append(c.aliases[0].as_str());
    }
    detail.append("' (confidence: ");
    push_chars(&mut detail, &fixed2_chars(best.confidence));
    detail.append("). Add explicit '");
    detail.append(arg);
    detail.append("' to raise confidence.");
    let mut action = String::from_str("Replace the NL reference with '");
    action.append(arg);
    action.append("' or add '(");
    action.append(arg);
    action.append(")' after it.");
    proof {
        let a = best@.arguments[i as int];
        assert(c.aliases.len() == 0 ==> first_or(c@.aliases, seq![]) =~= seq![]);
        assert(detail@ =~= "Argument "@ + decimal((i + 1) as nat) + " matched '"@ + a
            + "' via alias '"@ + first_or(c@.aliases, seq![]) + "' (confidence: "@ + fixed2(
            best@.confidence,
        ) + "). Add explicit '"@ + a + "' to raise confidence."@);
    }
    warning(source, detail, action)
}

/// Generate the directives that tell the LLM how to fix a statement, from its
/// grounding result.
pub fn generate_directives(result: &GroundingResult, stmt: &Statement, sig: &Signature) -> (r: Vec<
    Directive,
>)
    requires
        result.status == GroundingStatus::Ambiguous ==> result.candidates.len() > 0,
    ensures
        r@.map_values(|d: Directive| d@) == directives_of(result@, stmt@, sig@),
{
    match result.status {
        GroundingStatus::Grounded => Vec::new(),
        GroundingStatus::Ambiguous => {
            let best = &result.candidates[0];
            assert(result@.candidates[0] == best@);
            let mut dirs: Vec<Directive> = Vec::new();
            let is_before = crate::text::chars_equal(
                &chars_of(best.predicate.as_str()),
                &chars_of("BEFORE"),
            );
            if is_before && best.arguments.len() < 2 {
                let mut detail = String::from_str("BEFORE requires two task IDs, but only '");
                if best.arguments.len() > 0 {
                    detail.append(best.arguments[0].as_str());
                } else {
                    detail.append("?");
                }
                detail.append("' was found.");
                let action = String::from_str(
                    "Add a second task ID after 'BEFORE'. Example: 'T2.1 SHALL complete BEFORE T3.1 SHALL run'.",
                );
                assert(detail@ =~= "BEFORE requires two task IDs, but only '"@ + first_or(
                    best@.arguments,
                    "?"@,
                ) + "' was found."@);
                dirs.push(warning(&stmt.source, detail, action));
            }
            let ghost lead = dirs@.map_values(|d: Directive| d@);
            assert(lead =~= before_directives(best@, stmt@.source));
            let text = chars_of(stmt.text.as_str());
            for i in 0..best.arguments.len()
                invariant
                    text@ == stmt.text@,
                    dirs@.map_values(|d: Directive| d@) == lead + alias_directives(
                        best@,
                        stmt@.text,
                        stmt@.source,
                        sig@.constants,
                        i as int,
                    ),
            {
                let arg = chars_of(best.arguments[i].as_str());
                if !contains_chars(&text, &arg) {
                    match constant_index(&sig.constants, &best.arguments[i]) {
                        Some(j) => {
                            let ghost before = dirs@.map_values(|d: Directive| d@);
                            let d = alias_warning(best, i, &sig.constants[j], &stmt.source);
                            dirs.push(d);
                            assert(dirs@.map_values(|d: Directive| d@) =~= before.push(d@));
                        },
                        None => {},
                    }
                }
            }
            if dirs.len() == 0 {
                let mut detail = String::from_str("Grounded with low confidence (");
                push_chars(&mut detail, &fixed2_chars(best.confidence));
                detail.append("). Consider using explicit task IDs.");
                let action = String::from_str(
                    "Add explicit task ID references (e.g., 'T2.1') to the requirement statement.",
                );
                dirs.push(warning(&stmt.source, detail, action));
            }
            dirs
        },
        GroundingStatus::Ungroundable => {
            let ms = find_close_matches(stmt.text.as_str(), sig);
            let ghost mv = ms@.map_values(|m: CloseMatch| m@);
            let mut labels: Vec<Vec<char>> = Vec::new();
            for k in 0..ms.len()
                invariant
                    mv == ms@.map_values(|m: CloseMatch| m@),
                    labels@.map_values(|w: Vec<char>| w@) == match_labels(mv.take(k as int)),
            {
                let mut l: Vec<char> = vec!['\''];
                crate::text::append_chars(&mut l, &chars_of(ms[k].constant.as_str()));
                crate::text::append_chars(&mut l, &chars_of("' (alias: '"));
                crate::text::append_chars(&mut l, &chars_of(ms[k].alias.as_str()));
                crate::text::append_chars(&mut l, &chars_of("')"));
                let ghost before = labels@.map_values(|w: Vec<char>| w@);
                proof {
                    reveal_strlit("'");
                    assert(l@ =~= match_label(mv[k as int]));
                }
                labels.push(l);
                assert(labels@.map_values(|w: Vec<char>| w@) =~= before.push(match_label(mv[k as int])));
                assert(match_labels(mv.take(k + 1)) =~= match_labels(mv.take(k as int)).push(
                    match_label(mv[k as int]),
                ));
            }
            assert(mv.take(ms.len() as int) == mv);
            assert(labels@.map_values(|w: Vec<char>| w@).take(labels.len() as int) == labels@.map_values(|w: Vec<char>| w@));
            let action = if ms.len() == 0 {
                String::from_str(
                    "Add a task ID reference (e.g., 'T5.1') or a known predicate keyword (BEFORE, AFTER, CONCURRENTLY, IF...THEN, ALWAYS, AT MOST ONE).",
                )
            } else {
                let mut a = String::from_str("Close matches: ");
                push_chars(&mut a, &join_chars(&labels, labels.len(), ", "));
                a.append(". Use one of these task IDs explicitly in the requirement.");
                a
            };
            let mut detail = String::from_str("Could not ground: '");
            detail.append(stmt.text.as_str());
            detail.append("'. No matching task or predicate found.");
            let d = Directive {
                severity: String::from_str("blocker"),
                element: crate::text::copy_string(&stmt.source),
                detail,
                suggested_action: action,
                close_matches: Some(ms),
            };
            let mut dirs: Vec<Directive> = Vec::new();
            dirs.push(d);
            dirs
        },
    }
}

// ── Laws of similarity, close matches and directives ──

/// A sequence shares all its elements with itself.
proof fn lemma_shared_count_self(xs: Seq<(u8, u8)>)
    ensures
        shared_count(xs, xs) == xs.len(),
    decreases xs.len(),
{
    if xs.len() > 0 {
        assert(xs.contains(xs[0]));
        lemma_first_index(xs, xs[0], 0);
        assert(xs.remove(0) =~= xs.drop_first());
        lemma_shared_count_self(xs.drop_first());
    }
}

/// No more elements are shared than either sequence has.
proof fn lemma_shared_count_bound(xs: Seq<(u8, u8)>, ys: Seq<(u8, u8)>)
    ensures
        shared_count(xs, ys) <= xs.len(),
        shared_count(xs, ys) <= ys.len(),
    decreases xs.len(),
{
    if xs.len() > 0 {
        if ys.contains(xs[0]) {
            let j = choose|j: int| 0 <= j < ys.len() && ys[j] == xs[0];
            let k = first_index(ys, xs[0]);
            assert(0 <= k <= j) by {
                lemma_first_index_bound(ys, xs[0], j);
            }
            lemma_shared_count_bound(xs.drop_first(), ys.remove(k));
        } else {
            lemma_shared_count_bound(xs.drop_first(), ys);
        }
    }
}

/// The first occurrence comes no later than any occurrence.
proof fn lemma_first_index_bound(s: Seq<(u8, u8)>, x: (u8, u8), j: int)
    requires
        0 <= j < s.len(),
        s[j] == x,
    ensures
        0 <= first_index(s, x) <= j,
    decreases j,
{
    if j > 0 && s[0] != x {
        assert(s.drop_first()[j - 1] == x);
        lemma_first_index_bound(s.drop_first(), x, j - 1);
    }
}

/// The laws of the similarity: it lies between 0 and 1 (`2 * shared <=
/// total`); a string of at least two bytes has similarity exactly 1 to itself
/// (`2 * shared == total > 0`); one of fewer than two bytes has similarity 0
/// to every string.
pub proof fn lemma_dice(a: Seq<u8>, b: Seq<u8>)
    ensures
        a.len() + b.len() <= usize::MAX + 2 ==> 2 * dice(a, b).shared <= dice(a, b).total,
        a.len() >= 2 && a.len() + a.len() <= usize::MAX + 2 ==> dice(a, a).total > 0 && dice(
            a,
            a,
        ).total == 2 * dice(a, a).shared,
        a.len() < 2 ==> dice(a, b) == no_similarity() && dice(b, a) == no_similarity(),
{
    lemma_shared_count_bound(bigrams(a), bigrams(b));
    if a.len() >= 2 {
        lemma_shared_count_self(bigrams(a));
    }
}

/// Where `x` occurs, `first_index` points at an `x`.
proof fn lemma_first_index_found(s: Seq<(u8, u8)>, x: (u8, u8))
    requires
        s.contains(x),
    ensures
        0 <= first_index(s, x) < s.len(),
        s[first_index(s, x)] == x,
{
    let j = choose|j: int| 0 <= j < s.len() && s[j] == x;
    lemma_first_index_bound(s, x, j);
    lemma_first_index_found_upto(s, x, j);
}

/// Induction for `lemma_first_index_found`.
proof fn lemma_first_index_found_upto(s: Seq<(u8, u8)>, x: (u8, u8), j: int)
    requires
        0 <= j < s.len(),
        s[j] == x,
    ensures
        s[first_index(s, x)] == x,
    decreases j,
{
    if j > 0 && s[0] != x {
        let t = s.drop_first();
        assert(t[j - 1] == x);
        lemma_first_index_found_upto(t, x, j - 1);
        lemma_first_index_bound(t, x, j - 1);
    }
}

/// The shared count is the size of the intersection of the bigram multisets.
proof fn lemma_shared_count_multiset(xs: Seq<(u8, u8)>, ys: Seq<(u8, u8)>)
    ensures
        shared_count(xs, ys) == xs.to_multiset().intersection_with(ys.to_multiset()).len(),
    decreases xs.len(),
{
    broadcast use vstd::multiset::group_multiset_axioms, vstd::multiset::lemma_intersection_count;

    xs.to_multiset_ensures();
    ys.to_multiset_ensures();
    let a = xs.to_multiset();
    let b = ys.to_multiset();
    if xs.len() == 0 {
        assert(a.intersection_with(b) =~= vstd::multiset::Multiset::empty());
    } else {
        let x = xs[0];
        let t = xs.drop_first();
        assert(xs.remove(0) =~= t);
        let at = t.to_multiset();
        assert(at =~= a.remove(x));
        assert(a.count(x) > 0);
        assert(a =~= at.insert(x));
        if ys.contains(x) {
            lemma_first_index_found(ys, x);
            let k = first_index(ys, x);
            let yr = ys.remove(k);
            let br = yr.to_multiset();
            assert(br =~= b.remove(x));
            lemma_shared_count_multiset(t, yr);
            assert(b.count(x) > 0);
            let lhs = a.intersection_with(b);
            let rhs = at.intersection_with(br);
            assert(lhs =~= rhs.insert(x)) by {
                assert forall|v: (u8, u8)| #[trigger] lhs.count(v) == rhs.insert(x).count(v) by {
                    if v == x {
                        assert(lhs.count(v) == min(a.count(v) as int, b.count(v) as int));
                        assert(rhs.count(v) == min(at.count(v) as int, br.count(v) as int));
                    }
                }
            }
        } else {
            lemma_shared_count_multiset(t, ys);
            assert(b.count(x) == 0);
            let lhs = a.intersection_with(b);
            let rhs = at.intersection_with(b);
            assert(lhs =~= rhs) by {
                assert forall|v: (u8, u8)| #[trigger] lhs.count(v) == rhs.count(v) by {}
            }
        }
    }
}

/// Sharing is symmetric: as many bigrams of `a` occur in `b` as of `b` in `a`,
/// so the Dice similarity of two strings does not depend on their order.
pub proof fn lemma_dice_symmetric(a: Seq<u8>, b: Seq<u8>)
    ensures
        shared_count(bigrams(a), bigrams(b)) == shared_count(bigrams(b), bigrams(a)),
        dice(a, b) == dice(b, a),
{
    broadcast use vstd::multiset::group_multiset_axioms, vstd::multiset::lemma_intersection_count;

    let xs = bigrams(a);
    let ys = bigrams(b);
    lemma_shared_count_multiset(xs, ys);
    lemma_shared_count_multiset(ys, xs);
    let ma = xs.to_multiset();
    let mb = ys.to_multiset();
    assert(ma.intersection_with(mb) =~= mb.intersection_with(ma)) by {
        assert forall|v: (u8, u8)| #[trigger] ma.intersection_with(mb).count(v)
            == mb.intersection_with(ma).count(v) by {}
    }
}

/// Similarities are strictly ordered by `sim_lt`.
pub proof fn lemma_sim_lt_strict()
    ensures
        forall|a: Similarity| !#[trigger] sim_lt(a, a),
        forall|a: Similarity, b: Similarity, c: Similarity|
            #[trigger] sim_lt(a, b) && #[trigger] sim_lt(b, c) ==> sim_lt(a, c),
{
    assert forall|a: Similarity, b: Similarity, c: Similarity|
        #[trigger] sim_lt(a, b) && #[trigger] sim_lt(b, c) implies sim_lt(a, c) by {
        if a.total > 0 {
            let (x, y, z) = (a.shared as int, b.shared as int, c.shared as int);
            let (p, q, r) = (a.total as int, b.total as int, c.total as int);
            assert(x * r < z * p) by (nonlinear_arith)
                requires
                    x * q < y * p,
                    y * r < z * q,
                    p > 0,
                    q > 0,
                    r > 0,
                    x >= 0,
            ;
        } else {
            assert((c.shared as int) * (b.total as int) > 0) by (nonlinear_arith)
                requires
                    (b.shared as int) * (c.total as int) < (c.shared as int) * (b.total as int),
                    b.shared >= 0,
                    c.total > 0,
            ;
            assert(c.shared > 0) by (nonlinear_arith)
                requires
                    (c.shared as int) * (b.total as int) > 0,
                    b.total > 0,
                    c.shared >= 0,
            ;
        }
    }
}

/// The alias chosen for a constant's close match is its name or one of its
/// aliases.
proof fn lemma_best_alias(lower: Seq<char>, aliases: Seq<Seq<char>>)
    ensures
        best_alias(lower, aliases) matches Some(b) ==> aliases.contains(b.0),
    decreases aliases.len(),
{
    if aliases.len() > 0 {
        lemma_best_alias(lower, aliases.drop_last());
        if let Some(b) = best_alias(lower, aliases.drop_last()) {
            let j = choose|j: int| 0 <= j < aliases.drop_last().len() && aliases.drop_last()[j] == b.0;
            assert(aliases[j] == b.0);
        }
        assert(aliases[aliases.len() - 1] == aliases.last());
    }
}

/// A close match offered by some constant of `cs`.
pub open spec fn offered_by(cs: Seq<ConstantView>, m: CloseMatchView) -> bool {
    exists|i: int|
        0 <= i < cs.len() && #[trigger] cs[i].name == m.constant && (m.alias == cs[i].name
            || cs[i].aliases.contains(m.alias))
}

/// Every candidate close match is above 0.4 and offered by a constant.
proof fn lemma_close_candidates(lower: Seq<char>, cs: Seq<ConstantView>)
    ensures
        forall|k: int|
            0 <= k < close_candidates(lower, cs).len() ==> above_threshold(
                (#[trigger] close_candidates(lower, cs)[k]).similarity,
            ) && offered_by(cs, close_candidates(lower, cs)[k]),
    decreases cs.len(),
{
    if cs.len() > 0 {
        let t = cs.drop_last();
        lemma_close_candidates(lower, t);
        let rest = close_candidates(lower, t);
        let c = cs.last();
        lemma_best_alias(lower, c.aliases);
        assert forall|k: int| 0 <= k < close_candidates(lower, cs).len() implies above_threshold(
            (#[trigger] close_candidates(lower, cs)[k]).similarity,
        ) && offered_by(cs, close_candidates(lower, cs)[k]) by {
            let m = close_candidates(lower, cs)[k];
            if k < rest.len() {
                assert(m == rest[k]);
                let i = choose|i: int|
                    0 <= i < t.len() && #[trigger] t[i].name == m.constant && (m.alias == t[i].name
                        || t[i].aliases.contains(m.alias));
                assert(cs[i] == t[i]);
            } else {
                assert(cs[cs.len() - 1] == c);
            }
        }
    }
}

/// The laws of close matches: at most five, each above 0.4 and offered by a
/// constant of the signature (by its name or one of its aliases), sorted by
/// descending similarity.
pub proof fn lemma_close_matches(text: Seq<char>, sig: SignatureView)
    ensures
        close_matches(text, sig).len() <= 5,
        forall|k: int|
            0 <= k < close_matches(text, sig).len() ==> above_threshold(
                (#[trigger] close_matches(text, sig)[k]).similarity,
            ) && offered_by(sig.constants, close_matches(text, sig)[k]),
        forall|i: int, j: int|
            0 <= i < j < close_matches(text, sig).len() ==> !sim_lt(
                (#[trigger] close_matches(text, sig)[i]).similarity,
                (#[trigger] close_matches(text, sig)[j]).similarity,
            ),
{
    let lower = lowercase(text);
    let c = close_candidates(lower, sig.constants);
    lemma_close_candidates(lower, sig.constants);
    lemma_sim_lt_strict();
    assert(strict_order(by_similarity()));
    lemma_sort_by(c, by_similarity());
    let sorted = sort_by(c, by_similarity());
    let r = close_matches(text, sig);
    assert forall|k: int| 0 <= k < r.len() implies above_threshold((#[trigger] r[k]).similarity)
        && offered_by(sig.constants, r[k]) by {
        assert(r[k] == sorted[k]);
        lemma_sort_by_contains(c, by_similarity(), k);
        let q = choose|q: int| 0 <= q < c.len() && c[q] == sorted[k];
        assert(above_threshold(c[q].similarity) && offered_by(sig.constants, c[q]));
    }
    assert forall|i: int, j: int| 0 <= i < j < r.len() implies !sim_lt(
        (#[trigger] r[i]).similarity,
        (#[trigger] r[j]).similarity,
    ) by {
        assert(r[i] == sorted[i] && r[j] == sorted[j]);
        assert(!(by_similarity())(sorted[j], sorted[i]));
    }
}

/// The close match of each constant is among the candidates.
proof fn lemma_close_candidates_contain(lower: Seq<char>, cs: Seq<ConstantView>, i: int)
    requires
        0 <= i < cs.len(),
        close_match_of(lower, cs[i]) is Some,
    ensures
        close_candidates(lower, cs).contains(close_match_of(lower, cs[i])->0),
    decreases cs.len(),
{
    let t = cs.drop_last();
    let x = close_match_of(lower, cs[i])->0;
    if i == cs.len() - 1 {
        assert(close_candidates(lower, cs).last() == x);
        assert(close_candidates(lower, cs)[close_candidates(lower, cs).len() - 1] == x);
    } else {
        assert(t[i] == cs[i]);
        lemma_close_candidates_contain(lower, t, i);
        let r = close_candidates(lower, t);
        let j = choose|j: int| 0 <= j < r.len() && r[j] == x;
        assert(close_candidates(lower, cs)[j] == x);
    }
}

/// No close match is left out for a better one: every constant that offers a
/// close match for the text either has it among the results, or the results
/// are full (five) and the last of them is at least as similar.
pub proof fn lemma_close_matches_complete(text: Seq<char>, sig: SignatureView, i: int)
    requires
        0 <= i < sig.constants.len(),
        close_match_of(lowercase(text), sig.constants[i]) is Some,
    ensures
        ({
            let x = close_match_of(lowercase(text), sig.constants[i])->0;
            let m = close_matches(text, sig);
            m.contains(x) || (m.len() == 5 && !sim_lt(m[4].similarity, x.similarity))
        }),
{
    broadcast use vstd::seq_lib::to_multiset_contains;

    let lower = lowercase(text);
    let c = close_candidates(lower, sig.constants);
    let x = close_match_of(lower, sig.constants[i])->0;
    lemma_close_candidates_contain(lower, sig.constants, i);
    lemma_sim_lt_strict();
    assert(strict_order(by_similarity()));
    lemma_sort_by(c, by_similarity());
    let sorted = sort_by(c, by_similarity());
    assert(c.to_multiset().count(x) > 0);
    assert(sorted.to_multiset().count(x) > 0);
    assert(sorted.contains(x));
    let q = choose|q: int| 0 <= q < sorted.len() && sorted[q] == x;
    let m = close_matches(text, sig);
    if q < 5 {
        assert(m[q] == x);
    } else {
        assert(m.len() == 5);
        assert(m[4] == sorted[4]);
        assert(!(by_similarity())(sorted[q], sorted[4]));
    }
}

/// Every alias directive is a warning without close matches.
proof fn lemma_alias_directives(
    best: AtomView,
    text: Seq<char>,
    source: Seq<char>,
    cs: Seq<ConstantView>,
    n: int,
)
    ensures
        forall|k: int|
            0 <= k < alias_directives(best, text, source, cs, n).len() ==> (#[trigger] alias_directives(
                best,
                text,
                source,
                cs,
                n,
            )[k]).severity == "warning"@ && alias_directives(best, text, source, cs, n)[k].close_matches is None,
    decreases n,
{
    if n > 0 && n <= best.arguments.len() {
        lemma_alias_directives(best, text, source, cs, n - 1);
    }
}

/// The laws of directives: a grounded statement gets none; an ambiguous one
/// gets at least one, all warnings without close matches; an ungroundable one
/// gets exactly one, a blocker that carries the close matches of its text.
pub proof fn lemma_directives(r: GroundingView, stmt: StatementView, sig: SignatureView)
    requires
        r.status == GroundingStatus::Ambiguous ==> r.candidates.len() > 0,
    ensures
        r.status == GroundingStatus::Grounded ==> directives_of(r, stmt, sig).len() == 0,
        r.status == GroundingStatus::Ambiguous ==> directives_of(r, stmt, sig).len() > 0 && forall|
            k: int,
        |
            0 <= k < directives_of(r, stmt, sig).len() ==> (#[trigger] directives_of(
                r,
                stmt,
                sig,
            )[k]).severity == "warning"@ && directives_of(r, stmt, sig)[k].close_matches is None,
        r.status == GroundingStatus::Ungroundable ==> directives_of(r, stmt, sig).len() == 1
            && directives_of(r, stmt, sig)[0].severity == "blocker"@ && directives_of(
            r,
            stmt,
            sig,
        )[0].close_matches == Some(close_matches(stmt.text, sig)),
{
    if r.status == GroundingStatus::Ambiguous {
        let best = r.candidates[0];
        let a = alias_directives(best, stmt.text, stmt.source, sig.constants, best.arguments.len() as int);
        lemma_alias_directives(best, stmt.text, stmt.source, sig.constants, best.arguments.len() as int);
        let d = before_directives(best, stmt.source) + a;
        assert forall|k: int| 0 <= k < d.len() implies (#[trigger] d[k]).severity == "warning"@
            && d[k].close_matches is None by {
            let b = before_directives(best, stmt.source);
            if k >= b.len() {
                assert(d[k] == a[k - b.len()]);
            }
        }
    }
}

} // verus!
