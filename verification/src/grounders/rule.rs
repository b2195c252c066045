//! Rule-based grounder: keyword matching + positional heuristics.
//!
//! No ML dependency. Works well for structured OpenSpec specs
//! that use explicit task IDs (T1.3) and temporal keywords.
use vstd::prelude::*;
use vstd::string::StringSliceAdditionalSpecFns;
use vstd::utf8::*;

use crate::order::{insert_sorted, lemma_insert_sorted, lemma_sort_by, lemma_sort_by_contains, sort_by, strict_order};
use crate::text::{
    chars_equal, chars_of, chars_of_string, contains, contains_chars, contains_str, copy_string, find, find_bytes_from,
    find_from, lemma_find, lemma_find_from, lowercase, to_lowercase, ascii_lowercase,
};
use crate::types::{
    grounded_threshold, status_of, strings_view, AtomView, ConstantDef, ConstantView, Grounder, GroundedAtom,
    GroundingResult, GroundingStatus, GroundingView, PredicateDef, PredicateView, Signature,
    SignatureView,
};

verus! {

broadcast use vstd::utf8::group_utf8_lib;

// ── The rules, as mathematics ──

/// The predicates that the grounder knows, in the order it tries them.
pub open spec fn predicate_names() -> Seq<Seq<char>> {
    seq!["BEFORE"@, "AFTER"@, "CONCURRENTLY"@, "IF_THEN"@, "ALWAYS"@, "AT_MOST_ONE"@]
}

/// The keywords that signal the predicate at position `k` of `predicate_names()`.
pub open spec fn predicate_keywords(k: int) -> Seq<Seq<char>> {
    if k == 0 {
        seq!["before"@, "complete before"@, "must finish before"@]
    } else if k == 1 {
        seq!["after"@, "only after"@]
    } else if k == 2 {
        seq!["concurrently"@, "in parallel"@, "simultaneously"@, "at the same time"@]
    } else if k == 3 {
        seq!["if"@, "unless"@, "in case of"@, "when ... then"@]
    } else if k == 4 {
        seq!["always"@, "throughout"@, "at all times"@]
    } else {
        seq!["at most one"@, "mutually exclusive"@, "not concurrently"@, "not together"@]
    }
}

/// Some keyword of predicate `k` occurs in the lowercased text.
pub open spec fn keyword_matched(lower: Seq<char>, k: int) -> bool {
    exists|j: int|
        0 <= j < predicate_keywords(k).len() && contains(lower, #[trigger] predicate_keywords(k)[j])
}

/// The UTF-8 bytes of a character sequence.
pub open spec fn bytes_of(s: Seq<char>) -> Seq<u8> {
    encode_utf8(s)
}

/// `&s[a..b]`, in byte offsets, does not panic: both are character boundaries
/// of `s` and `a <= b`.
pub open spec fn slice_ok(s: Seq<char>, a: int, b: int) -> bool {
    a <= b && is_char_boundary(bytes_of(s), a) && is_char_boundary(bytes_of(s), b)
}

/// The characters of `&s[a..b]`, in byte offsets.
pub open spec fn slice_of(s: Seq<char>, a: int, b: int) -> Seq<char> {
    decode_utf8(bytes_of(s).subrange(a, b))
}

/// A constant appears in a text: by its name, or by one of its aliases in the
/// lowercased text.
pub open spec fn constant_appears(c: ConstantView, text: Seq<char>, lower: Seq<char>) -> bool {
    contains(text, c.name) || exists|i: int|
        0 <= i < c.aliases.len() && contains(lower, #[trigger] c.aliases[i])
}

/// A constant appears in a slice of text (lowercasing the slice for aliases).
pub open spec fn constant_appears_in_slice(c: ConstantView, slice: Seq<char>) -> bool {
    constant_appears(c, slice, lowercase(slice))
}

/// The first `n` constants of `cs` that appear in `text`, in their order.
pub open spec fn matched_upto(
    cs: Seq<ConstantView>,
    text: Seq<char>,
    lower: Seq<char>,
    n: int,
) -> Seq<ConstantView>
    decreases n,
{
    if n <= 0 {
        seq![]
    } else {
        let r = matched_upto(cs, text, lower, n - 1);
        if constant_appears(cs[n - 1], text, lower) {
            r.push(cs[n - 1])
        } else {
            r
        }
    }
}

/// The constants of `cs` that appear in `text`, in their order.
pub open spec fn matched_constants(cs: Seq<ConstantView>, text: Seq<char>) -> Seq<ConstantView> {
    matched_upto(cs, text, lowercase(text), cs.len() as int)
}

/// The name of the first constant of `m` that appears in `slice`.
pub open spec fn first_appearing(m: Seq<ConstantView>, slice: Seq<char>) -> Option<Seq<char>>
    decreases m.len(),
{
    if m.len() == 0 {
        None
    } else if constant_appears_in_slice(m[0], slice) {
        Some(m[0].name)
    } else {
        first_appearing(m.drop_first(), slice)
    }
}

/// The names of the first `n` constants of `m` (all of them if fewer).
pub open spec fn first_names(m: Seq<ConstantView>, n: int) -> Seq<Seq<char>> {
    m.take(if m.len() < n {
        m.len() as int
    } else {
        n
    }).map_values(|c: ConstantView| c.name)
}

/// An optional name as a list of zero or one names.
pub open spec fn opt_list(o: Option<Seq<char>>) -> Seq<Seq<char>> {
    match o {
        Some(x) => seq![x],
        None => seq![],
    }
}

/// Arguments split around a keyword at byte `pos` of length `kw_len`: the first
/// matched constant before it and the first after it (`swap` puts the one
/// after first). `None` where slicing the text there would panic.
pub open spec fn split_around(
    m: Seq<ConstantView>,
    nl: Seq<char>,
    pos: Option<int>,
    kw_len: int,
    swap: bool,
) -> Option<Seq<Seq<char>>> {
    match pos {
        None => Some(first_names(m, 2)),
        Some(p) => {
            let end = bytes_of(nl).len() as int;
            if slice_ok(nl, 0, p) && slice_ok(nl, p + kw_len, end) {
                let before = opt_list(first_appearing(m, slice_of(nl, 0, p)));
                let after = opt_list(first_appearing(m, slice_of(nl, p + kw_len, end)));
                Some(
                    if swap {
                        after + before
                    } else {
                        before + after
                    },
                )
            } else {
                None
            }
        },
    }
}

/// Arguments of `IF_THEN`: the first matched constant between "if" and
/// "then" (or the end), then the first one after "then". `None` where slicing
/// the text would panic.
pub open spec fn split_if_then(m: Seq<ConstantView>, nl: Seq<char>, lower: Seq<char>) -> Option<
    Seq<Seq<char>>,
> {
    let lb = bytes_of(lower);
    match find(lb, bytes_of("if"@)) {
        None => Some(first_names(m, 2)),
        Some(ip) => {
            let start = ip + 2;
            let end = bytes_of(nl).len() as int;
            let then_pos = find_from(lb, bytes_of("then"@), start);
            let trigger_end = match then_pos {
                Some(t) => t,
                None => lb.len() as int,
            };
            if !slice_ok(nl, start, trigger_end) {
                None
            } else {
                let trigger = first_appearing(m, slice_of(nl, start, trigger_end));
                match then_pos {
                    Some(t) => if slice_ok(nl, t + 4, end) {
                        Some(
                            opt_list(trigger) + opt_list(
                                first_appearing(m, slice_of(nl, t + 4, end)),
                            ),
                        )
                    } else {
                        None
                    },
                    None => Some(opt_list(trigger) + opt_list(first_appearing(m, seq![]))),
                }
            }
        },
    }
}

/// The arguments that the positional heuristics give the predicate at
/// position `k` of `predicate_names()`, from the matched constants `m`;
/// `None` where a slice of the text would not fall on character boundaries.
pub open spec fn assigned_arguments(
    k: int,
    m: Seq<ConstantView>,
    nl: Seq<char>,
    lower: Seq<char>,
) -> Option<Seq<Seq<char>>> {
    if k == 0 {
        // BEFORE: "X before Y" gives earlier = X, later = Y.
        split_around(m, nl, find(bytes_of(lower), bytes_of("before"@)), 6, false)
    } else if k == 1 {
        // AFTER: "X after Y" gives earlier = Y, later = X.
        split_around(m, nl, find(bytes_of(lower), bytes_of("after"@)), 5, true)
    } else if k == 2 || k == 5 {
        // CONCURRENTLY, AT_MOST_ONE
        Some(first_names(m, 2))
    } else if k == 3 {
        // IF_THEN
        split_if_then(m, nl, lower)
    } else {
        // ALWAYS
        Some(first_names(m, 1))
    }
}

/// The number of argument slots of the first predicate of `ps` named `name`,
/// or 0 when there is none.
pub open spec fn expected_arity(ps: Seq<PredicateView>, name: Seq<char>) -> nat
    decreases ps.len(),
{
    if ps.len() == 0 {
        0
    } else if ps[0].name == name {
        ps[0].arguments.len()
    } else {
        expected_arity(ps.drop_first(), name)
    }
}

/// Every argument is named in the text itself (not only found through an
/// alias).
pub open spec fn all_named(args: Seq<Seq<char>>, nl: Seq<char>) -> bool {
    forall|j: int| 0 <= j < args.len() ==> contains(nl, #[trigger] args[j])
}

/// Confidence (hundredths): when the arguments fill all slots of the
/// predicate, 95 if the text names each of them and 85 if some was found only
/// through an alias (alias matches are penalised); 50 when some but not all
/// slots are filled; 0 when no argument was found.
pub open spec fn confidence_of(args: Seq<Seq<char>>, expected: nat, nl: Seq<char>) -> nat {
    if args.len() == expected && expected > 0 {
        if all_named(args, nl) {
            95
        } else {
            85
        }
    } else if args.len() > 0 {
        50
    } else {
        0
    }
}

/// Whether the text names every argument.
fn all_named_exec(args: &Vec<String>, nl: &Vec<char>) -> (b: bool)
    ensures
        b == all_named(strings_view(args@), nl@),
{
    let ghost av = strings_view(args@);
    let mut j: usize = 0;
    while j < args.len()
        invariant
            j <= args.len(),
            av == strings_view(args@),
            forall|i: int| 0 <= i < j ==> contains(nl@, #[trigger] av[i]),
        decreases args.len() - j,
    {
        let a = chars_of_string(&args[j]);
        assert(av[j as int] == args@[j as int]@);
        if !contains_chars(nl, &a) {
            assert(!contains(nl@, av[j as int]));
            return false;
        }
        j = j + 1;
    }
    true
}

/// The candidates from predicate `k` on, in predicate order, unsorted;
/// `None` where a slice of the text would not fall on character boundaries.
pub open spec fn candidates_from(nl: Seq<char>, sig: SignatureView, k: int) -> Option<
    Seq<AtomView>,
>
    decreases 6 - k,
{
    if k < 0 || k >= 6 {
        Some(seq![])
    } else {
        let lower = lowercase(nl);
        let rest = candidates_from(nl, sig, k + 1);
        if !keyword_matched(lower, k) {
            rest
        } else {
            let pred = predicate_names()[k];
            match assigned_arguments(k, matched_constants(sig.constants, nl), nl, lower) {
                None => None,
                Some(args) => {
                    let conf = confidence_of(args, expected_arity(sig.predicates, pred), nl);
                    match rest {
                        None => None,
                        Some(r) => if conf > 0 {
                            Some(seq![AtomView { predicate: pred, arguments: args, confidence: conf }] + r)
                        } else {
                            Some(r)
                        },
                    }
                },
            }
        }
    }
}

/// Orders atoms by descending confidence.
pub open spec fn by_confidence() -> spec_fn(AtomView, AtomView) -> bool {
    |a: AtomView, b: AtomView| a.confidence > b.confidence
}

/// What the rule grounder returns for `nl`: the candidates stably sorted by
/// descending confidence, with the status they earn; `None` on the texts where
/// the positional rules would slice `nl` off a character boundary.
pub open spec fn rule_ground(nl: Seq<char>, sig: SignatureView) -> Option<GroundingView> {
    match candidates_from(nl, sig, 0) {
        None => None,
        Some(c) => {
            let sorted = sort_by(c, by_confidence());
            Some(GroundingView { candidates: sorted, status: status_of(sorted) })
        },
    }
}

// ── The rules, as code ──

/// The rule-based grounder.
pub struct RuleGrounder;

/// Whether a constant appears in a text, given the text lowercased.
fn appears_in(c: &ConstantDef, text: &Vec<char>, lower: &Vec<char>) -> (b: bool)
    ensures
        b == constant_appears(c@, text@, lower@),
{
    let name = chars_of_string(&c.name);
    if contains_chars(text, &name) {
        return true;
    }
    let mut j: usize = 0;
    while j < c.aliases.len()
        invariant
            j <= c.aliases.len(),
            forall|i: int| 0 <= i < j ==> !contains(lower@, #[trigger] c@.aliases[i]),
        decreases c.aliases.len() - j,
    {
        let a = chars_of_string(&c.aliases[j]);
        if contains_chars(lower, &a) {
            assert(contains(lower@, c@.aliases[j as int]));
            return true;
        }
        j = j + 1;
    }
    false
}

/// Whether a constant appears in a slice of the text.
pub fn appears_in_slice(c: &ConstantDef, slice: &str) -> (b: bool)
    ensures
        b == constant_appears_in_slice(c@, slice@),
{
    let lower = to_lowercase(slice);
    let lc = chars_of_string(&lower);
    let tc = chars_of(slice);
    appears_in(c, &tc, &lc)
}

/// The constants of the signature that appear in the text, in their order.
fn matching_constants<'a>(sig: &'a Signature, text: &Vec<char>, lower: &Vec<char>) -> (m: Vec<
    &'a ConstantDef,
>)
    ensures
        m@.map_values(|c: &ConstantDef| c@) == matched_upto(
            sig@.constants,
            text@,
            lower@,
            sig@.constants.len() as int,
        ),
{
    let mut m: Vec<&ConstantDef> = Vec::new();
    let n = sig.constants.len();
    for i in 0..n
        invariant
            n == sig.constants@.len(),
            m@.map_values(|c: &ConstantDef| c@) == matched_upto(
                sig@.constants,
                text@,
                lower@,
                i as int,
            ),
    {
        let c = &sig.constants[i];
        if appears_in(c, text, lower) {
            m.push(c);
            assert(m@.map_values(|c: &ConstantDef| c@) == matched_upto(
                sig@.constants,
                text@,
                lower@,
                i as int,
            ).push(sig@.constants[i as int]));
        }
    }
    m
}

/// The name of the first of the matched constants that appears in `slice`.
fn first_appearing_exec(m: &Vec<&ConstantDef>, slice: &str) -> (r: Option<String>)
    ensures
        match r {
            Some(s) => first_appearing(m@.map_values(|c: &ConstantDef| c@), slice@) == Some(s@),
            None => first_appearing(m@.map_values(|c: &ConstantDef| c@), slice@) is None,
        },
{
    let ghost mv = m@.map_values(|c: &ConstantDef| c@);
    let mut i: usize = 0;
    assert(mv.skip(0) == mv);
    while i < m.len()
        invariant
            i <= m.len(),
            mv == m@.map_values(|c: &ConstantDef| c@),
            first_appearing(mv, slice@) == first_appearing(mv.skip(i as int), slice@),
        decreases m.len() - i,
    {
        assert(mv.skip(i as int).drop_first() == mv.skip(i + 1));
        if appears_in_slice(m[i], slice) {
            return Some(copy_string(&m[i].name));
        }
        i = i + 1;
    }
    None
}

/// The names of the first `n` matched constants (all if fewer).
fn first_names_exec(m: &Vec<&ConstantDef>, n: usize) -> (r: Vec<String>)
    ensures
        strings_view(r@) == first_names(m@.map_values(|c: &ConstantDef| c@), n as int),
{
    let ghost mv = m@.map_values(|c: &ConstantDef| c@);
    let k = if m.len() < n {
        m.len()
    } else {
        n
    };
    let mut r: Vec<String> = Vec::new();
    for i in 0..k
        invariant
            k <= m.len(),
            mv == m@.map_values(|c: &ConstantDef| c@),
            strings_view(r@) == mv.take(i as int).map_values(|c: ConstantView| c.name),
    {
        let ghost before = r@;
        let s = copy_string(&m[i].name);
        r.push(s);
        assert(mv.take(i + 1) == mv.take(i as int).push(mv[i as int]));
        assert(strings_view(r@) =~= strings_view(before).push(s@));
        assert(mv.take(i + 1).map_values(|c: ConstantView| c.name) =~= mv.take(i as int).map_values(
            |c: ConstantView| c.name,
        ).push(mv[i as int].name));
    }
    r
}

/// Appends an optional name.
fn push_opt(args: &mut Vec<String>, o: Option<String>)
    ensures
        strings_view(final(args)@) == strings_view(old(args)@) + opt_list(
            match o {
                Some(s) => Some(s@),
                None => None,
            },
        ),
{
    match o {
        Some(s) => {
            args.push(s);
        },
        None => {},
    }
}

/// The byte length of an ASCII literal is its number of characters.
proof fn lemma_ascii_len(s: Seq<char>)
    requires
        is_ascii_chars(s),
    ensures
        bytes_of(s).len() == s.len(),
{
    is_ascii_chars_encode_utf8(s);
}

/// Arguments around `kw` (found in `lower` at `pos`, `kw_len` bytes long).
fn split_around_exec(
    m: &Vec<&ConstantDef>,
    nl: &str,
    lower: &str,
    kw: &str,
    kw_len: usize,
    swap: bool,
) -> (r: Option<Vec<String>>)
    requires
        bytes_of(kw@).len() == kw_len,
    ensures
        match r {
            Some(v) => split_around(
                m@.map_values(|c: &ConstantDef| c@),
                nl@,
                find(bytes_of(lower@), bytes_of(kw@)),
                kw_len as int,
                swap,
            ) == Some(strings_view(v@)),
            None => split_around(
                m@.map_values(|c: &ConstantDef| c@),
                nl@,
                find(bytes_of(lower@), bytes_of(kw@)),
                kw_len as int,
                swap,
            ) is None,
        },
{
    let lb = lower.as_bytes();
    let kb = kw.as_bytes();
    match find_bytes_from(lb, kb, 0) {
        None => Some(first_names_exec(m, 2)),
        Some(pos) => {
            proof {
                lemma_find_from(lb@, kb@, 0);
            }
            let lb_len = lb.len();
            assert(pos + kw_len <= lb_len);
            let end = pos + kw_len;
            if !(nl.is_char_boundary(pos) && nl.is_char_boundary(end)) {
                return None;
            }
            let (before_text, _) = nl.split_at(pos);
            let (_, after_text) = nl.split_at(end);
            proof {
                let nb = bytes_of(nl@);
                assert(is_char_boundary(nb, nb.len() as int));
                assert(before_text@ == decode_utf8(encode_utf8(before_text@)));
                assert(after_text@ == decode_utf8(encode_utf8(after_text@)));
            }
            let b = first_appearing_exec(m, before_text);
            let a = first_appearing_exec(m, after_text);
            let mut args: Vec<String> = Vec::new();
            if swap {
                push_opt(&mut args, a);
                push_opt(&mut args, b);
            } else {
                push_opt(&mut args, b);
                push_opt(&mut args, a);
            }
            Some(args)
        },
    }
}

/// A byte index is a character boundary of a valid UTF-8 sequence exactly
/// when it is one of the suffix that starts at an earlier boundary.
proof fn lemma_boundary_shift(nb: Seq<u8>, s: int, i: int)
    requires
        valid_utf8(nb),
        is_char_boundary(nb, s),
        s <= i,
    ensures
        is_char_boundary(nb.subrange(s, nb.len() as int), i - s) == is_char_boundary(nb, i),
{
    let rest = nb.subrange(s, nb.len() as int);
    assert(0 <= s <= nb.len()) by {
        reveal_with_fuel(is_char_boundary, 2);
        if s != 0 {
            if s < 0 || s > nb.len() {
                assert(!is_char_boundary(nb, s));
            }
        }
    }
    valid_utf8_split(nb, s);
    is_char_boundary_start_end_of_seq(nb);
    is_char_boundary_start_end_of_seq(rest);
    if i < nb.len() {
        is_char_boundary_iff_not_is_continuation_byte(nb, i);
        is_char_boundary_iff_not_is_continuation_byte(rest, i - s);
        assert(rest[i - s] == nb[i]);
    } else if i > nb.len() {
        reveal_with_fuel(is_char_boundary, 1);
        lemma_boundary_beyond(nb, i);
        lemma_boundary_beyond(rest, i - s);
    }
}

/// No index past the end is a character boundary.
proof fn lemma_boundary_beyond(b: Seq<u8>, i: int)
    requires
        valid_utf8(b),
        i > b.len(),
    ensures
        !is_char_boundary(b, i),
    decreases b.len(),
{
    if b.len() == 0 {
    } else {
        let l = length_of_first_scalar(b);
        assert(l >= 1) by {
            reveal_with_fuel(valid_utf8, 1);
        }
        lemma_pop_first_len(b);
        lemma_boundary_beyond(pop_first_scalar(b), i - l);
    }
}

/// Popping the first scalar of a valid sequence leaves a valid sequence that
/// is shorter by the scalar's length.
proof fn lemma_pop_first_len(b: Seq<u8>)
    requires
        valid_utf8(b),
        b.len() > 0,
    ensures
        valid_utf8(pop_first_scalar(b)),
        pop_first_scalar(b).len() == b.len() - length_of_first_scalar(b),
        1 <= length_of_first_scalar(b) <= b.len(),
{
    reveal_with_fuel(valid_utf8, 1);
}

/// `&nl[a..b]`, checked: `None` unless both are character boundaries.
fn slice_str(nl: &str, a: usize, b: usize) -> (r: Option<&str>)
    requires
        a <= b,
    ensures
        r is Some == slice_ok(nl@, a as int, b as int),
        r matches Some(t) ==> t@ == slice_of(nl@, a as int, b as int),
{
    if !(nl.is_char_boundary(a) && nl.is_char_boundary(b)) {
        return None;
    }
    let (_, rest) = nl.split_at(a);
    proof {
        let nb = bytes_of(nl@);
        lemma_boundary_shift(nb, a as int, b as int);
        assert(rest.spec_bytes() =~= nb.subrange(a as int, nb.len() as int));
    }
    let (mid, _) = rest.split_at(b - a);
    proof {
        let nb = bytes_of(nl@);
        assert(mid.spec_bytes() =~= nb.subrange(a as int, b as int));
        assert(mid@ == decode_utf8(encode_utf8(mid@)));
    }
    Some(mid)
}

/// `&nl[a..]`, checked: `None` unless `a` is a character boundary.
fn suffix_str(nl: &str, a: usize) -> (r: Option<&str>)
    ensures
        r is Some == slice_ok(nl@, a as int, bytes_of(nl@).len() as int),
        r matches Some(t) ==> t@ == slice_of(nl@, a as int, bytes_of(nl@).len() as int),
{
    proof {
        is_char_boundary_start_end_of_seq(bytes_of(nl@));
        if a > bytes_of(nl@).len() {
            lemma_boundary_beyond(bytes_of(nl@), a as int);
        }
    }
    if !nl.is_char_boundary(a) {
        return None;
    }
    let (_, rest) = nl.split_at(a);
    proof {
        assert(rest@ == decode_utf8(encode_utf8(rest@)));
    }
    Some(rest)
}

/// Arguments of `IF_THEN` (trigger between "if" and "then", consequent after "then").
fn split_if_then_exec(m: &Vec<&ConstantDef>, nl: &str, lower: &str) -> (r: Option<Vec<String>>)
    ensures
        match r {
            Some(v) => split_if_then(m@.map_values(|c: &ConstantDef| c@), nl@, lower@) == Some(
                strings_view(v@),
            ),
            None => split_if_then(m@.map_values(|c: &ConstantDef| c@), nl@, lower@) is None,
        },
{
    let lb = lower.as_bytes();
    let ifb = "if".as_bytes();
    let thenb = "then".as_bytes();
    proof {
        reveal_strlit("if");
        reveal_strlit("then");
        lemma_ascii_len("if"@);
        lemma_ascii_len("then"@);
    }
    match find_bytes_from(lb, ifb, 0) {
        None => Some(first_names_exec(m, 2)),
        Some(ip) => {
            proof {
                lemma_find_from(lb@, ifb@, 0);
            }
            let lb_len = lb.len();
            let start = ip + 2;
            let then_pos = find_bytes_from(lb, thenb, start);
            proof {
                lemma_find_from(lb@, thenb@, start as int);
            }
            let trigger_end = match then_pos {
                Some(t) => t,
                None => lb_len,
            };
            let trigger_text = match slice_str(nl, start, trigger_end) {
                Some(t) => t,
                None => {
                    return None;
                },
            };
            let trigger = first_appearing_exec(m, trigger_text);
            let mut args: Vec<String> = Vec::new();
            match then_pos {
                Some(t) => {
                    assert(t + 4 <= lb_len);
                    let consequent_text = match suffix_str(nl, t + 4) {
                        Some(c) => c,
                        None => {
                            return None;
                        },
                    };
                    let consequent = first_appearing_exec(m, consequent_text);
                    push_opt(&mut args, trigger);
                    push_opt(&mut args, consequent);
                },
                None => {
                    let empty = "";
                    proof {
                        reveal_strlit("");
                    }
                    assert(empty@ == Seq::<char>::empty());
                    let consequent = first_appearing_exec(m, empty);
                    push_opt(&mut args, trigger);
                    push_opt(&mut args, consequent);
                },
            }
            Some(args)
        },
    }
}

/// Assigns arguments to the slots of predicate `k` from the matched constants.
fn assign_arguments(k: usize, m: &Vec<&ConstantDef>, nl: &str, lower: &str) -> (r: Option<
    Vec<String>,
>)
    requires
        k < 6,
    ensures
        match r {
            Some(v) => assigned_arguments(
                k as int,
                m@.map_values(|c: &ConstantDef| c@),
                nl@,
                lower@,
            ) == Some(strings_view(v@)),
            None => assigned_arguments(
                k as int,
                m@.map_values(|c: &ConstantDef| c@),
                nl@,
                lower@,
            ) is None,
        },
{
    if k == 0 {
        proof {
            reveal_strlit("before");
            lemma_ascii_len("before"@);
        }
        split_around_exec(m, nl, lower, "before", 6, false)
    } else if k == 1 {
        proof {
            reveal_strlit("after");
            lemma_ascii_len("after"@);
        }
        split_around_exec(m, nl, lower, "after", 5, true)
    } else if k == 2 || k == 5 {
        Some(first_names_exec(m, 2))
    } else if k == 3 {
        split_if_then_exec(m, nl, lower)
    } else {
        Some(first_names_exec(m, 1))
    }
}

/// Whether some keyword of predicate `k` occurs in the lowercased text.
fn keyword_matched_exec(lower: &Vec<char>, k: usize) -> (b: bool)
    requires
        k < 6,
    ensures
        b == keyword_matched(lower@, k as int),
{
    let ghost kws = predicate_keywords(k as int);
    let b = if k == 0 {
        contains_str(lower, "before") || contains_str(lower, "complete before") || contains_str(
            lower,
            "must finish before",
        )
    } else if k == 1 {
        contains_str(lower, "after") || contains_str(lower, "only after")
    } else if k == 2 {
        contains_str(lower, "concurrently") || contains_str(lower, "in parallel")
            || contains_str(lower, "simultaneously") || contains_str(lower, "at the same time")
    } else if k == 3 {
        contains_str(lower, "if") || contains_str(lower, "unless") || contains_str(
            lower,
            "in case of",
        ) || contains_str(lower, "when ... then")
    } else if k == 4 {
        contains_str(lower, "always") || contains_str(lower, "throughout") || contains_str(
            lower,
            "at all times",
        )
    } else {
        contains_str(lower, "at most one") || contains_str(lower, "mutually exclusive")
            || contains_str(lower, "not concurrently") || contains_str(lower, "not together")
    };
    proof {
        if b {
            if contains(lower@, kws[0]) {
                assert(contains(lower@, kws[0]));
            } else if contains(lower@, kws[1]) {
                assert(contains(lower@, kws[1]));
            } else if kws.len() > 2 && contains(lower@, kws[2]) {
                assert(contains(lower@, kws[2]));
            } else {
                assert(contains(lower@, kws[3]));
            }
        }
    }
    b
}

/// The number of argument slots of the first predicate named `name`, or 0.
fn arity_of(preds: &Vec<PredicateDef>, name: &str) -> (n: usize)
    ensures
        n == expected_arity(preds@.map_values(|p: PredicateDef| p@), name@),
{
    let ghost ps = preds@.map_values(|p: PredicateDef| p@);
    let nc = chars_of(name);
    let mut i: usize = 0;
    assert(ps.skip(0) == ps);
    while i < preds.len()
        invariant
            i <= preds.len(),
            ps == preds@.map_values(|p: PredicateDef| p@),
            nc@ == name@,
            expected_arity(ps, name@) == expected_arity(ps.skip(i as int), name@),
        decreases preds.len() - i,
    {
        assert(ps.skip(i as int).drop_first() == ps.skip(i + 1));
        let pc = chars_of_string(&preds[i].name);
        if chars_equal(&pc, &nc) {
            return preds[i].arguments.len();
        }
        i = i + 1;
    }
    0
}

/// The name of predicate `k` of `predicate_names()`.
fn predicate_name(k: usize) -> (s: &'static str)
    requires
        k < 6,
    ensures
        s@ == predicate_names()[k as int],
{
    if k == 0 {
        "BEFORE"
    } else if k == 1 {
        "AFTER"
    } else if k == 2 {
        "CONCURRENTLY"
    } else if k == 3 {
        "IF_THEN"
    } else if k == 4 {
        "ALWAYS"
    } else {
        "AT_MOST_ONE"
    }
}

/// Inserts an atom into a list sorted by descending confidence, after all
/// atoms of at least its confidence.
fn insert_by_confidence(sorted: &mut Vec<GroundedAtom>, x: GroundedAtom)
    ensures
        final(sorted)@.map_values(|a: GroundedAtom| a@) == insert_sorted(
            old(sorted)@.map_values(|a: GroundedAtom| a@),
            x@,
            by_confidence(),
        ),
{
    let ghost sv = sorted@.map_values(|a: GroundedAtom| a@);
    let mut j: usize = 0;
    while j < sorted.len() && !(x.confidence > sorted[j].confidence)
        invariant
            j <= sorted.len(),
            sv == sorted@.map_values(|a: GroundedAtom| a@),
            forall|i: int| 0 <= i < j ==> !(by_confidence())(x@, #[trigger] sv[i]),
        decreases sorted.len() - j,
    {
        j = j + 1;
    }
    proof {
        lemma_insert_sorted(sv, x@, by_confidence(), j as int);
    }
    let ghost xv = x@;
    sorted.insert(j, x);
    assert(sorted@.map_values(|a: GroundedAtom| a@) =~= sv.insert(j as int, xv));
}

/// Grounding with the rules; `None` on the texts that the positional rules
/// cannot slice.
fn ground_rules(nl: &str, sig: &Signature) -> (r: Option<GroundingResult>)
    ensures
        match r {
            Some(g) => rule_ground(nl@, sig@) == Some(g@),
            None => rule_ground(nl@, sig@) is None,
        },
        is_ascii_chars(nl@) ==> r is Some,
{
    let lower = to_lowercase(nl);
    proof {
        if is_ascii_chars(nl@) {
            lemma_rule_ground_ascii(nl@, sig@);
        }
    }
    let lower_chars = chars_of_string(&lower);
    let nl_chars = chars_of(nl);
    let mut sorted: Vec<GroundedAtom> = Vec::new();
    let ghost mut built: Seq<AtomView> = seq![];
    for k in 0..6usize
        invariant
            is_ascii_chars(nl@) ==> rule_ground(nl@, sig@) is Some,
            lower@ == lowercase(nl@),
            lower_chars@ == lower@,
            nl_chars@ == nl@,
            candidates_from(nl@, sig@, 0) == match candidates_from(nl@, sig@, k as int) {
                Some(rest) => Some(built + rest),
                None => None,
            },
            sorted@.map_values(|a: GroundedAtom| a@) == sort_by(built, by_confidence()),
    {
        if keyword_matched_exec(&lower_chars, k) {
            let matched = matching_constants(sig, &nl_chars, &lower_chars);
            let args = match assign_arguments(k, &matched, nl, lower.as_str()) {
                Some(a) => a,
                None => {
                    return None;
                },
            };
            let name = predicate_name(k);
            let expected = arity_of(&sig.predicates, name);
            let n = args.len();
            let confidence: u32 = if n == expected && expected > 0 {
                if all_named_exec(&args, &nl_chars) {
                    95
                } else {
                    85
                }
            } else if n > 0 {
                50
            } else {
                0
            };
            if confidence > 0 {
                let atom = GroundedAtom { predicate: String::from_str(name), arguments: args, confidence };
                let ghost av = atom@;
                proof {
                    assert(built.push(av).drop_last() == built);
                }
                insert_by_confidence(&mut sorted, atom);
                proof {
                    assert(seq![av] + candidates_from(nl@, sig@, k + 1)->0 == seq![av].add(candidates_from(nl@, sig@, k + 1)->0));
                    assert(built + (seq![av] + candidates_from(nl@, sig@, k + 1)->0) == built.push(av) + candidates_from(nl@, sig@, k + 1)->0);
                    built = built.push(av);
                }
            }
        }
    }
    let mut grounded = false;
    let mut i: usize = 0;
    let ghost sv = sorted@.map_values(|a: GroundedAtom| a@);
    while i < sorted.len()
        invariant
            i <= sorted.len(),
            sv == sorted@.map_values(|a: GroundedAtom| a@),
            grounded == exists|j: int| 0 <= j < i && #[trigger] sv[j].confidence >= grounded_threshold(),
        decreases sorted.len() - i,
    {
        assert(sv[i as int] == sorted@[i as int]@);
        proof {
            if sv[i as int].confidence >= grounded_threshold() {
                assert(exists|j: int|
                    0 <= j < i + 1 && #[trigger] sv[j].confidence >= grounded_threshold());
            } else {
                assert forall|j: int|
                    0 <= j < i + 1 && #[trigger] sv[j].confidence >= grounded_threshold() implies 0
                    <= j < i by {}
            }
        }
        if sorted[i].confidence >= 80 {
            grounded = true;
        }
        i = i + 1;
    }
    let status = if grounded {
        GroundingStatus::Grounded
    } else if sorted.len() > 0 {
        GroundingStatus::Ambiguous
    } else {
        GroundingStatus::Ungroundable
    };
    Some(GroundingResult { candidates: sorted, status })
}

impl RuleGrounder {
    /// Grounds `nl` when the rules can process it; `None` exactly on the texts
    /// that the positional rules cannot slice (where `ground` must not be called).
    /// Every ASCII text can be processed.
    pub fn try_ground(&self, nl: &str, sig: &Signature) -> (r: Option<GroundingResult>)
        ensures
            match r {
                Some(g) => rule_ground(nl@, sig@) == Some(g@),
                None => rule_ground(nl@, sig@) is None,
            },
            is_ascii_chars(nl@) ==> r is Some,
    {
        ground_rules(nl, sig)
    }
}

impl Grounder for RuleGrounder {
    open spec fn spec_ground(&self, nl: Seq<char>, sig: SignatureView) -> Option<GroundingView> {
        rule_ground(nl, sig)
    }

    fn ground(&self, nl: &str, sig: &Signature) -> (r: GroundingResult) {
        match ground_rules(nl, sig) {
            Some(g) => g,
            None => {
                proof {
                    assert(false);
                }
                GroundingResult { candidates: Vec::new(), status: GroundingStatus::Ungroundable }
            },
        }
    }
}

// ── Laws of the rule grounder ──

/// `a` is the name of some constant of `cs`.
pub open spec fn is_constant_name(cs: Seq<ConstantView>, a: Seq<char>) -> bool {
    exists|i: int| 0 <= i < cs.len() && #[trigger] cs[i].name == a
}

/// An atom that the rules may give for the text `nl`: one of the six
/// predicates, whose keyword the lowercased text contains; the confidence that
/// its arguments earn (`confidence_of`: 95 when they fill the predicate's slots
/// in the signature and the text names each, 85 when they fill them but some
/// was found only through an alias, else 50); and at least one argument, each
/// the name of a constant of the signature.
pub open spec fn well_grounded(a: AtomView, sig: SignatureView, nl: Seq<char>) -> bool {
    let lower = lowercase(nl);
    &&& exists|k: int|
        0 <= k < 6 && #[trigger] predicate_names()[k] == a.predicate && keyword_matched(lower, k)
    &&& a.arguments.len() > 0
    &&& a.confidence == confidence_of(a.arguments, expected_arity(sig.predicates, a.predicate), nl)
    &&& a.confidence > 0
    &&& forall|j: int|
        0 <= j < a.arguments.len() ==> is_constant_name(sig.constants, #[trigger] a.arguments[j])
}

/// The matched constants are constants of `cs`.
proof fn lemma_matched_are_constants(cs: Seq<ConstantView>, text: Seq<char>, lower: Seq<char>, n: int)
    requires
        0 <= n <= cs.len(),
    ensures
        forall|j: int|
            0 <= j < matched_upto(cs, text, lower, n).len() ==> is_constant_name(
                cs,
                (#[trigger] matched_upto(cs, text, lower, n)[j]).name,
            ),
    decreases n,
{
    if n > 0 {
        lemma_matched_are_constants(cs, text, lower, n - 1);
        let r = matched_upto(cs, text, lower, n - 1);
        assert forall|j: int|
            0 <= j < matched_upto(cs, text, lower, n).len() implies is_constant_name(
            cs,
            (#[trigger] matched_upto(cs, text, lower, n)[j]).name,
        ) by {
            if j < r.len() {
                assert(matched_upto(cs, text, lower, n)[j] == r[j]);
            } else {
                assert(matched_upto(cs, text, lower, n)[j] == cs[n - 1]);
            }
        }
    }
}

/// The name that `first_appearing` finds is the name of one of `m`.
proof fn lemma_first_appearing(m: Seq<ConstantView>, slice: Seq<char>)
    ensures
        first_appearing(m, slice) matches Some(x) ==> exists|j: int|
            0 <= j < m.len() && #[trigger] m[j].name == x,
    decreases m.len(),
{
    if m.len() > 0 && !constant_appears_in_slice(m[0], slice) {
        lemma_first_appearing(m.drop_first(), slice);
        if let Some(x) = first_appearing(m, slice) {
            let j = choose|j: int| 0 <= j < m.drop_first().len() && #[trigger] m.drop_first()[j].name == x;
            assert(m[j + 1].name == x);
        }
    }
}

/// The names that the positional heuristics assign are names of constants of
/// `m`.
proof fn lemma_assigned_names(k: int, m: Seq<ConstantView>, nl: Seq<char>, lower: Seq<char>)
    ensures
        assigned_arguments(k, m, nl, lower) matches Some(args) ==> forall|j: int|
            0 <= j < args.len() ==> exists|i: int|
                0 <= i < m.len() && #[trigger] m[i].name == #[trigger] args[j],
{
    if let Some(args) = assigned_arguments(k, m, nl, lower) {
        assert forall|j: int| 0 <= j < args.len() implies exists|i: int|
            0 <= i < m.len() && #[trigger] m[i].name == #[trigger] args[j] by {
            let lb = bytes_of(lower);
            let end = bytes_of(nl).len() as int;
            // Every list that the heuristics build is made of first names and
            // first appearances.
            assert forall|q: int| 0 <= q < first_names(m, 2).len() implies
                #[trigger] first_names(m, 2)[q] == m[q].name by {}
            assert forall|q: int| 0 <= q < first_names(m, 1).len() implies
                #[trigger] first_names(m, 1)[q] == m[q].name by {}
            assert forall|sl: Seq<char>, q: int|
                0 <= q < opt_list(first_appearing(m, sl)).len() implies exists|i: int|
                0 <= i < m.len() && #[trigger] m[i].name == #[trigger] opt_list(
                    first_appearing(m, sl),
                )[q] by {
                lemma_first_appearing(m, sl);
            }
        }
    }
}

/// The laws of the positional heuristics: every argument is the name of one
/// of the matched constants, and there are at most two; `ALWAYS` takes the
/// first matched constant, `CONCURRENTLY` and `AT_MOST_ONE` the first two;
/// `BEFORE`, `AFTER` and `IF_THEN` take the first two when the lowercased text
/// lacks their keyword (`before`, `after`, `if`).
pub proof fn lemma_assigned_arguments(k: int, m: Seq<ConstantView>, nl: Seq<char>, lower: Seq<char>)
    requires
        0 <= k < 6,
    ensures
        assigned_arguments(k, m, nl, lower) matches Some(args) ==> args.len() <= 2 && forall|j: int|
            0 <= j < args.len() ==> exists|i: int|
                0 <= i < m.len() && #[trigger] m[i].name == #[trigger] args[j],
        k == 4 ==> assigned_arguments(k, m, nl, lower) == Some(first_names(m, 1)),
        k == 2 || k == 5 ==> assigned_arguments(k, m, nl, lower) == Some(first_names(m, 2)),
        k == 0 && !contains(bytes_of(lower), bytes_of("before"@)) ==> assigned_arguments(
            k,
            m,
            nl,
            lower,
        ) == Some(first_names(m, 2)),
        k == 1 && !contains(bytes_of(lower), bytes_of("after"@)) ==> assigned_arguments(
            k,
            m,
            nl,
            lower,
        ) == Some(first_names(m, 2)),
        k == 3 && !contains(bytes_of(lower), bytes_of("if"@)) ==> assigned_arguments(
            k,
            m,
            nl,
            lower,
        ) == Some(first_names(m, 2)),
{
    lemma_assigned_names(k, m, nl, lower);
    lemma_find(bytes_of(lower), bytes_of("before"@));
    lemma_find(bytes_of(lower), bytes_of("after"@));
    lemma_find(bytes_of(lower), bytes_of("if"@));
}

/// The six predicate names are pairwise different.
proof fn lemma_predicate_names_distinct()
    ensures
        forall|i: int, j: int|
            0 <= i < 6 && 0 <= j < 6 && i != j ==> #[trigger] predicate_names()[i]
                != #[trigger] predicate_names()[j],
{
    reveal_strlit("BEFORE");
    reveal_strlit("AFTER");
    reveal_strlit("CONCURRENTLY");
    reveal_strlit("IF_THEN");
    reveal_strlit("ALWAYS");
    reveal_strlit("AT_MOST_ONE");
    let n = predicate_names();
    assert(n[0].len() == 6 && n[1].len() == 5 && n[2].len() == 12 && n[3].len() == 7
        && n[4].len() == 6 && n[5].len() == 11);
    assert(n[0][0] != n[4][0]);
}

/// Every candidate from predicate `k` on is well grounded, and there is at
/// most one per predicate.
proof fn lemma_candidates_from(nl: Seq<char>, sig: SignatureView, k: int)
    requires
        0 <= k <= 6,
        candidates_from(nl, sig, k) is Some,
    ensures
        candidates_from(nl, sig, k)->0.len() <= 6 - k,
        forall|i: int|
            0 <= i < candidates_from(nl, sig, k)->0.len() ==> exists|q: int|
                k <= q < 6 && predicate_names()[q] == (#[trigger] candidates_from(
                    nl,
                    sig,
                    k,
                )->0[i]).predicate,
        forall|i: int, j: int|
            0 <= i < j < candidates_from(nl, sig, k)->0.len() ==> (#[trigger] candidates_from(
                nl,
                sig,
                k,
            )->0[i]).predicate != (#[trigger] candidates_from(nl, sig, k)->0[j]).predicate,
        forall|i: int|
            0 <= i < candidates_from(nl, sig, k)->0.len() ==> well_grounded(
                #[trigger] candidates_from(nl, sig, k)->0[i],
                sig,
                nl,
            ),
    decreases 6 - k,
{
    if k < 6 {
        lemma_candidates_from(nl, sig, k + 1);
        let lower = lowercase(nl);
        if keyword_matched(lower, k) {
            let m = matched_constants(sig.constants, nl);
            let args = assigned_arguments(k, m, nl, lower)->0;
            lemma_assigned_names(k, m, nl, lower);
            lemma_matched_are_constants(sig.constants, nl, lower, sig.constants.len() as int);
            let pred = predicate_names()[k];
            let conf = confidence_of(args, expected_arity(sig.predicates, pred), nl);
            let rest = candidates_from(nl, sig, k + 1)->0;
            if conf > 0 {
                let a = AtomView { predicate: pred, arguments: args, confidence: conf };
                assert(predicate_names()[k] == pred);
                assert forall|j: int| 0 <= j < args.len() implies is_constant_name(
                    sig.constants,
                    #[trigger] args[j],
                ) by {
                    let i = choose|i: int| 0 <= i < m.len() && #[trigger] m[i].name == args[j];
                    assert(is_constant_name(sig.constants, m[i].name));
                }
                assert(well_grounded(a, sig, nl));
                let all = seq![a] + rest;
                assert forall|i: int| 0 <= i < all.len() implies well_grounded(#[trigger] all[i], sig, nl) by {
                    if i > 0 {
                        assert(all[i] == rest[i - 1]);
                    }
                }
                lemma_predicate_names_distinct();
                assert forall|i: int| 0 <= i < all.len() implies exists|q: int|
                    k <= q < 6 && predicate_names()[q] == (#[trigger] all[i]).predicate by {
                    if i > 0 {
                        assert(all[i] == rest[i - 1]);
                    }
                }
                assert forall|i: int, j: int| 0 <= i < j < all.len() implies (#[trigger] all[i]).predicate
                    != (#[trigger] all[j]).predicate by {
                    assert(all[j] == rest[j - 1]);
                    let qj = choose|q: int| k + 1 <= q < 6 && predicate_names()[q] == rest[j - 1].predicate;
                    if i > 0 {
                        assert(all[i] == rest[i - 1]);
                    } else {
                        assert(predicate_names()[k] != predicate_names()[qj]);
                    }
                }
            }
        }
    }
}

/// Orders by descending confidence is a strict order.
proof fn lemma_by_confidence_strict()
    ensures
        strict_order(by_confidence()),
{
}

/// The laws of the rule grounder. On every text that the rules can process:
/// the status is the one the candidates earn (grounded when some candidate has
/// confidence 0.8 or more, ambiguous when there are candidates but none
/// reaches it, ungroundable when there is none); the candidates come sorted by
/// descending confidence, at most six of them, no two with the same
/// predicate; and each names one of the six predicates whose keyword the
/// lowercased text contains, has confidence 0.95 when its arguments fill that
/// predicate's slots in the signature and the text names each of them, 0.85
/// when they fill the slots but some was found only through an alias, 0.5
/// otherwise, and has at least one argument, each the name of one of the
/// signature's constants.
pub proof fn lemma_rule_ground(nl: Seq<char>, sig: SignatureView)
    requires
        rule_ground(nl, sig) is Some,
    ensures
        ({
            let g = rule_ground(nl, sig)->0;
            &&& g.status == status_of(g.candidates)
            &&& g.candidates.len() <= 6
            &&& forall|i: int, j: int|
                0 <= i < j < g.candidates.len() ==> #[trigger] g.candidates[i].confidence
                    >= #[trigger] g.candidates[j].confidence
            &&& forall|i: int, j: int|
                0 <= i < j < g.candidates.len() ==> (#[trigger] g.candidates[i]).predicate
                    != (#[trigger] g.candidates[j]).predicate
            &&& forall|i: int|
                0 <= i < g.candidates.len() ==> well_grounded(
                    #[trigger] g.candidates[i],
                    sig,
                    nl,
                )
        }),
{
    let c = candidates_from(nl, sig, 0)->0;
    lemma_candidates_from(nl, sig, 0);
    lemma_by_confidence_strict();
    lemma_sort_by(c, by_confidence());
    let g = rule_ground(nl, sig)->0;
    assert forall|i: int, j: int| 0 <= i < j < g.candidates.len() implies #[trigger] g.candidates[i].confidence
        >= #[trigger] g.candidates[j].confidence by {
        assert(!(by_confidence())(g.candidates[j], g.candidates[i]));
    }
    // The candidates have distinct predicates, so no atom occurs twice among
    // them, nor among the sorted ones, which hold the same atoms.
    assert(c.no_duplicates()) by {
        assert forall|i: int, j: int| 0 <= i < c.len() && 0 <= j < c.len() && i != j implies c[i]
            != c[j] by {
            if i < j {
                assert(c[i].predicate != c[j].predicate);
            } else {
                assert(c[j].predicate != c[i].predicate);
            }
        }
    }
    c.lemma_multiset_has_no_duplicates();
    g.candidates.lemma_multiset_has_no_duplicates_conv();
    assert forall|i: int, j: int| 0 <= i < j < g.candidates.len() implies (#[trigger] g.candidates[i]).predicate
        != (#[trigger] g.candidates[j]).predicate by {
        lemma_sort_by_contains(c, by_confidence(), i);
        lemma_sort_by_contains(c, by_confidence(), j);
        let qi = choose|q: int| 0 <= q < c.len() && c[q] == g.candidates[i];
        let qj = choose|q: int| 0 <= q < c.len() && c[q] == g.candidates[j];
        if g.candidates[i].predicate == g.candidates[j].predicate {
            if qi < qj {
                assert(c[qi].predicate != c[qj].predicate);
            } else if qj < qi {
                assert(c[qj].predicate != c[qi].predicate);
            }
            assert(g.candidates[i] == g.candidates[j]);
        }
    }
    assert forall|i: int| 0 <= i < g.candidates.len() implies well_grounded(
        #[trigger] g.candidates[i],
        sig,
        nl,
    ) by {
        lemma_sort_by_contains(c, by_confidence(), i);
        let k = choose|k: int| 0 <= k < c.len() && c[k] == g.candidates[i];
        assert(well_grounded(c[k], sig, nl));
    }
}

// ── Every keyword counts ──

/// Some constant of `cs` appears among the first `n` makes the matched list
/// non-empty.
proof fn lemma_matched_nonempty(cs: Seq<ConstantView>, text: Seq<char>, lower: Seq<char>, n: int, i: int)
    requires
        0 <= i < n <= cs.len(),
        constant_appears(cs[i], text, lower),
    ensures
        matched_upto(cs, text, lower, n).len() > 0,
    decreases n,
{
    if i < n - 1 {
        lemma_matched_nonempty(cs, text, lower, n - 1, i);
    }
}

/// When predicate `k` is matched and its arguments earn a confidence, the
/// candidates from any earlier predicate on hold one for it.
proof fn lemma_candidate_present(nl: Seq<char>, sig: SignatureView, k0: int, k: int)
    requires
        0 <= k0 <= k < 6,
        candidates_from(nl, sig, k0) is Some,
        keyword_matched(lowercase(nl), k),
        assigned_arguments(k, matched_constants(sig.constants, nl), nl, lowercase(nl)) matches Some(
            args,
        ) && args.len() > 0,
    ensures
        exists|i: int|
            0 <= i < candidates_from(nl, sig, k0)->0.len() && (#[trigger] candidates_from(
                nl,
                sig,
                k0,
            )->0[i]).predicate == predicate_names()[k],
    decreases k - k0,
{
    let lower = lowercase(nl);
    let rest = candidates_from(nl, sig, k0 + 1);
    if k0 == k {
        let args = assigned_arguments(k, matched_constants(sig.constants, nl), nl, lower)->0;
        let conf = confidence_of(args, expected_arity(sig.predicates, predicate_names()[k]), nl);
        assert(conf > 0);
        assert(candidates_from(nl, sig, k0)->0[0].predicate == predicate_names()[k]);
    } else {
        if keyword_matched(lower, k0) {
            assert(assigned_arguments(k0, matched_constants(sig.constants, nl), nl, lower) is Some);
        }
        assert(rest is Some);
        lemma_candidate_present(nl, sig, k0 + 1, k);
        let r = rest->0;
        let j = choose|j: int| 0 <= j < r.len() && (#[trigger] r[j]).predicate == predicate_names()[k];
        let c = candidates_from(nl, sig, k0)->0;
        if c.len() == r.len() + 1 {
            assert(c[j + 1] == r[j]);
        } else {
            assert(c[j] == r[j]);
        }
    }
}

/// The grounding of a text holds a candidate for predicate `k` when that
/// predicate is matched and its arguments earn a confidence.
proof fn lemma_grounding_has(nl: Seq<char>, sig: SignatureView, k: int)
    requires
        0 <= k < 6,
        rule_ground(nl, sig) is Some,
        keyword_matched(lowercase(nl), k),
        assigned_arguments(k, matched_constants(sig.constants, nl), nl, lowercase(nl)) matches Some(
            args,
        ) && args.len() > 0,
    ensures
        exists|i: int|
            0 <= i < rule_ground(nl, sig)->0.candidates.len() && (
            #[trigger] rule_ground(nl, sig)->0.candidates[i]).predicate == predicate_names()[k],
{
    broadcast use vstd::seq_lib::to_multiset_contains;

    let c = candidates_from(nl, sig, 0)->0;
    lemma_candidate_present(nl, sig, 0, k);
    let q = choose|q: int| 0 <= q < c.len() && (#[trigger] c[q]).predicate == predicate_names()[k];
    lemma_by_confidence_strict();
    lemma_sort_by(c, by_confidence());
    let g = sort_by(c, by_confidence());
    assert(c.contains(c[q]));
    assert(c.to_multiset().count(c[q]) > 0);
    assert(g.to_multiset().count(c[q]) > 0);
    let i = choose|i: int| 0 <= i < g.len() && g[i] == c[q];
    assert(rule_ground(nl, sig)->0.candidates[i] == g[i]);
}

/// A constant of the signature appears in the text: by its name, or by one of
/// its aliases in the lowercased text.
pub open spec fn some_constant_appears(nl: Seq<char>, sig: SignatureView) -> bool {
    exists|i: int|
        0 <= i < sig.constants.len() && (contains(nl, (#[trigger] sig.constants[i]).name)
            || exists|j: int|
            0 <= j < sig.constants[i].aliases.len() && contains(
                lowercase(nl),
                #[trigger] sig.constants[i].aliases[j],
            ))
}

/// The matched constants are not empty when some constant appears.
proof fn lemma_some_matched(nl: Seq<char>, sig: SignatureView)
    requires
        some_constant_appears(nl, sig),
    ensures
        matched_constants(sig.constants, nl).len() > 0,
{
    let i = choose|i: int|
        0 <= i < sig.constants.len() && (contains(nl, (#[trigger] sig.constants[i]).name)
            || exists|j: int|
            0 <= j < sig.constants[i].aliases.len() && contains(
                lowercase(nl),
                #[trigger] sig.constants[i].aliases[j],
            ));
    assert(constant_appears(sig.constants[i], nl, lowercase(nl)));
    lemma_matched_nonempty(sig.constants, nl, lowercase(nl), sig.constants.len() as int, i);
}

/// Every documented keyword of `CONCURRENTLY`, `ALWAYS`, `AT_MOST_ONE` and
/// `IF_THEN` counts: when the lowercased text contains any of them (`IF_THEN`:
/// without the word `if` itself, whose position splits the arguments) and some
/// constant of the signature appears in the text, the grounding has a
/// candidate for that predicate.
pub proof fn lemma_keywords_complete(nl: Seq<char>, sig: SignatureView)
    requires
        rule_ground(nl, sig) is Some,
        some_constant_appears(nl, sig),
    ensures
        ({
            let lower = lowercase(nl);
            let cands = rule_ground(nl, sig)->0.candidates;
            &&& (contains(lower, "concurrently"@) || contains(lower, "in parallel"@) || contains(
                lower,
                "simultaneously"@,
            ) || contains(lower, "at the same time"@)) ==> exists|i: int|
                0 <= i < cands.len() && (#[trigger] cands[i]).predicate == "CONCURRENTLY"@
            &&& (contains(lower, "always"@) || contains(lower, "throughout"@) || contains(
                lower,
                "at all times"@,
            )) ==> exists|i: int|
                0 <= i < cands.len() && (#[trigger] cands[i]).predicate == "ALWAYS"@
            &&& (contains(lower, "at most one"@) || contains(lower, "mutually exclusive"@)
                || contains(lower, "not concurrently"@) || contains(lower, "not together"@))
                ==> exists|i: int|
                0 <= i < cands.len() && (#[trigger] cands[i]).predicate == "AT_MOST_ONE"@
            &&& (contains(lower, "unless"@) || contains(lower, "in case of"@) || contains(
                lower,
                "when ... then"@,
            )) && !contains(bytes_of(lower), bytes_of("if"@)) ==> exists|i: int|
                0 <= i < cands.len() && (#[trigger] cands[i]).predicate == "IF_THEN"@
        }),
{
    let lower = lowercase(nl);
    let m = matched_constants(sig.constants, nl);
    lemma_some_matched(nl, sig);
    let kw2 = predicate_keywords(2);
    let kw3 = predicate_keywords(3);
    let kw4 = predicate_keywords(4);
    let kw5 = predicate_keywords(5);
    if contains(lower, "concurrently"@) || contains(lower, "in parallel"@) || contains(
        lower,
        "simultaneously"@,
    ) || contains(lower, "at the same time"@) {
        assert(contains(lower, kw2[0]) || contains(lower, kw2[1]) || contains(lower, kw2[2])
            || contains(lower, kw2[3]));
        assert(keyword_matched(lower, 2));
        assert(first_names(m, 2).len() > 0);
        lemma_grounding_has(nl, sig, 2);
    }
    if contains(lower, "always"@) || contains(lower, "throughout"@) || contains(
        lower,
        "at all times"@,
    ) {
        assert(contains(lower, kw4[0]) || contains(lower, kw4[1]) || contains(lower, kw4[2]));
        assert(keyword_matched(lower, 4));
        assert(first_names(m, 1).len() > 0);
        lemma_grounding_has(nl, sig, 4);
    }
    if contains(lower, "at most one"@) || contains(lower, "mutually exclusive"@) || contains(
        lower,
        "not concurrently"@,
    ) || contains(lower, "not together"@) {
        assert(contains(lower, kw5[0]) || contains(lower, kw5[1]) || contains(lower, kw5[2])
            || contains(lower, kw5[3]));
        assert(keyword_matched(lower, 5));
        assert(first_names(m, 2).len() > 0);
        lemma_grounding_has(nl, sig, 5);
    }
    if (contains(lower, "unless"@) || contains(lower, "in case of"@) || contains(
        lower,
        "when ... then"@,
    )) && !contains(bytes_of(lower), bytes_of("if"@)) {
        assert(contains(lower, kw3[1]) || contains(lower, kw3[2]) || contains(lower, kw3[3]));
        assert(keyword_matched(lower, 3));
        lemma_find(bytes_of(lower), bytes_of("if"@));
        assert(first_names(m, 2).len() > 0);
        lemma_grounding_has(nl, sig, 3);
    }
}

// ── ASCII text is always processed ──

/// In an ASCII text every byte offset up to its length is a character
/// boundary, and there are as many bytes as characters.
proof fn lemma_ascii_boundary(s: Seq<char>, i: int)
    requires
        is_ascii_chars(s),
        0 <= i <= s.len(),
    ensures
        bytes_of(s).len() == s.len(),
        is_char_boundary(bytes_of(s), i),
{
    is_ascii_chars_encode_utf8(s);
    let b = bytes_of(s);
    encode_utf8_valid_utf8(s);
    is_char_boundary_start_end_of_seq(b);
    if i < b.len() {
        is_char_boundary_iff_not_is_continuation_byte(b, i);
        assert(b[i] == s[i] as u8);
    }
}

/// Slicing an ASCII text between two offsets in order, within its length,
/// falls on character boundaries.
proof fn lemma_ascii_slice_ok(s: Seq<char>, a: int, b: int)
    requires
        is_ascii_chars(s),
        0 <= a <= b <= s.len(),
    ensures
        slice_ok(s, a, b),
{
    lemma_ascii_boundary(s, a);
    lemma_ascii_boundary(s, b);
}

/// ASCII lowercasing keeps text ASCII and keeps its length.
proof fn lemma_ascii_lowercase(s: Seq<char>)
    requires
        is_ascii_chars(s),
    ensures
        is_ascii_chars(ascii_lowercase(s)),
        ascii_lowercase(s).len() == s.len(),
        bytes_of(ascii_lowercase(s)).len() == s.len(),
{
    let l = ascii_lowercase(s);
    assert forall|i: int| 0 <= i < l.len() implies '\0' <= #[trigger] l[i] <= '\u{7f}' by {
        assert(l[i] == crate::text::ascii_lower(s[i]));
    }
    lemma_ascii_len(l);
}

/// Where `find` gives an offset, the pattern fits before the end.
proof fn lemma_found_fits(s: Seq<u8>, p: Seq<u8>)
    ensures
        find(s, p) matches Some(i) ==> 0 <= i && i + p.len() <= s.len(),
{
    lemma_find(s, p);
}

/// The positional heuristics never slice an ASCII text off a character
/// boundary, when the lowercased text is its ASCII lowercase.
proof fn lemma_assigned_ascii(k: int, m: Seq<ConstantView>, nl: Seq<char>)
    requires
        is_ascii_chars(nl),
        lowercase(nl) == ascii_lowercase(nl),
    ensures
        assigned_arguments(k, m, nl, lowercase(nl)) is Some,
{
    let lower = lowercase(nl);
    lemma_ascii_lowercase(nl);
    lemma_ascii_len(nl);
    let lb = bytes_of(lower);
    let n = nl.len() as int;
    reveal_strlit("before");
    reveal_strlit("after");
    reveal_strlit("if");
    reveal_strlit("then");
    lemma_ascii_len("before"@);
    lemma_ascii_len("after"@);
    lemma_ascii_len("if"@);
    lemma_ascii_len("then"@);
    if k == 0 || k == 1 {
        let kw = if k == 0 { "before"@ } else { "after"@ };
        lemma_found_fits(lb, bytes_of(kw));
        if let Some(p) = find(lb, bytes_of(kw)) {
            lemma_ascii_slice_ok(nl, 0, p);
            lemma_ascii_slice_ok(nl, p + bytes_of(kw).len(), n);
        }
    } else if k == 3 {
        lemma_found_fits(lb, bytes_of("if"@));
        if let Some(ip) = find(lb, bytes_of("if"@)) {
            let start = ip + 2;
            lemma_find_from(lb, bytes_of("then"@), start);
            match find_from(lb, bytes_of("then"@), start) {
                Some(t) => {
                    lemma_ascii_slice_ok(nl, start, t);
                    lemma_ascii_slice_ok(nl, t + 4, n);
                },
                None => {
                    lemma_ascii_slice_ok(nl, start, n);
                },
            }
        }
    }
}

/// Every predicate's candidates exist on ASCII text, when the lowercased text
/// is its ASCII lowercase.
proof fn lemma_candidates_ascii(nl: Seq<char>, sig: SignatureView, k: int)
    requires
        is_ascii_chars(nl),
        lowercase(nl) == ascii_lowercase(nl),
        0 <= k <= 6,
    ensures
        candidates_from(nl, sig, k) is Some,
    decreases 6 - k,
{
    if k < 6 {
        lemma_candidates_ascii(nl, sig, k + 1);
        lemma_assigned_ascii(k, matched_constants(sig.constants, nl), nl);
    }
}

/// The rules process every ASCII text, when the lowercased text is its ASCII
/// lowercase (as `str::to_lowercase` gives it).
proof fn lemma_rule_ground_ascii(nl: Seq<char>, sig: SignatureView)
    requires
        is_ascii_chars(nl),
        lowercase(nl) == ascii_lowercase(nl),
    ensures
        rule_ground(nl, sig) is Some,
{
    lemma_candidates_ascii(nl, sig, 0);
}

} // verus!
