//! OpenSpec markdown parser: parse tasks.md into a Signature.
//!
//! Reads the checklist items of tasks.md (`- [ ] 1.1 Create project`) and
//! makes each task a constant of the signature, with aliases derived from its
//! description.
pub mod helpers;

use vstd::prelude::*;

use crate::order::{insert_sorted, sort_by, strict_order};
use crate::parse::helpers::{
    find_child, find_child_spec, node_text, node_text_spec, ranges_within, MdNode,
};
use crate::text::{
    chars_equal, chars_of, chars_of_string, copy_string, find, join, join_chars, lowercase,
    slice_chars, split_whitespace, string_of, to_lowercase, trim, trim_chars, words,
};
use crate::types::{
    strings_view, ArgSlot, ArgSlotView, ConstantDef, ConstantView, PredicateDef, PredicateView,
    Signature, SignatureView, TypeDef,
};

verus! {

// ── Task identifiers ──

/// An ASCII decimal digit.
pub open spec fn is_digit(c: char) -> bool {
    '0' <= c && c <= '9'
}

/// A character of a task identifier run: a digit or a dot.
pub open spec fn is_id_char(c: char) -> bool {
    is_digit(c) || c == '.'
}

/// All characters are ASCII digits.
pub open spec fn all_digits(s: Seq<char>) -> bool {
    forall|i: int| 0 <= i < s.len() ==> is_digit(#[trigger] s[i])
}

/// The bare `N.M` form: the text before the first space is digits, one dot,
/// digits (both parts non-empty). Gives that leading word.
pub open spec fn bare_task_id(text: Seq<char>) -> Option<Seq<char>> {
    match find(text, seq![' ']) {
        None => None,
        Some(sp) => {
            let cand = text.take(sp);
            match find(cand, seq!['.']) {
                None => None,
                Some(d) => {
                    let left = cand.take(d);
                    let right = cand.skip(d + 1);
                    if left.len() > 0 && right.len() > 0 && all_digits(left) && all_digits(right) {
                        Some(cand)
                    } else {
                        None
                    }
                },
            }
        },
    }
}

/// The end of the run of digits and dots of `s` that starts at `k`.
pub open spec fn run_end(s: Seq<char>, k: int) -> int
    decreases s.len() - k,
{
    if 0 <= k < s.len() && is_id_char(s[k]) {
        run_end(s, k + 1)
    } else {
        k
    }
}

/// The start of the first non-empty run of digits and dots, at or after `k`,
/// that directly follows a `T` (as in `T1.3` or `(T1.3)`).
pub open spec fn tagged_start(s: Seq<char>, k: int) -> Option<int>
    decreases s.len() - k,
{
    if k < 0 || k >= s.len() {
        None
    } else if s[k] == 'T' && run_end(s, k + 1) > k + 1 {
        Some(k + 1)
    } else {
        tagged_start(s, k + 1)
    }
}

/// The task id and description found in a checklist item's text:
/// `"1.3 Add dependencies"` gives `("1.3", "1.3 Add dependencies")`;
/// otherwise the first `T`-tagged run `"T1.3 ..."` gives `("1.3", "1.3")`;
/// otherwise both are empty.
pub open spec fn task_id_of(text: Seq<char>) -> (Seq<char>, Seq<char>) {
    match bare_task_id(text) {
        Some(c) => (c, text),
        None => match tagged_start(text, 0) {
            Some(st) => {
                let id = text.subrange(st, run_end(text, st));
                (id, id)
            },
            None => (seq![], seq![]),
        },
    }
}

/// Whether a character is an ASCII digit.
fn is_ascii_digit(c: char) -> (b: bool)
    ensures
        b == is_digit(c),
{
    '0' <= c && c <= '9'
}

/// Whether all characters of `v[lo..hi]` are ASCII digits.
fn digits_only(v: &Vec<char>, lo: usize, hi: usize) -> (b: bool)
    requires
        lo <= hi <= v.len(),
    ensures
        b == all_digits(v@.subrange(lo as int, hi as int)),
{
    let mut i: usize = lo;
    while i < hi
        invariant
            lo <= i <= hi <= v.len(),
            forall|j: int| lo <= j < i ==> is_digit(#[trigger] v@[j]),
        decreases hi - i,
    {
        if !is_ascii_digit(v[i]) {
            assert(v@.subrange(lo as int, hi as int)[i - lo] == v@[i as int]);
            return false;
        }
        i = i + 1;
    }
    assert forall|j: int| 0 <= j < hi - lo implies is_digit(
        #[trigger] v@.subrange(lo as int, hi as int)[j],
    ) by {
        assert(v@.subrange(lo as int, hi as int)[j] == v@[lo + j]);
    }
    true
}

/// The first index of `c` in `v[..hi]`.
fn find_char(v: &Vec<char>, hi: usize, c: char) -> (r: Option<usize>)
    requires
        hi <= v.len(),
    ensures
        match r {
            Some(i) => find(v@.take(hi as int), seq![c]) == Some(i as int),
            None => find(v@.take(hi as int), seq![c]) is None,
        },
{
    let ghost s = v@.take(hi as int);
    let mut i: usize = 0;
    while i < hi
        invariant
            i <= hi <= v.len(),
            s == v@.take(hi as int),
            crate::text::find_from(s, seq![c], 0) == crate::text::find_from(
                s,
                seq![c],
                i as int,
            ),
        decreases hi - i,
    {
        assert(s.subrange(i as int, i + 1) =~= seq![s[i as int]]);
        proof {
            if s[i as int] == c {
                assert(seq![s[i as int]] =~= seq![c]);
            } else {
                assert(seq![s[i as int]][0] != seq![c][0]);
            }
        }
        if v[i] == c {
            return Some(i);
        }
        i = i + 1;
    }
    None
}

/// Extract task ID from a checklist item text.
/// "1.3 Add dependencies" → ("1.3", "1.3 Add dependencies");
/// "T1.3 SHALL..." → ("1.3", "1.3").
pub fn extract_task_id(text: &str) -> (r: (String, String))
    ensures
        (r.0@, r.1@) == task_id_of(text@),
{
    let v = chars_of(text);
    // Try N.M pattern first (bare, no T prefix — checklist items)
    assert(v@.take(v.len() as int) == v@);
    proof {
        crate::text::lemma_find(v@, seq![' ']);
    }
    match find_char(&v, v.len(), ' ') {
        Some(sp) => {
            let dot = find_char(&v, sp, '.');
            assert(v@.take(sp as int).take(sp as int) == v@.take(sp as int));
            match dot {
                Some(d) => {
                    proof {
                        crate::text::lemma_find(v@.take(sp as int), seq!['.']);
                        crate::text::lemma_find(v@, seq![' ']);
                    }
                    assert(v@.take(sp as int).take(d as int) == v@.subrange(0, d as int));
                    assert(v@.take(sp as int).skip(d + 1) == v@.subrange(d + 1, sp as int));
                    if d > 0 && d + 1 < sp && digits_only(&v, 0, d) && digits_only(
                        &v,
                        d + 1,
                        sp,
                    ) {
                        let cand = slice_chars(&v, 0, sp);
                        assert(cand@ == v@.take(sp as int));
                        return (string_of(&cand), string_of(&v));
                    }
                },
                None => {},
            }
        },
        None => {
            assert(v@.take(v.len() as int) == v@);
        },
    }
    // Try T-prefixed: "T1.3" → id="1.3" (also "(T1.3)")
    let mut k: usize = 0;
    while k < v.len()
        invariant
            k <= v.len(),
            v@ == text@,
            bare_task_id(v@) is None,
            tagged_start(v@, 0) == tagged_start(v@, k as int),
        decreases v.len() - k,
    {
        if v[k] == 'T' {
            let start = k + 1;
            let mut end: usize = start;
            while end < v.len() && (is_ascii_digit(v[end]) || v[end] == '.')
                invariant
                    k < v.len(),
                    start == k + 1,
                    v@ == text@,
                    v@[k as int] == 'T',
                    bare_task_id(v@) is None,
                    tagged_start(v@, 0) == tagged_start(v@, k as int),
                    start <= end <= v.len(),
                    run_end(v@, start as int) == run_end(v@, end as int),
                decreases v.len() - end,
            {
                end = end + 1;
            }
            assert(run_end(v@, end as int) == end);
            if end > start {
                assert(tagged_start(v@, k as int) == Some(start as int));
                let id = slice_chars(&v, start, end);
                assert(bare_task_id(text@) is None);
                assert(tagged_start(text@, 0) == Some(start as int));
                assert(run_end(text@, start as int) == end as int);
                assert(id@ == text@.subrange(start as int, end as int));
                assert(task_id_of(text@) == (id@, id@));
                let a = string_of(&id);
                let b = string_of(&id);
                return (a, b);
            }
        }
        k = k + 1;
    }
    (String::new(), String::new())
}

// ── Aliases ──

/// The length in bytes of the UTF-8 encoding (`str::len`).
pub open spec fn utf8_len(s: Seq<char>) -> nat {
    vstd::utf8::encode_utf8(s).len()
}

/// Adds `w` when it is longer than 4 bytes and not yet present.
pub open spec fn significant_step(acc: Seq<Seq<char>>, w: Seq<char>) -> Seq<Seq<char>> {
    if utf8_len(w) > 4 && !acc.contains(w) {
        acc.push(w)
    } else {
        acc
    }
}

/// Adds the significant words of `ws`, in order, each once.
pub open spec fn add_significant(acc: Seq<Seq<char>>, ws: Seq<Seq<char>>) -> Seq<Seq<char>>
    decreases ws.len(),
{
    if ws.len() == 0 {
        acc
    } else {
        add_significant(significant_step(acc, ws[0]), ws.drop_first())
    }
}

/// The aliases of a task: its description lowercased; its first 3 and first 5
/// words when it has more; each word longer than 4 bytes not already listed;
/// and the task id.
pub open spec fn aliases_of(id: Seq<char>, desc: Seq<char>) -> Seq<Seq<char>> {
    let lower = lowercase(desc);
    let ws = words(lower);
    let a1 = seq![lower];
    let a2 = if ws.len() > 3 {
        a1.push(join(ws.take(3), " "@))
    } else {
        a1
    };
    let a3 = if ws.len() > 5 {
        a2.push(join(ws.take(5), " "@))
    } else {
        a2
    };
    add_significant(a3, ws).push(id)
}

/// The number of bytes of the UTF-8 encoding of `v`.
fn utf8_len_of(v: &Vec<char>) -> (n: usize)
    ensures
        n == utf8_len(v@),
{
    let s = string_of(v);
    s.as_str().as_bytes().len()
}

/// Whether `w` is one of the strings of `v`.
fn contains_string(v: &Vec<String>, w: &Vec<char>) -> (b: bool)
    ensures
        b == strings_view(v@).contains(w@),
{
    let mut i: usize = 0;
    while i < v.len()
        invariant
            i <= v.len(),
            forall|j: int| 0 <= j < i ==> strings_view(v@)[j] != w@,
        decreases v.len() - i,
    {
        let c = chars_of_string(&v[i]);
        if chars_equal(&c, w) {
            assert(strings_view(v@)[i as int] == w@);
            return true;
        }
        i = i + 1;
    }
    false
}

/// Build alias list from task description: the description lowercased, its
/// first three and first five words when it has more, each word of more than
/// four bytes not yet listed, and the task id.
/// E.g. "Create Rust project with Cargo" → ["create rust project with cargo",
/// "create rust project", "create", "project", "cargo", id]; other phrases,
/// and short words such as "rust", are no aliases.
pub fn build_aliases(id: &str, desc: &str) -> (aliases: Vec<String>)
    ensures
        strings_view(aliases@) == aliases_of(id@, desc@),
{
    let lower = to_lowercase(desc);
    let lc = chars_of_string(&lower);
    let mut aliases: Vec<String> = Vec::new();
    aliases.push(copy_string(&lower));
    let ws = split_whitespace(&lc);
    let ghost wv = ws@.map_values(|w: Vec<char>| w@);
    let ghost a1 = seq![lower@];
    assert(strings_view(aliases@) =~= a1);
    if ws.len() > 3 {
        let j = join_chars(&ws, 3, " ");
        let js = string_of(&j);
        aliases.push(js);
    }
    let ghost a2 = strings_view(aliases@);
    if ws.len() > 5 {
        let j = join_chars(&ws, 5, " ");
        let js = string_of(&j);
        aliases.push(js);
    }
    let ghost a3 = strings_view(aliases@);
    assert(a3 == if wv.len() > 5 {
        (if wv.len() > 3 {
            a1.push(join(wv.take(3), " "@))
        } else {
            a1
        }).push(join(wv.take(5), " "@))
    } else {
        if wv.len() > 3 {
            a1.push(join(wv.take(3), " "@))
        } else {
            a1
        }
    });
    assert(wv.skip(0) == wv);
    for i in 0..ws.len()
        invariant
            wv == ws@.map_values(|w: Vec<char>| w@),
            add_significant(a3, wv) == add_significant(strings_view(aliases@), wv.skip(i as int)),
    {
        let w = &ws[i];
        assert(wv.skip(i as int).drop_first() == wv.skip(i + 1));
        assert(wv.skip(i as int)[0] == w@);
        if utf8_len_of(w) > 4 && !contains_string(&aliases, w) {
            let ghost before = strings_view(aliases@);
            aliases.push(string_of(w));
            assert(strings_view(aliases@) =~= before.push(w@));
        }
    }
    let ghost a4 = strings_view(aliases@);
    aliases.push(String::from_str(id));
    assert(strings_view(aliases@) =~= a4.push(id@));
    aliases
}

// ── Signature ──

/// An argument slot of sort `task_id`.
pub open spec fn task_slot(name: Seq<char>) -> ArgSlotView {
    ArgSlotView { name, sort_name: "task_id"@ }
}

/// A predicate over two tasks.
pub open spec fn binary_predicate(name: Seq<char>, a: Seq<char>, b: Seq<char>) -> PredicateView {
    PredicateView { name, arguments: seq![task_slot(a), task_slot(b)] }
}

/// The six predicates that every plan signature has.
pub open spec fn plan_predicates() -> Seq<PredicateView> {
    seq![
        binary_predicate("BEFORE"@, "earlier"@, "later"@),
        binary_predicate("AFTER"@, "earlier"@, "later"@),
        binary_predicate("CONCURRENTLY"@, "a"@, "b"@),
        binary_predicate("IF_THEN"@, "trigger"@, "consequent"@),
        PredicateView { name: "ALWAYS"@, arguments: seq![task_slot("target"@)] },
        binary_predicate("AT_MOST_ONE"@, "a"@, "b"@),
    ]
}

/// The two sorts of every plan signature.
pub open spec fn plan_types() -> Seq<Seq<char>> {
    seq!["task_id"@, "phase_name"@]
}

/// The description of a task without its leading id: a checklist text
/// `N.M rest` gives `rest`, trimmed; any other text stays as it is.
pub open spec fn task_description(id: Seq<char>, desc: Seq<char>) -> Seq<char> {
    if crate::text::starts_with(desc, id.push(' ')) {
        trim(desc.skip(id.len() as int))
    } else {
        desc
    }
}

/// The constant of a task `(id, description)`: named `T<id>`, of sort
/// `task_id`, with the aliases of `aliases_of` for the description without
/// its leading id.
pub open spec fn constant_of(t: (Seq<char>, Seq<char>)) -> ConstantView {
    ConstantView {
        name: seq!['T'] + t.0,
        sort_name: "task_id"@,
        aliases: aliases_of(t.0, task_description(t.0, t.1)),
    }
}

/// The description of a task without its leading id.
fn task_description_exec(id: &str, desc: &str) -> (r: String)
    ensures
        r@ == task_description(id@, desc@),
{
    let d = chars_of(desc);
    let mut prefix = chars_of(id);
    let n = prefix.len();
    prefix.push(' ');
    if crate::text::chars_occur_at(&d, &prefix, 0) {
        let rest = slice_chars(&d, n, d.len());
        assert(rest@ == desc@.skip(n as int));
        string_of(&trim_chars(&rest))
    } else {
        string_of(&d)
    }
}

/// Orders constants by name.
pub open spec fn by_name() -> spec_fn(ConstantView, ConstantView) -> bool {
    |a: ConstantView, b: ConstantView| crate::text::lex_lt(a.name, b.name)
}

/// The signature of a plan with the given tasks: the fixed sorts and
/// predicates, and one constant per task, stably sorted by name.
pub open spec fn signature_of_tasks(tasks: Seq<(Seq<char>, Seq<char>)>) -> SignatureView {
    SignatureView {
        types: plan_types(),
        predicates: plan_predicates(),
        constants: sort_by(
            tasks.map_values(|t: (Seq<char>, Seq<char>)| constant_of(t)),
            by_name(),
        ),
    }
}

/// The (id, description) pairs of a list of parsed tasks (id, description, phase).
pub open spec fn task_pairs(tasks: Seq<(String, String, String)>) -> Seq<(Seq<char>, Seq<char>)> {
    tasks.map_values(|t: (String, String, String)| (t.0@, t.1@))
}

fn task_slot_exec(name: &str) -> (a: ArgSlot)
    ensures
        a@ == task_slot(name@),
{
    ArgSlot { name: String::from_str(name), sort_name: String::from_str("task_id") }
}

fn binary_predicate_exec(name: &str, a: &str, b: &str) -> (p: PredicateDef)
    ensures
        p@ == binary_predicate(name@, a@, b@),
{
    let args = vec![task_slot_exec(a), task_slot_exec(b)];
    let p = PredicateDef { name: String::from_str(name), arguments: args };
    assert(p@.arguments =~= seq![task_slot(a@), task_slot(b@)]);
    p
}

fn unary_predicate_exec(name: &str, a: &str) -> (p: PredicateDef)
    ensures
        p@ == (PredicateView { name: name@, arguments: seq![task_slot(a@)] }),
{
    let args = vec![task_slot_exec(a)];
    let p = PredicateDef { name: String::from_str(name), arguments: args };
    assert(p@.arguments =~= seq![task_slot(a@)]);
    p
}

/// Inserts a constant into a list sorted by name, after all constants whose
/// name is not greater.
fn insert_by_name(sorted: &mut Vec<ConstantDef>, x: ConstantDef)
    ensures
        final(sorted)@.map_values(|c: ConstantDef| c@) == insert_sorted(
            old(sorted)@.map_values(|c: ConstantDef| c@),
            x@,
            by_name(),
        ),
{
    let ghost sv = sorted@.map_values(|c: ConstantDef| c@);
    let xn = chars_of_string(&x.name);
    let mut j: usize = 0;
    while j < sorted.len() && !crate::text::lex_less(&xn, &chars_of_string(&sorted[j].name))
        invariant
            j <= sorted.len(),
            xn@ == x.name@,
            sv == sorted@.map_values(|c: ConstantDef| c@),
            forall|i: int| 0 <= i < j ==> !(by_name())(x@, #[trigger] sv[i]),
        decreases sorted.len() - j,
    {
        j = j + 1;
    }
    proof {
        crate::order::lemma_insert_sorted(sv, x@, by_name(), j as int);
    }
    let ghost xv = x@;
    sorted.insert(j, x);
    assert(sorted@.map_values(|c: ConstantDef| c@) =~= sv.insert(j as int, xv));
}

/// Build a Signature from parsed tasks (id, description, phase) and phases.
pub fn build_signature(tasks: Vec<(String, String, String)>, _phases: Vec<String>) -> (sig:
    Signature)
    ensures
        sig@ == signature_of_tasks(task_pairs(tasks@)),
{
    let types = vec![
        TypeDef { name: String::from_str("task_id") },
        TypeDef { name: String::from_str("phase_name") },
    ];
    let predicates = vec![
        binary_predicate_exec("BEFORE", "earlier", "later"),
        binary_predicate_exec("AFTER", "earlier", "later"),
        binary_predicate_exec("CONCURRENTLY", "a", "b"),
        binary_predicate_exec("IF_THEN", "trigger", "consequent"),
        unary_predicate_exec("ALWAYS", "target"),
        binary_predicate_exec("AT_MOST_ONE", "a", "b"),
    ];
    let ghost pv = task_pairs(tasks@);
    let ghost cv = pv.map_values(|t: (Seq<char>, Seq<char>)| constant_of(t));
    let mut constants: Vec<ConstantDef> = Vec::new();
    proof {
        reveal_strlit("T");
    }
    for i in 0..tasks.len()
        invariant
            pv == task_pairs(tasks@),
            cv == pv.map_values(|t: (Seq<char>, Seq<char>)| constant_of(t)),
            constants@.map_values(|c: ConstantDef| c@) == sort_by(cv.take(i as int), by_name()),
    {
        proof {
            reveal_strlit("T");
        }
        let id = tasks[i].0.as_str();
        let desc = tasks[i].1.as_str();
        let mut name = String::from_str("T");
        name.append(id);
        let described = task_description_exec(id, desc);
        let aliases = build_aliases(id, described.as_str());
        let c = ConstantDef { name, sort_name: String::from_str("task_id"), aliases };
        assert(pv[i as int] == (tasks@[i as int].0@, tasks@[i as int].1@));
        assert(id@ == tasks@[i as int].0@);
        assert(c@.name == seq!['T'] + pv[i as int].0);
        assert(c@.aliases == aliases_of(pv[i as int].0, task_description(pv[i as int].0, pv[i as int].1)));
        assert(c@.sort_name == "task_id"@);
        assert(c@ == cv[i as int]);
        assert(cv.take(i + 1).drop_last() == cv.take(i as int));
        insert_by_name(&mut constants, c);
    }
    assert(cv.take(tasks.len() as int) == cv);
    let sig = Signature { types, predicates, constants };
    assert(sig@.types =~= plan_types());
    assert(sig@.predicates =~= plan_predicates());
    sig
}

// ── Reading the tree ──

/// The task of node `i`, if it is a checklist item (`- [ ]` or `- [x]`) whose
/// paragraph text, trimmed, holds a task id.
pub open spec fn task_at(o: Seq<MdNode>, sb: Seq<u8>, i: int) -> Option<(Seq<char>, Seq<char>)> {
    if o[i].kind@ == "list_item"@ && (find_child_spec(o, i, "task_list_marker_unchecked"@) is Some
        || find_child_spec(o, i, "task_list_marker_checked"@) is Some) {
        match find_child_spec(o, i, "paragraph"@) {
            Some(p) => match node_text_spec(o[p], sb) {
                Some(t) => {
                    let r = task_id_of(trim(t));
                    if r.0.len() > 0 {
                        Some(r)
                    } else {
                        None
                    }
                },
                None => None,
            },
            None => None,
        }
    } else {
        None
    }
}

/// The tasks of the first `n` nodes, in pre-order.
pub open spec fn tasks_upto(o: Seq<MdNode>, sb: Seq<u8>, n: int) -> Seq<(Seq<char>, Seq<char>)>
    decreases n,
{
    if n <= 0 {
        seq![]
    } else {
        let r = tasks_upto(o, sb, n - 1);
        match task_at(o, sb, n - 1) {
            Some(t) => r.push(t),
            None => r,
        }
    }
}

/// The tasks of a syntax tree of `source`, in document order.
pub open spec fn tasks_in(o: Seq<MdNode>, source: Seq<char>) -> Seq<(Seq<char>, Seq<char>)> {
    tasks_upto(o, vstd::utf8::encode_utf8(source), o.len() as int)
}

/// Whether a node is of the given kind.
fn kind_is(node: &MdNode, kind: &str) -> (b: bool)
    ensures
        b == (node.kind@ == kind@),
{
    let a = chars_of_string(&node.kind);
    let k = chars_of(kind);
    chars_equal(&a, &k)
}

/// `s` without its leading `#` characters.
pub open spec fn strip_hashes(s: Seq<char>) -> Seq<char>
    decreases s.len(),
{
    if s.len() > 0 && s[0] == '#' {
        strip_hashes(s.drop_first())
    } else {
        s
    }
}

/// `v` without its leading `#` characters.
fn strip_hashes_exec(v: &Vec<char>) -> (r: Vec<char>)
    ensures
        r@ == strip_hashes(v@),
{
    let mut i: usize = 0;
    assert(v@.skip(0) == v@);
    while i < v.len() && v[i] == '#'
        invariant
            i <= v.len(),
            strip_hashes(v@) == strip_hashes(v@.skip(i as int)),
        decreases v.len() - i,
    {
        assert(v@.skip(i as int).drop_first() == v@.skip(i + 1));
        i = i + 1;
    }
    assert(v@.skip(i as int) == v@.subrange(i as int, v.len() as int));
    slice_chars(v, i, v.len())
}

/// The ASCII digits of `s`, in order.
pub open spec fn digits_in(s: Seq<char>) -> Seq<char>
    decreases s.len(),
{
    if s.len() == 0 {
        seq![]
    } else if is_digit(s.last()) {
        digits_in(s.drop_last()).push(s.last())
    } else {
        digits_in(s.drop_last())
    }
}

/// `s.parse::<usize>()` for a string of digits: its value when there is at
/// least one digit and the value fits.
pub open spec fn parse_usize(s: Seq<char>) -> Option<nat> {
    if s.len() > 0 && all_digits(s) && crate::text::digits_value(s) <= usize::MAX {
        Some(crate::text::digits_value(s))
    } else {
        None
    }
}

/// The value of a prefix of a digit string is at most the value of the string.
proof fn lemma_digits_value_prefix(s: Seq<char>, i: int)
    requires
        0 <= i <= s.len(),
        all_digits(s),
    ensures
        crate::text::digits_value(s.take(i)) <= crate::text::digits_value(s),
    decreases s.len() - i,
{
    if i < s.len() {
        lemma_digits_value_prefix(s, i + 1);
        assert(s.take(i + 1).drop_last() == s.take(i));
        assert(is_digit(s[i]));
    } else {
        assert(s.take(i) == s);
    }
}

/// The value of a non-empty string of digits, when it fits in `usize`.
fn parse_digits(v: &Vec<char>) -> (r: Option<usize>)
    requires
        all_digits(v@),
    ensures
        match r {
            Some(n) => parse_usize(v@) == Some(n as nat),
            None => parse_usize(v@) is None,
        },
{
    if v.len() == 0 {
        return None;
    }
    let mut acc: usize = 0;
    let mut i: usize = 0;
    assert(v@.take(0) == Seq::<char>::empty());
    while i < v.len()
        invariant
            i <= v.len(),
            all_digits(v@),
            acc == crate::text::digits_value(v@.take(i as int)),
        decreases v.len() - i,
    {
        assert(v@.take(i + 1).drop_last() == v@.take(i as int));
        assert(is_digit(v@[i as int]));
        let d = (v[i] as u32 - '0' as u32) as usize;
        let next = match acc.checked_mul(10) {
            Some(m) => m.checked_add(d),
            None => None,
        };
        match next {
            Some(n) => {
                acc = n;
            },
            None => {
                proof {
                    lemma_digits_value_prefix(v@, i + 1);
                }
                return None;
            },
        }
        i = i + 1;
    }
    assert(v@.take(v.len() as int) == v@);
    Some(acc)
}

/// The digits of `v`, in order.
fn digits_in_exec(v: &Vec<char>) -> (r: Vec<char>)
    ensures
        r@ == digits_in(v@),
        all_digits(r@),
{
    let mut r: Vec<char> = Vec::new();
    for i in 0..v.len()
        invariant
            r@ == digits_in(v@.take(i as int)),
            all_digits(r@),
    {
        assert(v@.take(i + 1).drop_last() == v@.take(i as int));
        if is_ascii_digit(v[i]) {
            r.push(v[i]);
        }
    }
    assert(v@.take(v.len() as int) == v@);
    r
}

/// The heading level of node `i`: the number in the kind of its first child
/// when that kind starts with `atx_h` (as in `atx_h2_marker`), else 0.
pub open spec fn heading_level(o: Seq<MdNode>, i: int) -> nat {
    if i + 1 < o.len() && o[i + 1].depth == o[i].depth + 1 && crate::text::starts_with(
        o[i + 1].kind@,
        "atx_h"@,
    ) {
        match parse_usize(digits_in(o[i + 1].kind@)) {
            Some(n) => n,
            None => 0,
        }
    } else {
        0
    }
}

fn heading_level_exec(o: &Vec<MdNode>, i: usize) -> (n: usize)
    requires
        i < o.len(),
    ensures
        n == heading_level(o@, i as int),
{
    if i + 1 < o.len() && o[i + 1].depth > o[i].depth && o[i + 1].depth - o[i].depth == 1 {
        let kc = chars_of_string(&o[i + 1].kind);
        if crate::text::starts_with_str(&kc, "atx_h") {
            let ds = digits_in_exec(&kc);
            return match parse_digits(&ds) {
                Some(n) => n,
                None => 0,
            };
        }
    }
    0
}

/// The title of node `i` when it is a level-2 heading with a non-empty title:
/// its text trimmed, its leading `#` characters removed, trimmed again.
pub open spec fn phase_at(o: Seq<MdNode>, sb: Seq<u8>, i: int) -> Option<Seq<char>> {
    if o[i].kind@ == "atx_heading"@ {
        match node_text_spec(o[i], sb) {
            Some(t) => {
                let title = trim(strip_hashes(trim(t)));
                if title.len() > 0 && heading_level(o, i) == 2 {
                    Some(title)
                } else {
                    None
                }
            },
            None => None,
        }
    } else {
        None
    }
}

/// The phase titles among the first `n` nodes, in pre-order.
pub open spec fn phases_upto(o: Seq<MdNode>, sb: Seq<u8>, n: int) -> Seq<Seq<char>>
    decreases n,
{
    if n <= 0 {
        seq![]
    } else {
        let r = phases_upto(o, sb, n - 1);
        match phase_at(o, sb, n - 1) {
            Some(p) => r.push(p),
            None => r,
        }
    }
}

/// The phase in force after the first `n` nodes: the last phase title, or
/// nothing before the first.
pub open spec fn phase_after(o: Seq<MdNode>, sb: Seq<u8>, n: int) -> Seq<char> {
    let ps = phases_upto(o, sb, n);
    if ps.len() > 0 {
        ps.last()
    } else {
        seq![]
    }
}

/// The tasks of the first `n` nodes, each with the phase in force where it
/// stands.
pub open spec fn phased_tasks_upto(o: Seq<MdNode>, sb: Seq<u8>, n: int) -> Seq<
    (Seq<char>, Seq<char>, Seq<char>),
>
    decreases n,
{
    if n <= 0 {
        seq![]
    } else {
        let r = phased_tasks_upto(o, sb, n - 1);
        match task_at(o, sb, n - 1) {
            Some(t) => r.push((t.0, t.1, phase_after(o, sb, n - 1))),
            None => r,
        }
    }
}

/// The parsed tasks as triples of character sequences.
pub open spec fn task_triples(tasks: Seq<(String, String, String)>) -> Seq<
    (Seq<char>, Seq<char>, Seq<char>),
> {
    tasks.map_values(|t: (String, String, String)| (t.0@, t.1@, t.2@))
}

/// Visits the nodes of the tree in pre-order: level-2 headings open a phase,
/// checklist items with a task id become tasks of the current phase.
fn explore_tree(outline: &Vec<MdNode>, bytes: &[u8]) -> (r: (Vec<(String, String, String)>, Vec<String>))
    requires
        ranges_within(outline@, bytes@.len()),
    ensures
        task_pairs(r.0@) == tasks_upto(outline@, bytes@, outline@.len() as int),
        task_triples(r.0@) == phased_tasks_upto(outline@, bytes@, outline@.len() as int),
        strings_view(r.1@) == phases_upto(outline@, bytes@, outline@.len() as int),
{
    let mut tasks: Vec<(String, String, String)> = Vec::new();
    let mut phases: Vec<String> = Vec::new();
    let mut current_phase = String::new();
    for i in 0..outline.len()
        invariant
            ranges_within(outline@, bytes@.len()),
            task_pairs(tasks@) == tasks_upto(outline@, bytes@, i as int),
            task_triples(tasks@) == phased_tasks_upto(outline@, bytes@, i as int),
            strings_view(phases@) == phases_upto(outline@, bytes@, i as int),
            current_phase@ == phase_after(outline@, bytes@, i as int),
    {
        let node = &outline[i];
        assert(node.start_byte <= node.end_byte <= bytes@.len());
        proof {
            reveal_strlit("atx_heading");
            reveal_strlit("list_item");
        }
        if kind_is(node, "atx_heading") {
            assert("atx_heading"@.len() != "list_item"@.len());
            assert(task_at(outline@, bytes@, i as int) is None);
            let ghost before = strings_view(phases@);
            if let Ok(text) = node_text(node, bytes) {
                let t1 = trim_chars(&chars_of(text));
                let t2 = strip_hashes_exec(&t1);
                let trimmed = trim_chars(&t2);
                if trimmed.len() > 0 {
                    let level = heading_level_exec(outline, i);
                    if level == 2 {
                        current_phase = string_of(&trimmed);
                        phases.push(copy_string(&current_phase));
                        assert(strings_view(phases@) =~= before.push(current_phase@));
                    }
                }
            }
        } else if kind_is(node, "list_item") {
            let checked = find_child(outline, i, "task_list_marker_unchecked").is_some()
                || find_child(outline, i, "task_list_marker_checked").is_some();
            let mut found: Option<(String, String)> = None;
            if checked {
                if let Some(p) = find_child(outline, i, "paragraph") {
                    assert(outline@[p as int].start_byte <= outline@[p as int].end_byte
                        <= bytes@.len());
                    if let Ok(text) = node_text(&outline[p], bytes) {
                        let t = trim_chars(&chars_of(text));
                        let ts = string_of(&t);
                        let (id, desc) = extract_task_id(ts.as_str());
                        if id.as_str().as_bytes().len() > 0 {
                            found = Some((id, desc));
                        } else {
                            assert(id@.len() == 0) by {
                                if id@.len() > 0 {
                                    assert(vstd::utf8::encode_utf8(id@).len() > 0);
                                }
                            }
                        }
                    }
                }
            }
            assert(phase_at(outline@, bytes@, i as int) is None);
            match found {
                Some((id, desc)) => {
                    let ghost before = task_pairs(tasks@);
                    let ghost before3 = task_triples(tasks@);
                    let phase = copy_string(&current_phase);
                    let ghost entry = (id@, desc@, phase@);
                    tasks.push((id, desc, phase));
                    assert(task_pairs(tasks@) =~= before.push((entry.0, entry.1)));
                    assert(task_triples(tasks@) =~= before3.push(entry));
                },
                None => {},
            }
        } else {
            assert(phase_at(outline@, bytes@, i as int) is None);
            assert(task_at(outline@, bytes@, i as int) is None);
        }
    }
    (tasks, phases)
}

/// The signature of a Markdown tasks file, given the pre-order list of its
/// syntax tree's nodes.
pub fn signature_from_outline(source: &str, outline: &Vec<MdNode>) -> (sig: Signature)
    requires
        ranges_within(outline@, vstd::utf8::encode_utf8(source@).len()),
    ensures
        sig@ == signature_of_tasks(tasks_in(outline@, source@)),
{
    let bytes = source.as_bytes();
    let (tasks, phases) = explore_tree(outline, bytes);
    build_signature(tasks, phases)
}

// ── Parsing with tree-sitter ──

/// Why a tasks file could not be read.
#[derive(Debug, Clone, Copy, PartialEq, Eq, Structural)]
pub enum SignatureError {
    /// The Markdown grammar could not be loaded into the parser.
    Grammar,
    /// The parser produced no tree.
    Parse,
}

/// The pre-order list of the nodes of the syntax tree that tree-sitter's
/// Markdown block grammar gives `source`.
pub uninterp spec fn markdown_outline(source: Seq<char>) -> Seq<MdNode>;

/// Parses `source` with tree-sitter (`Parser::new`, `Parser::set_language`
/// with `tree_sitter_md::LANGUAGE`, `Parser::parse`) and lists the nodes of the
/// tree in pre-order (`TreeCursor::goto_descendant` for each index below the
/// root's `Node::descendant_count`), each with its kind, byte range and depth
/// (`TreeCursor::depth`). The contract names that list
/// `markdown_outline(source@)` and claims that every node's byte range lies
/// within the parsed text, and that the result is `Ok` on every input: in the
/// tree-sitter source, `set_language` fails only for a grammar whose ABI
/// version lies outside 13..=15 or that has no lexer (the Markdown block
/// grammar of tree-sitter-md has version 15 and a lexer), and `parse` without
/// options gives no tree only when no language is set (or, for a WebAssembly
/// grammar, on a store error). The `Grammar` and `Parse` branches are kept for
/// those cases.
#[verifier::external_body]
fn parse_markdown_outline(source: &str) -> (r: Result<Vec<MdNode>, SignatureError>)
    ensures
        r is Ok,
        r matches Ok(v) ==> v@ == markdown_outline(source@) && ranges_within(
            v@,
            vstd::utf8::encode_utf8(source@).len(),
        ),
{
    let mut parser = tree_sitter::Parser::new();
    if parser.set_language(&tree_sitter_md::LANGUAGE.into()).is_err() {
        return Err(SignatureError::Grammar);
    }
    let Some(tree) = parser.parse(source, None) else { return Err(SignatureError::Parse) };
    let mut cursor = tree.walk();
    let mut out = Vec::new();
    for i in 0..tree.root_node().descendant_count() {
        cursor.goto_descendant(i);
        let n = cursor.node();
        out.push(MdNode { kind: n.kind().to_string(), start_byte: n.start_byte(), end_byte: n.end_byte(), depth: cursor.depth() as usize });
    }
    Ok(out)
}

/// Parse tasks.md into a Signature. Every text parses: the result is always
/// `Ok`, with the signature of the checklist tasks of its syntax tree.
pub fn signature_from_tasks(source: &str) -> (r: Result<Signature, SignatureError>)
    ensures
        r is Ok,
        r matches Ok(sig) ==> sig@ == signature_of_tasks(
            tasks_in(markdown_outline(source@), source@),
        ),
{
    let outline = parse_markdown_outline(source)?;
    Ok(signature_from_outline(source, &outline))
}

// ── Laws of tasks and signatures ──

/// A run of digits and dots holds only digits and dots.
proof fn lemma_run_end(s: Seq<char>, k: int)
    requires
        0 <= k,
    ensures
        k <= run_end(s, k) <= if k <= s.len() { s.len() as int } else { k },
        forall|i: int| k <= i < run_end(s, k) ==> is_id_char(#[trigger] s[i]),
    decreases s.len() - k,
{
    if 0 <= k < s.len() && is_id_char(s[k]) {
        lemma_run_end(s, k + 1);
    }
}

/// Where `tagged_start` finds a run, the run is non-empty.
proof fn lemma_tagged_start(s: Seq<char>, k: int)
    requires
        0 <= k,
    ensures
        tagged_start(s, k) matches Some(st) ==> 1 <= st < s.len() && run_end(s, st) > st,
    decreases s.len() - k,
{
    if 0 <= k < s.len() && !(s[k] == 'T' && run_end(s, k + 1) > k + 1) {
        lemma_tagged_start(s, k + 1);
    }
}

/// The task id found in a checklist item holds only digits and dots, and it
/// is empty exactly when the description is: a bare `N.M` id keeps the whole
/// text as description, a `T`-tagged id is its own description.
pub proof fn lemma_task_id_of(text: Seq<char>)
    ensures
        forall|i: int|
            0 <= i < task_id_of(text).0.len() ==> is_id_char(#[trigger] task_id_of(text).0[i]),
        (task_id_of(text).0.len() == 0) == (task_id_of(text).1.len() == 0),
        bare_task_id(text) is Some ==> task_id_of(text).1 == text,
        bare_task_id(text) is None ==> task_id_of(text).1 == task_id_of(text).0,
{
    match bare_task_id(text) {
        Some(cand) => {
            let sp = find(text, seq![' '])->0;
            let d = find(cand, seq!['.'])->0;
            crate::text::lemma_find(text, seq![' ']);
            crate::text::lemma_find(cand, seq!['.']);
            assert(cand.subrange(d, d + 1)[0] == cand[d]);
            assert(cand[d] == '.');
            assert forall|i: int| 0 <= i < cand.len() implies is_id_char(#[trigger] cand[i]) by {
                if i < d {
                    assert(cand[i] == cand.take(d)[i]);
                } else if i > d {
                    assert(cand[i] == cand.skip(d + 1)[i - d - 1]);
                }
            }
        },
        None => {
            lemma_tagged_start(text, 0);
            if let Some(st) = tagged_start(text, 0) {
                lemma_run_end(text, st);
                let id = text.subrange(st, run_end(text, st));
                assert forall|i: int| 0 <= i < id.len() implies is_id_char(#[trigger] id[i]) by {
                    assert(id[i] == text[st + i]);
                }
            }
        },
    }
}

/// Adding significant words keeps what was listed, in front.
proof fn lemma_add_significant_prefix(acc: Seq<Seq<char>>, ws: Seq<Seq<char>>)
    ensures
        add_significant(acc, ws).len() >= acc.len(),
        forall|i: int| 0 <= i < acc.len() ==> #[trigger] add_significant(acc, ws)[i] == acc[i],
    decreases ws.len(),
{
    if ws.len() > 0 {
        let next = significant_step(acc, ws[0]);
        lemma_add_significant_prefix(next, ws.drop_first());
        assert forall|i: int| 0 <= i < acc.len() implies #[trigger] add_significant(acc, ws)[i]
            == acc[i] by {
            assert(next[i] == acc[i]);
        }
    }
}

/// Adding significant words keeps every listed alias and lists every word of
/// more than four bytes.
proof fn lemma_add_significant_contains(acc: Seq<Seq<char>>, ws: Seq<Seq<char>>)
    ensures
        forall|x: Seq<char>| acc.contains(x) ==> add_significant(acc, ws).contains(x),
        forall|i: int|
            0 <= i < ws.len() && vstd::utf8::encode_utf8(#[trigger] ws[i]).len() > 4
                ==> add_significant(acc, ws).contains(ws[i]),
    decreases ws.len(),
{
    if ws.len() > 0 {
        let next = significant_step(acc, ws[0]);
        let t = ws.drop_first();
        lemma_add_significant_contains(next, t);
        assert forall|x: Seq<char>| acc.contains(x) implies next.contains(x) by {
            if next != acc {
                let j = choose|j: int| 0 <= j < acc.len() && acc[j] == x;
                assert(next[j] == x);
            }
        }
        if utf8_len(ws[0]) > 4 {
            if !acc.contains(ws[0]) {
                assert(next[next.len() - 1] == ws[0]);
            }
            assert(next.contains(ws[0]));
        }
        assert forall|i: int|
            0 <= i < ws.len() && vstd::utf8::encode_utf8(#[trigger] ws[i]).len() > 4 implies add_significant(
            acc,
            ws,
        ).contains(ws[i]) by {
            if i > 0 {
                assert(t[i - 1] == ws[i]);
            }
        }
    }
}

/// Every word of the lowercased description that is longer than four bytes
/// is an alias of the task, wherever it stands in the description; so are the
/// lowercased description itself and the task id.
pub proof fn lemma_aliases_cover_words(id: Seq<char>, desc: Seq<char>)
    ensures
        forall|i: int|
            0 <= i < words(lowercase(desc)).len() && vstd::utf8::encode_utf8(
                #[trigger] words(lowercase(desc))[i],
            ).len() > 4 ==> aliases_of(id, desc).contains(words(lowercase(desc))[i]),
        aliases_of(id, desc).contains(lowercase(desc)),
        aliases_of(id, desc).contains(id),
{
    let lower = lowercase(desc);
    let ws = words(lower);
    let a1 = seq![lower];
    let a2 = if ws.len() > 3 {
        a1.push(join(ws.take(3), " "@))
    } else {
        a1
    };
    let a3 = if ws.len() > 5 {
        a2.push(join(ws.take(5), " "@))
    } else {
        a2
    };
    assert(a3[0] == lower);
    assert(a3.contains(lower));
    lemma_add_significant_contains(a3, ws);
    let r = add_significant(a3, ws);
    assert forall|x: Seq<char>| r.contains(x) implies r.push(id).contains(x) by {
        let j = choose|j: int| 0 <= j < r.len() && r[j] == x;
        assert(r.push(id)[j] == x);
    }
    assert(r.push(id)[r.len() as int] == id);
}

/// The aliases of a task start with its description lowercased and end with
/// its id.
pub proof fn lemma_aliases_of(id: Seq<char>, desc: Seq<char>)
    ensures
        aliases_of(id, desc).len() >= 2,
        aliases_of(id, desc)[0] == lowercase(desc),
        aliases_of(id, desc).last() == id,
{
    let lower = lowercase(desc);
    let ws = words(lower);
    let a1 = seq![lower];
    let a2 = if ws.len() > 3 {
        a1.push(join(ws.take(3), " "@))
    } else {
        a1
    };
    let a3 = if ws.len() > 5 {
        a2.push(join(ws.take(5), " "@))
    } else {
        a2
    };
    assert(a3[0] == lower);
    lemma_add_significant_prefix(a3, ws);
}

/// The laws of a plan signature: it always has the sorts `task_id` and
/// `phase_name` and the six predicates (`ALWAYS` with one slot, the others
/// with two), one constant per task, and the constants sorted by name; each
/// constant is the constant of one of the tasks, named `T` followed by the
/// task id.
pub proof fn lemma_signature_of_tasks(tasks: Seq<(Seq<char>, Seq<char>)>)
    ensures
        ({
            let sig = signature_of_tasks(tasks);
            &&& sig.types == plan_types()
            &&& sig.predicates == plan_predicates()
            &&& sig.predicates.len() == 6
            &&& sig.constants.len() == tasks.len()
            &&& forall|i: int, j: int|
                0 <= i < j < sig.constants.len() ==> !crate::text::lex_lt(
                    #[trigger] sig.constants[j].name,
                    #[trigger] sig.constants[i].name,
                )
            &&& forall|i: int|
                0 <= i < sig.constants.len() ==> exists|k: int|
                    0 <= k < tasks.len() && #[trigger] sig.constants[i] == constant_of(
                        #[trigger] tasks[k],
                    )
        }),
{
    let cs = tasks.map_values(|t: (Seq<char>, Seq<char>)| constant_of(t));
    assert(strict_order(by_name())) by {
        assert forall|a: ConstantView| !#[trigger] (by_name())(a, a) by {
            crate::text::lemma_lex_lt_irreflexive(a.name);
        }
        assert forall|a: ConstantView, b: ConstantView, c: ConstantView|
            #[trigger] (by_name())(a, b) && #[trigger] (by_name())(b, c) implies (by_name())(
            a,
            c,
        ) by {
            crate::text::lemma_lex_lt_transitive(a.name, b.name, c.name);
        }
    }
    crate::order::lemma_sort_by(cs, by_name());
    let sorted = sort_by(cs, by_name());
    assert forall|i: int, j: int| 0 <= i < j < sorted.len() implies !crate::text::lex_lt(
        #[trigger] sorted[j].name,
        #[trigger] sorted[i].name,
    ) by {
        assert(!(by_name())(sorted[j], sorted[i]));
    }
    assert forall|i: int| 0 <= i < sorted.len() implies exists|k: int|
        0 <= k < tasks.len() && #[trigger] sorted[i] == constant_of(#[trigger] tasks[k]) by {
        crate::order::lemma_sort_by_contains(cs, by_name(), i);
        let k = choose|k: int| 0 <= k < cs.len() && cs[k] == sorted[i];
        assert(cs[k] == constant_of(tasks[k]));
    }
}

} // verus!
