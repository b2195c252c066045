//! Checking a plan: requirement extraction from requirement files, directives for
//! the LLM, close-match suggestions, and the summary of a check.
use vstd::prelude::*;

use crate::grounders::rule::{rule_ground, RuleGrounder};
use crate::suggest::{directives_of, generate_directives, match_label, match_labels};
use crate::text::{
    append_chars, chars_of, chars_of_string, contains, contains_str, find, find_chars_from,
    find_from, slice_chars, string_of, to_uppercase, trim, trim_chars, uppercase,
};
use crate::types::{
    status_of, AtomView, CheckOutput, CheckOutputView, CheckSummary, CloseMatch, Directive,
    DirectiveView, GroundedAtom, GroundedInput, GroundedInputView, GroundingStatus, GroundingView,
    Signature, SignatureSummary, SignatureView,
};

verus! {

// ── Requirement sentences ──

/// A sentence-ending mark that `extract_shall` splits on.
pub open spec fn is_mark(c: char) -> bool {
    c == '!' || c == '?'
}

/// The first index at or after `k` that holds a mark.
pub open spec fn mark_from(s: Seq<char>, k: int) -> Option<int>
    decreases s.len() - k,
{
    if k < 0 || k >= s.len() {
        None
    } else if is_mark(s[k]) {
        Some(k)
    } else {
        mark_from(s, k + 1)
    }
}

/// The pieces of `s[start..]` between marks (`str::split(['!', '?'])`).
pub open spec fn split_marks_from(s: Seq<char>, start: int) -> Seq<Seq<char>>
    decreases s.len() - start,
{
    if start < 0 || start > s.len() {
        seq![]
    } else {
        match mark_from(s, start) {
            None => seq![s.subrange(start, s.len() as int)],
            Some(k) => if k < start || k >= s.len() {
                seq![]
            } else {
                seq![s.subrange(start, k)] + split_marks_from(s, k + 1)
            },
        }
    }
}

/// The pieces of `s[start..]` between occurrences of `". "`.
pub open spec fn split_dots_from(s: Seq<char>, start: int) -> Seq<Seq<char>>
    decreases s.len() - start,
{
    if start < 0 || start > s.len() {
        seq![]
    } else {
        match find_from(s, seq!['.', ' '], start) {
            None => seq![s.subrange(start, s.len() as int)],
            Some(k) => if k < start || k + 2 > s.len() {
                seq![]
            } else {
                seq![s.subrange(start, k)] + split_dots_from(s, k + 2)
            },
        }
    }
}

/// The sentences of the given parts: each part split at `". "`, in order.
pub open spec fn sentences_of(parts: Seq<Seq<char>>) -> Seq<Seq<char>>
    decreases parts.len(),
{
    if parts.len() == 0 {
        seq![]
    } else {
        sentences_of(parts.drop_last()) + split_dots_from(parts.last(), 0)
    }
}

/// The sentences of a requirement body: split at `!`, `?`, and `". "` (a
/// period inside a task id such as `T3.1` does not end a sentence).
pub open spec fn sentences(body: Seq<char>) -> Seq<Seq<char>> {
    sentences_of(split_marks_from(body, 0))
}

/// A sentence states a requirement: it says SHALL or MUST, in any case.
pub open spec fn is_requirement(t: Seq<char>) -> bool {
    contains(uppercase(t), "SHALL"@) || contains(uppercase(t), "MUST"@)
}

/// The first of `ss[k..]` that, trimmed, is non-empty and states a requirement
/// (trimmed).
pub open spec fn first_requirement(ss: Seq<Seq<char>>, k: int) -> Option<Seq<char>>
    decreases ss.len() - k,
{
    if k < 0 || k >= ss.len() {
        None
    } else if trim(ss[k]).len() > 0 && is_requirement(trim(ss[k])) {
        Some(trim(ss[k]))
    } else {
        first_requirement(ss, k + 1)
    }
}

/// The first line of `s` (`str::lines().next()`, up to the first `'\n'`),
/// trimmed; a `'\r'` before the `'\n'` goes with the trimming.
pub open spec fn first_line_trimmed(s: Seq<char>) -> Seq<char> {
    match find(s, seq!['\n']) {
        Some(i) => trim(s.take(i)),
        None => trim(s),
    }
}

/// The statement that `extract_shall` takes from a requirement body: the first
/// sentence containing SHALL/MUST, trimmed; else the body's first line, trimmed.
pub open spec fn shall_statement(body: Seq<char>) -> Seq<char> {
    match first_requirement(sentences(body), 0) {
        Some(t) => t,
        None => first_line_trimmed(body),
    }
}

/// The pieces of `v` between `!` and `?` marks.
fn split_marks(v: &Vec<char>) -> (r: Vec<Vec<char>>)
    ensures
        r@.map_values(|w: Vec<char>| w@) == split_marks_from(v@, 0),
{
    let mut r: Vec<Vec<char>> = Vec::new();
    let mut start: usize = 0;
    let mut i: usize = 0;
    loop
        invariant
            start <= i <= v.len(),
            split_marks_from(v@, 0) == r@.map_values(|w: Vec<char>| w@) + split_marks_from(
                v@,
                start as int,
            ),
            mark_from(v@, start as int) == mark_from(v@, i as int),
        decreases v.len() - i,
    {
        if i == v.len() {
            let w = slice_chars(v, start, i);
            let ghost before = r@.map_values(|w: Vec<char>| w@);
            r.push(w);
            assert(r@.map_values(|w: Vec<char>| w@) =~= before + split_marks_from(v@, start as int));
            return r;
        }
        if v[i] == '!' || v[i] == '?' {
            let w = slice_chars(v, start, i);
            let ghost before = r@.map_values(|w: Vec<char>| w@);
            r.push(w);
            assert(r@.map_values(|w: Vec<char>| w@) =~= before.push(v@.subrange(start as int, i as int)));
            assert(before + split_marks_from(v@, start as int) == r@.map_values(|w: Vec<char>| w@)
                + split_marks_from(v@, i + 1));
            start = i + 1;
        }
        i = i + 1;
    }
}

/// The pieces of `p` between occurrences of `". "`.
fn split_dots(p: &Vec<char>) -> (r: Vec<Vec<char>>)
    ensures
        r@.map_values(|w: Vec<char>| w@) == split_dots_from(p@, 0),
{
    let pat: Vec<char> = vec!['.', ' '];
    assert(pat@ == seq!['.', ' ']);
    let mut r: Vec<Vec<char>> = Vec::new();
    let mut start: usize = 0;
    loop
        invariant
            start <= p.len(),
            pat@ == seq!['.', ' '],
            split_dots_from(p@, 0) == r@.map_values(|w: Vec<char>| w@) + split_dots_from(
                p@,
                start as int,
            ),
        decreases p.len() - start,
    {
        let ghost before = r@.map_values(|w: Vec<char>| w@);
        match find_chars_from(p, &pat, start) {
            None => {
                let w = slice_chars(p, start, p.len());
                r.push(w);
                assert(r@.map_values(|w: Vec<char>| w@) =~= before + split_dots_from(
                    p@,
                    start as int,
                ));
                return r;
            },
            Some(k) => {
                proof {
                    crate::text::lemma_find_from(p@, pat@, start as int);
                }
                let w = slice_chars(p, start, k);
                r.push(w);
                assert(r@.map_values(|w: Vec<char>| w@) =~= before.push(
                    p@.subrange(start as int, k as int),
                ));
                assert(before + split_dots_from(p@, start as int) == r@.map_values(
                    |w: Vec<char>| w@,
                ) + split_dots_from(p@, k + 2));
                start = k + 2;
            },
        }
    }
}

/// Whether a trimmed sentence states a requirement.
fn states_requirement(t: &Vec<char>) -> (b: bool)
    ensures
        b == is_requirement(t@),
{
    let s = string_of(t);
    let up = to_uppercase(s.as_str());
    let uc = chars_of_string(&up);
    contains_str(&uc, "SHALL") || contains_str(&uc, "MUST")
}

/// Extract the first sentence containing SHALL/MUST from body text.
/// Avoids splitting on periods within task IDs (e.g., "T3.1").
pub fn extract_shall(body: &str) -> (r: String)
    ensures
        r@ == shall_statement(body@),
{
    let v = chars_of(body);
    let parts = split_marks(&v);
    let ghost pv = parts@.map_values(|w: Vec<char>| w@);
    let mut sents: Vec<Vec<char>> = Vec::new();
    for j in 0..parts.len()
        invariant
            pv == parts@.map_values(|w: Vec<char>| w@),
            sents@.map_values(|w: Vec<char>| w@) == sentences_of(pv.take(j as int)),
    {
        assert(pv.take(j + 1).drop_last() == pv.take(j as int));
        let pieces = split_dots(&parts[j]);
        let ghost before = sents@.map_values(|w: Vec<char>| w@);
        let ghost added = pieces@.map_values(|w: Vec<char>| w@);
        for k in 0..pieces.len()
            invariant
                added == pieces@.map_values(|w: Vec<char>| w@),
                sents@.map_values(|w: Vec<char>| w@) == before + added.take(k as int),
        {
            let ghost b2 = sents@.map_values(|w: Vec<char>| w@);
            let copy = slice_chars(&pieces[k], 0, pieces[k].len());
            assert(copy@ == pieces@[k as int]@.subrange(0, pieces@[k as int]@.len() as int));
            assert(copy@ =~= added[k as int]);
            sents.push(copy);
            assert(sents@.map_values(|w: Vec<char>| w@) =~= b2.push(added[k as int]));
            assert(added.take(k + 1) =~= added.take(k as int).push(added[k as int]));
        }
        assert(added.take(pieces.len() as int) == added);
    }
    assert(pv.take(parts.len() as int) == pv);
    let ghost sv = sents@.map_values(|w: Vec<char>| w@);
    let mut k: usize = 0;
    while k < sents.len()
        invariant
            k <= sents.len(),
            sv == sents@.map_values(|w: Vec<char>| w@),
            sv == sentences(body@),
            first_requirement(sv, 0) == first_requirement(sv, k as int),
        decreases sents.len() - k,
    {
        let t = trim_chars(&sents[k]);
        if t.len() > 0 && states_requirement(&t) {
            return string_of(&t);
        }
        k = k + 1;
    }
    // Fallback: the first non-empty line
    let nl: Vec<char> = vec!['\n'];
    assert(nl@ == seq!['\n']);
    match crate::text::find_chars(&v, &nl) {
        Some(i) => {
            proof {
                crate::text::lemma_find(v@, nl@);
            }
            let line = slice_chars(&v, 0, i);
            assert(line@ == v@.take(i as int));
            string_of(&trim_chars(&line))
        },
        None => string_of(&trim_chars(&v)),
    }
}

// ── Requirements of a requirement file ──

/// A requirement statement and where it was found (`path#L<line>`).
#[derive(Debug, Clone)]
pub struct Statement {
    pub source: String,
    pub text: String,
}

/// The view of a statement.
pub struct StatementView {
    pub source: Seq<char>,
    pub text: Seq<char>,
}

impl View for Statement {
    type V = StatementView;

    open spec fn view(&self) -> StatementView {
        StatementView { source: self.source@, text: self.text@ }
    }
}

/// `l` without one trailing carriage return.
pub open spec fn strip_cr(l: Seq<char>) -> Seq<char> {
    if l.len() > 0 && l.last() == '\r' {
        l.drop_last()
    } else {
        l
    }
}

/// The lines of `s[start..]` (`str::lines`): split at `'\n'`, a `'\r'` before
/// the `'\n'` removed, no line after a final `'\n'`.
pub open spec fn lines_from(s: Seq<char>, start: int) -> Seq<Seq<char>>
    decreases s.len() - start,
{
    if start < 0 || start >= s.len() {
        seq![]
    } else {
        match find_from(s, seq!['\n'], start) {
            None => seq![s.subrange(start, s.len() as int)],
            Some(k) => if k < start || k >= s.len() {
                seq![]
            } else {
                seq![strip_cr(s.subrange(start, k))] + lines_from(s, k + 1)
            },
        }
    }
}

/// The lines of `s`.
pub open spec fn lines(s: Seq<char>) -> Seq<Seq<char>> {
    lines_from(s, 0)
}

/// A requirement heading: `### Requirement:` (or `### requirement:`) after trimming.
pub open spec fn is_requirement_heading(l: Seq<char>) -> bool {
    crate::text::starts_with(trim(l), "### Requirement:"@) || crate::text::starts_with(
        trim(l),
        "### requirement:"@,
    )
}

/// A line that ends a requirement body: it starts with `###` after trimming.
pub open spec fn ends_body(l: Seq<char>) -> bool {
    crate::text::starts_with(trim(l), "###"@)
}

/// `acc` followed by the non-empty trimmed lines from `j` up to the first line
/// that ends the body, separated by single spaces.
pub open spec fn body_from(ls: Seq<Seq<char>>, j: int, acc: Seq<char>) -> Seq<char>
    decreases ls.len() - j,
{
    if j < 0 || j >= ls.len() || ends_body(ls[j]) {
        acc
    } else {
        let t = trim(ls[j]);
        body_from(
            ls,
            j + 1,
            if t.len() == 0 {
                acc
            } else if acc.len() == 0 {
                t
            } else {
                acc + seq![' '] + t
            },
        )
    }
}

/// The statements of the requirement headings among the first `n` lines: for
/// each, its body's SHALL statement when non-empty, located at `path#L<line>`
/// (lines counted from 1).
pub open spec fn requirements_upto(ls: Seq<Seq<char>>, path: Seq<char>, n: int) -> Seq<
    StatementView,
>
    decreases n,
{
    if n <= 0 || n > ls.len() {
        seq![]
    } else {
        let r = requirements_upto(ls, path, n - 1);
        let h = n - 1;
        if is_requirement_heading(ls[h]) {
            let text = shall_statement(body_from(ls, h + 1, seq![]));
            if text.len() > 0 {
                r.push(
                    StatementView {
                        source: path + "#L"@ + crate::text::decimal((h + 1) as nat),
                        text,
                    },
                )
            } else {
                r
            }
        } else {
            r
        }
    }
}

/// The requirement statements of a requirement file.
pub open spec fn requirements_of(source: Seq<char>, path: Seq<char>) -> Seq<StatementView> {
    requirements_upto(lines(source), path, lines(source).len() as int)
}

/// The lines of `v`.
fn split_lines(v: &Vec<char>) -> (r: Vec<Vec<char>>)
    ensures
        r@.map_values(|w: Vec<char>| w@) == lines(v@),
{
    let nl: Vec<char> = vec!['\n'];
    assert(nl@ == seq!['\n']);
    let mut r: Vec<Vec<char>> = Vec::new();
    let mut start: usize = 0;
    while start < v.len()
        invariant
            start <= v.len(),
            nl@ == seq!['\n'],
            lines(v@) == r@.map_values(|w: Vec<char>| w@) + lines_from(v@, start as int),
        decreases v.len() - start,
    {
        let ghost before = r@.map_values(|w: Vec<char>| w@);
        match find_chars_from(v, &nl, start) {
            None => {
                let w = slice_chars(v, start, v.len());
                r.push(w);
                assert(r@.map_values(|w: Vec<char>| w@) =~= before + lines_from(v@, start as int));
                return r;
            },
            Some(k) => {
                proof {
                    crate::text::lemma_find_from(v@, nl@, start as int);
                }
                let mut w = slice_chars(v, start, k);
                if w.len() > 0 && w[w.len() - 1] == '\r' {
                    w.pop();
                }
                assert(w@ == strip_cr(v@.subrange(start as int, k as int)));
                r.push(w);
                assert(r@.map_values(|w: Vec<char>| w@) =~= before.push(
                    strip_cr(v@.subrange(start as int, k as int)),
                ));
                assert(before + lines_from(v@, start as int) == r@.map_values(|w: Vec<char>| w@)
                    + lines_from(v@, k + 1));
                start = k + 1;
            },
        }
    }
    r
}

/// Whether a line is a requirement heading.
fn requirement_heading(l: &Vec<char>) -> (b: bool)
    ensures
        b == is_requirement_heading(l@),
{
    let t = trim_chars(l);
    crate::text::starts_with_str(&t, "### Requirement:") || crate::text::starts_with_str(
        &t,
        "### requirement:",
    )
}

/// Simple line-based extraction of requirement SHALL statements from a
/// requirement file.
pub fn extract_requirements(source: &str, rel_path: &str, out: &mut Vec<Statement>)
    ensures
        final(out)@.map_values(|s: Statement| s@) == old(out)@.map_values(|s: Statement| s@)
            + requirements_of(source@, rel_path@),
{
    let v = chars_of(source);
    let ls = split_lines(&v);
    let ghost lv = ls@.map_values(|w: Vec<char>| w@);
    let ghost start = out@.map_values(|s: Statement| s@);
    let mut h: usize = 0;
    while h < ls.len()
        invariant
            h <= ls.len(),
            lv == ls@.map_values(|w: Vec<char>| w@),
            lv == lines(source@),
            out@.map_values(|s: Statement| s@) == start + requirements_upto(lv, rel_path@, h as int),
        decreases ls.len() - h,
    {
        if requirement_heading(&ls[h]) {
            // Collect body paragraphs until the next heading
            let mut body: Vec<char> = Vec::new();
            let mut j: usize = h + 1;
            loop
                invariant
                    h < j <= ls.len(),
                    lv == ls@.map_values(|w: Vec<char>| w@),
                    body_from(lv, h + 1, seq![]) == body_from(lv, j as int, body@),
                ensures
                    body_from(lv, h + 1, seq![]) == body@,
                decreases ls.len() - j,
            {
                if j >= ls.len() {
                    break;
                }
                let t = trim_chars(&ls[j]);
                assert(lv[j as int] == ls@[j as int]@);
                if crate::text::starts_with_str(&t, "###") {
                    break;
                }
                let ghost acc = body@;
                if t.len() > 0 {
                    if body.len() > 0 {
                        body.push(' ');
                    }
                    append_chars(&mut body, &t);
                }
                assert(body@ == (if t@.len() == 0 {
                    acc
                } else if acc.len() == 0 {
                    t@
                } else {
                    acc + seq![' '] + t@
                }));
                j = j + 1;
            }
            let bs = string_of(&body);
            let statement = extract_shall(bs.as_str());
            if statement.as_str().as_bytes().len() > 0 {
                let mut src = crate::text::copy_string(&String::from_str(rel_path));
                assert(src@ == rel_path@);
                src.append("#L");
                assert(src@ == rel_path@ + "#L"@);
                crate::text::push_chars(&mut src, &crate::text::decimal_chars(h + 1));
                assert(src@ == rel_path@ + "#L"@ + crate::text::decimal((h + 1) as nat));
                assert(statement@ == shall_statement(body_from(lv, h + 1, seq![])));
                let ghost before = out@.map_values(|s: Statement| s@);
                out.push(Statement { source: src, text: statement });
                assert(out@.map_values(|s: Statement| s@) =~= before.push(
                    StatementView {
                        source: rel_path@ + "#L"@ + crate::text::decimal((h + 1) as nat),
                        text: shall_statement(body_from(lv, h + 1, seq![])),
                    },
                ));
            } else {
                assert(statement@.len() == 0) by {
                    if statement@.len() > 0 {
                        assert(vstd::utf8::encode_utf8(statement@).len() > 0);
                    }
                }
            }
        }
        h = h + 1;
    }
}

// ── Checking a plan ──

/// The input that a statement becomes with its grounding result.
pub open spec fn grounded_input(stmt: StatementView, r: GroundingView, sig: SignatureView) -> GroundedInputView {
    GroundedInputView {
        source: stmt.source,
        text: stmt.text,
        groundings: r.candidates,
        status: r.status,
        directives: directives_of(r, stmt, sig),
    }
}

/// The rules can process the text of every statement.
pub open spec fn all_groundable(stmts: Seq<StatementView>, sig: SignatureView) -> bool {
    forall|i: int| 0 <= i < stmts.len() ==> (#[trigger] rule_ground(stmts[i].text, sig)) is Some
}

/// The inputs of a check: each statement with its grounding and directives.
pub open spec fn grounded_inputs(stmts: Seq<StatementView>, sig: SignatureView) -> Seq<
    GroundedInputView,
> {
    stmts.map_values(|st: StatementView| grounded_input(st, rule_ground(st.text, sig)->0, sig))
}

/// How many of the inputs have the given status.
pub open spec fn count_status(inputs: Seq<GroundedInputView>, st: GroundingStatus) -> nat
    decreases inputs.len(),
{
    if inputs.len() == 0 {
        0
    } else {
        count_status(inputs.drop_last(), st) + if inputs.last().status == st {
            1nat
        } else {
            0nat
        }
    }
}

/// The summary counts of the inputs.
pub open spec fn summary_of(inputs: Seq<GroundedInputView>) -> CheckSummary {
    CheckSummary {
        total: inputs.len() as usize,
        grounded: count_status(inputs, GroundingStatus::Grounded) as usize,
        ambiguous: count_status(inputs, GroundingStatus::Ambiguous) as usize,
        ungroundable: count_status(inputs, GroundingStatus::Ungroundable) as usize,
    }
}

/// The counts of the parts of a signature.
pub open spec fn signature_summary(sig: SignatureView) -> SignatureSummary {
    SignatureSummary {
        tasks: sig.constants.len() as usize,
        predicates: sig.predicates.len() as usize,
        types: sig.types.len() as usize,
    }
}

/// The output of checking the statements of a plan against its signature.
pub open spec fn check_output(plan: Seq<char>, sig: SignatureView, stmts: Seq<StatementView>) -> CheckOutputView {
    let inputs = grounded_inputs(stmts, sig);
    CheckOutputView {
        plan_name: plan,
        signature: signature_summary(sig),
        inputs,
        summary: summary_of(inputs),
    }
}

/// No status is counted more often than there are inputs.
proof fn lemma_count_status_bound(inputs: Seq<GroundedInputView>, st: GroundingStatus)
    ensures
        count_status(inputs, st) <= inputs.len(),
    decreases inputs.len(),
{
    if inputs.len() > 0 {
        lemma_count_status_bound(inputs.drop_last(), st);
    }
}

/// Checks the requirement statements of a plan: grounds each against the
/// plan's signature, attaches the directives, and counts the statuses. `None`
/// when the rules cannot process some statement's text, which is never so
/// when every text is ASCII.
pub fn check_plan(plan_name: &str, sig: &Signature, statements: &Vec<Statement>) -> (r: Option<
    CheckOutput,
>)
    ensures
        r is Some <==> all_groundable(statements@.map_values(|s: Statement| s@), sig@),
        (forall|i: int|
            0 <= i < statements.len() ==> vstd::utf8::is_ascii_chars(#[trigger] statements@[i].text@))
            ==> r is Some,
        r matches Some(o) ==> o@ == check_output(
            plan_name@,
            sig@,
            statements@.map_values(|s: Statement| s@),
        ),
{
    let ghost sv = statements@.map_values(|s: Statement| s@);
    let grounder = RuleGrounder;
    let mut inputs: Vec<GroundedInput> = Vec::new();
    let mut grounded: usize = 0;
    let mut ambiguous: usize = 0;
    let mut ungroundable: usize = 0;
    for k in 0..statements.len()
        invariant
            sv == statements@.map_values(|s: Statement| s@),
            all_groundable(sv.take(k as int), sig@),
            inputs@.map_values(|i: GroundedInput| i@) == grounded_inputs(sv.take(k as int), sig@),
            grounded == count_status(inputs@.map_values(|i: GroundedInput| i@), GroundingStatus::Grounded),
            ambiguous == count_status(inputs@.map_values(|i: GroundedInput| i@), GroundingStatus::Ambiguous),
            ungroundable == count_status(inputs@.map_values(|i: GroundedInput| i@), GroundingStatus::Ungroundable),
            inputs.len() == k,
    {
        let stmt = &statements[k];
        assert(sv[k as int] == stmt@);
        let result = match grounder.try_ground(stmt.text.as_str(), sig) {
            Some(g) => g,
            None => {
                assert(!all_groundable(sv, sig@)) by {
                    assert(rule_ground(sv[k as int].text, sig@) is None);
                }
                assert(!vstd::utf8::is_ascii_chars(statements@[k as int].text@));
                return None;
            },
        };
        assert(result.status == GroundingStatus::Ambiguous ==> result.candidates.len() > 0) by {
            if result.status == GroundingStatus::Ambiguous {
                assert(result@.status == status_of(result@.candidates));
            }
        }
        let directives = generate_directives(&result, stmt, sig);
        let status = result.status;
        let input = GroundedInput {
            source: crate::text::copy_string(&stmt.source),
            text: crate::text::copy_string(&stmt.text),
            groundings: result.candidates,
            status,
            directives,
        };
        let ghost before = inputs@.map_values(|i: GroundedInput| i@);
        let ghost iv = input@;
        inputs.push(input);
        proof {
            assert(inputs@.map_values(|i: GroundedInput| i@) =~= before.push(iv));
            assert(sv.take(k + 1) =~= sv.take(k as int).push(sv[k as int]));
            assert(grounded_inputs(sv.take(k + 1), sig@) =~= grounded_inputs(sv.take(k as int), sig@).push(iv));
            assert(before.push(iv).drop_last() == before);
            lemma_count_status_bound(before, GroundingStatus::Grounded);
            lemma_count_status_bound(before, GroundingStatus::Ambiguous);
            lemma_count_status_bound(before, GroundingStatus::Ungroundable);
        }
        if status == GroundingStatus::Grounded {
            grounded = grounded + 1;
        } else if status == GroundingStatus::Ambiguous {
            ambiguous = ambiguous + 1;
        } else {
            ungroundable = ungroundable + 1;
        }
    }
    assert(sv.take(statements.len() as int) == sv);
    let total = inputs.len();
    Some(CheckOutput {
        plan_name: String::from_str(plan_name),
        signature: sig.summary(),
        inputs,
        summary: CheckSummary { total, grounded, ambiguous, ungroundable },
    })
}

// ── Merging the outputs of several plans ──

/// Summary counts, as unbounded numbers.
pub struct Counts {
    pub total: nat,
    pub grounded: nat,
    pub ambiguous: nat,
    pub ungroundable: nat,
}

/// The counts of all outputs added up.
pub open spec fn total_counts(os: Seq<CheckOutputView>) -> Counts
    decreases os.len(),
{
    if os.len() == 0 {
        Counts { total: 0, grounded: 0, ambiguous: 0, ungroundable: 0 }
    } else {
        let c = total_counts(os.drop_last());
        let s = os.last().summary;
        Counts {
            total: c.total + s.total as nat,
            grounded: c.grounded + s.grounded as nat,
            ambiguous: c.ambiguous + s.ambiguous as nat,
            ungroundable: c.ungroundable + s.ungroundable as nat,
        }
    }
}

/// Each count fits in `usize`.
pub open spec fn counts_fit(c: Counts) -> bool {
    c.total <= usize::MAX && c.grounded <= usize::MAX && c.ambiguous <= usize::MAX
        && c.ungroundable <= usize::MAX
}

/// An input whose source is prefixed with the name of its plan.
pub open spec fn prefixed(plan: Seq<char>, i: GroundedInputView) -> GroundedInputView {
    GroundedInputView { source: plan + ": "@ + i.source, ..i }
}

/// The inputs of all outputs, in order, each prefixed with its plan's name.
pub open spec fn merged_inputs(os: Seq<CheckOutputView>) -> Seq<GroundedInputView>
    decreases os.len(),
{
    if os.len() == 0 {
        seq![]
    } else {
        merged_inputs(os.drop_last()) + os.last().inputs.map_values(
            |i: GroundedInputView| prefixed(os.last().plan_name, i),
        )
    }
}

/// The output with no plan.
pub open spec fn empty_output() -> CheckOutputView {
    CheckOutputView {
        plan_name: seq![],
        signature: SignatureSummary { tasks: 0, predicates: 0, types: 0 },
        inputs: seq![],
        summary: CheckSummary { total: 0, grounded: 0, ambiguous: 0, ungroundable: 0 },
    }
}

/// The outputs of several plans as one: none gives the empty output, one gives
/// itself; more give the plan names joined by `", "`, an all-zero signature
/// summary, the prefixed inputs and the added-up counts.
pub open spec fn merged(os: Seq<CheckOutputView>) -> CheckOutputView {
    if os.len() == 0 {
        empty_output()
    } else if os.len() == 1 {
        os[0]
    } else {
        let c = total_counts(os);
        CheckOutputView {
            plan_name: crate::text::join(os.map_values(|o: CheckOutputView| o.plan_name), ", "@),
            signature: SignatureSummary { tasks: 0, predicates: 0, types: 0 },
            inputs: merged_inputs(os),
            summary: CheckSummary {
                total: c.total as usize,
                grounded: c.grounded as usize,
                ambiguous: c.ambiguous as usize,
                ungroundable: c.ungroundable as usize,
            },
        }
    }
}

/// Counts only grow as outputs are added.
proof fn lemma_counts_grow(os: Seq<CheckOutputView>, k: int)
    requires
        0 <= k <= os.len(),
    ensures
        total_counts(os.take(k)).total <= total_counts(os).total,
        total_counts(os.take(k)).grounded <= total_counts(os).grounded,
        total_counts(os.take(k)).ambiguous <= total_counts(os).ambiguous,
        total_counts(os.take(k)).ungroundable <= total_counts(os).ungroundable,
    decreases os.len() - k,
{
    if k < os.len() {
        lemma_counts_grow(os, k + 1);
        assert(os.take(k + 1).drop_last() == os.take(k));
    } else {
        assert(os.take(k) == os);
    }
}

/// Merge the outputs of several plans into one.
pub fn merge_outputs(outputs: &Vec<CheckOutput>) -> (r: CheckOutput)
    requires
        outputs.len() > 1 ==> counts_fit(
            total_counts(outputs@.map_values(|o: CheckOutput| o@)),
        ),
    ensures
        r@ == merged(outputs@.map_values(|o: CheckOutput| o@)),
{
    let ghost ov = outputs@.map_values(|o: CheckOutput| o@);
    if outputs.len() == 0 {
        let r = CheckOutput {
            plan_name: String::new(),
            signature: SignatureSummary { tasks: 0, predicates: 0, types: 0 },
            inputs: Vec::new(),
            summary: CheckSummary { total: 0, grounded: 0, ambiguous: 0, ungroundable: 0 },
        };
        assert(r@.inputs =~= seq![]);
        return r;
    }
    if outputs.len() == 1 {
        return outputs[0].copy();
    }
    let mut names: Vec<Vec<char>> = Vec::new();
    let mut all_inputs: Vec<GroundedInput> = Vec::new();
    let mut total: usize = 0;
    let mut grounded: usize = 0;
    let mut ambiguous: usize = 0;
    let mut ungroundable: usize = 0;
    for k in 0..outputs.len()
        invariant
            outputs.len() > 1,
            ov == outputs@.map_values(|o: CheckOutput| o@),
            counts_fit(total_counts(ov)),
            names@.map_values(|w: Vec<char>| w@) == ov.take(k as int).map_values(
                |o: CheckOutputView| o.plan_name,
            ),
            all_inputs@.map_values(|i: GroundedInput| i@) == merged_inputs(ov.take(k as int)),
            total == total_counts(ov.take(k as int)).total,
            grounded == total_counts(ov.take(k as int)).grounded,
            ambiguous == total_counts(ov.take(k as int)).ambiguous,
            ungroundable == total_counts(ov.take(k as int)).ungroundable,
    {
        let o = &outputs[k];
        assert(ov[k as int] == o@);
        assert(ov.take(k + 1).drop_last() == ov.take(k as int));
        let ghost start = all_inputs@.map_values(|i: GroundedInput| i@);
        for j in 0..o.inputs.len()
            invariant
                all_inputs@.map_values(|i: GroundedInput| i@) == start + o@.inputs.take(
                    j as int,
                ).map_values(|i: GroundedInputView| prefixed(o@.plan_name, i)),
        {
            let mut p = o.inputs[j].copy();
            let mut src = o.plan_name.clone();
            src.append(": ");
            src.append(o.inputs[j].source.as_str());
            p.source = src;
            let ghost before = all_inputs@.map_values(|i: GroundedInput| i@);
            let ghost pv = p@;
            all_inputs.push(p);
            assert(pv == prefixed(o@.plan_name, o@.inputs[j as int]));
            assert(all_inputs@.map_values(|i: GroundedInput| i@) =~= before.push(pv));
            assert(o@.inputs.take(j + 1).map_values(|i: GroundedInputView| prefixed(o@.plan_name, i))
                =~= o@.inputs.take(j as int).map_values(|i: GroundedInputView| prefixed(o@.plan_name, i)).push(pv));
        }
        assert(o@.inputs.take(o.inputs.len() as int) == o@.inputs);
        let ghost before_names = names@.map_values(|w: Vec<char>| w@);
        names.push(chars_of(o.plan_name.as_str()));
        assert(names@.map_values(|w: Vec<char>| w@) =~= before_names.push(o@.plan_name));
        assert(ov.take(k + 1).map_values(|o: CheckOutputView| o.plan_name) =~= ov.take(
            k as int,
        ).map_values(|o: CheckOutputView| o.plan_name).push(o@.plan_name));
        proof {
            lemma_counts_grow(ov, k + 1);
        }
        total = total + o.summary.total;
        grounded = grounded + o.summary.grounded;
        ambiguous = ambiguous + o.summary.ambiguous;
        ungroundable = ungroundable + o.summary.ungroundable;
    }
    assert(ov.take(outputs.len() as int) == ov);
    let joined = crate::text::join_chars(&names, names.len(), ", ");
    assert(names@.map_values(|w: Vec<char>| w@).take(names.len() as int) == names@.map_values(
        |w: Vec<char>| w@,
    ));
    CheckOutput {
        plan_name: string_of(&joined),
        signature: SignatureSummary { tasks: 0, predicates: 0, types: 0 },
        inputs: all_inputs,
        summary: CheckSummary { total, grounded, ambiguous, ungroundable },
    }
}

// ── Human-readable report ──

/// An atom in call notation: `BEFORE(T1.1, T1.2)`.
pub open spec fn atom_call(a: AtomView) -> Seq<char> {
    a.predicate + "("@ + crate::text::join(a.arguments, ", "@) + ")"@
}

/// The one-line report of a grounded input: a check mark, its source and its
/// best grounding (nothing for other inputs, or without a grounding).
pub open spec fn success_line(i: GroundedInputView) -> Seq<char> {
    if i.status == GroundingStatus::Grounded && i.groundings.len() > 0 {
        "\u{2713} "@ + i.source + " \u{2192} "@ + atom_call(i.groundings[0]) + "\n"@
    } else {
        seq![]
    }
}

/// The success lines of the inputs, in order.
pub open spec fn success_lines(inputs: Seq<GroundedInputView>) -> Seq<char>
    decreases inputs.len(),
{
    if inputs.len() == 0 {
        seq![]
    } else {
        success_lines(inputs.drop_last()) + success_line(inputs.last())
    }
}

/// One suggestion line per directive.
pub open spec fn suggestion_lines(ds: Seq<DirectiveView>) -> Seq<char>
    decreases ds.len(),
{
    if ds.len() == 0 {
        seq![]
    } else {
        suggestion_lines(ds.drop_last()) + "   Suggestion: "@ + ds.last().suggested_action + "\n"@
    }
}

/// The close-match line of a directive, when it has close matches.
pub open spec fn close_match_line(d: DirectiveView) -> Seq<char> {
    match d.close_matches {
        Some(ms) => if ms.len() > 0 {
            "   Close matches: "@ + crate::text::join(match_labels(ms), ", "@) + "\n"@
        } else {
            seq![]
        },
        None => seq![],
    }
}

/// Per directive: its detail, its close matches and its suggestion.
pub open spec fn blocker_lines(ds: Seq<DirectiveView>) -> Seq<char>
    decreases ds.len(),
{
    if ds.len() == 0 {
        seq![]
    } else {
        let d = ds.last();
        blocker_lines(ds.drop_last()) + "   "@ + d.detail + "\n"@ + close_match_line(d)
            + "   Suggestion: "@ + d.suggested_action + "\n"@
    }
}

/// The grounding line of an ambiguous input: its best candidate with the
/// confidence.
pub open spec fn ambiguous_grounding_line(i: GroundedInputView) -> Seq<char> {
    if i.groundings.len() > 0 {
        "   \u{2192} "@ + atom_call(i.groundings[0]) + " @ "@ + crate::text::fixed2(
            i.groundings[0].confidence,
        ) + "\n"@
    } else {
        seq![]
    }
}

/// The detailed report of an input with an issue (nothing for a grounded one).
pub open spec fn issue_block(i: GroundedInputView) -> Seq<char> {
    match i.status {
        GroundingStatus::Grounded => seq![],
        GroundingStatus::Ambiguous => "\u{26A0} "@ + i.source + "\n"@ + "   \""@ + i.text + "\"\n"@
            + ambiguous_grounding_line(i) + suggestion_lines(i.directives),
        GroundingStatus::Ungroundable => "\u{2717} "@ + i.source + "\n"@ + "   \""@ + i.text
            + "\"\n"@ + blocker_lines(i.directives),
    }
}

/// The issue reports of the inputs, in order.
pub open spec fn issue_blocks(inputs: Seq<GroundedInputView>) -> Seq<char>
    decreases inputs.len(),
{
    if inputs.len() == 0 {
        seq![]
    } else {
        issue_blocks(inputs.drop_last()) + issue_block(inputs.last())
    }
}

/// The summary line, only when some input is ambiguous or ungroundable.
pub open spec fn summary_line(s: CheckSummary) -> Seq<char> {
    if s.ungroundable > 0 || s.ambiguous > 0 {
        "Summary: "@ + crate::text::decimal(s.total as nat) + " total | "@ + crate::text::decimal(
            s.grounded as nat,
        ) + " grounded | "@ + crate::text::decimal(s.ambiguous as nat) + " ambiguous | "@
            + crate::text::decimal(s.ungroundable as nat) + " ungroundable\n"@
    } else {
        seq![]
    }
}

/// The human-readable report: the successes first, one quiet line each, then
/// the issues in detail, then the summary line when there are issues.
pub open spec fn human_report(o: CheckOutputView) -> Seq<char> {
    success_lines(o.inputs) + issue_blocks(o.inputs) + summary_line(o.summary)
}

/// Appends an atom in call notation.
fn push_atom_call(out: &mut String, a: &GroundedAtom)
    ensures
        final(out)@ == old(out)@ + atom_call(a@),
{
    let ghost start = out@;
    let ghost args = a@.arguments;
    out.append(a.predicate.as_str());
    out.append("(");
    for k in 0..a.arguments.len()
        invariant
            args == a@.arguments,
            out@ == start + a@.predicate + "("@ + crate::text::join(args.take(k as int), ", "@),
    {
        assert(args.take(k + 1).drop_last() == args.take(k as int));
        assert(args.take(k + 1).last() == a.arguments@[k as int]@);
        if k > 0 {
            out.append(", ");
        }
        out.append(a.arguments[k].as_str());
        proof {
            if k == 0 {
                assert(crate::text::join(args.take(0), ", "@) =~= seq![]);
            }
        }
    }
    assert(args.take(a.arguments.len() as int) == args);
    out.append(")");
}

/// Appends the labels of close matches joined by `", "`.
fn push_match_labels(out: &mut String, ms: &Vec<CloseMatch>)
    ensures
        final(out)@ == old(out)@ + crate::text::join(
            match_labels(ms@.map_values(|m: CloseMatch| m@)),
            ", "@,
        ),
{
    let ghost start = out@;
    let ghost ls = match_labels(ms@.map_values(|m: CloseMatch| m@));
    for k in 0..ms.len()
        invariant
            ls == match_labels(ms@.map_values(|m: CloseMatch| m@)),
            out@ == start + crate::text::join(ls.take(k as int), ", "@),
    {
        assert(ls.take(k + 1).drop_last() == ls.take(k as int));
        assert(ls.take(k + 1).last() == match_label(ms@[k as int]@));
        let ghost before = out@;
        if k > 0 {
            out.append(", ");
        }
        out.append("'");
        out.append(ms[k].constant.as_str());
        out.append("' (alias: '");
        out.append(ms[k].alias.as_str());
        out.append("')");
        proof {
            let m = ms@[k as int]@;
            if k == 0 {
                assert(crate::text::join(ls.take(0), ", "@) =~= seq![]);
                assert(out@ =~= before + match_label(m));
            } else {
                assert(out@ =~= before + ", "@ + match_label(m));
            }
        }
    }
    assert(ls.take(ms.len() as int) == ls);
}

/// Appends the report lines of one directive of an ungroundable input.
fn push_blocker_line(out: &mut String, d: &Directive)
    ensures
        final(out)@ == old(out)@ + "   "@ + d@.detail + "\n"@ + close_match_line(d@)
            + "   Suggestion: "@ + d@.suggested_action + "\n"@,
{
    let ghost start = out@;
    out.append("   ");
    out.append(d.detail.as_str());
    out.append("\n");
    let ghost before_close = out@;
    match &d.close_matches {
        Some(ms) => {
            if ms.len() > 0 {
                out.append("   Close matches: ");
                push_match_labels(out, ms);
                out.append("\n");
            }
        },
        None => {},
    }
    assert(out@ == before_close + close_match_line(d@));
    out.append("   Suggestion: ");
    out.append(d.suggested_action.as_str());
    out.append("\n");
}

/// Appends the report lines of the directives of an ungroundable input.
fn push_blocker_lines(out: &mut String, ds: &Vec<Directive>)
    ensures
        final(out)@ == old(out)@ + blocker_lines(ds@.map_values(|d: Directive| d@)),
{
    let ghost start = out@;
    let ghost dv = ds@.map_values(|d: Directive| d@);
    for k in 0..ds.len()
        invariant
            dv == ds@.map_values(|d: Directive| d@),
            out@ == start + blocker_lines(dv.take(k as int)),
    {
        assert(dv.take(k + 1).drop_last() == dv.take(k as int));
        assert(dv.take(k + 1).last() == ds@[k as int]@);
        push_blocker_line(out, &ds[k]);
    }
    assert(dv.take(ds.len() as int) == dv);
}

/// Appends one suggestion line per directive.
fn push_suggestions(out: &mut String, ds: &Vec<Directive>)
    ensures
        final(out)@ == old(out)@ + suggestion_lines(ds@.map_values(|d: Directive| d@)),
{
    let ghost start = out@;
    let ghost dv = ds@.map_values(|d: Directive| d@);
    for k in 0..ds.len()
        invariant
            dv == ds@.map_values(|d: Directive| d@),
            out@ == start + suggestion_lines(dv.take(k as int)),
    {
        assert(dv.take(k + 1).drop_last() == dv.take(k as int));
        assert(dv.take(k + 1).last() == ds@[k as int]@);
        out.append("   Suggestion: ");
        out.append(ds[k].suggested_action.as_str());
        out.append("\n");
    }
    assert(dv.take(ds.len() as int) == dv);
}

/// Appends the report lines of one input with an issue.
fn push_issue_block(out: &mut String, i: &GroundedInput)
    ensures
        final(out)@ == old(out)@ + issue_block(i@),
{
    if i.status == GroundingStatus::Grounded {
        return;
    }
    let ambiguous = i.status == GroundingStatus::Ambiguous;
    if ambiguous {
        out.append("\u{26A0} ");
    } else {
        out.append("\u{2717} ");
    }
    out.append(i.source.as_str());
    out.append("\n");
    out.append("   \"");
    out.append(i.text.as_str());
    out.append("\"\n");
    if ambiguous {
        let ghost head = out@;
        if i.groundings.len() > 0 {
            let g = &i.groundings[0];
            assert(i@.groundings[0] == g@);
            out.append("   \u{2192} ");
            push_atom_call(out, g);
            out.append(" @ ");
            crate::text::push_chars(out, &crate::text::fixed2_chars(g.confidence));
            out.append("\n");
        }
        assert(out@ == head + ambiguous_grounding_line(i@));
        push_suggestions(out, &i.directives);
    } else {
        push_blocker_lines(out, &i.directives);
    }
}

/// The human-readable report of a check.
pub fn render_human(output: &CheckOutput) -> (r: String)
    ensures
        r@ == human_report(output@),
{
    let ghost iv = output@.inputs;
    let mut out = String::new();
    for k in 0..output.inputs.len()
        invariant
            iv == output@.inputs,
            out@ == success_lines(iv.take(k as int)),
    {
        assert(iv.take(k + 1).drop_last() == iv.take(k as int));
        let i = &output.inputs[k];
        assert(iv.take(k + 1).last() == i@);
        let ghost before = out@;
        if i.status == GroundingStatus::Grounded && i.groundings.len() > 0 {
            assert(i@.groundings[0] == i.groundings@[0]@);
            out.append("\u{2713} ");
            out.append(i.source.as_str());
            out.append(" \u{2192} ");
            push_atom_call(&mut out, &i.groundings[0]);
            out.append("\n");
        }
        assert(out@ == before + success_line(i@));
    }
    assert(iv.take(output.inputs.len() as int) == iv);
    let ghost after_success = out@;
    for k in 0..output.inputs.len()
        invariant
            iv == output@.inputs,
            out@ == after_success + issue_blocks(iv.take(k as int)),
    {
        assert(iv.take(k + 1).drop_last() == iv.take(k as int));
        assert(iv.take(k + 1).last() == output.inputs@[k as int]@);
        push_issue_block(&mut out, &output.inputs[k]);
    }
    assert(iv.take(output.inputs.len() as int) == iv);
    let s = output.summary;
    if s.has_issues() {
        out.append("Summary: ");
        crate::text::push_chars(&mut out, &crate::text::decimal_chars(s.total));
        out.append(" total | ");
        crate::text::push_chars(&mut out, &crate::text::decimal_chars(s.grounded));
        out.append(" grounded | ");
        crate::text::push_chars(&mut out, &crate::text::decimal_chars(s.ambiguous));
        out.append(" ambiguous | ");
        crate::text::push_chars(&mut out, &crate::text::decimal_chars(s.ungroundable));
        out.append(" ungroundable\n");
    }
    out
}

// ── Which files and changes a check reads ──

/// A requirement file is any Markdown file (extension `md`) under the
/// change's specs directory, at any depth.
pub fn is_spec_file(extension: &str) -> (b: bool)
    ensures
        b == (extension@ == "md"@),
{
    crate::text::chars_equal(&chars_of(extension), &chars_of("md"))
}

/// Orders changes by name, in code-point order (the order of `str`
/// comparison).
pub open spec fn by_name<P>() -> spec_fn((P, Seq<char>), (P, Seq<char>)) -> bool {
    |a: (P, Seq<char>), b: (P, Seq<char>)| crate::text::lex_lt(a.1, b.1)
}

/// The changes as pairs of a location and a name's characters.
pub open spec fn change_entries<P>(v: Seq<(P, String)>) -> Seq<(P, Seq<char>)> {
    v.map_values(|e: (P, String)| (e.0, e.1@))
}

/// The changes found in a directory, stably sorted by name.
pub fn sort_changes<P>(entries: Vec<(P, String)>) -> (r: Vec<(P, String)>)
    ensures
        change_entries(r@) == crate::order::sort_by(change_entries(entries@), by_name::<P>()),
{
    let ghost ev = change_entries(entries@);
    let mut sorted: Vec<(P, String)> = Vec::new();
    let n: usize = entries.len();
    let mut rest = entries;
    let mut k: usize = 0;
    while rest.len() > 0
        invariant
            ev.len() == n,
            change_entries(rest@) == ev.skip(k as int),
            k <= ev.len(),
            k + rest.len() == ev.len(),
            change_entries(sorted@) == crate::order::sort_by(ev.take(k as int), by_name::<P>()),
        decreases rest.len(),
    {
        let ghost before_rest = rest@;
        let e = rest.remove(0);
        let ghost ex = (e.0, e.1@);
        assert(ev.skip(k as int)[0] == ex) by {
            assert(change_entries(before_rest)[0] == ex);
        }
        assert(change_entries(rest@) =~= ev.skip(k + 1)) by {
            assert(rest@ =~= before_rest.skip(1));
            assert(change_entries(rest@) =~= change_entries(before_rest).skip(1));
            assert(ev.skip(k as int).skip(1) =~= ev.skip(k + 1));
        }
        assert(ev.take(k + 1).drop_last() =~= ev.take(k as int));
        assert(ev.take(k + 1).last() == ex);
        let ghost sv = change_entries(sorted@);
        let mut j: usize = 0;
        let ev_chars = chars_of(e.1.as_str());
        while j < sorted.len() && !crate::text::lex_less(
            &ev_chars,
            &chars_of(sorted[j].1.as_str()),
        )
            invariant
                j <= sorted.len(),
                sv == change_entries(sorted@),
                ev_chars@ == ex.1,
                forall|i: int| 0 <= i < j ==> !(by_name::<P>())(ex, #[trigger] sv[i]),
            decreases sorted.len() - j,
        {
            j = j + 1;
        }
        proof {
            crate::order::lemma_insert_sorted(sv, ex, by_name::<P>(), j as int);
        }
        sorted.insert(j, e);
        assert(change_entries(sorted@) =~= sv.insert(j as int, ex));
        k = k + 1;
    }
    assert(ev.take(k as int) =~= ev);
    sorted
}

// ── Laws of checking and merging ──

/// Every input has exactly one of the three statuses, so the three counts add
/// up to the number of inputs; and some input is ambiguous or ungroundable
/// exactly when not every input is grounded.
pub proof fn lemma_status_counts(inputs: Seq<GroundedInputView>)
    ensures
        count_status(inputs, GroundingStatus::Grounded) + count_status(
            inputs,
            GroundingStatus::Ambiguous,
        ) + count_status(inputs, GroundingStatus::Ungroundable) == inputs.len(),
        (count_status(inputs, GroundingStatus::Ambiguous) > 0 || count_status(
            inputs,
            GroundingStatus::Ungroundable,
        ) > 0) <==> exists|i: int|
            0 <= i < inputs.len() && #[trigger] inputs[i].status != GroundingStatus::Grounded,
    decreases inputs.len(),
{
    if inputs.len() > 0 {
        let t = inputs.drop_last();
        lemma_status_counts(t);
        if exists|i: int| 0 <= i < t.len() && #[trigger] t[i].status != GroundingStatus::Grounded {
            let i = choose|i: int| 0 <= i < t.len() && #[trigger] t[i].status != GroundingStatus::Grounded;
            assert(inputs[i] == t[i]);
        }
        if exists|i: int| 0 <= i < inputs.len() && #[trigger] inputs[i].status != GroundingStatus::Grounded {
            let i = choose|i: int| 0 <= i < inputs.len() && #[trigger] inputs[i].status != GroundingStatus::Grounded;
            if i < t.len() {
                assert(t[i] == inputs[i]);
            }
        }
    }
}

/// The summary of an output counts its inputs (of which there are no more than
/// a `usize` counts, as in any output held in memory).
pub open spec fn consistent(o: CheckOutputView) -> bool {
    o.inputs.len() <= usize::MAX && o.summary == summary_of(o.inputs)
}

/// The laws of a check: the output has one input per statement, in order,
/// each with the statement's source and text; its summary counts them, the
/// three status counts adding up to the total; and it reports issues exactly
/// when some statement is not grounded.
pub proof fn lemma_check_output(plan: Seq<char>, sig: SignatureView, stmts: Seq<StatementView>)
    requires
        stmts.len() <= usize::MAX,
    ensures
        ({
            let o = check_output(plan, sig, stmts);
            &&& consistent(o)
            &&& o.inputs.len() == stmts.len()
            &&& forall|i: int|
                0 <= i < stmts.len() ==> (#[trigger] o.inputs[i]).source == stmts[i].source
                    && o.inputs[i].text == stmts[i].text
            &&& o.summary.total == o.summary.grounded + o.summary.ambiguous + o.summary.ungroundable
            &&& (o.summary.ambiguous > 0 || o.summary.ungroundable > 0) <==> exists|i: int|
                0 <= i < o.inputs.len() && #[trigger] o.inputs[i].status != GroundingStatus::Grounded
        }),
{
    let o = check_output(plan, sig, stmts);
    lemma_status_counts(o.inputs);
    lemma_count_status_bound(o.inputs, GroundingStatus::Grounded);
    lemma_count_status_bound(o.inputs, GroundingStatus::Ambiguous);
    lemma_count_status_bound(o.inputs, GroundingStatus::Ungroundable);
}

/// Each input of a check carries everything the grounder gives for its
/// statement's text: all the candidates, in the grounder's order, and the
/// grounder's status; and the directives for that result.
pub proof fn lemma_check_groundings(plan: Seq<char>, sig: SignatureView, stmts: Seq<StatementView>)
    requires
        all_groundable(stmts, sig),
    ensures
        forall|i: int|
            0 <= i < stmts.len() ==> {
                let g = rule_ground(stmts[i].text, sig)->0;
                let input = #[trigger] check_output(plan, sig, stmts).inputs[i];
                &&& rule_ground(stmts[i].text, sig) == Some(g)
                &&& input.groundings == g.candidates
                &&& input.groundings.len() == g.candidates.len()
                &&& input.status == g.status
                &&& input.directives == directives_of(g, stmts[i], sig)
            },
{
    assert forall|i: int| 0 <= i < stmts.len() implies {
        let g = rule_ground(stmts[i].text, sig)->0;
        let input = #[trigger] check_output(plan, sig, stmts).inputs[i];
        &&& rule_ground(stmts[i].text, sig) == Some(g)
        &&& input.groundings == g.candidates
        &&& input.groundings.len() == g.candidates.len()
        &&& input.status == g.status
        &&& input.directives == directives_of(g, stmts[i], sig)
    } by {
        assert(rule_ground(stmts[i].text, sig) is Some);
    }
}

/// The report ends with the summary line exactly when some input is
/// ambiguous or ungroundable: `Summary: <total> total | <grounded> grounded |
/// <ambiguous> ambiguous | <ungroundable> ungroundable`, each number the
/// corresponding count of the output's summary in decimal; before it (or,
/// without issues, as the whole report) come the lines of the inputs.
pub proof fn lemma_report_summary(o: CheckOutputView)
    ensures
        (o.summary.ambiguous > 0 || o.summary.ungroundable > 0) ==> human_report(o) == (
        success_lines(o.inputs) + issue_blocks(o.inputs)) + ("Summary: "@ + crate::text::decimal(
            o.summary.total as nat,
        ) + " total | "@ + crate::text::decimal(o.summary.grounded as nat) + " grounded | "@
            + crate::text::decimal(o.summary.ambiguous as nat) + " ambiguous | "@
            + crate::text::decimal(o.summary.ungroundable as nat) + " ungroundable\n"@),
        !(o.summary.ambiguous > 0 || o.summary.ungroundable > 0) ==> human_report(o)
            == success_lines(o.inputs) + issue_blocks(o.inputs),
{
    assert(success_lines(o.inputs) + issue_blocks(o.inputs) + seq![] =~= success_lines(o.inputs)
        + issue_blocks(o.inputs));
}

/// Counting a status over two runs of inputs adds up.
proof fn lemma_count_status_concat(a: Seq<GroundedInputView>, b: Seq<GroundedInputView>, st: GroundingStatus)
    ensures
        count_status(a + b, st) == count_status(a, st) + count_status(b, st),
    decreases b.len(),
{
    if b.len() > 0 {
        lemma_count_status_concat(a, b.drop_last(), st);
        assert((a + b).drop_last() =~= a + b.drop_last());
    } else {
        assert(a + b =~= a);
    }
}

/// Prefixing sources keeps the statuses, so the counts.
proof fn lemma_count_status_prefixed(plan: Seq<char>, v: Seq<GroundedInputView>, st: GroundingStatus)
    ensures
        count_status(v.map_values(|i: GroundedInputView| prefixed(plan, i)), st) == count_status(v, st),
    decreases v.len(),
{
    if v.len() > 0 {
        lemma_count_status_prefixed(plan, v.drop_last(), st);
        assert(v.map_values(|i: GroundedInputView| prefixed(plan, i)).drop_last() =~= v.drop_last().map_values(
            |i: GroundedInputView| prefixed(plan, i),
        ));
    }
}

/// The merged inputs of consistent outputs are counted by their added-up
/// summaries.
proof fn lemma_merged_counts(os: Seq<CheckOutputView>)
    requires
        forall|i: int| 0 <= i < os.len() ==> consistent(#[trigger] os[i]),
        counts_fit(total_counts(os)),
    ensures
        merged_inputs(os).len() == total_counts(os).total,
        count_status(merged_inputs(os), GroundingStatus::Grounded) == total_counts(os).grounded,
        count_status(merged_inputs(os), GroundingStatus::Ambiguous) == total_counts(os).ambiguous,
        count_status(merged_inputs(os), GroundingStatus::Ungroundable) == total_counts(
            os,
        ).ungroundable,
    decreases os.len(),
{
    if os.len() > 0 {
        let t = os.drop_last();
        assert forall|i: int| 0 <= i < t.len() implies consistent(#[trigger] t[i]) by {
            assert(t[i] == os[i]);
        }
        lemma_counts_grow(os, os.len() - 1);
        assert(os.take(os.len() - 1) == t);
        lemma_merged_counts(t);
        let o = os.last();
        assert(consistent(os[os.len() - 1]));
        let p = o.inputs.map_values(|i: GroundedInputView| prefixed(o.plan_name, i));
        lemma_count_status_concat(merged_inputs(t), p, GroundingStatus::Grounded);
        lemma_count_status_concat(merged_inputs(t), p, GroundingStatus::Ambiguous);
        lemma_count_status_concat(merged_inputs(t), p, GroundingStatus::Ungroundable);
        lemma_count_status_prefixed(o.plan_name, o.inputs, GroundingStatus::Grounded);
        lemma_count_status_prefixed(o.plan_name, o.inputs, GroundingStatus::Ambiguous);
        lemma_count_status_prefixed(o.plan_name, o.inputs, GroundingStatus::Ungroundable);
        lemma_count_status_bound(o.inputs, GroundingStatus::Grounded);
        lemma_count_status_bound(o.inputs, GroundingStatus::Ambiguous);
        lemma_count_status_bound(o.inputs, GroundingStatus::Ungroundable);
    }
}

/// The laws of merging: the merged output lists the inputs of all outputs, in
/// order, each with its status and its source prefixed by its plan's name;
/// and outputs whose summaries count their inputs merge into one whose summary
/// counts its inputs (the counts added up).
pub proof fn lemma_merged(os: Seq<CheckOutputView>)
    requires
        forall|i: int| 0 <= i < os.len() ==> consistent(#[trigger] os[i]),
        os.len() > 1 ==> counts_fit(total_counts(os)),
    ensures
        consistent(merged(os)),
        os.len() > 1 ==> merged(os).inputs == merged_inputs(os),
        os.len() > 1 ==> merged(os).summary.total == total_counts(os).total,
{
    if os.len() > 1 {
        lemma_merged_counts(os);
    } else if os.len() == 0 {
        assert(consistent(empty_output()));
    }
}

// ── The body of a requirement ──

/// The non-blank lines of `ls`, each trimmed, in order.
pub open spec fn nonblank_lines(ls: Seq<Seq<char>>) -> Seq<Seq<char>>
    decreases ls.len(),
{
    if ls.len() == 0 {
        seq![]
    } else if trim(ls[0]).len() > 0 {
        seq![trim(ls[0])] + nonblank_lines(ls.drop_first())
    } else {
        nonblank_lines(ls.drop_first())
    }
}

/// `a` and `b` joined by a space, either left out when empty.
pub open spec fn spaced(a: Seq<char>, b: Seq<char>) -> Seq<char> {
    if a.len() == 0 {
        b
    } else if b.len() == 0 {
        a
    } else {
        a + " "@ + b
    }
}

/// Joining a sequence that starts with `t`.
proof fn lemma_join_front(t: Seq<char>, r: Seq<Seq<char>>, sep: Seq<char>)
    ensures
        crate::text::join(seq![t] + r, sep) == if r.len() == 0 {
            t
        } else {
            t + sep + crate::text::join(r, sep)
        },
    decreases r.len(),
{
    let w = seq![t] + r;
    if r.len() == 1 {
        assert(w.drop_last() =~= seq![t]);
        assert(w.last() == r[0]);
        assert(seq![t].len() == 1 && seq![t][0] == t);
        assert(crate::text::join(seq![t], sep) == t);
        assert(crate::text::join(r, sep) == r[0]);
        assert(crate::text::join(w, sep) == crate::text::join(w.drop_last(), sep) + sep + w.last());
    } else if r.len() > 1 {
        assert(w.drop_last() =~= seq![t] + r.drop_last());
        lemma_join_front(t, r.drop_last(), sep);
        assert(w.last() == r.last());
        assert(crate::text::join(w, sep) == crate::text::join(w.drop_last(), sep) + sep + w.last());
        assert(crate::text::join(r, sep) == crate::text::join(r.drop_last(), sep) + sep + r.last());
        assert(t + sep + crate::text::join(r.drop_last(), sep) + sep + r.last() =~= t + sep + (
        crate::text::join(r.drop_last(), sep) + sep + r.last()));
    } else {
        assert(w =~= seq![t]);
    }
}

/// The non-blank lines are non-empty, and so is their join when there is one.
proof fn lemma_nonblank_join(ls: Seq<Seq<char>>)
    ensures
        forall|k: int| 0 <= k < nonblank_lines(ls).len() ==> (#[trigger] nonblank_lines(ls)[k]).len() > 0,
        (crate::text::join(nonblank_lines(ls), " "@).len() == 0) == (nonblank_lines(ls).len() == 0),
    decreases ls.len(),
{
    if ls.len() > 0 {
        let t = ls.drop_first();
        lemma_nonblank_join(t);
        let r = nonblank_lines(t);
        if trim(ls[0]).len() > 0 {
            lemma_join_front(trim(ls[0]), r, " "@);
            assert forall|k: int| 0 <= k < nonblank_lines(ls).len() implies (#[trigger] nonblank_lines(
                ls,
            )[k]).len() > 0 by {
                if k > 0 {
                    assert(nonblank_lines(ls)[k] == r[k - 1]);
                }
            }
        }
    }
}

/// Collecting the body from line `j` of a block onwards, after `acc`.
proof fn lemma_body_from(ls: Seq<Seq<char>>, j: int, e: int, acc: Seq<char>)
    requires
        0 <= j <= e <= ls.len(),
        forall|k: int| j <= k < e ==> !ends_body(#[trigger] ls[k]),
        e == ls.len() || ends_body(ls[e]),
    ensures
        body_from(ls, j, acc) == spaced(acc, crate::text::join(nonblank_lines(ls.subrange(j, e)), " "@)),
    decreases e - j,
{
    reveal_strlit(" ");
    if j == e {
        assert(ls.subrange(j, e) =~= Seq::<Seq<char>>::empty());
        assert(nonblank_lines(ls.subrange(j, e)) =~= Seq::<Seq<char>>::empty());
    } else {
        let t = trim(ls[j]);
        let next = if t.len() == 0 {
            acc
        } else if acc.len() == 0 {
            t
        } else {
            acc + seq![' '] + t
        };
        assert(!ends_body(ls[j]));
        lemma_body_from(ls, j + 1, e, next);
        let block = ls.subrange(j, e);
        assert(block.drop_first() =~= ls.subrange(j + 1, e));
        assert(block[0] == ls[j]);
        let r = nonblank_lines(ls.subrange(j + 1, e));
        lemma_nonblank_join(ls.subrange(j + 1, e));
        if t.len() > 0 {
            lemma_join_front(t, r, " "@);
            let jr = crate::text::join(r, " "@);
            assert(" "@ == seq![' ']);
            if acc.len() > 0 && r.len() > 0 {
                assert(acc + seq![' '] + t + " "@ + jr =~= acc + " "@ + (t + " "@ + jr));
            }
        }
    }
}

/// The body of a requirement is the non-blank lines of its block, trimmed and
/// joined with single spaces: every line after the heading up to the next
/// line that starts with `###` (or the end), blank lines skipped, not ending
/// the body.
pub proof fn lemma_requirement_body(ls: Seq<Seq<char>>, h: int, e: int)
    requires
        0 <= h < e <= ls.len(),
        forall|k: int| h < k < e ==> !ends_body(#[trigger] ls[k]),
        e == ls.len() || ends_body(ls[e]),
    ensures
        body_from(ls, h + 1, seq![]) == crate::text::join(
            nonblank_lines(ls.subrange(h + 1, e)),
            " "@,
        ),
{
    lemma_body_from(ls, h + 1, e, seq![]);
}

// ── Laws of requirement extraction ──

/// What `first_requirement` finds is a non-empty trimmed sentence that states
/// a requirement.
proof fn lemma_first_requirement(ss: Seq<Seq<char>>, k: int)
    ensures
        first_requirement(ss, k) matches Some(t) ==> t.len() > 0 && is_requirement(t)
            && crate::text::no_outer_ws(t),
    decreases ss.len() - k,
{
    if 0 <= k < ss.len() {
        if trim(ss[k]).len() > 0 && is_requirement(trim(ss[k])) {
            crate::text::lemma_trim(ss[k]);
        } else {
            lemma_first_requirement(ss, k + 1);
        }
    }
}

/// The statement taken from a requirement body has no white space at either
/// end; when some sentence of the body says SHALL or MUST, the statement is a
/// non-empty sentence that says it.
pub proof fn lemma_shall_statement(body: Seq<char>)
    ensures
        crate::text::no_outer_ws(shall_statement(body)),
        first_requirement(sentences(body), 0) is Some ==> shall_statement(body).len() > 0
            && is_requirement(shall_statement(body)),
{
    lemma_first_requirement(sentences(body), 0);
    match find(body, seq!['\n']) {
        Some(i) => crate::text::lemma_trim(body.take(i)),
        None => crate::text::lemma_trim(body),
    }
}

/// The laws of requirement extraction: each statement found has a non-empty
/// text with no white space at either end, and is located at
/// `path#L<line>` where that line (counted from 1) is a requirement heading.
pub proof fn lemma_requirements(ls: Seq<Seq<char>>, path: Seq<char>, n: int)
    requires
        0 <= n <= ls.len(),
    ensures
        forall|k: int|
            0 <= k < requirements_upto(ls, path, n).len() ==> {
                let st = #[trigger] requirements_upto(ls, path, n)[k];
                &&& st.text.len() > 0
                &&& crate::text::no_outer_ws(st.text)
                &&& exists|h: int|
                    0 <= h < n && is_requirement_heading(#[trigger] ls[h]) && st.source == path
                        + "#L"@ + crate::text::decimal((h + 1) as nat)
            },
    decreases n,
{
    if n > 0 {
        lemma_requirements(ls, path, n - 1);
        let r = requirements_upto(ls, path, n - 1);
        let h = n - 1;
        lemma_shall_statement(body_from(ls, h + 1, seq![]));
        assert forall|k: int| 0 <= k < requirements_upto(ls, path, n).len() implies {
            let st = #[trigger] requirements_upto(ls, path, n)[k];
            &&& st.text.len() > 0
            &&& crate::text::no_outer_ws(st.text)
            &&& exists|h: int|
                0 <= h < n && is_requirement_heading(#[trigger] ls[h]) && st.source == path + "#L"@
                    + crate::text::decimal((h + 1) as nat)
        } by {
            if k < r.len() {
                assert(requirements_upto(ls, path, n)[k] == r[k]);
            }
        }
    }
}

/// Changes come out of `sort_changes` sorted by name, each entry as often as
/// it was listed.
pub proof fn lemma_sort_changes<P>(es: Seq<(P, Seq<char>)>)
    ensures
        crate::order::sort_by(es, by_name::<P>()).to_multiset() == es.to_multiset(),
        forall|i: int, j: int|
            0 <= i < j < crate::order::sort_by(es, by_name::<P>()).len() ==> !crate::text::lex_lt(
                (#[trigger] crate::order::sort_by(es, by_name::<P>())[j]).1,
                (#[trigger] crate::order::sort_by(es, by_name::<P>())[i]).1,
            ),
{
    assert(crate::order::strict_order(by_name::<P>())) by {
        assert forall|a: (P, Seq<char>)| !#[trigger] (by_name::<P>())(a, a) by {
            crate::text::lemma_lex_lt_irreflexive(a.1);
        }
        assert forall|a: (P, Seq<char>), b: (P, Seq<char>), c: (P, Seq<char>)|
            #[trigger] (by_name::<P>())(a, b) && #[trigger] (by_name::<P>())(b, c) implies (by_name::<
            P,
        >())(a, c) by {
            crate::text::lemma_lex_lt_transitive(a.1, b.1, c.1);
        }
    }
    crate::order::lemma_sort_by(es, by_name::<P>());
    let r = crate::order::sort_by(es, by_name::<P>());
    assert forall|i: int, j: int| 0 <= i < j < r.len() implies !crate::text::lex_lt(
        (#[trigger] r[j]).1,
        (#[trigger] r[i]).1,
    ) by {
        assert(!(by_name::<P>())(r[j], r[i]));
    }
}

/// What the file system shows for a change given by name or path; the places
/// are tried in this order.
#[derive(Debug, Clone, Copy, PartialEq, Eq, Structural)]
pub struct ChangeProbe {
    /// `openspec/changes/<name>/tasks.md` exists under the project root.
    pub named: bool,
    /// `<name>/tasks.md` exists.
    pub direct: bool,
    /// `<name>/openspec/changes` exists.
    pub project: bool,
    /// `<name>` is a directory with a subdirectory that holds a `tasks.md`.
    pub listing: bool,
}

/// Where a change given by name or path is found.
#[derive(Debug, Clone, Copy, PartialEq, Eq, Structural)]
pub enum ChangeLocation {
    /// The change `openspec/changes/<name>` of the project.
    Named,
    /// The change directory `<name>` itself.
    Direct,
    /// Every change of the project rooted at `<name>` (possibly none).
    ProjectRoot,
    /// Every change directory inside `<name>`.
    ChangesDir,
    /// Nowhere: the change is not found.
    NotFound,
}

/// The first place that the probe shows, in the order they are tried.
pub open spec fn location_of(p: ChangeProbe) -> ChangeLocation {
    if p.named {
        ChangeLocation::Named
    } else if p.direct {
        ChangeLocation::Direct
    } else if p.project {
        ChangeLocation::ProjectRoot
    } else if p.listing {
        ChangeLocation::ChangesDir
    } else {
        ChangeLocation::NotFound
    }
}

/// Decides where a change given by name or path is found.
pub fn locate_change(p: &ChangeProbe) -> (r: ChangeLocation)
    ensures
        r == location_of(*p),
{
    if p.named {
        ChangeLocation::Named
    } else if p.direct {
        ChangeLocation::Direct
    } else if p.project {
        ChangeLocation::ProjectRoot
    } else if p.listing {
        ChangeLocation::ChangesDir
    } else {
        ChangeLocation::NotFound
    }
}

/// The error for a change that is found nowhere.
pub fn not_found_message(name: &str) -> (r: String)
    ensures
        r@ == "Change '"@ + name@ + "' not found (no tasks.md)"@,
{
    let mut r = String::from_str("Change '");
    r.append(name);
    r.append("' not found (no tasks.md)");
    r
}

} // verus!
