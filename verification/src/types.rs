//! Core types: the system signature of a plan, grounded atoms and results,
//! directives, and the output of a check; with their mathematical views.
use vstd::prelude::*;

verus! {

/// The characters of each string of a sequence.
pub open spec fn strings_view(v: Seq<String>) -> Seq<Seq<char>> {
    v.map_values(|s: String| s@)
}

// ── System signature ──

/// A sort of the signature, such as `task_id`.
#[derive(Debug, Clone)]
pub struct TypeDef {
    pub name: String,
}

/// One argument slot of a predicate.
#[derive(Debug, Clone)]
pub struct ArgSlot {
    pub name: String,
    pub sort_name: String,
}

/// The view of an argument slot.
pub struct ArgSlotView {
    pub name: Seq<char>,
    pub sort_name: Seq<char>,
}

impl View for ArgSlot {
    type V = ArgSlotView;

    open spec fn view(&self) -> ArgSlotView {
        ArgSlotView { name: self.name@, sort_name: self.sort_name@ }
    }
}

/// A predicate symbol with its argument slots.
#[derive(Debug, Clone)]
pub struct PredicateDef {
    pub name: String,
    pub arguments: Vec<ArgSlot>,
}

/// The view of a predicate.
pub struct PredicateView {
    pub name: Seq<char>,
    pub arguments: Seq<ArgSlotView>,
}

impl View for PredicateDef {
    type V = PredicateView;

    open spec fn view(&self) -> PredicateView {
        PredicateView {
            name: self.name@,
            arguments: self.arguments@.map_values(|a: ArgSlot| a@),
        }
    }
}

/// A constant of the signature (a task), with alternative natural-language forms.
#[derive(Debug, Clone)]
pub struct ConstantDef {
    pub name: String,
    pub sort_name: String,
    /// Alternative NL forms for fuzzy matching (from task descriptions).
    pub aliases: Vec<String>,
}

/// The view of a constant.
pub struct ConstantView {
    pub name: Seq<char>,
    pub sort_name: Seq<char>,
    pub aliases: Seq<Seq<char>>,
}

impl View for ConstantDef {
    type V = ConstantView;

    open spec fn view(&self) -> ConstantView {
        ConstantView {
            name: self.name@,
            sort_name: self.sort_name@,
            aliases: strings_view(self.aliases@),
        }
    }
}

/// A many-sorted system signature: the vocabulary of a plan.
#[derive(Debug, Clone)]
pub struct Signature {
    pub types: Vec<TypeDef>,
    pub predicates: Vec<PredicateDef>,
    pub constants: Vec<ConstantDef>,
}

/// The view of a signature.
pub struct SignatureView {
    pub types: Seq<Seq<char>>,
    pub predicates: Seq<PredicateView>,
    pub constants: Seq<ConstantView>,
}

impl View for Signature {
    type V = SignatureView;

    open spec fn view(&self) -> SignatureView {
        SignatureView {
            types: self.types@.map_values(|t: TypeDef| t.name@),
            predicates: self.predicates@.map_values(|p: PredicateDef| p@),
            constants: self.constants@.map_values(|c: ConstantDef| c@),
        }
    }
}

/// Counts of the parts of a signature.
#[derive(Debug, Clone, Copy, PartialEq, Eq, Structural)]
pub struct SignatureSummary {
    pub tasks: usize,
    pub predicates: usize,
    pub types: usize,
}

impl Signature {
    /// Counts of tasks (constants), predicates and types.
    pub fn summary(&self) -> (s: SignatureSummary)
        ensures
            s.tasks == self.constants.len(),
            s.predicates == self.predicates.len(),
            s.types == self.types.len(),
    {
        SignatureSummary {
            tasks: self.constants.len(),
            predicates: self.predicates.len(),
            types: self.types.len(),
        }
    }
}

// ── Grounding ──

/// A grounded atom: predicate + concrete arguments.
///
/// `confidence` is in hundredths: 95 stands for a confidence of 0.95.
#[derive(Debug, Clone)]
pub struct GroundedAtom {
    pub predicate: String,
    pub arguments: Vec<String>,
    pub confidence: u32,
}

/// The view of a grounded atom.
pub struct AtomView {
    pub predicate: Seq<char>,
    pub arguments: Seq<Seq<char>>,
    pub confidence: nat,
}

impl View for GroundedAtom {
    type V = AtomView;

    open spec fn view(&self) -> AtomView {
        AtomView {
            predicate: self.predicate@,
            arguments: strings_view(self.arguments@),
            confidence: self.confidence as nat,
        }
    }
}

/// The confidence (in hundredths) from which a candidate counts as grounded.
pub open spec fn grounded_threshold() -> nat {
    80
}

/// Overall status of a grounding attempt.
#[derive(Debug, Clone, Copy, PartialEq, Eq, Structural)]
pub enum GroundingStatus {
    /// At least one candidate with confidence >= 0.8.
    Grounded,
    /// Candidates exist but all below 0.8.
    Ambiguous,
    /// No candidates found.
    Ungroundable,
}

/// The status that a list of candidates earns, as `GroundingStatus` documents it.
pub open spec fn status_of(candidates: Seq<AtomView>) -> GroundingStatus {
    if exists|i: int|
        0 <= i < candidates.len() && #[trigger] candidates[i].confidence >= grounded_threshold() {
        GroundingStatus::Grounded
    } else if candidates.len() > 0 {
        GroundingStatus::Ambiguous
    } else {
        GroundingStatus::Ungroundable
    }
}

/// Result of grounding one NL span.
#[derive(Debug, Clone)]
pub struct GroundingResult {
    pub candidates: Vec<GroundedAtom>,
    pub status: GroundingStatus,
}

/// The view of a grounding result.
pub struct GroundingView {
    pub candidates: Seq<AtomView>,
    pub status: GroundingStatus,
}

impl View for GroundingResult {
    type V = GroundingView;

    open spec fn view(&self) -> GroundingView {
        GroundingView {
            candidates: self.candidates@.map_values(|a: GroundedAtom| a@),
            status: self.status,
        }
    }
}

// ── Directives (feedback to the LLM) ──

/// A Dice similarity `2 * shared / total`, kept as an exact fraction; it is 0
/// when `total` is 0.
#[derive(Debug, Clone, Copy, PartialEq, Eq, Structural)]
pub struct Similarity {
    pub shared: usize,
    pub total: usize,
}

/// `a` is a smaller similarity than `b` (the fractions compared by cross
/// multiplication; the common factor 2 cancels).
pub open spec fn sim_lt(a: Similarity, b: Similarity) -> bool {
    if b.total == 0 {
        false
    } else if a.total == 0 {
        b.shared > 0
    } else {
        a.shared * b.total < b.shared * a.total
    }
}

/// A close match suggestion for ungroundable text.
#[derive(Debug, Clone)]
pub struct CloseMatch {
    pub constant: String,
    pub alias: String,
    pub similarity: Similarity,
}

/// The view of a close match.
pub struct CloseMatchView {
    pub constant: Seq<char>,
    pub alias: Seq<char>,
    pub similarity: Similarity,
}

impl View for CloseMatch {
    type V = CloseMatchView;

    open spec fn view(&self) -> CloseMatchView {
        CloseMatchView { constant: self.constant@, alias: self.alias@, similarity: self.similarity }
    }
}

/// A structured directive telling the LLM what to fix.
#[derive(Debug, Clone)]
pub struct Directive {
    pub severity: String,
    pub element: String,
    pub detail: String,
    pub suggested_action: String,
    pub close_matches: Option<Vec<CloseMatch>>,
}

/// The view of a directive.
pub struct DirectiveView {
    pub severity: Seq<char>,
    pub element: Seq<char>,
    pub detail: Seq<char>,
    pub suggested_action: Seq<char>,
    pub close_matches: Option<Seq<CloseMatchView>>,
}

impl View for Directive {
    type V = DirectiveView;

    open spec fn view(&self) -> DirectiveView {
        DirectiveView {
            severity: self.severity@,
            element: self.element@,
            detail: self.detail@,
            suggested_action: self.suggested_action@,
            close_matches: match self.close_matches {
                Some(v) => Some(v@.map_values(|m: CloseMatch| m@)),
                None => None,
            },
        }
    }
}

// ── Check output ──

/// One grounded input with its directives.
#[derive(Debug, Clone)]
pub struct GroundedInput {
    pub source: String,
    pub text: String,
    pub groundings: Vec<GroundedAtom>,
    pub status: GroundingStatus,
    pub directives: Vec<Directive>,
}

/// The view of a grounded input.
pub struct GroundedInputView {
    pub source: Seq<char>,
    pub text: Seq<char>,
    pub groundings: Seq<AtomView>,
    pub status: GroundingStatus,
    pub directives: Seq<DirectiveView>,
}

impl View for GroundedInput {
    type V = GroundedInputView;

    open spec fn view(&self) -> GroundedInputView {
        GroundedInputView {
            source: self.source@,
            text: self.text@,
            groundings: self.groundings@.map_values(|a: GroundedAtom| a@),
            status: self.status,
            directives: self.directives@.map_values(|d: Directive| d@),
        }
    }
}

/// Summary counts.
#[derive(Debug, Clone, Copy, PartialEq, Eq, Structural)]
pub struct CheckSummary {
    pub total: usize,
    pub grounded: usize,
    pub ambiguous: usize,
    pub ungroundable: usize,
}

impl CheckSummary {
    /// Whether some input is ambiguous or ungroundable (the check then fails).
    pub fn has_issues(&self) -> (b: bool)
        ensures
            b == (self.ungroundable > 0 || self.ambiguous > 0),
    {
        self.ungroundable > 0 || self.ambiguous > 0
    }
}

/// Full check output.
#[derive(Debug, Clone)]
pub struct CheckOutput {
    pub plan_name: String,
    pub signature: SignatureSummary,
    pub inputs: Vec<GroundedInput>,
    pub summary: CheckSummary,
}

/// The view of a check output.
pub struct CheckOutputView {
    pub plan_name: Seq<char>,
    pub signature: SignatureSummary,
    pub inputs: Seq<GroundedInputView>,
    pub summary: CheckSummary,
}

impl View for CheckOutput {
    type V = CheckOutputView;

    open spec fn view(&self) -> CheckOutputView {
        CheckOutputView {
            plan_name: self.plan_name@,
            signature: self.signature,
            inputs: self.inputs@.map_values(|i: GroundedInput| i@),
            summary: self.summary,
        }
    }
}

// ── Copies ──

/// A copy of each string, with the same characters.
pub fn copy_strings(v: &Vec<String>) -> (r: Vec<String>)
    ensures
        strings_view(r@) == strings_view(v@),
{
    let mut r: Vec<String> = Vec::new();
    for i in 0..v.len()
        invariant
            strings_view(r@) == strings_view(v@).take(i as int),
    {
        let ghost before = strings_view(r@);
        r.push(v[i].clone());
        assert(strings_view(r@) =~= before.push(v@[i as int]@));
        assert(strings_view(v@).take(i + 1) =~= strings_view(v@).take(i as int).push(v@[i as int]@));
    }
    assert(strings_view(v@).take(v.len() as int) =~= strings_view(v@));
    r
}

impl GroundedAtom {
    /// A copy of the atom, with the same view.
    pub fn copy(&self) -> (r: GroundedAtom)
        ensures
            r@ == self@,
    {
        GroundedAtom {
            predicate: self.predicate.clone(),
            arguments: copy_strings(&self.arguments),
            confidence: self.confidence,
        }
    }
}

impl CloseMatch {
    /// A copy of the close match, with the same view.
    pub fn copy(&self) -> (r: CloseMatch)
        ensures
            r@ == self@,
    {
        CloseMatch {
            constant: self.constant.clone(),
            alias: self.alias.clone(),
            similarity: self.similarity,
        }
    }
}

/// A copy of each atom.
pub fn copy_atoms(v: &Vec<GroundedAtom>) -> (r: Vec<GroundedAtom>)
    ensures
        r@.map_values(|a: GroundedAtom| a@) == v@.map_values(|a: GroundedAtom| a@),
{
    let mut r: Vec<GroundedAtom> = Vec::new();
    for i in 0..v.len()
        invariant
            r@.map_values(|a: GroundedAtom| a@) == v@.map_values(|a: GroundedAtom| a@).take(i as int),
    {
        let ghost before = r@.map_values(|a: GroundedAtom| a@);
        r.push(v[i].copy());
        assert(r@.map_values(|a: GroundedAtom| a@) =~= before.push(v@[i as int]@));
        assert(v@.map_values(|a: GroundedAtom| a@).take(i + 1) =~= v@.map_values(
            |a: GroundedAtom| a@,
        ).take(i as int).push(v@[i as int]@));
    }
    assert(v@.map_values(|a: GroundedAtom| a@).take(v.len() as int) =~= v@.map_values(
        |a: GroundedAtom| a@,
    ));
    r
}

/// A copy of each close match.
pub fn copy_close_matches(v: &Vec<CloseMatch>) -> (r: Vec<CloseMatch>)
    ensures
        r@.map_values(|m: CloseMatch| m@) == v@.map_values(|m: CloseMatch| m@),
{
    let mut r: Vec<CloseMatch> = Vec::new();
    for i in 0..v.len()
        invariant
            r@.map_values(|m: CloseMatch| m@) == v@.map_values(|m: CloseMatch| m@).take(i as int),
    {
        let ghost before = r@.map_values(|m: CloseMatch| m@);
        r.push(v[i].copy());
        assert(r@.map_values(|m: CloseMatch| m@) =~= before.push(v@[i as int]@));
        assert(v@.map_values(|m: CloseMatch| m@).take(i + 1) =~= v@.map_values(
            |m: CloseMatch| m@,
        ).take(i as int).push(v@[i as int]@));
    }
    assert(v@.map_values(|m: CloseMatch| m@).take(v.len() as int) =~= v@.map_values(
        |m: CloseMatch| m@,
    ));
    r
}

impl Directive {
    /// A copy of the directive, with the same view.
    pub fn copy(&self) -> (r: Directive)
        ensures
            r@ == self@,
    {
        let close_matches = match &self.close_matches {
            Some(v) => Some(copy_close_matches(v)),
            None => None,
        };
        Directive {
            severity: self.severity.clone(),
            element: self.element.clone(),
            detail: self.detail.clone(),
            suggested_action: self.suggested_action.clone(),
            close_matches,
        }
    }
}

/// A copy of each directive.
pub fn copy_directives(v: &Vec<Directive>) -> (r: Vec<Directive>)
    ensures
        r@.map_values(|d: Directive| d@) == v@.map_values(|d: Directive| d@),
{
    let mut r: Vec<Directive> = Vec::new();
    for i in 0..v.len()
        invariant
            r@.map_values(|d: Directive| d@) == v@.map_values(|d: Directive| d@).take(i as int),
    {
        let ghost before = r@.map_values(|d: Directive| d@);
        r.push(v[i].copy());
        assert(r@.map_values(|d: Directive| d@) =~= before.push(v@[i as int]@));
        assert(v@.map_values(|d: Directive| d@).take(i + 1) =~= v@.map_values(
            |d: Directive| d@,
        ).take(i as int).push(v@[i as int]@));
    }
    assert(v@.map_values(|d: Directive| d@).take(v.len() as int) =~= v@.map_values(
        |d: Directive| d@,
    ));
    r
}

impl GroundedInput {
    /// A copy of the input, with the same view.
    pub fn copy(&self) -> (r: GroundedInput)
        ensures
            r@ == self@,
    {
        GroundedInput {
            source: self.source.clone(),
            text: self.text.clone(),
            groundings: copy_atoms(&self.groundings),
            status: self.status,
            directives: copy_directives(&self.directives),
        }
    }
}

/// A copy of each input.
pub fn copy_inputs(v: &Vec<GroundedInput>) -> (r: Vec<GroundedInput>)
    ensures
        r@.map_values(|i: GroundedInput| i@) == v@.map_values(|i: GroundedInput| i@),
{
    let mut r: Vec<GroundedInput> = Vec::new();
    for k in 0..v.len()
        invariant
            r@.map_values(|i: GroundedInput| i@) == v@.map_values(|i: GroundedInput| i@).take(
                k as int,
            ),
    {
        let ghost before = r@.map_values(|i: GroundedInput| i@);
        r.push(v[k].copy());
        assert(r@.map_values(|i: GroundedInput| i@) =~= before.push(v@[k as int]@));
        assert(v@.map_values(|i: GroundedInput| i@).take(k + 1) =~= v@.map_values(
            |i: GroundedInput| i@,
        ).take(k as int).push(v@[k as int]@));
    }
    assert(v@.map_values(|i: GroundedInput| i@).take(v.len() as int) =~= v@.map_values(
        |i: GroundedInput| i@,
    ));
    r
}

impl CheckOutput {
    /// A copy of the output, with the same view.
    pub fn copy(&self) -> (r: CheckOutput)
        ensures
            r@ == self@,
    {
        CheckOutput {
            plan_name: self.plan_name.clone(),
            signature: self.signature,
            inputs: copy_inputs(&self.inputs),
            summary: self.summary,
        }
    }
}

// ── Grounder trait ──

/// Pluggable grounding strategy.
pub trait Grounder: Send + Sync {
    /// What grounding `nl` against `sig` gives; `None` for the texts that the
    /// strategy cannot process.
    spec fn spec_ground(&self, nl: Seq<char>, sig: SignatureView) -> Option<GroundingView>;

    /// Ground one NL span against a signature.
    fn ground(&self, nl: &str, sig: &Signature) -> (r: GroundingResult)
        requires
            self.spec_ground(nl@, sig@) is Some,
        ensures
            self.spec_ground(nl@, sig@) == Some(r@),
    ;

    /// Ground multiple NL spans, each as `ground` does.
    fn ground_batch(&self, inputs: &[&str], sig: &Signature) -> (rs: Vec<GroundingResult>)
        requires
            forall|i: int| 0 <= i < inputs@.len() ==> self.spec_ground(inputs@[i]@, sig@) is Some,
        ensures
            rs@.len() == inputs@.len(),
            forall|i: int|
                0 <= i < inputs@.len() ==> self.spec_ground(inputs@[i]@, sig@) == Some(
                    #[trigger] rs@[i]@,
                ),
    {
        let mut rs: Vec<GroundingResult> = Vec::new();
        for k in 0..inputs.len()
            invariant
                forall|i: int|
                    0 <= i < inputs@.len() ==> self.spec_ground(inputs@[i]@, sig@) is Some,
                rs@.len() == k,
                forall|i: int|
                    0 <= i < k ==> self.spec_ground(inputs@[i]@, sig@) == Some(#[trigger] rs@[i]@),
        {
            let r = self.ground(inputs[k], sig);
            rs.push(r);
        }
        rs
    }
}

} // verus!
