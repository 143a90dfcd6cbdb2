//! Declarative rules: tree patterns with metadata, collected into an
//! immutable rule set that is validated once and never changed afterwards.

use vstd::prelude::*;
use crate::syntax::NodeKind;

verus! {

/// What kind of sensitive construct a rule looks for.
#[derive(Clone, Copy, PartialEq, Eq, Structural, Debug)]
pub enum Category {
    CredentialLeak,
    UnsafeMemory,
    StructuralLeak,
}

/// How directly a matched value reaches the enclosing risk-bearing call.
#[derive(Clone, Copy, PartialEq, Eq, Structural, Debug)]
pub enum ScopeClass {
    /// The matched node itself fills the argument position.
    Direct,
    /// The matched node is one operand of a compound expression in the
    /// argument position.
    Nested,
    /// The matched value reaches the call through an intermediate binding.
    ResultFlow,
}

/// How sure the scope resolver is of a `ResultFlow` classification. A bare
/// identifier argument whose binding is not found locally (for instance a
/// parameter of the enclosing function) is still reported, with reduced
/// confidence, rather than dropped: under-suppression is preferred to silent
/// loss of true positives.
#[derive(Clone, Copy, PartialEq, Eq, Structural, Debug)]
pub enum Confidence {
    Full,
    Reduced,
}

impl ScopeClass {
    /// Order of directness: the smaller the rank, the more actionable the
    /// classification.
    pub open spec fn rank_spec(self) -> int {
        match self {
            ScopeClass::Direct => 0,
            ScopeClass::Nested => 1,
            ScopeClass::ResultFlow => 2,
        }
    }

    pub fn rank(&self) -> (r: u32)
        ensures
            r as int == self.rank_spec(),
    {
        match self {
            ScopeClass::Direct => 0,
            ScopeClass::Nested => 1,
            ScopeClass::ResultFlow => 2,
        }
    }
}

/// Which scope classes a rule reports. A rule that only cares about values
/// placed directly at a call keeps `nested` and `result_flow` off, so a value
/// merely mixed into a compound argument is not reported for it.
#[derive(Clone, Copy, PartialEq, Eq, Structural, Debug)]
pub struct ScopeSet {
    pub direct: bool,
    pub nested: bool,
    pub result_flow: bool,
}

impl ScopeSet {
    pub open spec fn allows_spec(self, c: ScopeClass) -> bool {
        match c {
            ScopeClass::Direct => self.direct,
            ScopeClass::Nested => self.nested,
            ScopeClass::ResultFlow => self.result_flow,
        }
    }

    pub fn allows(&self, c: ScopeClass) -> (r: bool)
        ensures
            r == self.allows_spec(c),
    {
        match c {
            ScopeClass::Direct => self.direct,
            ScopeClass::Nested => self.nested,
            ScopeClass::ResultFlow => self.result_flow,
        }
    }

    /// The set that reports every classification.
    pub fn all() -> (r: ScopeSet)
        ensures
            forall|c: ScopeClass| r.allows_spec(c),
    {
        ScopeSet { direct: true, nested: true, result_flow: true }
    }
}

/// One node of a tree pattern, stored in a small arena exactly like the
/// syntax trees it is matched against: children carry smaller indices.
pub struct PatNode {
    /// The node kind this pattern node requires.
    pub kind: NodeKind,
    /// If set, the syntax node must carry one of these names.
    pub name_any_of: Option<Vec<Vec<u8>>>,
    /// If set, the syntax node must carry a literal value starting with
    /// these bytes.
    pub value_prefix: Option<Vec<u8>>,
    /// Required child patterns: each must be satisfied by some child of the
    /// matched node.
    pub children: Vec<usize>,
}

/// Pattern arena indices only ever point downwards.
pub open spec fn pats_wf(pats: Seq<PatNode>) -> bool {
    forall|i: int, k: int|
        0 <= i < pats.len() && 0 <= k < pats[i].children.len() ==> (#[trigger] pats[i].children[k])
            < i
}

/// One declarative rule: metadata plus a tree pattern rooted at `root`.
pub struct Rule {
    pub id: u64,
    /// Language tags the rule applies to.
    pub languages: Vec<Vec<u8>>,
    pub category: Category,
    /// Default severity; larger is more severe.
    pub severity: u32,
    /// Which scope classes the rule reports.
    pub reports: ScopeSet,
    /// Pattern arena; the pattern is rooted at `root`.
    pub pats: Vec<PatNode>,
    pub root: usize,
}

impl Rule {
    pub open spec fn wf(self) -> bool {
        &&& self.root < self.pats.len()
        &&& pats_wf(self.pats@)
    }
}

/// Index of the first malformed rule in a rejected rule document.
#[derive(Clone, Copy, PartialEq, Eq, Structural, Debug)]
pub struct RuleLoadError {
    pub rule_index: usize,
}

/// A validated, immutable collection of rules.
pub struct RuleSet {
    rules: Vec<Rule>,
}

impl RuleSet {
    pub closed spec fn rules_seq(self) -> Seq<Rule> {
        self.rules@
    }

    pub open spec fn wf(self) -> bool {
        forall|r: int| 0 <= r < self.rules_seq().len() ==> (#[trigger] self.rules_seq()[r]).wf()
    }

    /// Validates a rule document and freezes it into a rule set. Loading is
    /// all or nothing: one malformed pattern rejects the whole document.
    pub fn load(rules: Vec<Rule>) -> (r: Result<RuleSet, RuleLoadError>)
        ensures
            r is Ok ==> r->Ok_0.wf() && r->Ok_0.rules_seq() == rules@,
            r is Err ==> r->Err_0.rule_index < rules.len() && !rules[r->Err_0.rule_index as int].wf()
                && (forall|i: int| 0 <= i < r->Err_0.rule_index ==> (#[trigger] rules[i]).wf()),
            (forall|i: int| 0 <= i < rules.len() ==> (#[trigger] rules[i]).wf()) ==> r is Ok,
    {
        let mut ri: usize = 0;
        while ri < rules.len()
            invariant
                ri <= rules.len(),
                forall|i: int| 0 <= i < ri ==> (#[trigger] rules[i]).wf(),
            decreases rules.len() - ri,
        {
            let rule = &rules[ri];
            if rule.root >= rule.pats.len() {
                return Err(RuleLoadError { rule_index: ri });
            }
            let mut pi: usize = 0;
            while pi < rule.pats.len()
                invariant
                    pi <= rule.pats.len(),
                    forall|i: int, k: int|
                        0 <= i < pi && 0 <= k < rule.pats[i].children.len() ==> (#[trigger] rule
                            .pats[i].children[k]) < i,
                decreases rule.pats.len() - pi,
            {
                let mut k: usize = 0;
                while k < rule.pats[pi].children.len()
                    invariant
                        pi < rule.pats.len(),
                        k <= rule.pats[pi as int].children.len(),
                        forall|kk: int|
                            0 <= kk < k ==> (#[trigger] rule.pats[pi as int].children[kk]) < pi,
                    decreases rule.pats[pi as int].children.len() - k,
                {
                    if rule.pats[pi].children[k] >= pi {
                        return Err(RuleLoadError { rule_index: ri });
                    }
                    k = k + 1;
                }
                pi = pi + 1;
            }
            ri = ri + 1;
        }
        Ok(RuleSet { rules })
    }

    pub fn len(&self) -> (n: usize)
        ensures
            n == self.rules_seq().len(),
    {
        self.rules.len()
    }

    pub fn rule_at(&self, i: usize) -> (r: &Rule)
        requires
            i < self.rules_seq().len(),
        ensures
            *r == self.rules_seq()[i as int],
    {
        &self.rules[i]
    }
}

} // verus!
