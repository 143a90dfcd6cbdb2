//! The scan pipeline: parse one source unit, match the rules, classify each
//! match, and aggregate the findings. Each unit is scanned independently of
//! every other, so a corpus result is a per-unit value and one file's
//! malformed text never disturbs another file's findings.

use vstd::prelude::*;
use crate::syntax::{SyntaxTree, node_wf};
use crate::rules::{Rule, RuleSet};
use crate::matcher::{RawMatch, all_matches, matches_of_node, matches_upto, match_tree, bytes_eq};
use crate::scope::{scope_decision_of, classify};
use crate::aggregate::{ClassifiedMatch, Finding, aggregate, aggregate_spec, ranges_ok, renders};
use crate::parser::parse_rust;

verus! {

/// One input file: its path, its language tag, and its raw text. The engine
/// never guesses the language; the tag comes from the caller.
pub struct SourceUnit {
    pub path: Vec<u8>,
    pub lang: Vec<u8>,
    pub text: Vec<u8>,
}

/// Per-unit failure: no adapter is registered for the unit's language tag.
/// The unit is skipped and reported; the scan of other units continues.
#[derive(Clone, Copy, PartialEq, Eq, Structural, Debug)]
pub enum ScanError {
    UnsupportedLanguage,
}

/// The scan result of one source unit: its findings, and the byte offset of
/// the first syntax error when the text was malformed. A malformed unit
/// still contributes the findings of its well-formed prefix.
pub struct FileReport {
    pub findings: Vec<Finding>,
    pub parse_diagnostic: Option<usize>,
}

/// The language tag the built-in adapter answers to.
pub open spec fn rust_tag() -> Seq<u8> {
    seq![114u8, 117u8, 115u8, 116u8]
}

/// The tag bytes, spelling "rust".
pub fn rust_lang_tag() -> (r: Vec<u8>)
    ensures
        r@ == rust_tag(),
{
    let mut r: Vec<u8> = Vec::new();
    r.push(114);
    r.push(117);
    r.push(115);
    r.push(116);
    proof {
        assert(r@ =~= rust_tag());
    }
    r
}

/// The classification-and-filter step over a sequence of raw matches: each
/// match is classified by the scope resolver, and kept exactly when its rule
/// reports that scope class.
pub open spec fn classified_of(t: SyntaxTree, rules: Seq<Rule>, ms: Seq<RawMatch>) -> Seq<
    ClassifiedMatch,
>
    decreases ms.len(),
{
    if ms.len() == 0 {
        Seq::empty()
    } else {
        let rest = classified_of(t, rules, ms.drop_last());
        let rm = ms.last();
        let rule = rules[rm.rule as int];
        let d = scope_decision_of(t.nodes@, rm.node as int);
        if rule.reports.allows_spec(d.class) {
            rest.push(
                ClassifiedMatch {
                    rule_id: rule.id,
                    severity: rule.severity,
                    category: rule.category,
                    class: d.class,
                    confidence: d.confidence,
                    start: t.nodes[rm.node as int].start,
                    end: t.nodes[rm.node as int].end,
                },
            )
        } else {
            rest
        }
    }
}

/// Raw matches point into the tree and the rule set.
pub open spec fn matches_bounded(t: SyntaxTree, rules: Seq<Rule>, ms: Seq<RawMatch>) -> bool {
    forall|q: int|
        0 <= q < ms.len() ==> (#[trigger] ms[q]).node < t.nodes.len() && ms[q].rule < rules.len()
}

proof fn lemma_matches_of_node_bounded(t: SyntaxTree, rules: Seq<Rule>, lang: Seq<u8>, i: int, rn: int)
    requires
        0 <= i < t.nodes.len(),
        0 <= rn <= rules.len(),
    ensures
        matches_bounded(t, rules, matches_of_node(t, rules, lang, i, rn)),
    decreases rn,
{
    if rn > 0 {
        lemma_matches_of_node_bounded(t, rules, lang, i, rn - 1);
    }
}

proof fn lemma_matches_upto_bounded(t: SyntaxTree, rules: Seq<Rule>, lang: Seq<u8>, i: int)
    requires
        0 <= i <= t.nodes.len(),
    ensures
        matches_bounded(t, rules, matches_upto(t, rules, lang, i)),
    decreases i,
{
    if i > 0 {
        lemma_matches_upto_bounded(t, rules, lang, i - 1);
        lemma_matches_of_node_bounded(t, rules, lang, i - 1, rules.len() as int);
    }
}

proof fn lemma_classified_ranges(t: SyntaxTree, rules: Seq<Rule>, ms: Seq<RawMatch>)
    requires
        t.wf(),
        matches_bounded(t, rules, ms),
    ensures
        ranges_ok(classified_of(t, rules, ms), t.text_len as int),
    decreases ms.len(),
{
    if ms.len() > 0 {
        assert(matches_bounded(t, rules, ms.drop_last()));
        lemma_classified_ranges(t, rules, ms.drop_last());
        assert(node_wf(t.nodes@, t.text_len as int, ms.last().node as int));
    }
}

/// The aggregated matches of a whole tree under a rule set: match, classify,
/// filter, deduplicate, order. This is what a unit's findings render.
pub open spec fn final_cms(t: SyntaxTree, rules: Seq<Rule>, lang: Seq<u8>) -> Seq<
    ClassifiedMatch,
> {
    aggregate_spec(classified_of(t, rules, all_matches(t, rules, lang)))
}

/// Scans one already-parsed tree: every finding field is pinned by the tree,
/// the rules, the language tag, the path and the text.
pub fn scan_tree(
    t: &SyntaxTree,
    rs: &RuleSet,
    lang: &Vec<u8>,
    path: &Vec<u8>,
    text: &Vec<u8>,
) -> (fs: Vec<Finding>)
    requires
        t.wf(),
        rs.wf(),
        t.text_len == text.len(),
        text.len() < usize::MAX,
    ensures
        fs@.len() == final_cms(*t, rs.rules_seq(), lang@).len(),
        forall|i: int|
            0 <= i < fs@.len() ==> renders(
                #[trigger] fs@[i],
                final_cms(*t, rs.rules_seq(), lang@)[i],
                path@,
                text@,
            ),
{
    let ms = match_tree(t, rs, lang);
    proof {
        lemma_matches_upto_bounded(*t, rs.rules_seq(), lang@, t.nodes.len() as int);
    }
    let mut cms: Vec<ClassifiedMatch> = Vec::new();
    let mut i: usize = 0;
    while i < ms.len()
        invariant
            i <= ms.len(),
            cms@ == classified_of(*t, rs.rules_seq(), ms@.subrange(0, i as int)),
        decreases ms.len() - i,
    {
        let rm = ms[i];
        let d = classify(t, rm.node);
        let rule = rs.rule_at(rm.rule);
        if rule.reports.allows(d.class) {
            let cm = ClassifiedMatch {
                rule_id: rule.id,
                severity: rule.severity,
                category: rule.category,
                class: d.class,
                confidence: d.confidence,
                start: t.nodes[rm.node].start,
                end: t.nodes[rm.node].end,
            };
            cms.push(cm);
        }
        proof {
            assert(ms@.subrange(0, i + 1).drop_last() =~= ms@.subrange(0, i as int));
            assert(ms@.subrange(0, i + 1).last() == rm);
        }
        i = i + 1;
    }
    proof {
        assert(ms@.subrange(0, ms.len() as int) =~= ms@);
        lemma_classified_ranges(*t, rs.rules_seq(), ms@);
    }
    aggregate(path, text, &cms)
}

/// What a successful scan of one unit reports: there is a well-formed tree
/// of the unit's text whose aggregated matches the findings render, one for
/// one. A text without tokens has the bare root tree and no diagnostic, and
/// a clean scan of a text with tokens has parsed nodes beneath the root.
pub open spec fn report_for(unit: SourceUnit, rules: Seq<Rule>, rep: FileReport) -> bool {
    exists|t: SyntaxTree|
        {
            &&& #[trigger] t.wf()
            &&& t.text_len == unit.text.len()
            &&& (unit.text.len() == 0 ==> t.nodes.len() == 1 && rep.parse_diagnostic is None)
            &&& (crate::lexer::lex_spec(unit.text@).len() == 0 ==> t.nodes.len() == 1
                && rep.parse_diagnostic is None)
            &&& (rep.parse_diagnostic is None && crate::lexer::lex_spec(unit.text@).len() > 0
                ==> t.nodes.len() >= 2)
            &&& (rep.parse_diagnostic matches Some(off) ==> off <= unit.text.len())
            &&& rep.findings.len() == final_cms(t, rules, unit.lang@).len()
            &&& forall|i: int|
                0 <= i < rep.findings.len() ==> renders(
                    #[trigger] rep.findings[i],
                    final_cms(t, rules, unit.lang@)[i],
                    unit.path@,
                    unit.text@,
                )
        }
}

/// Scans one source unit: parse, match, classify, aggregate. A unit whose
/// language tag has no adapter is refused; malformed text is scanned up to
/// the first error, whose offset is reported alongside the findings.
pub fn scan_unit(unit: &SourceUnit, rs: &RuleSet) -> (r: Result<FileReport, ScanError>)
    requires
        rs.wf(),
        unit.text.len() < usize::MAX,
    ensures
        (r is Err) <==> unit.lang@ != rust_tag(),
        r matches Ok(rep) ==> report_for(*unit, rs.rules_seq(), rep),
{
    let tag = rust_lang_tag();
    if !bytes_eq(&unit.lang, &tag) {
        return Err(ScanError::UnsupportedLanguage);
    }
    let parsed = parse_rust(&unit.text);
    let findings = scan_tree(&parsed.tree, rs, &unit.lang, &unit.path, &unit.text);
    let rep = FileReport { findings, parse_diagnostic: parsed.diagnostic };
    proof {
        assert(parsed.tree.wf());
    }
    Ok(rep)
}

/// Scans a corpus, one report per unit in caller order. Units are scanned
/// independently: each entry of the result is constrained by its own unit
/// alone, so a syntax error in one file leaves every other file's findings
/// exactly what they would have been without it.
pub fn scan_corpus(units: &Vec<SourceUnit>, rs: &RuleSet) -> (out: Vec<
    Result<FileReport, ScanError>,
>)
    requires
        rs.wf(),
        forall|u: int| 0 <= u < units.len() ==> (#[trigger] units[u]).text.len() < usize::MAX,
    ensures
        out@.len() == units.len(),
        forall|u: int|
            0 <= u < units.len() ==> ((#[trigger] out@[u]) is Err <==> units[u].lang@
                != rust_tag()),
        forall|u: int|
            0 <= u < units.len() ==> ((#[trigger] out@[u]) matches Ok(rep) ==> report_for(
                units[u],
                rs.rules_seq(),
                rep,
            )),
{
    let mut out: Vec<Result<FileReport, ScanError>> = Vec::new();
    let mut u: usize = 0;
    while u < units.len()
        invariant
            u <= units.len(),
            out@.len() == u,
            forall|k: int|
                0 <= k < u ==> ((#[trigger] out@[k]) is Err <==> units[k].lang@ != rust_tag()),
            forall|k: int|
                0 <= k < u ==> ((#[trigger] out@[k]) matches Ok(rep) ==> report_for(
                    units[k],
                    rs.rules_seq(),
                    rep,
                )),
        decreases units.len() - u,
    {
        let r = scan_unit(&units[u], rs);
        out.push(r);
        u = u + 1;
    }
    out
}

/// Law: an empty source unit yields zero findings. Its tree is the bare
/// root, and no rule whose pattern asks for anything but a root node can
/// match it.
pub proof fn lemma_empty_unit_no_findings(t: SyntaxTree, rules: Seq<Rule>, lang: Seq<u8>)
    requires
        t.nodes.len() == 1,
        t.nodes[0].kind == crate::syntax::NodeKind::Root,
        forall|ri: int| 0 <= ri < rules.len() ==> (#[trigger] rules[ri]).wf(),
        forall|ri: int|
            0 <= ri < rules.len() ==> (#[trigger] rules[ri]).pats[rules[ri].root as int].kind
                != crate::syntax::NodeKind::Root,
    ensures
        final_cms(t, rules, lang) =~= Seq::<ClassifiedMatch>::empty(),
{
    assert(matches_of_node(t, rules, lang, 0, 0) =~= Seq::<RawMatch>::empty());
    assert forall|rn: int| 0 <= rn <= rules.len() implies matches_of_node(t, rules, lang, 0, rn)
        =~= Seq::<RawMatch>::empty() by {
        lemma_empty_node_matches(t, rules, lang, rn);
    }
    assert(matches_upto(t, rules, lang, 0) =~= Seq::<RawMatch>::empty());
    assert(all_matches(t, rules, lang) =~= Seq::<RawMatch>::empty());
    assert(classified_of(t, rules, Seq::<RawMatch>::empty()) =~= Seq::<ClassifiedMatch>::empty());
    assert(crate::aggregate::dedup_spec(Seq::<ClassifiedMatch>::empty())
        =~= Seq::<ClassifiedMatch>::empty());
    assert(crate::aggregate::sort_spec(Seq::<ClassifiedMatch>::empty())
        =~= Seq::<ClassifiedMatch>::empty());
}

proof fn lemma_empty_node_matches(t: SyntaxTree, rules: Seq<Rule>, lang: Seq<u8>, rn: int)
    requires
        t.nodes.len() == 1,
        t.nodes[0].kind == crate::syntax::NodeKind::Root,
        forall|ri: int| 0 <= ri < rules.len() ==> (#[trigger] rules[ri]).wf(),
        forall|ri: int|
            0 <= ri < rules.len() ==> (#[trigger] rules[ri]).pats[rules[ri].root as int].kind
                != crate::syntax::NodeKind::Root,
        0 <= rn <= rules.len(),
    ensures
        matches_of_node(t, rules, lang, 0, rn) =~= Seq::<RawMatch>::empty(),
    decreases rn,
{
    if rn > 0 {
        lemma_empty_node_matches(t, rules, lang, rn - 1);
        assert(!crate::matcher::is_match(t, rules, lang, 0, rn - 1));
    }
}

/// Determinism of rendering: two finding sequences that render the same
/// aggregated matches against the same path and text agree in every field.
/// Together with the exact contracts of the matcher, the scope resolver and
/// the aggregator, the findings of a unit are a function of its tree, the
/// rule set and the language tag alone.
pub proof fn lemma_findings_deterministic(
    f1: Seq<Finding>,
    f2: Seq<Finding>,
    cms: Seq<ClassifiedMatch>,
    path: Seq<u8>,
    text: Seq<u8>,
)
    requires
        f1.len() == cms.len(),
        f2.len() == cms.len(),
        forall|i: int| 0 <= i < cms.len() ==> renders(#[trigger] f1[i], cms[i], path, text),
        forall|i: int| 0 <= i < cms.len() ==> renders(#[trigger] f2[i], cms[i], path, text),
    ensures
        f1.len() == f2.len(),
        forall|i: int|
            0 <= i < f1.len() ==> ((#[trigger] f1[i]).path@ == f2[i].path@ && f1[i].line
                == f2[i].line && f1[i].col == f2[i].col && f1[i].rule_id == f2[i].rule_id
                && f1[i].severity == f2[i].severity && f1[i].category == f2[i].category
                && f1[i].class == f2[i].class && f1[i].confidence == f2[i].confidence
                && f1[i].start == f2[i].start && f1[i].end
                == f2[i].end && f1[i].snippet@ == f2[i].snippet@),
{
}

} // verus!
