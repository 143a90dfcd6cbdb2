//! The pattern matcher: walks a syntax tree and yields every raw match of
//! every applicable rule, in one fixed, reproducible order.

use vstd::prelude::*;
use crate::syntax::{NodeKind, SyntaxNode, SyntaxTree, node_wf};
use crate::rules::{PatNode, Rule, RuleSet, pats_wf};

verus! {

/// One raw match: the index of the rule in its rule set and the index of the
/// matched node in its tree. The node's ancestor chain stays available
/// through the tree's parent links.
#[derive(Clone, Copy, PartialEq, Eq, Structural, Debug)]
pub struct RawMatch {
    pub rule: usize,
    pub node: usize,
}

/// A node name satisfies a pattern's name requirement: no requirement, or a
/// name equal to one of the listed names.
pub open spec fn name_matches(name: Option<Vec<u8>>, req: Option<Vec<Vec<u8>>>) -> bool {
    match req {
        Option::None => true,
        Option::Some(set) => match name {
            Option::None => false,
            Option::Some(nm) => exists|q: int| 0 <= q < set.len() && set[q]@ == nm@,
        },
    }
}

/// A node value satisfies a pattern's value requirement: no requirement, or
/// a literal value starting with the required bytes.
pub open spec fn value_matches(value: Option<Vec<u8>>, req: Option<Vec<u8>>) -> bool {
    match req {
        Option::None => true,
        Option::Some(p) => match value {
            Option::None => false,
            Option::Some(v) => p@.is_prefix_of(v@),
        },
    }
}

/// Node `i` satisfies pattern node `pi`: same kind, name and value
/// requirements met, and every required child pattern is satisfied by some
/// child of the node.
pub open spec fn pat_matches_at(
    nodes: Seq<SyntaxNode>,
    i: int,
    pats: Seq<PatNode>,
    pi: int,
) -> bool
    decreases pi, 0int,
    when 0 <= pi < pats.len() && pats_wf(pats)
{
    &&& nodes[i].kind == pats[pi].kind
    &&& name_matches(nodes[i].name, pats[pi].name_any_of)
    &&& value_matches(nodes[i].value, pats[pi].value_prefix)
    &&& forall|k: int|
        0 <= k < pats[pi].children.len() ==> child_req_met(
            nodes,
            i,
            pats,
            (#[trigger] pats[pi].children[k]) as int,
        )
}

/// Some child of node `i` satisfies pattern node `pc`.
pub open spec fn child_req_met(nodes: Seq<SyntaxNode>, i: int, pats: Seq<PatNode>, pc: int) -> bool
    decreases pc, 1int,
    when 0 <= pc < pats.len() && pats_wf(pats)
{
    exists|c: int|
        0 <= c < nodes[i].children.len() && pat_matches_at(
            nodes,
            #[trigger] nodes[i].children[c] as int,
            pats,
            pc,
        )
}

/// A rule applies to a source unit when the unit's language tag is in the
/// rule's language set.
pub open spec fn rule_applies(r: Rule, lang: Seq<u8>) -> bool {
    exists|q: int| 0 <= q < r.languages.len() && r.languages[q]@ == lang
}

/// Node `i` is a match for rule `ri` of the rule set on a unit of the given
/// language.
pub open spec fn is_match(t: SyntaxTree, rules: Seq<Rule>, lang: Seq<u8>, i: int, ri: int) -> bool {
    &&& rule_applies(rules[ri], lang)
    &&& pat_matches_at(t.nodes@, i, rules[ri].pats@, rules[ri].root as int)
}

/// The matches of node `i` against the first `rn` rules, in rule order.
pub open spec fn matches_of_node(
    t: SyntaxTree,
    rules: Seq<Rule>,
    lang: Seq<u8>,
    i: int,
    rn: int,
) -> Seq<RawMatch>
    decreases rn,
{
    if rn <= 0 {
        Seq::empty()
    } else {
        matches_of_node(t, rules, lang, i, rn - 1) + (if is_match(t, rules, lang, i, rn - 1) {
            seq![RawMatch { rule: (rn - 1) as usize, node: i as usize }]
        } else {
            Seq::empty()
        })
    }
}

/// The matches of the first `i` nodes against all rules, in node-then-rule
/// order.
pub open spec fn matches_upto(t: SyntaxTree, rules: Seq<Rule>, lang: Seq<u8>, i: int) -> Seq<
    RawMatch,
>
    decreases i,
{
    if i <= 0 {
        Seq::empty()
    } else {
        matches_upto(t, rules, lang, i - 1) + matches_of_node(
            t,
            rules,
            lang,
            i - 1,
            rules.len() as int,
        )
    }
}

/// Every match of every rule of the set against the tree: the sequence the
/// matcher returns, pinned down element for element.
pub open spec fn all_matches(t: SyntaxTree, rules: Seq<Rule>, lang: Seq<u8>) -> Seq<RawMatch> {
    matches_upto(t, rules, lang, t.nodes.len() as int)
}

proof fn lemma_matches_of_node_elems(t: SyntaxTree, rules: Seq<Rule>, lang: Seq<u8>, i: int, rn: int)
    requires
        0 <= i <= usize::MAX,
        0 <= rn <= usize::MAX,
    ensures
        forall|q: int|
            0 <= q < matches_of_node(t, rules, lang, i, rn).len() ==> {
                let e = #[trigger] matches_of_node(t, rules, lang, i, rn)[q];
                e.node == i as usize && (e.rule as int) < rn
            },
    decreases rn,
{
    if rn > 0 {
        lemma_matches_of_node_elems(t, rules, lang, i, rn - 1);
        let prev = matches_of_node(t, rules, lang, i, rn - 1);
        let cur = matches_of_node(t, rules, lang, i, rn);
        assert forall|q: int| 0 <= q < cur.len() implies {
            let e = #[trigger] cur[q];
            e.node == i as usize && (e.rule as int) < rn
        } by {
            if q < prev.len() {
                assert(cur[q] == prev[q]);
            } else {
                assert(cur[q] == RawMatch { rule: (rn - 1) as usize, node: i as usize });
            }
        }
    }
}

proof fn lemma_matches_of_node_contains(
    t: SyntaxTree,
    rules: Seq<Rule>,
    lang: Seq<u8>,
    i: int,
    rn: int,
    ri: int,
)
    requires
        rules.len() <= usize::MAX,
        0 <= rn <= rules.len(),
        0 <= ri < rules.len(),
        0 <= i < t.nodes.len(),
    ensures
        matches_of_node(t, rules, lang, i, rn).contains(
            RawMatch { rule: ri as usize, node: i as usize },
        ) <==> (ri < rn && is_match(t, rules, lang, i, ri)),
    decreases rn,
{
    let rm = RawMatch { rule: ri as usize, node: i as usize };
    if rn <= 0 {
    } else {
        lemma_matches_of_node_contains(t, rules, lang, i, rn - 1, ri);
        let prev = matches_of_node(t, rules, lang, i, rn - 1);
        let cur = matches_of_node(t, rules, lang, i, rn);
        if is_match(t, rules, lang, i, rn - 1) {
            let e = RawMatch { rule: (rn - 1) as usize, node: i as usize };
            assert(cur =~= prev.push(e));
            if cur.contains(rm) {
                let q = choose|q: int| 0 <= q < cur.len() && cur[q] == rm;
                if q < prev.len() {
                    assert(prev[q] == rm);
                    assert(prev.contains(rm));
                } else {
                    assert(rm == e);
                    assert(ri == rn - 1);
                }
            }
            if ri < rn && is_match(t, rules, lang, i, ri) {
                if ri == rn - 1 {
                    assert(cur[cur.len() - 1] == rm);
                    assert(cur.contains(rm));
                } else {
                    let q = choose|q: int| 0 <= q < prev.len() && prev[q] == rm;
                    assert(cur[q] == rm);
                    assert(cur.contains(rm));
                }
            }
        } else {
            assert(cur =~= prev);
            if cur.contains(rm) {
                let q = choose|q: int| 0 <= q < cur.len() && cur[q] == rm;
                assert(prev[q] == rm);
                assert(prev.contains(rm));
            }
            if ri < rn && is_match(t, rules, lang, i, ri) {
                assert(ri != rn - 1);
                let q = choose|q: int| 0 <= q < prev.len() && prev[q] == rm;
                assert(cur[q] == rm);
                assert(cur.contains(rm));
            }
        }
    }
}

proof fn lemma_matches_upto_contains(
    t: SyntaxTree,
    rules: Seq<Rule>,
    lang: Seq<u8>,
    n: int,
    i: int,
    ri: int,
)
    requires
        rules.len() <= usize::MAX,
        0 <= n <= t.nodes.len(),
        0 <= i < t.nodes.len(),
        0 <= ri < rules.len(),
    ensures
        matches_upto(t, rules, lang, n).contains(RawMatch { rule: ri as usize, node: i as usize })
            <==> (i < n && is_match(t, rules, lang, i, ri)),
    decreases n,
{
    let rm = RawMatch { rule: ri as usize, node: i as usize };
    if n <= 0 {
    } else {
        lemma_matches_upto_contains(t, rules, lang, n - 1, i, ri);
        lemma_matches_of_node_elems(t, rules, lang, n - 1, rules.len() as int);
        lemma_matches_of_node_contains(t, rules, lang, n - 1, rules.len() as int, ri);
        let prev = matches_upto(t, rules, lang, n - 1);
        let part = matches_of_node(t, rules, lang, n - 1, rules.len() as int);
        let cur = matches_upto(t, rules, lang, n);
        assert(cur == prev + part);
        if cur.contains(rm) {
            let q = choose|q: int| 0 <= q < cur.len() && cur[q] == rm;
            if q < prev.len() {
                assert(prev[q] == rm);
                assert(prev.contains(rm));
            } else {
                assert(part[q - prev.len()] == rm);
                assert(rm.node == (n - 1) as usize);
                assert(i == n - 1);
                assert(part.contains(rm));
            }
        }
        if i < n && is_match(t, rules, lang, i, ri) {
            if i < n - 1 {
                let q = choose|q: int| 0 <= q < prev.len() && prev[q] == rm;
                assert(cur[q] == rm);
                assert(cur.contains(rm));
            } else {
                assert(part.contains(rm));
                let q = choose|q: int| 0 <= q < part.len() && part[q] == rm;
                assert(cur[prev.len() + q] == rm);
                assert(cur.contains(rm));
            }
        }
    }
}

/// Law: the matcher is exact. A raw match is in the matcher's output exactly
/// when its rule applies to the unit's language and its pattern is satisfied
/// at its node.
pub proof fn lemma_match_iff(t: SyntaxTree, rules: Seq<Rule>, lang: Seq<u8>, i: int, ri: int)
    requires
        rules.len() <= usize::MAX,
        0 <= i < t.nodes.len(),
        0 <= ri < rules.len(),
    ensures
        all_matches(t, rules, lang).contains(RawMatch { rule: ri as usize, node: i as usize })
            <==> is_match(t, rules, lang, i, ri),
{
    lemma_matches_upto_contains(t, rules, lang, t.nodes.len() as int, i, ri);
}

/// Law: a structure field whose name is in the sensitive-name set of an
/// applicable field rule is always flagged, in any tree and hence whatever
/// the surrounding layout of the source text: the match is in the matcher's
/// output.
pub proof fn lemma_sensitive_field_flagged(
    t: SyntaxTree,
    rules: Seq<Rule>,
    lang: Seq<u8>,
    ri: int,
    i: int,
)
    requires
        rules.len() <= usize::MAX,
        0 <= ri < rules.len(),
        rules[ri].wf(),
        rule_applies(rules[ri], lang),
        rules[ri].pats[rules[ri].root as int].kind == NodeKind::FieldDecl,
        rules[ri].pats[rules[ri].root as int].value_prefix is None,
        rules[ri].pats[rules[ri].root as int].children.len() == 0,
        0 <= i < t.nodes.len(),
        t.nodes[i].kind == NodeKind::FieldDecl,
        name_matches(t.nodes[i].name, rules[ri].pats[rules[ri].root as int].name_any_of),
    ensures
        all_matches(t, rules, lang).contains(RawMatch { rule: ri as usize, node: i as usize }),
{
    assert(pat_matches_at(t.nodes@, i, rules[ri].pats@, rules[ri].root as int));
    lemma_match_iff(t, rules, lang, i, ri);
}

/// Byte-for-byte equality of two byte vectors.
pub fn bytes_eq(a: &Vec<u8>, b: &Vec<u8>) -> (r: bool)
    ensures
        r == (a@ == b@),
{
    if a.len() != b.len() {
        assert(a@.len() != b@.len());
        return false;
    }
    let mut i: usize = 0;
    while i < a.len()
        invariant
            i <= a.len(),
            a.len() == b.len(),
            forall|j: int| 0 <= j < i ==> a@[j] == b@[j],
        decreases a.len() - i,
    {
        if a[i] != b[i] {
            return false;
        }
        i = i + 1;
    }
    proof {
        assert(a@ =~= b@);
    }
    true
}

/// Whether `p` is a prefix of `v`.
fn is_prefix(p: &Vec<u8>, v: &Vec<u8>) -> (r: bool)
    ensures
        r == p@.is_prefix_of(v@),
{
    if p.len() > v.len() {
        return false;
    }
    let mut i: usize = 0;
    while i < p.len()
        invariant
            i <= p.len(),
            p.len() <= v.len(),
            forall|j: int| 0 <= j < i ==> p@[j] == v@[j],
        decreases p.len() - i,
    {
        if p[i] != v[i] {
            assert(!p@.is_prefix_of(v@));
            return false;
        }
        i = i + 1;
    }
    proof {
        assert(p@ =~= v@.subrange(0, p.len() as int));
    }
    true
}

fn name_matches_ex(name: &Option<Vec<u8>>, req: &Option<Vec<Vec<u8>>>) -> (r: bool)
    ensures
        r == name_matches(*name, *req),
{
    match req {
        Option::None => true,
        Option::Some(set) => match name {
            Option::None => false,
            Option::Some(nm) => {
                let mut q: usize = 0;
                let mut found = false;
                while q < set.len() && !found
                    invariant
                        q <= set.len(),
                        found ==> exists|j: int| 0 <= j < set.len() && set[j]@ == nm@,
                        !found ==> forall|j: int| 0 <= j < q ==> set[j]@ != nm@,
                    decreases set.len() - q, (if found {
                        0int
                    } else {
                        1int
                    }),
                {
                    if bytes_eq(&set[q], nm) {
                        found = true;
                    } else {
                        q = q + 1;
                    }
                }
                found
            },
        },
    }
}

fn value_matches_ex(value: &Option<Vec<u8>>, req: &Option<Vec<u8>>) -> (r: bool)
    ensures
        r == value_matches(*value, *req),
{
    match req {
        Option::None => true,
        Option::Some(p) => match value {
            Option::None => false,
            Option::Some(v) => is_prefix(p, v),
        },
    }
}

/// Whether some child of node `i` satisfies pattern node `pi`.
fn has_matching_child(t: &SyntaxTree, i: usize, pats: &Vec<PatNode>, pi: usize) -> (r: bool)
    requires
        t.wf(),
        pats_wf(pats@),
        i < t.nodes.len(),
        pi < pats.len(),
    ensures
        r == child_req_met(t.nodes@, i as int, pats@, pi as int),
    decreases pi, 1int,
{
    let mut c: usize = 0;
    let nchildren = t.nodes[i].children.len();
    while c < nchildren
        invariant
            c <= nchildren,
            nchildren == t.nodes[i as int].children.len(),
            forall|cc: int|
                0 <= cc < c ==> !pat_matches_at(
                    t.nodes@,
                    t.nodes[i as int].children[cc] as int,
                    pats@,
                    pi as int,
                ),
        decreases nchildren - c,
    {
        let child = t.nodes[i].children[c];
        proof {
            assert(node_wf(t.nodes@, t.text_len as int, i as int));
        }
        if node_matches(t, child, pats, pi) {
            return true;
        }
        c = c + 1;
    }
    proof {
        assert(!child_req_met(t.nodes@, i as int, pats@, pi as int)) by {
            if child_req_met(t.nodes@, i as int, pats@, pi as int) {
                let c = choose|c: int|
                    0 <= c < t.nodes[i as int].children.len() && pat_matches_at(
                        t.nodes@,
                        #[trigger] t.nodes[i as int].children[c] as int,
                        pats@,
                        pi as int,
                    );
                assert(false);
            }
        }
    }
    false
}

/// Whether node `i` satisfies pattern node `pi`; the executable mirror of
/// `pat_matches_at`.
fn node_matches(t: &SyntaxTree, i: usize, pats: &Vec<PatNode>, pi: usize) -> (r: bool)
    requires
        t.wf(),
        pats_wf(pats@),
        i < t.nodes.len(),
        pi < pats.len(),
    ensures
        r == pat_matches_at(t.nodes@, i as int, pats@, pi as int),
    decreases pi, 0int,
{
    let n = &t.nodes[i];
    let p = &pats[pi];
    if n.kind != p.kind {
        return false;
    }
    if !name_matches_ex(&n.name, &p.name_any_of) {
        return false;
    }
    if !value_matches_ex(&n.value, &p.value_prefix) {
        return false;
    }
    let mut k: usize = 0;
    while k < p.children.len()
        invariant
            k <= p.children.len(),
            forall|kk: int|
                0 <= kk < k ==> child_req_met(
                    t.nodes@,
                    i as int,
                    pats@,
                    (#[trigger] p.children[kk]) as int,
                ),
        decreases p.children.len() - k,
    {
        let pc = p.children[k];
        assert(pc < pi);
        if !has_matching_child(t, i, pats, pc) {
            return false;
        }
        k = k + 1;
    }
    proof {
        assert(pat_matches_at(t.nodes@, i as int, pats@, pi as int));
    }
    true
}

/// Whether the rule's language set holds the given tag.
fn rule_applies_ex(r: &Rule, lang: &Vec<u8>) -> (b: bool)
    ensures
        b == rule_applies(*r, lang@),
{
    let mut q: usize = 0;
    let mut found = false;
    while q < r.languages.len() && !found
        invariant
            q <= r.languages.len(),
            found ==> exists|j: int| 0 <= j < r.languages.len() && r.languages[j]@ == lang@,
            !found ==> forall|j: int| 0 <= j < q ==> r.languages[j]@ != lang@,
        decreases r.languages.len() - q, (if found {
            0int
        } else {
            1int
        }),
    {
        if bytes_eq(&r.languages[q], lang) {
            found = true;
        } else {
            q = q + 1;
        }
    }
    found
}

/// Runs every applicable rule over every node of the tree, in index order of
/// nodes and rules: exactly the sequence `all_matches` describes.
pub fn match_tree(t: &SyntaxTree, rs: &RuleSet, lang: &Vec<u8>) -> (ms: Vec<RawMatch>)
    requires
        t.wf(),
        rs.wf(),
    ensures
        ms@ == all_matches(*t, rs.rules_seq(), lang@),
{
    let mut ms: Vec<RawMatch> = Vec::new();
    let mut i: usize = 0;
    while i < t.nodes.len()
        invariant
            i <= t.nodes.len(),
            ms@ == matches_upto(*t, rs.rules_seq(), lang@, i as int),
        decreases t.nodes.len() - i,
    {
        let mut ri: usize = 0;
        while ri < rs.len()
            invariant
                i < t.nodes.len(),
                ri <= rs.rules_seq().len(),
                ms@ == matches_upto(*t, rs.rules_seq(), lang@, i as int) + matches_of_node(
                    *t,
                    rs.rules_seq(),
                    lang@,
                    i as int,
                    ri as int,
                ),
            decreases rs.rules_seq().len() - ri,
        {
            let rule = rs.rule_at(ri);
            assert(rule.wf());
            if rule_applies_ex(rule, lang) && node_matches(t, i, &rule.pats, rule.root) {
                ms.push(RawMatch { rule: ri, node: i });
            }
            ri = ri + 1;
        }
        i = i + 1;
    }
    ms
}

} // verus!
