//! The scope resolver: classifies how directly a matched value reaches the
//! call expression that consumes it.
//!
//! Classification of a matched node `m`, in precedence order:
//! - walk `m`'s ancestor chain to the nearest call-like node; if the argument
//!   slot holding `m` is `m` itself, or a chain of single-operand wrappers
//!   (reference taking, dereference, argument-free method call) ending at
//!   `m`, the match is `Direct` — unless `m` is itself a bare identifier, in
//!   which case the value reaches the call through that name and the match is
//!   `ResultFlow`: with full confidence when a binding of the name precedes
//!   the call in its statement list, with reduced confidence when none is
//!   found (for instance a parameter of the enclosing function) — reported
//!   either way, never dropped. A compound slot mixing `m` with other
//!   content is `Nested`;
//! - if no call encloses `m` but `m` sits under a binding whose bound name is
//!   later passed, as a bare identifier argument and with no rebinding in
//!   between, to a call in the same statement list, the value flows through
//!   the binding and the match is `ResultFlow`;
//! - otherwise the match is `Direct` by default: an unqualified top-level
//!   match is treated as maximally meaningful rather than dropped.
//!
//! The backward-binding search is strictly local to the statement list that
//! holds the binding; no cross-function flow is attempted. Statement order is
//! arena order: language adapters build trees bottom up in document order, so
//! a later statement always carries a larger node index than its siblings.

use vstd::prelude::*;
use crate::syntax::{NodeKind, SyntaxNode, SyntaxTree, node_wf, child_link_ok, parents_bounded,
    lemma_forest_parents_bounded};
use crate::rules::{Confidence, ScopeClass};

verus! {

/// The scope resolver's verdict on one match: its class and, for a
/// result-flow classification, how confidently the flow was traced.
#[derive(Clone, Copy, PartialEq, Eq, Structural, Debug)]
pub struct ScopeDecision {
    pub class: ScopeClass,
    pub confidence: Confidence,
}

/// Call-like nodes: their children are their operands.
pub open spec fn is_call_kind(k: NodeKind) -> bool {
    k == NodeKind::CallExpr || k == NodeKind::MethodCall
}

/// Wrapper nodes that pass one value through without mixing in other
/// content.
pub open spec fn is_wrapper_kind(k: NodeKind) -> bool {
    ||| k == NodeKind::RefExpr
    ||| k == NodeKind::DerefExpr
    ||| k == NodeKind::UnsafeDeref
    ||| k == NodeKind::MethodCall
}

/// Child indices always point downwards in the arena.
pub open spec fn descend_ok(nodes: Seq<SyntaxNode>) -> bool {
    forall|i: int, k: int|
        0 <= i < nodes.len() && 0 <= k < nodes[i].children.len() ==> 0 <= (#[trigger] nodes[i]
            .children[k]) < i
}

/// A well-formed tree has bounded parents and descending children.
pub proof fn lemma_tree_links(t: SyntaxTree)
    requires
        t.wf(),
    ensures
        parents_bounded(t.nodes@),
        descend_ok(t.nodes@),
{
    lemma_forest_parents_bounded(t.nodes@, t.text_len as int);
    assert forall|i: int, k: int|
        0 <= i < t.nodes.len() && 0 <= k < t.nodes[i].children.len() implies 0 <= (
    #[trigger] t.nodes[i].children[k]) < i by {
        assert(node_wf(t.nodes@, t.text_len as int, i));
        assert(child_link_ok(t.nodes@, i, t.nodes[i].children[k] as int));
    }
}

/// Node `a` passes its value down a chain of single-operand wrappers ending
/// exactly at node `m`.
pub open spec fn wrapper_chain(nodes: Seq<SyntaxNode>, a: int, m: int) -> bool
    decreases a,
    when 0 <= a < nodes.len() && descend_ok(nodes)
{
    if a == m {
        true
    } else if is_wrapper_kind(nodes[a].kind) && nodes[a].children.len() == 1 {
        wrapper_chain(nodes, nodes[a].children[0] as int, m)
    } else {
        false
    }
}

/// Walks from `j` up the ancestor chain of the matched node `m`; at the
/// first call-like ancestor, the slot under it decides between `Direct` and
/// `Nested`. `None` when no call encloses the match.
pub open spec fn climb_class(nodes: Seq<SyntaxNode>, j: int, m: int) -> Option<ScopeDecision>
    decreases nodes.len() - j,
    when 0 <= j < nodes.len() && parents_bounded(nodes) && descend_ok(nodes)
{
    let p = nodes[j].parent as int;
    if p == j {
        Option::None
    } else if is_call_kind(nodes[p].kind) {
        if wrapper_chain(nodes, j, m) {
            if nodes[m].kind == NodeKind::Identifier && nodes[m].name is Some {
                // The argument slot is a bare identifier (or a wrapper chain
                // rooted at one): the value reaches the call through that
                // name, so it flows from wherever the name was bound. With
                // no binding in the enclosing statement list (for instance a
                // parameter), the match is still reported, with reduced
                // confidence.
                Option::Some(
                    ScopeDecision {
                        class: ScopeClass::ResultFlow,
                        confidence: ident_flow_confidence(nodes, p, nodes[m].name->Some_0@),
                    },
                )
            } else {
                Option::Some(
                    ScopeDecision { class: ScopeClass::Direct, confidence: Confidence::Full },
                )
            }
        } else {
            Option::Some(ScopeDecision { class: ScopeClass::Nested, confidence: Confidence::Full })
        }
    } else {
        climb_class(nodes, p, m)
    }
}

/// The nearest statement-list ancestor of `j`: the block, and the child of
/// it on `j`'s ancestor chain (the statement holding `j`).
pub open spec fn block_stmt_of(nodes: Seq<SyntaxNode>, j: int) -> Option<(int, int)>
    decreases nodes.len() - j,
    when 0 <= j < nodes.len() && parents_bounded(nodes)
{
    let p = nodes[j].parent as int;
    if p == j {
        Option::None
    } else if nodes[p].kind == NodeKind::Block || nodes[p].kind == NodeKind::UnsafeBlock {
        Option::Some((p, j))
    } else {
        block_stmt_of(nodes, p)
    }
}

/// Some sibling before statement `c0` in the statement list `b` binds the
/// name `v`.
pub open spec fn has_preceding_binding(nodes: Seq<SyntaxNode>, b: int, c0: int, v: Seq<u8>) -> bool {
    exists|s2: int| 0 <= s2 < c0 && s2 != b && nodes[s2].parent == b && is_rebind(nodes, s2, v)
}

/// Confidence of an identifier argument's result-flow classification: full
/// when the backward walk finds a binding of the name before the call in the
/// enclosing statement list, reduced when it finds none.
pub open spec fn ident_flow_confidence(nodes: Seq<SyntaxNode>, p: int, v: Seq<u8>) -> Confidence {
    match block_stmt_of(nodes, p) {
        Option::None => Confidence::Reduced,
        Option::Some(bc) => if has_preceding_binding(nodes, bc.0, bc.1, v) {
            Confidence::Full
        } else {
            Confidence::Reduced
        },
    }
}

/// The nearest binding on the ancestor chain of `j`, if any.
pub open spec fn let_ancestor(nodes: Seq<SyntaxNode>, j: int) -> Option<int>
    decreases nodes.len() - j,
    when 0 <= j < nodes.len() && parents_bounded(nodes)
{
    let p = nodes[j].parent as int;
    if p == j {
        Option::None
    } else if nodes[p].kind == NodeKind::LetBinding {
        Option::Some(p)
    } else {
        let_ancestor(nodes, p)
    }
}

/// Node `x` is a bare identifier carrying the name `v`.
pub open spec fn ident_named(nodes: Seq<SyntaxNode>, x: int, v: Seq<u8>) -> bool {
    &&& nodes[x].kind == NodeKind::Identifier
    &&& nodes[x].name matches Option::Some(n) && n@ == v
}

/// Node `s2` rebinds the name `v`.
pub open spec fn is_rebind(nodes: Seq<SyntaxNode>, s2: int, v: Seq<u8>) -> bool {
    &&& nodes[s2].kind == NodeKind::LetBinding
    &&& nodes[s2].name matches Option::Some(n) && n@ == v
}

/// Some operand of call `s` is a bare identifier named `v`.
pub open spec fn has_ident_arg(nodes: Seq<SyntaxNode>, s: int, v: Seq<u8>) -> bool {
    exists|a: int|
        0 <= a < nodes[s].children.len() && ident_named(
            nodes,
            #[trigger] nodes[s].children[a] as int,
            v,
        )
}

/// Call `s`, a later sibling of the binding `l` in the statement list `b`,
/// receives the bound name `v` as a bare argument, and no sibling between
/// the binding and the call rebinds `v`: `l` is the most recent binding of
/// `v` at that call.
pub open spec fn flow_call(nodes: Seq<SyntaxNode>, l: int, b: int, v: Seq<u8>, s: int) -> bool {
    &&& l < s < nodes.len()
    &&& nodes[s].parent == b
    &&& s != b
    &&& is_call_kind(nodes[s].kind)
    &&& has_ident_arg(nodes, s, v)
    &&& forall|s2: int|
        l < s2 < s && s2 != b && nodes[s2].parent == b ==> !is_rebind(nodes, s2, v)
}

/// The matched node sits in the initializer of a binding whose name later
/// reaches a call in the same statement list.
pub open spec fn binding_flows(nodes: Seq<SyntaxNode>, m: int) -> bool {
    match let_ancestor(nodes, m) {
        Option::None => false,
        Option::Some(l) => {
            let b = nodes[l].parent as int;
            &&& b != l
            &&& match nodes[l].name {
                Option::None => false,
                Option::Some(v) => exists|s: int| flow_call(nodes, l, b, v@, s),
            }
        },
    }
}

/// The scope decision for matched node `m`.
pub open spec fn scope_decision_of(nodes: Seq<SyntaxNode>, m: int) -> ScopeDecision {
    match climb_class(nodes, m, m) {
        Option::Some(d) => d,
        Option::None => if binding_flows(nodes, m) {
            ScopeDecision { class: ScopeClass::ResultFlow, confidence: Confidence::Full }
        } else {
            ScopeDecision { class: ScopeClass::Direct, confidence: Confidence::Full }
        },
    }
}

/// Executable mirror of `wrapper_chain`.
fn wrapper_chain_ex(t: &SyntaxTree, a: usize, m: usize) -> (r: bool)
    requires
        t.wf(),
        a < t.nodes.len(),
    ensures
        r == wrapper_chain(t.nodes@, a as int, m as int),
{
    proof {
        lemma_tree_links(*t);
    }
    let mut j = a;
    loop
        invariant
            j < t.nodes.len(),
            wrapper_chain(t.nodes@, a as int, m as int) == wrapper_chain(
                t.nodes@,
                j as int,
                m as int,
            ),
        decreases j,
    {
        if j == m {
            return true;
        }
        let k = t.nodes[j].kind;
        let wrap = k == NodeKind::RefExpr || k == NodeKind::DerefExpr || k == NodeKind::UnsafeDeref
            || k == NodeKind::MethodCall;
        if !(wrap && t.nodes[j].children.len() == 1) {
            return false;
        }
        let c = t.nodes[j].children[0];
        proof {
            assert(node_wf(t.nodes@, t.text_len as int, j as int));
            assert(child_link_ok(t.nodes@, j as int, t.nodes[j as int].children[0] as int));
        }
        j = c;
    }
}

/// Executable mirror of `has_ident_arg`.
fn has_ident_arg_ex(t: &SyntaxTree, s: usize, v: &Vec<u8>) -> (r: bool)
    requires
        t.wf(),
        s < t.nodes.len(),
    ensures
        r == has_ident_arg(t.nodes@, s as int, v@),
{
    let n = t.nodes[s].children.len();
    let mut a: usize = 0;
    while a < n
        invariant
            a <= n,
            n == t.nodes[s as int].children.len(),
            forall|aa: int|
                0 <= aa < a ==> !ident_named(
                    t.nodes@,
                    #[trigger] t.nodes[s as int].children[aa] as int,
                    v@,
                ),
        decreases n - a,
    {
        let c = t.nodes[s].children[a];
        proof {
            assert(node_wf(t.nodes@, t.text_len as int, s as int));
            assert(child_link_ok(t.nodes@, s as int, t.nodes[s as int].children[a as int] as int));
        }
        if t.nodes[c].kind == NodeKind::Identifier {
            match &t.nodes[c].name {
                Option::Some(nm) => {
                    if crate::matcher::bytes_eq(nm, v) {
                        return true;
                    }
                },
                Option::None => (),
            }
        }
        a = a + 1;
    }
    false
}

/// Executable mirror of `binding_flows`: finds the nearest enclosing
/// binding, then scans its later siblings for a call taking the bound name,
/// stopping at a rebinding of the name.
fn binding_flows_ex(t: &SyntaxTree, m: usize) -> (r: bool)
    requires
        t.wf(),
        m < t.nodes.len(),
    ensures
        r == binding_flows(t.nodes@, m as int),
{
    proof {
        lemma_tree_links(*t);
    }
    // Find the nearest LetBinding ancestor.
    let mut j = m;
    loop
        invariant
            j < t.nodes.len(),
            let_ancestor(t.nodes@, m as int) == let_ancestor(t.nodes@, j as int),
        decreases t.nodes.len() - j,
    {
        let p = t.nodes[j].parent;
        proof {
            assert(node_wf(t.nodes@, t.text_len as int, j as int));
        }
        if p == j {
            return false;
        }
        if t.nodes[p].kind == NodeKind::LetBinding {
            return binding_scan(t, p);
        }
        j = p;
    }
}

/// Scans the later siblings of binding `l` for a call that takes the bound
/// name as a bare argument before any rebinding of the name.
fn binding_scan(t: &SyntaxTree, l: usize) -> (r: bool)
    requires
        t.wf(),
        l < t.nodes.len(),
    ensures
        r == ({
            let b = t.nodes[l as int].parent as int;
            &&& b != l
            &&& match t.nodes[l as int].name {
                Option::None => false,
                Option::Some(v) => exists|s: int| flow_call(t.nodes@, l as int, b, v@, s),
            }
        }),
{
    proof {
        lemma_tree_links(*t);
    }
    let b = t.nodes[l].parent;
    if b == l {
        return false;
    }
    let v = match &t.nodes[l].name {
        Option::Some(v) => v,
        Option::None => {
            return false;
        },
    };
    // Scan later siblings in arena (document) order.
    let mut s = l + 1;
    while s < t.nodes.len()
        invariant
            l < s <= t.nodes.len(),
            forall|ss: int| l < ss < s ==> !flow_call(t.nodes@, l as int, b as int, v@, ss),
            forall|s2: int|
                l < s2 < s && s2 != b && t.nodes[s2].parent == b ==> !is_rebind(t.nodes@, s2, v@),
        decreases t.nodes.len() - s,
    {
        if t.nodes[s].parent == b && s != b {
            let k = t.nodes[s].kind;
            if k == NodeKind::LetBinding {
                match &t.nodes[s].name {
                    Option::Some(nm) => {
                        if crate::matcher::bytes_eq(nm, v) {
                            // The name is rebound before any later call: no
                            // later sibling can take its value from `l`.
                            proof {
                                assert forall|ss: int| l < ss < t.nodes.len() implies !flow_call(
                                    t.nodes@,
                                    l as int,
                                    b as int,
                                    v@,
                                    ss,
                                ) by {
                                    if ss > s as int {
                                        assert(is_rebind(t.nodes@, s as int, v@));
                                    } else if ss == s as int {
                                        assert(!is_call_kind(t.nodes@[ss].kind));
                                    }
                                }
                            }
                            return false;
                        }
                    },
                    Option::None => (),
                }
            } else if k == NodeKind::CallExpr || k == NodeKind::MethodCall {
                if has_ident_arg_ex(t, s, v) {
                    assert(flow_call(t.nodes@, l as int, b as int, v@, s as int));
                    return true;
                }
            }
        }
        s = s + 1;
    }
    false
}

/// Classifies the data-flow directness of matched node `m`; the executable
/// Executable mirror of `block_stmt_of`.
fn block_stmt_of_ex(t: &SyntaxTree, j: usize) -> (r: Option<(usize, usize)>)
    requires
        t.wf(),
        j < t.nodes.len(),
    ensures
        ({
            let s = block_stmt_of(t.nodes@, j as int);
            match r {
                Option::None => s is None,
                Option::Some(bc) => s == Option::Some((bc.0 as int, bc.1 as int)) && bc.0
                    < t.nodes.len() && bc.1 < t.nodes.len(),
            }
        }),
{
    proof {
        lemma_tree_links(*t);
    }
    let mut jj = j;
    loop
        invariant
            jj < t.nodes.len(),
            block_stmt_of(t.nodes@, j as int) == block_stmt_of(t.nodes@, jj as int),
        decreases t.nodes.len() - jj,
    {
        let p = t.nodes[jj].parent;
        proof {
            assert(node_wf(t.nodes@, t.text_len as int, jj as int));
        }
        if p == jj {
            return None;
        }
        let k = t.nodes[p].kind;
        if k == NodeKind::Block || k == NodeKind::UnsafeBlock {
            return Some((p, jj));
        }
        jj = p;
    }
}

/// Executable mirror of `has_preceding_binding`.
fn has_preceding_binding_ex(t: &SyntaxTree, b: usize, c0: usize, v: &Vec<u8>) -> (r: bool)
    requires
        t.wf(),
        c0 < t.nodes.len(),
    ensures
        r == has_preceding_binding(t.nodes@, b as int, c0 as int, v@),
{
    let mut s2: usize = 0;
    while s2 < c0
        invariant
            s2 <= c0 < t.nodes.len(),
            forall|ss: int|
                0 <= ss < s2 ==> !(ss != b && t.nodes[ss].parent == b && is_rebind(
                    t.nodes@,
                    ss,
                    v@,
                )),
        decreases c0 - s2,
    {
        if s2 != b && t.nodes[s2].parent == b && t.nodes[s2].kind == NodeKind::LetBinding {
            match &t.nodes[s2].name {
                Option::Some(nm) => {
                    if crate::matcher::bytes_eq(nm, v) {
                        proof {
                            assert(is_rebind(t.nodes@, s2 as int, v@));
                        }
                        return true;
                    }
                },
                Option::None => (),
            }
        }
        s2 = s2 + 1;
    }
    false
}

/// Classifies the data-flow directness of matched node `m`; the executable
/// mirror of `scope_decision_of`.
pub fn classify(t: &SyntaxTree, m: usize) -> (c: ScopeDecision)
    requires
        t.wf(),
        m < t.nodes.len(),
    ensures
        c == scope_decision_of(t.nodes@, m as int),
{
    proof {
        lemma_tree_links(*t);
    }
    let mut j = m;
    loop
        invariant
            j < t.nodes.len(),
            climb_class(t.nodes@, m as int, m as int) == climb_class(t.nodes@, j as int, m as int),
        decreases t.nodes.len() - j,
    {
        let p = t.nodes[j].parent;
        proof {
            assert(node_wf(t.nodes@, t.text_len as int, j as int));
        }
        if p == j {
            if binding_flows_ex(t, m) {
                return ScopeDecision {
                    class: ScopeClass::ResultFlow,
                    confidence: Confidence::Full,
                };
            } else {
                return ScopeDecision { class: ScopeClass::Direct, confidence: Confidence::Full };
            }
        }
        let k = t.nodes[p].kind;
        if k == NodeKind::CallExpr || k == NodeKind::MethodCall {
            if wrapper_chain_ex(t, j, m) {
                if t.nodes[m].kind == NodeKind::Identifier {
                    match &t.nodes[m].name {
                        Option::Some(v) => {
                            let conf = match block_stmt_of_ex(t, p) {
                                Option::Some((blk, stmt)) => {
                                    if has_preceding_binding_ex(t, blk, stmt, v) {
                                        Confidence::Full
                                    } else {
                                        Confidence::Reduced
                                    }
                                },
                                Option::None => Confidence::Reduced,
                            };
                            return ScopeDecision {
                                class: ScopeClass::ResultFlow,
                                confidence: conf,
                            };
                        },
                        Option::None => {
                            return ScopeDecision {
                                class: ScopeClass::Direct,
                                confidence: Confidence::Full,
                            };
                        },
                    }
                }
                return ScopeDecision { class: ScopeClass::Direct, confidence: Confidence::Full };
            } else {
                return ScopeDecision { class: ScopeClass::Nested, confidence: Confidence::Full };
            }
        }
        j = p;
    }
}

} // verus!
