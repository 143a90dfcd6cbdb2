//! The shared syntax model: normalized nodes, trees, and their well-formedness.
//!
//! A tree is stored as an arena of nodes built bottom up: every node's
//! children carry smaller indices than the node itself, and the root is the
//! last node. Ancestor lookups follow the `parent` index, which is strictly
//! larger than the node's own index for every node but the root (the root is
//! its own parent). Each node carries a byte range into the originating text;
//! a child's range always lies within its parent's range.

use vstd::prelude::*;

verus! {

/// Language-agnostic vocabulary of node kinds shared by all language
/// adapters, so that rules never branch on the source language.
#[derive(Clone, Copy, PartialEq, Eq, Structural, Debug)]
pub enum NodeKind {
    /// Whole file; always the last node of the arena.
    Root,
    /// A function declaration; `name` holds the function name.
    FunctionDecl,
    /// A function declaration carrying an unsafe marker.
    UnsafeFunctionDecl,
    /// A structure declaration; `name` holds the type name.
    StructDecl,
    /// One field of a structure; `name` holds the field name.
    FieldDecl,
    /// A braced statement list.
    Block,
    /// A braced statement list carrying an unsafe marker.
    UnsafeBlock,
    /// A local binding; `name` holds the bound identifier, the single child
    /// is the initializer expression.
    LetBinding,
    /// A call; `name` holds the callee name, the children are the arguments.
    CallExpr,
    /// A method call; `name` holds the method name, the first child is the
    /// receiver and the remaining children are the arguments.
    MethodCall,
    /// A binary operator application; the children are the operands.
    BinaryExpr,
    /// A reference-taking expression with one child.
    RefExpr,
    /// A dereference with one child, outside any unsafe context.
    DerefExpr,
    /// A dereference with one child inside an unsafe context.
    UnsafeDeref,
    /// A bare identifier; `name` holds its text.
    Identifier,
    /// A string literal; `value` holds the bytes between the quotes.
    StringLiteral,
    /// An integer literal; `value` holds its digits.
    IntLiteral,
    /// A raw-pointer type written in a signature.
    RawPtrType,
}

/// One node of a syntax tree arena.
pub struct SyntaxNode {
    pub kind: NodeKind,
    /// Byte offset where the node's text begins.
    pub start: usize,
    /// Byte offset one past the node's text.
    pub end: usize,
    /// Arena index of the parent; the root points at itself.
    pub parent: usize,
    /// Arena indices of the children, all smaller than the node's own index.
    pub children: Vec<usize>,
    /// Declared or referenced name, where the kind has one.
    pub name: Option<Vec<u8>>,
    /// Literal value, where the kind has one.
    pub value: Option<Vec<u8>>,
}

/// A normalized syntax tree over a text of `text_len` bytes.
pub struct SyntaxTree {
    pub nodes: Vec<SyntaxNode>,
    pub text_len: usize,
}

/// Node `c` is a well-linked child of node `i`: it has a smaller index,
/// points back at `i`, and its byte range lies within `i`'s range.
pub open spec fn child_link_ok(nodes: Seq<SyntaxNode>, i: int, c: int) -> bool {
    &&& 0 <= c < i
    &&& nodes[c].parent == i
    &&& nodes[i].start <= nodes[c].start
    &&& nodes[c].end <= nodes[i].end
}

/// Node `i` is well formed: its byte range fits the text, its parent index
/// does not precede it, and all its child links are well linked.
pub open spec fn node_wf(nodes: Seq<SyntaxNode>, text_len: int, i: int) -> bool {
    &&& nodes[i].start <= nodes[i].end
    &&& nodes[i].end <= text_len
    &&& i <= nodes[i].parent < nodes.len()
    &&& forall|k: int|
        0 <= k < nodes[i].children.len() ==> child_link_ok(
            nodes,
            i,
            (#[trigger] nodes[i].children[k]) as int,
        )
}

/// Every node of the arena is well formed. This holds during construction,
/// when some nodes are still waiting for a parent.
pub open spec fn forest_wf(nodes: Seq<SyntaxNode>, text_len: int) -> bool {
    forall|i: int| 0 <= i < nodes.len() ==> node_wf(nodes, text_len, i)
}

/// Parent indices never precede their node and stay inside the arena; this is
/// what termination of every upward walk rests on.
pub open spec fn parents_bounded(nodes: Seq<SyntaxNode>) -> bool {
    forall|i: int| 0 <= i < nodes.len() ==> i <= (#[trigger] nodes[i]).parent < nodes.len()
}

pub proof fn lemma_forest_parents_bounded(nodes: Seq<SyntaxNode>, text_len: int)
    requires
        forest_wf(nodes, text_len),
    ensures
        parents_bounded(nodes),
{
    assert forall|i: int|
        0 <= i < nodes.len() implies i <= (#[trigger] nodes[i]).parent < nodes.len() by {
        assert(node_wf(nodes, text_len, i));
    }
}

impl SyntaxTree {
    /// The arena index of the root node.
    pub open spec fn root(self) -> int {
        self.nodes.len() - 1
    }

    /// A finished tree: a well-formed forest with at least the root node,
    /// where the root is the last node and every other node has been adopted
    /// by a parent.
    pub open spec fn wf(self) -> bool {
        &&& 1 <= self.nodes.len()
        &&& forest_wf(self.nodes@, self.text_len as int)
        &&& self.nodes[self.root()].parent == self.root()
        &&& forall|i: int| 0 <= i < self.root() ==> (#[trigger] self.nodes[i]).parent != i
    }
}

/// Node `a` lies on the parent chain of node `j` (including `j` itself).
pub open spec fn on_parent_chain(nodes: Seq<SyntaxNode>, j: int, a: int) -> bool
    decreases nodes.len() - j,
    when 0 <= j < nodes.len() && parents_bounded(nodes)
{
    if j == a {
        true
    } else if nodes[j].parent == j {
        false
    } else {
        on_parent_chain(nodes, nodes[j].parent as int, a)
    }
}

/// In a finished tree, every node's parent chain terminates at the root:
/// ancestor chains always reach the root of the tree that owns the node.
pub proof fn lemma_chain_reaches_root(t: SyntaxTree, j: int)
    requires
        t.wf(),
        0 <= j < t.nodes.len(),
    ensures
        on_parent_chain(t.nodes@, j, t.root()),
    decreases t.nodes.len() - j,
{
    lemma_forest_parents_bounded(t.nodes@, t.text_len as int);
    if j == t.root() {
    } else {
        assert(node_wf(t.nodes@, t.text_len as int, j));
        lemma_chain_reaches_root(t, t.nodes[j].parent as int);
    }
}

/// Incremental arena builder used by the language adapters.
pub struct TreeBuilder {
    pub nodes: Vec<SyntaxNode>,
    pub text_len: usize,
}

impl TreeBuilder {
    pub open spec fn wf(self) -> bool {
        forest_wf(self.nodes@, self.text_len as int)
    }

    /// Index `c` is a node still waiting for a parent.
    pub open spec fn pending(self, c: int) -> bool {
        self.nodes[c].parent == c
    }

    pub fn new(text_len: usize) -> (b: TreeBuilder)
        ensures
            b.wf(),
            b.nodes.len() == 0,
            b.text_len == text_len,
    {
        TreeBuilder { nodes: Vec::new(), text_len }
    }

    /// Appends a node spanning `start..end` that adopts the given pending
    /// children; the new node itself is pending until adopted in turn.
    pub fn push(
        &mut self,
        kind: NodeKind,
        start: usize,
        end: usize,
        name: Option<Vec<u8>>,
        value: Option<Vec<u8>>,
        children: Vec<usize>,
    ) -> (idx: usize)
        requires
            old(self).wf(),
            start <= end <= old(self).text_len,
            forall|k: int|
                0 <= k < children.len() ==> {
                    let c = (#[trigger] children[k]) as int;
                    &&& 0 <= c < old(self).nodes.len()
                    &&& old(self).pending(c)
                    &&& start <= old(self).nodes[c].start
                    &&& old(self).nodes[c].end <= end
                },
        ensures
            final(self).wf(),
            final(self).text_len == old(self).text_len,
            idx == old(self).nodes.len(),
            final(self).nodes.len() == old(self).nodes.len() + 1,
            final(self).pending(idx as int),
            final(self).nodes[idx as int].kind == kind,
            final(self).nodes[idx as int].start == start,
            final(self).nodes[idx as int].end == end,
            final(self).nodes[idx as int].name == name,
            final(self).nodes[idx as int].value == value,
            final(self).nodes[idx as int].children@ == children@,
            forall|j: int|
                0 <= j < old(self).nodes.len() && !children@.contains(j as usize)
                    ==> final(self).nodes[j] == old(self).nodes[j],
            forall|j: int|
                0 <= j < old(self).nodes.len() && children@.contains(j as usize)
                    ==> final(self).nodes[j] == (SyntaxNode {
                    parent: idx,
                    ..old(self).nodes[j]
                }),
            forall|j: int|
                0 <= j < old(self).nodes.len() ==> (final(self).pending(j) <==> (old(
                    self,
                ).pending(j) && !children@.contains(j as usize))),
    {
        let idx = self.nodes.len();
        let ghost pre = self.nodes@;
        let mut k: usize = 0;
        while k < children.len()
            invariant
                self.text_len == old(self).text_len,
                self.nodes.len() == pre.len(),
                idx == pre.len(),
                k <= children.len(),
                forall|m: int|
                    0 <= m < children.len() ==> {
                        let c = (#[trigger] children[m]) as int;
                        &&& 0 <= c < pre.len()
                        &&& pre[c].parent == c
                        &&& start <= pre[c].start
                        &&& pre[c].end <= end
                    },
                forall|j: int|
                    0 <= j < pre.len() && !children@.subrange(0, k as int).contains(j as usize)
                        ==> self.nodes[j] == pre[j],
                forall|m: int|
                    0 <= m < k ==> self.nodes[(#[trigger] children[m]) as int] == (SyntaxNode {
                        parent: idx,
                        ..pre[children[m] as int]
                    }),
                forest_wf(pre, old(self).text_len as int),
            decreases children.len() - k,
        {
            let c = children[k];
            let ghost mid = self.nodes@;
            self.nodes[c].parent = idx;
            proof {
                assert(children@.subrange(0, k + 1) =~= children@.subrange(0, k as int).push(
                    children[k as int],
                ));
                assert(children@.subrange(0, k + 1)[k as int] == c);
                assert(children@.subrange(0, k + 1).contains(c));
                assert forall|j: int|
                    0 <= j < pre.len() && !children@.subrange(0, k + 1).contains(j as usize)
                        implies self.nodes[j] == pre[j] by {
                    assert(!children@.subrange(0, k as int).contains(j as usize));
                    assert(j != c as int);
                }
                assert forall|m: int|
                    0 <= m < k + 1 implies self.nodes[(#[trigger] children[m]) as int]
                        == (SyntaxNode { parent: idx, ..pre[children[m] as int] }) by {
                    if m < k {
                        if children[m] == c {
                        } else {
                            assert(mid[children[m] as int] == (SyntaxNode {
                                parent: idx,
                                ..pre[children[m] as int]
                            }));
                        }
                    } else {
                        if children@.subrange(0, k as int).contains(c) {
                        } else {
                            assert(mid[c as int] == pre[c as int]);
                        }
                    }
                }
            }
            k = k + 1;
        }
        proof {
            assert(children@.subrange(0, children.len() as int) =~= children@);
        }
        let node = SyntaxNode { kind, start, end, parent: idx, children, name, value };
        self.nodes.push(node);
        proof {
            let post = self.nodes@;
            let tl = self.text_len as int;
            assert forall|i: int| 0 <= i < post.len() implies node_wf(post, tl, i) by {
                if i == idx as int {
                    assert forall|kk: int|
                        0 <= kk < post[i].children.len() implies child_link_ok(
                        post,
                        i,
                        (#[trigger] post[i].children[kk]) as int,
                    ) by {
                        let cu = post[i].children[kk];
                        assert(post[i].children@.contains(cu));
                        assert(post[cu as int].parent == idx);
                        assert(post[cu as int].start == pre[cu as int].start);
                        assert(post[cu as int].end == pre[cu as int].end);
                    }
                } else {
                    assert(node_wf(pre, tl, i));
                    assert forall|kk: int|
                        0 <= kk < post[i].children.len() implies child_link_ok(
                        post,
                        i,
                        (#[trigger] post[i].children[kk]) as int,
                    ) by {
                        assert(post[i].children == pre[i].children);
                        let cu = pre[i].children[kk];
                        assert(child_link_ok(pre, i, cu as int));
                        // An adopted node was pending before, so it was not on
                        // the child list of any existing node.
                        assert(pre[cu as int].parent == i && i != cu as int);
                        if post[idx as int].children@.contains(cu) {
                            assert(pre[cu as int].parent == cu as int);
                        }
                        assert(post[cu as int] == pre[cu as int]);
                        assert(post[i].start == pre[i].start && post[i].end == pre[i].end);
                    }
                }
            }
        }
        idx
    }

    /// Finishes the tree: every node still pending becomes a child of a
    /// fresh root that spans the whole text.
    pub fn finish(self) -> (t: SyntaxTree)
        requires
            self.wf(),
        ensures
            t.wf(),
            t.text_len == self.text_len,
            t.nodes.len() == self.nodes.len() + 1,
            forall|j: int|
                0 <= j < self.nodes.len() ==> (#[trigger] t.nodes[j]).kind == self.nodes[j].kind
                    && t.nodes[j].start == self.nodes[j].start && t.nodes[j].end
                    == self.nodes[j].end && t.nodes[j].children@ == self.nodes[j].children@
                    && t.nodes[j].name == self.nodes[j].name && t.nodes[j].value
                    == self.nodes[j].value,
            t.nodes[t.root()].kind == NodeKind::Root,
            t.nodes[t.root()].start == 0,
            t.nodes[t.root()].end == self.text_len,
    {
        let mut b = self;
        let ghost pre = self.nodes@;
        let mut tops: Vec<usize> = Vec::new();
        let mut j: usize = 0;
        while j < b.nodes.len()
            invariant
                b == self,
                b.nodes@ == pre,
                b.wf(),
                j <= b.nodes.len(),
                forall|m: int|
                    0 <= m < tops.len() ==> {
                        let c = (#[trigger] tops[m]) as int;
                        &&& 0 <= c < pre.len()
                        &&& pre[c].parent == c
                        &&& pre[c].end <= b.text_len
                    },
                forall|c: int| 0 <= c < j && pre[c].parent == c ==> tops@.contains(c as usize),
            decreases b.nodes.len() - j,
        {
            let p = b.nodes[j].parent;
            let ghost tops_pre = tops@;
            if p == j {
                assert(node_wf(b.nodes@, b.text_len as int, j as int));
                tops.push(j);
                assert forall|c: int|
                    0 <= c < j + 1 && pre[c].parent == c implies tops@.contains(c as usize) by {
                    if c < j {
                        let w = choose|w: int| 0 <= w < tops_pre.len() && tops_pre[w]
                            == c as usize;
                        assert(tops@[w] == c as usize);
                    } else {
                        assert(tops@[tops@.len() - 1] == c as usize);
                    }
                }
            }
            j = j + 1;
        }
        let ghost topsg = tops@;
        let tl = b.text_len;
        let _root = b.push(NodeKind::Root, 0, tl, None, None, tops);
        let t = SyntaxTree { nodes: b.nodes, text_len: b.text_len };
        proof {
            assert forall|i: int|
                0 <= i < t.root() implies (#[trigger] t.nodes[i]).parent != i by {
                if pre[i].parent == i {
                    assert(topsg.contains(i as usize));
                }
            }
        }
        t
    }
}

/// Law: in a well-formed tree, every node's byte range lies within the text
/// and every child's range lies within its parent's range, so re-serializing
/// any node's range with `span_text` reconstructs exactly the text span the
/// node was parsed from.
pub proof fn lemma_range_containment(t: SyntaxTree, i: int)
    requires
        t.wf(),
        0 <= i < t.nodes.len(),
    ensures
        t.nodes[i].start <= t.nodes[i].end <= t.text_len,
        forall|k: int|
            0 <= k < t.nodes[i].children.len() ==> {
                let c = (#[trigger] t.nodes[i].children[k]) as int;
                t.nodes[i].start <= t.nodes[c].start && t.nodes[c].end <= t.nodes[i].end
            },
{
    assert(node_wf(t.nodes@, t.text_len as int, i));
    assert forall|k: int| 0 <= k < t.nodes[i].children.len() implies {
        let c = (#[trigger] t.nodes[i].children[k]) as int;
        t.nodes[i].start <= t.nodes[c].start && t.nodes[c].end <= t.nodes[i].end
    } by {
        assert(child_link_ok(t.nodes@, i, t.nodes[i].children[k] as int));
    }
}

/// Copies the byte span of one node out of the originating text: the slice
/// `text[node.start .. node.end]`, exactly the text the node was parsed from.
pub fn span_text(text: &Vec<u8>, start: usize, end: usize) -> (r: Vec<u8>)
    requires
        start <= end <= text.len(),
    ensures
        r@ == text@.subrange(start as int, end as int),
{
    let mut r: Vec<u8> = Vec::new();
    let mut i: usize = start;
    while i < end
        invariant
            start <= i <= end <= text.len(),
            r@ == text@.subrange(start as int, i as int),
        decreases end - i,
    {
        r.push(text[i]);
        assert(text@.subrange(start as int, i + 1 as int) =~= text@.subrange(
            start as int,
            i as int,
        ).push(text@[i as int]));
        i = i + 1;
    }
    r
}

} // verus!
