//! The language adapter for Rust-shaped source text.
//!
//! A recursive-descent parser over the token stream builds a normalized
//! syntax tree bottom up. On malformed input the parser stops at the first
//! offending token and reports its byte offset; everything parsed up to that
//! point is kept, so a file with a syntax error still contributes the matches
//! derivable from its well-formed prefix.

use vstd::prelude::*;
use crate::lexer::{Token, TokKind, tokenize, tokens_wf, dup_bytes};
use crate::syntax::{NodeKind, SyntaxTree, TreeBuilder, node_wf};

verus! {

/// Byte offset of the first token the parser could not place.
#[derive(Clone, Copy, PartialEq, Eq, Structural, Debug)]
pub struct ParseError {
    pub offset: usize,
}

/// Result of running a language adapter: the (possibly partial) tree, and
/// the diagnostic offset when the text was malformed.
pub struct Parsed {
    pub tree: SyntaxTree,
    pub diagnostic: Option<usize>,
}

struct Parser {
    toks: Vec<Token>,
    pos: usize,
    b: TreeBuilder,
}

impl Parser {
    spec fn wf(self) -> bool {
        &&& tokens_wf(self.toks@, self.b.text_len as int)
        &&& self.pos <= self.toks.len()
        &&& self.b.wf()
    }

    /// What every parsing step preserves: the token stream, the text length,
    /// all previously built nodes, and a position that only moves forward.
    spec fn step_ok(pre: Parser, post: Parser) -> bool {
        &&& post.wf()
        &&& post.toks == pre.toks
        &&& post.b.text_len == pre.b.text_len
        &&& pre.pos <= post.pos <= post.toks.len()
        &&& pre.b.nodes.len() <= post.b.nodes.len()
        &&& forall|j: int| 0 <= j < pre.b.nodes.len() ==> post.b.nodes[j] == pre.b.nodes[j]
    }

    /// What a successful parse of one construct produces: a fresh pending
    /// node whose byte range lies between the first token read and the last
    /// token consumed.
    spec fn made_node(pre: Parser, post: Parser, idx: usize) -> bool {
        &&& pre.pos < post.pos
        &&& pre.b.nodes.len() <= idx < post.b.nodes.len()
        &&& post.b.pending(idx as int)
        &&& pre.toks[pre.pos as int].start <= post.b.nodes[idx as int].start
        &&& post.b.nodes[idx as int].end <= post.toks[post.pos - 1].end
    }

    proof fn lemma_tok_le(toks: Seq<Token>, text_len: int, a: int, c: int)
        requires
            tokens_wf(toks, text_len),
            0 <= a <= c < toks.len(),
        ensures
            toks[a].start <= toks[c].start,
            toks[a].end <= toks[c].end,
            toks[a].start <= toks[c].end,
            a < c ==> toks[a].end <= toks[c].start,
    {
    }

    fn at(&self, k: TokKind) -> (r: bool)
        ensures
            r == (self.pos < self.toks.len() && self.toks[self.pos as int].kind == k),
    {
        self.pos < self.toks.len() && self.toks[self.pos].kind == k
    }

    /// Kind of the token after the current one, if any.
    fn at2(&self, k: TokKind) -> (r: bool)
        ensures
            r == (self.pos + 1 < self.toks.len() && self.toks[self.pos + 1].kind == k),
    {
        self.pos < self.toks.len() && self.pos + 1 < self.toks.len() && self.toks[self.pos
            + 1].kind == k
    }

    fn cur_offset(&self) -> (o: usize)
        requires
            self.wf(),
        ensures
            o <= self.b.text_len,
    {
        proof {
            if self.pos < self.toks.len() {
                assert(self.toks[self.pos as int].start < self.toks[self.pos as int].end);
            }
        }
        if self.pos < self.toks.len() {
            self.toks[self.pos].start
        } else {
            self.b.text_len
        }
    }

    fn bump(&mut self)
        requires
            old(self).wf(),
            old(self).pos < old(self).toks.len(),
        ensures
            final(self).wf(),
            final(self).toks == old(self).toks,
            final(self).b == old(self).b,
            final(self).pos == old(self).pos + 1,
    {
        self.pos = self.pos + 1;
    }

    fn expect(&mut self, k: TokKind) -> (r: Result<(), ParseError>)
        requires
            old(self).wf(),
        ensures
            final(self).wf(),
            final(self).toks == old(self).toks,
            final(self).b == old(self).b,
            r is Ok ==> old(self).pos < old(self).toks.len() && old(self).toks[old(
                self,
            ).pos as int].kind == k && final(self).pos == old(self).pos + 1,
            r is Err ==> final(self).pos == old(self).pos && r->Err_0.offset <= old(
                self,
            ).b.text_len,
    {
        proof {
            if self.pos < self.toks.len() {
                assert(self.toks[self.pos as int].start < self.toks[self.pos as int].end);
            }
        }
        if self.pos < self.toks.len() {
            let kk = self.toks[self.pos].kind;
            if kk == k {
                self.pos = self.pos + 1;
                Ok(())
            } else {
                Err(ParseError { offset: self.toks[self.pos].start })
            }
        } else {
            Err(ParseError { offset: self.b.text_len })
        }
    }

    fn expect_ident(&mut self) -> (r: Result<Vec<u8>, ParseError>)
        requires
            old(self).wf(),
        ensures
            final(self).wf(),
            final(self).toks == old(self).toks,
            final(self).b == old(self).b,
            r is Ok ==> old(self).pos < old(self).toks.len() && old(self).toks[old(
                self,
            ).pos as int].kind == TokKind::Ident && final(self).pos == old(self).pos + 1,
            r is Err ==> final(self).pos == old(self).pos && r->Err_0.offset <= old(
                self,
            ).b.text_len,
    {
        proof {
            if self.pos < self.toks.len() {
                assert(self.toks[self.pos as int].start < self.toks[self.pos as int].end);
            }
        }
        if self.pos < self.toks.len() {
            let kk = self.toks[self.pos].kind;
            if kk == TokKind::Ident {
                let w = dup_bytes(&self.toks[self.pos].lex);
                self.pos = self.pos + 1;
                Ok(w)
            } else {
                Err(ParseError { offset: self.toks[self.pos].start })
            }
        } else {
            Err(ParseError { offset: self.b.text_len })
        }
    }

    /// Primary expressions: literals, identifiers, calls, parenthesized
    /// expressions.
    fn parse_primary(&mut self, un: bool) -> (r: Result<usize, ParseError>)
        requires
            old(self).wf(),
        ensures
            Self::step_ok(*old(self), *final(self)),
            r is Err ==> r->Err_0.offset <= old(self).b.text_len,
            r is Ok ==> Self::made_node(*old(self), *final(self), r->Ok_0),
        decreases old(self).toks.len() - old(self).pos, 0int,
    {
        let ghost pre = *self;
        if self.pos >= self.toks.len() {
            return Err(ParseError { offset: self.b.text_len });
        }
        let k = self.toks[self.pos].kind;
        let s = self.toks[self.pos].start;
        let e = self.toks[self.pos].end;
        if k == TokKind::Str {
            let w = dup_bytes(&self.toks[self.pos].lex);
            self.bump();
            let idx = self.b.push(NodeKind::StringLiteral, s, e, None, Some(w), Vec::new());
            Ok(idx)
        } else if k == TokKind::Int {
            let w = dup_bytes(&self.toks[self.pos].lex);
            self.bump();
            let idx = self.b.push(NodeKind::IntLiteral, s, e, None, Some(w), Vec::new());
            Ok(idx)
        } else if k == TokKind::Ident {
            let w = dup_bytes(&self.toks[self.pos].lex);
            if self.at2(TokKind::LParen) {
                self.bump();
                self.bump();
                let args = match self.parse_args(un) {
                    Ok(a) => a,
                    Err(er) => {
                        return Err(er);
                    },
                };
                let end = self.toks[self.pos - 1].end;
                proof {
                    Self::lemma_tok_le(
                        self.toks@,
                        self.b.text_len as int,
                        pre.pos as int,
                        self.pos - 1,
                    );
                    assert forall|m: int| 0 <= m < args.len() implies {
                        let c = (#[trigger] args[m]) as int;
                        &&& 0 <= c < self.b.nodes.len()
                        &&& self.b.pending(c)
                        &&& s <= self.b.nodes[c].start
                        &&& self.b.nodes[c].end <= end
                    } by {
                        Self::lemma_tok_le(
                            self.toks@,
                            self.b.text_len as int,
                            pre.pos as int,
                            pre.pos + 2,
                        );
                    }
                }
                let idx = self.b.push(NodeKind::CallExpr, s, end, Some(w), None, args);
                Ok(idx)
            } else {
                self.bump();
                let idx = self.b.push(NodeKind::Identifier, s, e, Some(w), None, Vec::new());
                Ok(idx)
            }
        } else if k == TokKind::LParen {
            self.bump();
            let inner = match self.parse_expr(un) {
                Ok(i) => i,
                Err(er) => {
                    return Err(er);
                },
            };
            match self.expect(TokKind::RParen) {
                Ok(()) => (),
                Err(er) => {
                    return Err(er);
                },
            }
            proof {
                Self::lemma_tok_le(
                    self.toks@,
                    self.b.text_len as int,
                    pre.pos as int,
                    pre.pos + 1,
                );
                Self::lemma_tok_le(self.toks@, self.b.text_len as int, self.pos - 2, self.pos - 1);
            }
            Ok(inner)
        } else {
            Err(ParseError { offset: s })
        }
    }

    /// A parenthesized, comma-separated argument list; the caller has already
    /// consumed the opening parenthesis, this consumes through the closing
    /// one. Every returned index is a pending node lying between the entry
    /// position's token and the last consumed token.
    fn parse_args(&mut self, un: bool) -> (r: Result<Vec<usize>, ParseError>)
        requires
            old(self).wf(),
        ensures
            Self::step_ok(*old(self), *final(self)),
            r is Err ==> r->Err_0.offset <= old(self).b.text_len,
            r is Ok ==> old(self).pos < final(self).pos && forall|m: int|
                0 <= m < r->Ok_0.len() ==> {
                    let c = (#[trigger] r->Ok_0[m]) as int;
                    &&& old(self).b.nodes.len() <= c < final(self).b.nodes.len()
                    &&& final(self).b.pending(c)
                    &&& old(self).pos < old(self).toks.len()
                    &&& old(self).toks[old(self).pos as int].start
                        <= final(self).b.nodes[c].start
                    &&& final(self).b.nodes[c].end <= final(self).toks[final(self).pos - 1].end
                },
        decreases old(self).toks.len() - old(self).pos, 4int,
    {
        let ghost pre = *self;
        let mut args: Vec<usize> = Vec::new();
        if self.at(TokKind::RParen) {
            self.bump();
            return Ok(args);
        }
        loop
            invariant
                self.wf(),
                Self::step_ok(pre, *self),
                forall|m: int|
                    0 <= m < args.len() ==> {
                        let c = (#[trigger] args[m]) as int;
                        &&& pre.b.nodes.len() <= c < self.b.nodes.len()
                        &&& self.b.pending(c)
                        &&& pre.pos < pre.toks.len()
                        &&& pre.toks[pre.pos as int].start <= self.b.nodes[c].start
                        &&& (self.pos >= 1 && self.pos - 1 < self.toks.len() && self.b.nodes[c].end
                            <= self.toks[self.pos - 1].end)
                    },
            decreases self.toks.len() - self.pos,
        {
            let ghost it = *self;
            let e = match self.parse_expr(un) {
                Ok(i) => i,
                Err(er) => {
                    return Err(er);
                },
            };
            proof {
                Self::lemma_tok_le(self.toks@, self.b.text_len as int, pre.pos as int, it.pos as int);
                assert forall|m: int| 0 <= m < args.len() implies {
                    let c = (#[trigger] args[m]) as int;
                    self.b.nodes[c].end <= self.toks[self.pos - 1].end
                } by {
                    Self::lemma_tok_le(
                        self.toks@,
                        self.b.text_len as int,
                        it.pos - 1,
                        self.pos - 1,
                    );
                }
            }
            args.push(e);
            if self.at(TokKind::Comma) {
                let ghost before = *self;
                self.bump();
                proof {
                    assert forall|m: int| 0 <= m < args.len() implies {
                        let c = (#[trigger] args[m]) as int;
                        self.b.nodes[c].end <= self.toks[self.pos - 1].end
                    } by {
                        Self::lemma_tok_le(
                            self.toks@,
                            self.b.text_len as int,
                            before.pos - 1,
                            self.pos - 1,
                        );
                    }
                }
                if self.at(TokKind::RParen) {
                    let ghost before2 = *self;
                    self.bump();
                    proof {
                        assert forall|m: int| 0 <= m < args.len() implies {
                            let c = (#[trigger] args[m]) as int;
                            self.b.nodes[c].end <= self.toks[self.pos - 1].end
                        } by {
                            Self::lemma_tok_le(
                                self.toks@,
                                self.b.text_len as int,
                                before2.pos - 1,
                                self.pos - 1,
                            );
                        }
                    }
                    return Ok(args);
                }
            } else {
                let ghost before = *self;
                match self.expect(TokKind::RParen) {
                    Ok(()) => (),
                    Err(er) => {
                        return Err(er);
                    },
                }
                proof {
                    assert forall|m: int| 0 <= m < args.len() implies {
                        let c = (#[trigger] args[m]) as int;
                        self.b.nodes[c].end <= self.toks[self.pos - 1].end
                    } by {
                        Self::lemma_tok_le(
                            self.toks@,
                            self.b.text_len as int,
                            before.pos - 1,
                            self.pos - 1,
                        );
                    }
                }
                return Ok(args);
            }
        }
    }

    /// Postfix expressions: a primary followed by a chain of method calls.
    fn parse_postfix(&mut self, un: bool) -> (r: Result<usize, ParseError>)
        requires
            old(self).wf(),
        ensures
            Self::step_ok(*old(self), *final(self)),
            r is Err ==> r->Err_0.offset <= old(self).b.text_len,
            r is Ok ==> Self::made_node(*old(self), *final(self), r->Ok_0),
        decreases old(self).toks.len() - old(self).pos, 1int,
    {
        let ghost pre = *self;
        let mut e = match self.parse_primary(un) {
            Ok(i) => i,
            Err(er) => {
                return Err(er);
            },
        };
        let s = self.b.nodes[e].start;
        proof {
            assert(node_wf(self.b.nodes@, self.b.text_len as int, e as int));
        }
        while self.at(TokKind::Dot)
            invariant
                self.wf(),
                Self::step_ok(pre, *self),
                Self::made_node(pre, *self, e),
                s == self.b.nodes[e as int].start,
            decreases self.toks.len() - self.pos,
        {
            let ghost it = *self;
            self.bump();
            let name = match self.expect_ident() {
                Ok(w) => w,
                Err(er) => {
                    return Err(er);
                },
            };
            match self.expect(TokKind::LParen) {
                Ok(()) => (),
                Err(er) => {
                    return Err(er);
                },
            }
            let ghost entry = *self;
            let args = match self.parse_args(un) {
                Ok(a) => a,
                Err(er) => {
                    return Err(er);
                },
            };
            let end = self.toks[self.pos - 1].end;
            let mut children: Vec<usize> = Vec::new();
            children.push(e);
            let mut q: usize = 0;
            while q < args.len()
                invariant
                    q <= args.len(),
                    children@ == seq![e].add(args@.subrange(0, q as int)),
                decreases args.len() - q,
            {
                children.push(args[q]);
                assert(args@.subrange(0, q + 1) =~= args@.subrange(0, q as int).push(
                    args@[q as int],
                ));
                q = q + 1;
            }
            proof {
                assert(args@.subrange(0, args.len() as int) =~= args@);
                assert(node_wf(self.b.nodes@, self.b.text_len as int, e as int));
                assert forall|m: int| 0 <= m < children.len() implies {
                    let c = (#[trigger] children[m]) as int;
                    &&& 0 <= c < self.b.nodes.len()
                    &&& self.b.pending(c)
                    &&& s <= self.b.nodes[c].start
                    &&& self.b.nodes[c].end <= end
                } by {
                    if m == 0 {
                        Self::lemma_tok_le(
                            self.toks@,
                            self.b.text_len as int,
                            it.pos - 1,
                            self.pos - 1,
                        );
                    } else {
                        assert(children[m] == args[m - 1]);
                        // The receiver ends before the dot, so every argument
                        // token starts at or after the receiver's start.
                        Self::lemma_tok_le(
                            self.toks@,
                            self.b.text_len as int,
                            it.pos - 1,
                            entry.pos as int,
                        );
                        assert(s <= self.b.nodes[e as int].end);
                        assert(self.b.nodes[e as int].end <= self.toks[it.pos - 1].end);
                    }
                }
            }
            e = self.b.push(NodeKind::MethodCall, s, end, Some(name), None, children);
        }
        Ok(e)
    }

    /// Unary expressions: reference taking and dereference; a dereference in
    /// an unsafe context is normalized to its own node kind.
    fn parse_unary(&mut self, un: bool) -> (r: Result<usize, ParseError>)
        requires
            old(self).wf(),
        ensures
            Self::step_ok(*old(self), *final(self)),
            r is Err ==> r->Err_0.offset <= old(self).b.text_len,
            r is Ok ==> Self::made_node(*old(self), *final(self), r->Ok_0),
        decreases old(self).toks.len() - old(self).pos, 2int,
    {
        let ghost pre = *self;
        if self.at(TokKind::Amp) || self.at(TokKind::Star) {
            let is_ref = self.toks[self.pos].kind == TokKind::Amp;
            let s = self.toks[self.pos].start;
            self.bump();
            if is_ref && self.at(TokKind::KwMut) {
                self.bump();
            }
            let ghost entry = *self;
            let inner = match self.parse_unary(un) {
                Ok(i) => i,
                Err(er) => {
                    return Err(er);
                },
            };
            let end = self.toks[self.pos - 1].end;
            let kind = if is_ref {
                NodeKind::RefExpr
            } else if un {
                NodeKind::UnsafeDeref
            } else {
                NodeKind::DerefExpr
            };
            let mut children: Vec<usize> = Vec::new();
            children.push(inner);
            proof {
                assert forall|m: int| 0 <= m < children.len() implies {
                    let c = (#[trigger] children[m]) as int;
                    &&& 0 <= c < self.b.nodes.len()
                    &&& self.b.pending(c)
                    &&& s <= self.b.nodes[c].start
                    &&& self.b.nodes[c].end <= end
                } by {
                    Self::lemma_tok_le(
                        self.toks@,
                        self.b.text_len as int,
                        pre.pos as int,
                        entry.pos as int,
                    );
                }
            }
            let idx = self.b.push(kind, s, end, None, None, children);
            Ok(idx)
        } else {
            self.parse_postfix(un)
        }
    }

    /// Expressions: a chain of unary expressions joined by binary operators
    /// becomes one node whose children are the operands.
    fn parse_expr(&mut self, un: bool) -> (r: Result<usize, ParseError>)
        requires
            old(self).wf(),
        ensures
            Self::step_ok(*old(self), *final(self)),
            r is Err ==> r->Err_0.offset <= old(self).b.text_len,
            r is Ok ==> Self::made_node(*old(self), *final(self), r->Ok_0),
        decreases old(self).toks.len() - old(self).pos, 3int,
    {
        let ghost pre = *self;
        let first = match self.parse_unary(un) {
            Ok(i) => i,
            Err(er) => {
                return Err(er);
            },
        };
        if !self.at(TokKind::Plus) {
            return Ok(first);
        }
        let s = self.b.nodes[first].start;
        proof {
            assert(node_wf(self.b.nodes@, self.b.text_len as int, first as int));
        }
        let mut operands: Vec<usize> = Vec::new();
        operands.push(first);
        while self.at(TokKind::Plus)
            invariant
                self.wf(),
                Self::step_ok(pre, *self),
                pre.pos < self.pos,
                pre.b.nodes.len() <= first < self.b.nodes.len(),
                s == self.b.nodes[first as int].start,
                pre.toks[pre.pos as int].start <= s,
                1 <= operands.len(),
                operands[0] == first,
                forall|m: int|
                    0 <= m < operands.len() ==> {
                        let c = (#[trigger] operands[m]) as int;
                        &&& pre.b.nodes.len() <= c < self.b.nodes.len()
                        &&& self.b.pending(c)
                        &&& s <= self.b.nodes[c].start
                        &&& (self.pos >= 1 && self.pos - 1 < self.toks.len()
                            && self.b.nodes[c].end <= self.toks[self.pos - 1].end)
                    },
            decreases self.toks.len() - self.pos,
        {
            let ghost it = *self;
            self.bump();
            let e = match self.parse_unary(un) {
                Ok(i) => i,
                Err(er) => {
                    return Err(er);
                },
            };
            proof {
                assert(node_wf(self.b.nodes@, self.b.text_len as int, e as int));
                Self::lemma_tok_le(self.toks@, self.b.text_len as int, it.pos as int, self.pos - 1);
                assert(s <= self.b.nodes[e as int].start) by {
                    assert(node_wf(self.b.nodes@, self.b.text_len as int, first as int));
                    Self::lemma_tok_le(
                        self.toks@,
                        self.b.text_len as int,
                        it.pos - 1,
                        it.pos + 1,
                    );
                }
                assert forall|m: int| 0 <= m < operands.len() implies {
                    let c = (#[trigger] operands[m]) as int;
                    self.b.nodes[c].end <= self.toks[self.pos - 1].end
                } by {
                    Self::lemma_tok_le(
                        self.toks@,
                        self.b.text_len as int,
                        it.pos - 1,
                        self.pos - 1,
                    );
                }
            }
            operands.push(e);
        }
        let end = self.toks[self.pos - 1].end;
        proof {
            let c0 = operands[0] as int;
            assert(self.b.pending(c0) && s <= self.b.nodes[c0].start && self.b.nodes[c0].end
                <= self.toks[self.pos - 1].end);
            assert(node_wf(self.b.nodes@, self.b.text_len as int, c0));
            assert(self.toks[self.pos - 1].start < self.toks[self.pos - 1].end
                && self.toks[self.pos - 1].end <= self.b.text_len);
        }
        let idx = self.b.push(NodeKind::BinaryExpr, s, end, None, None, operands);
        Ok(idx)
    }

    /// A type written in a signature or a binding; only raw-pointer types
    /// become nodes of their own.
    fn parse_type(&mut self) -> (r: Result<Option<usize>, ParseError>)
        requires
            old(self).wf(),
        ensures
            Self::step_ok(*old(self), *final(self)),
            r is Err ==> r->Err_0.offset <= old(self).b.text_len,
            r is Ok ==> old(self).pos < final(self).pos,
            r matches Ok(Some(idx)) ==> Self::made_node(*old(self), *final(self), idx),
        decreases old(self).toks.len() - old(self).pos, 0int,
    {
        let ghost pre = *self;
        if self.at(TokKind::Star) {
            let s = self.toks[self.pos].start;
            self.bump();
            if self.at(TokKind::KwConst) || self.at(TokKind::KwMut) {
                self.bump();
            }
            match self.expect_ident() {
                Ok(_) => (),
                Err(er) => {
                    return Err(er);
                },
            }
            let end = self.toks[self.pos - 1].end;
            let idx = self.b.push(NodeKind::RawPtrType, s, end, None, None, Vec::new());
            Ok(Some(idx))
        } else if self.at(TokKind::Amp) {
            self.bump();
            if self.at(TokKind::KwMut) {
                self.bump();
            }
            match self.expect_ident() {
                Ok(_) => (),
                Err(er) => {
                    return Err(er);
                },
            }
            Ok(None)
        } else {
            match self.expect_ident() {
                Ok(_) => (),
                Err(er) => {
                    return Err(er);
                },
            }
            Ok(None)
        }
    }

    /// One statement: a binding, an unsafe block, or a bare expression.
    fn parse_stmt(&mut self, un: bool) -> (r: Result<usize, ParseError>)
        requires
            old(self).wf(),
        ensures
            Self::step_ok(*old(self), *final(self)),
            r is Err ==> r->Err_0.offset <= old(self).b.text_len,
            r is Ok ==> Self::made_node(*old(self), *final(self), r->Ok_0),
        decreases old(self).toks.len() - old(self).pos, 7int,
    {
        let ghost pre = *self;
        if self.at(TokKind::KwLet) {
            let s = self.toks[self.pos].start;
            self.bump();
            let name = match self.expect_ident() {
                Ok(w) => w,
                Err(er) => {
                    return Err(er);
                },
            };
            let mut children: Vec<usize> = Vec::new();
            if self.at(TokKind::Colon) {
                self.bump();
                let ghost entry_t = *self;
                match self.parse_type() {
                    Ok(Some(t)) => {
                        proof {
                            Self::lemma_tok_le(
                                self.toks@,
                                self.b.text_len as int,
                                pre.pos as int,
                                entry_t.pos as int,
                            );
                        }
                        children.push(t);
                    },
                    Ok(None) => (),
                    Err(er) => {
                        return Err(er);
                    },
                }
            }
            match self.expect(TokKind::Eq) {
                Ok(()) => (),
                Err(er) => {
                    return Err(er);
                },
            }
            let ghost entry_e = *self;
            let init = match self.parse_expr(un) {
                Ok(i) => i,
                Err(er) => {
                    return Err(er);
                },
            };
            proof {
                Self::lemma_tok_le(
                    self.toks@,
                    self.b.text_len as int,
                    pre.pos as int,
                    entry_e.pos as int,
                );
            }
            children.push(init);
            match self.expect(TokKind::Semi) {
                Ok(()) => (),
                Err(er) => {
                    return Err(er);
                },
            }
            let end = self.toks[self.pos - 1].end;
            proof {
                assert forall|m: int| 0 <= m < children.len() implies {
                    let c = (#[trigger] children[m]) as int;
                    &&& 0 <= c < self.b.nodes.len()
                    &&& self.b.pending(c)
                    &&& s <= self.b.nodes[c].start
                    &&& self.b.nodes[c].end <= end
                } by {
                    Self::lemma_tok_le(
                        self.toks@,
                        self.b.text_len as int,
                        entry_e.pos - 1,
                        self.pos - 1,
                    );
                }
                assert(self.toks[self.pos - 1].end <= self.b.text_len);
            }
            let idx = self.b.push(NodeKind::LetBinding, s, end, Some(name), None, children);
            Ok(idx)
        } else if self.at(TokKind::KwUnsafe) && self.at2(TokKind::LBrace) {
            self.bump();
            self.parse_block(true)
        } else {
            let e = match self.parse_expr(un) {
                Ok(i) => i,
                Err(er) => {
                    return Err(er);
                },
            };
            if self.at(TokKind::Semi) {
                let ghost before = *self;
                self.bump();
                proof {
                    Self::lemma_tok_le(
                        self.toks@,
                        self.b.text_len as int,
                        before.pos - 1,
                        self.pos - 1,
                    );
                }
            }
            Ok(e)
        }
    }

    /// A braced statement list; with `un` set, the statements are parsed in
    /// an unsafe context and the node kind records the unsafe marker.
    fn parse_block(&mut self, un: bool) -> (r: Result<usize, ParseError>)
        requires
            old(self).wf(),
        ensures
            Self::step_ok(*old(self), *final(self)),
            r is Err ==> r->Err_0.offset <= old(self).b.text_len,
            r is Ok ==> Self::made_node(*old(self), *final(self), r->Ok_0),
        decreases old(self).toks.len() - old(self).pos, 8int,
    {
        let ghost pre = *self;
        if !self.at(TokKind::LBrace) {
            return Err(ParseError { offset: self.cur_offset() });
        }
        let s = self.toks[self.pos].start;
        self.bump();
        let mut stmts: Vec<usize> = Vec::new();
        loop
            invariant
                self.wf(),
                Self::step_ok(pre, *self),
                pre.pos < self.pos,
                forall|m: int|
                    0 <= m < stmts.len() ==> {
                        let c = (#[trigger] stmts[m]) as int;
                        &&& pre.b.nodes.len() <= c < self.b.nodes.len()
                        &&& self.b.pending(c)
                        &&& s <= self.b.nodes[c].start
                        &&& (self.pos >= 1 && self.pos - 1 < self.toks.len() && self.b.nodes[c].end
                            <= self.toks[self.pos - 1].end)
                    },
            decreases self.toks.len() - self.pos,
        {
            if self.at(TokKind::RBrace) {
                let ghost before = *self;
                self.bump();
                let end = self.toks[self.pos - 1].end;
                proof {
                    assert forall|m: int| 0 <= m < stmts.len() implies {
                        let c = (#[trigger] stmts[m]) as int;
                        self.b.nodes[c].end <= end
                    } by {
                        Self::lemma_tok_le(
                            self.toks@,
                            self.b.text_len as int,
                            before.pos - 1,
                            self.pos - 1,
                        );
                    }
                    assert(self.toks[self.pos - 1].end <= self.b.text_len);
                }
                let kind = if un {
                    NodeKind::UnsafeBlock
                } else {
                    NodeKind::Block
                };
                let idx = self.b.push(kind, s, end, None, None, stmts);
                return Ok(idx);
            }
            if self.pos >= self.toks.len() {
                return Err(ParseError { offset: self.b.text_len });
            }
            let ghost it = *self;
            let st = match self.parse_stmt(un) {
                Ok(i) => i,
                Err(er) => {
                    return Err(er);
                },
            };
            proof {
                Self::lemma_tok_le(self.toks@, self.b.text_len as int, pre.pos as int, it.pos as int);
                assert forall|m: int| 0 <= m < stmts.len() implies {
                    let c = (#[trigger] stmts[m]) as int;
                    self.b.nodes[c].end <= self.toks[self.pos - 1].end
                } by {
                    Self::lemma_tok_le(
                        self.toks@,
                        self.b.text_len as int,
                        it.pos - 1,
                        self.pos - 1,
                    );
                }
            }
            stmts.push(st);
        }
    }

    /// A function declaration, optionally carrying an unsafe marker; the
    /// parameter list is consumed without producing nodes, a raw-pointer
    /// return type and the body become the children.
    fn parse_fn(&mut self) -> (r: Result<usize, ParseError>)
        requires
            old(self).wf(),
            old(self).pos < old(self).toks.len(),
        ensures
            Self::step_ok(*old(self), *final(self)),
            r is Err ==> r->Err_0.offset <= old(self).b.text_len,
            r is Ok ==> Self::made_node(*old(self), *final(self), r->Ok_0),
        decreases old(self).toks.len() - old(self).pos, 9int,
    {
        let ghost pre = *self;
        let s = self.toks[self.pos].start;
        let is_un = self.at(TokKind::KwUnsafe);
        if is_un {
            self.bump();
        }
        match self.expect(TokKind::KwFn) {
            Ok(()) => (),
            Err(er) => {
                return Err(er);
            },
        }
        let name = match self.expect_ident() {
            Ok(w) => w,
            Err(er) => {
                return Err(er);
            },
        };
        match self.expect(TokKind::LParen) {
            Ok(()) => (),
            Err(er) => {
                return Err(er);
            },
        }
        loop
            invariant
                self.wf(),
                Self::step_ok(pre, *self),
                pre.pos < self.pos,
            decreases self.toks.len() - self.pos,
        {
            if self.at(TokKind::RParen) {
                self.bump();
                break ;
            }
            if self.pos >= self.toks.len() {
                return Err(ParseError { offset: self.b.text_len });
            }
            self.bump();
        }
        let mut children: Vec<usize> = Vec::new();
        if self.at(TokKind::Arrow) {
            self.bump();
            let ghost entry_t = *self;
            match self.parse_type() {
                Ok(Some(t)) => {
                    proof {
                        Self::lemma_tok_le(
                            self.toks@,
                            self.b.text_len as int,
                            pre.pos as int,
                            entry_t.pos as int,
                        );
                    }
                    children.push(t);
                },
                Ok(None) => (),
                Err(er) => {
                    return Err(er);
                },
            }
        }
        let ghost entry_b = *self;
        let blk = match self.parse_block(is_un) {
            Ok(i) => i,
            Err(er) => {
                return Err(er);
            },
        };
        proof {
            Self::lemma_tok_le(self.toks@, self.b.text_len as int, pre.pos as int, entry_b.pos as int);
        }
        children.push(blk);
        let end = self.toks[self.pos - 1].end;
        proof {
            assert forall|m: int| 0 <= m < children.len() implies {
                let c = (#[trigger] children[m]) as int;
                &&& 0 <= c < self.b.nodes.len()
                &&& self.b.pending(c)
                &&& s <= self.b.nodes[c].start
                &&& self.b.nodes[c].end <= end
            } by {
                Self::lemma_tok_le(
                    self.toks@,
                    self.b.text_len as int,
                    entry_b.pos - 1,
                    self.pos - 1,
                );
            }
            assert(self.toks[self.pos - 1].end <= self.b.text_len);
        }
        let kind = if is_un {
            NodeKind::UnsafeFunctionDecl
        } else {
            NodeKind::FunctionDecl
        };
        let idx = self.b.push(kind, s, end, Some(name), None, children);
        Ok(idx)
    }

    /// A structure declaration; each field becomes a child node carrying the
    /// field's name.
    fn parse_struct(&mut self) -> (r: Result<usize, ParseError>)
        requires
            old(self).wf(),
            old(self).pos < old(self).toks.len(),
        ensures
            Self::step_ok(*old(self), *final(self)),
            r is Err ==> r->Err_0.offset <= old(self).b.text_len,
            r is Ok ==> Self::made_node(*old(self), *final(self), r->Ok_0),
        decreases old(self).toks.len() - old(self).pos, 9int,
    {
        let ghost pre = *self;
        let s = self.toks[self.pos].start;
        match self.expect(TokKind::KwStruct) {
            Ok(()) => (),
            Err(er) => {
                return Err(er);
            },
        }
        let name = match self.expect_ident() {
            Ok(w) => w,
            Err(er) => {
                return Err(er);
            },
        };
        match self.expect(TokKind::LBrace) {
            Ok(()) => (),
            Err(er) => {
                return Err(er);
            },
        }
        let mut fields: Vec<usize> = Vec::new();
        loop
            invariant
                self.wf(),
                Self::step_ok(pre, *self),
                pre.pos < self.pos,
                forall|m: int|
                    0 <= m < fields.len() ==> {
                        let c = (#[trigger] fields[m]) as int;
                        &&& pre.b.nodes.len() <= c < self.b.nodes.len()
                        &&& self.b.pending(c)
                        &&& s <= self.b.nodes[c].start
                        &&& (self.pos >= 1 && self.pos - 1 < self.toks.len() && self.b.nodes[c].end
                            <= self.toks[self.pos - 1].end)
                    },
            decreases self.toks.len() - self.pos,
        {
            if self.at(TokKind::RBrace) {
                let ghost before = *self;
                self.bump();
                let end = self.toks[self.pos - 1].end;
                proof {
                    assert forall|m: int| 0 <= m < fields.len() implies {
                        let c = (#[trigger] fields[m]) as int;
                        self.b.nodes[c].end <= end
                    } by {
                        Self::lemma_tok_le(
                            self.toks@,
                            self.b.text_len as int,
                            before.pos - 1,
                            self.pos - 1,
                        );
                    }
                    assert(self.toks[self.pos - 1].end <= self.b.text_len);
                }
                let idx = self.b.push(NodeKind::StructDecl, s, end, Some(name), None, fields);
                return Ok(idx);
            }
            if self.pos >= self.toks.len() {
                return Err(ParseError { offset: self.b.text_len });
            }
            let ghost it = *self;
            let fs = self.toks[self.pos].start;
            let fname = match self.expect_ident() {
                Ok(w) => w,
                Err(er) => {
                    return Err(er);
                },
            };
            match self.expect(TokKind::Colon) {
                Ok(()) => (),
                Err(er) => {
                    return Err(er);
                },
            }
            let ghost entry_t = *self;
            let mut fchildren: Vec<usize> = Vec::new();
            match self.parse_type() {
                Ok(Some(t)) => fchildren.push(t),
                Ok(None) => (),
                Err(er) => {
                    return Err(er);
                },
            }
            let fend = self.toks[self.pos - 1].end;
            proof {
                assert forall|m: int| 0 <= m < fchildren.len() implies {
                    let c = (#[trigger] fchildren[m]) as int;
                    &&& 0 <= c < self.b.nodes.len()
                    &&& self.b.pending(c)
                    &&& fs <= self.b.nodes[c].start
                    &&& self.b.nodes[c].end <= fend
                } by {
                    Self::lemma_tok_le(
                        self.toks@,
                        self.b.text_len as int,
                        it.pos as int,
                        entry_t.pos as int,
                    );
                }
                assert(self.toks[self.pos - 1].end <= self.b.text_len);
                Self::lemma_tok_le(self.toks@, self.b.text_len as int, pre.pos as int, it.pos as int);
            }
            let fidx = self.b.push(NodeKind::FieldDecl, fs, fend, Some(fname), None, fchildren);
            proof {
                assert forall|m: int| 0 <= m < fields.len() implies {
                    let c = (#[trigger] fields[m]) as int;
                    self.b.nodes[c].end <= self.toks[self.pos - 1].end
                } by {
                    Self::lemma_tok_le(
                        self.toks@,
                        self.b.text_len as int,
                        it.pos - 1,
                        self.pos - 1,
                    );
                }
            }
            fields.push(fidx);
            if self.at(TokKind::Comma) {
                let ghost before = *self;
                self.bump();
                proof {
                    assert forall|m: int| 0 <= m < fields.len() implies {
                        let c = (#[trigger] fields[m]) as int;
                        self.b.nodes[c].end <= self.toks[self.pos - 1].end
                    } by {
                        Self::lemma_tok_le(
                            self.toks@,
                            self.b.text_len as int,
                            before.pos - 1,
                            self.pos - 1,
                        );
                    }
                }
            }
        }
    }

    /// One top-level item: a function or a structure declaration.
    fn parse_item(&mut self) -> (r: Result<usize, ParseError>)
        requires
            old(self).wf(),
        ensures
            Self::step_ok(*old(self), *final(self)),
            r is Err ==> r->Err_0.offset <= old(self).b.text_len,
            r is Ok ==> Self::made_node(*old(self), *final(self), r->Ok_0),
        decreases old(self).toks.len() - old(self).pos, 10int,
    {
        if self.at(TokKind::KwStruct) {
            self.parse_struct()
        } else if self.at(TokKind::KwFn) || (self.at(TokKind::KwUnsafe) && self.at2(
            TokKind::KwFn,
        )) {
            self.parse_fn()
        } else {
            Err(ParseError { offset: self.cur_offset() })
        }
    }

    /// Parses items until the end of the token stream or the first error,
    /// whose byte offset is returned.
    fn parse_file(&mut self) -> (r: Option<usize>)
        requires
            old(self).wf(),
            old(self).pos == 0,
        ensures
            final(self).wf(),
            final(self).toks == old(self).toks,
            final(self).b.text_len == old(self).b.text_len,
            old(self).toks.len() == 0 ==> (r is None && final(self).b.nodes.len() == old(
                self,
            ).b.nodes.len()),
            r is None && old(self).toks.len() > 0 ==> final(self).b.nodes.len() > old(
                self,
            ).b.nodes.len(),
            r matches Some(off) ==> off <= final(self).b.text_len,
        decreases old(self).toks.len() - old(self).pos, 11int,
    {
        let ghost pre = *self;
        let mut diag: Option<usize> = None;
        let mut done = false;
        while !done && self.pos < self.toks.len()
            invariant
                self.wf(),
                Self::step_ok(pre, *self),
                pre.pos == self.pos && !done ==> self.b.nodes.len() == pre.b.nodes.len(),
                pre.toks.len() == 0 ==> (diag is None && self.b.nodes.len()
                    == pre.b.nodes.len()),
                done <==> diag is Some,
                diag matches Some(off) ==> off <= self.b.text_len,
                self.pos > pre.pos && diag is None ==> self.b.nodes.len() > pre.b.nodes.len(),
            decreases self.toks.len() - self.pos, (if done {
                0int
            } else {
                1int
            }),
        {
            match self.parse_item() {
                Ok(_) => (),
                Err(e) => {
                    diag = Some(e.offset);
                    done = true;
                },
            }
        }
        diag
    }
}

/// Runs the language adapter for Rust-shaped text: tokenize (exactly
/// `lex_spec`), parse, and close the tree over a root node. Always yields a
/// well-formed tree covering the whole text; a text without tokens yields
/// the root alone and no diagnostic, and a clean parse of a non-trivial
/// token stream always yields parsed nodes beneath the root.
pub fn parse_rust(text: &Vec<u8>) -> (p: Parsed)
    ensures
        p.tree.wf(),
        p.tree.text_len == text.len(),
        p.tree.nodes[p.tree.root()].kind == NodeKind::Root,
        p.tree.nodes[p.tree.root()].start == 0,
        p.tree.nodes[p.tree.root()].end == text.len(),
        crate::lexer::lex_spec(text@).len() == 0 ==> (p.tree.nodes.len() == 1 && p.diagnostic
            is None),
        p.diagnostic is None && crate::lexer::lex_spec(text@).len() > 0 ==> p.tree.nodes.len()
            >= 2,
        text.len() == 0 ==> (p.tree.nodes.len() == 1 && p.diagnostic is None),
        p.diagnostic matches Some(off) ==> off <= text.len(),
{
    let toks = tokenize(text);
    proof {
        assert(crate::lexer::abs_tokens(toks@).len() == toks@.len());
        if text.len() == 0 && toks.len() > 0 {
            assert(toks@[0].start < toks@[0].end && toks@[0].end <= 0);
        }
    }
    let mut pr = Parser { toks, pos: 0, b: TreeBuilder::new(text.len()) };
    let diag = pr.parse_file();
    let tree = pr.b.finish();
    Parsed { tree, diagnostic: diag }
}

} // verus!
