//! Byte-level tokenizer shared by the language adapters.
//!
//! Tokens carry their byte range into the originating text; ranges are
//! disjoint and ordered, which is what the adapters' range-containment
//! guarantee ultimately rests on. Whitespace and line comments are skipped.

use vstd::prelude::*;

verus! {

// ASCII byte values used by the tokenizer.
pub const SPACE: u8 = 32;
pub const TAB: u8 = 9;
pub const CARRIAGE_RETURN: u8 = 13;
pub const LINE_FEED: u8 = 10;
pub const SLASH: u8 = 47;
pub const QUOTE: u8 = 34;
pub const BACKSLASH: u8 = 92;
pub const MINUS: u8 = 45;
pub const GREATER: u8 = 62;
pub const LPAREN: u8 = 40;
pub const RPAREN: u8 = 41;
pub const LBRACE: u8 = 123;
pub const RBRACE: u8 = 125;
pub const SEMI: u8 = 59;
pub const COMMA: u8 = 44;
pub const COLON: u8 = 58;
pub const DOT: u8 = 46;
pub const PLUS: u8 = 43;
pub const AMP: u8 = 38;
pub const STAR: u8 = 42;
pub const EQUALS: u8 = 61;
pub const UNDERSCORE: u8 = 95;
pub const LOWER_A: u8 = 97;
pub const LOWER_Z: u8 = 122;
pub const UPPER_A: u8 = 65;
pub const UPPER_Z: u8 = 90;
pub const DIGIT_0: u8 = 48;
pub const DIGIT_9: u8 = 57;

#[derive(Clone, Copy, PartialEq, Eq, Structural, Debug)]
pub enum TokKind {
    Ident,
    KwFn,
    KwStruct,
    KwLet,
    KwUnsafe,
    KwConst,
    KwMut,
    Str,
    Int,
    LParen,
    RParen,
    LBrace,
    RBrace,
    Semi,
    Comma,
    Colon,
    Dot,
    Plus,
    Amp,
    Star,
    Eq,
    Arrow,
    Other,
}

/// One token: its kind, its byte range, and its text (for identifiers the
/// identifier bytes, for string literals the bytes between the quotes).
pub struct Token {
    pub kind: TokKind,
    pub start: usize,
    pub end: usize,
    pub lex: Vec<u8>,
}

/// Tokens lie inside the text, are non-empty, and appear in strictly
/// increasing, non-overlapping text order.
pub open spec fn tokens_wf(toks: Seq<Token>, text_len: int) -> bool {
    &&& forall|i: int|
        0 <= i < toks.len() ==> (#[trigger] toks[i]).start < toks[i].end && toks[i].end <= text_len
    &&& forall|i: int, j: int| 0 <= i < j < toks.len() ==> toks[i].end <= toks[j].start
}

/// The mathematical view of one token.
pub struct GToken {
    pub kind: TokKind,
    pub start: int,
    pub end: int,
    pub lex: Seq<u8>,
}

pub open spec fn abs_token(t: Token) -> GToken {
    GToken { kind: t.kind, start: t.start as int, end: t.end as int, lex: t.lex@ }
}

pub open spec fn abs_tokens(ts: Seq<Token>) -> Seq<GToken> {
    ts.map_values(|t: Token| abs_token(t))
}

pub open spec fn is_ident_start_spec(b: u8) -> bool {
    (LOWER_A <= b && b <= LOWER_Z) || (UPPER_A <= b && b <= UPPER_Z) || b == UNDERSCORE
}

pub open spec fn is_ident_continue_spec(b: u8) -> bool {
    ||| (LOWER_A <= b && b <= LOWER_Z)
    ||| (UPPER_A <= b && b <= UPPER_Z)
    ||| (DIGIT_0 <= b && b <= DIGIT_9)
    ||| b == UNDERSCORE
}

pub open spec fn is_digit_spec(b: u8) -> bool {
    DIGIT_0 <= b && b <= DIGIT_9
}

/// What an identifier word means as a token kind.
pub open spec fn kw_spec(w: Seq<u8>) -> TokKind {
    if w.len() == 2 && w[0] == 102 && w[1] == 110 {
        TokKind::KwFn
    } else if w.len() == 6 && w[0] == 115 && w[1] == 116 && w[2] == 114 && w[3] == 117 && w[4]
        == 99 && w[5] == 116 {
        TokKind::KwStruct
    } else if w.len() == 3 && w[0] == 108 && w[1] == 101 && w[2] == 116 {
        TokKind::KwLet
    } else if w.len() == 6 && w[0] == 117 && w[1] == 110 && w[2] == 115 && w[3] == LOWER_A && w[4]
        == 102 && w[5] == 101 {
        TokKind::KwUnsafe
    } else if w.len() == 5 && w[0] == 99 && w[1] == 111 && w[2] == 110 && w[3] == 115 && w[4]
        == 116 {
        TokKind::KwConst
    } else if w.len() == 3 && w[0] == 109 && w[1] == 117 && w[2] == 116 {
        TokKind::KwMut
    } else {
        TokKind::Ident
    }
}

/// What a one-byte punctuation token means.
pub open spec fn punct_spec(b: u8) -> TokKind {
    if b == LPAREN {
        TokKind::LParen
    } else if b == RPAREN {
        TokKind::RParen
    } else if b == LBRACE {
        TokKind::LBrace
    } else if b == RBRACE {
        TokKind::RBrace
    } else if b == SEMI {
        TokKind::Semi
    } else if b == COMMA {
        TokKind::Comma
    } else if b == COLON {
        TokKind::Colon
    } else if b == DOT {
        TokKind::Dot
    } else if b == PLUS {
        TokKind::Plus
    } else if b == AMP {
        TokKind::Amp
    } else if b == STAR {
        TokKind::Star
    } else if b == EQUALS {
        TokKind::Eq
    } else {
        TokKind::Other
    }
}

/// One past the last identifier byte of the run beginning at `j`.
pub open spec fn ident_end(text: Seq<u8>, j: int) -> int
    decreases text.len() - j,
    when 0 <= j <= text.len()
{
    if j < text.len() && is_ident_continue_spec(text[j]) {
        ident_end(text, j + 1)
    } else {
        j
    }
}

/// One past the end of a line comment's body beginning at `j`.
pub open spec fn comment_end(text: Seq<u8>, j: int) -> int
    decreases text.len() - j,
    when 0 <= j <= text.len()
{
    if j < text.len() && text[j] != LINE_FEED {
        comment_end(text, j + 1)
    } else {
        j
    }
}

/// Scans a string literal's body from `j`: one past its closing quote (or
/// the text's end), and whether the closing quote was found.
pub open spec fn str_scan(text: Seq<u8>, j: int) -> (int, bool)
    decreases text.len() - j,
    when 0 <= j <= text.len()
{
    if j >= text.len() {
        (j, false)
    } else if text[j] == QUOTE {
        (j + 1, true)
    } else if text[j] == BACKSLASH && j + 1 < text.len() {
        str_scan(text, j + 2)
    } else {
        str_scan(text, j + 1)
    }
}

pub proof fn lemma_ident_end_bounds(text: Seq<u8>, j: int)
    requires
        0 <= j <= text.len(),
    ensures
        j <= ident_end(text, j) <= text.len(),
    decreases text.len() - j,
{
    if j < text.len() && is_ident_continue_spec(text[j]) {
        lemma_ident_end_bounds(text, j + 1);
    }
}

pub proof fn lemma_comment_end_bounds(text: Seq<u8>, j: int)
    requires
        0 <= j <= text.len(),
    ensures
        j <= comment_end(text, j) <= text.len(),
    decreases text.len() - j,
{
    if j < text.len() && text[j] != LINE_FEED {
        lemma_comment_end_bounds(text, j + 1);
    }
}

pub proof fn lemma_str_scan_bounds(text: Seq<u8>, j: int)
    requires
        0 <= j <= text.len(),
    ensures
        j <= str_scan(text, j).0 <= text.len(),
    decreases text.len() - j,
{
    if j >= text.len() {
    } else if text[j] == QUOTE {
    } else if text[j] == BACKSLASH && j + 1 < text.len() {
        lemma_str_scan_bounds(text, j + 2);
    } else {
        lemma_str_scan_bounds(text, j + 1);
    }
}

/// The token sequence of the text from byte `i` on: the mathematical lexer
/// that `tokenize` computes.
pub open spec fn lex_from(text: Seq<u8>, i: int) -> Seq<GToken>
    decreases text.len() - i,
    when 0 <= i <= text.len()
{
    if i >= text.len() {
        Seq::empty()
    } else {
        let b = text[i];
        if b == SPACE || b == TAB || b == CARRIAGE_RETURN || b == LINE_FEED {
            lex_from(text, i + 1)
        } else if b == SLASH && i + 1 < text.len() && text[i + 1] == SLASH {
            proof {
                lemma_comment_end_bounds(text, i + 2);
            }
            lex_from(text, comment_end(text, i + 2))
        } else if is_ident_start_spec(b) {
            proof {
                lemma_ident_end_bounds(text, i + 1);
            }
            let j = ident_end(text, i + 1);
            seq![
                GToken {
                    kind: kw_spec(text.subrange(i, j)),
                    start: i,
                    end: j,
                    lex: text.subrange(i, j),
                },
            ] + lex_from(text, j)
        } else if is_digit_spec(b) {
            proof {
                lemma_ident_end_bounds(text, i + 1);
            }
            let j = ident_end(text, i + 1);
            seq![
                GToken { kind: TokKind::Int, start: i, end: j, lex: text.subrange(i, j) },
            ] + lex_from(text, j)
        } else if b == QUOTE {
            proof {
                lemma_str_scan_bounds(text, i + 1);
            }
            let jc = str_scan(text, i + 1);
            if jc.1 {
                seq![
                    GToken {
                        kind: TokKind::Str,
                        start: i,
                        end: jc.0,
                        lex: text.subrange(i + 1, jc.0 - 1),
                    },
                ] + lex_from(text, jc.0)
            } else {
                seq![
                    GToken { kind: TokKind::Other, start: i, end: jc.0, lex: Seq::empty() },
                ] + lex_from(text, jc.0)
            }
        } else if b == MINUS && i + 1 < text.len() && text[i + 1] == GREATER {
            seq![
                GToken { kind: TokKind::Arrow, start: i, end: i + 2, lex: Seq::empty() },
            ] + lex_from(text, i + 2)
        } else {
            seq![
                GToken { kind: punct_spec(b), start: i, end: i + 1, lex: Seq::empty() },
            ] + lex_from(text, i + 1)
        }
    }
}

/// The token sequence of the whole text.
pub open spec fn lex_spec(text: Seq<u8>) -> Seq<GToken> {
    lex_from(text, 0)
}

/// Copies a byte range of the text.
fn take_bytes(text: &Vec<u8>, start: usize, end: usize) -> (r: Vec<u8>)
    requires
        start <= end <= text.len(),
    ensures
        r@ == text@.subrange(start as int, end as int),
{
    crate::syntax::span_text(text, start, end)
}

/// Copies a byte vector.
pub fn dup_bytes(src: &Vec<u8>) -> (r: Vec<u8>)
    ensures
        r@ == src@,
{
    let mut r: Vec<u8> = Vec::new();
    let mut i: usize = 0;
    while i < src.len()
        invariant
            i <= src.len(),
            r@ == src@.subrange(0, i as int),
        decreases src.len() - i,
    {
        r.push(src[i]);
        assert(src@.subrange(0, i + 1) =~= src@.subrange(0, i as int).push(src@[i as int]));
        i = i + 1;
    }
    assert(src@.subrange(0, src.len() as int) =~= src@);
    r
}

fn is_ident_start(b: u8) -> (r: bool)
    ensures
        r == is_ident_start_spec(b),
{
    (b >= LOWER_A && b <= LOWER_Z) || (b >= UPPER_A && b <= UPPER_Z) || b == UNDERSCORE
}

fn is_ident_continue(b: u8) -> (r: bool)
    ensures
        r == is_ident_continue_spec(b),
{
    (b >= LOWER_A && b <= LOWER_Z) || (b >= UPPER_A && b <= UPPER_Z) || (b >= DIGIT_0 && b <= DIGIT_9) || b == UNDERSCORE
}

fn is_digit(b: u8) -> (r: bool)
    ensures
        r == is_digit_spec(b),
{
    b >= DIGIT_0 && b <= DIGIT_9
}

/// Classifies an identifier as a keyword of the scanned language.
fn keyword_kind(w: &Vec<u8>) -> (k: TokKind)
    ensures
        k == kw_spec(w@),
{
    // The byte values spell the keywords: "fn", "struct", "let", "unsafe",
    // "const", "mut".
    if w.len() == 2 && w[0] == 102 && w[1] == 110 {
        TokKind::KwFn
    } else if w.len() == 6 && w[0] == 115 && w[1] == 116 && w[2] == 114 && w[3] == 117 && w[4]
        == 99 && w[5] == 116 {
        TokKind::KwStruct
    } else if w.len() == 3 && w[0] == 108 && w[1] == 101 && w[2] == 116 {
        TokKind::KwLet
    } else if w.len() == 6 && w[0] == 117 && w[1] == 110 && w[2] == 115 && w[3] == LOWER_A && w[4]
        == 102 && w[5] == 101 {
        TokKind::KwUnsafe
    } else if w.len() == 5 && w[0] == 99 && w[1] == 111 && w[2] == 110 && w[3] == 115 && w[4]
        == 116 {
        TokKind::KwConst
    } else if w.len() == 3 && w[0] == 109 && w[1] == 117 && w[2] == 116 {
        TokKind::KwMut
    } else {
        TokKind::Ident
    }
}

/// Splits the text into tokens: exactly the token sequence `lex_spec`
/// assigns to the text. Every byte that starts neither whitespace, a
/// comment, nor a known token shape becomes a one-byte `Other` token, so
/// malformed input surfaces as a parse diagnostic rather than being lost.
pub fn tokenize(text: &Vec<u8>) -> (toks: Vec<Token>)
    ensures
        tokens_wf(toks@, text.len() as int),
        abs_tokens(toks@) == lex_spec(text@),
{
    let n = text.len();
    let mut toks: Vec<Token> = Vec::new();
    let mut i: usize = 0;
    while i < n
        invariant
            i <= n,
            n == text.len(),
            tokens_wf(toks@, n as int),
            forall|m: int| 0 <= m < toks.len() ==> (#[trigger] toks[m]).end <= i,
            abs_tokens(toks@) + lex_from(text@, i as int) == lex_spec(text@),
        decreases n - i,
    {
        let ghost pre = toks@;
        let b = text[i];
        if b == SPACE || b == TAB || b == CARRIAGE_RETURN || b == LINE_FEED {
            proof {
                assert(lex_from(text@, i as int) =~= lex_from(text@, i + 1));
            }
            i = i + 1;
        } else if b == SLASH && i + 1 < n && text[i + 1] == SLASH {
            let mut j = i + 2;
            while j < n && text[j] != LINE_FEED
                invariant
                    i + 2 <= j <= n,
                    n == text.len(),
                    comment_end(text@, i + 2) == comment_end(text@, j as int),
                decreases n - j,
            {
                proof {
                    assert(comment_end(text@, j as int) =~= comment_end(text@, j + 1));
                }
                j = j + 1;
            }
            proof {
                assert(comment_end(text@, j as int) == j as int);
                assert(lex_from(text@, i as int) =~= lex_from(text@, j as int));
            }
            i = j;
        } else if is_ident_start(b) {
            let s = i;
            let mut j = i + 1;
            while j < n && is_ident_continue(text[j])
                invariant
                    s < j <= n,
                    n == text.len(),
                    ident_end(text@, s + 1) == ident_end(text@, j as int),
                decreases n - j,
            {
                proof {
                    assert(ident_end(text@, j as int) =~= ident_end(text@, j + 1));
                }
                j = j + 1;
            }
            proof {
                assert(ident_end(text@, j as int) == j as int);
            }
            let w = take_bytes(text, s, j);
            let kind = keyword_kind(&w);
            let tok = Token { kind, start: s, end: j, lex: w };
            proof {
                let g = GToken {
                    kind: kw_spec(text@.subrange(s as int, j as int)),
                    start: s as int,
                    end: j as int,
                    lex: text@.subrange(s as int, j as int),
                };
                assert(abs_token(tok) == g);
                assert(lex_from(text@, i as int) =~= seq![g] + lex_from(text@, j as int));
                assert(abs_tokens(pre.push(tok)) =~= abs_tokens(pre).push(abs_token(tok)));
                assert(abs_tokens(pre.push(tok)) + lex_from(text@, j as int) =~= abs_tokens(pre)
                    + lex_from(text@, i as int));
            }
            toks.push(tok);
            i = j;
        } else if is_digit(b) {
            let s = i;
            let mut j = i + 1;
            while j < n && is_ident_continue(text[j])
                invariant
                    s < j <= n,
                    n == text.len(),
                    ident_end(text@, s + 1) == ident_end(text@, j as int),
                decreases n - j,
            {
                proof {
                    assert(ident_end(text@, j as int) =~= ident_end(text@, j + 1));
                }
                j = j + 1;
            }
            proof {
                assert(ident_end(text@, j as int) == j as int);
            }
            let w = take_bytes(text, s, j);
            let tok = Token { kind: TokKind::Int, start: s, end: j, lex: w };
            proof {
                let g = GToken {
                    kind: TokKind::Int,
                    start: s as int,
                    end: j as int,
                    lex: text@.subrange(s as int, j as int),
                };
                assert(abs_token(tok) == g);
                assert(lex_from(text@, i as int) =~= seq![g] + lex_from(text@, j as int));
                assert(abs_tokens(pre.push(tok)) =~= abs_tokens(pre).push(abs_token(tok)));
                assert(abs_tokens(pre.push(tok)) + lex_from(text@, j as int) =~= abs_tokens(pre)
                    + lex_from(text@, i as int));
            }
            toks.push(tok);
            i = j;
        } else if b == QUOTE {
            let s = i;
            let mut j = i + 1;
            let mut closed = false;
            while j < n && !closed
                invariant
                    s < j <= n,
                    n == text.len(),
                    closed ==> s + 1 < j,
                    closed ==> str_scan(text@, s + 1) == (j as int, true),
                    !closed ==> str_scan(text@, s + 1) == str_scan(text@, j as int),
                decreases n - j,
            {
                if text[j] == QUOTE {
                    proof {
                        assert(str_scan(text@, j as int) == (j + 1 as int, true));
                    }
                    closed = true;
                    j = j + 1;
                } else if text[j] == BACKSLASH && j + 1 < n {
                    proof {
                        assert(str_scan(text@, j as int) =~= str_scan(text@, j + 2));
                    }
                    j = j + 2;
                } else {
                    proof {
                        assert(str_scan(text@, j as int) =~= str_scan(text@, j + 1));
                    }
                    j = j + 1;
                }
            }
            proof {
                if !closed {
                    assert(str_scan(text@, j as int) == (j as int, false));
                }
                assert(str_scan(text@, s + 1) == (j as int, closed));
            }
            let tok = if closed {
                let w = take_bytes(text, s + 1, j - 1);
                Token { kind: TokKind::Str, start: s, end: j, lex: w }
            } else {
                Token { kind: TokKind::Other, start: s, end: j, lex: Vec::new() }
            };
            proof {
                let jc = str_scan(text@, s + 1);
                let g = if jc.1 {
                    GToken {
                        kind: TokKind::Str,
                        start: s as int,
                        end: jc.0,
                        lex: text@.subrange(s + 1, jc.0 - 1),
                    }
                } else {
                    GToken { kind: TokKind::Other, start: s as int, end: jc.0, lex: Seq::empty() }
                };
                assert(abs_token(tok).lex =~= g.lex);
                assert(abs_token(tok) == g);
                assert(lex_from(text@, i as int) =~= seq![g] + lex_from(text@, j as int));
                assert(abs_tokens(pre.push(tok)) =~= abs_tokens(pre).push(abs_token(tok)));
                assert(abs_tokens(pre.push(tok)) + lex_from(text@, j as int) =~= abs_tokens(pre)
                    + lex_from(text@, i as int));
            }
            toks.push(tok);
            i = j;
        } else if b == MINUS && i + 1 < n && text[i + 1] == GREATER {
            let tok = Token { kind: TokKind::Arrow, start: i, end: i + 2, lex: Vec::new() };
            proof {
                let g = GToken {
                    kind: TokKind::Arrow,
                    start: i as int,
                    end: i + 2,
                    lex: Seq::empty(),
                };
                assert(abs_token(tok).lex =~= g.lex);
                assert(abs_token(tok) == g);
                assert(lex_from(text@, i as int) =~= seq![g] + lex_from(text@, i + 2));
                assert(abs_tokens(pre.push(tok)) =~= abs_tokens(pre).push(abs_token(tok)));
                assert(abs_tokens(pre.push(tok)) + lex_from(text@, i + 2) =~= abs_tokens(pre)
                    + lex_from(text@, i as int));
            }
            toks.push(tok);
            i = i + 2;
        } else {
            let kind = if b == LPAREN {
                TokKind::LParen
            } else if b == RPAREN {
                TokKind::RParen
            } else if b == LBRACE {
                TokKind::LBrace
            } else if b == RBRACE {
                TokKind::RBrace
            } else if b == SEMI {
                TokKind::Semi
            } else if b == COMMA {
                TokKind::Comma
            } else if b == COLON {
                TokKind::Colon
            } else if b == DOT {
                TokKind::Dot
            } else if b == PLUS {
                TokKind::Plus
            } else if b == AMP {
                TokKind::Amp
            } else if b == STAR {
                TokKind::Star
            } else if b == EQUALS {
                TokKind::Eq
            } else {
                TokKind::Other
            };
            let tok = Token { kind, start: i, end: i + 1, lex: Vec::new() };
            proof {
                let g = GToken {
                    kind: punct_spec(b),
                    start: i as int,
                    end: i + 1,
                    lex: Seq::empty(),
                };
                assert(abs_token(tok).lex =~= g.lex);
                assert(abs_token(tok) == g);
                assert(lex_from(text@, i as int) =~= seq![g] + lex_from(text@, i + 1));
                assert(abs_tokens(pre.push(tok)) =~= abs_tokens(pre).push(abs_token(tok)));
                assert(abs_tokens(pre.push(tok)) + lex_from(text@, i + 1) =~= abs_tokens(pre)
                    + lex_from(text@, i as int));
            }
            toks.push(tok);
            i = i + 1;
        }
    }
    proof {
        assert(lex_from(text@, n as int) =~= Seq::<GToken>::empty());
        assert(abs_tokens(toks@) =~= abs_tokens(toks@) + lex_from(text@, n as int));
    }
    toks
}

} // verus!
