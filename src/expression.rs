use vstd::prelude::*;
use vstd::string::*;
use crate::lexer::{Lexeme, LexemeKind, Span, max_usize, min_usize, same_str};

verus! {

/// An infix operator, as found at a split point.
#[derive(Clone, Copy, Debug, PartialEq, Eq, Structural)]
pub enum BinOp {
    Add,
    Sub,
    Mul,
    Div,
    Exp,
}

#[derive(Debug)]
pub enum ArithmeticNodeKind {
    Add(Box<ArithmeticNode>, Box<ArithmeticNode>),
    Sub(Box<ArithmeticNode>, Box<ArithmeticNode>),
    Mul(Box<ArithmeticNode>, Box<ArithmeticNode>),
    Div(Box<ArithmeticNode>, Box<ArithmeticNode>),
    Pow(Box<ArithmeticNode>, Box<ArithmeticNode>),
    /// `Root(degree, radicand)`
    Root(Box<ArithmeticNode>, Box<ArithmeticNode>),
    /// `Log(base, value)`
    Log(Box<ArithmeticNode>, Box<ArithmeticNode>),
    Sin(Box<ArithmeticNode>),
    Cos(Box<ArithmeticNode>),
    Tan(Box<ArithmeticNode>),
    /// Converts its operand from degrees to radians.
    Deg(Box<ArithmeticNode>),
    Neg(Box<ArithmeticNode>),
    /// A numeral as written in the source.
    Literal(String),
    Variable(String),
}

/// A node of the syntax tree, with the span of the tokens it was built from.
#[derive(Debug)]
pub struct ArithmeticNode {
    pub span: Span,
    pub kind: ArithmeticNodeKind,
}

#[derive(Debug)]
pub enum ParserError {
    /// `*`, `/` or `^` in front of an operand.
    InvalidUnaryOperator(BinOp),
    InvalidArgumentCount { expected: usize, got: usize },
    UnexpectedToken(Lexeme),
    UnrecognizedFunction(String, Span),
    /// A range of tokens that lies outside the token list. `parse` never
    /// returns it, as it takes a non-empty list.
    MalformedExpression(Span),
}

/// The operator that a token stands for at a split point.
pub open spec fn op_of(k: LexemeKind) -> Option<BinOp> {
    match k {
        LexemeKind::Plus => Some(BinOp::Add),
        LexemeKind::Minus => Some(BinOp::Sub),
        LexemeKind::Star => Some(BinOp::Mul),
        LexemeKind::Slash => Some(BinOp::Div),
        LexemeKind::Karat => Some(BinOp::Exp),
        _ => None,
    }
}

/// How tightly an operator binds: the loosest one is split at first.
pub open spec fn priority(op: BinOp) -> int {
    match op {
        BinOp::Exp => 2,
        BinOp::Mul | BinOp::Div => 1,
        BinOp::Add | BinOp::Sub => 0,
    }
}

/// The state of the scan for a split point: the parenthesis depth, whether the
/// last token at depth zero was an operator, and the best split point so far.
/// For error reports it also keeps how many tokens it has passed, whether the
/// first was a word, the last `(` opened at depth zero, and the first token at
/// depth zero that begins a second operand: one after the first token, other
/// than the `(` of a call right after a leading word.
#[derive(Clone, Copy)]
pub struct ScanState {
    pub depth: usize,
    pub prev_op: bool,
    pub best: Option<(usize, BinOp)>,
    pub count: usize,
    pub first_word: bool,
    pub open_at: usize,
    pub stray: Option<usize>,
}

/// The scan state before the first token.
pub open spec fn scan_start(first_word: bool) -> ScanState {
    ScanState { depth: 0, prev_op: false, best: None, count: 0, first_word, open_at: 0, stray: None }
}

/// The bookkeeping for error reports after token `tok` at index `idx`, which
/// is no operator at depth zero.
pub open spec fn note_token(st: ScanState, tok: Lexeme, idx: usize) -> ScanState {
    let call_paren = st.count == 1 && st.first_word && tok.kind is OpenParen;
    ScanState {
        open_at: if tok.kind is OpenParen { idx } else { st.open_at },
        stray: if st.stray is None && st.count >= 1 && !call_paren { Some(idx) } else { st.stray },
        ..st
    }
}

/// Counts one more token.
pub open spec fn counted(st: ScanState) -> ScanState {
    ScanState { count: (st.count + 1) as usize, ..st }
}

/// Whether an operator at depth zero that follows no operator replaces the
/// best split point so far: it does unless that one binds more loosely, so among
/// equals the rightmost wins.
pub open spec fn better_split(op: BinOp, best: Option<(usize, BinOp)>) -> bool {
    match best {
        None => true,
        Some((_, b)) => priority(op) <= priority(b),
    }
}

/// One step of the scan over token `tok` at index `idx`; `Err(idx)` for a
/// closing parenthesis that matches nothing.
pub open spec fn scan_step(st: ScanState, tok: Lexeme, idx: usize) -> Result<ScanState, usize> {
    if st.depth == 0 {
        match op_of(tok.kind) {
            Some(op) => Ok(counted(
                ScanState {
                    prev_op: true,
                    best: if !st.prev_op && better_split(op, st.best) {
                        Some((idx, op))
                    } else {
                        st.best
                    },
                    ..st
                },
            )),
            None => if tok.kind is CloseParen {
                Err(idx)
            } else {
                let n = note_token(st, tok, idx);
                Ok(counted(ScanState { depth: if tok.kind is OpenParen { 1 } else { 0 }, prev_op: false, ..n }))
            },
        }
    } else if tok.kind is OpenParen {
        Ok(counted(ScanState { depth: (st.depth + 1) as usize, ..st }))
    } else if tok.kind is CloseParen {
        Ok(counted(ScanState { depth: (st.depth - 1) as usize, ..st }))
    } else {
        Ok(counted(st))
    }
}

/// The scan over the tokens `lo..i`.
pub open spec fn split_scan(t: Seq<Lexeme>, lo: int, i: int) -> Result<ScanState, usize>
    decreases i - lo,
{
    if i <= lo {
        Ok(scan_start(t[lo].kind is Word))
    } else {
        match split_scan(t, lo, i - 1) {
            Err(j) => Err(j),
            Ok(st) => scan_step(st, t[i - 1], (i - 1) as usize),
        }
    }
}

/// The span from the first to the last token of `lo..hi`.
pub open spec fn window_span(t: Seq<Lexeme>, lo: int, hi: int) -> Span {
    Span {
        begin: min_usize(t[lo].span.begin, t[hi - 1].span.begin),
        end: max_usize(t[lo].span.end, t[hi - 1].span.end),
    }
}

pub open spec fn node(kind: ArithmeticNodeKind, span: Span) -> ArithmeticNode {
    ArithmeticNode { span, kind }
}

pub open spec fn binary(op: BinOp, a: ArithmeticNode, b: ArithmeticNode, span: Span) -> ArithmeticNode {
    let (a, b) = (Box::new(a), Box::new(b));
    node(
        match op {
            BinOp::Add => ArithmeticNodeKind::Add(a, b),
            BinOp::Sub => ArithmeticNodeKind::Sub(a, b),
            BinOp::Mul => ArithmeticNodeKind::Mul(a, b),
            BinOp::Div => ArithmeticNodeKind::Div(a, b),
            BinOp::Exp => ArithmeticNodeKind::Pow(a, b),
        },
        span,
    )
}

/// The argument ranges of `lo..hi` from position `i` on: pieces between commas
/// at depth zero, where `opens - closes` is the depth and `start` begins the
/// current piece. A last piece that is empty is left out.
pub open spec fn arg_pieces(t: Seq<Lexeme>, i: int, hi: int, opens: int, closes: int, start: int) -> Seq<(usize, usize)>
    decreases hi - i,
{
    if i >= hi {
        if start < hi {
            seq![(start as usize, hi as usize)]
        } else {
            Seq::empty()
        }
    } else if t[i].kind is OpenParen {
        arg_pieces(t, i + 1, hi, opens + 1, closes, start)
    } else if t[i].kind is CloseParen {
        arg_pieces(t, i + 1, hi, opens, closes + 1, start)
    } else if t[i].kind is Comma && opens == closes {
        seq![(start as usize, i as usize)] + arg_pieces(t, i + 1, hi, opens, closes, i + 1)
    } else {
        arg_pieces(t, i + 1, hi, opens, closes, start)
    }
}

/// The name of a function and how many arguments it takes.
pub open spec fn arity(name: Seq<char>) -> Option<usize> {
    if name == "sin"@ || name == "cos"@ || name == "tan"@ || name == "deg"@ {
        Some(1)
    } else if name == "log"@ || name == "nrt"@ {
        Some(2)
    } else {
        None
    }
}

/// The node of a call of a known function on arguments of the right number.
pub open spec fn call_node(name: Seq<char>, args: Seq<ArithmeticNode>, span: Span) -> ArithmeticNode {
    if name == "sin"@ {
        node(ArithmeticNodeKind::Sin(Box::new(args[0])), span)
    } else if name == "cos"@ {
        node(ArithmeticNodeKind::Cos(Box::new(args[0])), span)
    } else if name == "tan"@ {
        node(ArithmeticNodeKind::Tan(Box::new(args[0])), span)
    } else if name == "deg"@ {
        node(ArithmeticNodeKind::Deg(Box::new(args[0])), span)
    } else if name == "log"@ {
        node(ArithmeticNodeKind::Log(Box::new(args[0]), Box::new(args[1])), span)
    } else {
        node(ArithmeticNodeKind::Root(Box::new(args[0]), Box::new(args[1])), span)
    }
}

/// The token to blame when the tokens `lo..hi` hold no split point and form
/// neither a parenthesised expression nor a call: a `(` left open, else a first
/// token that starts no operand, else the token that begins a second operand.
pub open spec fn stray_token(t: Seq<Lexeme>, lo: int, hi: int, st: ScanState) -> int {
    if st.depth > 0 {
        st.open_at as int
    } else if !(t[lo].kind is Number || t[lo].kind is Word || t[lo].kind is OpenParen) {
        lo
    } else {
        match st.stray {
            Some(j) => j as int,
            None => hi - 1,
        }
    }
}

/// The expression of the tokens `lo..hi`, or why there is none.
pub open spec fn parse_window(t: Seq<Lexeme>, lo: int, hi: int) -> Result<ArithmeticNode, ParserError>
    decreases hi - lo, 1int,
{
    if !(0 <= lo < hi <= t.len()) {
        Err(ParserError::MalformedExpression(Span { begin: 0, end: 0 }))
    } else {
        let span = window_span(t, lo, hi);
        if hi - lo == 1 {
            match t[lo].kind {
                LexemeKind::Number(v) => Ok(node(ArithmeticNodeKind::Literal(v), span)),
                LexemeKind::Word(w) => Ok(node(ArithmeticNodeKind::Variable(w), span)),
                _ => Err(ParserError::UnexpectedToken(t[lo])),
            }
        } else {
            match split_scan(t, lo, hi) {
                Err(j) => Err(ParserError::UnexpectedToken(t[j as int])),
                Ok(st) => match st.best {
                    Some((i, op)) => if i as int == lo {
                        match op {
                            BinOp::Add => parse_window(t, lo + 1, hi),
                            BinOp::Sub => match parse_window(t, lo + 1, hi) {
                                Ok(a) => Ok(node(ArithmeticNodeKind::Neg(Box::new(a)), span)),
                                Err(e) => Err(e),
                            },
                            _ => Err(ParserError::InvalidUnaryOperator(op)),
                        }
                    } else if lo < i < hi - 1 {
                        match parse_window(t, lo, i as int) {
                            Err(e) => Err(e),
                            Ok(a) => match parse_window(t, i + 1, hi) {
                                Err(e) => Err(e),
                                Ok(b) => Ok(binary(op, a, b, span)),
                            },
                        }
                    } else {
                        Err(ParserError::UnexpectedToken(t[i as int]))
                    },
                    None => if t[lo].kind is OpenParen && t[hi - 1].kind is CloseParen {
                        if hi - lo > 2 {
                            parse_window(t, lo + 1, hi - 1)
                        } else {
                            Err(ParserError::UnexpectedToken(t[hi - 1]))
                        }
                    } else if t[lo].kind is Word && t[lo + 1].kind is OpenParen && t[hi
                        - 1].kind is CloseParen && hi - lo >= 3 {
                        let pieces = arg_pieces(t, lo + 2, hi - 1, 0, 0, lo + 2);
                        match parse_args(t, lo + 2, hi - 1, pieces, 0) {
                            Err(e) => Err(e),
                            Ok(args) => {
                                let name = t[lo].kind->Word_0;
                                match arity(name@) {
                                    None => Err(
                                        ParserError::UnrecognizedFunction(name, t[lo].span),
                                    ),
                                    Some(n) => if args.len() == n {
                                        Ok(call_node(name@, args, span))
                                    } else {
                                        Err(
                                            ParserError::InvalidArgumentCount {
                                                expected: n,
                                                got: args.len() as usize,
                                            },
                                        )
                                    },
                                }
                            },
                        }
                    } else {
                        Err(ParserError::UnexpectedToken(t[stray_token(t, lo, hi, st)]))
                    },
                },
            }
        }
    }
}

/// The arguments of the pieces from index `k` on, each within `rlo..rhi`, or
/// the first error.
pub open spec fn parse_args(t: Seq<Lexeme>, rlo: int, rhi: int, pieces: Seq<(usize, usize)>, k: int) -> Result<Seq<ArithmeticNode>, ParserError>
    decreases rhi - rlo + 1, 0int, pieces.len() - k,
{
    if k >= pieces.len() || k < 0 {
        Ok(Seq::empty())
    } else {
        let (a, b) = pieces[k];
        if !(rlo <= a && b <= rhi) {
            Err(ParserError::MalformedExpression(window_span(t, rlo - 2, rhi + 1)))
        } else if a >= b {
            Err(ParserError::UnexpectedToken(t[b as int]))
        } else {
            match parse_window(t, a as int, b as int) {
                Err(e) => Err(e),
                Ok(n) => match parse_args(t, rlo, rhi, pieces, k + 1) {
                    Err(e) => Err(e),
                    Ok(rest) => Ok(seq![n] + rest),
                },
            }
        }
    }
}

/// The expression of a whole token list.
pub open spec fn parse_tokens(t: Seq<Lexeme>) -> Result<ArithmeticNode, ParserError> {
    parse_window(t, 0, t.len() as int)
}



/// Whether index `k` of `lo..` is a split point: an operator at depth zero
/// that does not follow another operator at depth zero.
pub open spec fn is_split_point(t: Seq<Lexeme>, lo: int, k: int) -> bool {
    &&& lo <= k < t.len()
    &&& split_scan(t, lo, k) matches Ok(st)
    &&& st.depth == 0
    &&& !st.prev_op
    &&& op_of(t[k].kind) is Some
}

/// The split point that the scan of `lo..hi` picks is one whose operator binds
/// most loosely, and the rightmost of those; there is none only where no
/// split point exists.
pub proof fn lemma_chosen_split(t: Seq<Lexeme>, lo: int, hi: int)
    requires
        0 <= lo <= hi <= t.len(),
        hi < usize::MAX,
        split_scan(t, lo, hi) is Ok,
    ensures
        ({
            let st = split_scan(t, lo, hi)->Ok_0;
            match st.best {
                None => forall|k: int| lo <= k < hi ==> !is_split_point(t, lo, k),
                Some((j, op)) => {
                    &&& lo <= j < hi
                    &&& is_split_point(t, lo, j as int)
                    &&& op_of(t[j as int].kind) == Some(op)
                    &&& forall|k: int|
                        lo <= k < hi && #[trigger] is_split_point(t, lo, k) ==> {
                            let pk = priority(op_of(t[k].kind)->0);
                            pk > priority(op) || (pk == priority(op) && k <= j)
                        }
                },
            }
        }),
    decreases hi - lo,
{
    if hi > lo {
        lemma_scan_prefix_ok(t, lo, hi - 1, hi);
        lemma_chosen_split(t, lo, hi - 1);
        let prev = split_scan(t, lo, hi - 1)->Ok_0;
        let st = split_scan(t, lo, hi)->Ok_0;
        assert forall|k: int| lo <= k < hi && #[trigger] is_split_point(t, lo, k) implies (match st.best {
            None => false,
            Some((j, op)) => {
                let pk = priority(op_of(t[k].kind)->0);
                pk > priority(op) || (pk == priority(op) && k <= j)
            },
        }) by {
            if k < hi - 1 {
                assert(is_split_point(t, lo, k));
            }
        }
    }
}

/// A scan that gets through `lo..k` got through every shorter prefix.
proof fn lemma_scan_prefix_ok(t: Seq<Lexeme>, lo: int, i: int, k: int)
    requires
        lo <= i <= k,
        split_scan(t, lo, k) is Ok,
    ensures
        split_scan(t, lo, i) is Ok,
    decreases k - i,
{
    if i < k {
        lemma_scan_prefix_ok(t, lo, i + 1, k);
    }
}

/// Once the scan meets a closing parenthesis that matches nothing, it stops there.
proof fn lemma_scan_error_sticks(t: Seq<Lexeme>, lo: int, i: int, k: int)
    requires
        split_scan(t, lo, i) is Err,
        lo <= i <= k,
    ensures
        split_scan(t, lo, k) == split_scan(t, lo, i),
    decreases k - i,
{
    if k > i {
        lemma_scan_error_sticks(t, lo, i, k - 1);
    }
}

/// `(a b sym)`
pub open spec fn pair_rpn(a: Seq<char>, b: Seq<char>, sym: Seq<char>) -> Seq<char> {
    "("@ + a + " "@ + b + " "@ + sym + ")"@
}

/// `(a sym)`
pub open spec fn single_rpn(a: Seq<char>, sym: Seq<char>) -> Seq<char> {
    "("@ + a + " "@ + sym + ")"@
}

/// The fully parenthesised postfix text of a tree.
pub open spec fn rpn(n: ArithmeticNode) -> Seq<char>
    decreases n,
{
    match n.kind {
        ArithmeticNodeKind::Add(a, b) => pair_rpn(rpn(*a), rpn(*b), "+"@),
        ArithmeticNodeKind::Sub(a, b) => pair_rpn(rpn(*a), rpn(*b), "-"@),
        ArithmeticNodeKind::Mul(a, b) => pair_rpn(rpn(*a), rpn(*b), "*"@),
        ArithmeticNodeKind::Div(a, b) => pair_rpn(rpn(*a), rpn(*b), "/"@),
        ArithmeticNodeKind::Pow(a, b) => pair_rpn(rpn(*a), rpn(*b), "^"@),
        ArithmeticNodeKind::Root(a, b) => pair_rpn(rpn(*a), rpn(*b), "nrt"@),
        ArithmeticNodeKind::Log(a, b) => pair_rpn(rpn(*a), rpn(*b), "log"@),
        ArithmeticNodeKind::Neg(a) => single_rpn(rpn(*a), "-"@),
        ArithmeticNodeKind::Sin(a) => single_rpn(rpn(*a), "sin"@),
        ArithmeticNodeKind::Cos(a) => single_rpn(rpn(*a), "cos"@),
        ArithmeticNodeKind::Tan(a) => single_rpn(rpn(*a), "tan"@),
        ArithmeticNodeKind::Deg(a) => single_rpn(rpn(*a), "deg"@),
        ArithmeticNodeKind::Literal(l) => l@,
        ArithmeticNodeKind::Variable(v) => v@,
    }
}

fn pair_text(a: String, b: String, sym: &str) -> (r: String)
    ensures
        r@ == pair_rpn(a@, b@, sym@),
{
    let mut out = String::new();
    out.append("(");
    out.append(a.as_str());
    out.append(" ");
    out.append(b.as_str());
    out.append(" ");
    out.append(sym);
    out.append(")");
    assert(out@ =~= pair_rpn(a@, b@, sym@));
    out
}

fn single_text(a: String, sym: &str) -> (r: String)
    ensures
        r@ == single_rpn(a@, sym@),
{
    let mut out = String::new();
    out.append("(");
    out.append(a.as_str());
    out.append(" ");
    out.append(sym);
    out.append(")");
    assert(out@ =~= single_rpn(a@, sym@));
    out
}

fn op_of_kind(k: &LexemeKind) -> (r: Option<BinOp>)
    ensures
        r == op_of(*k),
{
    match k {
        LexemeKind::Plus => Some(BinOp::Add),
        LexemeKind::Minus => Some(BinOp::Sub),
        LexemeKind::Star => Some(BinOp::Mul),
        LexemeKind::Slash => Some(BinOp::Div),
        LexemeKind::Karat => Some(BinOp::Exp),
        _ => None,
    }
}

fn priority_of(op: BinOp) -> (r: u8)
    ensures
        r as int == priority(op),
{
    match op {
        BinOp::Exp => 2,
        BinOp::Mul | BinOp::Div => 1,
        BinOp::Add | BinOp::Sub => 0,
    }
}

fn scan_token(st: ScanState, tok: &Lexeme, idx: usize) -> (r: Result<ScanState, usize>)
    requires
        st.depth < usize::MAX,
        st.count < usize::MAX,
    ensures
        r == scan_step(st, *tok, idx),
{
    let is_open = matches!(tok.kind, LexemeKind::OpenParen);
    let is_close = matches!(tok.kind, LexemeKind::CloseParen);
    let count = st.count + 1;
    if st.depth == 0 {
        match op_of_kind(&tok.kind) {
            Some(op) => {
                let replace = !st.prev_op && match st.best {
                    None => true,
                    Some((_, b)) => priority_of(op) <= priority_of(b),
                };
                let best = if replace { Some((idx, op)) } else { st.best };
                Ok(ScanState { prev_op: true, best, count, ..st })
            },
            None => if is_close {
                Err(idx)
            } else {
                let call_paren = st.count == 1 && st.first_word && is_open;
                let open_at = if is_open { idx } else { st.open_at };
                let stray = if st.stray.is_none() && st.count >= 1 && !call_paren { Some(idx) } else { st.stray };
                let depth: usize = if is_open { 1 } else { 0 };
                Ok(ScanState { depth, prev_op: false, count, open_at, stray, ..st })
            },
        }
    } else if is_open {
        Ok(ScanState { depth: st.depth + 1, count, ..st })
    } else if is_close {
        Ok(ScanState { depth: st.depth - 1, count, ..st })
    } else {
        Ok(ScanState { count, ..st })
    }
}

pub(crate) fn span_of(t: &[Lexeme], lo: usize, hi: usize) -> (r: Span)
    requires
        lo < hi <= t@.len(),
    ensures
        r == window_span(t@, lo as int, hi as int),
{
    t[lo].span.up_to(&t[hi - 1].span)
}

/// The argument ranges of the tokens `lo..hi`, split at commas outside parentheses.
fn split_args(t: &[Lexeme], lo: usize, hi: usize) -> (r: Vec<(usize, usize)>)
    requires
        lo <= hi <= t@.len(),
    ensures
        r@ == arg_pieces(t@, lo as int, hi as int, 0, 0, lo as int),
        forall|k: int| 0 <= k < r@.len() ==> lo <= (#[trigger] r@[k]).0 <= r@[k].1 <= hi,
{
    let mut acc: Vec<(usize, usize)> = Vec::new();
    let mut opens: usize = 0;
    let mut closes: usize = 0;
    let mut start = lo;
    let mut i = lo;
    while i < hi
        invariant
            lo <= start <= i <= hi <= t@.len(),
            opens <= i - lo,
            closes <= i - lo,
            acc@ + arg_pieces(t@, i as int, hi as int, opens as int, closes as int, start as int)
                == arg_pieces(t@, lo as int, hi as int, 0, 0, lo as int),
            forall|k: int| 0 <= k < acc@.len() ==> lo <= (#[trigger] acc@[k]).0 <= acc@[k].1 <= start,
        decreases hi - i,
    {
        if matches!(t[i].kind, LexemeKind::OpenParen) {
            opens = opens + 1;
        } else if matches!(t[i].kind, LexemeKind::CloseParen) {
            closes = closes + 1;
        } else if matches!(t[i].kind, LexemeKind::Comma) && opens == closes {
            let ghost before = acc@;
            acc.push((start, i));
            assert(before + (seq![(start, i)] + arg_pieces(t@, i + 1, hi as int, opens as int, closes as int, i + 1))
                =~= acc@ + arg_pieces(t@, i + 1, hi as int, opens as int, closes as int, i + 1));
            start = i + 1;
        }
        i = i + 1;
    }
    if start < hi {
        acc.push((start, hi));
    } else {
        assert(acc@ + Seq::<(usize, usize)>::empty() =~= acc@);
    }
    acc
}

pub(crate) fn parse_window_exec(t: &[Lexeme], lo: usize, hi: usize) -> (r: Result<ArithmeticNode, ParserError>)
    requires
        lo < hi <= t@.len(),
    ensures
        r == parse_window(t@, lo as int, hi as int),
    decreases hi - lo,
{
    let span = span_of(t, lo, hi);
    if hi - lo == 1 {
        return match &t[lo].kind {
            LexemeKind::Number(v) => Ok(ArithmeticNode { span, kind: ArithmeticNodeKind::Literal(v.clone()) }),
            LexemeKind::Word(w) => Ok(ArithmeticNode { span, kind: ArithmeticNodeKind::Variable(w.clone()) }),
            _ => Err(ParserError::UnexpectedToken(t[lo].duplicate())),
        };
    }
    let first_word = matches!(t[lo].kind, LexemeKind::Word(_));
    let mut st = ScanState { depth: 0, prev_op: false, best: None, count: 0, first_word, open_at: 0, stray: None };
    let mut i = lo;
    while i < hi
        invariant
            lo <= i <= hi <= t@.len(),
            st.depth <= i - lo,
            st.count == i - lo,
            st.best matches Some((j, _)) ==> lo <= j < i,
            st.depth > 0 ==> lo <= st.open_at < i,
            st.stray matches Some(j) ==> lo <= j < i,
            split_scan(t@, lo as int, i as int) == Ok::<ScanState, usize>(st),
        decreases hi - i,
    {
        match scan_token(st, &t[i], i) {
            Ok(next) => {
                st = next;
            },
            Err(j) => {
                proof {
                    lemma_scan_error_sticks(t@, lo as int, i + 1, hi as int);
                }
                return Err(ParserError::UnexpectedToken(t[j].duplicate()));
            },
        }
        i = i + 1;
    }
    match st.best {
        Some((i, op)) => {
            if i == lo {
                match op {
                    BinOp::Add => parse_window_exec(t, lo + 1, hi),
                    BinOp::Sub => match parse_window_exec(t, lo + 1, hi) {
                        Ok(a) => Ok(ArithmeticNode { span, kind: ArithmeticNodeKind::Neg(Box::new(a)) }),
                        Err(e) => Err(e),
                    },
                    _ => Err(ParserError::InvalidUnaryOperator(op)),
                }
            } else if lo < i && i < hi - 1 {
                let a = match parse_window_exec(t, lo, i) {
                    Ok(a) => a,
                    Err(e) => {
                        return Err(e);
                    },
                };
                let b = match parse_window_exec(t, i + 1, hi) {
                    Ok(b) => b,
                    Err(e) => {
                        return Err(e);
                    },
                };
                let (a, b) = (Box::new(a), Box::new(b));
                let kind = match op {
                    BinOp::Add => ArithmeticNodeKind::Add(a, b),
                    BinOp::Sub => ArithmeticNodeKind::Sub(a, b),
                    BinOp::Mul => ArithmeticNodeKind::Mul(a, b),
                    BinOp::Div => ArithmeticNodeKind::Div(a, b),
                    BinOp::Exp => ArithmeticNodeKind::Pow(a, b),
                };
                Ok(ArithmeticNode { span, kind })
            } else {
                Err(ParserError::UnexpectedToken(t[i].duplicate()))
            }
        },
        None => {
            if matches!(t[lo].kind, LexemeKind::OpenParen) && matches!(t[hi - 1].kind, LexemeKind::CloseParen) {
                if hi - lo > 2 {
                    parse_window_exec(t, lo + 1, hi - 1)
                } else {
                    Err(ParserError::UnexpectedToken(t[hi - 1].duplicate()))
                }
            } else {
                if let LexemeKind::Word(name) = &t[lo].kind {
                    if hi - lo >= 3 && matches!(t[lo + 1].kind, LexemeKind::OpenParen) && matches!(t[hi - 1].kind, LexemeKind::CloseParen) {
                        return parse_call(t, lo, hi, name, span);
                    }
                }
                let k = if st.depth > 0 {
                    st.open_at
                } else if !matches!(t[lo].kind, LexemeKind::Number(_) | LexemeKind::Word(_) | LexemeKind::OpenParen) {
                    lo
                } else {
                    match st.stray {
                        Some(j) => j,
                        None => hi - 1,
                    }
                };
                Err(ParserError::UnexpectedToken(t[k].duplicate()))
            }
        },
    }
}

/// The call `name ( args )` that the tokens `lo..hi` form.
fn parse_call(t: &[Lexeme], lo: usize, hi: usize, name: &String, span: Span) -> (r: Result<ArithmeticNode, ParserError>)
    requires
        lo + 3 <= hi <= t@.len(),
        t@[lo as int].kind == LexemeKind::Word(*name),
        span == window_span(t@, lo as int, hi as int),
    ensures
        ({
            let pieces = arg_pieces(t@, lo + 2, hi - 1, 0, 0, lo + 2);
            r == match parse_args(t@, lo + 2, hi - 1, pieces, 0) {
                Err(e) => Err(e),
                Ok(args) => match arity(name@) {
                    None => Err(ParserError::UnrecognizedFunction(*name, t@[lo as int].span)),
                    Some(n) => if args.len() == n {
                        Ok(call_node(name@, args, span))
                    } else {
                        Err(ParserError::InvalidArgumentCount { expected: n, got: args.len() as usize })
                    },
                },
            }
        }),
    decreases hi - lo, 0int,
{
    let rlo = lo + 2;
    let rhi = hi - 1;
    let pieces = split_args(t, rlo, rhi);
    let ghost ps = pieces@;
    let mut args: Vec<ArithmeticNode> = Vec::new();
    let mut k: usize = 0;
    proof {
        match parse_args(t@, rlo as int, rhi as int, ps, 0) {
            Ok(rest) => {
                assert(args@ + rest =~= rest);
            },
            Err(e) => {},
        }
    }
    while k < pieces.len()
        invariant
            k <= pieces@.len(),
            pieces@ == ps,
            ps == arg_pieces(t@, lo + 2, hi - 1, 0, 0, lo + 2),
            span == window_span(t@, lo as int, hi as int),
            rlo == lo + 2,
            rhi == hi - 1,
            lo + 3 <= hi <= t@.len(),
            forall|j: int| 0 <= j < ps.len() ==> rlo <= (#[trigger] ps[j]).0 <= ps[j].1 <= rhi,
            parse_args(t@, rlo as int, rhi as int, ps, 0) == (match parse_args(t@, rlo as int, rhi as int, ps, k as int) {
                Ok(rest) => Ok(args@ + rest),
                Err(e) => Err(e),
            }),
        decreases pieces@.len() - k,
    {
        let (a, b) = pieces[k];
        if a >= b {
            return Err(ParserError::UnexpectedToken(t[b].duplicate()));
        }
        match parse_window_exec(t, a, b) {
            Ok(n) => {
                let ghost before = args@;
                args.push(n);
                proof {
                    match parse_args(t@, rlo as int, rhi as int, ps, k + 1) {
                        Ok(rest) => {
                            assert(before + (seq![n] + rest) =~= args@ + rest);
                        },
                        Err(e) => {},
                    }
                }
            },
            Err(e) => {
                return Err(e);
            },
        }
        k = k + 1;
    }
    assert(args@ + Seq::<ArithmeticNode>::empty() =~= args@);
    let unary = same_str(name.as_str(), "sin") || same_str(name.as_str(), "cos") || same_str(name.as_str(), "tan") || same_str(name.as_str(), "deg");
    let binary = same_str(name.as_str(), "log") || same_str(name.as_str(), "nrt");
    if !unary && !binary {
        return Err(ParserError::UnrecognizedFunction(name.clone(), t[lo].span));
    }
    let expected: usize = if unary { 1 } else { 2 };
    if args.len() != expected {
        return Err(ParserError::InvalidArgumentCount { expected, got: args.len() });
    }
    if unary {
        let x = Box::new(args.pop().unwrap());
        let kind = if same_str(name.as_str(), "sin") {
            ArithmeticNodeKind::Sin(x)
        } else if same_str(name.as_str(), "cos") {
            ArithmeticNodeKind::Cos(x)
        } else if same_str(name.as_str(), "tan") {
            ArithmeticNodeKind::Tan(x)
        } else {
            ArithmeticNodeKind::Deg(x)
        };
        Ok(ArithmeticNode { span, kind })
    } else {
        let y = Box::new(args.pop().unwrap());
        let x = Box::new(args.pop().unwrap());
        let kind = if same_str(name.as_str(), "log") {
            ArithmeticNodeKind::Log(x, y)
        } else {
            ArithmeticNodeKind::Root(x, y)
        };
        Ok(ArithmeticNode { span, kind })
    }
}

impl ArithmeticNode {
    pub fn new(kind: ArithmeticNodeKind, span: Span) -> (r: ArithmeticNode)
        ensures
            r == node(kind, span),
    {
        ArithmeticNode { span, kind }
    }

    /// The expression that a non-empty token list forms: the token list is
    /// split at its loosest operator outside parentheses, the rightmost of
    /// equals, and both sides are parsed in turn.
    pub fn parse(expr: &[Lexeme]) -> (r: Result<ArithmeticNode, ParserError>)
        requires
            expr@.len() > 0,
        ensures
            r == parse_tokens(expr@),
    {
        parse_window_exec(expr, 0, expr.len())
    }

    /// The tree as fully parenthesised postfix text, e.g. `(2 (3 4 *) +)`.
    pub fn into_rpn(&self) -> (r: String)
        ensures
            r@ == rpn(*self),
        decreases self,
    {
        match &self.kind {
            ArithmeticNodeKind::Add(a, b) => pair_text(a.into_rpn(), b.into_rpn(), "+"),
            ArithmeticNodeKind::Sub(a, b) => pair_text(a.into_rpn(), b.into_rpn(), "-"),
            ArithmeticNodeKind::Mul(a, b) => pair_text(a.into_rpn(), b.into_rpn(), "*"),
            ArithmeticNodeKind::Div(a, b) => pair_text(a.into_rpn(), b.into_rpn(), "/"),
            ArithmeticNodeKind::Pow(a, b) => pair_text(a.into_rpn(), b.into_rpn(), "^"),
            ArithmeticNodeKind::Root(a, b) => pair_text(a.into_rpn(), b.into_rpn(), "nrt"),
            ArithmeticNodeKind::Log(a, b) => pair_text(a.into_rpn(), b.into_rpn(), "log"),
            ArithmeticNodeKind::Neg(a) => single_text(a.into_rpn(), "-"),
            ArithmeticNodeKind::Sin(a) => single_text(a.into_rpn(), "sin"),
            ArithmeticNodeKind::Cos(a) => single_text(a.into_rpn(), "cos"),
            ArithmeticNodeKind::Tan(a) => single_text(a.into_rpn(), "tan"),
            ArithmeticNodeKind::Deg(a) => single_text(a.into_rpn(), "deg"),
            ArithmeticNodeKind::Literal(l) => l.clone(),
            ArithmeticNodeKind::Variable(v) => v.clone(),
        }
    }
}

} // verus!
