use vstd::prelude::*;
use vstd::string::*;
use crate::expression::{ArithmeticNode, ArithmeticNodeKind, ParserError, node, parse_tokens, window_span};
use crate::lexer::{same_str, KindView, LexError, Lexeme, TokenView, digits_end, is_digit, is_space, lemma_ascii_offsets, mk_span, scan, token_end, skip_spaces, symbol_kind, tokenize, tokens_from, views};
use crate::lexer::{Span, underline_text};
use crate::statement::Statement;

verus! {

/// The bit pattern of the double nearest to pi.
pub const PI_BITS: u64 = 0x4009_21FB_5444_2D18;

/// The bit pattern of the double nearest to e.
pub const E_BITS: u64 = 0x4005_BF0A_8B14_5769;

/// The bit pattern of positive infinity.
pub const INF_BITS: u64 = 0x7FF0_0000_0000_0000;

/// The sign bit of a double.
pub const SIGN_BIT: u64 = 0x8000_0000_0000_0000;

/// Every bit of a double but its sign.
pub const MAGNITUDE: u64 = 0x7FFF_FFFF_FFFF_FFFF;

/// Whether a double, given by its bits, is zero of either sign.
pub open spec fn is_zero(x: u64) -> bool {
    x & MAGNITUDE == 0
}

/// Whether a double, given by its bits, is infinite of either sign.
pub open spec fn is_infinite(x: u64) -> bool {
    x & MAGNITUDE == INF_BITS
}

/// The negation of a double, given by its bits: its sign flipped.
pub open spec fn negated(x: u64) -> u64 {
    x ^ SIGN_BIT
}

/// A floating-point computation that the evaluator hands to its caller.
/// Values are the bit patterns of IEEE-754 doubles.
#[derive(Debug)]
pub enum Operation {
    /// The double that a numeral denotes.
    Literal(String),
    Add(u64, u64),
    Sub(u64, u64),
    Mul(u64, u64),
    /// Called only with a divisor that is not zero, and not with two infinities.
    Div(u64, u64),
    Pow(u64, u64),
    /// `Root(degree, radicand)`: the radicand to the power of one over the degree.
    Root(u64, u64),
    /// `Log(base, value)`: called only with a value that is not zero.
    Log(u64, u64),
    Sin(u64),
    Cos(u64),
    Tan(u64),
    /// Degrees to radians.
    Deg(u64),
}

#[derive(Debug)]
pub enum ArithmeticError {
    DivideByZero(Span),
    InfinityDivision(Span),
    LogZero(Span),
    UndefinedVariable(String, Span),
}

pub open spec fn error_span(e: ArithmeticError) -> Span {
    match e {
        ArithmeticError::DivideByZero(s) => s,
        ArithmeticError::InfinityDivision(s) => s,
        ArithmeticError::LogZero(s) => s,
        ArithmeticError::UndefinedVariable(_, s) => s,
    }
}

pub open spec fn error_message(e: ArithmeticError) -> Seq<char> {
    match e {
        ArithmeticError::DivideByZero(_) => "Division by Zero"@,
        ArithmeticError::InfinityDivision(_) => "Undefined Infinite Division"@,
        ArithmeticError::LogZero(_) => "Logarithm of Zero"@,
        ArithmeticError::UndefinedVariable(name, _) => "Undefined variable: \""@ + name@ + "\""@,
    }
}

impl ArithmeticError {
    pub fn span(&self) -> (r: &Span)
        ensures
            *r == error_span(*self),
    {
        match self {
            ArithmeticError::DivideByZero(span)
            | ArithmeticError::InfinityDivision(span)
            | ArithmeticError::LogZero(span)
            | ArithmeticError::UndefinedVariable(_, span) => span,
        }
    }

    /// The source line with the failing span underlined and the message after it.
    pub fn contextualize(&self, source: &str) -> (r: String)
        requires
            error_span(*self).begin <= error_span(*self).end,
        ensures
            r@ == underline_text(error_span(*self), source@, Some(error_message(*self))),
    {
        let message = self.message();
        self.span().underline(source, Some(message.as_str()))
    }

    pub fn message(&self) -> (r: String)
        ensures
            r@ == error_message(*self),
    {
        match self {
            ArithmeticError::DivideByZero(_) => "Division by Zero".to_owned(),
            ArithmeticError::InfinityDivision(_) => "Undefined Infinite Division".to_owned(),
            ArithmeticError::LogZero(_) => "Logarithm of Zero".to_owned(),
            ArithmeticError::UndefinedVariable(name, _) => {
                let mut out = "Undefined variable: \"".to_owned();
                out.append(name.as_str());
                out.append("\"");
                out
            },
        }
    }
}

/// The value of a tree in an environment, where `m` gives each floating-point
/// operation its result; or the error of the first subexpression, left to right,
/// that fails.
pub open spec fn eval_spec(
    n: ArithmeticNode,
    env: Map<Seq<char>, u64>,
    m: spec_fn(Operation) -> u64,
) -> Result<u64, ArithmeticError>
    decreases n,
{
    match n.kind {
        ArithmeticNodeKind::Literal(l) => Ok(m(Operation::Literal(l))),
        ArithmeticNodeKind::Variable(v) => if env.contains_key(v@) {
            Ok(env[v@])
        } else {
            Err(ArithmeticError::UndefinedVariable(v, n.span))
        },
        ArithmeticNodeKind::Neg(a) => match eval_spec(*a, env, m) {
            Ok(x) => Ok(negated(x)),
            Err(e) => Err(e),
        },
        ArithmeticNodeKind::Sin(a) => match eval_spec(*a, env, m) {
            Ok(x) => Ok(m(Operation::Sin(x))),
            Err(e) => Err(e),
        },
        ArithmeticNodeKind::Cos(a) => match eval_spec(*a, env, m) {
            Ok(x) => Ok(m(Operation::Cos(x))),
            Err(e) => Err(e),
        },
        ArithmeticNodeKind::Tan(a) => match eval_spec(*a, env, m) {
            Ok(x) => Ok(m(Operation::Tan(x))),
            Err(e) => Err(e),
        },
        ArithmeticNodeKind::Deg(a) => match eval_spec(*a, env, m) {
            Ok(x) => Ok(m(Operation::Deg(x))),
            Err(e) => Err(e),
        },
        ArithmeticNodeKind::Add(a, b) => match (eval_spec(*a, env, m), eval_spec(*b, env, m)) {
            (Err(e), _) => Err(e),
            (Ok(_), Err(e)) => Err(e),
            (Ok(x), Ok(y)) => Ok(m(Operation::Add(x, y))),
        },
        ArithmeticNodeKind::Sub(a, b) => match (eval_spec(*a, env, m), eval_spec(*b, env, m)) {
            (Err(e), _) => Err(e),
            (Ok(_), Err(e)) => Err(e),
            (Ok(x), Ok(y)) => Ok(m(Operation::Sub(x, y))),
        },
        ArithmeticNodeKind::Mul(a, b) => match (eval_spec(*a, env, m), eval_spec(*b, env, m)) {
            (Err(e), _) => Err(e),
            (Ok(_), Err(e)) => Err(e),
            (Ok(x), Ok(y)) => Ok(m(Operation::Mul(x, y))),
        },
        ArithmeticNodeKind::Pow(a, b) => match (eval_spec(*a, env, m), eval_spec(*b, env, m)) {
            (Err(e), _) => Err(e),
            (Ok(_), Err(e)) => Err(e),
            (Ok(x), Ok(y)) => Ok(m(Operation::Pow(x, y))),
        },
        ArithmeticNodeKind::Root(a, b) => match (eval_spec(*a, env, m), eval_spec(*b, env, m)) {
            (Err(e), _) => Err(e),
            (Ok(_), Err(e)) => Err(e),
            (Ok(x), Ok(y)) => Ok(m(Operation::Root(x, y))),
        },
        ArithmeticNodeKind::Div(a, b) => match (eval_spec(*a, env, m), eval_spec(*b, env, m)) {
            (Err(e), _) => Err(e),
            (Ok(_), Err(e)) => Err(e),
            (Ok(x), Ok(y)) => if is_zero(y) {
                Err(ArithmeticError::DivideByZero(n.span))
            } else if is_infinite(x) && is_infinite(y) {
                Err(ArithmeticError::InfinityDivision(n.span))
            } else {
                Ok(m(Operation::Div(x, y)))
            },
        },
        ArithmeticNodeKind::Log(a, b) => match (eval_spec(*a, env, m), eval_spec(*b, env, m)) {
            (Err(e), _) => Err(e),
            (Ok(_), Err(e)) => Err(e),
            (Ok(x), Ok(y)) => if is_zero(y) {
                Err(ArithmeticError::LogZero(n.span))
            } else {
                Ok(m(Operation::Log(x, y)))
            },
        },
    }
}

/// Whether `ops` computes `m`: every result it returns is the one `m` gives.
pub open spec fn computes<F: Fn(Operation) -> u64>(ops: F, m: spec_fn(Operation) -> u64) -> bool {
    forall|o: Operation, r: u64| #[trigger] ops.ensures((o,), r) ==> r == m(o)
}

/// The bindings of a list of pairs, later pairs overriding earlier ones.
pub open spec fn bindings(s: Seq<(String, u64)>) -> Map<Seq<char>, u64>
    decreases s.len(),
{
    if s.len() == 0 {
        Map::empty()
    } else {
        bindings(s.drop_last()).insert(s.last().0@, s.last().1)
    }
}

pub open spec fn names_unique(s: Seq<(String, u64)>) -> bool {
    forall|i: int, j: int| 0 <= i < j < s.len() ==> (#[trigger] s[i]).0@ != (#[trigger] s[j]).0@
}

proof fn lemma_bindings_lookup(s: Seq<(String, u64)>, name: Seq<char>)
    requires
        names_unique(s),
    ensures
        bindings(s).contains_key(name) <==> exists|i: int| 0 <= i < s.len() && (#[trigger] s[i]).0@ == name,
        forall|i: int| 0 <= i < s.len() && (#[trigger] s[i]).0@ == name ==> bindings(s)[name] == s[i].1,
    decreases s.len(),
{
    if s.len() > 0 {
        let p = s.drop_last();
        assert(names_unique(p)) by {
            assert forall|i: int, j: int| 0 <= i < j < p.len() implies (#[trigger] p[i]).0@ != (#[trigger] p[j]).0@ by {
                assert(p[i] == s[i] && p[j] == s[j]);
            }
        }
        lemma_bindings_lookup(p, name);
        if s.last().0@ == name {
            assert(s[s.len() - 1].0@ == name);
        } else {
            if bindings(s).contains_key(name) {
                let i = choose|i: int| 0 <= i < p.len() && (#[trigger] p[i]).0@ == name;
                assert(s[i] == p[i]);
            }
            if exists|i: int| 0 <= i < s.len() && (#[trigger] s[i]).0@ == name {
                let i = choose|i: int| 0 <= i < s.len() && (#[trigger] s[i]).0@ == name;
                assert(p[i] == s[i]);
            }
        }
        assert forall|i: int| 0 <= i < s.len() && (#[trigger] s[i]).0@ == name implies bindings(s)[name] == s[i].1 by {
            if i < s.len() - 1 {
                assert(s[i] == p[i]);
                assert(s[i].0@ != s[s.len() - 1].0@);
            }
        }
    }
}

proof fn lemma_bindings_update(s: Seq<(String, u64)>, i: int, name: String, val: u64)
    requires
        names_unique(s),
        0 <= i < s.len(),
        s[i].0@ == name@,
    ensures
        bindings(s.update(i, (name, val))) == bindings(s).insert(name@, val),
        names_unique(s.update(i, (name, val))),
    decreases s.len(),
{
    let u = s.update(i, (name, val));
    let p = s.drop_last();
    if i == s.len() - 1 {
        assert(u.drop_last() =~= p);
        assert forall|a: int, b: int| 0 <= a < b < u.len() implies (#[trigger] u[a]).0@ != (#[trigger] u[b]).0@ by {
            if b == i {
                assert(s[a].0@ != s[b].0@);
            }
        }
        assert(bindings(u) =~= bindings(s).insert(name@, val));
    } else {
        assert(names_unique(p));
        lemma_bindings_update(p, i, name, val);
        assert(u.drop_last() =~= p.update(i, (name, val)));
        assert(s.last().0@ != name@) by {
            assert(s[i].0@ != s[s.len() - 1].0@);
        }
        assert forall|a: int, b: int| 0 <= a < b < u.len() implies (#[trigger] u[a]).0@ != (#[trigger] u[b]).0@ by {
            if a == i {
                assert(s[a].0@ != s[b].0@);
            } else if b == i {
                assert(s[a].0@ != s[b].0@);
            } else {
                assert(s[a].0@ != s[b].0@);
            }
        }
        assert(bindings(u) =~= bindings(s).insert(name@, val));
    }
}

/// A session: the variables bound so far, each to the bits of a double.
pub struct Evaluator {
    variables: Vec<(String, u64)>,
}

/// The bindings that every session starts with.
pub open spec fn preset() -> Map<Seq<char>, u64> {
    map!["PI"@ => PI_BITS, "E"@ => E_BITS, "INF"@ => INF_BITS]
}

impl Evaluator {
    /// The bindings of the session.
    pub closed spec fn env(&self) -> Map<Seq<char>, u64> {
        bindings(self.variables@)
    }

    pub closed spec fn wf(&self) -> bool {
        names_unique(self.variables@)
    }

    /// A session with `PI`, `E` and `INF` bound; they can be overwritten.
    pub fn new() -> (r: Evaluator)
        ensures
            r.wf(),
            r.env() == preset(),
    {
        proof {
            reveal_strlit("PI");
            reveal_strlit("E");
            reveal_strlit("INF");
        }
        let mut vars: Vec<(String, u64)> = Vec::new();
        vars.push(("PI".to_owned(), PI_BITS));
        vars.push(("E".to_owned(), E_BITS));
        vars.push(("INF".to_owned(), INF_BITS));
        let r = Evaluator { variables: vars };
        assert(r.variables@[0].0@ == "PI"@ && r.variables@[1].0@ == "E"@ && r.variables@[2].0@ == "INF"@);
        assert("PI"@.len() == 2 && "E"@.len() == 1 && "INF"@.len() == 3);
        assert(r.variables@[0].0@ != r.variables@[1].0@);
        assert(r.variables@[0].0@ != r.variables@[2].0@);
        assert(r.variables@[1].0@ != r.variables@[2].0@);
        proof {
            reveal_with_fuel(bindings, 4);
        }
        assert(r.variables@.drop_last().drop_last().drop_last() =~= Seq::<(String, u64)>::empty());
        assert(r.variables@.drop_last().drop_last().last() == r.variables@[0]);
        assert(r.variables@.drop_last().last() == r.variables@[1]);
        assert(bindings(r.variables@) =~= preset());
        r
    }

    fn find(&self, name: &str) -> (r: Option<usize>)
        requires
            self.wf(),
        ensures
            r matches Some(i) ==> i < self.variables@.len() && self.variables@[i as int].0@ == name@,
            r is None ==> forall|i: int| 0 <= i < self.variables@.len() ==> (#[trigger] self.variables@[i]).0@ != name@,
    {
        let mut i: usize = 0;
        while i < self.variables.len()
            invariant
                i <= self.variables@.len(),
                forall|k: int| 0 <= k < i ==> (#[trigger] self.variables@[k]).0@ != name@,
            decreases self.variables@.len() - i,
        {
            if same_str(self.variables[i].0.as_str(), name) {
                return Some(i);
            }
            i = i + 1;
        }
        None
    }

    pub fn get_variable(&self, name: &str) -> (r: Option<u64>)
        requires
            self.wf(),
        ensures
            r == (if self.env().contains_key(name@) { Some(self.env()[name@]) } else { None }),
    {
        proof {
            lemma_bindings_lookup(self.variables@, name@);
        }
        match self.find(name) {
            Some(i) => Some(self.variables[i].1),
            None => None,
        }
    }

    pub fn set_variable(&mut self, name: String, val: u64)
        requires
            old(self).wf(),
        ensures
            final(self).wf(),
            final(self).env() == old(self).env().insert(name@, val),
    {
        match self.find(name.as_str()) {
            Some(i) => {
                proof {
                    lemma_bindings_update(self.variables@, i as int, name, val);
                }
                self.variables.set(i, (name, val));
            },
            None => {
                let ghost before = self.variables@;
                self.variables.push((name, val));
                assert(self.variables@.drop_last() =~= before);
                assert(names_unique(self.variables@)) by {
                    assert forall|a: int, b: int| 0 <= a < b < self.variables@.len() implies
                        (#[trigger] self.variables@[a]).0@ != (#[trigger] self.variables@[b]).0@ by {
                        if b == before.len() {
                            assert(before[a] == self.variables@[a]);
                        } else {
                            assert(before[a] == self.variables@[a] && before[b] == self.variables@[b]);
                        }
                    }
                }
            },
        }
    }
}


/// The expression that a statement evaluates.
pub open spec fn statement_expr(s: Statement) -> ArithmeticNode {
    match s {
        Statement::Expr(e) => e,
        Statement::Assignment { var_name: _, expr } => expr,
    }
}

/// The bindings after a statement whose expression came to `v`: an assignment
/// binds its name, whatever was bound to it before.
pub open spec fn after_statement(s: Statement, env: Map<Seq<char>, u64>, v: u64) -> Map<Seq<char>, u64> {
    match s {
        Statement::Expr(_) => env,
        Statement::Assignment { var_name, expr: _ } => env.insert(var_name@, v),
    }
}

fn apply<F: Fn(Operation) -> u64>(ops: &F, o: Operation) -> (r: u64)
    requires
        forall|o: Operation| ops.requires((o,)),
    ensures
        forall|m: spec_fn(Operation) -> u64| #[trigger] computes(*ops, m) ==> r == m(o),
{
    ops(o)
}

impl Evaluator {
    /// The value of an expression in this session. The floating-point work is
    /// done by `ops`; whenever `ops` computes some `m`, the result is the one
    /// `eval_spec` gives with it.
    pub fn eval_expression<F: Fn(Operation) -> u64>(&self, expr: &ArithmeticNode, ops: &F) -> (r: Result<u64, ArithmeticError>)
        requires
            self.wf(),
            forall|o: Operation| ops.requires((o,)),
        ensures
            forall|m: spec_fn(Operation) -> u64| #[trigger] computes(*ops, m) ==> r == eval_spec(*expr, self.env(), m),
        decreases expr,
    {
        match &expr.kind {
            ArithmeticNodeKind::Literal(l) => Ok(apply(ops, Operation::Literal(l.clone()))),
            ArithmeticNodeKind::Variable(v) => match self.get_variable(v.as_str()) {
                Some(x) => Ok(x),
                None => Err(ArithmeticError::UndefinedVariable(v.clone(), expr.span)),
            },
            ArithmeticNodeKind::Neg(a) => match self.eval_expression(a, ops) {
                Ok(x) => Ok(x ^ SIGN_BIT),
                Err(e) => Err(e),
            },
            ArithmeticNodeKind::Sin(a) => match self.eval_expression(a, ops) {
                Ok(x) => Ok(apply(ops, Operation::Sin(x))),
                Err(e) => Err(e),
            },
            ArithmeticNodeKind::Cos(a) => match self.eval_expression(a, ops) {
                Ok(x) => Ok(apply(ops, Operation::Cos(x))),
                Err(e) => Err(e),
            },
            ArithmeticNodeKind::Tan(a) => match self.eval_expression(a, ops) {
                Ok(x) => Ok(apply(ops, Operation::Tan(x))),
                Err(e) => Err(e),
            },
            ArithmeticNodeKind::Deg(a) => match self.eval_expression(a, ops) {
                Ok(x) => Ok(apply(ops, Operation::Deg(x))),
                Err(e) => Err(e),
            },
            ArithmeticNodeKind::Add(a, b) | ArithmeticNodeKind::Sub(a, b) | ArithmeticNodeKind::Mul(a, b)
            | ArithmeticNodeKind::Div(a, b) | ArithmeticNodeKind::Pow(a, b) | ArithmeticNodeKind::Root(a, b)
            | ArithmeticNodeKind::Log(a, b) => {
                let x = match self.eval_expression(a, ops) {
                    Ok(x) => x,
                    Err(e) => {
                        return Err(e);
                    },
                };
                let y = match self.eval_expression(b, ops) {
                    Ok(y) => y,
                    Err(e) => {
                        return Err(e);
                    },
                };
                match &expr.kind {
                    ArithmeticNodeKind::Add(..) => Ok(apply(ops, Operation::Add(x, y))),
                    ArithmeticNodeKind::Sub(..) => Ok(apply(ops, Operation::Sub(x, y))),
                    ArithmeticNodeKind::Mul(..) => Ok(apply(ops, Operation::Mul(x, y))),
                    ArithmeticNodeKind::Pow(..) => Ok(apply(ops, Operation::Pow(x, y))),
                    ArithmeticNodeKind::Root(..) => Ok(apply(ops, Operation::Root(x, y))),
                    ArithmeticNodeKind::Div(..) => {
                        if y & MAGNITUDE == 0 {
                            Err(ArithmeticError::DivideByZero(expr.span))
                        } else if x & MAGNITUDE == INF_BITS && y & MAGNITUDE == INF_BITS {
                            Err(ArithmeticError::InfinityDivision(expr.span))
                        } else {
                            Ok(apply(ops, Operation::Div(x, y)))
                        }
                    },
                    _ => {
                        if y & MAGNITUDE == 0 {
                            Err(ArithmeticError::LogZero(expr.span))
                        } else {
                            Ok(apply(ops, Operation::Log(x, y)))
                        }
                    },
                }
            },
        }
    }

    /// Evaluates a statement and returns its value; an assignment then binds
    /// the name to it. On an error the bindings stay as they were.
    pub fn eval_statement<F: Fn(Operation) -> u64>(&mut self, stmnt: &Statement, ops: &F) -> (r: Result<u64, ArithmeticError>)
        requires
            old(self).wf(),
            forall|o: Operation| ops.requires((o,)),
        ensures
            final(self).wf(),
            r is Err ==> final(self).env() == old(self).env(),
            r matches Ok(v) ==> final(self).env() == after_statement(*stmnt, old(self).env(), v),
            forall|m: spec_fn(Operation) -> u64| #[trigger] computes(*ops, m)
                ==> r == eval_spec(statement_expr(*stmnt), old(self).env(), m),
    {
        match stmnt {
            Statement::Assignment { var_name, expr } => {
                let val = match self.eval_expression(expr, ops) {
                    Ok(v) => v,
                    Err(e) => {
                        return Err(e);
                    },
                };
                self.set_variable(var_name.clone(), val);
                Ok(val)
            },
            Statement::Expr(e) => self.eval_expression(e, ops),
        }
    }
}


/// Digits with at most one decimal point, which has a digit on either side.
pub open spec fn is_numeral(s: Seq<char>) -> bool {
    s.len() > 0 && ((forall|i: int| 0 <= i < s.len() ==> is_digit(#[trigger] s[i])) || exists|d: int|
        0 < d < s.len() - 1 && s[d] == '.' && forall|i: int|
            0 <= i < s.len() && i != d ==> is_digit(#[trigger] s[i]))
}

proof fn lemma_digits_end(s: Seq<char>, i: int, j: int)
    requires
        0 <= i <= j <= s.len(),
        forall|k: int| i <= k < j ==> is_digit(#[trigger] s[k]),
        j == s.len() || !is_digit(s[j]),
    ensures
        digits_end(s, i) == j,
    decreases j - i,
{
    if i < j {
        lemma_digits_end(s, i + 1, j);
    }
}

/// A numeral alone on a line is one token, which parses to a literal of the
/// numeral's text over the whole line; that literal evaluates to the double the
/// numeral denotes, in any session.
pub proof fn lemma_numeral_is_literal(
    s: Seq<char>,
    toks: Seq<Lexeme>,
    env: Map<Seq<char>, u64>,
    m: spec_fn(Operation) -> u64,
)
    requires
        is_numeral(s),
        s.len() <= usize::MAX,
    ensures
        tokenize(s) == Ok::<Seq<TokenView>, LexError>(
            seq![TokenView { kind: KindView::Number(s), span: Span { begin: 0, end: s.len() as usize } }],
        ),
        tokenize(s) == Ok::<Seq<TokenView>, LexError>(views(toks)) ==> {
            let text = toks[0].kind->Number_0;
            &&& text@ == s
            &&& parse_tokens(toks) == Ok::<ArithmeticNode, ParserError>(
                node(ArithmeticNodeKind::Literal(text), Span { begin: 0, end: s.len() as usize }),
            )
            &&& eval_spec(node(ArithmeticNodeKind::Literal(text), Span { begin: 0, end: s.len() as usize }), env, m)
                == Ok::<u64, ArithmeticError>(m(Operation::Literal(text)))
        },
{
    let n = s.len() as int;
    assert(!is_space(s[0]) && symbol_kind(s[0]) is None) by {
        if forall|i: int| 0 <= i < s.len() ==> is_digit(#[trigger] s[i]) {
            assert(is_digit(s[0]));
        } else {
            let d = choose|d: int| 0 < d < s.len() - 1 && s[d] == '.' && forall|i: int|
                0 <= i < s.len() && i != d ==> is_digit(#[trigger] s[i]);
            assert(is_digit(s[0]));
        }
    }
    assert(skip_spaces(s, 0) == 0);
    if forall|i: int| 0 <= i < s.len() ==> is_digit(#[trigger] s[i]) {
        lemma_digits_end(s, 0, n);
    } else {
        let d = choose|d: int| 0 < d < s.len() - 1 && s[d] == '.' && forall|i: int|
            0 <= i < s.len() && i != d ==> is_digit(#[trigger] s[i]);
        lemma_digits_end(s, 0, d);
        assert(is_digit(s[d + 1]));
        lemma_digits_end(s, d + 1, n);
    }
    assert(s.subrange(0, n) =~= s);
    assert(skip_spaces(s, n) == n);
    assert(tokens_from(s, n as nat) == Ok::<Seq<TokenView>, LexError>(Seq::empty()));
    assert forall|k: int| 0 <= k < n implies (#[trigger] s[k] as u32) <= 0x7F by {
        if !(forall|i: int| 0 <= i < s.len() ==> is_digit(#[trigger] s[i])) {
            let d = choose|d: int| 0 < d < s.len() - 1 && s[d] == '.' && forall|i: int|
                0 <= i < s.len() && i != d ==> is_digit(#[trigger] s[i]);
            if k != d {
                assert(is_digit(s[k]));
            }
        } else {
            assert(is_digit(s[k]));
        }
    }
    lemma_ascii_offsets(s, 0, n);
    assert(token_end(s, 0) == n);
    let t = TokenView { kind: KindView::Number(s), span: Span { begin: 0, end: s.len() as usize } };
    assert(mk_span(s, 0, n) == t.span);
    assert(scan(s, 0) == Ok::<Option<TokenView>, LexError>(Some(t)));
    assert(seq![t] + Seq::<TokenView>::empty() =~= seq![t]);
    if tokenize(s) == Ok::<Seq<TokenView>, LexError>(views(toks)) {
        assert(views(toks).len() == 1);
        assert(toks.len() == 1);
        assert(views(toks)[0] == toks[0]@);
        assert(window_span(toks, 0, 1) == toks[0].span);
    }
}

} // verus!
