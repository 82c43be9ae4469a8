use vstd::prelude::*;
use vstd::string::*;
use crate::expression::{ArithmeticNode, ParserError as ArithmeticParserError, parse_window, parse_window_exec, rpn};
use crate::lexer::{Lexeme, LexemeKind};

verus! {

#[derive(Debug)]
pub enum Statement {
    Expr(ArithmeticNode),
    Assignment { var_name: String, expr: ArithmeticNode },
}

#[derive(Debug)]
pub enum ParserError {
    Arithmetic(ArithmeticParserError),
}

/// Whether the tokens begin with a word and `=`, which makes an assignment.
pub open spec fn is_assignment(t: Seq<Lexeme>) -> bool {
    t.len() >= 2 && t[0].kind is Word && t[1].kind is Equals
}

/// The statement of a token list: an assignment of what follows `=`, or else
/// a bare expression of all the tokens. An assignment with nothing after `=`
/// fails on the `=`.
pub open spec fn parse_statement(t: Seq<Lexeme>) -> Result<Statement, ParserError> {
    if is_assignment(t) && t.len() == 2 {
        Err(ParserError::Arithmetic(ArithmeticParserError::UnexpectedToken(t[1])))
    } else if is_assignment(t) {
        match parse_window(t, 2, t.len() as int) {
            Ok(e) => Ok(Statement::Assignment { var_name: t[0].kind->Word_0, expr: e }),
            Err(e) => Err(ParserError::Arithmetic(e)),
        }
    } else {
        match parse_window(t, 0, t.len() as int) {
            Ok(e) => Ok(Statement::Expr(e)),
            Err(e) => Err(ParserError::Arithmetic(e)),
        }
    }
}

/// The text of a statement: its expression in postfix, after `name <- ` for an
/// assignment.
pub open spec fn statement_text(s: Statement) -> Seq<char> {
    match s {
        Statement::Expr(e) => rpn(e),
        Statement::Assignment { var_name, expr } => var_name@ + " <- "@ + rpn(expr),
    }
}

impl Statement {
    pub fn into_str(&self) -> (r: String)
        ensures
            r@ == statement_text(*self),
    {
        match self {
            Statement::Expr(e) => e.into_rpn(),
            Statement::Assignment { var_name, expr } => {
                let mut out = var_name.clone();
                out.append(" <- ");
                let text = expr.into_rpn();
                out.append(text.as_str());
                assert(out@ =~= statement_text(*self));
                out
            },
        }
    }

    pub fn parse(stmnt: &[Lexeme]) -> (r: Result<Statement, ParserError>)
        requires
            stmnt@.len() > 0,
        ensures
            r == parse_statement(stmnt@),
    {
        let n = stmnt.len();
        if n >= 2 && matches!(stmnt[1].kind, LexemeKind::Equals) {
            if let LexemeKind::Word(var_name) = &stmnt[0].kind {
                let expression = if n > 2 {
                    parse_window_exec(stmnt, 2, n)
                } else {
                    Err(ArithmeticParserError::UnexpectedToken(stmnt[1].duplicate()))
                };
                return match expression {
                    Ok(e) => Ok(Statement::Assignment { var_name: var_name.clone(), expr: e }),
                    Err(e) => Err(ParserError::Arithmetic(e)),
                };
            }
        }
        match parse_window_exec(stmnt, 0, n) {
            Ok(e) => Ok(Statement::Expr(e)),
            Err(e) => Err(ParserError::Arithmetic(e)),
        }
    }
}

} // verus!
