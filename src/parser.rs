use vstd::prelude::*;

use crate::expr::{Expr, Term, views};
use crate::lexer::{Lexer, Token, TokenKind, lex, token_views, white, is_white};

verus! {

/// Why a text or a token sequence does not parse.
#[derive(Debug, Clone, Copy, PartialEq, Eq, Structural)]
pub enum ParseError {
    /// Nothing but blank tokens.
    Empty,
    /// A parenthesis, comma or equals sign where a symbol was expected, or
    /// something other than a comma or a closing parenthesis after an argument.
    UnexpectedToken,
    /// The tokens ran out inside an argument list.
    UnexpectedEnd,
}

/// The parse of one expression at token `i`, with the position after it.
/// A symbol followed by `(` starts a call; its arguments are separated by
/// commas and the closing `)` is required and consumed. `name()` is a call
/// with no arguments. A symbol not followed by `(` stands alone.
pub open spec fn parse_at(ts: Seq<(TokenKind, Seq<char>)>, i: int) -> Result<(Term, int), ParseError>
    decreases ts.len() - i, 0int,
{
    if i < 0 || ts.len() <= i {
        Err(ParseError::UnexpectedEnd)
    } else if ts[i].0 != TokenKind::Symbol {
        Err(ParseError::UnexpectedToken)
    } else if i + 1 < ts.len() && ts[i + 1].0 == TokenKind::OpenParen {
        if i + 2 < ts.len() && ts[i + 2].0 == TokenKind::CloseParen {
            Ok((Term::App(ts[i].1, seq![]), i + 3))
        } else {
            parse_args(ts, ts[i].1, i + 2, seq![])
        }
    } else {
        Ok((Term::Sym(ts[i].1), i + 1))
    }
}

/// The rest of the call `name(acc..., ...)` whose next argument starts at
/// token `j`.
pub open spec fn parse_args(ts: Seq<(TokenKind, Seq<char>)>, name: Seq<char>, j: int, acc: Seq<Term>) -> Result<
    (Term, int),
    ParseError,
>
    decreases ts.len() - j, 1int,
{
    if j < 0 || ts.len() <= j {
        Err(ParseError::UnexpectedEnd)
    } else {
        match parse_at(ts, j) {
            Err(e) => Err(e),
            Ok((t, k)) => {
                // a parse always moves forward; the first test never holds
                if k <= j || ts.len() <= k {
                    Err(ParseError::UnexpectedEnd)
                } else if ts[k].0 == TokenKind::Comma {
                    parse_args(ts, name, k + 1, acc.push(t))
                } else if ts[k].0 == TokenKind::CloseParen {
                    Ok((Term::App(name, acc.push(t)), k + 1))
                } else {
                    Err(ParseError::UnexpectedToken)
                }
            },
        }
    }
}

/// Whether a text is empty or all white space.
pub open spec fn blank(s: Seq<char>) -> bool {
    forall|k: int| 0 <= k < s.len() ==> white(#[trigger] s[k])
}

/// The first token at or after `i` whose text is not blank.
pub open spec fn skip_blank(ts: Seq<(TokenKind, Seq<char>)>, i: int) -> int
    decreases ts.len() - i,
{
    if 0 <= i < ts.len() && blank(ts[i].1) {
        skip_blank(ts, i + 1)
    } else {
        i
    }
}

/// The first expression at or after token `i`, blank tokens skipped;
/// tokens after it are left.
pub open spec fn parse_from(ts: Seq<(TokenKind, Seq<char>)>, i: int) -> Result<(Term, int), ParseError> {
    if ts.len() <= skip_blank(ts, i) {
        Err(ParseError::Empty)
    } else {
        parse_at(ts, skip_blank(ts, i))
    }
}

/// The first expression of a token sequence.
pub open spec fn parse_tokens(ts: Seq<(TokenKind, Seq<char>)>) -> Result<Term, ParseError> {
    match parse_from(ts, 0) {
        Ok((t, _)) => Ok(t),
        Err(e) => Err(e),
    }
}

/// The term and position of an exec parse result.
pub open spec fn located(r: Result<(Expr, usize), ParseError>) -> Result<(Term, int), ParseError> {
    match r {
        Ok((e, k)) => Ok((e@, k as int)),
        Err(x) => Err(x),
    }
}

/// The term of an exec parse result.
pub open spec fn parsed(r: Result<Expr, ParseError>) -> Result<Term, ParseError> {
    match r {
        Ok(e) => Ok(e@),
        Err(x) => Err(x),
    }
}

fn is_blank(s: &String) -> (r: bool)
    ensures
        r == blank(s@),
{
    let n = s.as_str().unicode_len();
    let mut i: usize = 0;
    while i < n
        invariant
            n == s@.len(),
            i <= n,
            forall|k: int| 0 <= k < i ==> white(#[trigger] s@[k]),
        decreases n - i,
    {
        if !is_white(s.as_str().get_char(i)) {
            return false;
        }
        i = i + 1;
    }
    true
}

impl Expr {
    /// Parses the argument list of the call `name(`, whose first argument
    /// starts at token `pos`; returns the call and the position after `)`.
    pub fn parse_function_args(tokens: &Vec<Token>, pos: usize, name: String) -> (r: Result<(Expr, usize), ParseError>)
        ensures
            located(r) == parse_args(token_views(tokens@), name@, pos as int, seq![]),
            r matches Ok((_, k)) ==> pos < k <= tokens@.len(),
        decreases tokens@.len() - pos, 1int,
    {
        let ghost ts = token_views(tokens@);
        let mut args: Vec<Expr> = Vec::new();
        assert(views(args@) =~= seq![]);
        let mut j: usize = pos;
        loop
            invariant
                ts == token_views(tokens@),
                pos <= j,
                parse_args(ts, name@, j as int, views(args@)) == parse_args(ts, name@, pos as int, seq![]),
            decreases tokens@.len() - j,
        {
            if j >= tokens.len() {
                return Err(ParseError::UnexpectedEnd);
            }
            let (arg, k) = match Self::parse_token(tokens, j) {
                Ok(found) => found,
                Err(e) => {
                    return Err(e);
                },
            };
            let ghost t = arg@;
            let ghost prev = views(args@);
            args.push(arg);
            assert(views(args@) =~= prev.push(t));
            if k >= tokens.len() {
                return Err(ParseError::UnexpectedEnd);
            }
            if tokens[k].kind == TokenKind::Comma {
                j = k + 1;
            } else if tokens[k].kind == TokenKind::CloseParen {
                return Ok((Expr::function(name, args), k + 1));
            } else {
                return Err(ParseError::UnexpectedToken);
            }
        }
    }

    /// Parses one expression whose first token is at `pos`; returns it and
    /// the position after it.
    fn parse_token(tokens: &Vec<Token>, pos: usize) -> (r: Result<(Expr, usize), ParseError>)
        requires
            pos < tokens@.len(),
        ensures
            located(r) == parse_at(token_views(tokens@), pos as int),
            r matches Ok((_, k)) ==> pos < k <= tokens@.len(),
        decreases tokens@.len() - pos, 0int,
    {
        let ghost ts = token_views(tokens@);
        let token = &tokens[pos];
        if token.kind != TokenKind::Symbol {
            return Err(ParseError::UnexpectedToken);
        }
        if tokens.len() - pos > 1 && tokens[pos + 1].kind == TokenKind::OpenParen {
            if tokens.len() - pos > 2 && tokens[pos + 2].kind == TokenKind::CloseParen {
                let none: Vec<Expr> = Vec::new();
                assert(views(none@) =~= seq![]);
                let r = Expr::function(token.text.clone(), none);
                return Ok((r, pos + 3));
            }
            return Self::parse_function_args(tokens, pos + 2, token.text.clone());
        }
        Ok((Expr::symbol(token.text.clone()), pos + 1))
    }

    /// Parses the first expression at or after token `pos`, skipping blank
    /// tokens; returns it and the position after it.
    pub fn parse_peekable(tokens: &Vec<Token>, pos: usize) -> (r: Result<(Expr, usize), ParseError>)
        ensures
            located(r) == parse_from(token_views(tokens@), pos as int),
    {
        let ghost ts = token_views(tokens@);
        let mut i: usize = pos;
        while i < tokens.len() && is_blank(&tokens[i].text)
            invariant
                ts == token_views(tokens@),
                skip_blank(ts, i as int) == skip_blank(ts, pos as int),
            decreases tokens@.len() - i,
        {
            i = i + 1;
        }
        if i >= tokens.len() {
            return Err(ParseError::Empty);
        }
        Self::parse_token(tokens, i)
    }

    /// Parses the first expression of a token sequence; tokens after it
    /// are ignored.
    pub fn parse(tokens: &Vec<Token>) -> (r: Result<Expr, ParseError>)
        ensures
            parsed(r) == parse_tokens(token_views(tokens@)),
    {
        match Self::parse_peekable(tokens, 0) {
            Ok((e, _)) => Ok(e),
            Err(x) => Err(x),
        }
    }

    /// Lexes and parses the first expression of a text.
    pub fn parse_text(source: &str) -> (r: Result<Expr, ParseError>)
        ensures
            parsed(r) == parse_tokens(lex(source@, 0)),
    {
        let tokens = Lexer::tokenize(source);
        Self::parse(&tokens)
    }
}

} // verus!
