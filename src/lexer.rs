use vstd::prelude::*;

verus! {

/// What a token is.
#[derive(Debug, Clone, Copy, PartialEq, Eq, Structural)]
pub enum TokenKind {
    Symbol,
    OpenParen,
    CloseParen,
    Comma,
    Equal,
}

/// A classified lexeme with its text.
#[derive(Debug)]
pub struct Token {
    pub kind: TokenKind,
    pub text: String,
}

/// Whether a character is alphabetic or numeric, as Unicode defines it.
pub uninterp spec fn alnum(c: char) -> bool;

/// Whether a character is white space, as Unicode defines it.
pub uninterp spec fn white(c: char) -> bool;

/// Relies on `char::is_alphanumeric`, whose result depends on the character alone.
#[verifier::external_body]
fn is_alnum(c: char) -> (r: bool)
    ensures
        r == alnum(c),
{
    c.is_alphanumeric()
}

/// Relies on `char::is_whitespace`, whose result depends on the character alone.
#[verifier::external_body]
pub(crate) fn is_white(c: char) -> (r: bool)
    ensures
        r == white(c),
{
    c.is_whitespace()
}

/// The end of the run of alphanumeric characters of `cs` that starts at `j`.
pub open spec fn run_end(cs: Seq<char>, j: int) -> int
    decreases cs.len() - j,
{
    if 0 <= j < cs.len() && alnum(cs[j]) {
        run_end(cs, j + 1)
    } else {
        j
    }
}

proof fn lemma_run_end(cs: Seq<char>, j: int)
    requires
        0 <= j <= cs.len(),
    ensures
        j <= run_end(cs, j) <= cs.len(),
    decreases cs.len() - j,
{
    if j < cs.len() && alnum(cs[j]) {
        lemma_run_end(cs, j + 1);
    }
}

/// The tokens of `cs` from position `i` on, each as its kind and text.
/// Parentheses, comma and equals sign are tokens of their own, white space
/// separates tokens, and any other character starts a symbol that takes in
/// all the alphanumeric characters that follow it.
pub open spec fn lex(cs: Seq<char>, i: int) -> Seq<(TokenKind, Seq<char>)>
    decreases cs.len() - i,
    via lex_decreases
{
    if i < 0 || cs.len() <= i {
        seq![]
    } else if cs[i] == ')' {
        seq![(TokenKind::CloseParen, seq![')'])] + lex(cs, i + 1)
    } else if cs[i] == '(' {
        seq![(TokenKind::OpenParen, seq!['('])] + lex(cs, i + 1)
    } else if cs[i] == ',' {
        seq![(TokenKind::Comma, seq![','])] + lex(cs, i + 1)
    } else if cs[i] == '=' {
        seq![(TokenKind::Equal, seq!['='])] + lex(cs, i + 1)
    } else if white(cs[i]) {
        lex(cs, i + 1)
    } else {
        seq![(TokenKind::Symbol, cs.subrange(i, run_end(cs, i + 1)))] + lex(cs, run_end(cs, i + 1))
    }
}

#[via_fn]
proof fn lex_decreases(cs: Seq<char>, i: int) {
    if 0 <= i < cs.len() {
        lemma_run_end(cs, i + 1);
    }
}

impl Token {
    /// The kind and text of the token.
    pub open spec fn view(&self) -> (TokenKind, Seq<char>) {
        (self.kind, self.text@)
    }

    pub fn make(kind: TokenKind, text: String) -> (r: Token)
        ensures
            r.kind == kind,
            r.text@ == text@,
    {
        Token { kind, text }
    }
}

/// The kind and text of each token, in order.
pub open spec fn token_views(ts: Seq<Token>) -> Seq<(TokenKind, Seq<char>)> {
    Seq::new(ts.len(), |i: int| ts[i]@)
}

/// Reads tokens off a text, one at a time.
pub struct Lexer {
    source: String,
    len: usize,
    pos: usize,
}

impl Lexer {
    /// The cursor stands within the text, whose length is cached.
    pub closed spec fn wf(&self) -> bool {
        &&& self.len == self.source@.len()
        &&& self.pos <= self.len
    }

    /// The tokens that are still to come.
    pub closed spec fn rest(&self) -> Seq<(TokenKind, Seq<char>)> {
        lex(self.source@, self.pos as int)
    }

    /// A lexer at the start of `source`.
    pub fn from_iter(source: &str) -> (r: Lexer)
        ensures
            r.wf(),
            r.rest() == lex(source@, 0),
    {
        let len = source.unicode_len();
        Lexer { source: String::from_str(source), len, pos: 0 }
    }

    /// The next token, or `None` once the text is used up.
    pub fn next(&mut self) -> (r: Option<Token>)
        requires
            old(self).wf(),
        ensures
            final(self).wf(),
            r is None ==> old(self).rest().len() == 0 && final(self).rest().len() == 0,
            r matches Some(t) ==> old(self).rest() == seq![t@] + final(self).rest(),
    {
        let ghost cs = self.source@;
        loop
            invariant
                self.wf(),
                cs == self.source@,
                lex(cs, self.pos as int) == old(self).rest(),
            decreases self.len - self.pos,
        {
            if self.pos >= self.len {
                return None;
            }
            let c = self.source.as_str().get_char(self.pos);
            let start = self.pos;
            self.pos = self.pos + 1;
            if c == ')' {
                proof {
                    reveal_strlit(")");
                }
                let t = Token::make(TokenKind::CloseParen, String::from_str(")"));
                assert(t.text@ =~= seq![')']);
                assert(lex(cs, start as int) =~= seq![t@] + lex(cs, self.pos as int));
                return Some(t);
            } else if c == '(' {
                proof {
                    reveal_strlit("(");
                }
                let t = Token::make(TokenKind::OpenParen, String::from_str("("));
                assert(t.text@ =~= seq!['(']);
                assert(lex(cs, start as int) =~= seq![t@] + lex(cs, self.pos as int));
                return Some(t);
            } else if c == ',' {
                proof {
                    reveal_strlit(",");
                }
                let t = Token::make(TokenKind::Comma, String::from_str(","));
                assert(t.text@ =~= seq![',']);
                assert(lex(cs, start as int) =~= seq![t@] + lex(cs, self.pos as int));
                return Some(t);
            } else if c == '=' {
                proof {
                    reveal_strlit("=");
                }
                let t = Token::make(TokenKind::Equal, String::from_str("="));
                assert(t.text@ =~= seq!['=']);
                assert(lex(cs, start as int) =~= seq![t@] + lex(cs, self.pos as int));
                return Some(t);
            } else if !is_white(c) {
                while self.pos < self.len && is_alnum(self.source.as_str().get_char(self.pos))
                    invariant
                        self.wf(),
                        cs == self.source@,
                        start < self.pos,
                        run_end(cs, self.pos as int) == run_end(cs, start + 1),
                    decreases self.len - self.pos,
                {
                    self.pos = self.pos + 1;
                }
                let text = String::from_str(self.source.as_str().substring_char(start, self.pos));
                return Some(Token::make(TokenKind::Symbol, text));
            }
        }
    }

    /// All the tokens of `source`, in order.
    pub fn tokenize(source: &str) -> (r: Vec<Token>)
        ensures
            token_views(r@) == lex(source@, 0),
    {
        let mut lexer = Lexer::from_iter(source);
        let mut out: Vec<Token> = Vec::new();
        loop
            invariant
                lexer.wf(),
                token_views(out@) + lexer.rest() == lex(source@, 0),
            decreases lexer.rest().len(),
        {
            let ghost before = lexer.rest();
            match lexer.next() {
                Some(t) => {
                    let ghost tv = t@;
                    let ghost prev = out@;
                    out.push(t);
                    assert(token_views(out@) =~= token_views(prev) + seq![tv]);
                },
                None => {
                    assert(lexer.rest() =~= seq![]);
                    return out;
                },
            }
        }
    }
}

} // verus!
