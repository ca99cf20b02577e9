use vstd::prelude::*;

verus! {

/// The eight instruction characters of the language.
#[derive(Copy, Clone, Debug, PartialEq, Eq, Structural)]
pub enum TokenType {
    Next,
    Previous,
    Increment,
    Decrement,
    Output,
    Input,
    BeginLoop,
    EndLoop,
}

/// One instruction character together with its source position (both 1-based).
#[derive(Copy, Clone, Debug, PartialEq, Eq, Structural)]
pub struct Token {
    pub token_type: TokenType,
    pub line: u32,
    pub char: u32,
}

/// The token a source character stands for, if it is an instruction character.
pub open spec fn token_type_of(c: char) -> Option<TokenType> {
    if c == '>' {
        Some(TokenType::Next)
    } else if c == '<' {
        Some(TokenType::Previous)
    } else if c == '+' {
        Some(TokenType::Increment)
    } else if c == '-' {
        Some(TokenType::Decrement)
    } else if c == '.' {
        Some(TokenType::Output)
    } else if c == ',' {
        Some(TokenType::Input)
    } else if c == '[' {
        Some(TokenType::BeginLoop)
    } else if c == ']' {
        Some(TokenType::EndLoop)
    } else {
        None
    }
}

/// Scanning `s` from the start: the tokens found, and the line and column
/// that the next character would have. A newline starts a new line at
/// column 1; every other character, instruction or not, takes one column.
pub open spec fn scan(s: Seq<char>) -> (Seq<Token>, int, int)
    decreases s.len(),
{
    if s.len() == 0 {
        (Seq::empty(), 1, 1)
    } else {
        let (toks, line, col) = scan(s.drop_last());
        let c = s.last();
        if c == '\n' {
            (toks, line + 1, 1)
        } else {
            match token_type_of(c) {
                Some(t) => (toks.push(Token { token_type: t, line: line as u32, char: col as u32 }), line, col + 1),
                None => (toks, line, col + 1),
            }
        }
    }
}

/// The tokens of a source text.
pub open spec fn lex_spec(s: Seq<char>) -> Seq<Token> {
    scan(s).0
}

proof fn lemma_scan_bounds(s: Seq<char>)
    ensures
        1 <= scan(s).1 <= s.len() + 1,
        1 <= scan(s).2 <= s.len() + 1,
    decreases s.len(),
{
    if s.len() > 0 {
        lemma_scan_bounds(s.drop_last());
    }
}

/// Splits a source text into instruction tokens, each tagged with its line
/// and column; every other character is skipped.
pub fn lex(src: &str) -> (tokens: Vec<Token>)
    requires
        src@.len() < u32::MAX,
    ensures
        tokens@ == lex_spec(src@),
{
    let mut line: u32 = 1;
    let mut col: u32 = 1;
    let mut tokens: Vec<Token> = Vec::new();
    for c in it: src.chars()
        invariant
            it.seq() == src@,
            src@.len() < u32::MAX,
            scan(it.seq().take(it.index() as int)) == (tokens@, line as int, col as int),
    {
        let ghost pre = it.seq().take(it.index() as int);
        proof {
            lemma_scan_bounds(pre);
            assert(it.seq().take(it.index() + 1).drop_last() == pre);
        }
        if c == '\n' {
            line = line + 1;
            col = 1;
        } else {
            if c == '>' {
                tokens.push(Token { token_type: TokenType::Next, line, char: col });
            } else if c == '<' {
                tokens.push(Token { token_type: TokenType::Previous, line, char: col });
            } else if c == '+' {
                tokens.push(Token { token_type: TokenType::Increment, line, char: col });
            } else if c == '-' {
                tokens.push(Token { token_type: TokenType::Decrement, line, char: col });
            } else if c == '.' {
                tokens.push(Token { token_type: TokenType::Output, line, char: col });
            } else if c == ',' {
                tokens.push(Token { token_type: TokenType::Input, line, char: col });
            } else if c == '[' {
                tokens.push(Token { token_type: TokenType::BeginLoop, line, char: col });
            } else if c == ']' {
                tokens.push(Token { token_type: TokenType::EndLoop, line, char: col });
            }
            col = col + 1;
        }
    }
    proof {
        assert(src@.take(src@.len() as int) == src@);
    }
    tokens
}

} // verus!
