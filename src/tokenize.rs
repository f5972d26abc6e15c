use vstd::prelude::*;
use vstd::string::*;

verus! {

/// The kinds of token the lexer produces.
#[derive(Debug, Clone, Copy, PartialEq, Eq, Structural)]
pub enum TokenType {
    NumberLiteral,
    Identifier,
    Equal,
    Plus,
    Minus,
    Star,
    Slash,
    LeftParen,
    RightParen,
    NewLine,
}

/// A token: its kind and the exact source text it was read from.
#[derive(Debug)]
pub struct Token {
    pub token_type: TokenType,
    pub lexeme: String,
}

/// Errors of the lexer.
#[derive(Debug, Clone, Copy, PartialEq, Eq, Structural)]
pub enum LexError {
    /// A digit run is followed by a character that neither continues nor ends it.
    InvalidCharacter(char),
}

/// What a token amounts to: its kind and its text.
pub open spec fn token_view(t: Token) -> (TokenType, Seq<char>) {
    (t.token_type, t.lexeme@)
}

pub open spec fn tokens_view(ts: Seq<Token>) -> Seq<(TokenType, Seq<char>)> {
    ts.map_values(|t: Token| token_view(t))
}

/// The kind of a character that is a token on its own.
pub open spec fn single_char_kind(c: char) -> Option<TokenType> {
    if c == '=' {
        Some(TokenType::Equal)
    } else if c == '+' {
        Some(TokenType::Plus)
    } else if c == '-' {
        Some(TokenType::Minus)
    } else if c == '*' {
        Some(TokenType::Star)
    } else if c == '/' {
        Some(TokenType::Slash)
    } else if c == '(' {
        Some(TokenType::LeftParen)
    } else if c == ')' {
        Some(TokenType::RightParen)
    } else if c == '\n' {
        Some(TokenType::NewLine)
    } else {
        None
    }
}

pub open spec fn is_decimal_digit(c: char) -> bool {
    '0' <= c && c <= '9'
}

/// Characters that end a numeric literal without being part of it.
pub open spec fn ends_number(c: char) -> bool {
    c == ' ' || c == ')' || c == '\n'
}

/// Whether `char::is_alphanumeric` holds of `c` (Unicode's Alphabetic or Numeric).
pub uninterp spec fn alphanumeric(c: char) -> bool;

pub open spec fn ascii_alphanumeric(c: char) -> bool {
    ('a' <= c && c <= 'z') || ('A' <= c && c <= 'Z') || ('0' <= c && c <= '9')
}

/// Letters, digits and the underscore; beyond ASCII, what Unicode counts as
/// alphanumeric.
pub open spec fn is_identifier_char(c: char) -> bool {
    if (c as u32) < 128 {
        ascii_alphanumeric(c) || c == '_'
    } else {
        alphanumeric(c)
    }
}

/// The end of the run of decimal digits of `s` that starts at `i`.
pub open spec fn digits_end(s: Seq<char>, i: int) -> int
    decreases s.len() - i,
{
    if 0 <= i < s.len() && is_decimal_digit(s[i]) {
        digits_end(s, i + 1)
    } else {
        i
    }
}

/// The end of the run of identifier characters of `s` that starts at `i`.
pub open spec fn identifier_end(s: Seq<char>, i: int) -> int
    decreases s.len() - i,
{
    if 0 <= i < s.len() && is_identifier_char(s[i]) {
        identifier_end(s, i + 1)
    } else {
        i
    }
}

/// `toks` put in front of the tokens of a successful result.
pub open spec fn prepend_tokens(
    toks: Seq<(TokenType, Seq<char>)>,
    r: Result<Seq<(TokenType, Seq<char>)>, LexError>,
) -> Result<Seq<(TokenType, Seq<char>)>, LexError> {
    match r {
        Ok(rest) => Ok(toks + rest),
        Err(e) => Err(e),
    }
}

/// The tokens of `s` from position `i` on.
pub open spec fn lex_from(s: Seq<char>, i: int) -> Result<Seq<(TokenType, Seq<char>)>, LexError>
    decreases s.len() - i,
    via lex_from_decreases
{
    if i < 0 || i >= s.len() {
        Ok(Seq::empty())
    } else {
        let c = s[i];
        match single_char_kind(c) {
            Some(kind) => prepend_tokens(seq![(kind, seq![c])], lex_from(s, i + 1)),
            None => {
                if is_decimal_digit(c) {
                    let end = digits_end(s, i + 1);
                    if end < s.len() && !ends_number(s[end]) {
                        Err(LexError::InvalidCharacter(s[end]))
                    } else {
                        prepend_tokens(
                            seq![(TokenType::NumberLiteral, s.subrange(i, end))],
                            lex_from(s, end),
                        )
                    }
                } else if c == ' ' {
                    lex_from(s, i + 1)
                } else {
                    let end = identifier_end(s, i + 1);
                    prepend_tokens(
                        seq![(TokenType::Identifier, s.subrange(i, end))],
                        lex_from(s, end),
                    )
                }
            },
        }
    }
}

/// The tokens of the whole text `s`.
pub open spec fn lex(s: Seq<char>) -> Result<Seq<(TokenType, Seq<char>)>, LexError> {
    lex_from(s, 0)
}

proof fn lemma_digits_end_bounds(s: Seq<char>, i: int)
    requires
        0 <= i <= s.len(),
    ensures
        i <= digits_end(s, i) <= s.len(),
    decreases s.len() - i,
{
    if i < s.len() && is_decimal_digit(s[i]) {
        lemma_digits_end_bounds(s, i + 1);
    }
}

proof fn lemma_identifier_end_bounds(s: Seq<char>, i: int)
    requires
        0 <= i <= s.len(),
    ensures
        i <= identifier_end(s, i) <= s.len(),
    decreases s.len() - i,
{
    if i < s.len() && is_identifier_char(s[i]) {
        lemma_identifier_end_bounds(s, i + 1);
    }
}

#[via_fn]
proof fn lex_from_decreases(s: Seq<char>, i: int) {
    if 0 <= i < s.len() {
        lemma_digits_end_bounds(s, i + 1);
        lemma_identifier_end_bounds(s, i + 1);
    }
}

proof fn lemma_prepend_twice(
    a: Seq<(TokenType, Seq<char>)>,
    b: Seq<(TokenType, Seq<char>)>,
    r: Result<Seq<(TokenType, Seq<char>)>, LexError>,
)
    ensures
        prepend_tokens(a, prepend_tokens(b, r)) == prepend_tokens(a + b, r),
{
    if let Ok(rest) = r {
        assert(a + (b + rest) =~= (a + b) + rest);
    }
}

/// Relies on `char::is_alphanumeric`: whether the character is alphabetic or
/// numeric. Among ASCII characters, exactly the letters and the digits are.
#[verifier::external_body]
fn is_alphanumeric(ch: char) -> (r: bool)
    ensures
        r == alphanumeric(ch),
        (ch as u32) < 128 ==> (r <==> ascii_alphanumeric(ch)),
{
    ch.is_alphanumeric()
}

/// Whether `ch` may continue an identifier: alphanumeric, or an underscore.
pub fn is_valid_identifier_char(ch: char) -> (r: bool)
    ensures
        r == is_identifier_char(ch),
{
    is_alphanumeric(ch) || ch == '_'
}

fn make_token(token_type: TokenType, text: &str) -> (r: Token)
    ensures
        token_view(r) == (token_type, text@),
{
    Token { token_type, lexeme: text.to_owned() }
}

/// Splits `source_code` into tokens, left to right, failing on a malformed
/// numeric literal.
pub fn tokenize(source_code: &str) -> (r: Result<Vec<Token>, LexError>)
    ensures
        match r {
            Ok(toks) => lex(source_code@) == Ok::<_, LexError>(tokens_view(toks@)),
            Err(e) => lex(source_code@) == Err::<Seq<(TokenType, Seq<char>)>, _>(e),
        },
{
    let ghost s = source_code@;
    let n = source_code.unicode_len();
    let mut position: usize = 0;
    let mut result: Vec<Token> = Vec::new();
    while position < n
        invariant
            n == s.len(),
            source_code@ == s,
            position <= n,
            lex(s) == prepend_tokens(tokens_view(result@), lex_from(s, position as int)),
        decreases n - position,
    {
        let current_char = source_code.get_char(position);
        let ghost before = tokens_view(result@);
        let ghost next: Seq<(TokenType, Seq<char>)>;
        let ghost next_pos: int;
        let single = if current_char == '=' {
            Some(TokenType::Equal)
        } else if current_char == '+' {
            Some(TokenType::Plus)
        } else if current_char == '-' {
            Some(TokenType::Minus)
        } else if current_char == '*' {
            Some(TokenType::Star)
        } else if current_char == '/' {
            Some(TokenType::Slash)
        } else if current_char == '(' {
            Some(TokenType::LeftParen)
        } else if current_char == ')' {
            Some(TokenType::RightParen)
        } else if current_char == '\n' {
            Some(TokenType::NewLine)
        } else {
            None
        };
        assert(single == single_char_kind(current_char));
        match single {
            Some(kind) => {
                let text = source_code.substring_char(position, position + 1);
                assert(text@ =~= seq![current_char]);
                result.push(make_token(kind, text));
                proof {
                    next = seq![(kind, seq![current_char])];
                    next_pos = position + 1;
                }
                position = position + 1;
            },
            None => {
                if '0' <= current_char && current_char <= '9' {
                    let start = position;
                    position = position + 1;
                    while position < n
                        invariant
                            n == s.len(),
                            source_code@ == s,
                            start < position <= n,
                            digits_end(s, start as int + 1) == digits_end(s, position as int),
                            s[start as int] == current_char,
                            is_decimal_digit(current_char),
                            lex(s) == prepend_tokens(before, lex_from(s, start as int)),
                        ensures
                            start < position <= n,
                            digits_end(s, start as int + 1) == position,
                            position < n ==> ends_number(s[position as int]),
                        decreases n - position,
                    {
                        let next_char = source_code.get_char(position);
                        if next_char == ' ' || next_char == ')' || next_char == '\n' {
                            break;
                        }
                        if '0' <= next_char && next_char <= '9' {
                            position = position + 1;
                        } else {
                            assert(digits_end(s, position as int) == position);
                            assert(s[start as int] == current_char);
                            assert(single_char_kind(s[start as int]).is_none());
                            proof {
                                lemma_prepend_twice(before, Seq::empty(), lex_from(s, start as int));
                            }
                            assert(lex_from(s, start as int) == Err::<
                                Seq<(TokenType, Seq<char>)>,
                                LexError,
                            >(LexError::InvalidCharacter(next_char)));
                            return Err(LexError::InvalidCharacter(next_char));
                        }
                    }
                    assert(digits_end(s, position as int) == position);
                    let text = source_code.substring_char(start, position);
                    result.push(make_token(TokenType::NumberLiteral, text));
                    proof {
                        next = seq![(TokenType::NumberLiteral, s.subrange(start as int, position as int))];
                        next_pos = position as int;
                    }
                } else if current_char == ' ' {
                    proof {
                        next = Seq::empty();
                        next_pos = position + 1;
                    }
                    position = position + 1;
                } else {
                    let start = position;
                    position = position + 1;
                    while position < n
                        invariant
                            n == s.len(),
                            source_code@ == s,
                            start < position <= n,
                            identifier_end(s, start as int + 1) == identifier_end(s, position as int),
                        ensures
                            start < position <= n,
                            identifier_end(s, start as int + 1) == position,
                        decreases n - position,
                    {
                        let next_char = source_code.get_char(position);
                        if !is_valid_identifier_char(next_char) {
                            break;
                        }
                        position = position + 1;
                    }
                    assert(identifier_end(s, position as int) == position);
                    let text = source_code.substring_char(start, position);
                    result.push(make_token(TokenType::Identifier, text));
                    proof {
                        next = seq![(TokenType::Identifier, s.subrange(start as int, position as int))];
                        next_pos = position as int;
                    }
                }
            },
        }
        proof {
            assert(tokens_view(result@) =~= before + next);
            lemma_prepend_twice(before, next, lex_from(s, next_pos));
        }
    }
    proof {
        assert(prepend_tokens(tokens_view(result@), lex_from(s, position as int)) == Ok::<
            Seq<(TokenType, Seq<char>)>,
            LexError,
        >(tokens_view(result@) + Seq::empty()));
        assert(tokens_view(result@) + Seq::empty() =~= tokens_view(result@));
    }
    Ok(result)
}

proof fn lemma_digits_end_at(s: Seq<char>, j: int, k: int)
    requires
        0 <= j <= k < s.len(),
        forall|i: int| j <= i < k ==> is_decimal_digit(#[trigger] s[i]),
        !is_decimal_digit(s[k]),
    ensures
        digits_end(s, j) == k,
    decreases k - j,
{
    if j < k {
        lemma_digits_end_at(s, j + 1, k);
    }
}

/// A text that starts with a run of digits followed by a character that
/// neither continues nor ends a number fails to lex, on that character.
pub proof fn lemma_malformed_number(s: Seq<char>, k: int)
    requires
        0 < k < s.len(),
        forall|i: int| 0 <= i < k ==> is_decimal_digit(#[trigger] s[i]),
        !is_decimal_digit(s[k]),
        !ends_number(s[k]),
    ensures
        lex(s) == Err::<Seq<(TokenType, Seq<char>)>, LexError>(LexError::InvalidCharacter(s[k])),
{
    lemma_digits_end_at(s, 1, k);
    assert(is_decimal_digit(s[0]));
}

} // verus!
