//! How a JSON text is cut into tokens.

use crate::error::{ErrorModel, JsonError};
use crate::number::{
    exponent_shape, fraction_shape, integer_shape, regex_is_match, FLOATING_POINT_REGEX,
    FLOATING_POINT_REGEX_2, INTEGER_REGEX,
};
use crate::text::{
    byte_offset, char_width, is_whitespace, lemma_byte_offset_bounds, lemma_byte_offset_step,
    same_text, slice_text, to_chars, trim_end, trimmed, whitespace,
};
use crate::token::{enclosed, Lexeme, Token, TokenType};
use crate::value::JsonValue;
use vstd::prelude::*;

verus! {

/// The kind of token that a keyword or a number is.
pub open spec fn classified(word: Seq<char>) -> Result<TokenType, ErrorModel> {
    if word == "true"@ || word == "false"@ {
        Ok(TokenType::Bool)
    } else if word == "null"@ {
        Ok(TokenType::Null)
    } else if integer_shape(word) {
        Ok(TokenType::Integer)
    } else if fraction_shape(word) || exponent_shape(word) {
        Ok(TokenType::Float)
    } else {
        Err(ErrorModel::WrongKeyword(word))
    }
}

/// The kind of token that a single character is.
pub open spec fn punctuation(c: char) -> Option<TokenType> {
    if c == '{' {
        Some(TokenType::CurvedBraceOpen)
    } else if c == '}' {
        Some(TokenType::CurvedBraceClose)
    } else if c == '[' {
        Some(TokenType::SquareBraceOpen)
    } else if c == ']' {
        Some(TokenType::SquareBraceClose)
    } else if c == ',' {
        Some(TokenType::Comma)
    } else if c == ':' {
        Some(TokenType::Colon)
    } else {
        None
    }
}

/// Whether `c` ends the keyword or number before it.
pub open spec fn ends_word(c: char) -> bool {
    c == '}' || c == ']' || c == ','
}

/// Where a reader of the text stands: whether it is inside a string, and where that began; whether
/// the next quote is escaped; and where the keyword or number began that is not ended yet.
pub struct LexState {
    pub in_string: bool,
    pub start: int,
    pub escaped: bool,
    pub word: Option<int>,
}

/// The state at the beginning of a text.
pub open spec fn idle() -> LexState {
    LexState { in_string: false, start: 0, escaped: false, word: None }
}

/// The state after the character at `i`.
pub open spec fn advanced(text: Seq<char>, i: int, state: LexState) -> LexState {
    let c = text[i];
    if whitespace(c) {
        state
    } else if c == '"' {
        if state.escaped {
            LexState { escaped: false, ..state }
        } else if state.in_string {
            LexState { in_string: false, ..state }
        } else {
            LexState { in_string: true, start: i, ..state }
        }
    } else if c == '\\' {
        LexState { escaped: !state.escaped, ..state }
    } else if !state.in_string && punctuation(c) is Some {
        if ends_word(c) {
            LexState { word: None, ..state }
        } else {
            state
        }
    } else if !state.in_string && state.word is None {
        LexState { escaped: false, word: Some(i), ..state }
    } else {
        LexState { escaped: false, ..state }
    }
}

/// The tokens that end with the character at `i`.
pub open spec fn emitted(text: Seq<char>, i: int, state: LexState) -> Result<
    Seq<Lexeme>,
    ErrorModel,
> {
    let c = text[i];
    if c == '"' && state.in_string && !state.escaped {
        Ok(seq![Lexeme { kind: TokenType::String, text: text.subrange(state.start, i + 1) }])
    } else if !state.in_string && punctuation(c) is Some {
        let mark = Lexeme { kind: punctuation(c)->0, text: seq![c] };
        if ends_word(c) && state.word is Some {
            let word = trimmed(text.subrange(state.word->0, i));
            match classified(word) {
                Ok(kind) => Ok(seq![Lexeme { kind, text: word }, mark]),
                Err(error) => Err(error),
            }
        } else {
            Ok(seq![mark])
        }
    } else {
        Ok(Seq::empty())
    }
}

/// The lexemes `first`, followed by the rest where there is one.
pub open spec fn joined(first: Seq<Lexeme>, rest: Result<Seq<Lexeme>, ErrorModel>) -> Result<
    Seq<Lexeme>,
    ErrorModel,
> {
    match rest {
        Ok(lexemes) => Ok(first + lexemes),
        Err(error) => Err(error),
    }
}

/// The token at the end of every text.
pub open spec fn end_mark() -> Lexeme {
    Lexeme { kind: TokenType::EOF, text: Seq::empty() }
}

/// The tokens that end at `i` or later, read from the given state on.
pub open spec fn lexed_from(text: Seq<char>, i: int, state: LexState) -> Result<
    Seq<Lexeme>,
    ErrorModel,
>
    decreases text.len() - i,
{
    if i >= text.len() {
        Ok(seq![end_mark()])
    } else {
        match emitted(text, i, state) {
            Ok(first) => joined(first, lexed_from(text, i + 1, advanced(text, i, state))),
            Err(error) => Err(error),
        }
    }
}

/// The tokens of a text. What is left of a keyword, a number or a string that nothing ends before
/// the end of the text is no token.
pub open spec fn lexed(text: Seq<char>) -> Result<Seq<Lexeme>, ErrorModel> {
    lexed_from(text, 0, idle())
}

/// A string token has a character of ASCII at either end, and a truth value is one of the two.
pub open spec fn well_formed(lexeme: Lexeme) -> bool {
    &&& lexeme.kind == TokenType::String ==> enclosed(lexeme.text)
    &&& lexeme.kind == TokenType::Bool ==> lexeme.text == "true"@ || lexeme.text == "false"@
}

/// A string token has its quotes.
pub open spec fn quoted(lexeme: Lexeme) -> bool {
    lexeme.kind == TokenType::String ==> {
        &&& lexeme.text.len() >= 2
        &&& lexeme.text[0] == '"'
        &&& lexeme.text.last() == '"'
    }
}

/// All of the lexemes are well formed.
pub open spec fn all_well_formed(lexemes: Seq<Lexeme>) -> bool {
    forall|i: int| 0 <= i < lexemes.len() ==> well_formed(#[trigger] lexemes[i])
}

/// All of the string tokens have their quotes.
pub open spec fn all_quoted(lexemes: Seq<Lexeme>) -> bool {
    forall|i: int| 0 <= i < lexemes.len() ==> quoted(#[trigger] lexemes[i])
}

/// The lexemes of the given tokens.
pub open spec fn lexemes(tokens: Seq<Token<'_>>) -> Seq<Lexeme> {
    tokens.map_values(|token: Token<'_>| token@)
}

proof fn lemma_well_formed_from(text: Seq<char>, i: int, state: LexState)
    requires
        0 <= i,
        state.in_string ==> 0 <= state.start < i && text[state.start] == '"',
        lexed_from(text, i, state) is Ok,
    ensures
        all_well_formed(lexed_from(text, i, state)->Ok_0),
        all_quoted(lexed_from(text, i, state)->Ok_0),
        lexed_from(text, i, state)->Ok_0.len() > 0,
        lexed_from(text, i, state)->Ok_0.last() == end_mark(),
    decreases text.len() - i,
{
    if i < text.len() {
        lemma_well_formed_from(text, i + 1, advanced(text, i, state));
        let rest = lexed_from(text, i + 1, advanced(text, i, state))->Ok_0;
        let first = emitted(text, i, state)->Ok_0;
        assert forall|k: int| 0 <= k < (first + rest).len() implies well_formed(
            #[trigger] (first + rest)[k],
        ) && quoted((first + rest)[k]) by {
            if k >= first.len() {
                assert(well_formed(rest[k - first.len()]));
                assert(quoted(rest[k - first.len()]));
            }
        }
    }
}

/// The tokens of a text are well formed, its strings have their quotes, and the last token is the end
/// mark.
pub proof fn law_lexed_tokens_are_well_formed(text: Seq<char>)
    requires
        lexed(text) is Ok,
    ensures
        all_well_formed(lexed(text)->Ok_0),
        all_quoted(lexed(text)->Ok_0),
        lexed(text)->Ok_0.len() > 0,
        lexed(text)->Ok_0.last() == end_mark(),
{
    lemma_well_formed_from(text, 0, idle());
}

pub proof fn lemma_joined_twice(
    a: Seq<Lexeme>,
    b: Seq<Lexeme>,
    rest: Result<Seq<Lexeme>, ErrorModel>,
)
    ensures
        joined(a, joined(b, rest)) == joined(a + b, rest),
{
    if let Ok(c) = rest {
        assert(a + (b + c) =~= a + b + c);
    }
}

/// The keyword or number from byte `from` to byte `to`, without the whitespace at its end.
fn word_token<'a>(
    str: &'a str,
    from: usize,
    to: usize,
    Ghost(i): Ghost<int>,
    Ghost(j): Ghost<int>,
) -> (result: Result<Token<'a>, JsonError>)
    requires
        0 <= i <= j <= str@.len(),
        from == byte_offset(str@, i),
        to == byte_offset(str@, j),
    ensures
        ({
            let word = trimmed(str@.subrange(i, j));
            match result {
                Ok(token) => classified(word) == Ok::<TokenType, ErrorModel>(token.token_type)
                    && token.data@ == word,
                Err(error) => classified(word) == Err::<TokenType, ErrorModel>(error@),
            }
        }),
{
    let word: &'a str = trim_end(slice_text(str, from, to, Ghost(i), Ghost(j)));
    match JsonValue::process_value(word) {
        Ok(token_type) => Ok(Token { token_type, data: word }),
        Err(error) => Err(error),
    }
}

fn punctuation_type(c: char) -> (result: Option<TokenType>)
    ensures
        result == punctuation(c),
{
    match c {
        '{' => Some(TokenType::CurvedBraceOpen),
        '}' => Some(TokenType::CurvedBraceClose),
        '[' => Some(TokenType::SquareBraceOpen),
        ']' => Some(TokenType::SquareBraceClose),
        ',' => Some(TokenType::Comma),
        ':' => Some(TokenType::Colon),
        _ => None,
    }
}

impl JsonValue {
    /// The kind of token that the keyword or number `s` is.
    pub fn process_value(s: &str) -> (result: Result<TokenType, JsonError>)
        ensures
            match result {
                Ok(kind) => classified(s@) == Ok::<TokenType, ErrorModel>(kind),
                Err(error) => classified(s@) == Err::<TokenType, ErrorModel>(error@),
            },
    {
        if same_text(s, "true") || same_text(s, "false") {
            Ok(TokenType::Bool)
        } else if same_text(s, "null") {
            Ok(TokenType::Null)
        } else if matches!(regex_is_match(INTEGER_REGEX, s), Some(true)) {
            Ok(TokenType::Integer)
        } else if matches!(regex_is_match(FLOATING_POINT_REGEX, s), Some(true)) || matches!(
            regex_is_match(FLOATING_POINT_REGEX_2, s),
            Some(true)
        ) {
            Ok(TokenType::Float)
        } else {
            Err(JsonError::WrongKeyword(s.to_owned()))
        }
    }

    /// The tokens of `str`, with the end mark as the last one.
    pub fn parse_tokens<'a>(str: &'a str) -> (result: Result<Vec<Token<'a>>, JsonError>)
        ensures
            match result {
                Ok(tokens) => lexed(str@) == Ok::<Seq<Lexeme>, ErrorModel>(lexemes(tokens@))
                    && all_well_formed(lexemes(tokens@)),
                Err(error) => lexed(str@) == Err::<Seq<Lexeme>, ErrorModel>(error@),
            },
    {
        let chars: Vec<char> = to_chars(str);
        let total: usize = str.as_bytes().len();
        let mut tokens: Vec<Token<'a>> = Vec::new();
        let mut in_string: bool = false;
        let mut start: usize = 0;
        let mut escaped: bool = false;
        let mut word: Option<usize> = None;
        let mut i: usize = 0;
        let mut pos: usize = 0;
        let ghost mut state: LexState = idle();
        proof {
            lemma_byte_offset_bounds(str@, 0, 0);
            assert(lexemes(tokens@) =~= Seq::<Lexeme>::empty());
            if let Ok(all) = lexed(str@) {
                assert(lexemes(tokens@) + all =~= all);
            }
        }
        while i < chars.len()
            invariant
                chars@ == str@,
                i <= chars@.len(),
                total == byte_offset(str@, str@.len() as int),
                pos == byte_offset(str@, i as int),
                state.in_string == in_string,
                state.escaped == escaped,
                in_string ==> 0 <= state.start < i && start == byte_offset(str@, state.start),
                state.word is Some == word is Some,
                word matches Some(from) ==> 0 <= state.word->0 < i && from == byte_offset(
                    str@,
                    state.word->0,
                ),
                joined(lexemes(tokens@), lexed_from(str@, i as int, state)) == lexed(str@),
            decreases chars@.len() - i,
        {
            let c: char = chars[i];
            let ghost before = tokens@;
            let ghost text = str@;
            proof {
                lemma_byte_offset_step(text, i as int);
                lemma_byte_offset_bounds(text, i + 1, text.len() as int);
                if emitted(text, i as int, state) is Ok {
                    lemma_joined_twice(
                        lexemes(before),
                        emitted(text, i as int, state)->Ok_0,
                        lexed_from(text, i + 1, advanced(text, i as int, state)),
                    );
                }
            }
            let next: usize = pos + char_width(c);
            let ghost after = advanced(text, i as int, state);
            if is_whitespace(c) {
            } else if c == '"' {
                if escaped {
                    escaped = false;
                } else if in_string {
                    let data: &'a str = slice_text(
                        str,
                        start,
                        next,
                        Ghost(state.start),
                        Ghost(i + 1),
                    );
                    tokens.push(Token { token_type: TokenType::String, data });
                    in_string = false;
                } else {
                    in_string = true;
                    start = pos;
                }
            } else if c == '\\' {
                escaped = !escaped;
            } else if in_string {
                escaped = false;
            } else {
                match punctuation_type(c) {
                    Some(token_type) => {
                        if c == '}' || c == ']' || c == ',' {
                            match word {
                                Some(from) => {
                                    match word_token(
                                        str,
                                        from,
                                        pos,
                                        Ghost(state.word->0),
                                        Ghost(i as int),
                                    ) {
                                        Ok(token) => {
                                            tokens.push(token);
                                        },
                                        Err(error) => {
                                            return Err(error);
                                        },
                                    }
                                },
                                None => {},
                            }
                            word = None;
                        }
                        let data: &'a str = slice_text(str, pos, next, Ghost(i as int), Ghost(i + 1));
                        proof {
                            assert(text.subrange(i as int, i + 1) =~= seq![c]);
                        }
                        tokens.push(Token { token_type, data });
                    },
                    None => {
                        escaped = false;
                        if word.is_none() {
                            word = Some(pos);
                        }
                    },
                }
            }
            proof {
                assert(emitted(text, i as int, state) is Ok);
                assert(lexemes(tokens@) =~= lexemes(before) + emitted(text, i as int, state)->Ok_0);
                state = after;
            }
            pos = next;
            i = i + 1;
        }
        let ghost done = tokens@;
        tokens.push(Token { token_type: TokenType::EOF, data: "" });
        proof {
            reveal_strlit("");
            assert(""@ =~= Seq::<char>::empty());
            assert(lexemes(tokens@) =~= lexemes(done) + seq![end_mark()]);
            law_lexed_tokens_are_well_formed(str@);
        }
        Ok(tokens)
    }
}

} // verus!
