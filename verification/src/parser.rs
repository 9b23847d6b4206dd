//! How the tokens of a JSON text are read as a value.

use crate::error::{ErrorModel, JsonError, MAX_DEPTH};
use crate::lexer::{all_well_formed, lexed, lexemes, well_formed};
use crate::token::{bool_of, float_of, integer_of, string_of, Lexeme, Token, TokenType};
use crate::value::{models, JsonModel, JsonObject, JsonValue};
use vstd::prelude::*;

verus! {

/// What comes of reading tokens: what was read, or what is wrong with them, or a token that the
/// reader has no rule for at the place where it stands.
#[derive(Debug)]
pub enum Reading<T, E> {
    Done(T),
    Failed(E),
    Unhandled(TokenType),
}

/// The kinds of tokens that are a value by themselves.
pub open spec fn scalar(kind: TokenType) -> bool {
    ||| kind == TokenType::String
    ||| kind == TokenType::Integer
    ||| kind == TokenType::Float
    ||| kind == TokenType::Bool
    ||| kind == TokenType::Null
}

/// The kinds of tokens that an object or an array starts with.
pub open spec fn opening(kind: TokenType) -> bool {
    kind == TokenType::CurvedBraceOpen || kind == TokenType::SquareBraceOpen
}

/// The kinds of tokens that may follow an object or an array.
pub open spec fn follows_value(kind: TokenType) -> bool {
    ||| kind == TokenType::SquareBraceClose
    ||| kind == TokenType::Comma
    ||| kind == TokenType::CurvedBraceClose
    ||| kind == TokenType::EOF
}

/// The value that a token is by itself.
pub open spec fn scalar_of(lexeme: Lexeme) -> Result<JsonModel, ErrorModel> {
    if lexeme.kind == TokenType::String {
        match string_of(lexeme) {
            Ok(text) => Ok(JsonModel::String(text)),
            Err(error) => Err(error),
        }
    } else if lexeme.kind == TokenType::Integer {
        match integer_of(lexeme) {
            Ok(number) => Ok(JsonModel::Integer(number)),
            Err(error) => Err(error),
        }
    } else if lexeme.kind == TokenType::Float {
        match float_of(lexeme) {
            Ok(bits) => Ok(JsonModel::Float(bits)),
            Err(error) => Err(error),
        }
    } else if lexeme.kind == TokenType::Bool {
        match bool_of(lexeme) {
            Ok(truth) => Ok(JsonModel::Boolean(truth)),
            Err(error) => Err(error),
        }
    } else if lexeme.kind == TokenType::Null {
        Ok(JsonModel::Null)
    } else {
        Err(ErrorModel::WrongToken { got: lexeme.kind })
    }
}

/// The object or array that starts at `pos`, and the place after it.
pub open spec fn container_read(t: Seq<Lexeme>, pos: int, depth: int) -> Reading<
    (JsonModel, int),
    ErrorModel,
>
    decreases t.len() - pos, 2int,
{
    if t[pos].kind == TokenType::CurvedBraceOpen {
        object_read(t, pos, depth)
    } else {
        array_read(t, pos, depth)
    }
}

/// The object that starts at `pos`, `depth` objects and arrays deep, and the place after it.
pub open spec fn object_read(t: Seq<Lexeme>, pos: int, depth: int) -> Reading<
    (JsonModel, int),
    ErrorModel,
>
    decreases t.len() - pos, 1int,
{
    if depth >= MAX_DEPTH {
        Reading::Failed(ErrorModel::MaxDepthExceeded)
    } else {
        members_read(t, pos, depth, Map::empty(), None)
    }
}

/// The object of which `members` were read before `pos`, and the key whose value comes next, if one
/// does. Reading stops where the token at `pos` has none after it.
pub open spec fn members_read(
    t: Seq<Lexeme>,
    pos: int,
    depth: int,
    members: Map<Seq<char>, JsonModel>,
    key: Option<Seq<char>>,
) -> Reading<(JsonModel, int), ErrorModel>
    decreases t.len() - pos, 0int,
{
    if pos + 1 >= t.len() {
        Reading::Done((JsonModel::Object(members), pos))
    } else {
        let current = t[pos];
        let next = t[pos + 1].kind;
        let wrong = Reading::Failed(ErrorModel::WrongToken { got: current.kind });
        match current.kind {
            TokenType::CurvedBraceOpen => if next == TokenType::CurvedBraceClose || next
                == TokenType::String {
                members_read(t, pos + 1, depth, members, key)
            } else {
                wrong
            },
            TokenType::CurvedBraceClose => if follows_value(next) {
                Reading::Done((JsonModel::Object(members), pos + 1))
            } else {
                wrong
            },
            TokenType::Comma => if key is None && next == TokenType::String {
                members_read(t, pos + 1, depth, members, key)
            } else {
                wrong
            },
            TokenType::Colon => match key {
                None => wrong,
                Some(name) => if opening(next) {
                    match container_read(t, pos + 1, depth + 1) {
                        Reading::Done((value, end)) => if members.contains_key(name) {
                            Reading::Failed(ErrorModel::MultipleKeys(name))
                        } else if pos < end <= t.len() {
                            members_read(t, end, depth, members.insert(name, value), None)
                        } else {
                            Reading::Unhandled(next)
                        },
                        Reading::Failed(error) => Reading::Failed(error),
                        Reading::Unhandled(kind) => Reading::Unhandled(kind),
                    }
                } else if scalar(next) || next == TokenType::EOF {
                    members_read(t, pos + 1, depth, members, key)
                } else {
                    wrong
                },
            },
            TokenType::SquareBraceOpen => Reading::Unhandled(current.kind),
            TokenType::SquareBraceClose => Reading::Unhandled(current.kind),
            TokenType::EOF => Reading::Unhandled(current.kind),
            _ => match scalar_of(current) {
                Err(error) => Reading::Failed(error),
                Ok(value) => match (key, value) {
                    (None, JsonModel::String(name)) => if next == TokenType::Colon {
                        members_read(t, pos + 1, depth, members, Some(name))
                    } else {
                        wrong
                    },
                    (None, _) => wrong,
                    (Some(name), _) => if members.contains_key(name) {
                        Reading::Failed(ErrorModel::MultipleKeys(name))
                    } else if next == TokenType::Comma || next == TokenType::CurvedBraceClose {
                        members_read(t, pos + 1, depth, members.insert(name, value), None)
                    } else {
                        wrong
                    },
                },
            },
        }
    }
}

/// The array that starts at `pos`, `depth` objects and arrays deep, and the place after it.
pub open spec fn array_read(t: Seq<Lexeme>, pos: int, depth: int) -> Reading<
    (JsonModel, int),
    ErrorModel,
>
    decreases t.len() - pos, 1int,
{
    if depth >= MAX_DEPTH {
        Reading::Failed(ErrorModel::MaxDepthExceeded)
    } else {
        items_read(t, pos, depth, Seq::empty())
    }
}

/// The array of which `items` were read before `pos`. Reading stops where the token at `pos` has none
/// after it.
pub open spec fn items_read(t: Seq<Lexeme>, pos: int, depth: int, items: Seq<JsonModel>) -> Reading<
    (JsonModel, int),
    ErrorModel,
>
    decreases t.len() - pos, 0int,
{
    if pos + 1 >= t.len() {
        Reading::Done((JsonModel::Array(items), pos))
    } else {
        let current = t[pos];
        let next = t[pos + 1].kind;
        let wrong = Reading::Failed(ErrorModel::WrongToken { got: current.kind });
        if current.kind == TokenType::SquareBraceOpen || current.kind == TokenType::Comma {
            if opening(next) {
                match container_read(t, pos + 1, depth + 1) {
                    Reading::Done((value, end)) => if pos < end <= t.len() {
                        items_read(t, end, depth, items.push(value))
                    } else {
                        Reading::Unhandled(next)
                    },
                    Reading::Failed(error) => Reading::Failed(error),
                    Reading::Unhandled(kind) => Reading::Unhandled(kind),
                }
            } else if scalar(next) || (current.kind == TokenType::SquareBraceOpen && next
                == TokenType::SquareBraceClose) {
                items_read(t, pos + 1, depth, items)
            } else {
                wrong
            }
        } else if current.kind == TokenType::SquareBraceClose {
            if follows_value(next) {
                Reading::Done((JsonModel::Array(items), pos + 1))
            } else {
                wrong
            }
        } else if scalar(current.kind) {
            match scalar_of(current) {
                Err(error) => Reading::Failed(error),
                Ok(value) => if next == TokenType::Comma || next == TokenType::SquareBraceClose {
                    items_read(t, pos + 1, depth, items.push(value))
                } else {
                    wrong
                },
            }
        } else {
            Reading::Unhandled(current.kind)
        }
    }
}

/// The value that the tokens of a whole text stand for.
pub open spec fn document_read(t: Seq<Lexeme>) -> Reading<JsonModel, ErrorModel> {
    if t.len() < 2 {
        Reading::Failed(ErrorModel::EmptyFile)
    } else if !opening(t[0].kind) {
        Reading::Failed(ErrorModel::WrongToken { got: t[0].kind })
    } else {
        match container_read(t, 0, 1) {
            Reading::Done((value, end)) => if end + 1 < t.len() {
                Reading::Failed(ErrorModel::WrongToken { got: t[end].kind })
            } else {
                Reading::Done(value)
            },
            Reading::Failed(error) => Reading::Failed(error),
            Reading::Unhandled(kind) => Reading::Unhandled(kind),
        }
    }
}

/// The value that a text stands for.
pub open spec fn text_read(text: Seq<char>) -> Reading<JsonModel, ErrorModel> {
    match lexed(text) {
        Ok(t) => document_read(t),
        Err(error) => Reading::Failed(error),
    }
}

/// Reading never goes back.
pub proof fn lemma_container_read_end(t: Seq<Lexeme>, pos: int, depth: int)
    requires
        0 <= pos <= t.len(),
    ensures
        container_read(t, pos, depth) matches Reading::Done((_, end)) ==> pos <= end <= t.len(),
    decreases t.len() - pos, 2int,
{
    if t[pos].kind == TokenType::CurvedBraceOpen {
        if depth < MAX_DEPTH {
            lemma_members_read_end(t, pos, depth, Map::empty(), None);
        }
    } else {
        if depth < MAX_DEPTH {
            lemma_items_read_end(t, pos, depth, Seq::empty());
        }
    }
}

pub proof fn lemma_members_read_end(
    t: Seq<Lexeme>,
    pos: int,
    depth: int,
    members: Map<Seq<char>, JsonModel>,
    key: Option<Seq<char>>,
)
    requires
        0 <= pos <= t.len(),
    ensures
        members_read(t, pos, depth, members, key) matches Reading::Done((_, end)) ==> pos <= end
            <= t.len(),
    decreases t.len() - pos, 0int,
{
    if pos + 1 < t.len() {
        let current = t[pos];
        lemma_members_read_end(t, pos + 1, depth, members, key);
        if let Some(name) = key {
            if opening(t[pos + 1].kind) {
                lemma_container_read_end(t, pos + 1, depth + 1);
                if let Reading::Done((value, end)) = container_read(t, pos + 1, depth + 1) {
                    lemma_members_read_end(t, end, depth, members.insert(name, value), None);
                }
            }
            if let Ok(value) = scalar_of(current) {
                lemma_members_read_end(t, pos + 1, depth, members.insert(name, value), None);
            }
        } else {
            if let Ok(JsonModel::String(name)) = scalar_of(current) {
                lemma_members_read_end(t, pos + 1, depth, members, Some(name));
            }
        }
    }
}

pub proof fn lemma_items_read_end(t: Seq<Lexeme>, pos: int, depth: int, items: Seq<JsonModel>)
    requires
        0 <= pos <= t.len(),
    ensures
        items_read(t, pos, depth, items) matches Reading::Done((_, end)) ==> pos <= end <= t.len(),
    decreases t.len() - pos, 0int,
{
    if pos + 1 < t.len() {
        lemma_items_read_end(t, pos + 1, depth, items);
        if opening(t[pos + 1].kind) {
            lemma_container_read_end(t, pos + 1, depth + 1);
            if let Reading::Done((value, end)) = container_read(t, pos + 1, depth + 1) {
                lemma_items_read_end(t, end, depth, items.push(value));
            }
        }
        if let Ok(value) = scalar_of(t[pos]) {
            lemma_items_read_end(t, pos + 1, depth, items.push(value));
        }
    }
}

/// `reading` is what `expected` says.
pub open spec fn agrees(
    reading: Reading<(JsonValue, usize), JsonError>,
    expected: Reading<(JsonModel, int), ErrorModel>,
) -> bool {
    match reading {
        Reading::Done((value, end)) => expected == Reading::<(JsonModel, int), ErrorModel>::Done(
            (value@, end as int),
        ),
        Reading::Failed(error) => expected == Reading::<(JsonModel, int), ErrorModel>::Failed(
            error@,
        ),
        Reading::Unhandled(kind) => expected == Reading::<(JsonModel, int), ErrorModel>::Unhandled(
            kind,
        ),
    }
}

/// `reading` is what `expected` says.
pub open spec fn agrees_as_whole(
    reading: Reading<JsonValue, JsonError>,
    expected: Reading<JsonModel, ErrorModel>,
) -> bool {
    match reading {
        Reading::Done(value) => expected == Reading::<JsonModel, ErrorModel>::Done(value@),
        Reading::Failed(error) => expected == Reading::<JsonModel, ErrorModel>::Failed(error@),
        Reading::Unhandled(kind) => expected == Reading::<JsonModel, ErrorModel>::Unhandled(kind),
    }
}

fn is_scalar(kind: TokenType) -> (result: bool)
    ensures
        result == scalar(kind),
{
    match kind {
        TokenType::String
        | TokenType::Integer
        | TokenType::Float
        | TokenType::Bool
        | TokenType::Null => true,
        _ => false,
    }
}

fn can_follow_value(kind: TokenType) -> (result: bool)
    ensures
        result == follows_value(kind),
{
    match kind {
        TokenType::SquareBraceClose
        | TokenType::Comma
        | TokenType::CurvedBraceClose
        | TokenType::EOF => true,
        _ => false,
    }
}

/// The value that a token is by itself.
fn scalar_value(token: &Token<'_>) -> (result: Result<JsonValue, JsonError>)
    requires
        well_formed(token@),
    ensures
        match result {
            Ok(value) => scalar_of(token@) == Ok::<JsonModel, ErrorModel>(value@),
            Err(error) => scalar_of(token@) == Err::<JsonModel, ErrorModel>(error@),
        },
{
    match token.token_type {
        TokenType::String => match token.string_value() {
            Ok(text) => Ok(JsonValue::String(text)),
            Err(error) => Err(error),
        },
        TokenType::Integer => match token.integer_value() {
            Ok(number) => Ok(JsonValue::Integer(number)),
            Err(error) => Err(error),
        },
        TokenType::Float => match token.float_value() {
            Ok(number) => Ok(JsonValue::Float(number)),
            Err(error) => Err(error),
        },
        TokenType::Bool => match token.bool_value() {
            Ok(truth) => Ok(JsonValue::Boolean(truth)),
            Err(error) => Err(error),
        },
        TokenType::Null => Ok(JsonValue::Null),
        other => Err(JsonError::WrongToken { got: other }),
    }
}

impl JsonValue {
    /// The object or array that starts at `pos`, and the place after it.
    fn process_container(tokens: &Vec<Token<'_>>, pos: usize, depth: u8) -> (result: Reading<
        (JsonValue, usize),
        JsonError,
    >)
        requires
            pos < tokens@.len(),
            all_well_formed(lexemes(tokens@)),
        ensures
            agrees(result, container_read(lexemes(tokens@), pos as int, depth as int)),
        decreases tokens@.len() - pos, 2int,
    {
        assert(lexemes(tokens@)[pos as int] == tokens@[pos as int]@);
        if tokens[pos].token_type == TokenType::CurvedBraceOpen {
            Self::process_object(tokens, pos, depth)
        } else {
            Self::process_array(tokens, pos, depth)
        }
    }

    /// The object that starts at `pos`, `depth` objects and arrays deep, and the place after it.
    pub fn process_object(tokens: &Vec<Token<'_>>, pos: usize, depth: u8) -> (result: Reading<
        (JsonValue, usize),
        JsonError,
    >)
        requires
            pos <= tokens@.len(),
            all_well_formed(lexemes(tokens@)),
        ensures
            agrees(result, object_read(lexemes(tokens@), pos as int, depth as int)),
        decreases tokens@.len() - pos, 1int,
    {
        if depth >= MAX_DEPTH {
            return Reading::Failed(JsonError::MaxDepthExceeded);
        }
        let ghost t = lexemes(tokens@);
        let mut members: JsonObject = JsonObject::new();
        let mut key: Option<String> = None;
        let mut i: usize = pos;
        while i < tokens.len() && i + 1 < tokens.len()
            invariant
                pos <= i <= tokens@.len(),
                depth < MAX_DEPTH,
                t == lexemes(tokens@),
                all_well_formed(t),
                members_read(
                    t,
                    i as int,
                    depth as int,
                    members@,
                    match key {
                        Some(name) => Some(name@),
                        None => None,
                    },
                ) == object_read(t, pos as int, depth as int),
            decreases tokens@.len() - i,
        {
            let current: &Token<'_> = &tokens[i];
            let kind: TokenType = current.token_type;
            let next: TokenType = tokens[i + 1].token_type;
            assert(t[i as int] == current@);
            assert(t[i + 1].kind == next);
            match kind {
                TokenType::CurvedBraceOpen => {
                    if next != TokenType::CurvedBraceClose && next != TokenType::String {
                        return Reading::Failed(JsonError::WrongToken { got: kind });
                    }
                    i = i + 1;
                },
                TokenType::CurvedBraceClose => {
                    if can_follow_value(next) {
                        return Reading::Done((JsonValue::Object(members), i + 1));
                    }
                    return Reading::Failed(JsonError::WrongToken { got: kind });
                },
                TokenType::Comma => {
                    if key.is_some() || next != TokenType::String {
                        return Reading::Failed(JsonError::WrongToken { got: kind });
                    }
                    i = i + 1;
                },
                TokenType::Colon => {
                    match key {
                        None => {
                            return Reading::Failed(JsonError::WrongToken { got: kind });
                        },
                        Some(name) => {
                            if next == TokenType::CurvedBraceOpen || next
                                == TokenType::SquareBraceOpen {
                                proof {
                                    lemma_container_read_end(t, i + 1, depth + 1);
                                }
                                match Self::process_container(tokens, i + 1, depth + 1) {
                                    Reading::Done((value, end)) => {
                                        if members.insert(name.clone(), value).is_some() {
                                            return Reading::Failed(JsonError::MultipleKeys(name));
                                        }
                                        key = None;
                                        i = end;
                                    },
                                    Reading::Failed(error) => {
                                        return Reading::Failed(error);
                                    },
                                    Reading::Unhandled(other) => {
                                        return Reading::Unhandled(other);
                                    },
                                }
                            } else if is_scalar(next) || next == TokenType::EOF {
                                key = Some(name);
                                i = i + 1;
                            } else {
                                return Reading::Failed(JsonError::WrongToken { got: kind });
                            }
                        },
                    }
                },
                TokenType::SquareBraceOpen | TokenType::SquareBraceClose | TokenType::EOF => {
                    return Reading::Unhandled(kind);
                },
                _ => {
                    let value: JsonValue = match scalar_value(current) {
                        Ok(value) => value,
                        Err(error) => {
                            return Reading::Failed(error);
                        },
                    };
                    match key {
                        None => match value {
                            JsonValue::String(name) => {
                                if next != TokenType::Colon {
                                    return Reading::Failed(JsonError::WrongToken { got: kind });
                                }
                                key = Some(name);
                            },
                            _ => {
                                return Reading::Failed(JsonError::WrongToken { got: kind });
                            },
                        },
                        Some(name) => {
                            if members.insert(name.clone(), value).is_some() {
                                return Reading::Failed(JsonError::MultipleKeys(name));
                            }
                            if next != TokenType::Comma && next != TokenType::CurvedBraceClose {
                                return Reading::Failed(JsonError::WrongToken { got: kind });
                            }
                            key = None;
                        },
                    }
                    i = i + 1;
                },
            }
        }
        Reading::Done((JsonValue::Object(members), i))
    }

    /// The array that starts at `pos`, `depth` objects and arrays deep, and the place after it.
    pub fn process_array(tokens: &Vec<Token<'_>>, pos: usize, depth: u8) -> (result: Reading<
        (JsonValue, usize),
        JsonError,
    >)
        requires
            pos <= tokens@.len(),
            all_well_formed(lexemes(tokens@)),
        ensures
            agrees(result, array_read(lexemes(tokens@), pos as int, depth as int)),
        decreases tokens@.len() - pos, 1int,
    {
        if depth >= MAX_DEPTH {
            return Reading::Failed(JsonError::MaxDepthExceeded);
        }
        let ghost t = lexemes(tokens@);
        let mut items: Vec<JsonValue> = Vec::new();
        let mut i: usize = pos;
        while i < tokens.len() && i + 1 < tokens.len()
            invariant
                pos <= i <= tokens@.len(),
                depth < MAX_DEPTH,
                t == lexemes(tokens@),
                all_well_formed(t),
                items_read(t, i as int, depth as int, models(items@)) == array_read(
                    t,
                    pos as int,
                    depth as int,
                ),
            decreases tokens@.len() - i,
        {
            let current: &Token<'_> = &tokens[i];
            let kind: TokenType = current.token_type;
            let next: TokenType = tokens[i + 1].token_type;
            let ghost before = items@;
            assert(t[i as int] == current@);
            assert(t[i + 1].kind == next);
            match kind {
                TokenType::SquareBraceOpen | TokenType::Comma => {
                    if next == TokenType::CurvedBraceOpen || next == TokenType::SquareBraceOpen {
                        proof {
                            lemma_container_read_end(t, i + 1, depth + 1);
                        }
                        match Self::process_container(tokens, i + 1, depth + 1) {
                            Reading::Done((value, end)) => {
                                items.push(value);
                                assert(items@.drop_last() =~= before);
                                i = end;
                            },
                            Reading::Failed(error) => {
                                return Reading::Failed(error);
                            },
                            Reading::Unhandled(other) => {
                                return Reading::Unhandled(other);
                            },
                        }
                    } else if is_scalar(next) || (kind == TokenType::SquareBraceOpen && next
                        == TokenType::SquareBraceClose) {
                        i = i + 1;
                    } else {
                        return Reading::Failed(JsonError::WrongToken { got: kind });
                    }
                },
                TokenType::SquareBraceClose => {
                    if can_follow_value(next) {
                        return Reading::Done((JsonValue::Array(items), i + 1));
                    }
                    return Reading::Failed(JsonError::WrongToken { got: kind });
                },
                TokenType::CurvedBraceOpen
                | TokenType::CurvedBraceClose
                | TokenType::Colon
                | TokenType::EOF => {
                    return Reading::Unhandled(kind);
                },
                _ => {
                    match scalar_value(current) {
                        Ok(value) => {
                            items.push(value);
                            assert(items@.drop_last() =~= before);
                        },
                        Err(error) => {
                            return Reading::Failed(error);
                        },
                    }
                    if next != TokenType::Comma && next != TokenType::SquareBraceClose {
                        return Reading::Failed(JsonError::WrongToken { got: kind });
                    }
                    i = i + 1;
                },
            }
        }
        Reading::Done((JsonValue::Array(items), i))
    }

    /// The value that the tokens of a whole text stand for.
    pub fn process_document(tokens: &Vec<Token<'_>>) -> (result: Reading<JsonValue, JsonError>)
        requires
            all_well_formed(lexemes(tokens@)),
        ensures
            agrees_as_whole(result, document_read(lexemes(tokens@))),
    {
        if tokens.len() < 2 {
            return Reading::Failed(JsonError::EmptyFile);
        }
        let ghost t = lexemes(tokens@);
        let first: TokenType = tokens[0].token_type;
        assert(t[0].kind == first);
        if first != TokenType::CurvedBraceOpen && first != TokenType::SquareBraceOpen {
            return Reading::Failed(JsonError::WrongToken { got: first });
        }
        proof {
            lemma_container_read_end(t, 0, 1);
        }
        match Self::process_container(tokens, 0, 1) {
            Reading::Done((value, end)) => {
                if end < tokens.len() && end + 1 < tokens.len() {
                    assert(t[end as int].kind == tokens@[end as int].token_type);
                    Reading::Failed(JsonError::WrongToken { got: tokens[end].token_type })
                } else {
                    Reading::Done(value)
                }
            },
            Reading::Failed(error) => Reading::Failed(error),
            Reading::Unhandled(kind) => Reading::Unhandled(kind),
        }
    }

    /// The value that the text `str` stands for, or what is wrong with it. The text may not be one in
    /// which a token stands where the reader has no rule for it.
    pub fn build_from_string(str: &str) -> (result: Result<Self, JsonError>)
        requires
            !(text_read(str@) is Unhandled),
        ensures
            match result {
                Ok(value) => text_read(str@) == Reading::<JsonModel, ErrorModel>::Done(value@),
                Err(error) => text_read(str@) == Reading::<JsonModel, ErrorModel>::Failed(error@),
            },
    {
        let tokens: Vec<Token<'_>> = match Self::parse_tokens(str) {
            Ok(tokens) => tokens,
            Err(error) => {
                return Err(error);
            },
        };
        match Self::process_document(&tokens) {
            Reading::Done(value) => Ok(value),
            Reading::Failed(error) => Err(error),
            Reading::Unhandled(kind) => Err(JsonError::WrongToken { got: kind }),
        }
    }

    /// What `build_from_string` gives on the text `str`, or the token in it that stands where the
    /// reader has no rule for it.
    pub fn checked_build_from_string(str: &str) -> (result: Reading<Self, JsonError>)
        ensures
            agrees_as_whole(result, text_read(str@)),
    {
        if let Ok(tokens) = Self::parse_tokens(str) {
            if let Reading::Unhandled(kind) = Self::process_document(&tokens) {
                return Reading::Unhandled(kind);
            }
        }
        match Self::build_from_string(str) {
            Ok(value) => Reading::Done(value),
            Err(error) => Reading::Failed(error),
        }
    }
}

} // verus!
