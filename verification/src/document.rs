//! JSON documents as they are written, and what the reader makes of them.

use crate::error::{ErrorModel, MAX_DEPTH};
use crate::lexer::end_mark;
use crate::parser::{
    array_read, container_read, document_read, items_read, members_read, object_read,
    scalar, scalar_of, Reading,
};
use crate::token::{string_of, Lexeme, TokenType};
use crate::value::JsonModel;
use vstd::prelude::*;

verus! {

/// A JSON value as it is written: a token, the members of an object in their order, each a key and a
/// value, or the items of an array.
pub enum Document {
    Scalar(Lexeme),
    Object(Seq<(Lexeme, Document)>),
    Array(Seq<Document>),
}

pub open spec fn open_brace() -> Lexeme {
    Lexeme { kind: TokenType::CurvedBraceOpen, text: seq!['{'] }
}

pub open spec fn close_brace() -> Lexeme {
    Lexeme { kind: TokenType::CurvedBraceClose, text: seq!['}'] }
}

pub open spec fn open_bracket() -> Lexeme {
    Lexeme { kind: TokenType::SquareBraceOpen, text: seq!['['] }
}

pub open spec fn close_bracket() -> Lexeme {
    Lexeme { kind: TokenType::SquareBraceClose, text: seq![']'] }
}

pub open spec fn comma() -> Lexeme {
    Lexeme { kind: TokenType::Comma, text: seq![','] }
}

pub open spec fn colon() -> Lexeme {
    Lexeme { kind: TokenType::Colon, text: seq![':'] }
}

/// The tokens that a document is written with.
pub open spec fn document_tokens(d: Document) -> Seq<Lexeme>
    decreases d,
{
    match d {
        Document::Scalar(lexeme) => seq![lexeme],
        Document::Object(members) => seq![open_brace()] + members_tokens(members) + seq![
            close_brace(),
        ],
        Document::Array(items) => seq![open_bracket()] + items_tokens(items) + seq![
            close_bracket(),
        ],
    }
}

/// The tokens of the members of an object, with commas between them.
pub open spec fn members_tokens(members: Seq<(Lexeme, Document)>) -> Seq<Lexeme>
    decreases members,
{
    if members.len() == 0 {
        Seq::empty()
    } else {
        let first = seq![members[0].0, colon()] + document_tokens(members[0].1);
        if members.len() == 1 {
            first
        } else {
            first + seq![comma()] + members_tokens(members.skip(1))
        }
    }
}

/// The tokens of the items of an array, with commas between them.
pub open spec fn items_tokens(items: Seq<Document>) -> Seq<Lexeme>
    decreases items,
{
    if items.len() == 0 {
        Seq::empty()
    } else {
        let first = document_tokens(items[0]);
        if items.len() == 1 {
            first
        } else {
            first + seq![comma()] + items_tokens(items.skip(1))
        }
    }
}

/// Every key is a string token, and every other token that is no punctuation is a value by itself.
pub open spec fn proper(d: Document) -> bool
    decreases d,
{
    match d {
        Document::Scalar(lexeme) => scalar(lexeme.kind),
        Document::Object(members) => members_proper(members),
        Document::Array(items) => items_proper(items),
    }
}

/// Every key is a string token, and every value is proper.
pub open spec fn members_proper(members: Seq<(Lexeme, Document)>) -> bool
    decreases members,
{
    members.len() > 0 ==> {
        &&& members[0].0.kind == TokenType::String
        &&& proper(members[0].1)
        &&& members_proper(members.skip(1))
    }
}

/// Every item is proper.
pub open spec fn items_proper(items: Seq<Document>) -> bool
    decreases items,
{
    items.len() > 0 ==> proper(items[0]) && items_proper(items.skip(1))
}

/// The value of a document `depth` objects and arrays deep, or what is wrong with it first: a token
/// that stands for no value, a key that occurs twice, or an object or array too deep inside others.
pub open spec fn evaluated(d: Document, depth: int) -> Result<JsonModel, ErrorModel>
    decreases d,
{
    match d {
        Document::Scalar(lexeme) => scalar_of(lexeme),
        Document::Object(members) => if depth >= MAX_DEPTH {
            Err(ErrorModel::MaxDepthExceeded)
        } else {
            match members_evaluated(members, depth, Map::empty()) {
                Ok(values) => Ok(JsonModel::Object(values)),
                Err(error) => Err(error),
            }
        },
        Document::Array(items) => if depth >= MAX_DEPTH {
            Err(ErrorModel::MaxDepthExceeded)
        } else {
            match items_evaluated(items, depth, Seq::empty()) {
                Ok(values) => Ok(JsonModel::Array(values)),
                Err(error) => Err(error),
            }
        },
    }
}

/// The values of `members` by key, in addition to those `before`.
pub open spec fn members_evaluated(
    members: Seq<(Lexeme, Document)>,
    depth: int,
    before: Map<Seq<char>, JsonModel>,
) -> Result<Map<Seq<char>, JsonModel>, ErrorModel>
    decreases members,
{
    if members.len() == 0 {
        Ok(before)
    } else {
        match string_of(members[0].0) {
            Err(error) => Err(error),
            Ok(name) => match evaluated(members[0].1, depth + 1) {
                Err(error) => Err(error),
                Ok(value) => if before.contains_key(name) {
                    Err(ErrorModel::MultipleKeys(name))
                } else {
                    members_evaluated(members.skip(1), depth, before.insert(name, value))
                },
            },
        }
    }
}

/// The values of `items` in their order, after those `before`.
pub open spec fn items_evaluated(items: Seq<Document>, depth: int, before: Seq<JsonModel>) -> Result<
    Seq<JsonModel>,
    ErrorModel,
>
    decreases items,
{
    if items.len() == 0 {
        Ok(before)
    } else {
        match evaluated(items[0], depth + 1) {
            Err(error) => Err(error),
            Ok(value) => items_evaluated(items.skip(1), depth, before.push(value)),
        }
    }
}

/// `part` stands in `t` at `pos`.
pub open spec fn stands_at(t: Seq<Lexeme>, pos: int, part: Seq<Lexeme>) -> bool {
    0 <= pos && pos + part.len() <= t.len() && t.subrange(pos, pos + part.len()) == part
}

pub proof fn lemma_parts(t: Seq<Lexeme>, pos: int, a: Seq<Lexeme>, b: Seq<Lexeme>)
    requires
        stands_at(t, pos, a + b),
    ensures
        stands_at(t, pos, a),
        stands_at(t, pos + a.len(), b),
{
    let whole = t.subrange(pos, pos + (a + b).len());
    assert(t.subrange(pos, pos + a.len()) =~= whole.subrange(0, a.len() as int));
    assert((a + b).subrange(0, a.len() as int) =~= a);
    assert(t.subrange(pos + a.len(), pos + a.len() + b.len()) =~= whole.subrange(
        a.len() as int,
        (a + b).len() as int,
    ));
    assert((a + b).subrange(a.len() as int, (a + b).len() as int) =~= b);
}

pub proof fn lemma_one(t: Seq<Lexeme>, pos: int, lexeme: Lexeme)
    requires
        stands_at(t, pos, seq![lexeme]),
    ensures
        t[pos] == lexeme,
{
    assert(t.subrange(pos, pos + 1)[0] == t[pos]);
}

/// What reading gives where a value or an error comes out and the reader ends at `end`.
pub open spec fn as_reading(result: Result<JsonModel, ErrorModel>, end: int) -> Reading<
    (JsonModel, int),
    ErrorModel,
> {
    match result {
        Ok(value) => Reading::Done((value, end)),
        Err(error) => Reading::Failed(error),
    }
}

/// The kind of token that closes a document that is an object or an array.
pub open spec fn closing_kind(d: Document) -> TokenType {
    if d is Object {
        TokenType::CurvedBraceClose
    } else {
        TokenType::SquareBraceClose
    }
}

/// The kinds of tokens that come after an object or array that is closed.
pub open spec fn ends_value(kind: TokenType) -> bool {
    ||| kind == TokenType::CurvedBraceClose
    ||| kind == TokenType::SquareBraceClose
    ||| kind == TokenType::Comma
    ||| kind == TokenType::EOF
}

/// What reading gives where a value or an error comes out, the token at `end` is of kind `next`, and the
/// one before it closed the value: unless `next` may follow a value, the closing token is wrong there.
pub open spec fn closed_reading(
    result: Result<JsonModel, ErrorModel>,
    close: TokenType,
    next: TokenType,
    end: int,
) -> Reading<(JsonModel, int), ErrorModel> {
    if result is Ok && !ends_value(next) {
        Reading::Failed(ErrorModel::WrongToken { got: close })
    } else {
        as_reading(result, end)
    }
}

/// The first token of a document tells what it is.
pub proof fn lemma_first_token(d: Document)
    requires
        proper(d),
    ensures
        document_tokens(d).len() > 0,
        d is Scalar ==> document_tokens(d).len() == 1 && scalar(document_tokens(d)[0].kind),
        d is Object ==> document_tokens(d)[0] == open_brace(),
        d is Array ==> document_tokens(d)[0] == open_bracket(),
{
}

pub proof fn lemma_container(t: Seq<Lexeme>, pos: int, d: Document, depth: int)
    requires
        proper(d),
        !(d is Scalar),
        stands_at(t, pos, document_tokens(d)),
        pos + document_tokens(d).len() < t.len(),
    ensures
        container_read(t, pos, depth) == closed_reading(
            evaluated(d, depth),
            closing_kind(d),
            t[pos + document_tokens(d).len()].kind,
            pos + document_tokens(d).len(),
        ),
    decreases d, 1int,
{
    match d {
        Document::Scalar(_) => {},
        Document::Object(members) => {
            lemma_parts(
                t,
                pos,
                seq![open_brace()] + members_tokens(members),
                seq![close_brace()],
            );
            lemma_parts(t, pos, seq![open_brace()], members_tokens(members));
            lemma_one(t, pos, open_brace());
            lemma_one(t, pos + 1 + members_tokens(members).len(), close_brace());
            if depth < MAX_DEPTH {
                if members.len() > 0 {
                    lemma_members(t, pos, members, depth, Map::empty());
                } else {
                    assert(members_read(t, pos, depth, Map::empty(), None) == members_read(
                        t,
                        pos + 1,
                        depth,
                        Map::empty(),
                        None,
                    ));
                }
            }
        },
        Document::Array(items) => {
            lemma_parts(
                t,
                pos,
                seq![open_bracket()] + items_tokens(items),
                seq![close_bracket()],
            );
            lemma_parts(t, pos, seq![open_bracket()], items_tokens(items));
            lemma_one(t, pos, open_bracket());
            lemma_one(t, pos + 1 + items_tokens(items).len(), close_bracket());
            if depth < MAX_DEPTH {
                if items.len() > 0 {
                    lemma_items(t, pos, items, depth, Seq::empty());
                } else {
                    assert(items_read(t, pos, depth, Seq::empty()) == items_read(
                        t,
                        pos + 1,
                        depth,
                        Seq::empty(),
                    ));
                }
            }
        },
    }
}

proof fn lemma_items(
    t: Seq<Lexeme>,
    pos: int,
    items: Seq<Document>,
    depth: int,
    before: Seq<JsonModel>,
)
    requires
        0 <= pos,
        items.len() > 0,
        items_proper(items),
        depth < MAX_DEPTH,
        t[pos].kind == TokenType::SquareBraceOpen || t[pos].kind == TokenType::Comma,
        stands_at(t, pos + 1, items_tokens(items)),
        pos + items_tokens(items).len() + 2 < t.len(),
        t[pos + 1 + items_tokens(items).len()] == close_bracket(),
    ensures
        items_read(t, pos, depth, before) == closed_reading(
            match items_evaluated(items, depth, before) {
                Ok(values) => Ok(JsonModel::Array(values)),
                Err(error) => Err(error),
            },
            TokenType::SquareBraceClose,
            t[pos + items_tokens(items).len() + 2].kind,
            pos + items_tokens(items).len() + 2,
        ),
    decreases items, 0int,
{
    let first = document_tokens(items[0]);
    let rest = items.skip(1);
    let end = pos + 1 + first.len();
    lemma_first_token(items[0]);
    if items.len() > 1 {
        lemma_parts(t, pos + 1, first + seq![comma()], items_tokens(rest));
        lemma_parts(t, pos + 1, first, seq![comma()]);
        lemma_one(t, end, comma());
    }
    assert(t.subrange(pos + 1, end)[0] == t[pos + 1]);
    assert(t[end].kind == TokenType::Comma || t[end].kind == TokenType::SquareBraceClose);
    let value = evaluated(items[0], depth + 1);
    if items[0] is Scalar {
        assert(t[pos + 1] == items[0]->Scalar_0);
        assert(items_read(t, pos, depth, before) == items_read(t, pos + 1, depth, before));
    } else {
        lemma_container(t, pos + 1, items[0], depth + 1);
    }
    if value is Ok {
        let so_far = before.push(value->Ok_0);
        assert(items_read(t, pos, depth, before) == items_read(t, end, depth, so_far));
        assert(items_evaluated(items, depth, before) == items_evaluated(rest, depth, so_far));
        if items.len() > 1 {
            lemma_items(t, end, rest, depth, so_far);
        } else {
            assert(rest.len() == 0);
            assert(items_evaluated(rest, depth, so_far) == Ok::<Seq<JsonModel>, ErrorModel>(so_far));
            assert(items_read(t, end, depth, so_far) == closed_reading(
                Ok(JsonModel::Array(so_far)),
                TokenType::SquareBraceClose,
                t[end + 1].kind,
                end + 1,
            ));
        }
    } else {
        assert(items_evaluated(items, depth, before) == Err::<Seq<JsonModel>, ErrorModel>(
            value->Err_0,
        ));
        assert(items_read(t, pos, depth, before) == Reading::<(JsonModel, int), ErrorModel>::Failed(
            value->Err_0,
        ));
    }
}

proof fn lemma_members(
    t: Seq<Lexeme>,
    pos: int,
    members: Seq<(Lexeme, Document)>,
    depth: int,
    before: Map<Seq<char>, JsonModel>,
)
    requires
        0 <= pos,
        members.len() > 0,
        members_proper(members),
        depth < MAX_DEPTH,
        t[pos].kind == TokenType::CurvedBraceOpen || t[pos].kind == TokenType::Comma,
        stands_at(t, pos + 1, members_tokens(members)),
        pos + members_tokens(members).len() + 2 < t.len(),
        t[pos + 1 + members_tokens(members).len()] == close_brace(),
    ensures
        members_read(t, pos, depth, before, None) == closed_reading(
            match members_evaluated(members, depth, before) {
                Ok(values) => Ok(JsonModel::Object(values)),
                Err(error) => Err(error),
            },
            TokenType::CurvedBraceClose,
            t[pos + members_tokens(members).len() + 2].kind,
            pos + members_tokens(members).len() + 2,
        ),
    decreases members, 0int,
{
    let (key, d) = members[0];
    let own = document_tokens(d);
    let first = seq![key, colon()] + own;
    let rest = members.skip(1);
    let end = pos + 1 + first.len();
    lemma_first_token(d);
    if members.len() > 1 {
        lemma_parts(t, pos + 1, first + seq![comma()], members_tokens(rest));
        lemma_parts(t, pos + 1, first, seq![comma()]);
        lemma_one(t, end, comma());
    }
    lemma_parts(t, pos + 1, seq![key, colon()], own);
    assert(t.subrange(pos + 1, pos + 3)[0] == t[pos + 1]);
    assert(t.subrange(pos + 1, pos + 3)[1] == t[pos + 2]);
    assert(t.subrange(pos + 3, end)[0] == t[pos + 3]);
    assert(t[pos + 1] == key);
    assert(t[pos + 2] == colon());
    assert(t[end].kind == TokenType::Comma || t[end].kind == TokenType::CurvedBraceClose);
    assert(members_read(t, pos, depth, before, None) == members_read(
        t,
        pos + 1,
        depth,
        before,
        None,
    ));
    if let Ok(name) = string_of(key) {
        assert(members_read(t, pos + 1, depth, before, None) == members_read(
            t,
            pos + 2,
            depth,
            before,
            Some(name),
        ));
        let value = evaluated(d, depth + 1);
        if d is Scalar {
            assert(t[pos + 3] == d->Scalar_0);
            assert(members_read(t, pos + 2, depth, before, Some(name)) == members_read(
                t,
                pos + 3,
                depth,
                before,
                Some(name),
            ));
        } else {
            lemma_container(t, pos + 3, d, depth + 1);
        }
        if value is Ok && !before.contains_key(name) {
            let so_far = before.insert(name, value->Ok_0);
            assert(members_read(t, pos + 2, depth, before, Some(name)) == members_read(
                t,
                end,
                depth,
                so_far,
                None,
            ));
            assert(members_evaluated(members, depth, before) == members_evaluated(
                rest,
                depth,
                so_far,
            ));
            if members.len() > 1 {
                lemma_members(t, end, rest, depth, so_far);
            } else {
                assert(rest.len() == 0);
                assert(members_evaluated(rest, depth, so_far) == Ok::<
                    Map<Seq<char>, JsonModel>,
                    ErrorModel,
                >(so_far));
                assert(members_read(t, end, depth, so_far, None) == closed_reading(
                    Ok(JsonModel::Object(so_far)),
                    TokenType::CurvedBraceClose,
                    t[end + 1].kind,
                    end + 1,
                ));
            }
        } else {
            let error = if value is Err {
                value->Err_0
            } else {
                ErrorModel::MultipleKeys(name)
            };
            assert(members_evaluated(members, depth, before) == Err::<
                Map<Seq<char>, JsonModel>,
                ErrorModel,
            >(error));
            assert(members_read(t, pos + 2, depth, before, Some(name)) == Reading::<
                (JsonModel, int),
                ErrorModel,
            >::Failed(error));
        }
    }
}

/// An object or array that stands in a row of tokens is read as its value `depth` objects and arrays
/// deep, and reading goes on with the token after it; or the first thing that is wrong with it is told.
/// If the token after it may not follow a value, the one that closes it is wrong.
pub proof fn law_container_is_read(t: Seq<Lexeme>, pos: int, d: Document, depth: int)
    requires
        proper(d),
        !(d is Scalar),
        stands_at(t, pos, document_tokens(d)),
        pos + document_tokens(d).len() < t.len(),
    ensures
        d is Object ==> object_read(t, pos, depth) == closed_reading(
            evaluated(d, depth),
            TokenType::CurvedBraceClose,
            t[pos + document_tokens(d).len()].kind,
            pos + document_tokens(d).len(),
        ),
        d is Array ==> array_read(t, pos, depth) == closed_reading(
            evaluated(d, depth),
            TokenType::SquareBraceClose,
            t[pos + document_tokens(d).len()].kind,
            pos + document_tokens(d).len(),
        ),
{
    lemma_first_token(d);
    assert(t.subrange(pos, pos + document_tokens(d).len())[0] == t[pos]);
    lemma_container(t, pos, d, depth);
}

/// The kind of the token that is wrong where a document is followed by a token of kind `next`: that
/// token, or the one that closes the document where no value may be followed by such a token.
pub open spec fn wrong_kind(d: Document, next: TokenType) -> TokenType {
    if ends_value(next) {
        next
    } else {
        closing_kind(d)
    }
}

/// A document that is an object or an array and has more tokens after it is refused: a token is wrong,
/// unless something is wrong with the document before.
pub proof fn law_tokens_after_document_are_refused(d: Document, more: Seq<Lexeme>)
    requires
        proper(d),
        !(d is Scalar),
        more.len() > 0,
    ensures
        document_read((document_tokens(d) + more).push(end_mark())) == Reading::<
            JsonModel,
            ErrorModel,
        >::Failed(
            match evaluated(d, 1) {
                Ok(_) => ErrorModel::WrongToken { got: wrong_kind(d, more[0].kind) },
                Err(error) => error,
            },
        ),
{
    let own = document_tokens(d);
    let t = (own + more).push(end_mark());
    lemma_first_token(d);
    assert(t.subrange(0, own.len() as int) =~= own);
    assert(t[own.len() as int] == more[0]);
    lemma_container(t, 0, d, 1);
}

/// The tokens of a document that is an object or an array are read as its value, or the first thing
/// that is wrong with it is told.
pub proof fn law_document_is_read(d: Document)
    requires
        proper(d),
        !(d is Scalar),
    ensures
        document_read(document_tokens(d).push(end_mark())) == (match evaluated(d, 1) {
            Ok(value) => Reading::<JsonModel, ErrorModel>::Done(value),
            Err(error) => Reading::<JsonModel, ErrorModel>::Failed(error),
        }),
{
    let t = document_tokens(d).push(end_mark());
    lemma_first_token(d);
    assert(t.subrange(0, document_tokens(d).len() as int) =~= document_tokens(d));
    lemma_container(t, 0, d, 1);
}

} // verus!
