//! Where reading goes wrong, and what becomes of objects and arrays that nothing closes.

use crate::document::{
    closing_kind, colon, comma, document_tokens, evaluated, items_evaluated, items_proper,
    items_tokens, lemma_container, lemma_first_token, lemma_one, lemma_parts, members_evaluated,
    members_proper, members_tokens, open_brace, open_bracket, proper, stands_at, Document,
};
use crate::error::{ErrorModel, JsonError, MAX_DEPTH};
use crate::lexer::end_mark;
use crate::parser::{
    agrees, agrees_as_whole, array_read, container_read, document_read, items_read,
    lemma_container_read_end, members_read, object_read, opening, scalar, scalar_of, Reading,
};
use crate::soundness::closing;
use crate::token::{string_of, Lexeme, TokenType};
use crate::value::{JsonModel, JsonValue};
use vstd::prelude::*;

verus! {

/// The kind of the last token of a document.
pub open spec fn last_kind(d: Document) -> TokenType {
    match d {
        Document::Scalar(lexeme) => lexeme.kind,
        _ => closing_kind(d),
    }
}

/// Whether a token of kind `next` may come after the value `d` in an object or array that is closed by a
/// token of kind `close`. After an object or array, the end and the other closing token are let through.
pub open spec fn may_follow(d: Document, next: TokenType, close: TokenType) -> bool {
    if d is Scalar {
        next == TokenType::Comma || next == close
    } else {
        ||| next == TokenType::Comma
        ||| next == TokenType::CurvedBraceClose
        ||| next == TokenType::SquareBraceClose
        ||| next == TokenType::EOF
    }
}

proof fn lemma_items_run(
    t: Seq<Lexeme>,
    pos: int,
    items: Seq<Document>,
    depth: int,
    before: Seq<JsonModel>,
)
    requires
        0 <= pos,
        items.len() > 0,
        items_proper(items),
        depth < MAX_DEPTH,
        t[pos].kind == TokenType::SquareBraceOpen || t[pos].kind == TokenType::Comma,
        stands_at(t, pos + 1, items_tokens(items)),
        pos + 1 + items_tokens(items).len() < t.len(),
        items_evaluated(items, depth, before) is Ok,
    ensures
        items_read(t, pos, depth, before) == (if may_follow(
            items.last(),
            t[pos + 1 + items_tokens(items).len()].kind,
            TokenType::SquareBraceClose,
        ) {
            items_read(
                t,
                pos + 1 + items_tokens(items).len(),
                depth,
                items_evaluated(items, depth, before)->Ok_0,
            )
        } else {
            Reading::Failed(ErrorModel::WrongToken { got: last_kind(items.last()) })
        }),
    decreases items.len(),
{
    let first = document_tokens(items[0]);
    let rest = items.skip(1);
    let end = pos + 1 + first.len();
    lemma_first_token(items[0]);
    if items.len() > 1 {
        lemma_parts(t, pos + 1, first + seq![comma()], items_tokens(rest));
        lemma_parts(t, pos + 1, first, seq![comma()]);
        lemma_one(t, end, comma());
    }
    assert(t.subrange(pos + 1, end)[0] == t[pos + 1]);
    let value = evaluated(items[0], depth + 1);
    assert(value is Ok);
    let so_far = before.push(value->Ok_0);
    if items[0] is Scalar {
        assert(t[pos + 1] == items[0]->Scalar_0);
        assert(items_read(t, pos, depth, before) == items_read(t, pos + 1, depth, before));
    } else {
        lemma_container(t, pos + 1, items[0], depth + 1);
    }
    assert(items_evaluated(items, depth, before) == items_evaluated(rest, depth, so_far));
    if items.len() > 1 {
        assert(items_read(t, pos, depth, before) == items_read(t, end, depth, so_far));
        lemma_items_run(t, end, rest, depth, so_far);
        assert(items.last() == rest.last());
    } else {
        assert(items.last() == items[0]);
        assert(rest.len() == 0);
        assert(items_evaluated(rest, depth, so_far) == Ok::<Seq<JsonModel>, ErrorModel>(so_far));
    }
}

proof fn lemma_members_run(
    t: Seq<Lexeme>,
    pos: int,
    members: Seq<(Lexeme, Document)>,
    depth: int,
    before: Map<Seq<char>, JsonModel>,
)
    requires
        0 <= pos,
        members.len() > 0,
        members_proper(members),
        depth < MAX_DEPTH,
        t[pos].kind == TokenType::CurvedBraceOpen || t[pos].kind == TokenType::Comma,
        stands_at(t, pos + 1, members_tokens(members)),
        pos + 1 + members_tokens(members).len() < t.len(),
        members_evaluated(members, depth, before) is Ok,
    ensures
        members_read(t, pos, depth, before, None) == (if may_follow(
            members.last().1,
            t[pos + 1 + members_tokens(members).len()].kind,
            TokenType::CurvedBraceClose,
        ) {
            members_read(
                t,
                pos + 1 + members_tokens(members).len(),
                depth,
                members_evaluated(members, depth, before)->Ok_0,
                None,
            )
        } else {
            Reading::Failed(ErrorModel::WrongToken { got: last_kind(members.last().1) })
        }),
    decreases members.len(),
{
    let (key, d) = members[0];
    let own = document_tokens(d);
    let first = seq![key, colon()] + own;
    let rest = members.skip(1);
    let end = pos + 1 + first.len();
    lemma_first_token(d);
    if members.len() > 1 {
        lemma_parts(t, pos + 1, first + seq![comma()], members_tokens(rest));
        lemma_parts(t, pos + 1, first, seq![comma()]);
        lemma_one(t, end, comma());
    }
    lemma_parts(t, pos + 1, seq![key, colon()], own);
    assert(t.subrange(pos + 3, end)[0] == t[pos + 3]);
    let name = string_of(key)->Ok_0;
    lemma_key(t, pos, key, depth, before);
    let value = evaluated(d, depth + 1);
    assert(value is Ok && !before.contains_key(name));
    let so_far = before.insert(name, value->Ok_0);
    if d is Scalar {
        assert(t[pos + 3] == d->Scalar_0);
        assert(members_read(t, pos + 2, depth, before, Some(name)) == members_read(
            t,
            pos + 3,
            depth,
            before,
            Some(name),
        ));
    } else {
        lemma_container(t, pos + 3, d, depth + 1);
    }
    assert(members_evaluated(members, depth, before) == members_evaluated(rest, depth, so_far));
    if members.len() > 1 {
        assert(members_read(t, pos, depth, before, None) == members_read(
            t,
            end,
            depth,
            so_far,
            None,
        ));
        lemma_members_run(t, end, rest, depth, so_far);
        assert(members.last() == rest.last());
    } else {
        assert(members.last() == members[0]);
        assert(rest.len() == 0);
        assert(members_evaluated(rest, depth, so_far) == Ok::<
            Map<Seq<char>, JsonModel>,
            ErrorModel,
        >(so_far));
    }
}

/// A key and a colon are read after a brace or a comma.
proof fn lemma_key(
    t: Seq<Lexeme>,
    pos: int,
    key: Lexeme,
    depth: int,
    before: Map<Seq<char>, JsonModel>,
)
    requires
        0 <= pos,
        pos + 3 < t.len(),
        t[pos].kind == TokenType::CurvedBraceOpen || t[pos].kind == TokenType::Comma,
        key.kind == TokenType::String,
        string_of(key) is Ok,
        stands_at(t, pos + 1, seq![key, colon()]),
    ensures
        t[pos + 1] == key,
        t[pos + 2] == colon(),
        members_read(t, pos, depth, before, None) == members_read(
            t,
            pos + 2,
            depth,
            before,
            Some(string_of(key)->Ok_0),
        ),
{
    assert(t.subrange(pos + 1, pos + 3)[0] == t[pos + 1]);
    assert(t.subrange(pos + 1, pos + 3)[1] == t[pos + 2]);
    assert(members_read(t, pos, depth, before, None) == members_read(
        t,
        pos + 1,
        depth,
        before,
        None,
    ));
}

/// The tokens of an array up to where its next item is due.
pub open spec fn items_opened(items: Seq<Document>) -> Seq<Lexeme> {
    if items.len() == 0 {
        seq![open_bracket()]
    } else {
        seq![open_bracket()] + items_tokens(items) + seq![comma()]
    }
}

/// The tokens of an object up to where its next key is due.
pub open spec fn members_opened(members: Seq<(Lexeme, Document)>) -> Seq<Lexeme> {
    if members.len() == 0 {
        seq![open_brace()]
    } else {
        seq![open_brace()] + members_tokens(members) + seq![comma()]
    }
}

/// The items can be read so far.
pub open spec fn sound_items(items: Seq<Document>, depth: int) -> bool {
    items_proper(items) && items_evaluated(items, depth, Seq::empty()) is Ok
}

/// The members can be read so far.
pub open spec fn sound_members(members: Seq<(Lexeme, Document)>, depth: int) -> bool {
    members_proper(members) && members_evaluated(members, depth, Map::empty()) is Ok
}

/// The key can be read.
pub open spec fn sound_key(key: Lexeme) -> bool {
    key.kind == TokenType::String && string_of(key) is Ok
}

proof fn lemma_items_opened(t: Seq<Lexeme>, pos: int, items: Seq<Document>, depth: int)
    requires
        0 <= pos,
        depth < MAX_DEPTH,
        sound_items(items, depth),
        stands_at(t, pos, items_opened(items)),
    ensures
        ({
            let at = pos + items_opened(items).len() - 1;
            &&& t[pos].kind == TokenType::SquareBraceOpen
            &&& t[at].kind == (if items.len() == 0 {
                TokenType::SquareBraceOpen
            } else {
                TokenType::Comma
            })
            &&& array_read(t, pos, depth) == items_read(
                t,
                at,
                depth,
                items_evaluated(items, depth, Seq::empty())->Ok_0,
            )
        }),
{
    if items.len() == 0 {
        lemma_one(t, pos, open_bracket());
    } else {
        lemma_parts(t, pos, seq![open_bracket()] + items_tokens(items), seq![comma()]);
        lemma_parts(t, pos, seq![open_bracket()], items_tokens(items));
        lemma_one(t, pos, open_bracket());
        lemma_one(t, pos + 1 + items_tokens(items).len(), comma());
        lemma_items_run(t, pos, items, depth, Seq::empty());
    }
}

proof fn lemma_members_opened(
    t: Seq<Lexeme>,
    pos: int,
    members: Seq<(Lexeme, Document)>,
    depth: int,
)
    requires
        0 <= pos,
        depth < MAX_DEPTH,
        sound_members(members, depth),
        stands_at(t, pos, members_opened(members)),
    ensures
        ({
            let at = pos + members_opened(members).len() - 1;
            &&& t[pos].kind == TokenType::CurvedBraceOpen
            &&& t[at].kind == (if members.len() == 0 {
                TokenType::CurvedBraceOpen
            } else {
                TokenType::Comma
            })
            &&& object_read(t, pos, depth) == members_read(
                t,
                at,
                depth,
                members_evaluated(members, depth, Map::empty())->Ok_0,
                None,
            )
        }),
{
    if members.len() == 0 {
        lemma_one(t, pos, open_brace());
    } else {
        lemma_parts(t, pos, seq![open_brace()] + members_tokens(members), seq![comma()]);
        lemma_parts(t, pos, seq![open_brace()], members_tokens(members));
        lemma_one(t, pos, open_brace());
        lemma_one(t, pos + 1 + members_tokens(members).len(), comma());
        lemma_members_run(t, pos, members, depth, Map::empty());
    }
}

/// An object or array that is not closed yet, up to where an object or array stands in it: an array with
/// the items before, or an object with the members before and the key.
pub enum Frame {
    Items(Seq<Document>),
    Members(Seq<(Lexeme, Document)>, Lexeme),
}

/// The tokens of what is not closed yet.
pub open spec fn frame_tokens(frame: Frame) -> Seq<Lexeme> {
    match frame {
        Frame::Items(items) => items_opened(items),
        Frame::Members(members, key) => members_opened(members) + seq![key, colon()],
    }
}

/// What is not closed yet can be read so far, `depth` objects and arrays deep.
pub open spec fn sound_frame(frame: Frame, depth: int) -> bool {
    match frame {
        Frame::Items(items) => sound_items(items, depth),
        Frame::Members(members, key) => sound_members(members, depth) && sound_key(key),
    }
}

/// The tokens of objects and arrays inside each other that are not closed yet, the outermost first.
pub open spec fn path_tokens(path: Seq<Frame>) -> Seq<Lexeme>
    decreases path.len(),
{
    if path.len() == 0 {
        Seq::empty()
    } else {
        frame_tokens(path[0]) + path_tokens(path.skip(1))
    }
}

/// All of them can be read so far, the outermost `depth` deep, and none is too deep.
pub open spec fn sound_path(path: Seq<Frame>, depth: int) -> bool
    decreases path.len(),
{
    path.len() > 0 ==> depth < MAX_DEPTH && sound_frame(path[0], depth) && sound_path(
        path.skip(1),
        depth + 1,
    )
}

/// How deep an object or array is inside of all of them.
pub open spec fn inner_depth(path: Seq<Frame>) -> int {
    1 + path.len() as int
}

/// What comes of the object or array around one that was read.
pub open spec fn framed(frame: Frame, depth: int, value: JsonModel) -> Result<JsonModel, ErrorModel> {
    match frame {
        Frame::Items(items) => Ok(
            JsonModel::Array(items_evaluated(items, depth, Seq::empty())->Ok_0.push(value)),
        ),
        Frame::Members(members, key) => {
            let values = members_evaluated(members, depth, Map::empty())->Ok_0;
            let name = string_of(key)->Ok_0;
            if values.contains_key(name) {
                Err(ErrorModel::MultipleKeys(name))
            } else {
                Ok(JsonModel::Object(values.insert(name, value)))
            }
        },
    }
}

/// What comes of all of the objects and arrays around one that was read.
pub open spec fn framed_by_all(path: Seq<Frame>, depth: int, value: JsonModel) -> Result<
    JsonModel,
    ErrorModel,
>
    decreases path.len(),
{
    if path.len() == 0 {
        Ok(value)
    } else {
        match framed_by_all(path.skip(1), depth + 1, value) {
            Ok(inner) => framed(path[0], depth, inner),
            Err(error) => Err(error),
        }
    }
}

/// What was read inside of a frame settles what the frame is read as, if it goes wrong or goes on to the
/// end.
proof fn lemma_frame(t: Seq<Lexeme>, pos: int, frame: Frame, depth: int)
    requires
        0 <= pos,
        depth < MAX_DEPTH,
        sound_frame(frame, depth),
        stands_at(t, pos, frame_tokens(frame)),
        pos + frame_tokens(frame).len() + 1 < t.len(),
        opening(t[pos + frame_tokens(frame).len()].kind),
    ensures
        opening(t[pos].kind),
        container_read(t, pos + frame_tokens(frame).len(), depth + 1) matches Reading::Failed(error)
            ==> container_read(t, pos, depth) == Reading::<(JsonModel, int), ErrorModel>::Failed(
            error,
        ),
        container_read(t, pos + frame_tokens(frame).len(), depth + 1) matches Reading::Unhandled(kind)
            ==> container_read(t, pos, depth) == Reading::<(JsonModel, int), ErrorModel>::Unhandled(
            kind,
        ),
        container_read(t, pos + frame_tokens(frame).len(), depth + 1) matches Reading::Done(
            (value, end),
        ) ==> end == t.len() - 1 ==> container_read(t, pos, depth) == (match framed(
            frame,
            depth,
            value,
        ) {
            Ok(outer) => Reading::<(JsonModel, int), ErrorModel>::Done((outer, end)),
            Err(error) => Reading::<(JsonModel, int), ErrorModel>::Failed(error),
        }),
{
    let inner = pos + frame_tokens(frame).len();
    match frame {
        Frame::Items(items) => {
            lemma_items_opened(t, pos, items, depth);
            let values = items_evaluated(items, depth, Seq::empty())->Ok_0;
            if let Reading::Done((value, end)) = container_read(t, inner, depth + 1) {
                if end == t.len() - 1 {
                    assert(items_read(t, inner - 1, depth, values) == items_read(
                        t,
                        end,
                        depth,
                        values.push(value),
                    ));
                }
            }
        },
        Frame::Members(members, key) => {
            lemma_parts(t, pos, members_opened(members), seq![key, colon()]);
            lemma_members_opened(t, pos, members, depth);
            let at = pos + members_opened(members).len() - 1;
            let values = members_evaluated(members, depth, Map::empty())->Ok_0;
            let name = string_of(key)->Ok_0;
            lemma_key(t, at, key, depth, values);
            if let Reading::Done((value, end)) = container_read(t, inner, depth + 1) {
                if end == t.len() - 1 && !values.contains_key(name) {
                    assert(members_read(t, at + 2, depth, values, Some(name)) == members_read(
                        t,
                        end,
                        depth,
                        values.insert(name, value),
                        None,
                    ));
                }
            }
        },
    }
}

/// What goes wrong inside goes wrong as a whole, with the same error.
proof fn lemma_path_fails(t: Seq<Lexeme>, pos: int, path: Seq<Frame>, depth: int)
    requires
        0 <= pos,
        sound_path(path, depth),
        stands_at(t, pos, path_tokens(path)),
        pos + path_tokens(path).len() + 1 < t.len(),
        opening(t[pos + path_tokens(path).len()].kind),
    ensures
        opening(t[pos].kind),
        container_read(t, pos + path_tokens(path).len(), depth + path.len()) matches Reading::Failed(
            error,
        ) ==> container_read(t, pos, depth) == Reading::<(JsonModel, int), ErrorModel>::Failed(error),
        container_read(t, pos + path_tokens(path).len(), depth + path.len())
            matches Reading::Unhandled(kind) ==> container_read(t, pos, depth) == Reading::<
            (JsonModel, int),
            ErrorModel,
        >::Unhandled(kind),
        container_read(t, pos + path_tokens(path).len(), depth + path.len()) matches Reading::Done(
            (value, end),
        ) ==> end == t.len() - 1 ==> container_read(t, pos, depth) == (match framed_by_all(
            path,
            depth,
            value,
        ) {
            Ok(outer) => Reading::<(JsonModel, int), ErrorModel>::Done((outer, end)),
            Err(error) => Reading::<(JsonModel, int), ErrorModel>::Failed(error),
        }),
    decreases path.len(),
{
    if path.len() > 0 {
        let first = frame_tokens(path[0]);
        let rest = path.skip(1);
        lemma_parts(t, pos, first, path_tokens(rest));
        lemma_path_fails(t, pos + first.len(), rest, depth + 1);
        lemma_frame(t, pos, path[0], depth);
    }
}

/// A place in an object or array where the next token can be wrong: where an item is due, after an item,
/// where a key is due, after a key, after the colon, after a value.
pub enum Spot {
    ItemDue(Seq<Document>),
    AfterItem(Seq<Document>),
    KeyDue(Seq<(Lexeme, Document)>),
    AfterKey(Seq<(Lexeme, Document)>, Lexeme),
    AfterColon(Seq<(Lexeme, Document)>, Lexeme),
    AfterMember(Seq<(Lexeme, Document)>),
}

/// The tokens up to the spot.
pub open spec fn spot_tokens(spot: Spot) -> Seq<Lexeme> {
    match spot {
        Spot::ItemDue(items) => items_opened(items),
        Spot::AfterItem(items) => seq![open_bracket()] + items_tokens(items),
        Spot::KeyDue(members) => members_opened(members),
        Spot::AfterKey(members, key) => members_opened(members) + seq![key],
        Spot::AfterColon(members, key) => members_opened(members) + seq![key, colon()],
        Spot::AfterMember(members) => seq![open_brace()] + members_tokens(members),
    }
}

/// What stands before the spot can be read.
pub open spec fn sound_spot(spot: Spot, depth: int) -> bool {
    match spot {
        Spot::ItemDue(items) => sound_items(items, depth),
        Spot::AfterItem(items) => items.len() > 0 && sound_items(items, depth),
        Spot::KeyDue(members) => sound_members(members, depth),
        Spot::AfterKey(members, key) => sound_members(members, depth) && sound_key(key),
        Spot::AfterColon(members, key) => sound_members(members, depth) && sound_key(key),
        Spot::AfterMember(members) => members.len() > 0 && sound_members(members, depth),
    }
}

/// The kind of the token at the spot.
pub open spec fn spot_kind(spot: Spot) -> TokenType {
    match spot {
        Spot::ItemDue(items) => if items.len() == 0 {
            TokenType::SquareBraceOpen
        } else {
            TokenType::Comma
        },
        Spot::AfterItem(items) => last_kind(items.last()),
        Spot::KeyDue(members) => if members.len() == 0 {
            TokenType::CurvedBraceOpen
        } else {
            TokenType::Comma
        },
        Spot::AfterKey(_, _) => TokenType::String,
        Spot::AfterColon(_, _) => TokenType::Colon,
        Spot::AfterMember(members) => last_kind(members.last().1),
    }
}

/// The kinds of tokens that a value begins with.
pub open spec fn begins_value(kind: TokenType) -> bool {
    ||| kind == TokenType::CurvedBraceOpen
    ||| kind == TokenType::SquareBraceOpen
    ||| kind == TokenType::String
    ||| kind == TokenType::Integer
    ||| kind == TokenType::Float
    ||| kind == TokenType::Bool
    ||| kind == TokenType::Null
}

/// Whether a token of kind `next` is let through at the spot. An item or a key may be missing only in an
/// empty array or object, and a value only at the end.
pub open spec fn let_through(spot: Spot, next: TokenType) -> bool {
    match spot {
        Spot::ItemDue(items) => begins_value(next) || (items.len() == 0 && next
            == TokenType::SquareBraceClose),
        Spot::AfterItem(items) => may_follow(items.last(), next, TokenType::SquareBraceClose),
        Spot::KeyDue(members) => next == TokenType::String || (members.len() == 0 && next
            == TokenType::CurvedBraceClose),
        Spot::AfterKey(_, _) => next == TokenType::Colon,
        Spot::AfterColon(_, _) => begins_value(next) || next == TokenType::EOF,
        Spot::AfterMember(members) => may_follow(
            members.last().1,
            next,
            TokenType::CurvedBraceClose,
        ),
    }
}

proof fn lemma_item_due(t: Seq<Lexeme>, pos: int, items: Seq<Document>, depth: int)
    requires
        0 <= pos,
        depth < MAX_DEPTH,
        sound_spot(Spot::ItemDue(items), depth),
        stands_at(t, pos, spot_tokens(Spot::ItemDue(items))),
        pos + spot_tokens(Spot::ItemDue(items)).len() < t.len(),
    ensures
        opening(t[pos].kind),
        !let_through(
            Spot::ItemDue(items),
            t[pos + spot_tokens(Spot::ItemDue(items)).len()].kind,
        ) ==> container_read(
            t,
            pos,
            depth,
        ) == Reading::<(JsonModel, int), ErrorModel>::Failed(
            ErrorModel::WrongToken { got: spot_kind(Spot::ItemDue(items)) },
        ),
{
    lemma_items_opened(t, pos, items, depth);
}

proof fn lemma_key_due(t: Seq<Lexeme>, pos: int, members: Seq<(Lexeme, Document)>, depth: int)
    requires
        0 <= pos,
        depth < MAX_DEPTH,
        sound_spot(Spot::KeyDue(members), depth),
        stands_at(t, pos, spot_tokens(Spot::KeyDue(members))),
        pos + spot_tokens(Spot::KeyDue(members)).len() < t.len(),
    ensures
        opening(t[pos].kind),
        !let_through(
            Spot::KeyDue(members),
            t[pos + spot_tokens(Spot::KeyDue(members)).len()].kind,
        ) ==> container_read(
            t,
            pos,
            depth,
        ) == Reading::<(JsonModel, int), ErrorModel>::Failed(
            ErrorModel::WrongToken { got: spot_kind(Spot::KeyDue(members)) },
        ),
{
    lemma_members_opened(t, pos, members, depth);
}

proof fn lemma_after_key(
    t: Seq<Lexeme>,
    pos: int,
    members: Seq<(Lexeme, Document)>,
    key: Lexeme,
    depth: int,
)
    requires
        0 <= pos,
        depth < MAX_DEPTH,
        sound_spot(Spot::AfterKey(members, key), depth),
        stands_at(t, pos, spot_tokens(Spot::AfterKey(members, key))),
        pos + spot_tokens(Spot::AfterKey(members, key)).len() < t.len(),
    ensures
        opening(t[pos].kind),
        !let_through(
            Spot::AfterKey(members, key),
            t[pos + spot_tokens(Spot::AfterKey(members, key)).len()].kind,
        ) ==> container_read(
            t,
            pos,
            depth,
        ) == Reading::<(JsonModel, int), ErrorModel>::Failed(
            ErrorModel::WrongToken { got: spot_kind(Spot::AfterKey(members, key)) },
        ),
{
    let next = pos + members_opened(members).len() + 1;
    lemma_parts(t, pos, members_opened(members), seq![key]);
    lemma_one(t, next - 1, key);
    lemma_members_opened(t, pos, members, depth);
    let values = members_evaluated(members, depth, Map::empty())->Ok_0;
    assert(members_read(t, next - 2, depth, values, None) == members_read(
        t,
        next - 1,
        depth,
        values,
        None,
    ));
}

proof fn lemma_after_colon(
    t: Seq<Lexeme>,
    pos: int,
    members: Seq<(Lexeme, Document)>,
    key: Lexeme,
    depth: int,
)
    requires
        0 <= pos,
        depth < MAX_DEPTH,
        sound_spot(Spot::AfterColon(members, key), depth),
        stands_at(t, pos, spot_tokens(Spot::AfterColon(members, key))),
        pos + spot_tokens(Spot::AfterColon(members, key)).len() < t.len(),
    ensures
        opening(t[pos].kind),
        !let_through(
            Spot::AfterColon(members, key),
            t[pos + spot_tokens(Spot::AfterColon(members, key)).len()].kind,
        ) ==> container_read(
            t,
            pos,
            depth,
        ) == Reading::<(JsonModel, int), ErrorModel>::Failed(
            ErrorModel::WrongToken { got: spot_kind(Spot::AfterColon(members, key)) },
        ),
{
    let next = pos + members_opened(members).len() + 2;
    lemma_parts(t, pos, members_opened(members), seq![key, colon()]);
    lemma_members_opened(t, pos, members, depth);
    let values = members_evaluated(members, depth, Map::empty())->Ok_0;
    lemma_key(t, next - 3, key, depth, values);
}

proof fn lemma_spot(t: Seq<Lexeme>, pos: int, spot: Spot, depth: int)
    requires
        0 <= pos,
        depth < MAX_DEPTH,
        sound_spot(spot, depth),
        stands_at(t, pos, spot_tokens(spot)),
        pos + spot_tokens(spot).len() < t.len(),
    ensures
        opening(t[pos].kind),
        !let_through(spot, t[pos + spot_tokens(spot).len()].kind) ==> container_read(t, pos, depth)
            == Reading::<(JsonModel, int), ErrorModel>::Failed(
            ErrorModel::WrongToken { got: spot_kind(spot) },
        ),
{
    match spot {
        Spot::ItemDue(items) => {
            lemma_item_due(t, pos, items, depth);
        },
        Spot::AfterItem(items) => {
            lemma_parts(t, pos, seq![open_bracket()], items_tokens(items));
            lemma_one(t, pos, open_bracket());
            lemma_items_run(t, pos, items, depth, Seq::empty());
        },
        Spot::KeyDue(members) => {
            lemma_key_due(t, pos, members, depth);
        },
        Spot::AfterKey(members, key) => {
            lemma_after_key(t, pos, members, key, depth);
        },
        Spot::AfterColon(members, key) => {
            lemma_after_colon(t, pos, members, key, depth);
        },
        Spot::AfterMember(members) => {
            lemma_parts(t, pos, seq![open_brace()], members_tokens(members));
            lemma_one(t, pos, open_brace());
            lemma_members_run(t, pos, members, depth, Map::empty());
        },
    }
}

proof fn lemma_whole_fails(t: Seq<Lexeme>, path: Seq<Frame>, inner: Seq<Lexeme>)
    requires
        sound_path(path, 1),
        t.len() > path_tokens(path).len() + inner.len(),
        inner.len() > 0,
        t.take((path_tokens(path) + inner).len() as int) == path_tokens(path) + inner,
        opening(inner[0].kind),
    ensures
        stands_at(t, path_tokens(path).len() as int, inner),
        container_read(t, path_tokens(path).len() as int, inner_depth(path)) matches Reading::Failed(
            error,
        ) ==> document_read(t) == Reading::<JsonModel, ErrorModel>::Failed(error),
        container_read(t, path_tokens(path).len() as int, inner_depth(path))
            matches Reading::Unhandled(kind) ==> document_read(t) == Reading::<
            JsonModel,
            ErrorModel,
        >::Unhandled(kind),
        container_read(t, path_tokens(path).len() as int, inner_depth(path)) matches Reading::Done(
            (value, end),
        ) ==> end == t.len() - 1 ==> document_read(t) == (match framed_by_all(path, 1, value) {
            Ok(outer) => Reading::<JsonModel, ErrorModel>::Done(outer),
            Err(error) => Reading::<JsonModel, ErrorModel>::Failed(error),
        }),
{
    let before = path_tokens(path);
    let all = before + inner;
    assert(t.subrange(0, all.len() as int) =~= t.take(all.len() as int));
    lemma_parts(t, 0, before, inner);
    assert(t.subrange(before.len() as int, (before.len() + inner.len()) as int)[0]
        == t[before.len() as int]);
    lemma_path_fails(t, 0, path, 1);
}

/// Wherever in objects and arrays inside each other a token comes that may not come there, reading
/// fails, whatever comes after: the token before it is told to be wrong.
pub proof fn law_wrong_followers_are_refused(
    path: Seq<Frame>,
    spot: Spot,
    next: Lexeme,
    rest: Seq<Lexeme>,
)
    requires
        sound_path(path, 1),
        path.len() + 1 < MAX_DEPTH,
        sound_spot(spot, inner_depth(path)),
        !let_through(spot, next.kind),
    ensures
        document_read(path_tokens(path) + spot_tokens(spot) + seq![next] + rest) == Reading::<
            JsonModel,
            ErrorModel,
        >::Failed(ErrorModel::WrongToken { got: spot_kind(spot) }),
{
    let before = path_tokens(path);
    let inner = spot_tokens(spot);
    let t = before + inner + seq![next] + rest;
    let pos = before.len() as int;
    assert(t.take((before + inner).len() as int) =~= before + inner);
    assert(t.subrange(pos, pos + inner.len()) =~= inner);
    assert(t[pos + inner.len()] == next);
    lemma_spot(t, pos, spot, inner_depth(path));
    assert(inner.len() > 0 && inner[0] == t[pos]);
    lemma_whole_fails(t, path, inner);
}

/// A closing token of the wrong sort after an object or array inside of another is let through first,
/// and there is no rule for it then.
pub proof fn law_wrong_closing_tokens_are_unhandled(
    path: Seq<Frame>,
    spot: Spot,
    next: Lexeme,
    rest: Seq<Lexeme>,
)
    requires
        sound_path(path, 1),
        path.len() + 1 < MAX_DEPTH,
        sound_spot(spot, inner_depth(path)),
        match spot {
            Spot::AfterItem(items) => !(items.last() is Scalar) && next.kind
                == TokenType::CurvedBraceClose,
            Spot::AfterMember(members) => !(members.last().1 is Scalar) && next.kind
                == TokenType::SquareBraceClose,
            _ => false,
        },
        rest.len() > 0,
    ensures
        document_read(path_tokens(path) + spot_tokens(spot) + seq![next] + rest) == Reading::<
            JsonModel,
            ErrorModel,
        >::Unhandled(next.kind),
{
    let before = path_tokens(path);
    let inner = spot_tokens(spot);
    let t = before + inner + seq![next] + rest;
    let pos = before.len() as int;
    let depth = inner_depth(path);
    assert(t.take((before + inner).len() as int) =~= before + inner);
    assert(t.subrange(pos, pos + inner.len()) =~= inner);
    assert(t[pos + inner.len()] == next);
    lemma_spot(t, pos, spot, depth);
    assert(inner.len() > 0 && inner[0] == t[pos]);
    match spot {
        Spot::AfterItem(items) => {
            lemma_parts(t, pos, seq![open_bracket()], items_tokens(items));
            lemma_one(t, pos, open_bracket());
            lemma_items_run(t, pos, items, depth, Seq::empty());
        },
        Spot::AfterMember(members) => {
            lemma_parts(t, pos, seq![open_brace()], members_tokens(members));
            lemma_one(t, pos, open_brace());
            lemma_members_run(t, pos, members, depth, Map::empty());
        },
        _ => {},
    }
    lemma_whole_fails(t, path, inner);
}

/// Something wrong with a token itself: an item, a key or a value that stands for nothing, or a key that
/// occurs again before a value.
pub enum Fault {
    Item(Seq<Document>, Lexeme),
    Key(Seq<(Lexeme, Document)>, Lexeme),
    Value(Seq<(Lexeme, Document)>, Lexeme, Lexeme),
    Repeated(Seq<(Lexeme, Document)>, Lexeme, Lexeme),
}

/// The tokens up to the fault.
pub open spec fn fault_tokens(fault: Fault) -> Seq<Lexeme> {
    match fault {
        Fault::Item(items, item) => items_opened(items) + seq![item],
        Fault::Key(members, key) => members_opened(members) + seq![key],
        Fault::Value(members, key, value) => members_opened(members) + seq![key, colon()] + seq![
            value,
        ],
        Fault::Repeated(members, key, value) => members_opened(members) + seq![key, colon()] + seq![
            value,
        ],
    }
}

/// Whether it is a fault of its sort, and what stands before can be read.
pub open spec fn real_fault(fault: Fault, depth: int) -> bool {
    match fault {
        Fault::Item(items, item) => {
            &&& sound_items(items, depth)
            &&& scalar(item.kind)
            &&& scalar_of(item) is Err
        },
        Fault::Key(members, key) => {
            &&& sound_members(members, depth)
            &&& key.kind == TokenType::String
            &&& string_of(key) is Err
        },
        Fault::Value(members, key, value) => {
            &&& sound_members(members, depth)
            &&& sound_key(key)
            &&& scalar(value.kind)
            &&& scalar_of(value) is Err
        },
        Fault::Repeated(members, key, value) => {
            &&& sound_members(members, depth)
            &&& sound_key(key)
            &&& members_evaluated(members, depth, Map::empty())->Ok_0.contains_key(
                string_of(key)->Ok_0,
            )
            &&& scalar(value.kind)
            &&& scalar_of(value) is Ok
        },
    }
}

/// The error that tells the fault.
pub open spec fn fault_error(fault: Fault) -> ErrorModel {
    match fault {
        Fault::Item(_, item) => scalar_of(item)->Err_0,
        Fault::Key(_, key) => string_of(key)->Err_0,
        Fault::Value(_, _, value) => scalar_of(value)->Err_0,
        Fault::Repeated(_, key, _) => ErrorModel::MultipleKeys(string_of(key)->Ok_0),
    }
}

proof fn lemma_fault_item(
    t: Seq<Lexeme>,
    pos: int,
    items: Seq<Document>,
    item: Lexeme,
    depth: int,
)
    requires
        0 <= pos,
        depth < MAX_DEPTH,
        real_fault(Fault::Item(items, item), depth),
        stands_at(t, pos, items_opened(items) + seq![item]),
        pos + items_opened(items).len() + 1 < t.len(),
    ensures
        t[pos].kind == TokenType::SquareBraceOpen,
        array_read(t, pos, depth) == Reading::<(JsonModel, int), ErrorModel>::Failed(
            scalar_of(item)->Err_0,
        ),
{
    let last = pos + items_opened(items).len();
    lemma_parts(t, pos, items_opened(items), seq![item]);
    lemma_one(t, last, item);
    lemma_items_opened(t, pos, items, depth);
    let values = items_evaluated(items, depth, Seq::empty())->Ok_0;
    assert(items_read(t, last - 1, depth, values) == items_read(t, last, depth, values));
}

proof fn lemma_fault_key(
    t: Seq<Lexeme>,
    pos: int,
    members: Seq<(Lexeme, Document)>,
    key: Lexeme,
    depth: int,
)
    requires
        0 <= pos,
        depth < MAX_DEPTH,
        real_fault(Fault::Key(members, key), depth),
        stands_at(t, pos, members_opened(members) + seq![key]),
        pos + members_opened(members).len() + 1 < t.len(),
    ensures
        t[pos].kind == TokenType::CurvedBraceOpen,
        object_read(t, pos, depth) == Reading::<(JsonModel, int), ErrorModel>::Failed(
            string_of(key)->Err_0,
        ),
{
    let last = pos + members_opened(members).len();
    lemma_parts(t, pos, members_opened(members), seq![key]);
    lemma_one(t, last, key);
    lemma_members_opened(t, pos, members, depth);
    let values = members_evaluated(members, depth, Map::empty())->Ok_0;
    assert(members_read(t, last - 1, depth, values, None) == members_read(
        t,
        last,
        depth,
        values,
        None,
    ));
}

proof fn lemma_fault(t: Seq<Lexeme>, pos: int, fault: Fault, depth: int)
    requires
        0 <= pos,
        depth < MAX_DEPTH,
        real_fault(fault, depth),
        stands_at(t, pos, fault_tokens(fault)),
        pos + fault_tokens(fault).len() < t.len(),
    ensures
        opening(t[pos].kind),
        container_read(t, pos, depth) == Reading::<(JsonModel, int), ErrorModel>::Failed(
            fault_error(fault),
        ),
{
    match fault {
        Fault::Item(items, item) => {
            lemma_fault_item(t, pos, items, item, depth);
        },
        Fault::Key(members, key) => {
            lemma_fault_key(t, pos, members, key, depth);
        },
        Fault::Value(members, key, value) => {
            lemma_fault_value(t, pos, members, key, value, depth);
        },
        Fault::Repeated(members, key, value) => {
            lemma_fault_value(t, pos, members, key, value, depth);
        },
    }
}

proof fn lemma_fault_value(
    t: Seq<Lexeme>,
    pos: int,
    members: Seq<(Lexeme, Document)>,
    key: Lexeme,
    value: Lexeme,
    depth: int,
)
    requires
        0 <= pos,
        depth < MAX_DEPTH,
        sound_members(members, depth),
        sound_key(key),
        scalar(value.kind),
        stands_at(t, pos, members_opened(members) + seq![key, colon()] + seq![value]),
        pos + members_opened(members).len() + 3 < t.len(),
    ensures
        ({
            let last = pos + members_opened(members).len() + 2;
            &&& t[pos].kind == TokenType::CurvedBraceOpen
            &&& t[last] == value
            &&& object_read(t, pos, depth) == members_read(
                t,
                last,
                depth,
                members_evaluated(members, depth, Map::empty())->Ok_0,
                Some(string_of(key)->Ok_0),
            )
        }),
{
    let last = pos + members_opened(members).len() + 2;
    lemma_parts(t, pos, members_opened(members) + seq![key, colon()], seq![value]);
    lemma_parts(t, pos, members_opened(members), seq![key, colon()]);
    lemma_one(t, last, value);
    lemma_members_opened(t, pos, members, depth);
    let values = members_evaluated(members, depth, Map::empty())->Ok_0;
    lemma_key(t, last - 3, key, depth, values);
    assert(members_read(t, last - 1, depth, values, Some(string_of(key)->Ok_0)) == members_read(
        t,
        last,
        depth,
        values,
        Some(string_of(key)->Ok_0),
    ));
}

/// Wherever in objects and arrays inside each other a token stands for nothing, or a key occurs again,
/// reading fails with that error, whatever comes after.
pub proof fn law_first_fault_is_told(path: Seq<Frame>, fault: Fault, rest: Seq<Lexeme>)
    requires
        sound_path(path, 1),
        path.len() + 1 < MAX_DEPTH,
        real_fault(fault, inner_depth(path)),
        rest.len() > 0,
    ensures
        document_read(path_tokens(path) + fault_tokens(fault) + rest) == Reading::<
            JsonModel,
            ErrorModel,
        >::Failed(fault_error(fault)),
{
    let before = path_tokens(path);
    let inner = fault_tokens(fault);
    let t = before + inner + rest;
    let pos = before.len() as int;
    assert(t.take((before + inner).len() as int) =~= before + inner);
    assert(t.subrange(pos, pos + inner.len()) =~= inner);
    lemma_fault(t, pos, fault, inner_depth(path));
    assert(inner.len() > 0 && inner[0] == t[pos]);
    lemma_whole_fails(t, path, inner);
}

/// An object or array inside of as many others as make it too deep is refused where it is opened,
/// whatever comes after.
pub proof fn law_depth_is_told_at_once(path: Seq<Frame>, open: Lexeme, rest: Seq<Lexeme>)
    requires
        sound_path(path, 1),
        path.len() == 19,
        open.kind == TokenType::CurvedBraceOpen || open.kind == TokenType::SquareBraceOpen,
        rest.len() > 0,
    ensures
        document_read(path_tokens(path) + seq![open] + rest) == Reading::<
            JsonModel,
            ErrorModel,
        >::Failed(ErrorModel::MaxDepthExceeded),
{
    let before = path_tokens(path);
    let t = before + seq![open] + rest;
    let pos = before.len() as int;
    assert(t.take((before + seq![open]).len() as int) =~= before + seq![open]);
    assert(t[pos] == open);
    lemma_whole_fails(t, path, seq![open]);
}

/// Objects and arrays that are open where the text ends right after one that is closed are taken as
/// closed there.
pub proof fn law_open_containers_are_closed_at_end(path: Seq<Frame>, d: Document)
    requires
        sound_path(path, 1),
        proper(d),
        !(d is Scalar),
        evaluated(d, inner_depth(path)) is Ok,
    ensures
        document_read((path_tokens(path) + document_tokens(d)).push(end_mark())) == (
        match framed_by_all(path, 1, evaluated(d, inner_depth(path))->Ok_0) {
            Ok(value) => Reading::<JsonModel, ErrorModel>::Done(value),
            Err(error) => Reading::<JsonModel, ErrorModel>::Failed(error),
        }),
{
    let before = path_tokens(path);
    let inner = document_tokens(d);
    let t = (before + inner).push(end_mark());
    let pos = before.len() as int;
    lemma_first_token(d);
    assert(t.take((before + inner).len() as int) =~= before + inner);
    assert(t.subrange(pos, pos + inner.len()) =~= inner);
    lemma_container(t, pos, d, inner_depth(path));
    lemma_whole_fails(t, path, inner);
}

/// So are those that are open where the text ends right after a colon, and the key before it is dropped.
pub proof fn law_key_without_value_is_dropped_at_end(
    path: Seq<Frame>,
    members: Seq<(Lexeme, Document)>,
    key: Lexeme,
)
    requires
        sound_path(path, 1),
        path.len() + 1 < MAX_DEPTH,
        sound_members(members, inner_depth(path)),
        sound_key(key),
    ensures
        document_read(
            (path_tokens(path) + (members_opened(members) + seq![key, colon()])).push(end_mark()),
        ) == (match framed_by_all(
            path,
            1,
            JsonModel::Object(members_evaluated(members, inner_depth(path), Map::empty())->Ok_0),
        ) {
            Ok(value) => Reading::<JsonModel, ErrorModel>::Done(value),
            Err(error) => Reading::<JsonModel, ErrorModel>::Failed(error),
        }),
{
    let before = path_tokens(path);
    let inner = members_opened(members) + seq![key, colon()];
    let t = (before + inner).push(end_mark());
    let pos = before.len() as int;
    let depth = inner_depth(path);
    let values = members_evaluated(members, depth, Map::empty())->Ok_0;
    assert(t.take((before + inner).len() as int) =~= before + inner);
    assert(t.subrange(pos, pos + inner.len()) =~= inner);
    lemma_parts(t, pos, members_opened(members), seq![key, colon()]);
    lemma_members_opened(t, pos, members, depth);
    let at = pos + members_opened(members).len() - 1;
    lemma_key(t, at, key, depth, values);
    assert(t[at + 3].kind == TokenType::EOF);
    let name = string_of(key)->Ok_0;
    assert(members_read(t, at + 2, depth, values, Some(name)) == members_read(
        t,
        at + 3,
        depth,
        values,
        Some(name),
    ));
    assert(inner[0] == t[pos]);
    lemma_whole_fails(t, path, inner);
}

/// Where there is no token but the end mark the text is empty, and one that begins with any token but an
/// opening one is refused for that token, whatever comes after.
pub proof fn law_documents_begin_with_opening_tokens(first: Lexeme, rest: Seq<Lexeme>)
    requires
        first.kind != TokenType::CurvedBraceOpen,
        first.kind != TokenType::SquareBraceOpen,
    ensures
        document_read(seq![end_mark()]) == Reading::<JsonModel, ErrorModel>::Failed(
            ErrorModel::EmptyFile,
        ),
        rest.len() > 0 ==> document_read(seq![first] + rest) == Reading::<
            JsonModel,
            ErrorModel,
        >::Failed(ErrorModel::WrongToken { got: first.kind }),
{
    assert((seq![first] + rest)[0] == first);
}

/// The last token before the end is a closing one or a colon.
pub open spec fn ends_closed(t: Seq<Lexeme>) -> bool {
    t.len() >= 2 && (closing(t[t.len() - 2].kind) || t[t.len() - 2].kind == TokenType::Colon)
}

proof fn lemma_container_ends(t: Seq<Lexeme>, pos: int, depth: int)
    requires
        0 <= pos < t.len() - 1,
        t.last().kind == TokenType::EOF,
    ensures
        container_read(t, pos, depth) matches Reading::Done((_, end)) ==> end >= t.len() - 1
            ==> ends_closed(t),
    decreases t.len() - pos, 2int,
{
    if depth < MAX_DEPTH {
        if t[pos].kind == TokenType::CurvedBraceOpen {
            lemma_members_ends(t, pos, depth, Map::empty(), None);
        } else {
            lemma_items_ends(t, pos, depth, Seq::empty());
        }
    }
}

proof fn lemma_members_ends(
    t: Seq<Lexeme>,
    pos: int,
    depth: int,
    members: Map<Seq<char>, JsonModel>,
    key: Option<Seq<char>>,
)
    requires
        0 <= pos < t.len() - 1,
        t.last().kind == TokenType::EOF,
    ensures
        members_read(t, pos, depth, members, key) matches Reading::Done((_, end)) ==> end >= t.len()
            - 1 ==> ends_closed(t),
    decreases t.len() - pos, 0int,
{
    let current = t[pos];
    let next = t[pos + 1].kind;
    if pos + 1 < t.len() - 1 {
        lemma_members_ends(t, pos + 1, depth, members, key);
        if let Some(name) = key {
            if let Ok(value) = scalar_of(current) {
                lemma_members_ends(t, pos + 1, depth, members.insert(name, value), None);
            }
            if opening(next) {
                lemma_container_ends(t, pos + 1, depth + 1);
                lemma_container_read_end(t, pos + 1, depth + 1);
                if let Reading::Done((value, end)) = container_read(t, pos + 1, depth + 1) {
                    if end < t.len() - 1 {
                        lemma_members_ends(t, end, depth, members.insert(name, value), None);
                    }
                }
            }
        } else {
            if let Ok(JsonModel::String(name)) = scalar_of(current) {
                lemma_members_ends(t, pos + 1, depth, members, Some(name));
            }
        }
    }
}

proof fn lemma_items_ends(t: Seq<Lexeme>, pos: int, depth: int, items: Seq<JsonModel>)
    requires
        0 <= pos < t.len() - 1,
        t.last().kind == TokenType::EOF,
    ensures
        items_read(t, pos, depth, items) matches Reading::Done((_, end)) ==> end >= t.len() - 1
            ==> ends_closed(t),
    decreases t.len() - pos, 0int,
{
    let current = t[pos];
    let next = t[pos + 1].kind;
    if pos + 1 < t.len() - 1 {
        lemma_items_ends(t, pos + 1, depth, items);
        if let Ok(value) = scalar_of(current) {
            lemma_items_ends(t, pos + 1, depth, items.push(value));
        }
        if opening(next) {
            lemma_container_ends(t, pos + 1, depth + 1);
            lemma_container_read_end(t, pos + 1, depth + 1);
            if let Reading::Done((value, end)) = container_read(t, pos + 1, depth + 1) {
                if end < t.len() - 1 {
                    lemma_items_ends(t, end, depth, items.push(value));
                }
            }
        }
    }
}

/// Whatever is read as a value ends, before the end mark, with a closing token or with a colon: a text
/// that is cut off after a value that is no object or array, after a comma or after an opening token is
/// refused.
pub proof fn law_read_tokens_end_closed(t: Seq<Lexeme>)
    requires
        t.len() > 0,
        t.last().kind == TokenType::EOF,
    ensures
        document_read(t) is Done ==> ends_closed(t),
{
    if t.len() >= 2 {
        lemma_container_ends(t, 0, 1);
    }
}

/// An object or array read from a place where none begins: nothing is read where no token comes after,
/// and a token that cannot stand there is told to be wrong, or there is no rule for it.
pub proof fn law_reading_begins_anywhere(t: Seq<Lexeme>, pos: int, depth: int)
    requires
        0 <= pos <= t.len(),
        depth < 20,
    ensures
        pos + 1 >= t.len() ==> {
            &&& object_read(t, pos, depth) == Reading::<(JsonModel, int), ErrorModel>::Done(
                (JsonModel::Object(Map::empty()), pos),
            )
            &&& array_read(t, pos, depth) == Reading::<(JsonModel, int), ErrorModel>::Done(
                (JsonModel::Array(Seq::empty()), pos),
            )
        },
        pos + 1 < t.len() ==> {
            let kind = t[pos].kind;
            let next = t[pos + 1].kind;
            let wrong = Reading::<(JsonModel, int), ErrorModel>::Failed(
                ErrorModel::WrongToken { got: kind },
            );
            let unhandled = Reading::<(JsonModel, int), ErrorModel>::Unhandled(kind);
            &&& kind == TokenType::SquareBraceOpen || kind == TokenType::SquareBraceClose || kind
                == TokenType::EOF ==> object_read(t, pos, depth) == unhandled
            &&& kind == TokenType::Colon ==> object_read(t, pos, depth) == wrong
            &&& kind == TokenType::Bool || kind == TokenType::Null || (kind == TokenType::Comma
                && next != TokenType::String) ==> object_read(t, pos, depth) == wrong
            &&& kind == TokenType::Integer || kind == TokenType::Float || (kind
                == TokenType::String && next != TokenType::Colon) ==> object_read(t, pos, depth)
                == (match scalar_of(t[pos]) {
                Ok(_) => wrong,
                Err(error) => Reading::Failed(error),
            })
            &&& kind == TokenType::CurvedBraceOpen || kind == TokenType::CurvedBraceClose || kind
                == TokenType::Colon || kind == TokenType::EOF ==> array_read(t, pos, depth)
                == unhandled
        },
{
}

/// A reading of tokens agrees with one outcome only: the same value up to the same place, the same
/// error, or the same token without a rule.
pub proof fn law_readings_agree_with_one_outcome(
    reading: Reading<(JsonValue, usize), JsonError>,
    outcome: Reading<(JsonModel, int), ErrorModel>,
    whole: Reading<JsonValue, JsonError>,
    whole_outcome: Reading<JsonModel, ErrorModel>,
)
    ensures
        agrees(reading, outcome) <==> match (reading, outcome) {
            (Reading::Done((value, end)), Reading::Done((other, at))) => value@ == other && end
                == at,
            (Reading::Failed(error), Reading::Failed(other)) => error@ == other,
            (Reading::Unhandled(kind), Reading::Unhandled(other)) => kind == other,
            _ => false,
        },
        agrees_as_whole(whole, whole_outcome) <==> match (whole, whole_outcome) {
            (Reading::Done(value), Reading::Done(other)) => value@ == other,
            (Reading::Failed(error), Reading::Failed(other)) => error@ == other,
            (Reading::Unhandled(kind), Reading::Unhandled(other)) => kind == other,
            _ => false,
        },
{
}

} // verus!
