//! Every token sequence that is read as a value, and whose brackets balance, is a document.

use crate::document::{
    close_brace, close_bracket, colon, comma, document_tokens, evaluated, items_evaluated,
    items_proper, items_tokens, members_evaluated, members_proper, members_tokens, open_brace,
    open_bracket, proper, stands_at, Document,
};
use crate::error::{ErrorModel, MAX_DEPTH};
use crate::lexer::{advanced, emitted, end_mark, idle, lexed, lexed_from, punctuation, LexState};
use crate::parser::{
    container_read, document_read, follows_value, items_read, lemma_container_read_end,
    members_read, opening, scalar, scalar_of, text_read,
};
use crate::token::{string_of, Lexeme, TokenType};
use crate::value::JsonModel;
use vstd::prelude::*;

verus! {

/// One for a token that opens an object or an array, minus one for a token that closes one.
pub open spec fn weight(kind: TokenType) -> int {
    if opening(kind) {
        1
    } else if kind == TokenType::CurvedBraceClose || kind == TokenType::SquareBraceClose {
        -1
    } else {
        0
    }
}

/// How many more objects and arrays the tokens from `from` up to `to` open than they close.
pub open spec fn balance(t: Seq<Lexeme>, from: int, to: int) -> int
    decreases to - from,
{
    if from < to {
        balance(t, from, to - 1) + weight(t[to - 1].kind)
    } else {
        0
    }
}

/// The punctuation is spelled as it is.
pub open spec fn spelled(lexeme: Lexeme) -> bool {
    &&& lexeme.kind == TokenType::CurvedBraceOpen ==> lexeme == open_brace()
    &&& lexeme.kind == TokenType::CurvedBraceClose ==> lexeme == close_brace()
    &&& lexeme.kind == TokenType::SquareBraceOpen ==> lexeme == open_bracket()
    &&& lexeme.kind == TokenType::SquareBraceClose ==> lexeme == close_bracket()
    &&& lexeme.kind == TokenType::Comma ==> lexeme == comma()
    &&& lexeme.kind == TokenType::Colon ==> lexeme == colon()
}

pub open spec fn all_spelled(t: Seq<Lexeme>) -> bool {
    forall|i: int| 0 <= i < t.len() ==> spelled(#[trigger] t[i])
}

proof fn lemma_balance_parts(t: Seq<Lexeme>, a: int, b: int, c: int)
    requires
        a <= b <= c,
    ensures
        balance(t, a, c) == balance(t, a, b) + balance(t, b, c),
    decreases c - b,
{
    if b < c {
        lemma_balance_parts(t, a, b, c - 1);
    }
}

proof fn lemma_balance_copy(t: Seq<Lexeme>, pos: int, part: Seq<Lexeme>, n: int)
    requires
        stands_at(t, pos, part),
        0 <= n <= part.len(),
    ensures
        balance(t, pos, pos + n) == balance(part, 0, n),
    decreases n,
{
    if n > 0 {
        lemma_balance_copy(t, pos, part, n - 1);
        assert(t.subrange(pos, pos + part.len())[n - 1] == t[pos + n - 1]);
    }
}

proof fn lemma_balance_concat(a: Seq<Lexeme>, b: Seq<Lexeme>)
    ensures
        balance(a + b, 0, (a + b).len() as int) == balance(a, 0, a.len() as int) + balance(
            b,
            0,
            b.len() as int,
        ),
{
    let t = a + b;
    assert(t.subrange(0, a.len() as int) =~= a);
    assert(t.subrange(a.len() as int, t.len() as int) =~= b);
    lemma_balance_copy(t, 0, a, a.len() as int);
    lemma_balance_copy(t, a.len() as int, b, b.len() as int);
    lemma_balance_parts(t, 0, a.len() as int, t.len() as int);
}

proof fn lemma_balance_one(lexeme: Lexeme)
    ensures
        balance(seq![lexeme], 0, 1) == weight(lexeme.kind),
{
    assert(balance(seq![lexeme], 0, 0) == 0);
}

/// A document closes what it opens.
proof fn lemma_document_balance(d: Document)
    requires
        proper(d),
    ensures
        balance(document_tokens(d), 0, document_tokens(d).len() as int) == 0,
    decreases d, 1int,
{
    match d {
        Document::Scalar(lexeme) => {
            lemma_balance_one(lexeme);
        },
        Document::Object(members) => {
            lemma_members_balance(members);
            lemma_balance_one(open_brace());
            lemma_balance_one(close_brace());
            lemma_balance_concat(seq![open_brace()], members_tokens(members));
            lemma_balance_concat(
                seq![open_brace()] + members_tokens(members),
                seq![close_brace()],
            );
        },
        Document::Array(items) => {
            lemma_items_balance(items);
            lemma_balance_one(open_bracket());
            lemma_balance_one(close_bracket());
            lemma_balance_concat(seq![open_bracket()], items_tokens(items));
            lemma_balance_concat(
                seq![open_bracket()] + items_tokens(items),
                seq![close_bracket()],
            );
        },
    }
}

proof fn lemma_items_balance(items: Seq<Document>)
    requires
        items_proper(items),
    ensures
        balance(items_tokens(items), 0, items_tokens(items).len() as int) == 0,
    decreases items, 0int,
{
    if items.len() > 0 {
        let first = document_tokens(items[0]);
        lemma_document_balance(items[0]);
        if items.len() > 1 {
            lemma_items_balance(items.skip(1));
            lemma_balance_one(comma());
            lemma_balance_concat(first, seq![comma()]);
            lemma_balance_concat(first + seq![comma()], items_tokens(items.skip(1)));
        }
    }
}

proof fn lemma_members_balance(members: Seq<(Lexeme, Document)>)
    requires
        members_proper(members),
    ensures
        balance(members_tokens(members), 0, members_tokens(members).len() as int) == 0,
    decreases members, 0int,
{
    if members.len() > 0 {
        let own = document_tokens(members[0].1);
        let key = members[0].0;
        let first = seq![key, colon()] + own;
        lemma_document_balance(members[0].1);
        lemma_balance_one(key);
        lemma_balance_one(colon());
        assert(seq![key, colon()] =~= seq![key] + seq![colon()]);
        lemma_balance_concat(seq![key], seq![colon()]);
        lemma_balance_concat(seq![key, colon()], own);
        if members.len() > 1 {
            lemma_members_balance(members.skip(1));
            lemma_balance_one(comma());
            lemma_balance_concat(first, seq![comma()]);
            lemma_balance_concat(first + seq![comma()], members_tokens(members.skip(1)));
        }
    }
}

proof fn lemma_join(t: Seq<Lexeme>, pos: int, a: Seq<Lexeme>, b: Seq<Lexeme>)
    requires
        stands_at(t, pos, a),
        stands_at(t, pos + a.len(), b),
    ensures
        stands_at(t, pos, a + b),
{
    assert(t.subrange(pos, pos + (a + b).len()) =~= t.subrange(pos, pos + a.len()) + t.subrange(
        pos + a.len(),
        pos + a.len() + b.len(),
    ));
}

proof fn lemma_single(t: Seq<Lexeme>, pos: int)
    requires
        0 <= pos < t.len(),
    ensures
        stands_at(t, pos, seq![t[pos]]),
{
    assert(t.subrange(pos, pos + 1) =~= seq![t[pos]]);
}

/// The tokens from `pos` up to `end` are the document `d`, whose value is `value`.
spec fn closed_document(
    t: Seq<Lexeme>,
    pos: int,
    end: int,
    depth: int,
    d: Document,
    value: JsonModel,
) -> bool {
    &&& proper(d)
    &&& !(d is Scalar)
    &&& stands_at(t, pos, document_tokens(d))
    &&& end == pos + document_tokens(d).len()
    &&& end < t.len()
    &&& follows_value(t[end].kind)
    &&& evaluated(d, depth) == Ok::<JsonModel, ErrorModel>(value)
}

/// The tokens end at `end`, with at least `excess` more opened than closed since `from`.
spec fn cut_short(t: Seq<Lexeme>, from: int, end: int, excess: int) -> bool {
    from <= end && end + 1 >= t.len() && balance(t, from, end) >= excess
}

/// The tokens from `from` up to `end` are `items` and a closing bracket.
spec fn closed_items(
    t: Seq<Lexeme>,
    from: int,
    end: int,
    depth: int,
    items: Seq<Document>,
    before: Seq<JsonModel>,
    value: JsonModel,
) -> bool {
    &&& items_proper(items)
    &&& stands_at(t, from, items_tokens(items) + seq![close_bracket()])
    &&& end == from + items_tokens(items).len() + 1
    &&& end < t.len()
    &&& follows_value(t[end].kind)
    &&& value is Array
    &&& items_evaluated(items, depth, before) == Ok::<Seq<JsonModel>, ErrorModel>(value->Array_0)
}

/// The tokens from `from` up to `end` are `members` and a closing brace.
spec fn closed_members(
    t: Seq<Lexeme>,
    from: int,
    end: int,
    depth: int,
    members: Seq<(Lexeme, Document)>,
    before: Map<Seq<char>, JsonModel>,
    value: JsonModel,
) -> bool {
    &&& members_proper(members)
    &&& stands_at(t, from, members_tokens(members) + seq![close_brace()])
    &&& end == from + members_tokens(members).len() + 1
    &&& end < t.len()
    &&& follows_value(t[end].kind)
    &&& value is Object
    &&& members_evaluated(members, depth, before) == Ok::<Map<Seq<char>, JsonModel>, ErrorModel>(
        value->Object_0,
    )
}

/// The value that starts at `pos` and is no punctuation, or stands in brackets.
spec fn closed_value(
    t: Seq<Lexeme>,
    pos: int,
    end: int,
    depth: int,
    d: Document,
    value: JsonModel,
) -> bool {
    &&& proper(d)
    &&& stands_at(t, pos, document_tokens(d))
    &&& end == pos + document_tokens(d).len()
    &&& evaluated(d, depth) == Ok::<JsonModel, ErrorModel>(value)
}

proof fn sound_container(t: Seq<Lexeme>, pos: int, depth: int) -> (d: Document)
    requires
        all_spelled(t),
        t.len() > 0,
        t.last().kind == TokenType::EOF,
        0 <= pos < t.len(),
        opening(t[pos].kind),
        container_read(t, pos, depth) is Done,
    ensures
        ({
            let (value, end) = container_read(t, pos, depth)->Done_0;
            closed_document(t, pos, end, depth, d, value) || cut_short(t, pos, end, 1)
        }),
    decreases t.len() - pos, 1int,
{
    let (value, end) = container_read(t, pos, depth)->Done_0;
    lemma_container_read_end(t, pos, depth);
    lemma_single(t, pos);
    assert(spelled(t[pos]));
    assert(balance(t, pos, pos) == 0);
    assert(balance(t, pos, pos + 1) == 1);
    if t[pos].kind == TokenType::SquareBraceOpen {
        let items = sound_items(t, pos, depth, Seq::empty());
        let d = Document::Array(items);
        if closed_items(t, pos + 1, end, depth, items, Seq::empty(), value) {
            lemma_join(t, pos, seq![open_bracket()], items_tokens(items) + seq![close_bracket()]);
            assert(seq![open_bracket()] + (items_tokens(items) + seq![close_bracket()])
                =~= document_tokens(d));
        } else {
            lemma_balance_parts(t, pos, pos + 1, end);
        }
        d
    } else {
        let members = sound_members(t, pos, depth, Map::empty());
        let d = Document::Object(members);
        if closed_members(t, pos + 1, end, depth, members, Map::empty(), value) {
            lemma_join(t, pos, seq![open_brace()], members_tokens(members) + seq![close_brace()]);
            assert(seq![open_brace()] + (members_tokens(members) + seq![close_brace()])
                =~= document_tokens(d));
        } else {
            lemma_balance_parts(t, pos, pos + 1, end);
        }
        d
    }
}

proof fn sound_items(t: Seq<Lexeme>, pos: int, depth: int, before: Seq<JsonModel>) -> (items: Seq<
    Document,
>)
    requires
        all_spelled(t),
        t.len() > 0,
        t.last().kind == TokenType::EOF,
        0 <= pos < t.len(),
        t[pos].kind == TokenType::SquareBraceOpen || t[pos].kind == TokenType::Comma,
        depth < MAX_DEPTH,
        items_read(t, pos, depth, before) is Done,
    ensures
        ({
            let (value, end) = items_read(t, pos, depth, before)->Done_0;
            ||| closed_items(t, pos + 1, end, depth, items, before, value) && (t[pos].kind
                == TokenType::Comma ==> items.len() > 0)
            ||| cut_short(t, pos + 1, end, 0)
        }),
    decreases t.len() - pos, 0int,
{
    let (value, end) = items_read(t, pos, depth, before)->Done_0;
    let next = t[pos + 1].kind;
    assert(balance(t, pos + 1, pos + 1) == 0);
    if next == TokenType::SquareBraceClose {
        let items = Seq::<Document>::empty();
        assert(items_read(t, pos, depth, before) == items_read(t, pos + 1, depth, before));
        assert(spelled(t[pos + 1]));
        lemma_single(t, pos + 1);
        assert(items_tokens(items) + seq![close_bracket()] =~= seq![close_bracket()]);
        items
    } else {
        let nested = container_read(t, pos + 1, depth + 1);
        let model = if scalar(next) {
            scalar_of(t[pos + 1])->Ok_0
        } else {
            nested->Done_0.0
        };
        let after = if scalar(next) {
            pos + 2
        } else {
            nested->Done_0.1
        };
        let so_far = before.push(model);
        let first = if scalar(next) {
            assert(items_read(t, pos, depth, before) == items_read(t, pos + 1, depth, before));
            lemma_single(t, pos + 1);
            Document::Scalar(t[pos + 1])
        } else {
            lemma_container_read_end(t, pos + 1, depth + 1);
            sound_container(t, pos + 1, depth + 1)
        };
        assert(items_read(t, pos, depth, before) == items_read(t, after, depth, so_far));
        if closed_value(t, pos + 1, after, depth + 1, first, model) {
            let own = document_tokens(first);
            lemma_document_balance(first);
            lemma_balance_copy(t, pos + 1, own, own.len() as int);
            if after + 1 >= t.len() {
                Seq::empty()
            } else if t[after].kind == TokenType::SquareBraceClose {
                let items = seq![first];
                assert(spelled(t[after]));
                lemma_single(t, after);
                lemma_join(t, pos + 1, own, seq![close_bracket()]);
                assert(items.skip(1) =~= Seq::<Document>::empty());
                assert(items_proper(items.skip(1)));
                assert(items_tokens(items) == own);
                assert(items_evaluated(items, depth, before) == items_evaluated(
                    items.skip(1),
                    depth,
                    so_far,
                ));
                items
            } else {
                assert(t[after].kind == TokenType::Comma);
                assert(spelled(t[after]));
                lemma_single(t, after);
                let rest = sound_items(t, after, depth, so_far);
                let items = seq![first] + rest;
                assert(items.skip(1) =~= rest);
                if closed_items(t, after + 1, end, depth, rest, so_far, value) && rest.len() > 0 {
                    lemma_join(t, pos + 1, own, seq![comma()]);
                    lemma_join(
                        t,
                        pos + 1,
                        own + seq![comma()],
                        items_tokens(rest) + seq![close_bracket()],
                    );
                    assert(items_tokens(items) == own + seq![comma()] + items_tokens(rest));
                    assert(own + seq![comma()] + (items_tokens(rest) + seq![close_bracket()])
                        =~= items_tokens(items) + seq![close_bracket()]);
                    assert(items_evaluated(items, depth, before) == items_evaluated(
                        rest,
                        depth,
                        so_far,
                    ));
                } else {
                    assert(balance(t, after, after) == 0);
                    assert(balance(t, after, after + 1) == 0);
                    lemma_balance_parts(t, pos + 1, after, after + 1);
                    lemma_balance_parts(t, pos + 1, after + 1, end);
                }
                items
            }
        } else {
            assert(end == after);
            Seq::empty()
        }
    }
}

proof fn sound_members(
    t: Seq<Lexeme>,
    pos: int,
    depth: int,
    before: Map<Seq<char>, JsonModel>,
) -> (members: Seq<(Lexeme, Document)>)
    requires
        all_spelled(t),
        t.len() > 0,
        t.last().kind == TokenType::EOF,
        0 <= pos < t.len(),
        t[pos].kind == TokenType::CurvedBraceOpen || t[pos].kind == TokenType::Comma,
        depth < MAX_DEPTH,
        members_read(t, pos, depth, before, None) is Done,
    ensures
        ({
            let (value, end) = members_read(t, pos, depth, before, None)->Done_0;
            ||| closed_members(t, pos + 1, end, depth, members, before, value) && (t[pos].kind
                == TokenType::Comma ==> members.len() > 0)
            ||| cut_short(t, pos + 1, end, 0)
        }),
    decreases t.len() - pos, 0int,
{
    let (value, end) = members_read(t, pos, depth, before, None)->Done_0;
    assert(balance(t, pos + 1, pos + 1) == 0);
    assert(members_read(t, pos, depth, before, None) == members_read(
        t,
        pos + 1,
        depth,
        before,
        None,
    ));
    if t[pos + 1].kind == TokenType::CurvedBraceClose {
        let members = Seq::<(Lexeme, Document)>::empty();
        assert(spelled(t[pos + 1]));
        lemma_single(t, pos + 1);
        assert(members_tokens(members) + seq![close_brace()] =~= seq![close_brace()]);
        members
    } else {
        let key = t[pos + 1];
        let name = string_of(key)->Ok_0;
        assert(members_read(t, pos + 1, depth, before, None) == members_read(
            t,
            pos + 2,
            depth,
            before,
            Some(name),
        ));
        assert(spelled(t[pos + 2]));
        lemma_single(t, pos + 1);
        lemma_single(t, pos + 2);
        assert(balance(t, pos + 1, pos + 2) == 0);
        assert(balance(t, pos + 1, pos + 3) == 0);
        let next = t[pos + 3].kind;
        if next == TokenType::EOF {
            assert(members_read(t, pos + 2, depth, before, Some(name)) == members_read(
                t,
                pos + 3,
                depth,
                before,
                Some(name),
            ));
            Seq::empty()
        } else {
            let nested = container_read(t, pos + 3, depth + 1);
            let model = if scalar(next) {
                scalar_of(t[pos + 3])->Ok_0
            } else {
                nested->Done_0.0
            };
            let after = if scalar(next) {
                pos + 4
            } else {
                nested->Done_0.1
            };
            let so_far = before.insert(name, model);
            let first = if scalar(next) {
                assert(members_read(t, pos + 2, depth, before, Some(name)) == members_read(
                    t,
                    pos + 3,
                    depth,
                    before,
                    Some(name),
                ));
                lemma_single(t, pos + 3);
                Document::Scalar(t[pos + 3])
            } else {
                lemma_container_read_end(t, pos + 3, depth + 1);
                sound_container(t, pos + 3, depth + 1)
            };
            assert(members_read(t, pos + 2, depth, before, Some(name)) == members_read(
                t,
                after,
                depth,
                so_far,
                None,
            ));
            lemma_balance_parts(t, pos + 1, pos + 3, after);
            if closed_value(t, pos + 3, after, depth + 1, first, model) {
                let own = document_tokens(first);
                let member = seq![key, colon()] + own;
                lemma_join(t, pos + 1, seq![key], seq![colon()]);
                assert(seq![key] + seq![colon()] =~= seq![key, colon()]);
                lemma_join(t, pos + 1, seq![key, colon()], own);
                lemma_document_balance(first);
                lemma_balance_copy(t, pos + 3, own, own.len() as int);
                if after + 1 >= t.len() {
                    Seq::empty()
                } else if t[after].kind == TokenType::CurvedBraceClose {
                    let members = seq![(key, first)];
                    assert(spelled(t[after]));
                    lemma_single(t, after);
                    lemma_join(t, pos + 1, member, seq![close_brace()]);
                    assert(members.skip(1) =~= Seq::<(Lexeme, Document)>::empty());
                    assert(members_proper(members.skip(1)));
                    assert(members_tokens(members) == member);
                    assert(members_evaluated(members, depth, before) == members_evaluated(
                        members.skip(1),
                        depth,
                        so_far,
                    ));
                    members
                } else {
                    assert(t[after].kind == TokenType::Comma);
                    assert(spelled(t[after]));
                    lemma_single(t, after);
                    let rest = sound_members(t, after, depth, so_far);
                    let members = seq![(key, first)] + rest;
                    assert(members.skip(1) =~= rest);
                    if closed_members(t, after + 1, end, depth, rest, so_far, value) && rest.len()
                        > 0 {
                        lemma_join(t, pos + 1, member, seq![comma()]);
                        lemma_join(
                            t,
                            pos + 1,
                            member + seq![comma()],
                            members_tokens(rest) + seq![close_brace()],
                        );
                        assert(members_tokens(members) == member + seq![comma()] + members_tokens(
                            rest,
                        ));
                        assert(member + seq![comma()] + (members_tokens(rest) + seq![close_brace()])
                            =~= members_tokens(members) + seq![close_brace()]);
                        assert(members_evaluated(members, depth, before) == members_evaluated(
                            rest,
                            depth,
                            so_far,
                        ));
                    } else {
                        assert(balance(t, after, after) == 0);
                        assert(balance(t, after, after + 1) == 0);
                        lemma_balance_parts(t, pos + 1, after, after + 1);
                        lemma_balance_parts(t, pos + 1, after + 1, end);
                    }
                    members
                }
            } else {
                assert(end == after);
                Seq::empty()
            }
        }
    }
}

/// What is read as a value, and closes what it opens, is a document with that value. An object or
/// array that is still open where the tokens end is taken as closed there.
pub proof fn law_read_tokens_are_a_document(t: Seq<Lexeme>)
    requires
        all_spelled(t),
        t.len() > 0,
        t.last().kind == TokenType::EOF,
        document_read(t) is Done,
        balance(t, 0, t.len() as int) == 0,
    ensures
        exists|d: Document|
            {
                &&& proper(d)
                &&& !(d is Scalar)
                &&& t == #[trigger] document_tokens(d).push(t.last())
                &&& evaluated(d, 1) == Ok::<JsonModel, ErrorModel>(document_read(t)->Done_0)
            },
{
    let (value, end) = container_read(t, 0, 1)->Done_0;
    let d = sound_container(t, 0, 1);
    lemma_container_read_end(t, 0, 1);
    lemma_balance_parts(t, 0, end, t.len() as int);
    assert(balance(t, t.len() as int, t.len() as int) == 0);
    assert(balance(t, t.len() - 1, t.len() as int) == balance(t, t.len() - 1, t.len() - 1) + weight(
        t.last().kind,
    ));
    assert(balance(t, t.len() - 1, t.len() - 1) == 0);
    assert(closed_document(t, 0, end, 1, d, value));
    assert(t.subrange(0, end) == document_tokens(d));
    assert(document_tokens(d).push(t.last()) =~= t);
}

proof fn lemma_lexed_from_spelled(text: Seq<char>, i: int, state: LexState)
    requires
        lexed_from(text, i, state) is Ok,
    ensures
        all_spelled(lexed_from(text, i, state)->Ok_0),
        ends_once(lexed_from(text, i, state)->Ok_0),
    decreases text.len() - i,
{
    if i < text.len() {
        let first = emitted(text, i, state)->Ok_0;
        let rest = lexed_from(text, i + 1, advanced(text, i, state))->Ok_0;
        lemma_lexed_from_spelled(text, i + 1, advanced(text, i, state));
        assert forall|k: int| 0 <= k < (first + rest).len() implies spelled(
            #[trigger] (first + rest)[k],
        ) by {
            if k >= first.len() {
                assert(spelled(rest[k - first.len()]));
            }
        }
        assert forall|k: int| 0 <= k < (first + rest).len() - 1 implies (
        #[trigger] (first + rest)[k]).kind != TokenType::EOF by {
            if k >= first.len() {
                assert(rest[k - first.len()].kind != TokenType::EOF);
            }
        }
    }
}

/// The last token is the end mark, and no other token is one.
pub open spec fn ends_once(t: Seq<Lexeme>) -> bool {
    &&& t.len() > 0
    &&& t.last() == end_mark()
    &&& forall|i: int| 0 <= i < t.len() - 1 ==> (#[trigger] t[i]).kind != TokenType::EOF
}

/// The tokens of a text spell the punctuation as it is and have the end mark at the end only.
pub proof fn law_lexed_tokens_are_spelled(text: Seq<char>)
    requires
        lexed(text) is Ok,
    ensures
        all_spelled(lexed(text)->Ok_0),
        ends_once(lexed(text)->Ok_0),
{
    lemma_lexed_from_spelled(text, 0, idle());
}

/// A text that is read as a value, and whose tokens close what they open, is a document with that
/// value.
pub proof fn law_read_text_is_a_document(text: Seq<char>)
    requires
        text_read(text) is Done,
        balance(lexed(text)->Ok_0, 0, lexed(text)->Ok_0.len() as int) == 0,
    ensures
        exists|d: Document|
            {
                &&& proper(d)
                &&& !(d is Scalar)
                &&& lexed(text) == Ok::<Seq<Lexeme>, ErrorModel>(
                    #[trigger] document_tokens(d).push(end_mark()),
                )
                &&& evaluated(d, 1) == Ok::<JsonModel, ErrorModel>(text_read(text)->Done_0)
            },
{
    let t = lexed(text)->Ok_0;
    law_lexed_tokens_are_spelled(text);
    law_read_tokens_are_a_document(t);
    let d = choose|d: Document|
        {
            &&& proper(d)
            &&& !(d is Scalar)
            &&& t == #[trigger] document_tokens(d).push(t.last())
            &&& evaluated(d, 1) == Ok::<JsonModel, ErrorModel>(document_read(t)->Done_0)
        };
    assert(lexed(text) == Ok::<Seq<Lexeme>, ErrorModel>(document_tokens(d).push(end_mark())));
}

/// The kinds of tokens that an object or an array ends with.
pub open spec fn closing(kind: TokenType) -> bool {
    kind == TokenType::CurvedBraceClose || kind == TokenType::SquareBraceClose
}

/// At `i` an object or an array is closed right after another one.
pub open spec fn closes_twice(t: Seq<Lexeme>, i: int, kind: TokenType) -> bool {
    &&& 1 <= i < t.len()
    &&& t[i].kind == kind
    &&& closing(kind)
    &&& closing(t[i - 1].kind)
}

proof fn lemma_container_end_closes(t: Seq<Lexeme>, pos: int, depth: int)
    requires
        ends_once(t),
        0 <= pos < t.len(),
        opening(t[pos].kind),
        container_read(t, pos, depth) is Done,
    ensures
        ({
            let end = container_read(t, pos, depth)->Done_0.1;
            &&& pos < end <= t.len() - 1
            &&& end < t.len() - 1 ==> closing(t[end - 1].kind) && follows_value(t[end].kind)
        }),
    decreases t.len() - pos, 2int,
{
    assert(pos < t.len() - 1);
    if t[pos].kind == TokenType::CurvedBraceOpen {
        assert(container_read(t, pos, depth) == members_read(t, pos, depth, Map::empty(), None));
        lemma_members_end_closes(t, pos, depth, Map::empty(), None);
    } else {
        assert(container_read(t, pos, depth) == items_read(t, pos, depth, Seq::empty()));
        lemma_items_end_closes(t, pos, depth, Seq::empty());
    }
}

proof fn lemma_members_end_closes(
    t: Seq<Lexeme>,
    pos: int,
    depth: int,
    members: Map<Seq<char>, JsonModel>,
    key: Option<Seq<char>>,
)
    requires
        ends_once(t),
        0 <= pos < t.len(),
        members_read(t, pos, depth, members, key) is Done,
    ensures
        ({
            let end = members_read(t, pos, depth, members, key)->Done_0.1;
            &&& pos <= end <= t.len() - 1
            &&& pos < t.len() - 1 ==> pos < end
            &&& end < t.len() - 1 ==> closing(t[end - 1].kind) && follows_value(t[end].kind)
        }),
    decreases t.len() - pos, 0int,
{
    if pos + 1 < t.len() {
        let current = t[pos];
        let next = t[pos + 1].kind;
        if current.kind == TokenType::CurvedBraceOpen || current.kind == TokenType::Comma {
            lemma_members_end_closes(t, pos + 1, depth, members, key);
        } else if current.kind == TokenType::Colon {
            let name = key->0;
            if opening(next) {
                let (value, end) = container_read(t, pos + 1, depth + 1)->Done_0;
                lemma_container_end_closes(t, pos + 1, depth + 1);
                lemma_members_end_closes(t, end, depth, members.insert(name, value), None);
            } else {
                lemma_members_end_closes(t, pos + 1, depth, members, key);
            }
        } else if scalar(current.kind) {
            let value = scalar_of(current)->Ok_0;
            if key is Some {
                lemma_members_end_closes(
                    t,
                    pos + 1,
                    depth,
                    members.insert(key->0, value),
                    None,
                );
            } else {
                lemma_members_end_closes(t, pos + 1, depth, members, Some(value->String_0));
            }
        }
    }
}

proof fn lemma_items_end_closes(t: Seq<Lexeme>, pos: int, depth: int, items: Seq<JsonModel>)
    requires
        ends_once(t),
        0 <= pos < t.len(),
        items_read(t, pos, depth, items) is Done,
    ensures
        ({
            let end = items_read(t, pos, depth, items)->Done_0.1;
            &&& pos <= end <= t.len() - 1
            &&& pos < t.len() - 1 ==> pos < end
            &&& end < t.len() - 1 ==> closing(t[end - 1].kind) && follows_value(t[end].kind)
        }),
    decreases t.len() - pos, 0int,
{
    if pos + 1 < t.len() {
        let current = t[pos];
        let next = t[pos + 1].kind;
        if current.kind == TokenType::SquareBraceOpen || current.kind == TokenType::Comma {
            if opening(next) {
                let (value, end) = container_read(t, pos + 1, depth + 1)->Done_0;
                lemma_container_end_closes(t, pos + 1, depth + 1);
                lemma_items_end_closes(t, end, depth, items.push(value));
            } else {
                lemma_items_end_closes(t, pos + 1, depth, items);
            }
        } else if scalar(current.kind) {
            lemma_items_end_closes(t, pos + 1, depth, items.push(scalar_of(current)->Ok_0));
        }
    }
}

proof fn unhandled_in_container(t: Seq<Lexeme>, pos: int, depth: int) -> (i: int)
    requires
        ends_once(t),
        0 <= pos < t.len(),
        opening(t[pos].kind),
        container_read(t, pos, depth) is Unhandled,
    ensures
        closes_twice(t, i, container_read(t, pos, depth)->Unhandled_0),
    decreases t.len() - pos, 2int,
{
    if t[pos].kind == TokenType::CurvedBraceOpen {
        assert(container_read(t, pos, depth) == members_read(t, pos, depth, Map::empty(), None));
        unhandled_in_members(t, pos, depth, Map::empty(), None)
    } else {
        assert(container_read(t, pos, depth) == items_read(t, pos, depth, Seq::empty()));
        unhandled_in_items(t, pos, depth, Seq::empty())
    }
}

proof fn unhandled_in_members(
    t: Seq<Lexeme>,
    pos: int,
    depth: int,
    members: Map<Seq<char>, JsonModel>,
    key: Option<Seq<char>>,
) -> (i: int)
    requires
        ends_once(t),
        0 <= pos < t.len(),
        t[pos].kind != TokenType::SquareBraceOpen,
        t[pos].kind == TokenType::SquareBraceClose ==> pos >= 1 && closing(t[pos - 1].kind),
        members_read(t, pos, depth, members, key) is Unhandled,
    ensures
        closes_twice(t, i, members_read(t, pos, depth, members, key)->Unhandled_0),
    decreases t.len() - pos, 0int,
{
    let current = t[pos];
    let next = t[pos + 1].kind;
    if current.kind == TokenType::SquareBraceClose {
        pos
    } else if current.kind == TokenType::Colon {
        let name = key->0;
        if opening(next) {
            if container_read(t, pos + 1, depth + 1) is Unhandled {
                unhandled_in_container(t, pos + 1, depth + 1)
            } else {
                let (value, end) = container_read(t, pos + 1, depth + 1)->Done_0;
                lemma_container_end_closes(t, pos + 1, depth + 1);
                unhandled_in_members(t, end, depth, members.insert(name, value), None)
            }
        } else {
            unhandled_in_members(t, pos + 1, depth, members, key)
        }
    } else if scalar(current.kind) {
        let value = scalar_of(current)->Ok_0;
        if key is Some {
            unhandled_in_members(t, pos + 1, depth, members.insert(key->0, value), None)
        } else {
            unhandled_in_members(t, pos + 1, depth, members, Some(value->String_0))
        }
    } else {
        unhandled_in_members(t, pos + 1, depth, members, key)
    }
}

proof fn unhandled_in_items(t: Seq<Lexeme>, pos: int, depth: int, items: Seq<JsonModel>) -> (i: int)
    requires
        ends_once(t),
        0 <= pos < t.len(),
        t[pos].kind != TokenType::CurvedBraceOpen,
        t[pos].kind != TokenType::Colon,
        t[pos].kind == TokenType::CurvedBraceClose ==> pos >= 1 && closing(t[pos - 1].kind),
        items_read(t, pos, depth, items) is Unhandled,
    ensures
        closes_twice(t, i, items_read(t, pos, depth, items)->Unhandled_0),
    decreases t.len() - pos, 0int,
{
    let current = t[pos];
    let next = t[pos + 1].kind;
    if current.kind == TokenType::CurvedBraceClose {
        pos
    } else if scalar(current.kind) {
        unhandled_in_items(t, pos + 1, depth, items.push(scalar_of(current)->Ok_0))
    } else if opening(next) {
        if container_read(t, pos + 1, depth + 1) is Unhandled {
            unhandled_in_container(t, pos + 1, depth + 1)
        } else {
            let (value, end) = container_read(t, pos + 1, depth + 1)->Done_0;
            lemma_container_end_closes(t, pos + 1, depth + 1);
            unhandled_in_items(t, end, depth, items.push(value))
        }
    } else {
        unhandled_in_items(t, pos + 1, depth, items)
    }
}

/// The only token that the reader may have no rule for is a closing brace or bracket that stands
/// right after another one.
pub proof fn law_unhandled_token_closes_twice(text: Seq<char>)
    requires
        text_read(text) is Unhandled,
    ensures
        exists|i: int| closes_twice(lexed(text)->Ok_0, i, text_read(text)->Unhandled_0),
{
    let t = lexed(text)->Ok_0;
    law_lexed_tokens_are_spelled(text);
    let i = unhandled_in_container(t, 0, 1);
    assert(closes_twice(t, i, text_read(text)->Unhandled_0));
}

} // verus!
