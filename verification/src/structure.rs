//! What holds of the objects and arrays that are read: how deep they nest, and what they hold.

use crate::document::{
    document_tokens, evaluated, items_evaluated, members_evaluated, proper, Document,
};
use crate::error::{ErrorModel, MAX_DEPTH};
use crate::layout::{
    all_writable, blank, fitting, laid_out, law_laid_out_document_is_read,
    law_laid_out_tokens_are_found,
};
use crate::lexer::lexed;
use crate::parser::{
    array_read, container_read, items_read, lemma_container_read_end, lemma_items_read_end,
    lemma_members_read_end, members_read, object_read, opening, scalar_of, text_read, Reading,
};
use crate::token::{string_of, unescaped, Lexeme, TokenType};
use crate::value::JsonModel;
use vstd::prelude::*;

verus! {

/// Objects and arrays stand at most `levels` deep inside each other in the value.
pub open spec fn within(value: JsonModel, levels: int) -> bool
    decreases levels,
{
    match value {
        JsonModel::Object(members) => levels > 0 && forall|name: Seq<char>| #[trigger]
            members.contains_key(name) ==> within(members[name], levels - 1),
        JsonModel::Array(items) => levels > 0 && forall|i: int|
            0 <= i < items.len() ==> within(#[trigger] items[i], levels - 1),
        _ => true,
    }
}

proof fn lemma_insert_within(
    members: Map<Seq<char>, JsonModel>,
    name: Seq<char>,
    value: JsonModel,
    levels: int,
)
    requires
        within(JsonModel::Object(members), levels),
        within(value, levels - 1),
    ensures
        within(JsonModel::Object(members.insert(name, value)), levels),
{
    let more = members.insert(name, value);
    let object = JsonModel::Object(members);
    assert(forall|other: Seq<char>| #[trigger]
        object->Object_0.contains_key(other) ==> within(object->Object_0[other], levels - 1));
    assert forall|other: Seq<char>| #[trigger] more.contains_key(other) implies within(
        more[other],
        levels - 1,
    ) by {
        if other != name {
            assert(object->Object_0.contains_key(other));
        }
    }
}

proof fn lemma_push_within(items: Seq<JsonModel>, value: JsonModel, levels: int)
    requires
        within(JsonModel::Array(items), levels),
        within(value, levels - 1),
    ensures
        within(JsonModel::Array(items.push(value)), levels),
{
    let more = items.push(value);
    let array = JsonModel::Array(items);
    assert(forall|i: int|
        0 <= i < array->Array_0.len() ==> within(#[trigger] array->Array_0[i], levels - 1));
    assert forall|i: int| 0 <= i < more.len() implies within(#[trigger] more[i], levels - 1) by {
        if i < items.len() {
            assert(more[i] == array->Array_0[i]);
        }
    }
}

proof fn lemma_container_within(t: Seq<Lexeme>, pos: int, depth: int)
    requires
        0 <= pos <= t.len(),
    ensures
        container_read(t, pos, depth) matches Reading::Done((value, _)) ==> within(
            value,
            MAX_DEPTH - depth,
        ),
    decreases t.len() - pos, 2int,
{
    if depth < MAX_DEPTH {
        if t[pos].kind == TokenType::CurvedBraceOpen {
            lemma_members_within(t, pos, depth, Map::empty(), None);
        } else {
            lemma_items_within(t, pos, depth, Seq::empty());
        }
    }
}

proof fn lemma_members_within(
    t: Seq<Lexeme>,
    pos: int,
    depth: int,
    members: Map<Seq<char>, JsonModel>,
    key: Option<Seq<char>>,
)
    requires
        0 <= pos <= t.len(),
        within(JsonModel::Object(members), MAX_DEPTH - depth),
    ensures
        members_read(t, pos, depth, members, key) matches Reading::Done((value, _)) ==> within(
            value,
            MAX_DEPTH - depth,
        ),
    decreases t.len() - pos, 0int,
{
    if pos + 1 < t.len() {
        let current = t[pos];
        lemma_members_within(t, pos + 1, depth, members, key);
        if let Some(name) = key {
            if opening(t[pos + 1].kind) {
                lemma_container_within(t, pos + 1, depth + 1);
                lemma_container_read_end(t, pos + 1, depth + 1);
                if let Reading::Done((value, end)) = container_read(t, pos + 1, depth + 1) {
                    lemma_insert_within(members, name, value, MAX_DEPTH - depth);
                    lemma_members_within(t, end, depth, members.insert(name, value), None);
                }
            }
            if let Ok(value) = scalar_of(current) {
                lemma_insert_within(members, name, value, MAX_DEPTH - depth);
                lemma_members_within(t, pos + 1, depth, members.insert(name, value), None);
            }
        } else {
            if let Ok(JsonModel::String(name)) = scalar_of(current) {
                lemma_members_within(t, pos + 1, depth, members, Some(name));
            }
        }
    }
}

proof fn lemma_items_within(t: Seq<Lexeme>, pos: int, depth: int, items: Seq<JsonModel>)
    requires
        0 <= pos <= t.len(),
        within(JsonModel::Array(items), MAX_DEPTH - depth),
    ensures
        items_read(t, pos, depth, items) matches Reading::Done((value, _)) ==> within(
            value,
            MAX_DEPTH - depth,
        ),
    decreases t.len() - pos, 0int,
{
    if pos + 1 < t.len() {
        let current = t[pos];
        lemma_items_within(t, pos + 1, depth, items);
        if opening(t[pos + 1].kind) {
            lemma_container_within(t, pos + 1, depth + 1);
            lemma_container_read_end(t, pos + 1, depth + 1);
            if let Reading::Done((value, end)) = container_read(t, pos + 1, depth + 1) {
                lemma_push_within(items, value, MAX_DEPTH - depth);
                lemma_items_within(t, end, depth, items.push(value));
            }
        }
        if let Ok(value) = scalar_of(current) {
            lemma_push_within(items, value, MAX_DEPTH - depth);
            lemma_items_within(t, pos + 1, depth, items.push(value));
        }
    }
}

/// What is read from `pos` on, `depth` objects and arrays deep, is an object or an array as asked for.
/// It nests so deep that with `depth` it stays within `MAX_DEPTH`, and reading it does not go back.
pub proof fn law_container_nests_within_bounds(t: Seq<Lexeme>, pos: int, depth: int)
    requires
        0 <= pos <= t.len(),
    ensures
        object_read(t, pos, depth) matches Reading::Done((value, end)) ==> {
            &&& value is Object
            &&& within(value, MAX_DEPTH - depth)
            &&& pos <= end <= t.len()
        },
        array_read(t, pos, depth) matches Reading::Done((value, end)) ==> {
            &&& value is Array
            &&& within(value, MAX_DEPTH - depth)
            &&& pos <= end <= t.len()
        },
{
    if depth < MAX_DEPTH {
        lemma_members_within(t, pos, depth, Map::empty(), None);
        lemma_members_kind(t, pos, depth, Map::empty(), None);
        lemma_members_read_end(t, pos, depth, Map::empty(), None);
        lemma_items_within(t, pos, depth, Seq::empty());
        lemma_items_kind(t, pos, depth, Seq::empty());
        lemma_items_read_end(t, pos, depth, Seq::empty());
    }
}

/// A value that is read is an object or an array, and nests less than `MAX_DEPTH` deep.
pub proof fn law_read_value_nests_within_bounds(text: Seq<char>)
    ensures
        text_read(text) matches Reading::Done(value) ==> {
            &&& value is Object || value is Array
            &&& within(value, MAX_DEPTH - 1)
        },
{
    if let Ok(t) = lexed(text) {
        if t.len() >= 2 {
            law_container_nests_within_bounds(t, 0, 1);
        }
    }
}

proof fn lemma_members_kind(
    t: Seq<Lexeme>,
    pos: int,
    depth: int,
    members: Map<Seq<char>, JsonModel>,
    key: Option<Seq<char>>,
)
    requires
        0 <= pos <= t.len(),
    ensures
        members_read(t, pos, depth, members, key) matches Reading::Done((value, _)) ==> value
            is Object,
    decreases t.len() - pos,
{
    if pos + 1 < t.len() {
        lemma_members_kind(t, pos + 1, depth, members, key);
        if let Some(name) = key {
            if let Reading::Done((value, end)) = container_read(t, pos + 1, depth + 1) {
                if pos < end <= t.len() {
                    lemma_members_kind(t, end, depth, members.insert(name, value), None);
                }
            }
            if let Ok(value) = scalar_of(t[pos]) {
                lemma_members_kind(t, pos + 1, depth, members.insert(name, value), None);
            }
        } else {
            if let Ok(JsonModel::String(name)) = scalar_of(t[pos]) {
                lemma_members_kind(t, pos + 1, depth, members, Some(name));
            }
        }
    }
}

proof fn lemma_items_kind(t: Seq<Lexeme>, pos: int, depth: int, items: Seq<JsonModel>)
    requires
        0 <= pos <= t.len(),
    ensures
        items_read(t, pos, depth, items) matches Reading::Done((value, _)) ==> value is Array,
    decreases t.len() - pos,
{
    if pos + 1 < t.len() {
        lemma_items_kind(t, pos + 1, depth, items);
        if let Reading::Done((value, end)) = container_read(t, pos + 1, depth + 1) {
            if pos < end <= t.len() {
                lemma_items_kind(t, end, depth, items.push(value));
            }
        }
        if let Ok(value) = scalar_of(t[pos]) {
            lemma_items_kind(t, pos + 1, depth, items.push(value));
        }
    }
}

/// How deep objects and arrays stand inside each other in a document.
pub open spec fn nesting(d: Document) -> int
    decreases d,
{
    match d {
        Document::Scalar(_) => 0,
        Document::Object(members) => 1 + members_nesting(members),
        Document::Array(items) => 1 + items_nesting(items),
    }
}

/// The deepest nesting among the values of the members.
pub open spec fn members_nesting(members: Seq<(Lexeme, Document)>) -> int
    decreases members,
{
    if members.len() == 0 {
        0
    } else {
        let first = nesting(members[0].1);
        let rest = members_nesting(members.skip(1));
        if first > rest {
            first
        } else {
            rest
        }
    }
}

/// The deepest nesting among the items.
pub open spec fn items_nesting(items: Seq<Document>) -> int
    decreases items,
{
    if items.len() == 0 {
        0
    } else {
        let first = nesting(items[0]);
        let rest = items_nesting(items.skip(1));
        if first > rest {
            first
        } else {
            rest
        }
    }
}

proof fn lemma_unescaped_fault(body: Seq<char>)
    ensures
        unescaped(body) != Err::<Seq<char>, ErrorModel>(ErrorModel::MaxDepthExceeded),
    decreases body.len(),
{
    if body.len() > 0 {
        lemma_unescaped_fault(body.skip(1));
        if body.len() > 1 {
            lemma_unescaped_fault(body.skip(2));
        }
        if body.len() >= 6 {
            lemma_unescaped_fault(body.skip(6));
        }
    }
}

proof fn lemma_scalar_fault(lexeme: Lexeme)
    ensures
        scalar_of(lexeme) != Err::<JsonModel, ErrorModel>(ErrorModel::MaxDepthExceeded),
        string_of(lexeme) != Err::<Seq<char>, ErrorModel>(ErrorModel::MaxDepthExceeded),
{
    lemma_unescaped_fault(lexeme.text.subrange(1, lexeme.text.len() - 1));
}

proof fn lemma_nesting(d: Document, depth: int)
    requires
        depth <= MAX_DEPTH,
    ensures
        evaluated(d, depth) is Ok ==> nesting(d) <= MAX_DEPTH - depth,
        evaluated(d, depth) == Err::<JsonModel, ErrorModel>(ErrorModel::MaxDepthExceeded)
            ==> nesting(d) > MAX_DEPTH - depth,
    decreases d,
{
    match d {
        Document::Scalar(lexeme) => {
            lemma_scalar_fault(lexeme);
        },
        Document::Object(members) => {
            lemma_members_nesting_positive(members);
            if depth < MAX_DEPTH {
                lemma_members_nesting(members, depth, Map::empty());
            }
        },
        Document::Array(items) => {
            lemma_items_nesting_positive(items);
            if depth < MAX_DEPTH {
                lemma_items_nesting(items, depth, Seq::empty());
            }
        },
    }
}

proof fn lemma_members_nesting_positive(members: Seq<(Lexeme, Document)>)
    ensures
        members_nesting(members) >= 0,
    decreases members.len(),
{
    if members.len() > 0 {
        lemma_members_nesting_positive(members.skip(1));
    }
}

proof fn lemma_items_nesting_positive(items: Seq<Document>)
    ensures
        items_nesting(items) >= 0,
    decreases items.len(),
{
    if items.len() > 0 {
        lemma_items_nesting_positive(items.skip(1));
    }
}

proof fn lemma_members_nesting(
    members: Seq<(Lexeme, Document)>,
    depth: int,
    before: Map<Seq<char>, JsonModel>,
)
    requires
        depth < MAX_DEPTH,
    ensures
        members_evaluated(members, depth, before) is Ok ==> members_nesting(members) < MAX_DEPTH
            - depth,
        members_evaluated(members, depth, before) == Err::<Map<Seq<char>, JsonModel>, ErrorModel>(
            ErrorModel::MaxDepthExceeded,
        ) ==> members_nesting(members) >= MAX_DEPTH - depth,
    decreases members,
{
    if members.len() > 0 {
        lemma_scalar_fault(members[0].0);
        lemma_nesting(members[0].1, depth + 1);
        if let Ok(name) = string_of(members[0].0) {
            if let Ok(value) = evaluated(members[0].1, depth + 1) {
                lemma_members_nesting(members.skip(1), depth, before.insert(name, value));
            }
        }
    }
}

proof fn lemma_items_nesting(items: Seq<Document>, depth: int, before: Seq<JsonModel>)
    requires
        depth < MAX_DEPTH,
    ensures
        items_evaluated(items, depth, before) is Ok ==> items_nesting(items) < MAX_DEPTH - depth,
        items_evaluated(items, depth, before) == Err::<Seq<JsonModel>, ErrorModel>(
            ErrorModel::MaxDepthExceeded,
        ) ==> items_nesting(items) >= MAX_DEPTH - depth,
    decreases items,
{
    if items.len() > 0 {
        lemma_nesting(items[0], depth + 1);
        if let Ok(value) = evaluated(items[0], depth + 1) {
            lemma_items_nesting(items.skip(1), depth, before.push(value));
        }
    }
}

/// A document that nests `MAX_DEPTH` deep or deeper is refused, however it is laid out, and one that
/// nests less deep is not refused for its depth.
pub proof fn law_deep_documents_are_refused(d: Document, gaps: Seq<Seq<char>>)
    requires
        proper(d),
        !(d is Scalar),
        all_writable(document_tokens(d)),
        fitting(document_tokens(d), gaps),
    ensures
        nesting(d) >= MAX_DEPTH ==> text_read(laid_out(document_tokens(d), gaps)) is Failed,
        nesting(d) < MAX_DEPTH ==> text_read(laid_out(document_tokens(d), gaps))
            != Reading::<JsonModel, ErrorModel>::Failed(ErrorModel::MaxDepthExceeded),
{
    law_laid_out_document_is_read(d, gaps);
    lemma_nesting(d, 1);
}

/// The key of a member, where its token stands for a string.
pub open spec fn name_of(member: (Lexeme, Document)) -> Seq<char> {
    string_of(member.0)->Ok_0
}

/// The value of a member, where it has one.
pub open spec fn value_of(member: (Lexeme, Document), depth: int) -> JsonModel {
    evaluated(member.1, depth + 1)->Ok_0
}

/// The key and the value of the member can be read.
pub open spec fn readable(member: (Lexeme, Document), depth: int) -> bool {
    string_of(member.0) is Ok && evaluated(member.1, depth + 1) is Ok
}

/// No two of the members have the same key.
pub open spec fn keys_distinct(members: Seq<(Lexeme, Document)>) -> bool {
    forall|i: int, j: int|
        0 <= i < j < members.len() ==> name_of(#[trigger] members[i]) != name_of(
            #[trigger] members[j],
        )
}

/// All of the members can be read, and no two of them have the same key.
pub open spec fn members_readable(members: Seq<(Lexeme, Document)>, depth: int) -> bool {
    &&& forall|i: int| 0 <= i < members.len() ==> readable(#[trigger] members[i], depth)
    &&& keys_distinct(members)
}

/// The map holds every member's value under its key, and nothing else.
pub open spec fn holds_members(
    values: Map<Seq<char>, JsonModel>,
    members: Seq<(Lexeme, Document)>,
    depth: int,
) -> bool {
    &&& forall|i: int|
        0 <= i < members.len() ==> values.contains_key(name_of(#[trigger] members[i]))
            && values[name_of(members[i])] == value_of(members[i], depth)
    &&& forall|name: Seq<char>| #[trigger]
        values.contains_key(name) ==> exists|i: int|
            0 <= i < members.len() && name == name_of(#[trigger] members[i])
}

spec fn fresh(members: Seq<(Lexeme, Document)>, before: Map<Seq<char>, JsonModel>) -> bool {
    forall|i: int| 0 <= i < members.len() ==> !before.contains_key(name_of(#[trigger] members[i]))
}

spec fn holds_also(
    values: Map<Seq<char>, JsonModel>,
    members: Seq<(Lexeme, Document)>,
    depth: int,
    before: Map<Seq<char>, JsonModel>,
) -> bool {
    &&& forall|i: int|
        0 <= i < members.len() ==> values.contains_key(name_of(#[trigger] members[i]))
            && values[name_of(members[i])] == value_of(members[i], depth)
    &&& forall|name: Seq<char>| #[trigger]
        before.contains_key(name) ==> values.contains_key(name) && values[name] == before[name]
    &&& forall|name: Seq<char>| #[trigger]
        values.contains_key(name) ==> before.contains_key(name) || exists|i: int|
            0 <= i < members.len() && name == name_of(#[trigger] members[i])
}

/// What holds of the members and the map that they give holds with one more member in front.
proof fn lemma_one_more_member(
    members: Seq<(Lexeme, Document)>,
    depth: int,
    before: Map<Seq<char>, JsonModel>,
    values: Map<Seq<char>, JsonModel>,
)
    requires
        members.len() > 0,
        readable(members[0], depth),
        !before.contains_key(name_of(members[0])),
        members_readable(members.skip(1), depth),
        fresh(members.skip(1), before.insert(name_of(members[0]), value_of(members[0], depth))),
        holds_also(
            values,
            members.skip(1),
            depth,
            before.insert(name_of(members[0]), value_of(members[0], depth)),
        ),
    ensures
        members_readable(members, depth),
        fresh(members, before),
        holds_also(values, members, depth, before),
{
    let rest = members.skip(1);
    let name = name_of(members[0]);
    let more = before.insert(name, value_of(members[0], depth));
    assert(more.contains_key(name));
    assert forall|i: int| 0 <= i < members.len() implies readable(#[trigger] members[i], depth)
        && !before.contains_key(name_of(members[i])) && values.contains_key(name_of(members[i]))
        && values[name_of(members[i])] == value_of(members[i], depth) by {
        if i > 0 {
            assert(rest[i - 1] == members[i]);
        }
    }
    assert forall|i: int, j: int| 0 <= i < j < members.len() implies name_of(#[trigger] members[i])
        != name_of(#[trigger] members[j]) by {
        assert(rest[j - 1] == members[j]);
        assert(!more.contains_key(name_of(rest[j - 1])));
        if i > 0 {
            assert(rest[i - 1] == members[i]);
        }
    }
    assert forall|other: Seq<char>| #[trigger] before.contains_key(other) implies values.contains_key(
        other,
    ) && values[other] == before[other] by {
        assert(more.contains_key(other));
    }
    assert forall|other: Seq<char>| #[trigger] values.contains_key(other) implies before.contains_key(
        other,
    ) || exists|i: int| 0 <= i < members.len() && other == name_of(#[trigger] members[i]) by {
        if !more.contains_key(other) {
            let k = choose|k: int| 0 <= k < rest.len() && other == name_of(#[trigger] rest[k]);
            assert(rest[k] == members[k + 1]);
        } else if other == name {
            assert(name_of(members[0]) == other);
        }
    }
}

proof fn lemma_members_give_map(
    members: Seq<(Lexeme, Document)>,
    depth: int,
    before: Map<Seq<char>, JsonModel>,
)
    ensures
        members_evaluated(members, depth, before) matches Ok(values) ==> {
            &&& members_readable(members, depth)
            &&& fresh(members, before)
            &&& holds_also(values, members, depth, before)
        },
    decreases members.len(),
{
    if members.len() > 0 && readable(members[0], depth) {
        let name = name_of(members[0]);
        let more = before.insert(name, value_of(members[0], depth));
        lemma_members_give_map(members.skip(1), depth, more);
        if !before.contains_key(name) {
            if let Ok(values) = members_evaluated(members.skip(1), depth, more) {
                lemma_one_more_member(members, depth, before, values);
            }
        }
    }
}

proof fn lemma_readable_members_give_map(
    members: Seq<(Lexeme, Document)>,
    depth: int,
    before: Map<Seq<char>, JsonModel>,
)
    requires
        members_readable(members, depth),
        fresh(members, before),
    ensures
        members_evaluated(members, depth, before) is Ok,
    decreases members.len(),
{
    if members.len() > 0 {
        let rest = members.skip(1);
        let more = before.insert(name_of(members[0]), value_of(members[0], depth));
        assert(readable(members[0], depth));
        assert forall|i: int| 0 <= i < rest.len() implies readable(#[trigger] rest[i], depth)
            && !more.contains_key(name_of(rest[i])) by {
            assert(rest[i] == members[i + 1]);
        }
        assert forall|i: int, j: int| 0 <= i < j < rest.len() implies name_of(#[trigger] rest[i])
            != name_of(#[trigger] rest[j]) by {
            assert(rest[i] == members[i + 1]);
            assert(rest[j] == members[j + 1]);
        }
        lemma_readable_members_give_map(rest, depth, more);
    }
}

/// The object that is written with the given members is read if each of them can be read and no key
/// occurs twice, and not otherwise. It holds each member's value under its key, and nothing else.
pub proof fn law_object_holds_its_members(members: Seq<(Lexeme, Document)>, depth: int)
    requires
        depth < MAX_DEPTH,
    ensures
        evaluated(Document::Object(members), depth) is Ok <==> members_readable(members, depth),
        evaluated(Document::Object(members), depth) matches Ok(object) ==> {
            &&& object is Object
            &&& holds_members(object->Object_0, members, depth)
        },
{
    lemma_members_give_map(members, depth, Map::empty());
    if members_readable(members, depth) {
        lemma_readable_members_give_map(members, depth, Map::empty());
    }
}

/// The order in which the members of an object are written does not matter.
pub proof fn law_order_of_members_is_free(
    a: Seq<(Lexeme, Document)>,
    b: Seq<(Lexeme, Document)>,
    depth: int,
)
    requires
        depth < MAX_DEPTH,
        a.to_multiset() == b.to_multiset(),
    ensures
        evaluated(Document::Object(a), depth) is Ok ==> evaluated(Document::Object(a), depth)
            == evaluated(Document::Object(b), depth),
{
    if evaluated(Document::Object(a), depth) is Ok {
        law_object_holds_its_members(a, depth);
        law_object_holds_its_members(b, depth);
        lemma_same_members(a, b);
        assert(a.no_duplicates());
        a.lemma_multiset_has_no_duplicates();
        b.lemma_multiset_has_no_duplicates_conv();
        assert forall|j: int| 0 <= j < b.len() implies readable(#[trigger] b[j], depth) by {
            assert(a.contains(b[j]));
        }
        assert forall|i: int, j: int| 0 <= i < j < b.len() implies name_of(#[trigger] b[i])
            != name_of(#[trigger] b[j]) by {
            assert(b[i] != b[j]);
            assert(a.contains(b[i]));
            assert(a.contains(b[j]));
        }
        let va = evaluated(Document::Object(a), depth)->Ok_0->Object_0;
        let vb = evaluated(Document::Object(b), depth)->Ok_0->Object_0;
        assert forall|name: Seq<char>| va.contains_key(name) <==> vb.contains_key(name) by {
            if va.contains_key(name) {
                let i = choose|i: int| 0 <= i < a.len() && name == name_of(#[trigger] a[i]);
                assert(b.contains(a[i]));
            }
            if vb.contains_key(name) {
                let i = choose|i: int| 0 <= i < b.len() && name == name_of(#[trigger] b[i]);
                assert(a.contains(b[i]));
            }
        }
        assert forall|name: Seq<char>| #[trigger] va.contains_key(name) implies va[name]
            == vb[name] by {
            let i = choose|i: int| 0 <= i < a.len() && name == name_of(#[trigger] a[i]);
            assert(b.contains(a[i]));
        }
        assert(va =~= vb);
    }
}

proof fn lemma_same_members(a: Seq<(Lexeme, Document)>, b: Seq<(Lexeme, Document)>)
    requires
        a.to_multiset() == b.to_multiset(),
    ensures
        forall|i: int| 0 <= i < a.len() ==> b.contains(#[trigger] a[i]),
        forall|i: int| 0 <= i < b.len() ==> a.contains(#[trigger] b[i]),
{
    a.to_multiset_ensures();
    b.to_multiset_ensures();
    assert forall|i: int| 0 <= i < a.len() implies b.contains(#[trigger] a[i]) by {
        assert(a.contains(a[i]));
        assert(a.to_multiset().count(a[i]) > 0);
    }
    assert forall|i: int| 0 <= i < b.len() implies a.contains(#[trigger] b[i]) by {
        assert(b.contains(b[i]));
        assert(b.to_multiset().count(b[i]) > 0);
    }
}

proof fn lemma_items_evaluated(items: Seq<Document>, depth: int, before: Seq<JsonModel>)
    ensures
        items_evaluated(items, depth, before) is Ok <==> forall|i: int|
            0 <= i < items.len() ==> evaluated(#[trigger] items[i], depth + 1) is Ok,
        items_evaluated(items, depth, before) matches Ok(values) ==> values == before + Seq::new(
            items.len(),
            |i: int| evaluated(items[i], depth + 1)->Ok_0,
        ),
    decreases items.len(),
{
    if items.len() > 0 {
        let rest = items.skip(1);
        assert forall|i: int| 0 <= i < rest.len() implies #[trigger] rest[i] == items[i + 1] by {}
        let first = evaluated(items[0], depth + 1);
        if first is Ok {
            let more = before.push(first->Ok_0);
            lemma_items_evaluated(rest, depth, more);
            let result = items_evaluated(items, depth, before);
            assert(result == items_evaluated(rest, depth, more));
            if result is Ok {
                assert forall|i: int| 0 <= i < items.len() implies evaluated(
                    #[trigger] items[i],
                    depth + 1,
                ) is Ok by {
                    if i > 0 {
                        assert(rest[i - 1] == items[i]);
                    }
                }
                let tail = Seq::new(rest.len(), |i: int| evaluated(rest[i], depth + 1)->Ok_0);
                let all = Seq::new(items.len(), |i: int| evaluated(items[i], depth + 1)->Ok_0);
                assert(more + tail =~= before + all);
            } else {
                let k = choose|k: int|
                    0 <= k < rest.len() && !(evaluated(#[trigger] rest[k], depth + 1) is Ok);
                assert(rest[k] == items[k + 1]);
            }
        }
    } else {
        assert(before =~= before + Seq::<JsonModel>::new(
            0,
            |i: int| evaluated(items[i], depth + 1)->Ok_0,
        ));
    }
}

/// The array that is written with the given items is read if each of them can be read, and not
/// otherwise. It holds their values in their order.
pub proof fn law_array_holds_its_items(items: Seq<Document>, depth: int)
    requires
        depth < MAX_DEPTH,
    ensures
        evaluated(Document::Array(items), depth) is Ok <==> forall|i: int|
            0 <= i < items.len() ==> evaluated(#[trigger] items[i], depth + 1) is Ok,
        evaluated(Document::Array(items), depth) matches Ok(array) ==> {
            &&& array is Array
            &&& array->Array_0 == Seq::new(
                items.len(),
                |i: int| evaluated(items[i], depth + 1)->Ok_0,
            )
        },
{
    lemma_items_evaluated(items, depth, Seq::empty());
}

/// Whitespace between the tokens of a document does not matter.
pub proof fn law_gaps_do_not_matter(d: Document, gaps: Seq<Seq<char>>, others: Seq<Seq<char>>)
    requires
        proper(d),
        !(d is Scalar),
        all_writable(document_tokens(d)),
        fitting(document_tokens(d), gaps),
        fitting(document_tokens(d), others),
    ensures
        text_read(laid_out(document_tokens(d), gaps)) == text_read(
            laid_out(document_tokens(d), others),
        ),
{
    law_laid_out_document_is_read(d, gaps);
    law_laid_out_document_is_read(d, others);
}

/// A text of nothing but whitespace is empty.
pub proof fn law_blank_text_is_empty(text: Seq<char>)
    requires
        blank(text),
    ensures
        text_read(text) == Reading::<JsonModel, ErrorModel>::Failed(ErrorModel::EmptyFile),
{
    let none = Seq::<Lexeme>::empty();
    law_laid_out_tokens_are_found(none, seq![text]);
}

} // verus!
