//! Values that are written out as texts are read back from there as themselves.

use crate::document::{
    close_brace, close_bracket, colon, comma, document_tokens, evaluated, items_proper,
    items_tokens, members_proper, members_tokens, open_brace, open_bracket, proper, wrong_kind,
    Document,
};
use crate::double::{
    law_exact_numbers_are_kept, law_nearest_is_one, nearest, rounded, units, INFINITE, SIGN,
};
use crate::error::{digit_char, written, ErrorModel, MAX_DEPTH};
use crate::layout::{
    all_writable, ascii, blank, fitting, laid_out, law_ascii_words_are_plain,
    law_laid_out_document_is_read, law_text_after_document_is_refused, words_end, writable,
};
use crate::lexer::classified;
use crate::natural::power;
use crate::number::{
    decimal_digit, decimal_digits, decimal_exponent, digits, digits_value, exponent, exponent_at,
    exponent_value, float_bits, float_code, magnitude, small_letter, unsigned, whole,
};
use crate::parser::{text_read, Reading};
use crate::scalars::{
    integer_token, law_ascii_floats_are_read, law_integers_are_read_back,
    law_strings_are_read_back, lemma_digit_run, lemma_written_digits, string_token,
};
use crate::structure::{
    law_array_holds_its_items, law_object_holds_its_members, name_of, readable, value_of, within,
};
use crate::token::{string_of, Lexeme, TokenType};
use crate::value::JsonModel;
use vstd::prelude::*;

verus! {

/// Whether the bits stand for a number that is neither infinite nor none.
pub open spec fn finite(bits: u64) -> bool {
    bits % SIGN < INFINITE
}

/// Whether `word` is a floating-point number in ASCII that is read as the one with the given bits.
pub open spec fn writes_float(word: Seq<char>, bits: u64) -> bool {
    &&& ascii(word)
    &&& classified(word) == Ok::<TokenType, ErrorModel>(TokenType::Float)
    &&& float_bits(word) == bits
}

/// What is free in how a value is written: the order in which the keys of an object stand, and the
/// literals of floating-point numbers.
pub struct Style {
    pub keys: spec_fn(Set<Seq<char>>) -> Seq<Seq<char>>,
    pub float: spec_fn(u64) -> Seq<char>,
}

/// Every key stands once, and every finite number is written as one that is read as that number.
pub open spec fn faithful(style: Style) -> bool {
    &&& forall|names: Set<Seq<char>>|
        names.finite() ==> (#[trigger] (style.keys)(names)).no_duplicates() && (style.keys)(
            names,
        ).to_set() == names
    &&& forall|bits: u64| finite(bits) ==> writes_float(#[trigger] (style.float)(bits), bits)
}

/// Whether the value is one that a text can stand for, however deep it nests: its integers have 64 bits,
/// its floating-point numbers are finite, and so are its objects.
pub open spec fn presentable(value: JsonModel) -> bool
    decreases value,
{
    match value {
        JsonModel::Integer(number) => i64::MIN <= number <= i64::MAX,
        JsonModel::Float(bits) => finite(bits),
        JsonModel::Object(members) => members.dom().finite() && forall|name: Seq<char>| #[trigger]
            members.contains_key(name) ==> presentable(members[name]),
        JsonModel::Array(items) => forall|i: int|
            0 <= i < items.len() ==> presentable(#[trigger] items[i]),
        _ => true,
    }
}

/// The document that the value is written as.
pub open spec fn written_document(value: JsonModel, style: Style) -> Document
    decreases value,
{
    match value {
        JsonModel::String(text) => Document::Scalar(string_token(text)),
        JsonModel::Integer(number) => Document::Scalar(integer_token(number)),
        JsonModel::Float(bits) => Document::Scalar(
            Lexeme { kind: TokenType::Float, text: (style.float)(bits) },
        ),
        JsonModel::Boolean(truth) => Document::Scalar(
            Lexeme {
                kind: TokenType::Bool,
                text: if truth {
                    "true"@
                } else {
                    "false"@
                },
            },
        ),
        JsonModel::Null => Document::Scalar(Lexeme { kind: TokenType::Null, text: "null"@ }),
        JsonModel::Object(members) => {
            let names = (style.keys)(members.dom());
            Document::Object(
                Seq::new(
                    names.len(),
                    |i: int|
                        (
                            string_token(names[i]),
                            if members.contains_key(names[i]) {
                                written_document(members[names[i]], style)
                            } else {
                                arbitrary()
                            },
                        ),
                ),
            )
        },
        JsonModel::Array(items) => Document::Array(
            Seq::new(
                items.len(),
                |i: int|
                    if 0 <= i < items.len() {
                        written_document(items[i], style)
                    } else {
                        arbitrary()
                    },
            ),
        ),
    }
}

/// The texts of the tokens, one right after the other.
pub open spec fn compact(t: Seq<Lexeme>) -> Seq<char>
    decreases t.len(),
{
    if t.len() == 0 {
        Seq::empty()
    } else {
        t[0].text + compact(t.skip(1))
    }
}

/// The text that the value is written as, without whitespace between the tokens.
pub open spec fn written_value(value: JsonModel, style: Style) -> Seq<char> {
    compact(document_tokens(written_document(value, style)))
}

spec fn no_gaps(n: nat) -> Seq<Seq<char>> {
    Seq::new(n, |i: int| Seq::empty())
}

proof fn lemma_compact(t: Seq<Lexeme>)
    ensures
        fitting(t, no_gaps(t.len() + 1)),
        laid_out(t, no_gaps(t.len() + 1)) == compact(t),
    decreases t.len(),
{
    let gaps = no_gaps(t.len() + 1);
    assert forall|i: int| 0 <= i < gaps.len() implies blank(#[trigger] gaps[i]) by {}
    if t.len() > 0 {
        lemma_compact(t.skip(1));
        assert(gaps.skip(1) =~= no_gaps(t.len()));
        assert(gaps[0] + t[0].text =~= t[0].text);
    }
}

proof fn lemma_compact_concat(a: Seq<Lexeme>, b: Seq<Lexeme>)
    ensures
        compact(a + b) == compact(a) + compact(b),
    decreases a.len(),
{
    if a.len() == 0 {
        assert(a + b =~= b);
        assert(compact(a) + compact(b) =~= compact(b));
    } else {
        assert((a + b).skip(1) =~= a.skip(1) + b);
        lemma_compact_concat(a.skip(1), b);
        assert(a[0].text + (compact(a.skip(1)) + compact(b)) =~= a[0].text + compact(a.skip(1))
            + compact(b));
    }
}

proof fn lemma_writable_concat(a: Seq<Lexeme>, b: Seq<Lexeme>)
    requires
        all_writable(a),
        all_writable(b),
    ensures
        all_writable(a + b),
{
    assert forall|i: int| 0 <= i < (a + b).len() implies writable(#[trigger] (a + b)[i]) by {
        if i < a.len() {
            assert(writable(a[i]));
        } else {
            assert(writable(b[i - a.len()]));
        }
    }
}

proof fn lemma_writable_one(lexeme: Lexeme)
    requires
        writable(lexeme),
    ensures
        all_writable(seq![lexeme]),
{
}

proof fn lemma_items_writable(items: Seq<Document>)
    requires
        forall|i: int|
            0 <= i < items.len() ==> proper(#[trigger] items[i]) && all_writable(
                document_tokens(items[i]),
            ),
    ensures
        items_proper(items),
        all_writable(items_tokens(items)),
    decreases items.len(),
{
    if items.len() > 0 {
        let rest = items.skip(1);
        assert forall|i: int| 0 <= i < rest.len() implies proper(#[trigger] rest[i])
            && all_writable(document_tokens(rest[i])) by {
            assert(rest[i] == items[i + 1]);
        }
        lemma_items_writable(rest);
        assert(proper(items[0]) && all_writable(document_tokens(items[0])));
        if items.len() > 1 {
            lemma_writable_one(comma());
            lemma_writable_concat(document_tokens(items[0]), seq![comma()]);
            lemma_writable_concat(
                document_tokens(items[0]) + seq![comma()],
                items_tokens(rest),
            );
        }
    }
}

proof fn lemma_members_writable(members: Seq<(Lexeme, Document)>)
    requires
        forall|i: int|
            0 <= i < members.len() ==> (#[trigger] members[i]).0.kind == TokenType::String
                && writable(members[i].0) && proper(members[i].1) && all_writable(
                document_tokens(members[i].1),
            ),
    ensures
        members_proper(members),
        all_writable(members_tokens(members)),
    decreases members.len(),
{
    if members.len() > 0 {
        let rest = members.skip(1);
        assert forall|i: int| 0 <= i < rest.len() implies (#[trigger] rest[i]).0.kind
            == TokenType::String && writable(rest[i].0) && proper(rest[i].1) && all_writable(
            document_tokens(rest[i].1),
        ) by {
            assert(rest[i] == members[i + 1]);
        }
        lemma_members_writable(rest);
        let (key, d) = members[0];
        assert(key == members[0].0 && d == members[0].1);
        let head = seq![key, colon()];
        assert(all_writable(head)) by {
            assert(writable(colon()));
        }
        let first = head + document_tokens(d);
        lemma_writable_concat(head, document_tokens(d));
        if members.len() > 1 {
            lemma_writable_one(comma());
            lemma_writable_concat(first, seq![comma()]);
            lemma_writable_concat(first + seq![comma()], members_tokens(rest));
        }
    }
}

proof fn lemma_keyword_written(word: Seq<char>)
    requires
        word == "true"@ || word == "false"@ || word == "null"@,
    ensures
        classified(word) is Ok,
        writable(Lexeme { kind: classified(word)->Ok_0, text: word }),
        "true"@ != "false"@,
{
    reveal_strlit("true");
    reveal_strlit("false");
    reveal_strlit("null");
    assert("true"@.len() != "false"@.len());
    law_ascii_words_are_plain(word);
}

/// What holds of the document that a value is written as.
spec fn well_written(value: JsonModel, style: Style, depth: int) -> bool {
    let d = written_document(value, style);
    &&& proper(d)
    &&& d is Scalar <==> !(value is Object || value is Array)
    &&& all_writable(document_tokens(d))
    &&& evaluated(d, depth) == Ok::<JsonModel, ErrorModel>(value)
}

proof fn lemma_scalar_written(value: JsonModel, style: Style, depth: int)
    requires
        faithful(style),
        presentable(value),
        !(value is Object || value is Array),
    ensures
        well_written(value, style, depth),
{
    let d = written_document(value, style);
    let lexeme = d->Scalar_0;
    match value {
        JsonModel::String(text) => {
            law_strings_are_read_back(text);
        },
        JsonModel::Integer(number) => {
            law_integers_are_read_back(number);
        },
        JsonModel::Float(bits) => {
            let word = (style.float)(bits);
            assert(writes_float(word, bits));
            law_ascii_floats_are_read(word);
            law_ascii_words_are_plain(word);
        },
        JsonModel::Boolean(truth) => {
            lemma_keyword_written("true"@);
            lemma_keyword_written("false"@);
        },
        _ => {
            lemma_keyword_written("null"@);
            reveal_strlit("true");
            reveal_strlit("false");
            reveal_strlit("null");
            assert("null"@[0] != "true"@[0]);
            assert("null"@[0] != "false"@[0]);
        },
    }
    assert(writable(lexeme));
    lemma_writable_one(lexeme);
}

proof fn lemma_array_written(value: JsonModel, style: Style, depth: int)
    requires
        value is Array,
        depth < MAX_DEPTH,
        forall|i: int|
            0 <= i < value->Array_0.len() ==> well_written(
                #[trigger] value->Array_0[i],
                style,
                depth + 1,
            ),
    ensures
        well_written(value, style, depth),
{
    let values = value->Array_0;
    let items = written_document(value, style)->Array_0;
    assert(written_document(value, style) == Document::Array(items));
    assert forall|i: int| 0 <= i < items.len() implies proper(#[trigger] items[i]) && all_writable(
        document_tokens(items[i]),
    ) && evaluated(items[i], depth + 1) == Ok::<JsonModel, ErrorModel>(values[i]) by {
        assert(well_written(values[i], style, depth + 1));
        assert(items[i] == written_document(values[i], style));
    }
    lemma_items_writable(items);
    lemma_writable_one(open_bracket());
    lemma_writable_one(close_bracket());
    lemma_writable_concat(seq![open_bracket()], items_tokens(items));
    lemma_writable_concat(seq![open_bracket()] + items_tokens(items), seq![close_bracket()]);
    law_array_holds_its_items(items, depth);
    let array = evaluated(Document::Array(items), depth)->Ok_0;
    assert(array->Array_0 =~= values);
}

proof fn lemma_object_written(value: JsonModel, style: Style, depth: int)
    requires
        faithful(style),
        value is Object,
        value->Object_0.dom().finite(),
        depth < MAX_DEPTH,
        forall|name: Seq<char>| #[trigger]
            value->Object_0.contains_key(name) ==> well_written(
                value->Object_0[name],
                style,
                depth + 1,
            ),
    ensures
        well_written(value, style, depth),
{
    let values = value->Object_0;
    let names = (style.keys)(values.dom());
    let members = written_document(value, style)->Object_0;
    assert(written_document(value, style) == Document::Object(members));
    assert(names.no_duplicates() && names.to_set() == values.dom());
    assert(members.len() == names.len());
    assert forall|i: int| 0 <= i < members.len() implies {
        &&& (#[trigger] members[i]).0 == string_token(names[i])
        &&& values.contains_key(names[i])
        &&& members[i].0.kind == TokenType::String
        &&& writable(members[i].0)
        &&& proper(members[i].1)
        &&& all_writable(document_tokens(members[i].1))
        &&& readable(members[i], depth)
        &&& name_of(members[i]) == names[i]
        &&& value_of(members[i], depth) == values[names[i]]
    } by {
        assert(names.to_set().contains(names[i]));
        assert(values.contains_key(names[i]));
        assert(well_written(values[names[i]], style, depth + 1));
        assert(members[i].1 == written_document(values[names[i]], style));
        law_strings_are_read_back(names[i]);
        assert(string_of(string_token(names[i])) == Ok::<Seq<char>, ErrorModel>(names[i]));
    }
    lemma_members_writable(members);
    lemma_writable_one(open_brace());
    lemma_writable_one(close_brace());
    lemma_writable_concat(seq![open_brace()], members_tokens(members));
    lemma_writable_concat(seq![open_brace()] + members_tokens(members), seq![close_brace()]);
    law_object_holds_its_members(members, depth);
    assert forall|i: int, j: int| 0 <= i < j < members.len() implies name_of(#[trigger] members[i])
        != name_of(#[trigger] members[j]) by {
        assert(names[i] != names[j]);
    }
    let read = evaluated(Document::Object(members), depth)->Ok_0->Object_0;
    assert forall|name: Seq<char>| #[trigger] read.contains_key(name) == values.contains_key(name)
        && (values.contains_key(name) ==> read[name] == values[name]) by {
        if values.contains_key(name) {
            assert(names.to_set().contains(name));
            let i = choose|i: int| 0 <= i < names.len() && names[i] == name;
            assert(name_of(members[i]) == name);
        }
        if read.contains_key(name) {
            let i = choose|i: int| 0 <= i < members.len() && name == name_of(#[trigger] members[i]);
            assert(values.contains_key(names[i]));
        }
    }
    assert(read =~= values);
}

proof fn lemma_written(value: JsonModel, style: Style, depth: int)
    requires
        faithful(style),
        presentable(value),
        within(value, MAX_DEPTH - depth),
    ensures
        well_written(value, style, depth),
    decreases value,
{
    match value {
        JsonModel::Object(members) => {
            assert forall|name: Seq<char>| #[trigger]
                value->Object_0.contains_key(name) implies well_written(
                value->Object_0[name],
                style,
                depth + 1,
            ) by {
                assert(presentable(members[name]));
                assert(within(members[name], MAX_DEPTH - depth - 1));
                lemma_written(members[name], style, depth + 1);
            }
            lemma_object_written(value, style, depth);
        },
        JsonModel::Array(items) => {
            assert forall|i: int| 0 <= i < value->Array_0.len() implies well_written(
                #[trigger] value->Array_0[i],
                style,
                depth + 1,
            ) by {
                assert(presentable(items[i]));
                assert(within(items[i], MAX_DEPTH - depth - 1));
                lemma_written(items[i], style, depth + 1);
            }
            lemma_array_written(value, style, depth);
        },
        _ => {
            lemma_scalar_written(value, style, depth);
        },
    }
}

/// An object or array that nests less than `MAX_DEPTH` deep is read back from the text that it is
/// written as, whatever the order of its keys and the literals of its numbers.
pub proof fn law_written_values_are_read_back(value: JsonModel, style: Style)
    requires
        faithful(style),
        presentable(value),
        value is Object || value is Array,
        within(value, MAX_DEPTH - 1),
    ensures
        text_read(written_value(value, style)) == Reading::<JsonModel, ErrorModel>::Done(value),
{
    let t = document_tokens(written_document(value, style));
    lemma_compact(t);
    law_spaced_values_are_read_back(value, style, no_gaps(t.len() + 1));
}

/// An object or array that nests less than `MAX_DEPTH` deep is read back also where whitespace stands
/// between the tokens that it is written with.
pub proof fn law_spaced_values_are_read_back(
    value: JsonModel,
    style: Style,
    gaps: Seq<Seq<char>>,
)
    requires
        faithful(style),
        presentable(value),
        value is Object || value is Array,
        within(value, MAX_DEPTH - 1),
        fitting(document_tokens(written_document(value, style)), gaps),
    ensures
        text_read(laid_out(document_tokens(written_document(value, style)), gaps)) == Reading::<
            JsonModel,
            ErrorModel,
        >::Done(value),
{
    lemma_written(value, style, 1);
    law_laid_out_document_is_read(written_document(value, style), gaps);
}

/// The text that an object or array is written as is refused where more tokens come after it.
pub proof fn law_text_after_written_value_is_refused(
    value: JsonModel,
    style: Style,
    more: Seq<Lexeme>,
)
    requires
        faithful(style),
        presentable(value),
        value is Object || value is Array,
        within(value, MAX_DEPTH - 1),
        more.len() > 0,
        all_writable(more),
        words_end(more, TokenType::EOF),
    ensures
        text_read(written_value(value, style) + compact(more)) == Reading::<
            JsonModel,
            ErrorModel,
        >::Failed(
            ErrorModel::WrongToken {
                got: wrong_kind(written_document(value, style), more[0].kind),
            },
        ),
{
    let d = written_document(value, style);
    let t = document_tokens(d);
    lemma_written(value, style, 1);
    lemma_writable_concat(t, more);
    lemma_compact(t + more);
    lemma_compact_concat(t, more);
    law_text_after_document_is_refused(d, more, no_gaps((t + more).len() + 1));
}

/// A literal in ASCII is read as the finite number that is the nearest to it.
pub proof fn law_nearest_literals_are_read_back(word: Seq<char>, bits: u64)
    requires
        ascii(word),
        classified(word) == Ok::<TokenType, ErrorModel>(TokenType::Float),
        finite(bits),
        word[0] == '-' <==> bits >= SIGN,
        nearest(
            digits_value(decimal_digits(magnitude(word))),
            decimal_exponent(magnitude(word)),
            (bits % SIGN) as nat,
        ),
    ensures
        writes_float(word, bits),
{
    law_ascii_floats_are_read(word);
    lemma_float_begins_with_digit(word);
    let body = magnitude(word);
    let code = rounded(digits_value(decimal_digits(body)), decimal_exponent(body));
    law_nearest_is_one(
        digits_value(decimal_digits(body)),
        decimal_exponent(body),
        code,
        (bits % SIGN) as nat,
    );
    lemma_digit_first(body);
}

proof fn lemma_float_begins_with_digit(word: Seq<char>)
    requires
        ascii(word),
        classified(word) == Ok::<TokenType, ErrorModel>(TokenType::Float),
    ensures
        magnitude(word).len() > 0,
        '0' <= magnitude(word)[0] <= '9',
        unsigned(word) == magnitude(word),
{
}

/// What begins with a digit is no word.
proof fn lemma_digit_first(body: Seq<char>)
    requires
        body.len() > 0,
        '0' <= body[0] <= '9',
    ensures
        float_code(body) == rounded(digits_value(decimal_digits(body)), decimal_exponent(body)),
{
    reveal_strlit("inf");
    reveal_strlit("infinity");
    reveal_strlit("nan");
    let small = body.map_values(|c: char| small_letter(c));
    assert(small[0] == body[0]);
    assert(small[0] != 'i' && small[0] != 'n');
}

/// The digits of the floating-point number with the given code, written without a fraction and with ten
/// to the power of minus 1074 after them.
pub open spec fn exact_digits(code: nat) -> nat {
    units(code) * power(5, 1074)
}

/// The exponent after exact digits.
pub open spec fn exact_exponent() -> Seq<char> {
    seq!['e', '-', '1', '0', '7', '4']
}

/// The finite number with the given bits, written without rounding.
pub open spec fn exact_literal(bits: u64) -> Seq<char> {
    let body = written(exact_digits((bits % SIGN) as nat), 10) + exact_exponent();
    if bits >= SIGN {
        seq!['-'] + body
    } else {
        body
    }
}

/// The keys of an object in some order, and numbers without rounding.
pub open spec fn exact_style() -> Style {
    Style {
        keys: |names: Set<Seq<char>>| names.to_seq(),
        float: |bits: u64| exact_literal(bits),
    }
}

proof fn lemma_to_seq(names: Set<Seq<char>>)
    requires
        names.finite(),
    ensures
        names.to_seq().no_duplicates(),
        names.to_seq().to_set() == names,
    decreases names.len(),
{
    names.lemma_to_seq_to_set_id();
    if names.len() > 0 {
        let first = names.choose();
        let rest = names.remove(first);
        lemma_to_seq(rest);
        let others = rest.to_seq();
        let all = names.to_seq();
        assert(all == Seq::<Seq<char>>::empty().push(first) + others);
        assert forall|i: int, j: int| 0 <= i < all.len() && 0 <= j < all.len() && i != j implies all[i]
            != all[j] by {
            assert(i > 0 ==> all[i] == others[i - 1]);
            assert(j > 0 ==> all[j] == others[j - 1]);
            if i == 0 {
                assert(others.to_set().contains(others[j - 1]));
            } else if j == 0 {
                assert(others.to_set().contains(others[i - 1]));
            }
        }
    }
}

proof fn lemma_written_value(n: nat)
    ensures
        digits_value(written(n, 10)) == n,
    decreases n,
{
    assert(written(n, 10).last() == digit_char(n % 10));
    if n >= 10 {
        lemma_written_value(n / 10);
        assert(written(n, 10).drop_last() =~= written(n / 10, 10));
    } else {
        assert(written(n, 10).drop_last() =~= Seq::<char>::empty());
        assert(digits_value(Seq::<char>::empty()) == 0);
    }
}

proof fn lemma_ten_is_five_times_two(n: nat)
    ensures
        power(5, n) * power(2, n) == power(10, n),
    decreases n,
{
    if n > 0 {
        lemma_ten_is_five_times_two((n - 1) as nat);
        let a = power(5, (n - 1) as nat);
        let b = power(2, (n - 1) as nat);
        assert((5 * a) * (2 * b) == 10 * (a * b)) by (nonlinear_arith);
    } else {
        assert(power(5, 0) == 1 && power(2, 0) == 1 && power(10, 0) == 1);
    }
}

/// The exponent of exact literals is the one meant.
proof fn lemma_exact_exponent()
    ensures
        exponent(exact_exponent()),
        exponent_value(exact_exponent()) == -1074,
{
    let text = exact_exponent();
    let power = seq!['1', '0', '7', '4'];
    assert(text.skip(2) =~= power);
    assert(text.skip(1).skip(1) =~= power);
    assert(text.skip(1)[0] == '-');
    assert(unsigned(text.skip(1)) == power);
    assert forall|i: int| 0 <= i < power.len() implies decimal_digit(#[trigger] power[i]) by {}
    let three = seq!['1', '0', '7'];
    let two = seq!['1', '0'];
    let one = seq!['1'];
    assert(power.drop_last() =~= three);
    assert(three.drop_last() =~= two);
    assert(two.drop_last() =~= one);
    assert(one.drop_last() =~= Seq::<char>::empty());
    assert(digits_value(Seq::<char>::empty()) == 0);
    assert(digits_value(one) == 1);
    assert(digits_value(two) == 10);
    assert(digits_value(three) == 107);
    assert(digits_value(power) == 1074);
}

/// A finite number that is written without rounding is read as itself.
#[verifier::rlimit(60)]
pub proof fn law_exact_literals_are_read_back(bits: u64)
    requires
        finite(bits),
    ensures
        writes_float(exact_literal(bits), bits),
{
    let code = (bits % SIGN) as nat;
    let n = exact_digits(code);
    let number = written(n, 10);
    let body = number + exact_exponent();
    let word = exact_literal(bits);
    let at = number.len() as int;
    lemma_written_digits(n);
    lemma_written_value(n);
    lemma_exact_exponent();
    assert(body.take(at) =~= number);
    assert(body.skip(at) =~= exact_exponent());
    assert forall|i: int| 0 <= i < at implies '0' <= #[trigger] body[i] <= '9' by {
        assert(number[i] == body[i]);
        assert(decimal_digit(number[i]) && (number[i] as u32) < 128);
    }
    assert(body[at] == 'e');
    assert('0' <= body[0] <= '9');
    assert(magnitude(word) =~= body);
    assert(unsigned(word) =~= body);
    assert forall|i: int| 0 <= i < word.len() implies (#[trigger] word[i] as u32) < 128 by {
        let k = if bits >= SIGN {
            i - 1
        } else {
            i
        };
        if 0 <= k < at {
            assert('0' <= body[k] <= '9');
        } else if at <= k {
            assert(body[k] == exact_exponent()[k - at]);
        }
    }
    // the kind of token
    assert(whole(number)) by {
        assert(number[0] == body[0]);
        if n < 10 {
            assert(number.len() == 1);
        }
    }
    assert(exponent_at(body, at));
    assert(!whole(body)) by {
        assert(!decimal_digit(body[at]));
        assert(body.len() > 1);
    }
    reveal_strlit("true");
    reveal_strlit("false");
    reveal_strlit("null");
    assert(word[0] != 't' && word[0] != 'f' && word[0] != 'n');
    assert(classified(word) == Ok::<TokenType, ErrorModel>(TokenType::Float));
    // the number
    lemma_digit_run(body, at);
    assert(decimal_digits(body) == number);
    assert(decimal_exponent(body) == -1074);
    lemma_ten_is_five_times_two(1074);
    assert(power(2, 1075) == 2 * power(2, 1074));
    let u = units(code);
    let five = power(5, 1074);
    let two = power(2, 1074);
    let ten = power(10, 1074);
    assert(power(10, 0) == 1);
    assert((u * five) * 1 * (2 * two) == 2 * u * ten) by (nonlinear_arith)
        requires
            five * two == ten,
    ;
    law_exact_numbers_are_kept(n, -1074, code);
    lemma_digit_first(body);
}

/// There is a way of writing that is faithful.
pub proof fn law_exact_style_is_faithful()
    ensures
        faithful(exact_style()),
{
    let style = exact_style();
    assert forall|names: Set<Seq<char>>| names.finite() implies (#[trigger] (style.keys)(
        names,
    )).no_duplicates() && (style.keys)(names).to_set() == names by {
        lemma_to_seq(names);
    }
    assert forall|bits: u64| finite(bits) implies writes_float(
        #[trigger] (style.float)(bits),
        bits,
    ) by {
        law_exact_literals_are_read_back(bits);
    }
}

} // verus!
