//! Texts in which the tokens of a document are laid out with whitespace between them.

use crate::document::{
    close_brace, close_bracket, colon, comma, document_tokens, evaluated, items_proper,
    items_tokens, law_document_is_read, law_tokens_after_document_are_refused, members_proper,
    members_tokens, open_brace, open_bracket, proper, wrong_kind, Document,
};
use crate::error::ErrorModel;
use crate::lexer::{
    advanced, classified, emitted, end_mark, idle, joined, lemma_joined_twice, lexed, lexed_from,
    punctuation, LexState,
};
use crate::number::{
    decimal_digit, digits, exponent, exponent_at, exponent_shape, fraction_at, fraction_shape,
    integer_shape, magnitude, whole,
};
use crate::parser::{scalar, text_read, Reading};
use crate::soundness::spelled;
use crate::text::{trimmed, whitespace};
use crate::token::{Lexeme, TokenType};
use crate::value::JsonModel;
use vstd::prelude::*;

verus! {

/// Every character is whitespace.
pub open spec fn blank(text: Seq<char>) -> bool {
    forall|i: int| 0 <= i < text.len() ==> whitespace(#[trigger] text[i])
}

/// What may stand between the quotes of a string: every quote follows a backslash, and every
/// backslash is followed by another character that is not whitespace, with or without whitespace before.
pub open spec fn quotable(body: Seq<char>) -> bool
    decreases body.len(),
{
    if body.len() == 0 {
        true
    } else if body[0] == '"' {
        false
    } else if body[0] == '\\' {
        quotable_escaped(body.skip(1))
    } else {
        quotable(body.skip(1))
    }
}

/// What may stand between the quotes of a string after a backslash.
pub open spec fn quotable_escaped(body: Seq<char>) -> bool
    decreases body.len(),
{
    if body.len() == 0 {
        false
    } else if whitespace(body[0]) {
        quotable_escaped(body.skip(1))
    } else {
        quotable(body.skip(1))
    }
}

/// Whether `c` may stand in a keyword or number.
pub open spec fn word_char(c: char) -> bool {
    c != '"' && c != '\\' && punctuation(c) is None && !whitespace(c)
}

/// One or more characters that may stand in a keyword or number.
pub open spec fn plain_word(text: Seq<char>) -> bool {
    text.len() > 0 && forall|i: int| 0 <= i < text.len() ==> word_char(#[trigger] text[i])
}

/// The kinds of tokens that are keywords or numbers.
pub open spec fn word_kind(kind: TokenType) -> bool {
    scalar(kind) && kind != TokenType::String
}

/// The token is written as a token of its kind is.
pub open spec fn writable(lexeme: Lexeme) -> bool {
    if lexeme.kind == TokenType::String {
        &&& lexeme.text.len() >= 2
        &&& lexeme.text[0] == '"'
        &&& lexeme.text.last() == '"'
        &&& quotable(lexeme.text.subrange(1, lexeme.text.len() - 1))
    } else if word_kind(lexeme.kind) {
        &&& plain_word(lexeme.text)
        &&& classified(lexeme.text) == Ok::<TokenType, ErrorModel>(lexeme.kind)
    } else {
        lexeme.kind != TokenType::EOF && spelled(lexeme)
    }
}

/// The kinds of tokens that end the keyword or number before them.
pub open spec fn ends_word_kind(kind: TokenType) -> bool {
    ||| kind == TokenType::CurvedBraceClose
    ||| kind == TokenType::SquareBraceClose
    ||| kind == TokenType::Comma
}

/// Every keyword or number among the tokens is followed by one that ends it; after the last token
/// comes one of kind `next`.
pub open spec fn words_end(t: Seq<Lexeme>, next: TokenType) -> bool
    decreases t.len(),
{
    t.len() > 0 ==> {
        &&& word_kind(t[0].kind) ==> ends_word_kind(
            if t.len() > 1 {
                t[1].kind
            } else {
                next
            },
        )
        &&& words_end(t.skip(1), next)
    }
}

/// All of the tokens are written as tokens of their kinds are.
pub open spec fn all_writable(t: Seq<Lexeme>) -> bool {
    forall|i: int| 0 <= i < t.len() ==> writable(#[trigger] t[i])
}

/// The gaps, of which there is one more than tokens, are whitespace or nothing.
pub open spec fn fitting(t: Seq<Lexeme>, gaps: Seq<Seq<char>>) -> bool {
    gaps.len() == t.len() + 1 && forall|i: int| 0 <= i < gaps.len() ==> blank(#[trigger] gaps[i])
}

/// The text that has the tokens in their order, each after a gap, and the last gap at the end.
pub open spec fn laid_out(t: Seq<Lexeme>, gaps: Seq<Seq<char>>) -> Seq<char>
    decreases t.len(),
{
    if t.len() == 0 {
        gaps[0]
    } else {
        gaps[0] + t[0].text + laid_out(t.skip(1), gaps.skip(1))
    }
}

/// Between tokens, outside of strings.
pub open spec fn quiet(state: LexState) -> bool {
    !state.in_string && !state.escaped && state.word is None
}

/// `part` stands in `text` at `i`.
pub open spec fn written_at(text: Seq<char>, i: int, part: Seq<char>) -> bool {
    0 <= i && i + part.len() <= text.len() && text.subrange(i, i + part.len()) == part
}

pub proof fn lemma_written_char(text: Seq<char>, i: int, part: Seq<char>, k: int)
    requires
        written_at(text, i, part),
        0 <= k < part.len(),
    ensures
        text[i + k] == part[k],
{
    assert(text.subrange(i, i + part.len())[k] == text[i + k]);
}

proof fn lemma_written_skip(text: Seq<char>, i: int, part: Seq<char>, k: int)
    requires
        written_at(text, i, part),
        0 <= k <= part.len(),
    ensures
        written_at(text, i + k, part.skip(k)),
{
    assert(text.subrange(i + k, i + part.len()) =~= text.subrange(i, i + part.len()).skip(k));
}

pub proof fn lemma_written_parts(text: Seq<char>, i: int, a: Seq<char>, b: Seq<char>)
    requires
        written_at(text, i, a + b),
    ensures
        written_at(text, i, a),
        written_at(text, i + a.len(), b),
{
    let whole = text.subrange(i, i + (a + b).len());
    assert(text.subrange(i, i + a.len()) =~= whole.take(a.len() as int));
    assert((a + b).take(a.len() as int) =~= a);
    assert(text.subrange(i + a.len(), i + a.len() + b.len()) =~= whole.skip(a.len() as int));
    assert((a + b).skip(a.len() as int) =~= b);
}

/// A step that ends no token and leaves the state as it is.
pub open spec fn idles(c: char, state: LexState) -> bool {
    ||| whitespace(c)
    ||| !state.escaped && c != '"' && c != '\\' && (state.in_string || (state.word is Some
        && punctuation(c) is None))
}

pub proof fn lemma_idle_run(text: Seq<char>, i: int, part: Seq<char>, state: LexState)
    requires
        written_at(text, i, part),
        forall|k: int| 0 <= k < part.len() ==> idles(#[trigger] part[k], state),
    ensures
        lexed_from(text, i, state) == lexed_from(text, i + part.len(), state),
    decreases part.len(),
{
    if part.len() > 0 {
        lemma_written_char(text, i, part, 0);
        lemma_written_skip(text, i, part, 1);
        assert(idles(part[0], state));
        assert(emitted(text, i, state) == Ok::<Seq<Lexeme>, ErrorModel>(Seq::empty()));
        assert(advanced(text, i, state) == state);
        let rest = lexed_from(text, i + 1, state);
        if let Ok(lexemes) = rest {
            assert(Seq::<Lexeme>::empty() + lexemes =~= lexemes);
        }
        assert(lexed_from(text, i, state) == rest);
        assert forall|k: int| 0 <= k < part.skip(1).len() implies idles(
            #[trigger] part.skip(1)[k],
            state,
        ) by {
            assert(part.skip(1)[k] == part[k + 1]);
        }
        lemma_idle_run(text, i + 1, part.skip(1), state);
    }
}

/// A step that ends no token.
pub proof fn lemma_silent_step(text: Seq<char>, i: int, state: LexState)
    requires
        0 <= i < text.len(),
        emitted(text, i, state) == Ok::<Seq<Lexeme>, ErrorModel>(Seq::empty()),
    ensures
        lexed_from(text, i, state) == lexed_from(text, i + 1, advanced(text, i, state)),
{
    let rest = lexed_from(text, i + 1, advanced(text, i, state));
    if let Ok(lexemes) = rest {
        assert(Seq::<Lexeme>::empty() + lexemes =~= lexemes);
    }
}

pub proof fn lemma_string_body(text: Seq<char>, i: int, body: Seq<char>, state: LexState)
    requires
        written_at(text, i, body),
        if state.escaped {
            quotable_escaped(body)
        } else {
            quotable(body)
        },
        state.in_string,
    ensures
        lexed_from(text, i, state) == lexed_from(
            text,
            i + body.len(),
            LexState { escaped: false, ..state },
        ),
    decreases body.len(),
{
    if body.len() > 0 {
        lemma_written_char(text, i, body, 0);
        lemma_silent_step(text, i, state);
        lemma_written_skip(text, i, body, 1);
        lemma_string_body(text, i + 1, body.skip(1), advanced(text, i, state));
    }
}

/// A string token is found as it is written.
proof fn lemma_string(text: Seq<char>, i: int, lexeme: Lexeme, state: LexState)
    requires
        quiet(state),
        lexeme.kind == TokenType::String,
        writable(lexeme),
        written_at(text, i, lexeme.text),
    ensures
        lexed_from(text, i, state) == joined(
            seq![lexeme],
            lexed_from(text, i + lexeme.text.len(), LexState { start: i, ..state }),
        ),
{
    let n = lexeme.text.len();
    let body = lexeme.text.subrange(1, n - 1);
    let inside = LexState { in_string: true, start: i, ..state };
    lemma_written_char(text, i, lexeme.text, 0);
    lemma_written_char(text, i, lexeme.text, n - 1);
    lemma_silent_step(text, i, state);
    assert(advanced(text, i, state) == inside);
    assert(text.subrange(i + 1, i + 1 + body.len()) =~= text.subrange(i, i + n).subrange(1, n - 1));
    lemma_string_body(text, i + 1, body, inside);
    assert(advanced(text, i + n - 1, inside) == LexState { start: i, ..state });
    assert(emitted(text, i + n - 1, inside) == Ok::<Seq<Lexeme>, ErrorModel>(seq![lexeme]));
}

/// A punctuation token is found as it is written.
proof fn lemma_punctuation(text: Seq<char>, i: int, lexeme: Lexeme, state: LexState)
    requires
        quiet(state),
        lexeme.kind != TokenType::EOF,
        !scalar(lexeme.kind),
        writable(lexeme),
        written_at(text, i, lexeme.text),
    ensures
        lexeme.text.len() == 1,
        lexed_from(text, i, state) == joined(seq![lexeme], lexed_from(text, i + 1, state)),
{
    lemma_written_char(text, i, lexeme.text, 0);
    assert(seq![text[i]] =~= lexeme.text);
    assert(emitted(text, i, state) == Ok::<Seq<Lexeme>, ErrorModel>(seq![lexeme]));
    assert(advanced(text, i, state) == state);
}

proof fn lemma_trim_gap(word: Seq<char>, gap: Seq<char>)
    requires
        plain_word(word),
        blank(gap),
    ensures
        trimmed(word + gap) == word,
    decreases gap.len(),
{
    if gap.len() > 0 {
        assert(whitespace(gap[gap.len() - 1]));
        assert((word + gap).drop_last() =~= word + gap.drop_last());
        assert forall|i: int| 0 <= i < gap.drop_last().len() implies whitespace(
            #[trigger] gap.drop_last()[i],
        ) by {
            assert(whitespace(gap[i]));
        }
        lemma_trim_gap(word, gap.drop_last());
    } else {
        assert(word + gap =~= word);
        assert(word_char(word[word.len() - 1]));
    }
}

/// A keyword or number, whitespace, and what ends it are found as they are written.
proof fn lemma_word(
    text: Seq<char>,
    i: int,
    lexeme: Lexeme,
    gap: Seq<char>,
    mark: Lexeme,
    state: LexState,
)
    requires
        quiet(state),
        word_kind(lexeme.kind),
        writable(lexeme),
        blank(gap),
        ends_word_kind(mark.kind),
        writable(mark),
        written_at(text, i, lexeme.text + gap + mark.text),
    ensures
        mark.text.len() == 1,
        lexed_from(text, i, state) == joined(
            seq![lexeme, mark],
            lexed_from(text, i + lexeme.text.len() + gap.len() + 1, state),
        ),
{
    let word = lexeme.text;
    let run = word.skip(1) + gap;
    let e = i + word.len() + gap.len();
    let inside = LexState { word: Some(i), ..state };
    lemma_written_parts(text, i, word + gap, mark.text);
    lemma_written_char(text, i, word + gap, 0);
    lemma_written_char(text, e, mark.text, 0);
    assert(word_char(word[0]));
    lemma_silent_step(text, i, state);
    assert(advanced(text, i, state) == inside);
    lemma_written_skip(text, i, word + gap, 1);
    assert((word + gap).skip(1) =~= run);
    assert forall|k: int| 0 <= k < run.len() implies idles(#[trigger] run[k], inside) by {
        if k < word.len() - 1 {
            assert(run[k] == word[k + 1]);
            assert(word_char(word[k + 1]));
        } else {
            assert(run[k] == gap[k - (word.len() - 1)]);
        }
    }
    lemma_idle_run(text, i + 1, run, inside);
    assert(text.subrange(i, e) =~= word + gap);
    lemma_trim_gap(word, gap);
    assert(seq![text[e]] =~= mark.text);
    assert(emitted(text, e, inside) == Ok::<Seq<Lexeme>, ErrorModel>(seq![lexeme, mark]));
    assert(advanced(text, e, inside) == state);
}

/// The tokens can be laid out with the gaps between them.
spec fn ready(t: Seq<Lexeme>, gaps: Seq<Seq<char>>) -> bool {
    all_writable(t) && words_end(t, TokenType::EOF) && fitting(t, gaps)
}

proof fn lemma_ready_skip(t: Seq<Lexeme>, gaps: Seq<Seq<char>>)
    requires
        ready(t, gaps),
        t.len() > 0,
    ensures
        ready(t.skip(1), gaps.skip(1)),
        writable(t[0]),
        blank(gaps[0]),
        word_kind(t[0].kind) ==> t.len() > 1 && ends_word_kind(t[1].kind),
{
    let rest = t.skip(1);
    let later = gaps.skip(1);
    assert(writable(t[0]));
    assert(blank(gaps[0]));
    assert forall|k: int| 0 <= k < rest.len() implies writable(#[trigger] rest[k]) by {
        assert(rest[k] == t[k + 1]);
    }
    assert forall|k: int| 0 <= k < later.len() implies blank(#[trigger] later[k]) by {
        assert(later[k] == gaps[k + 1]);
    }
}

proof fn lemma_written_join(text: Seq<char>, i: int, a: Seq<char>, b: Seq<char>)
    requires
        written_at(text, i, a),
        written_at(text, i + a.len(), b),
    ensures
        written_at(text, i, a + b),
{
    assert(text.subrange(i, i + (a + b).len()) =~= text.subrange(i, i + a.len()) + text.subrange(
        i + a.len(),
        i + a.len() + b.len(),
    ));
}

/// Where tokens are laid out in a text, they are found, and what comes after them is read from a state
/// between tokens.
pub proof fn lemma_laid_out(
    text: Seq<char>,
    i: int,
    t: Seq<Lexeme>,
    gaps: Seq<Seq<char>>,
    state: LexState,
) -> (end: LexState)
    requires
        quiet(state),
        all_writable(t),
        words_end(t, TokenType::EOF),
        fitting(t, gaps),
        written_at(text, i, laid_out(t, gaps)),
    ensures
        quiet(end),
        lexed_from(text, i, state) == joined(t, lexed_from(text, i + laid_out(t, gaps).len(), end)),
    decreases t.len(),
{
    let gap = gaps[0];
    if t.len() == 0 {
        assert(blank(gap));
        lemma_idle_run(text, i, gap, state);
        if let Ok(rest) = lexed_from(text, i + gap.len(), state) {
            assert(t + rest =~= rest);
        }
        state
    } else {
        let first = t[0];
        let rest = t.skip(1);
        let later = gaps.skip(1);
        let at = i + gap.len();
        let after = at + first.text.len();
        lemma_ready_skip(t, gaps);
        lemma_written_parts(text, i, gap + first.text, laid_out(rest, later));
        lemma_written_parts(text, i, gap, first.text);
        lemma_idle_run(text, i, gap, state);
        let stop = i + laid_out(t, gaps).len();
        if word_kind(first.kind) {
            let mark = t[1];
            lemma_word_laid_out(text, at, first, rest, later, state);
            lemma_ready_skip(rest, later);
            let from = after + later[0].len() + 1;
            let end = lemma_laid_out(text, from, rest.skip(1), later.skip(1), state);
            assert(t =~= seq![first, mark] + rest.skip(1));
            lemma_joined_twice(seq![first, mark], rest.skip(1), lexed_from(text, stop, end));
            end
        } else {
            assert(t =~= seq![first] + rest);
            if first.kind == TokenType::String {
                lemma_string(text, at, first, state);
                let end = lemma_laid_out(
                    text,
                    after,
                    rest,
                    later,
                    LexState { start: at, ..state },
                );
                lemma_joined_twice(seq![first], rest, lexed_from(text, stop, end));
                end
            } else {
                lemma_punctuation(text, at, first, state);
                let end = lemma_laid_out(text, after, rest, later, state);
                lemma_joined_twice(seq![first], rest, lexed_from(text, stop, end));
                end
            }
        }
    }
}

proof fn lemma_word_laid_out(
    text: Seq<char>,
    at: int,
    first: Lexeme,
    rest: Seq<Lexeme>,
    later: Seq<Seq<char>>,
    state: LexState,
)
    requires
        quiet(state),
        word_kind(first.kind),
        writable(first),
        rest.len() > 0,
        ends_word_kind(rest[0].kind),
        ready(rest, later),
        written_at(text, at, first.text),
        written_at(text, at + first.text.len(), laid_out(rest, later)),
    ensures
        ({
            let end = at + first.text.len() + later[0].len() + 1;
            &&& lexed_from(text, at, state) == joined(
                seq![first, rest[0]],
                lexed_from(text, end, state),
            )
            &&& written_at(text, end, laid_out(rest.skip(1), later.skip(1)))
            &&& end + laid_out(rest.skip(1), later.skip(1)).len() == at + first.text.len()
                + laid_out(rest, later).len()
        }),
{
    let mark = rest[0];
    let after = at + first.text.len();
    lemma_ready_skip(rest, later);
    lemma_written_parts(
        text,
        after,
        later[0] + mark.text,
        laid_out(rest.skip(1), later.skip(1)),
    );
    lemma_written_join(text, at, first.text, later[0] + mark.text);
    assert(first.text + (later[0] + mark.text) =~= first.text + later[0] + mark.text);
    lemma_word(text, at, first, later[0], mark, state);
}

/// Tokens that are laid out in a text are found in it.
pub proof fn law_laid_out_tokens_are_found(t: Seq<Lexeme>, gaps: Seq<Seq<char>>)
    requires
        all_writable(t),
        words_end(t, TokenType::EOF),
        fitting(t, gaps),
    ensures
        lexed(laid_out(t, gaps)) == Ok::<Seq<Lexeme>, ErrorModel>(t.push(end_mark())),
{
    let text = laid_out(t, gaps);
    assert(text.subrange(0, text.len() as int) =~= text);
    let end = lemma_laid_out(text, 0, t, gaps, idle());
    assert(t + seq![end_mark()] =~= t.push(end_mark()));
}

proof fn lemma_words_end_concat(a: Seq<Lexeme>, b: Seq<Lexeme>, next: TokenType)
    requires
        b.len() > 0,
        words_end(a, b[0].kind),
        words_end(b, next),
    ensures
        words_end(a + b, next),
    decreases a.len(),
{
    if a.len() == 0 {
        assert(a + b =~= b);
    } else {
        assert((a + b).skip(1) =~= a.skip(1) + b);
        lemma_words_end_concat(a.skip(1), b, next);
    }
}

proof fn lemma_words_end_one(lexeme: Lexeme, next: TokenType)
    requires
        word_kind(lexeme.kind) ==> ends_word_kind(next),
    ensures
        words_end(seq![lexeme], next),
{
    assert(words_end(seq![lexeme].skip(1), next));
}

proof fn lemma_document_words_end(d: Document, next: TokenType)
    requires
        proper(d),
        d is Scalar ==> ends_word_kind(next),
    ensures
        document_tokens(d).len() > 0,
        words_end(document_tokens(d), next),
    decreases d, 1int,
{
    match d {
        Document::Scalar(lexeme) => {
            lemma_words_end_one(lexeme, next);
        },
        Document::Object(members) => {
            let inner = members_tokens(members);
            lemma_words_end_one(close_brace(), next);
            if members.len() > 0 {
                lemma_members_words_end(members, TokenType::CurvedBraceClose);
                lemma_words_end_one(open_brace(), inner[0].kind);
                lemma_words_end_concat(
                    seq![open_brace()],
                    inner,
                    TokenType::CurvedBraceClose,
                );
            } else {
                lemma_words_end_one(open_brace(), TokenType::CurvedBraceClose);
                assert(seq![open_brace()] + inner =~= seq![open_brace()]);
            }
            lemma_words_end_concat(seq![open_brace()] + inner, seq![close_brace()], next);
        },
        Document::Array(items) => {
            let inner = items_tokens(items);
            lemma_words_end_one(close_bracket(), next);
            if items.len() > 0 {
                lemma_items_words_end(items, TokenType::SquareBraceClose);
                lemma_words_end_one(open_bracket(), inner[0].kind);
                lemma_words_end_concat(
                    seq![open_bracket()],
                    inner,
                    TokenType::SquareBraceClose,
                );
            } else {
                lemma_words_end_one(open_bracket(), TokenType::SquareBraceClose);
                assert(seq![open_bracket()] + inner =~= seq![open_bracket()]);
            }
            lemma_words_end_concat(seq![open_bracket()] + inner, seq![close_bracket()], next);
        },
    }
}

proof fn lemma_items_words_end(items: Seq<Document>, next: TokenType)
    requires
        items_proper(items),
        items.len() > 0,
        ends_word_kind(next),
    ensures
        items_tokens(items).len() > 0,
        words_end(items_tokens(items), next),
    decreases items, 0int,
{
    let first = document_tokens(items[0]);
    if items.len() == 1 {
        lemma_document_words_end(items[0], next);
    } else {
        let rest = items_tokens(items.skip(1));
        lemma_document_words_end(items[0], TokenType::Comma);
        lemma_items_words_end(items.skip(1), next);
        lemma_words_end_one(comma(), rest[0].kind);
        lemma_words_end_concat(first, seq![comma()], rest[0].kind);
        lemma_words_end_concat(first + seq![comma()], rest, next);
    }
}

proof fn lemma_members_words_end(members: Seq<(Lexeme, Document)>, next: TokenType)
    requires
        members_proper(members),
        members.len() > 0,
        ends_word_kind(next),
    ensures
        members_tokens(members).len() > 0,
        words_end(members_tokens(members), next),
    decreases members, 0int,
{
    let (key, d) = members[0];
    let own = document_tokens(d);
    let first = seq![key, colon()] + own;
    lemma_document_words_end(
        d,
        if members.len() == 1 {
            next
        } else {
            TokenType::Comma
        },
    );
    lemma_words_end_one(key, TokenType::Colon);
    lemma_words_end_one(colon(), own[0].kind);
    lemma_words_end_concat(seq![key], seq![colon()], own[0].kind);
    assert(seq![key] + seq![colon()] =~= seq![key, colon()]);
    if members.len() == 1 {
        lemma_words_end_concat(seq![key, colon()], own, next);
    } else {
        let rest = members_tokens(members.skip(1));
        lemma_words_end_concat(seq![key, colon()], own, TokenType::Comma);
        lemma_members_words_end(members.skip(1), next);
        lemma_words_end_one(comma(), rest[0].kind);
        lemma_words_end_concat(first, seq![comma()], rest[0].kind);
        lemma_words_end_concat(first + seq![comma()], rest, next);
    }
}

/// A document that is an object or an array is read as its value, whatever whitespace stands before,
/// between and after its tokens; or the first thing that is wrong with it is told.
pub proof fn law_laid_out_document_is_read(d: Document, gaps: Seq<Seq<char>>)
    requires
        proper(d),
        !(d is Scalar),
        all_writable(document_tokens(d)),
        fitting(document_tokens(d), gaps),
    ensures
        text_read(laid_out(document_tokens(d), gaps)) == (match evaluated(d, 1) {
            Ok(value) => Reading::<JsonModel, ErrorModel>::Done(value),
            Err(error) => Reading::<JsonModel, ErrorModel>::Failed(error),
        }),
{
    lemma_document_words_end(d, TokenType::EOF);
    law_laid_out_tokens_are_found(document_tokens(d), gaps);
    law_document_is_read(d);
}

/// A text that has more tokens after a document that is an object or an array is refused, whatever
/// whitespace stands between them: a token is wrong, unless something is wrong with the document before.
pub proof fn law_text_after_document_is_refused(
    d: Document,
    more: Seq<Lexeme>,
    gaps: Seq<Seq<char>>,
)
    requires
        proper(d),
        !(d is Scalar),
        more.len() > 0,
        all_writable(document_tokens(d) + more),
        words_end(more, TokenType::EOF),
        fitting(document_tokens(d) + more, gaps),
    ensures
        text_read(laid_out(document_tokens(d) + more, gaps)) == Reading::<
            JsonModel,
            ErrorModel,
        >::Failed(
            match evaluated(d, 1) {
                Ok(_) => ErrorModel::WrongToken { got: wrong_kind(d, more[0].kind) },
                Err(error) => error,
            },
        ),
{
    lemma_document_words_end(d, more[0].kind);
    lemma_words_end_concat(document_tokens(d), more, TokenType::EOF);
    law_laid_out_tokens_are_found(document_tokens(d) + more, gaps);
    law_tokens_after_document_are_refused(d, more);
}

/// Every character is an ASCII one.
pub open spec fn ascii(text: Seq<char>) -> bool {
    forall|i: int| 0 <= i < text.len() ==> (#[trigger] text[i] as u32) < 128
}

/// The characters of ASCII that numbers are written with, and all beyond ASCII.
spec fn number_char(c: char) -> bool {
    '0' <= c <= '9' || c == '-' || c == '+' || c == '.' || c == 'e' || c == 'E' || c as u32 >= 128
}

spec fn number_chars(text: Seq<char>) -> bool {
    forall|i: int| 0 <= i < text.len() ==> number_char(#[trigger] text[i])
}

proof fn lemma_digits_chars(text: Seq<char>)
    requires
        digits(text),
    ensures
        number_chars(text),
{
    assert forall|i: int| 0 <= i < text.len() implies number_char(#[trigger] text[i]) by {
        assert(decimal_digit(text[i]));
    }
}

proof fn lemma_exponent_chars(text: Seq<char>)
    requires
        exponent(text),
    ensures
        number_chars(text),
{
    let n = if text.len() > 1 && (text[1] == '-' || text[1] == '+') {
        2int
    } else {
        1int
    };
    lemma_digits_chars(text.skip(n));
    assert forall|i: int| 0 <= i < text.len() implies number_char(#[trigger] text[i]) by {
        if i >= n {
            assert(number_char(text.skip(n)[i - n]));
        }
    }
}

proof fn lemma_number_chars_join(text: Seq<char>, at: int)
    requires
        0 <= at <= text.len(),
        number_chars(text.take(at)),
        number_chars(text.skip(at)),
    ensures
        number_chars(text),
{
    assert forall|i: int| 0 <= i < text.len() implies number_char(#[trigger] text[i]) by {
        if i < at {
            assert(number_char(text.take(at)[i]));
        } else {
            assert(number_char(text.skip(at)[i - at]));
        }
    }
}

proof fn lemma_whole_chars(text: Seq<char>)
    requires
        whole(text),
    ensures
        number_chars(text),
{
    if digits(text) {
        lemma_digits_chars(text);
    }
}

proof fn lemma_number_shape_chars(word: Seq<char>)
    requires
        integer_shape(word) || fraction_shape(word) || exponent_shape(word),
    ensures
        number_chars(word),
        word.len() > 0,
{
    let text = magnitude(word);
    assert(number_chars(text) && text.len() > 0) by {
        if integer_shape(word) {
            lemma_whole_chars(text);
        } else if fraction_shape(word) {
            let (dot, end) = choose|dot: int, end: int| fraction_at(text, dot, end);
            lemma_whole_chars(text.take(dot));
            lemma_digits_chars(text.subrange(dot + 1, end));
            if end < text.len() {
                lemma_exponent_chars(text.skip(end));
            }
            assert forall|i: int| 0 <= i < text.len() implies number_char(#[trigger] text[i]) by {
                if i < dot {
                    assert(number_char(text.take(dot)[i]));
                } else if dot < i < end {
                    assert(number_char(text.subrange(dot + 1, end)[i - dot - 1]));
                } else if end <= i {
                    assert(number_char(text.skip(end)[i - end]));
                }
            }
        } else {
            let at = choose|at: int| exponent_at(text, at);
            lemma_whole_chars(text.take(at));
            lemma_exponent_chars(text.skip(at));
            lemma_number_chars_join(text, at);
        }
    }
    assert forall|i: int| 0 <= i < word.len() implies number_char(#[trigger] word[i]) by {
        if word[0] == '-' {
            if i > 0 {
                assert(number_char(text[i - 1]));
            }
        } else {
            assert(number_char(text[i]));
        }
    }
}

/// Whether `c` is a quote, a backslash or punctuation, none of which stands in a keyword or number.
pub open spec fn barred(c: char) -> bool {
    c == '"' || c == '\\' || punctuation(c) is Some
}

/// No keyword or number is empty, or has a quote, a backslash or punctuation in it.
pub proof fn lemma_word_chars(word: Seq<char>)
    requires
        classified(word) is Ok,
    ensures
        word.len() > 0,
        forall|i: int| 0 <= i < word.len() ==> !barred(#[trigger] word[i]),
        ascii(word) ==> forall|i: int| 0 <= i < word.len() ==> !whitespace(#[trigger] word[i]),
{
    reveal_strlit("true");
    reveal_strlit("false");
    reveal_strlit("null");
    if word != "true"@ && word != "false"@ && word != "null"@ {
        lemma_number_shape_chars(word);
        assert forall|i: int| 0 <= i < word.len() implies !barred(#[trigger] word[i]) && (
        whitespace(word[i]) ==> word[i] as u32 >= 128) by {
            assert(number_char(word[i]));
        }
    }
}

/// Every keyword and every number in ASCII digits can be laid out.
pub proof fn law_ascii_words_are_plain(word: Seq<char>)
    requires
        ascii(word),
        classified(word) is Ok,
    ensures
        plain_word(word),
{
    lemma_word_chars(word);
}

} // verus!
