//! Which keywords and numbers there are, and what becomes of other words.

use crate::error::ErrorModel;
use crate::layout::{
    all_writable, blank, fitting, idles, laid_out, lemma_idle_run, lemma_laid_out,
    lemma_silent_step, lemma_string_body, lemma_written_char, lemma_written_parts, quotable,
    word_char, word_kind, words_end, writable, written_at,
};
use crate::lexer::{
    advanced, classified, emitted, end_mark, idle, lemma_joined_twice, lexed, lexed_from,
    lexemes, punctuation, LexState,
};
use crate::number::{
    decimal_digit, decimal_integer, exponent_at, exponent_shape, floating_point, fraction_at,
    fraction_shape, integer_shape, magnitude, whole, DIGIT_REGEX, FLOATING_POINT_REGEX,
    FLOATING_POINT_REGEX_2, INTEGER_REGEX,
};
use crate::parser::{scalar_of, text_read, Reading};
use crate::text::{trimmed, whitespace};
use crate::token::{bool_of, float_of, integer_of, string_of, Lexeme, Token, TokenType};
use crate::value::JsonModel;
use vstd::prelude::*;

verus! {

/// Tokens are seen in their models one by one, each with its kind and its text.
pub proof fn law_models_show_what_tokens_hold(tokens: Seq<Token<'_>>)
    ensures
        lexemes(tokens).len() == tokens.len(),
        forall|i: int|
            0 <= i < tokens.len() ==> (#[trigger] lexemes(tokens)[i]).kind == tokens[i].token_type
                && lexemes(tokens)[i].text == tokens[i].data@,
{
}

/// Numbers are looked for by these patterns.
pub proof fn law_patterns_of_numbers()
    ensures
        INTEGER_REGEX@ == "^-?([1-9]\\d*|0)$"@,
        FLOATING_POINT_REGEX@ == "^-?([1-9]\\d*|0)\\.\\d+([eE][\\-+]?\\d+)?$"@,
        FLOATING_POINT_REGEX_2@ == "^-?([1-9]\\d*|0)[eE][\\-+]?\\d+$"@,
        DIGIT_REGEX@ == "\\d"@,
{
}

/// The characters with the Unicode property White_Space are those with these codes.
pub proof fn law_whitespace_is_that_of_unicode(c: char)
    ensures
        whitespace(c) <==> {
            let code = c as int;
            ||| 9 <= code <= 13
            ||| code == 32
            ||| code == 133
            ||| code == 160
            ||| code == 5760
            ||| 8192 <= code <= 8202
            ||| code == 8232
            ||| code == 8233
            ||| code == 8239
            ||| code == 8287
            ||| code == 12288
        },
{
}

/// The word for what is true.
pub open spec fn true_word() -> Seq<char> {
    seq!['t', 'r', 'u', 'e']
}

/// The word for what is false.
pub open spec fn false_word() -> Seq<char> {
    seq!['f', 'a', 'l', 's', 'e']
}

/// The word for nothing.
pub open spec fn null_word() -> Seq<char> {
    seq!['n', 'u', 'l', 'l']
}

/// A keyword, or a word of the shape of a number.
pub open spec fn known_word(word: Seq<char>) -> bool {
    ||| word == true_word()
    ||| word == false_word()
    ||| word == null_word()
    ||| integer_shape(word)
    ||| fraction_shape(word)
    ||| exponent_shape(word)
}

proof fn lemma_keywords()
    ensures
        "true"@ == true_word(),
        "false"@ == false_word(),
        "null"@ == null_word(),
        true_word() != false_word(),
        true_word() != null_word(),
        false_word() != null_word(),
{
    reveal_strlit("true");
    reveal_strlit("false");
    reveal_strlit("null");
    assert("true"@ =~= true_word());
    assert("false"@ =~= false_word());
    assert("null"@ =~= null_word());
    assert(true_word()[0] != null_word()[0]);
    assert(true_word()[0] != false_word()[0]);
    assert(false_word()[0] != null_word()[0]);
}

/// A number with a fraction or an exponent is not a whole one.
proof fn lemma_shapes_differ(word: Seq<char>)
    requires
        fraction_shape(word) || exponent_shape(word),
    ensures
        !integer_shape(word),
{
    let text = magnitude(word);
    if fraction_shape(word) {
        let (dot, end) = choose|dot: int, end: int| fraction_at(text, dot, end);
        assert(!decimal_digit(text[dot]));
        assert(text.len() > 1);
    } else {
        let at = choose|at: int| exponent_at(text, at);
        assert(text.skip(at)[0] == text[at]);
        assert(!decimal_digit(text[at]));
        assert(text.len() > 1);
    }
}

/// A number begins with a digit, after its sign.
proof fn lemma_numbers_begin_with_digits(word: Seq<char>)
    requires
        integer_shape(word) || fraction_shape(word) || exponent_shape(word),
    ensures
        word.len() > 0,
        word[0] == '-' || '0' <= word[0] <= '9',
{
    let text = magnitude(word);
    if integer_shape(word) {
    } else if fraction_shape(word) {
        let (dot, end) = choose|dot: int, end: int| fraction_at(text, dot, end);
        assert(text.take(dot)[0] == text[0]);
    } else {
        let at = choose|at: int| exponent_at(text, at);
        assert(text.take(at)[0] == text[0]);
    }
}

/// Each word is of one kind at most: the two truth values, null, whole numbers, and numbers with a
/// fraction or an exponent. Any other word is wrong, and is told as it is.
pub proof fn law_words_are_told_apart(word: Seq<char>)
    ensures
        classified(word) == Ok::<TokenType, ErrorModel>(TokenType::Bool) <==> word == true_word()
            || word == false_word(),
        classified(word) == Ok::<TokenType, ErrorModel>(TokenType::Null) <==> word == null_word(),
        classified(word) == Ok::<TokenType, ErrorModel>(TokenType::Integer) <==> integer_shape(word),
        classified(word) == Ok::<TokenType, ErrorModel>(TokenType::Float) <==> fraction_shape(word)
            || exponent_shape(word),
        !known_word(word) <==> classified(word) is Err,
        classified(word) matches Err(error) ==> error == ErrorModel::WrongKeyword(word),
{
    lemma_keywords();
    if integer_shape(word) || fraction_shape(word) || exponent_shape(word) {
        lemma_numbers_begin_with_digits(word);
        assert(word != true_word() && word != false_word() && word != null_word());
    }
    if fraction_shape(word) || exponent_shape(word) {
        lemma_shapes_differ(word);
    }
}

/// The keywords stand for the truth values and for null, and a token of another kind is no value.
pub proof fn law_keywords_have_their_values(text: Seq<char>, kind: TokenType)
    ensures
        scalar_of(Lexeme { kind: TokenType::Bool, text: true_word() }) == Ok::<
            JsonModel,
            ErrorModel,
        >(JsonModel::Boolean(true)),
        scalar_of(Lexeme { kind: TokenType::Bool, text: false_word() }) == Ok::<
            JsonModel,
            ErrorModel,
        >(JsonModel::Boolean(false)),
        scalar_of(Lexeme { kind: TokenType::Null, text }) == Ok::<JsonModel, ErrorModel>(
            JsonModel::Null,
        ),
        match kind {
            TokenType::String | TokenType::Integer | TokenType::Float | TokenType::Bool
            | TokenType::Null => true,
            _ => scalar_of(Lexeme { kind, text }) == Err::<JsonModel, ErrorModel>(
                ErrorModel::WrongToken { got: kind },
            ),
        },
{
    lemma_keywords();
}

/// A token has a value of its own kind only: its text is taken as an integer or a floating-point number
/// where it is one of these, and what is asked of a token of another kind is refused.
pub proof fn law_tokens_have_values_of_their_kind(lexeme: Lexeme)
    ensures
        lexeme.kind == TokenType::Integer ==> integer_of(lexeme) == (match decimal_integer(
            lexeme.text,
        ) {
            Ok(number) => Ok::<int, ErrorModel>(number),
            Err(kind) => Err::<int, ErrorModel>(ErrorModel::ParseIntError { kind }),
        }),
        lexeme.kind == TokenType::Integer ==> scalar_of(lexeme) == (match decimal_integer(
            lexeme.text,
        ) {
            Ok(number) => Ok::<JsonModel, ErrorModel>(JsonModel::Integer(number)),
            Err(kind) => Err::<JsonModel, ErrorModel>(ErrorModel::ParseIntError { kind }),
        }),
        lexeme.kind == TokenType::Float ==> float_of(lexeme) == (match floating_point(lexeme.text) {
            Ok(bits) => Ok::<u64, ErrorModel>(bits),
            Err(kind) => Err::<u64, ErrorModel>(ErrorModel::ParseFloatError { kind }),
        }),
        lexeme.kind == TokenType::Float ==> scalar_of(lexeme) == (match floating_point(lexeme.text) {
            Ok(bits) => Ok::<JsonModel, ErrorModel>(JsonModel::Float(bits)),
            Err(kind) => Err::<JsonModel, ErrorModel>(ErrorModel::ParseFloatError { kind }),
        }),
        lexeme.kind == TokenType::Bool ==> bool_of(lexeme) == Ok::<bool, ErrorModel>(
            lexeme.text == true_word(),
        ),
        lexeme.kind != TokenType::String ==> string_of(lexeme) == Err::<Seq<char>, ErrorModel>(
            ErrorModel::WrongToken { got: lexeme.kind },
        ),
        lexeme.kind != TokenType::Integer ==> integer_of(lexeme) == Err::<int, ErrorModel>(
            ErrorModel::WrongToken { got: lexeme.kind },
        ),
        lexeme.kind != TokenType::Float ==> float_of(lexeme) == Err::<u64, ErrorModel>(
            ErrorModel::WrongToken { got: lexeme.kind },
        ),
        lexeme.kind != TokenType::Bool ==> bool_of(lexeme) == Err::<bool, ErrorModel>(
            ErrorModel::WrongToken { got: lexeme.kind },
        ),
{
    lemma_keywords();
}

/// The six marks of punctuation, and no other characters, are tokens by themselves.
pub proof fn law_punctuation_is_six_marks(c: char)
    ensures
        punctuation(c) == (match c {
            '{' => Some(TokenType::CurvedBraceOpen),
            '}' => Some(TokenType::CurvedBraceClose),
            '[' => Some(TokenType::SquareBraceOpen),
            ']' => Some(TokenType::SquareBraceClose),
            ':' => Some(TokenType::Colon),
            ',' => Some(TokenType::Comma),
            _ => None,
        }),
{
}

/// A keyword or number is spelled as one of its kind is.
pub open spec fn spelled_word(lexeme: Lexeme) -> bool {
    &&& lexeme.kind == TokenType::Null ==> lexeme.text == null_word()
    &&& lexeme.kind == TokenType::Bool ==> lexeme.text == true_word() || lexeme.text == false_word()
    &&& lexeme.kind == TokenType::Integer ==> integer_shape(lexeme.text)
    &&& lexeme.kind == TokenType::Float ==> fraction_shape(lexeme.text) || exponent_shape(
        lexeme.text,
    )
}

proof fn lemma_spelled_words_from(text: Seq<char>, i: int, state: LexState)
    requires
        lexed_from(text, i, state) is Ok,
    ensures
        forall|k: int|
            0 <= k < lexed_from(text, i, state)->Ok_0.len() ==> spelled_word(
                #[trigger] lexed_from(text, i, state)->Ok_0[k],
            ),
    decreases text.len() - i,
{
    let all = lexed_from(text, i, state)->Ok_0;
    if i < text.len() {
        let next = advanced(text, i, state);
        lemma_spelled_words_from(text, i + 1, next);
        let first = emitted(text, i, state)->Ok_0;
        let rest = lexed_from(text, i + 1, next)->Ok_0;
        assert(all == first + rest);
        if state.word is Some {
            law_words_are_told_apart(trimmed(text.subrange(state.word->0, i)));
        }
        assert forall|k: int| 0 <= k < all.len() implies spelled_word(#[trigger] all[k]) by {
            if k >= first.len() {
                assert(spelled_word(rest[k - first.len()]));
            }
        }
    }
}

/// Every keyword and number among the tokens of a text is spelled as one of its kind is.
pub proof fn law_word_tokens_are_spelled(text: Seq<char>)
    ensures
        lexed(text) matches Ok(t) ==> forall|k: int|
            0 <= k < t.len() ==> spelled_word(#[trigger] t[k]),
{
    if lexed(text) is Ok {
        lemma_spelled_words_from(text, 0, idle());
    }
}

/// Whether `c` may stand within a word, known or not: nothing that ends it, no quote, no backslash.
pub open spec fn within_word(c: char) -> bool {
    c != '}' && c != ']' && c != ',' && c != '"' && c != '\\'
}

/// Whether `c` may begin a word.
pub open spec fn begins_word(c: char) -> bool {
    within_word(c) && c != '{' && c != '[' && c != ':' && !whitespace(c)
}

/// A part of a word: a character, or a string in quotes, which does not end it.
pub enum Chunk {
    Bare(char),
    Quoted(Seq<char>),
}

/// How the part is written.
pub open spec fn chunk_text(chunk: Chunk) -> Seq<char> {
    match chunk {
        Chunk::Bare(c) => seq![c],
        Chunk::Quoted(body) => seq!['"'] + body + seq!['"'],
    }
}

/// Whether it may be a part of a word.
pub open spec fn sound_chunk(chunk: Chunk) -> bool {
    match chunk {
        Chunk::Bare(c) => within_word(c),
        Chunk::Quoted(body) => quotable(body),
    }
}

/// How the parts are written, one after the other.
pub open spec fn chunks_text(chunks: Seq<Chunk>) -> Seq<char>
    decreases chunks.len(),
{
    if chunks.len() == 0 {
        Seq::empty()
    } else {
        chunk_text(chunks[0]) + chunks_text(chunks.skip(1))
    }
}

/// All of them may be parts of a word.
pub open spec fn sound_chunks(chunks: Seq<Chunk>) -> bool {
    forall|i: int| 0 <= i < chunks.len() ==> sound_chunk(#[trigger] chunks[i])
}

/// Within a word, outside of strings.
spec fn in_word(state: LexState, from: int) -> bool {
    !state.in_string && !state.escaped && state.word == Some(from)
}

proof fn lemma_chunk(text: Seq<char>, i: int, chunk: Chunk, state: LexState, from: int) -> (after:
    LexState)
    requires
        sound_chunk(chunk),
        written_at(text, i, chunk_text(chunk)),
        in_word(state, from),
    ensures
        in_word(after, from),
        lexed_from(text, i + chunk_text(chunk).len(), after) matches Err(error) ==> lexed_from(
            text,
            i,
            state,
        ) == Err::<Seq<Lexeme>, ErrorModel>(error),
{
    match chunk {
        Chunk::Bare(c) => {
            lemma_written_char(text, i, chunk_text(chunk), 0);
            assert(advanced(text, i, state) == state);
            assert(emitted(text, i, state) is Ok);
            state
        },
        Chunk::Quoted(body) => {
            let whole = chunk_text(chunk);
            let n = whole.len() as int;
            let inside = LexState { in_string: true, start: i, ..state };
            let after = LexState { start: i, ..state };
            lemma_written_char(text, i, whole, 0);
            lemma_written_char(text, i, whole, n - 1);
            lemma_silent_step(text, i, state);
            assert(advanced(text, i, state) == inside);
            assert(text.subrange(i + 1, i + 1 + body.len()) =~= text.subrange(i, i + n).subrange(
                1,
                n - 1,
            ));
            assert(whole.subrange(1, n - 1) =~= body);
            lemma_string_body(text, i + 1, body, inside);
            assert(advanced(text, i + n - 1, inside) == after);
            assert(emitted(text, i + n - 1, inside) is Ok);
            after
        },
    }
}

proof fn lemma_chunks(text: Seq<char>, i: int, chunks: Seq<Chunk>, state: LexState, from: int) -> (
    after: LexState)
    requires
        sound_chunks(chunks),
        written_at(text, i, chunks_text(chunks)),
        in_word(state, from),
    ensures
        in_word(after, from),
        lexed_from(text, i + chunks_text(chunks).len(), after) matches Err(error) ==> lexed_from(
            text,
            i,
            state,
        ) == Err::<Seq<Lexeme>, ErrorModel>(error),
    decreases chunks.len(),
{
    if chunks.len() == 0 {
        state
    } else {
        let first = chunk_text(chunks[0]);
        let others = chunks.skip(1);
        assert(sound_chunk(chunks[0]));
        assert forall|k: int| 0 <= k < others.len() implies sound_chunk(#[trigger] others[k]) by {
            assert(others[k] == chunks[k + 1]);
        }
        lemma_written_parts(text, i, first, chunks_text(others));
        let next = lemma_chunk(text, i, chunks[0], state, from);
        lemma_chunks(text, i + first.len(), others, next, from)
    }
}

/// A word that is none of the known ones: it begins as a word, ends with no whitespace, and nothing in
/// it ends it.
pub open spec fn unknown_word(first: char, chunks: Seq<Chunk>) -> bool {
    let word = seq![first] + chunks_text(chunks);
    &&& begins_word(first)
    &&& sound_chunks(chunks)
    &&& !whitespace(word.last())
    &&& !known_word(word)
}

proof fn lemma_trim_word(word: Seq<char>, gap: Seq<char>)
    requires
        word.len() > 0,
        !whitespace(word.last()),
        blank(gap),
    ensures
        trimmed(word + gap) == word,
    decreases gap.len(),
{
    if gap.len() > 0 {
        assert(whitespace(gap[gap.len() - 1]));
        assert((word + gap).drop_last() =~= word + gap.drop_last());
        assert forall|i: int| 0 <= i < gap.drop_last().len() implies whitespace(
            #[trigger] gap.drop_last()[i],
        ) by {
            assert(whitespace(gap[i]));
        }
        lemma_trim_word(word, gap.drop_last());
    } else {
        assert(word + gap =~= word);
    }
}

/// A text is refused for the first word in it that is none of the known ones, whatever comes after: the
/// error tells the word, from its beginning up to the last character before the whitespace and the
/// closing token or comma that end it.
pub proof fn law_unknown_words_are_refused(
    t: Seq<Lexeme>,
    gaps: Seq<Seq<char>>,
    first: char,
    chunks: Seq<Chunk>,
    gap: Seq<char>,
    close: char,
    rest: Seq<char>,
)
    requires
        all_writable(t),
        words_end(t, TokenType::EOF),
        fitting(t, gaps),
        unknown_word(first, chunks),
        blank(gap),
        close == '}' || close == ']' || close == ',',
    ensures
        text_read(
            laid_out(t, gaps) + (seq![first] + chunks_text(chunks)) + gap + seq![close] + rest,
        ) == Reading::<JsonModel, ErrorModel>::Failed(
            ErrorModel::WrongKeyword(seq![first] + chunks_text(chunks)),
        ),
{
    let before = laid_out(t, gaps);
    let body = chunks_text(chunks);
    let word = seq![first] + body;
    let text = before + word + gap + seq![close] + rest;
    let n = before.len() as int;
    let end = n + word.len() + gap.len();
    assert(text.subrange(0, n) =~= before);
    let state = lemma_laid_out(text, 0, t, gaps, idle());
    let inside = LexState { word: Some(n), ..state };
    assert(text[n] == first);
    assert(advanced(text, n, state) == inside);
    lemma_silent_step(text, n, state);
    assert(text.subrange(n + 1, n + 1 + body.len()) =~= body);
    let after = lemma_chunks(text, n + 1, chunks, inside, n);
    assert(text.subrange(n + word.len(), end) =~= gap);
    assert forall|k: int| 0 <= k < gap.len() implies idles(#[trigger] gap[k], after) by {
        assert(whitespace(gap[k]));
    }
    lemma_idle_run(text, n + word.len(), gap, after);
    assert(text[end] == close);
    assert(text.subrange(n, end) =~= word + gap);
    lemma_trim_word(word, gap);
    law_words_are_told_apart(word);
    assert(emitted(text, end, after) == Err::<Seq<Lexeme>, ErrorModel>(
        ErrorModel::WrongKeyword(word),
    ));
    assert(lexed_from(text, end, after) == Err::<Seq<Lexeme>, ErrorModel>(
        ErrorModel::WrongKeyword(word),
    ));
    assert(lexed(text) == Err::<Seq<Lexeme>, ErrorModel>(ErrorModel::WrongKeyword(word)));
}

/// A word that nothing ends before the end of the text is no token.
pub proof fn law_unfinished_words_are_dropped(
    t: Seq<Lexeme>,
    gaps: Seq<Seq<char>>,
    word: Seq<char>,
)
    requires
        all_writable(t),
        words_end(t, TokenType::EOF),
        fitting(t, gaps),
        word.len() > 0,
        begins_word(word[0]),
        forall|i: int|
            0 <= i < word.len() ==> begins_word(#[trigger] word[i]) || whitespace(word[i]),
    ensures
        lexed(laid_out(t, gaps) + word) == Ok::<Seq<Lexeme>, ErrorModel>(t.push(end_mark())),
{
    let before = laid_out(t, gaps);
    let text = before + word;
    let n = before.len() as int;
    assert(text.subrange(0, n) =~= before);
    let state = lemma_laid_out(text, 0, t, gaps, idle());
    let inside = LexState { word: Some(n), ..state };
    assert(text[n] == word[0]);
    assert(advanced(text, n, state) == inside);
    lemma_silent_step(text, n, state);
    let rest = word.skip(1);
    assert(text.subrange(n + 1, text.len() as int) =~= rest);
    assert forall|k: int| 0 <= k < rest.len() implies idles(
        #[trigger] rest[k],
        inside,
    ) by {
        assert(rest[k] == word[k + 1]);
    }
    lemma_idle_run(text, n + 1, rest, inside);
    assert(t + seq![end_mark()] =~= t.push(end_mark()));
}

/// A string that nothing ends before the end of the text is no token.
pub proof fn law_unfinished_strings_are_dropped(
    t: Seq<Lexeme>,
    gaps: Seq<Seq<char>>,
    body: Seq<char>,
)
    requires
        all_writable(t),
        words_end(t, TokenType::EOF),
        fitting(t, gaps),
        quotable(body),
    ensures
        lexed(laid_out(t, gaps) + seq!['"'] + body) == Ok::<Seq<Lexeme>, ErrorModel>(
            t.push(end_mark()),
        ),
{
    let before = laid_out(t, gaps);
    let text = before + seq!['"'] + body;
    let n = before.len() as int;
    assert(text.subrange(0, n) =~= before);
    let state = lemma_laid_out(text, 0, t, gaps, idle());
    let inside = LexState { in_string: true, start: n, ..state };
    assert(text[n] == '"');
    assert(advanced(text, n, state) == inside);
    lemma_silent_step(text, n, state);
    assert(text.subrange(n + 1, text.len() as int) =~= body);
    lemma_string_body(text, n + 1, body, inside);
    assert(t + seq![end_mark()] =~= t.push(end_mark()));
}

/// Between tokens, a backslash and a quote or another backslash after it are skipped.
pub proof fn law_backslashes_between_tokens_are_skipped(
    a: Seq<Lexeme>,
    gaps: Seq<Seq<char>>,
    c: char,
    b: Seq<Lexeme>,
    later: Seq<Seq<char>>,
)
    requires
        all_writable(a),
        words_end(a, TokenType::EOF),
        fitting(a, gaps),
        c == '"' || c == '\\',
        all_writable(b),
        words_end(b, TokenType::EOF),
        fitting(b, later),
    ensures
        lexed(laid_out(a, gaps) + seq!['\\', c] + laid_out(b, later)) == Ok::<
            Seq<Lexeme>,
            ErrorModel,
        >((a + b).push(end_mark())),
{
    let before = laid_out(a, gaps);
    let after = laid_out(b, later);
    let text = before + seq!['\\', c] + after;
    let n = before.len() as int;
    assert(text.subrange(0, n) =~= before);
    let state = lemma_laid_out(text, 0, a, gaps, idle());
    let escaped = LexState { escaped: true, ..state };
    assert(text[n] == '\\');
    assert(text[n + 1] == c);
    assert(advanced(text, n, state) == escaped);
    lemma_silent_step(text, n, state);
    assert(advanced(text, n + 1, escaped) == state);
    lemma_silent_step(text, n + 1, escaped);
    assert(text.subrange(n + 2, text.len() as int) =~= after);
    let end = lemma_laid_out(text, n + 2, b, later, state);
    lemma_joined_twice(a, b, lexed_from(text, text.len() as int, end));
    assert(a + b + seq![end_mark()] =~= (a + b).push(end_mark()));
}

/// Between tokens, a backslash before a keyword or number is skipped, with the whitespace after it.
pub proof fn law_backslash_before_word_is_skipped(
    a: Seq<Lexeme>,
    gaps: Seq<Seq<char>>,
    b: Seq<Lexeme>,
    later: Seq<Seq<char>>,
)
    requires
        all_writable(a),
        words_end(a, TokenType::EOF),
        fitting(a, gaps),
        all_writable(b),
        words_end(b, TokenType::EOF),
        fitting(b, later),
        b.len() > 0,
        word_kind(b[0].kind),
    ensures
        lexed(laid_out(a, gaps) + seq!['\\'] + laid_out(b, later)) == Ok::<
            Seq<Lexeme>,
            ErrorModel,
        >((a + b).push(end_mark())),
{
    let before = laid_out(a, gaps);
    let after = laid_out(b, later);
    let text = before + seq!['\\'] + after;
    let n = before.len() as int;
    assert(text.subrange(0, n) =~= before);
    let state = lemma_laid_out(text, 0, a, gaps, idle());
    let escaped = LexState { escaped: true, ..state };
    assert(text[n] == '\\');
    assert(advanced(text, n, state) == escaped);
    lemma_silent_step(text, n, state);
    assert(text.subrange(n + 1, text.len() as int) =~= after);
    // the whitespace, and the first character of the word, which ends the escape
    let gap = later[0];
    let word = b[0].text;
    assert(blank(gap));
    assert(writable(b[0]));
    assert(after == gap + word + laid_out(b.skip(1), later.skip(1)));
    let at = n + 1 + gap.len();
    assert(text.subrange(n + 1, at) =~= gap);
    assert forall|k: int| 0 <= k < gap.len() implies idles(#[trigger] gap[k], escaped) && idles(
        gap[k],
        state,
    ) by {
        assert(whitespace(gap[k]));
    }
    lemma_idle_run(text, n + 1, gap, escaped);
    lemma_idle_run(text, n + 1, gap, state);
    assert(text[at] == word[0]);
    assert(word_char(word[0]));
    assert(advanced(text, at, escaped) == advanced(text, at, state));
    lemma_silent_step(text, at, escaped);
    lemma_silent_step(text, at, state);
    let end = lemma_laid_out(text, n + 1, b, later, state);
    lemma_joined_twice(a, b, lexed_from(text, text.len() as int, end));
    assert(a + b + seq![end_mark()] =~= (a + b).push(end_mark()));
}

/// What is read from some place on depends on the text from there on, and from where the string or word
/// began that is not ended.
proof fn lemma_same_rest(x: Seq<char>, y: Seq<char>, from: int, i: int, state: LexState)
    requires
        0 <= from <= i,
        x.len() == y.len(),
        forall|k: int| from <= k < x.len() ==> x[k] == y[k],
        state.in_string ==> from <= state.start < i,
        state.word matches Some(start) ==> from <= start < i,
    ensures
        lexed_from(x, i, state) == lexed_from(y, i, state),
    decreases x.len() - i,
{
    if i < x.len() {
        assert(x[i] == y[i]);
        if state.in_string {
            assert(x.subrange(state.start, i + 1) =~= y.subrange(state.start, i + 1));
        }
        if state.word is Some {
            assert(x.subrange(state.word->0, i) =~= y.subrange(state.word->0, i));
        }
        assert(emitted(x, i, state) == emitted(y, i, state));
        assert(advanced(x, i, state) == advanced(y, i, state));
        lemma_same_rest(x, y, from, i + 1, advanced(x, i, state));
    }
}

/// Between tokens, a backslash before a mark of punctuation can as well stand after it, whatever comes
/// then.
pub proof fn law_backslash_passes_over_punctuation(
    t: Seq<Lexeme>,
    gaps: Seq<Seq<char>>,
    mark: char,
    rest: Seq<char>,
)
    requires
        all_writable(t),
        words_end(t, TokenType::EOF),
        fitting(t, gaps),
        mark == '{' || mark == '}' || mark == '[' || mark == ']' || mark == ',' || mark == ':',
    ensures
        lexed(laid_out(t, gaps) + seq!['\\', mark] + rest) == lexed(
            laid_out(t, gaps) + seq![mark, '\\'] + rest,
        ),
{
    let before = laid_out(t, gaps);
    let x = before + seq!['\\', mark] + rest;
    let y = before + seq![mark, '\\'] + rest;
    let n = before.len() as int;
    assert(x.subrange(0, n) =~= before);
    assert(y.subrange(0, n) =~= before);
    let sx = lemma_laid_out(x, 0, t, gaps, idle());
    let sy = lemma_laid_out(y, 0, t, gaps, idle());
    let ex = LexState { escaped: true, ..sx };
    let ey = LexState { escaped: true, ..sy };
    assert(x[n] == '\\' && x[n + 1] == mark && y[n] == mark && y[n + 1] == '\\');
    assert(advanced(x, n, sx) == ex);
    lemma_silent_step(x, n, sx);
    assert(advanced(x, n + 1, ex) == ex);
    assert(advanced(y, n, sy) == sy);
    assert(advanced(y, n + 1, sy) == ey);
    lemma_silent_step(y, n + 1, sy);
    let found = seq![Lexeme { kind: punctuation(mark)->0, text: seq![mark] }];
    assert(emitted(x, n + 1, ex) == Ok::<Seq<Lexeme>, ErrorModel>(found));
    assert(emitted(y, n, sy) == Ok::<Seq<Lexeme>, ErrorModel>(found));
    lemma_same_rest(x, y, n + 2, n + 2, ex);
    lemma_same_start(y, n + 2, ex, ey);
}

/// Where no string is open, it does not matter where the last one began.
proof fn lemma_same_start(text: Seq<char>, i: int, a: LexState, b: LexState)
    requires
        !a.in_string,
        b == (LexState { start: b.start, ..a }),
    ensures
        lexed_from(text, i, a) == lexed_from(text, i, b),
    decreases text.len() - i,
{
    if i < text.len() {
        let next = advanced(text, i, a);
        assert(emitted(text, i, a) == emitted(text, i, b));
        if next.in_string {
            assert(next == advanced(text, i, b));
        } else {
            lemma_same_start(text, i + 1, next, advanced(text, i, b));
        }
    }
}

} // verus!
