//! The tokens of a text stand in it one after the other.

use crate::layout::{barred, lemma_word_chars};
use crate::lexer::{
    advanced, classified, emitted, end_mark, ends_word, idle, lexed, lexed_from, punctuation,
    LexState,
};
use crate::text::{trimmed, whitespace};
use crate::token::Lexeme;
use vstd::prelude::*;

verus! {

/// `part` stands in `text` at `at`.
pub open spec fn found_at(text: Seq<char>, at: int, part: Seq<char>) -> bool {
    0 <= at && at + part.len() <= text.len() && text.subrange(at, at + part.len()) == part
}

/// The tokens are parts of the text from `from` on, each of them after the end of the one before.
pub open spec fn in_order(text: Seq<char>, from: int, t: Seq<Lexeme>) -> bool
    decreases t.len(),
{
    t.len() > 0 ==> exists|at: int|
        {
            &&& from <= at
            &&& #[trigger] found_at(text, at, t[0].text)
            &&& in_order(text, at + t[0].text.len(), t.skip(1))
        }
}

proof fn lemma_in_order_earlier(text: Seq<char>, from: int, earlier: int, t: Seq<Lexeme>)
    requires
        in_order(text, from, t),
        earlier <= from,
    ensures
        in_order(text, earlier, t),
{
}

proof fn lemma_in_order_push(text: Seq<char>, at: int, lexeme: Lexeme, next: int, t: Seq<Lexeme>)
    requires
        found_at(text, at, lexeme.text),
        at + lexeme.text.len() <= next,
        in_order(text, next, t),
    ensures
        in_order(text, at, seq![lexeme] + t),
{
    let all = seq![lexeme] + t;
    assert(all.skip(1) =~= t);
    lemma_in_order_earlier(text, next, at + lexeme.text.len(), t);
    assert(found_at(text, at, all[0].text));
}

/// What is cut off at the end of a text is whitespace, and all of it.
proof fn lemma_trimmed(text: Seq<char>)
    ensures
        trimmed(text).len() <= text.len(),
        trimmed(text) == text.take(trimmed(text).len() as int),
        forall|i: int| trimmed(text).len() <= i < text.len() ==> whitespace(#[trigger] text[i]),
        trimmed(text).len() > 0 ==> !whitespace(trimmed(text).last()),
    decreases text.len(),
{
    if text.len() > 0 && whitespace(text.last()) {
        let shorter = text.drop_last();
        lemma_trimmed(shorter);
        assert(shorter.take(trimmed(text).len() as int) =~= text.take(trimmed(text).len() as int));
        assert forall|i: int| trimmed(text).len() <= i < text.len() implies whitespace(
            #[trigger] text[i],
        ) by {
            if i < shorter.len() {
                assert(shorter[i] == text[i]);
            }
        }
    } else {
        assert(text.take(text.len() as int) =~= text);
    }
}

/// Only whitespace is cut off, at the end of a text alone, and what is left does not end in any.
pub proof fn law_only_whitespace_is_trimmed(text: Seq<char>)
    ensures
        trimmed(text).len() <= text.len(),
        trimmed(text) == text.take(trimmed(text).len() as int),
        forall|i: int| trimmed(text).len() <= i < text.len() ==> whitespace(#[trigger] text[i]),
        trimmed(text).len() > 0 ==> !whitespace(trimmed(text).last()),
{
    lemma_trimmed(text);
}

/// A quote, a backslash or punctuation stands in the text from `from` to `to`.
spec fn spoiled(text: Seq<char>, from: int, to: int) -> bool {
    exists|k: int| from <= k < to && barred(#[trigger] text[k])
}

/// The string or the word that is not ended began before `i`; where both are not ended, the string
/// began after the word.
spec fn reached(text: Seq<char>, i: int, state: LexState) -> bool {
    &&& state.in_string ==> 0 <= state.start < i && text[state.start] == '"'
    &&& state.word matches Some(from) ==> 0 <= from < i && (state.in_string ==> from < state.start)
}

/// Where the next token begins at the earliest.
spec fn earliest(text: Seq<char>, i: int, state: LexState) -> int {
    if state.in_string {
        state.start
    } else {
        match state.word {
            Some(from) => if spoiled(text, from, i) {
                i
            } else {
                from
            },
            None => i,
        }
    }
}

/// A word that a closing token or a comma ends stands where it began.
proof fn lemma_word_found(text: Seq<char>, from: int, i: int)
    requires
        0 <= from <= i <= text.len(),
        classified(trimmed(text.subrange(from, i))) is Ok,
    ensures
        !spoiled(text, from, i),
        found_at(text, from, trimmed(text.subrange(from, i))),
        from + trimmed(text.subrange(from, i)).len() <= i,
{
    let part = text.subrange(from, i);
    let word = trimmed(part);
    lemma_trimmed(part);
    lemma_word_chars(word);
    assert(text.subrange(from, from + word.len()) =~= word);
    if spoiled(text, from, i) {
        let k = choose|k: int| from <= k < i && barred(#[trigger] text[k]);
        assert(part[k - from] == text[k]);
        if k - from < word.len() {
            assert(word[k - from] == part[k - from]);
            assert(false);
        } else {
            assert(whitespace(part[k - from]));
            assert(false);
        }
    }
}

/// The next token begins no earlier after a step than before it.
proof fn lemma_earliest_grows(text: Seq<char>, i: int, state: LexState)
    requires
        0 <= i < text.len(),
        reached(text, i, state),
    ensures
        reached(text, i + 1, advanced(text, i, state)),
        !(text[i] == '"' && state.in_string && !state.escaped) ==> earliest(text, i, state)
            <= earliest(text, i + 1, advanced(text, i, state)),
        text[i] == '"' && state.in_string && !state.escaped || !state.in_string && punctuation(
            text[i],
        ) is Some ==> earliest(text, i + 1, advanced(text, i, state)) == i + 1,
{
    let next = advanced(text, i, state);
    if let Some(from) = state.word {
        if spoiled(text, from, i) {
            let k = choose|k: int| from <= k < i && barred(#[trigger] text[k]);
            assert(from <= k < i + 1 && barred(text[k]));
            assert(spoiled(text, from, i + 1));
        }
        if barred(text[i]) {
            assert(spoiled(text, from, i + 1));
        }
        if state.in_string {
            assert(barred(text[state.start]));
            assert(spoiled(text, from, i + 1));
        }
    }
}

proof fn lemma_in_order_from(text: Seq<char>, i: int, state: LexState)
    requires
        0 <= i <= text.len(),
        reached(text, i, state),
        lexed_from(text, i, state) is Ok,
    ensures
        in_order(text, earliest(text, i, state), lexed_from(text, i, state)->Ok_0),
    decreases text.len() - i,
{
    let from = earliest(text, i, state);
    if i == text.len() {
        assert(text.subrange(i, i) =~= Seq::empty());
        assert(found_at(text, i, end_mark().text));
        let none = Seq::<Lexeme>::empty();
        assert(in_order(text, i, none));
        lemma_in_order_push(text, i, end_mark(), i, none);
        assert(seq![end_mark()] + none =~= seq![end_mark()]);
        assert(from <= i);
        lemma_in_order_earlier(text, i, from, seq![end_mark()]);
    } else {
        let c = text[i];
        let next = advanced(text, i, state);
        let first = emitted(text, i, state)->Ok_0;
        let rest = lexed_from(text, i + 1, next)->Ok_0;
        let all = lexed_from(text, i, state)->Ok_0;
        assert(all == first + rest);
        lemma_earliest_grows(text, i, state);
        lemma_in_order_from(text, i + 1, next);
        if c == '"' && state.in_string && !state.escaped {
            assert(found_at(text, state.start, first[0].text));
            lemma_in_order_push(text, state.start, first[0], i + 1, rest);
            assert(first =~= seq![first[0]]);
        } else if !state.in_string && punctuation(c) is Some {
            let mark = Lexeme { kind: punctuation(c)->0, text: seq![c] };
            assert(text.subrange(i, i + 1) =~= seq![c]);
            assert(found_at(text, i, mark.text));
            lemma_in_order_push(text, i, mark, i + 1, rest);
            if ends_word(c) && state.word is Some {
                let start = state.word->0;
                lemma_word_found(text, start, i);
                lemma_in_order_push(text, start, first[0], i, seq![mark] + rest);
                assert(first + rest =~= seq![first[0]] + (seq![mark] + rest));
            } else {
                assert(first =~= seq![mark]);
                lemma_in_order_earlier(text, i, from, all);
            }
        } else {
            assert(all =~= rest);
            lemma_in_order_earlier(text, earliest(text, i + 1, next), from, rest);
        }
    }
}

/// Every token of a text is a part of it, and begins no earlier than where the one before it ends.
pub proof fn law_tokens_stand_in_order(text: Seq<char>)
    ensures
        lexed(text) matches Ok(t) ==> in_order(text, 0, t),
{
    if lexed(text) is Ok {
        lemma_in_order_from(text, 0, idle());
    }
}

} // verus!
