//! What strings stand for, whichever way their characters are written.

use crate::error::ErrorModel;
use crate::layout::{quotable, quotable_escaped, writable};
use crate::number::{digit_value, hexadecimal_code, numeral, IntegerFault};
use crate::parser::scalar_of;
use crate::text::whitespace;
use crate::token::{after, string_of, unescaped, Lexeme, TokenType};
use crate::value::JsonModel;
use vstd::prelude::*;

verus! {

/// One character of a string, the way it is written: as it is, by one of the escapes of two characters,
/// or by its code.
pub enum Piece {
    Plain(char),
    Quote,
    Backslash,
    Slash,
    Backspace,
    FormFeed,
    LineFeed,
    CarriageReturn,
    Tab,
    Code(char, char, char, char),
}

/// The number that a hexadecimal digit, in small or capital letters, stands for; 16 for other
/// characters.
pub open spec fn symbol_value(c: char) -> nat {
    let code = c as nat;
    if 48 <= code <= 57 {
        (code - 48) as nat
    } else if 97 <= code <= 102 {
        (code - 87) as nat
    } else if 65 <= code <= 70 {
        (code - 55) as nat
    } else {
        16
    }
}

/// The code that four hexadecimal digits stand for; the first may be a plus sign.
pub open spec fn code_value(a: char, b: char, c: char, d: char) -> nat {
    let high = if a == '+' {
        0
    } else {
        4096 * symbol_value(a)
    };
    high + 256 * symbol_value(b) + 16 * symbol_value(c) + symbol_value(d)
}

/// Whether four characters are hexadecimal digits, of which the first may be a plus sign.
pub open spec fn hexadecimal(a: char, b: char, c: char, d: char) -> bool {
    &&& a == '+' || symbol_value(a) < 16
    &&& symbol_value(b) < 16
    &&& symbol_value(c) < 16
    &&& symbol_value(d) < 16
}

/// How the character is written.
pub open spec fn piece_text(piece: Piece) -> Seq<char> {
    match piece {
        Piece::Plain(c) => seq![c],
        Piece::Quote => seq!['\\', '"'],
        Piece::Backslash => seq!['\\', '\\'],
        Piece::Slash => seq!['\\', '/'],
        Piece::Backspace => seq!['\\', 'b'],
        Piece::FormFeed => seq!['\\', 'f'],
        Piece::LineFeed => seq!['\\', 'n'],
        Piece::CarriageReturn => seq!['\\', 'r'],
        Piece::Tab => seq!['\\', 't'],
        Piece::Code(a, b, c, d) => seq!['\\', 'u', a, b, c, d],
    }
}

/// Which character it is.
pub open spec fn piece_char(piece: Piece) -> char {
    match piece {
        Piece::Plain(c) => c,
        Piece::Quote => '"',
        Piece::Backslash => '\\',
        Piece::Slash => '/',
        Piece::Backspace => '\u{8}',
        Piece::FormFeed => '\u{c}',
        Piece::LineFeed => '\u{a}',
        Piece::CarriageReturn => '\u{d}',
        Piece::Tab => '\u{9}',
        Piece::Code(a, b, c, d) => code_value(a, b, c, d) as char,
    }
}

/// Whether a character can be written so: one that stands as it is is neither a backslash nor a control
/// character, and a code is hexadecimal and that of a character.
pub open spec fn sound_piece(piece: Piece) -> bool {
    match piece {
        Piece::Plain(c) => c != '\\' && c as nat > 31,
        Piece::Code(a, b, c, d) => hexadecimal(a, b, c, d) && !(0xd800 <= code_value(a, b, c, d)
            <= 0xdfff),
        _ => true,
    }
}

/// All of the characters can be written so.
pub open spec fn sound_pieces(pieces: Seq<Piece>) -> bool {
    forall|i: int| 0 <= i < pieces.len() ==> sound_piece(#[trigger] pieces[i])
}

/// How the characters are written, one after the other.
pub open spec fn pieces_text(pieces: Seq<Piece>) -> Seq<char>
    decreases pieces.len(),
{
    if pieces.len() == 0 {
        Seq::empty()
    } else {
        piece_text(pieces[0]) + pieces_text(pieces.skip(1))
    }
}

/// Which characters they are.
pub open spec fn pieces_chars(pieces: Seq<Piece>) -> Seq<char> {
    Seq::new(pieces.len(), |i: int| piece_char(pieces[i]))
}

/// The string token with the given text between its quotes.
pub open spec fn quoted_token(body: Seq<char>) -> Lexeme {
    Lexeme { kind: TokenType::String, text: seq!['"'] + body + seq!['"'] }
}

proof fn lemma_symbol(c: char)
    ensures
        digit_value(c, 16) == (if symbol_value(c) < 16 {
            Some(symbol_value(c) as int)
        } else {
            None
        }),
{
}

proof fn lemma_numeral_one(c: char)
    ensures
        numeral(seq![c], 16, false, 0, u32::MAX as int) == (if symbol_value(c) < 16 {
            Ok::<int, IntegerFault>(symbol_value(c) as int)
        } else {
            Err::<int, IntegerFault>(IntegerFault::InvalidDigit)
        }),
{
    lemma_symbol(c);
    assert(seq![c].drop_last() =~= Seq::<char>::empty());
    assert(numeral(Seq::<char>::empty(), 16, false, 0, u32::MAX as int) == Ok::<int, IntegerFault>(
        0,
    ));
    assert(seq![c].last() == c);
}

/// What four characters are as a code, or that they are none.
proof fn lemma_code(a: char, b: char, c: char, d: char)
    ensures
        hexadecimal_code(seq![a, b, c, d]) == (if hexadecimal(a, b, c, d) {
            Ok::<int, IntegerFault>(code_value(a, b, c, d) as int)
        } else {
            Err::<int, IntegerFault>(IntegerFault::InvalidDigit)
        }),
        hexadecimal(a, b, c, d) ==> code_value(a, b, c, d) < 0x1_0000,
{
    let max = u32::MAX as int;
    let four = seq![a, b, c, d];
    lemma_symbol(a);
    lemma_symbol(b);
    lemma_symbol(c);
    lemma_symbol(d);
    if a == '+' {
        let one = seq![b];
        let two = seq![b, c];
        let three = seq![b, c, d];
        assert(four.skip(1) =~= three);
        assert(three.drop_last() =~= two);
        assert(two.drop_last() =~= one);
        lemma_numeral_one(b);
        assert(two.last() == c);
        assert(three.last() == d);
        assert(numeral(two, 16, false, 0, max) is Ok <==> symbol_value(b) < 16 && symbol_value(c)
            < 16);
        assert(hexadecimal_code(four) == numeral(three, 16, false, 0, max));
    } else {
        let one = seq![a];
        let two = seq![a, b];
        let three = seq![a, b, c];
        assert(four.drop_last() =~= three);
        assert(three.drop_last() =~= two);
        assert(two.drop_last() =~= one);
        lemma_numeral_one(a);
        assert(two.last() == b);
        assert(three.last() == c);
        assert(four.last() == d);
        assert(numeral(two, 16, false, 0, max) is Ok <==> symbol_value(a) < 16 && symbol_value(b)
            < 16);
        assert(numeral(three, 16, false, 0, max) is Ok <==> symbol_value(a) < 16 && symbol_value(b)
            < 16 && symbol_value(c) < 16);
        assert(hexadecimal_code(four) == numeral(four, 16, false, 0, max));
    }
}

proof fn lemma_piece(piece: Piece, rest: Seq<char>)
    requires
        sound_piece(piece),
    ensures
        unescaped(piece_text(piece) + rest) == after(seq![piece_char(piece)], unescaped(rest)),
{
    let text = piece_text(piece);
    let body = text + rest;
    match piece {
        Piece::Plain(c) => {
            assert(body.skip(1) =~= rest);
        },
        Piece::Code(a, b, c, d) => {
            lemma_code(a, b, c, d);
            assert(body.subrange(2, 6) =~= seq![a, b, c, d]);
            assert(body.skip(6) =~= rest);
        },
        _ => {
            assert(body.skip(2) =~= rest);
        },
    }
}

proof fn lemma_pieces(pieces: Seq<Piece>, rest: Seq<char>)
    requires
        sound_pieces(pieces),
    ensures
        unescaped(pieces_text(pieces) + rest) == after(pieces_chars(pieces), unescaped(rest)),
    decreases pieces.len(),
{
    if pieces.len() == 0 {
        assert(pieces_text(pieces) + rest =~= rest);
        if let Ok(text) = unescaped(rest) {
            assert(pieces_chars(pieces) + text =~= text);
        }
    } else {
        let others = pieces.skip(1);
        assert forall|i: int| 0 <= i < others.len() implies sound_piece(#[trigger] others[i]) by {
            assert(others[i] == pieces[i + 1]);
        }
        lemma_pieces(others, rest);
        assert(sound_piece(pieces[0]));
        lemma_piece(pieces[0], pieces_text(others) + rest);
        assert(pieces_text(pieces) + rest =~= piece_text(pieces[0]) + (pieces_text(others) + rest));
        if let Ok(text) = unescaped(rest) {
            assert(seq![piece_char(pieces[0])] + (pieces_chars(others) + text) =~= pieces_chars(
                pieces,
            ) + text);
        }
    }
}

proof fn lemma_body(body: Seq<char>)
    ensures
        string_of(quoted_token(body)) == unescaped(body),
{
    let text = quoted_token(body).text;
    assert(text.subrange(1, text.len() - 1) =~= body);
}

/// What stands at the two ends of a string token does not matter for what it stands for.
pub proof fn law_ends_of_strings_are_left_out(first: char, body: Seq<char>, last: char)
    ensures
        string_of(
            Lexeme { kind: TokenType::String, text: seq![first] + body + seq![last] },
        ) == string_of(quoted_token(body)),
{
    let text = seq![first] + body + seq![last];
    lemma_body(body);
    assert(text.subrange(1, text.len() - 1) =~= body);
}

/// A string stands for its characters, in their order, whichever way each of them is written and
/// whatever stands around it.
pub proof fn law_characters_are_read_however_written(pieces: Seq<Piece>)
    requires
        sound_pieces(pieces),
    ensures
        string_of(quoted_token(pieces_text(pieces))) == Ok::<Seq<char>, ErrorModel>(
            pieces_chars(pieces),
        ),
        scalar_of(quoted_token(pieces_text(pieces))) == Ok::<JsonModel, ErrorModel>(
            JsonModel::String(pieces_chars(pieces)),
        ),
{
    let none = Seq::<char>::empty();
    lemma_body(pieces_text(pieces));
    lemma_pieces(pieces, none);
    assert(pieces_text(pieces) + none =~= pieces_text(pieces));
    assert(unescaped(none) == Ok::<Seq<char>, ErrorModel>(none));
    assert(pieces_chars(pieces) + none =~= pieces_chars(pieces));
}

proof fn lemma_plain_run(text: Seq<char>, rest: Seq<char>)
    requires
        quotable(rest),
        forall|i: int| 0 <= i < text.len() ==> text[i] != '"' && #[trigger] text[i] != '\\',
    ensures
        quotable(text + rest),
    decreases text.len(),
{
    if text.len() > 0 {
        assert(text[0] != '"' && text[0] != '\\');
        assert((text + rest).skip(1) =~= text.skip(1) + rest);
        assert forall|i: int| 0 <= i < text.skip(1).len() implies text.skip(1)[i] != '"'
            && #[trigger] text.skip(1)[i] != '\\' by {
            assert(text[i + 1] != '"' && text[i + 1] != '\\');
        }
        lemma_plain_run(text.skip(1), rest);
    } else {
        assert(text + rest =~= rest);
    }
}

proof fn lemma_escape_quotable(c: char, rest: Seq<char>)
    requires
        c as nat > 32 && (c as nat) < 127,
        quotable(rest),
    ensures
        quotable(seq!['\\', c] + rest),
{
    let body = seq!['\\', c] + rest;
    let tail = body.skip(1);
    assert(tail[0] == c);
    assert(!whitespace(c));
    assert(tail.skip(1) =~= rest);
    assert(quotable_escaped(tail));
    assert(body[0] == '\\');
}

proof fn lemma_piece_quotable(piece: Piece, rest: Seq<char>)
    requires
        sound_piece(piece),
        piece != Piece::Plain('"'),
        quotable(rest),
    ensures
        quotable(piece_text(piece) + rest),
{
    match piece {
        Piece::Plain(c) => {
            let body = seq![c] + rest;
            assert(c != '"');
            assert(body.skip(1) =~= rest);
        },
        Piece::Code(a, b, c, d) => {
            let digits = seq![a, b, c, d];
            lemma_plain_run(digits, rest);
            lemma_escape_quotable('u', digits + rest);
            assert(piece_text(piece) + rest =~= seq!['\\', 'u'] + (digits + rest));
        },
        Piece::Quote => lemma_escape_quotable('"', rest),
        Piece::Backslash => lemma_escape_quotable('\\', rest),
        Piece::Slash => lemma_escape_quotable('/', rest),
        Piece::Backspace => lemma_escape_quotable('b', rest),
        Piece::FormFeed => lemma_escape_quotable('f', rest),
        Piece::LineFeed => lemma_escape_quotable('n', rest),
        Piece::CarriageReturn => lemma_escape_quotable('r', rest),
        Piece::Tab => lemma_escape_quotable('t', rest),
    }
}

proof fn lemma_pieces_quotable(pieces: Seq<Piece>)
    requires
        sound_pieces(pieces),
        !pieces.contains(Piece::Plain('"')),
    ensures
        quotable(pieces_text(pieces)),
    decreases pieces.len(),
{
    if pieces.len() > 0 {
        let others = pieces.skip(1);
        assert forall|i: int| 0 <= i < others.len() implies sound_piece(#[trigger] others[i])
            && others[i] != Piece::Plain('"') by {
            assert(others[i] == pieces[i + 1]);
            assert(pieces.contains(pieces[i + 1]));
        }
        lemma_pieces_quotable(others);
        assert(pieces.contains(pieces[0]));
        assert(sound_piece(pieces[0]));
        lemma_piece_quotable(pieces[0], pieces_text(others));
    }
}

/// Characters can stand in a text in every way that they are written, but for a quote as it is.
pub proof fn law_characters_can_be_written_each_way(pieces: Seq<Piece>)
    requires
        sound_pieces(pieces),
        !pieces.contains(Piece::Plain('"')),
    ensures
        writable(quoted_token(pieces_text(pieces))),
{
    let text = quoted_token(pieces_text(pieces)).text;
    assert(text.subrange(1, text.len() - 1) =~= pieces_text(pieces));
    lemma_pieces_quotable(pieces);
}

/// How a string can go wrong after some of its characters, and what may stand after that.
pub enum Slip {
    /// A control character.
    Control(char),
    /// A backslash and a control character.
    EscapedControl(char),
    /// A backslash and a character that makes no escape with it.
    Unknown(char),
    /// A backslash, a `u` and fewer than four characters.
    ShortCode(Seq<char>),
    /// A backslash, a `u` and four characters that are not hexadecimal.
    WrongCode(char, char, char, char),
    /// A backslash, a `u` and a code that is no character's.
    Surrogate(char, char, char, char),
}

/// How the slip is written.
pub open spec fn slip_text(slip: Slip) -> Seq<char> {
    match slip {
        Slip::Control(c) => seq![c],
        Slip::EscapedControl(c) => seq!['\\', c],
        Slip::Unknown(c) => seq!['\\', c],
        Slip::ShortCode(chars) => seq!['\\', 'u'] + chars,
        Slip::WrongCode(a, b, c, d) => seq!['\\', 'u', a, b, c, d],
        Slip::Surrogate(a, b, c, d) => seq!['\\', 'u', a, b, c, d],
    }
}

/// Whether it is a slip of its sort; nothing comes after a code that is too short.
pub open spec fn real_slip(slip: Slip, rest: Seq<char>) -> bool {
    match slip {
        Slip::Control(c) => c as nat <= 31,
        Slip::EscapedControl(c) => c as nat <= 31,
        Slip::Unknown(c) => {
            &&& c as nat > 31
            &&& c != '"' && c != '\\' && c != '/'
            &&& c != 'b' && c != 'f' && c != 'n' && c != 'r' && c != 't' && c != 'u'
        },
        Slip::ShortCode(chars) => chars.len() < 4 && rest.len() == 0,
        Slip::WrongCode(a, b, c, d) => !hexadecimal(a, b, c, d),
        Slip::Surrogate(a, b, c, d) => hexadecimal(a, b, c, d) && 0xd800 <= code_value(a, b, c, d)
            <= 0xdfff,
    }
}

/// The error that tells the slip.
pub open spec fn slip_error(slip: Slip) -> ErrorModel {
    match slip {
        Slip::Control(c) => ErrorModel::UnescapedChar { c: c as u8 },
        Slip::EscapedControl(c) => ErrorModel::UnescapedChar { c: c as u8 },
        Slip::Unknown(c) => ErrorModel::InvalidEscapeChar { c },
        Slip::ShortCode(_) => ErrorModel::InvalidEscapeChar { c: 'u' },
        Slip::WrongCode(_, _, _, _) => ErrorModel::ParseIntError {
            kind: IntegerFault::InvalidDigit,
        },
        Slip::Surrogate(a, b, c, d) => ErrorModel::InvalidEscapeCodepoint { cp: seq![a, b, c, d] },
    }
}

proof fn lemma_slip(slip: Slip, rest: Seq<char>)
    requires
        real_slip(slip, rest),
    ensures
        unescaped(slip_text(slip) + rest) == Err::<Seq<char>, ErrorModel>(slip_error(slip)),
{
    let body = slip_text(slip) + rest;
    match slip {
        Slip::WrongCode(a, b, c, d) => {
            lemma_code(a, b, c, d);
            assert(body.subrange(2, 6) =~= seq![a, b, c, d]);
        },
        Slip::Surrogate(a, b, c, d) => {
            lemma_code(a, b, c, d);
            assert(body.subrange(2, 6) =~= seq![a, b, c, d]);
        },
        _ => {},
    }
}

/// A string is refused for the first slip in it, whatever comes after.
pub proof fn law_first_slip_is_told(pieces: Seq<Piece>, slip: Slip, rest: Seq<char>)
    requires
        sound_pieces(pieces),
        real_slip(slip, rest),
    ensures
        string_of(quoted_token(pieces_text(pieces) + slip_text(slip) + rest)) == Err::<
            Seq<char>,
            ErrorModel,
        >(slip_error(slip)),
        scalar_of(quoted_token(pieces_text(pieces) + slip_text(slip) + rest)) == Err::<
            JsonModel,
            ErrorModel,
        >(slip_error(slip)),
{
    let body = pieces_text(pieces) + slip_text(slip) + rest;
    lemma_body(body);
    lemma_slip(slip, rest);
    lemma_pieces(pieces, slip_text(slip) + rest);
    assert(body =~= pieces_text(pieces) + (slip_text(slip) + rest));
}

/// A backslash at the end of a string stands for nothing.
pub proof fn law_backslash_at_end_is_dropped(pieces: Seq<Piece>)
    requires
        sound_pieces(pieces),
    ensures
        string_of(quoted_token(pieces_text(pieces) + seq!['\\'])) == Ok::<Seq<char>, ErrorModel>(
            pieces_chars(pieces),
        ),
{
    let none = Seq::<char>::empty();
    lemma_body(pieces_text(pieces) + seq!['\\']);
    lemma_pieces(pieces, seq!['\\']);
    assert(unescaped(seq!['\\']) == Ok::<Seq<char>, ErrorModel>(none));
    assert(pieces_chars(pieces) + none =~= pieces_chars(pieces));
}

/// How a body is cut: characters, and at the end nothing, a backslash or a slip with what is after it.
pub enum Ending {
    Whole,
    Backslash,
    Slipped(Slip, Seq<char>),
}

/// The text of an ending.
pub open spec fn ending_text(ending: Ending) -> Seq<char> {
    match ending {
        Ending::Whole => Seq::empty(),
        Ending::Backslash => seq!['\\'],
        Ending::Slipped(slip, rest) => slip_text(slip) + rest,
    }
}

proof fn one_more_piece(piece: Piece, others: Seq<Piece>) -> (all: Seq<Piece>)
    requires
        sound_piece(piece),
        sound_pieces(others),
    ensures
        sound_pieces(all),
        pieces_text(all) == piece_text(piece) + pieces_text(others),
{
    let all = seq![piece] + others;
    assert(all.skip(1) =~= others);
    assert(all[0] == piece);
    assert forall|i: int| 0 <= i < all.len() implies sound_piece(#[trigger] all[i]) by {
        if i > 0 {
            assert(all[i] == others[i - 1]);
        }
    }
    all
}

/// Every text between quotes consists of characters, however written, and nothing more, or a backslash
/// at the end, or a slip: with the laws on these, it is settled what each string stands for.
pub proof fn law_every_body_is_settled(body: Seq<char>) -> (cut: (Seq<Piece>, Ending))
    ensures
        sound_pieces(cut.0),
        cut.1 matches Ending::Slipped(slip, rest) ==> real_slip(slip, rest),
        body == pieces_text(cut.0) + ending_text(cut.1),
    decreases body.len(),
{
    let none = Seq::<Piece>::empty();
    assert(sound_pieces(none));
    assert(pieces_text(none) == Seq::<char>::empty());
    if body.len() == 0 {
        assert(body =~= pieces_text(none) + ending_text(Ending::Whole));
        (none, Ending::Whole)
    } else if body.len() == 1 && body[0] == '\\' {
        assert(body =~= pieces_text(none) + ending_text(Ending::Backslash));
        (none, Ending::Backslash)
    } else {
        let slip = if body[0] as nat <= 31 {
            Some((Slip::Control(body[0]), body.skip(1)))
        } else if body[0] != '\\' {
            None
        } else if body[1] as nat <= 31 {
            Some((Slip::EscapedControl(body[1]), body.skip(2)))
        } else if body[1] == 'u' && body.len() < 6 {
            Some((Slip::ShortCode(body.skip(2)), Seq::empty()))
        } else if body[1] == 'u' && !hexadecimal(body[2], body[3], body[4], body[5]) {
            Some((Slip::WrongCode(body[2], body[3], body[4], body[5]), body.skip(6)))
        } else if body[1] == 'u' && 0xd800 <= code_value(body[2], body[3], body[4], body[5])
            <= 0xdfff {
            Some((Slip::Surrogate(body[2], body[3], body[4], body[5]), body.skip(6)))
        } else if body[1] != '"' && body[1] != '\\' && body[1] != '/' && body[1] != 'b' && body[1]
            != 'f' && body[1] != 'n' && body[1] != 'r' && body[1] != 't' && body[1] != 'u' {
            Some((Slip::Unknown(body[1]), body.skip(2)))
        } else {
            None
        };
        if let Some((what, rest)) = slip {
            let ending = Ending::Slipped(what, rest);
            assert(body =~= pieces_text(none) + ending_text(ending));
            (none, ending)
        } else {
            let piece = if body[0] != '\\' {
                Piece::Plain(body[0])
            } else if body[1] == 'u' {
                Piece::Code(body[2], body[3], body[4], body[5])
            } else if body[1] == '"' {
                Piece::Quote
            } else if body[1] == '\\' {
                Piece::Backslash
            } else if body[1] == '/' {
                Piece::Slash
            } else if body[1] == 'b' {
                Piece::Backspace
            } else if body[1] == 'f' {
                Piece::FormFeed
            } else if body[1] == 'n' {
                Piece::LineFeed
            } else if body[1] == 'r' {
                Piece::CarriageReturn
            } else {
                Piece::Tab
            };
            let first = piece_text(piece);
            let rest = body.skip(first.len() as int);
            assert(body =~= first + rest);
            let (others, ending) = law_every_body_is_settled(rest);
            let all = one_more_piece(piece, others);
            assert(pieces_text(all) + ending_text(ending) =~= first + rest);
            (all, ending)
        }
    }
}

} // verus!
