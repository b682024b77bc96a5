//! The grammar of the notation, as functions on the bytes of a text.
//!
//! Every construct is read at a position and gives one of three things:
//! what was read and where it ends, the news that it does not start
//! here, or an error that ends the reading. Where a construct may take
//! several forms the first one that can be read is taken; a list takes as
//! many items as can be read.

use crate::error::Error;
use crate::expansion::{binary_events, harmonics, repeated, replicated};
use crate::model::{Piece, Text, Tree};
use crate::rhythm::{options, refusal, rotation_or_none, sound, Param};
use crate::text::chars_of;
use vstd::prelude::*;

verus! {

pub const SPACE: u8 = 32;

pub const BANG: u8 = 33;

pub const PERCENT: u8 = 37;

pub const PAREN_OPEN: u8 = 40;

pub const PAREN_CLOSE: u8 = 41;

pub const STAR: u8 = 42;

pub const COMMA: u8 = 44;

pub const SLASH: u8 = 47;

pub const ANGLE_OPEN: u8 = 60;

pub const ANGLE_CLOSE: u8 = 62;

pub const QUESTION: u8 = 63;

pub const BRACKET_OPEN: u8 = 91;

pub const BRACKET_CLOSE: u8 = 93;

pub const BRACE_OPEN: u8 = 123;

pub const BAR: u8 = 124;

pub const BRACE_CLOSE: u8 = 125;

pub const TILDE: u8 = 126;

/// What reading a construct at a position gives.
pub enum Outcome<T> {
    /// The construct, and the position behind it.
    Done(T, int),
    /// The construct does not start here.
    Fail,
    /// The text cannot be read.
    Halt(Error),
}

/// A decimal digit.
pub open spec fn is_digit(b: u8) -> bool {
    48 <= b <= 57
}

/// A decimal digit or a letter of the basic Latin alphabet.
pub open spec fn is_alnum(b: u8) -> bool {
    is_digit(b) || 65 <= b <= 90 || 97 <= b <= 122
}

/// The byte at `pos` is `b`.
pub open spec fn has(s: Seq<u8>, pos: int, b: u8) -> bool {
    0 <= pos < s.len() && s[pos] == b
}

/// Where the digits that start at `pos` end.
pub open spec fn digits_end(s: Seq<u8>, pos: int) -> int
    decreases s.len() - pos,
{
    if 0 <= pos < s.len() && is_digit(s[pos]) {
        digits_end(s, pos + 1)
    } else {
        pos
    }
}

/// Where the letters and digits that start at `pos` end.
pub open spec fn alnum_end(s: Seq<u8>, pos: int) -> int
    decreases s.len() - pos,
{
    if 0 <= pos < s.len() && is_alnum(s[pos]) {
        alnum_end(s, pos + 1)
    } else {
        pos
    }
}

/// The number that the digits from `from` up to `to` write.
pub open spec fn number(s: Seq<u8>, from: int, to: int) -> nat
    decreases to - from,
{
    if to <= from || to > s.len() || from < 0 {
        0
    } else {
        number(s, from, to - 1) * 10 + (s[to - 1] - 48) as nat
    }
}

/// A number of at most `most`: one digit or more. A greater number ends
/// the reading.
pub open spec fn numeral(s: Seq<u8>, pos: int, most: nat) -> Outcome<nat> {
    let end = digits_end(s, pos);
    if end <= pos {
        Outcome::Fail
    } else if number(s, pos, end) > most {
        Outcome::Halt(Error::EventParsingError)
    } else {
        Outcome::Done(number(s, pos, end), end)
    }
}

/// An event: letters and digits, with `?` and a chance of at most 255
/// behind them or without; or `~`, the rest.
pub open spec fn event(s: Seq<u8>, pos: int) -> Outcome<Tree> {
    let end = alnum_end(s, pos);
    if end > pos {
        let value = chars_of(s.subrange(pos, end));
        if has(s, end, QUESTION) {
            match numeral(s, end + 1, 255) {
                Outcome::Done(p, q) => Outcome::Done(Tree::Leaf { value, probability: p }, q),
                Outcome::Fail => Outcome::Done(Tree::sure(value), end),
                Outcome::Halt(e) => Outcome::Halt(e),
            }
        } else {
            Outcome::Done(Tree::sure(value), end)
        }
    } else if has(s, pos, TILDE) {
        Outcome::Done(Tree::rest(), pos + 1)
    } else {
        Outcome::Fail
    }
}

/// A primitive: an event, or primitives with a space between them in
/// square brackets.
pub open spec fn primitive(s: Seq<u8>, pos: int) -> Outcome<Tree>
    decreases s.len() - pos, 2int,
{
    if has(s, pos, BRACKET_OPEN) {
        match primitive(s, pos + 1) {
            Outcome::Done(x, p) => if pos < p <= s.len() {
                match more_primitives(s, p, seq![x], SPACE) {
                    Outcome::Done(items, q) => if has(s, q, BRACKET_CLOSE) {
                        Outcome::Done(Tree::Node(items), q + 1)
                    } else {
                        Outcome::Fail
                    },
                    Outcome::Fail => Outcome::Fail,
                    Outcome::Halt(e) => Outcome::Halt(e),
                }
            } else {
                Outcome::Fail
            },
            Outcome::Fail => if has(s, pos + 1, BRACKET_CLOSE) {
                Outcome::Done(Tree::Node(Seq::empty()), pos + 2)
            } else {
                Outcome::Fail
            },
            Outcome::Halt(e) => Outcome::Halt(e),
        }
    } else {
        event(s, pos)
    }
}

/// The rest of a list of primitives behind `acc`: as long as `sep` and a
/// primitive follow, the primitive joins the list.
pub open spec fn more_primitives(s: Seq<u8>, pos: int, acc: Seq<Tree>, sep: u8) -> Outcome<Seq<Tree>>
    decreases s.len() - pos, 1int,
{
    if has(s, pos, sep) {
        match primitive(s, pos + 1) {
            Outcome::Done(x, p) => if pos < p <= s.len() {
                more_primitives(s, p, acc.push(x), sep)
            } else {
                Outcome::Done(acc, pos)
            },
            Outcome::Fail => Outcome::Done(acc, pos),
            Outcome::Halt(e) => Outcome::Halt(e),
        }
    } else {
        Outcome::Done(acc, pos)
    }
}

/// An alternation: one primitive or more with a comma between them, in
/// angle brackets.
pub open spec fn alternate(s: Seq<u8>, pos: int) -> Outcome<Tree> {
    if has(s, pos, ANGLE_OPEN) {
        match primitive(s, pos + 1) {
            Outcome::Done(x, p) => match more_primitives(s, p, seq![x], COMMA) {
                Outcome::Done(items, q) => if has(s, q, ANGLE_CLOSE) {
                    Outcome::Done(Tree::Alt(items), q + 1)
                } else {
                    Outcome::Fail
                },
                Outcome::Fail => Outcome::Fail,
                Outcome::Halt(e) => Outcome::Halt(e),
            },
            Outcome::Fail => Outcome::Fail,
            Outcome::Halt(e) => Outcome::Halt(e),
        }
    } else {
        Outcome::Fail
    }
}

/// One slot: an event or an alternation.
pub open spec fn single(s: Seq<u8>, pos: int) -> Outcome<Tree> {
    match event(s, pos) {
        Outcome::Fail => alternate(s, pos),
        other => other,
    }
}

/// The rest of a list of numbers behind `acc`: as long as a comma and a
/// number follow, the number joins the list.
pub open spec fn more_numerals(s: Seq<u8>, pos: int, acc: Seq<nat>) -> Outcome<Seq<nat>>
    decreases s.len() - pos,
{
    if has(s, pos, COMMA) {
        match numeral(s, pos + 1, u32::MAX as nat) {
            Outcome::Done(x, p) => if pos < p <= s.len() {
                more_numerals(s, p, acc.push(x))
            } else {
                Outcome::Done(acc, pos)
            },
            Outcome::Fail => Outcome::Done(acc, pos),
            Outcome::Halt(e) => Outcome::Halt(e),
        }
    } else {
        Outcome::Done(acc, pos)
    }
}

/// One parameter of a Euclidean rhythm: a number, or one number or more
/// with a comma between them, in angle brackets.
pub open spec fn parameter(s: Seq<u8>, pos: int) -> Outcome<Param> {
    if has(s, pos, ANGLE_OPEN) {
        match numeral(s, pos + 1, u32::MAX as nat) {
            Outcome::Done(x, p) => match more_numerals(s, p, seq![x]) {
                Outcome::Done(xs, q) => if has(s, q, ANGLE_CLOSE) {
                    Outcome::Done(Param::Many(xs), q + 1)
                } else {
                    Outcome::Fail
                },
                Outcome::Fail => Outcome::Fail,
                Outcome::Halt(e) => Outcome::Halt(e),
            },
            Outcome::Fail => Outcome::Fail,
            Outcome::Halt(e) => Outcome::Halt(e),
        }
    } else {
        match numeral(s, pos, u32::MAX as nat) {
            Outcome::Done(x, p) => Outcome::Done(Param::One(x), p),
            Outcome::Fail => Outcome::Fail,
            Outcome::Halt(e) => Outcome::Halt(e),
        }
    }
}

/// The rest of a list of parameters behind `acc`.
pub open spec fn more_parameters(s: Seq<u8>, pos: int, acc: Seq<Param>) -> Outcome<Seq<Param>>
    decreases s.len() - pos,
{
    if has(s, pos, COMMA) {
        match parameter(s, pos + 1) {
            Outcome::Done(x, p) => if pos < p <= s.len() {
                more_parameters(s, p, acc.push(x))
            } else {
                Outcome::Done(acc, pos)
            },
            Outcome::Fail => Outcome::Done(acc, pos),
            Outcome::Halt(e) => Outcome::Halt(e),
        }
    } else {
        Outcome::Done(acc, pos)
    }
}

/// The parameters of a Euclidean rhythm: two or three of them with a
/// comma between them, in round brackets.
pub open spec fn parameters(s: Seq<u8>, pos: int) -> Outcome<Seq<Param>> {
    if has(s, pos, PAREN_OPEN) {
        match parameter(s, pos + 1) {
            Outcome::Done(x, p) => match more_parameters(s, p, seq![x]) {
                Outcome::Done(xs, q) => if (xs.len() == 2 || xs.len() == 3) && has(s, q, PAREN_CLOSE) {
                    Outcome::Done(xs, q + 1)
                } else {
                    Outcome::Fail
                },
                Outcome::Fail => Outcome::Fail,
                Outcome::Halt(e) => Outcome::Halt(e),
            },
            Outcome::Fail => Outcome::Fail,
            Outcome::Halt(e) => Outcome::Halt(e),
        }
    } else {
        Outcome::Fail
    }
}

/// The slot that a Euclidean construct stands for: the alternation
/// between its rhythms. A construct that is refused, or whose rhythm is
/// not defined on some turn, ends the reading.
pub open spec fn rhythm_of(value: Tree, n: Param, m: Param, r: Option<Param>) -> Result<Tree, Error> {
    let rotation = rotation_or_none(r);
    match refusal(n, m, rotation) {
        Some(e) => Err(e),
        None => if sound(value, n, m, rotation) {
            Ok(Tree::Alt(options(value, n, m, rotation)))
        } else {
            Err(Error::UnexpectedError)
        },
    }
}

/// A Euclidean construct: a primitive with its parameters behind it.
pub open spec fn euclid(s: Seq<u8>, pos: int) -> Outcome<Tree> {
    match primitive(s, pos) {
        Outcome::Done(value, p) => match parameters(s, p) {
            Outcome::Done(xs, q) => {
                let r = if xs.len() == 3 {
                    Some(xs[2])
                } else {
                    None
                };
                match rhythm_of(value, xs[0], xs[1], r) {
                    Ok(t) => Outcome::Done(t, q),
                    Err(e) => Outcome::Halt(e),
                }
            },
            Outcome::Fail => Outcome::Fail,
            Outcome::Halt(e) => Outcome::Halt(e),
        },
        Outcome::Fail => Outcome::Fail,
        Outcome::Halt(e) => Outcome::Halt(e),
    }
}

/// The text `harmonic(` stands at `pos`.
pub open spec fn at_harmonic(s: Seq<u8>, pos: int) -> bool {
    &&& has(s, pos, 104)
    &&& has(s, pos + 1, 97)
    &&& has(s, pos + 2, 114)
    &&& has(s, pos + 3, 109)
    &&& has(s, pos + 4, 111)
    &&& has(s, pos + 5, 110)
    &&& has(s, pos + 6, 105)
    &&& has(s, pos + 7, 99)
    &&& has(s, pos + 8, PAREN_OPEN)
}

/// The text `binary(` stands at `pos`.
pub open spec fn at_binary(s: Seq<u8>, pos: int) -> bool {
    &&& has(s, pos, 98)
    &&& has(s, pos + 1, 105)
    &&& has(s, pos + 2, 110)
    &&& has(s, pos + 3, 97)
    &&& has(s, pos + 4, 114)
    &&& has(s, pos + 5, 121)
    &&& has(s, pos + 6, PAREN_OPEN)
}

/// The byte `b` stands at `pos` with a space on either side.
pub open spec fn spaced(s: Seq<u8>, pos: int, b: u8) -> bool {
    has(s, pos, SPACE) && has(s, pos + 1, b) && has(s, pos + 2, SPACE)
}

/// Two numbers with a comma between them and a closing round bracket
/// behind them; the second is at most `most`.
pub open spec fn pair(s: Seq<u8>, pos: int, most: nat) -> Outcome<(nat, nat)> {
    match numeral(s, pos, u32::MAX as nat) {
        Outcome::Done(a, p) => if has(s, p, COMMA) {
            match numeral(s, p + 1, most) {
                Outcome::Done(b, q) => if has(s, q, PAREN_CLOSE) {
                    Outcome::Done((a, b), q + 1)
                } else {
                    Outcome::Fail
                },
                Outcome::Fail => Outcome::Fail,
                Outcome::Halt(e) => Outcome::Halt(e),
            }
        } else {
            Outcome::Fail
        },
        Outcome::Fail => Outcome::Fail,
        Outcome::Halt(e) => Outcome::Halt(e),
    }
}

/// A generator: `harmonic(` or `binary(` with two numbers. Harmonics
/// beyond 32 bits and more than 32 binary digits end the reading.
pub open spec fn generator(s: Seq<u8>, pos: int) -> Outcome<Seq<Tree>> {
    if at_harmonic(s, pos) {
        match pair(s, pos + 9, u32::MAX as nat) {
            Outcome::Done(x, q) => if x.0 * x.1 > u32::MAX {
                Outcome::Halt(Error::UnexpectedError)
            } else {
                Outcome::Done(harmonics(x.0, x.1), q)
            },
            Outcome::Fail => Outcome::Fail,
            Outcome::Halt(e) => Outcome::Halt(e),
        }
    } else if at_binary(s, pos) {
        match pair(s, pos + 7, 255) {
            Outcome::Done(x, q) => if x.1 > 32 {
                Outcome::Halt(Error::UnexpectedError)
            } else {
                Outcome::Done(binary_events(x.0, x.1), q)
            },
            Outcome::Fail => Outcome::Fail,
            Outcome::Halt(e) => Outcome::Halt(e),
        }
    } else {
        Outcome::Fail
    }
}

/// What can be repeated or replicated: a group in square brackets, a
/// Euclidean construct, an event or an alternation.
pub open spec fn operand(s: Seq<u8>, pos: int) -> Outcome<Tree>
    decreases s.len() - pos, 2int,
{
    match bracketed(s, pos) {
        Outcome::Fail => match euclid(s, pos) {
            Outcome::Fail => single(s, pos),
            other => other,
        },
        other => other,
    }
}

/// A repetition or a replication: an operand with `*` or `!` and a
/// number behind it. Repeated, the copies stand in a group of their own;
/// replicated, they stand among their siblings.
pub open spec fn multiplied(s: Seq<u8>, pos: int) -> Outcome<Seq<Tree>>
    decreases s.len() - pos, 3int,
{
    match operand(s, pos) {
        Outcome::Done(x, p) => if has(s, p, STAR) {
            match numeral(s, p + 1, u32::MAX as nat) {
                Outcome::Done(n, q) => Outcome::Done(repeated(x, n), q),
                Outcome::Fail => Outcome::Fail,
                Outcome::Halt(e) => Outcome::Halt(e),
            }
        } else if has(s, p, BANG) {
            match numeral(s, p + 1, u32::MAX as nat) {
                Outcome::Done(n, q) => Outcome::Done(replicated(x, n), q),
                Outcome::Fail => Outcome::Fail,
                Outcome::Halt(e) => Outcome::Halt(e),
            }
        } else {
            Outcome::Fail
        },
        Outcome::Fail => Outcome::Fail,
        Outcome::Halt(e) => Outcome::Halt(e),
    }
}

/// A group in square brackets.
pub open spec fn bracketed(s: Seq<u8>, pos: int) -> Outcome<Tree>
    decreases s.len() - pos, 1int,
{
    if has(s, pos, BRACKET_OPEN) {
        match items(s, pos + 1) {
            Outcome::Done(xs, p) => if has(s, p, BRACKET_CLOSE) {
                Outcome::Done(Tree::Node(xs), p + 1)
            } else {
                Outcome::Fail
            },
            Outcome::Fail => Outcome::Fail,
            Outcome::Halt(e) => Outcome::Halt(e),
        }
    } else {
        Outcome::Fail
    }
}

/// One item of a group, which may stand for several siblings: a
/// generator, a repetition or replication, a Euclidean construct, a
/// group in square brackets, or a single slot.
pub open spec fn item(s: Seq<u8>, pos: int) -> Outcome<Seq<Tree>>
    decreases s.len() - pos, 4int,
{
    match generator(s, pos) {
        Outcome::Fail => match multiplied(s, pos) {
            Outcome::Fail => match euclid(s, pos) {
                Outcome::Fail => match bracketed(s, pos) {
                    Outcome::Fail => match single(s, pos) {
                        Outcome::Done(x, p) => Outcome::Done(seq![x], p),
                        Outcome::Fail => Outcome::Fail,
                        Outcome::Halt(e) => Outcome::Halt(e),
                    },
                    Outcome::Done(x, p) => Outcome::Done(seq![x], p),
                    Outcome::Halt(e) => Outcome::Halt(e),
                },
                Outcome::Done(x, p) => Outcome::Done(seq![x], p),
                Outcome::Halt(e) => Outcome::Halt(e),
            },
            other => other,
        },
        other => other,
    }
}

/// The items of a group: none, or items with a space between them.
pub open spec fn items(s: Seq<u8>, pos: int) -> Outcome<Seq<Tree>>
    decreases s.len() - pos, 6int,
{
    match item(s, pos) {
        Outcome::Done(xs, p) => if pos < p <= s.len() {
            more_items(s, p, xs)
        } else {
            Outcome::Done(Seq::empty(), pos)
        },
        Outcome::Fail => Outcome::Done(Seq::empty(), pos),
        Outcome::Halt(e) => Outcome::Halt(e),
    }
}

/// The rest of the items of a group behind `acc`.
pub open spec fn more_items(s: Seq<u8>, pos: int, acc: Seq<Tree>) -> Outcome<Seq<Tree>>
    decreases s.len() - pos, 5int,
{
    if has(s, pos, SPACE) {
        match item(s, pos + 1) {
            Outcome::Done(xs, p) => if pos < p <= s.len() {
                more_items(s, p, acc + xs)
            } else {
                Outcome::Done(acc, pos)
            },
            Outcome::Fail => Outcome::Done(acc, pos),
            Outcome::Halt(e) => Outcome::Halt(e),
        }
    } else {
        Outcome::Done(acc, pos)
    }
}

/// A polymetric block: items in curly brackets, with `%` and the length
/// of the windows behind them.
pub open spec fn polymetric(s: Seq<u8>, pos: int) -> Outcome<Piece> {
    if has(s, pos, BRACE_OPEN) {
        match items(s, pos + 1) {
            Outcome::Done(xs, p) => if has(s, p, BRACE_CLOSE) && has(s, p + 1, PERCENT) {
                match numeral(s, p + 2, u32::MAX as nat) {
                    Outcome::Done(length, q) => Outcome::Done(Piece::Polymetric(xs, length), q),
                    Outcome::Fail => Outcome::Fail,
                    Outcome::Halt(e) => Outcome::Halt(e),
                }
            } else {
                Outcome::Fail
            },
            Outcome::Fail => Outcome::Fail,
            Outcome::Halt(e) => Outcome::Halt(e),
        }
    } else {
        Outcome::Fail
    }
}

/// One measure: a polymetric block, or the items of a group.
pub open spec fn measure(s: Seq<u8>, pos: int) -> Outcome<Piece> {
    match polymetric(s, pos) {
        Outcome::Fail => match items(s, pos) {
            Outcome::Done(xs, p) => Outcome::Done(Piece::Plain(Tree::Node(xs)), p),
            Outcome::Fail => Outcome::Fail,
            Outcome::Halt(e) => Outcome::Halt(e),
        },
        other => other,
    }
}

/// The rest of the measures behind `acc`: as long as a bar between
/// spaces and a measure follow, the measure joins the list.
pub open spec fn more_measures(s: Seq<u8>, pos: int, acc: Seq<Piece>) -> Outcome<Seq<Piece>>
    decreases s.len() - pos,
{
    if spaced(s, pos, BAR) {
        match measure(s, pos + 3) {
            Outcome::Done(x, p) => if pos < p <= s.len() {
                more_measures(s, p, acc.push(x))
            } else {
                Outcome::Done(acc, pos)
            },
            Outcome::Fail => Outcome::Done(acc, pos),
            Outcome::Halt(e) => Outcome::Halt(e),
        }
    } else {
        Outcome::Done(acc, pos)
    }
}

/// The measures of a sequence: one measure or more with a bar between
/// them.
pub open spec fn measures(s: Seq<u8>, pos: int) -> Outcome<Seq<Piece>> {
    match measure(s, pos) {
        Outcome::Done(x, p) => more_measures(s, p, seq![x]),
        Outcome::Fail => Outcome::Done(Seq::empty(), pos),
        Outcome::Halt(e) => Outcome::Halt(e),
    }
}

/// The length that may close a sequence: a slash between spaces and a
/// number.
pub open spec fn closing(s: Seq<u8>, pos: int) -> Outcome<Option<u32>> {
    if spaced(s, pos, SLASH) {
        match numeral(s, pos + 3, u32::MAX as nat) {
            Outcome::Done(l, q) => Outcome::Done(Some(l as u32), q),
            Outcome::Fail => Outcome::Done(None, pos),
            Outcome::Halt(e) => Outcome::Halt(e),
        }
    } else {
        Outcome::Done(None, pos)
    }
}

/// A whole text: the measures of a sequence and the length that may
/// close it, and nothing behind them.
pub open spec fn sequence(s: Seq<u8>) -> Result<Text, Error> {
    sequence_from(s, 0)
}

/// The text from `pos` on: the measures of a sequence and the length
/// that may close it, and nothing behind them.
pub open spec fn sequence_from(s: Seq<u8>, pos: int) -> Result<Text, Error> {
    match measures(s, pos) {
        Outcome::Done(ms, p) => match closing(s, p) {
            Outcome::Done(length, q) => if q == s.len() {
                Ok(Text { measures: ms, length })
            } else {
                Err(Error::DSLParsingError(crate::error::ParsingError::Generic))
            },
            Outcome::Fail => Err(Error::DSLParsingError(crate::error::ParsingError::Generic)),
            Outcome::Halt(e) => Err(e),
        },
        Outcome::Fail => Err(Error::DSLParsingError(crate::error::ParsingError::Generic)),
        Outcome::Halt(e) => Err(e),
    }
}

/// The name of the target of a text: the letters and digits that it
/// starts with.
pub open spec fn target_name(s: Seq<u8>) -> Seq<char> {
    chars_of(s.subrange(0, alnum_end(s, 0)))
}

/// The sequence of a text for a target: behind the name of the target
/// and `>` between spaces, a whole sequence. No other separator is
/// read, and the name has one character or more.
pub open spec fn targeted(s: Seq<u8>) -> Result<Text, Error> {
    let end = alnum_end(s, 0);
    if end > 0 && spaced(s, end, ANGLE_CLOSE) {
        sequence_from(s, end + 3)
    } else {
        Err(Error::DSLParsingError(crate::error::ParsingError::Generic))
    }
}

} // verus!
