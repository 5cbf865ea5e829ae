//! The canonical text form of a grid.
//!
//! A grid is written as exactly 81 characters in row-major order, without
//! separators: `'1'` to `'9'` for a digit and `'_'` for an empty cell.

use crate::grid::{cell_ok, well_formed};
use vstd::prelude::*;

verus! {

/// Why a text is not the canonical form of any grid.
#[derive(Debug, Clone, Copy, PartialEq, Eq, Structural)]
pub enum FormatError {
    /// The text is not exactly 81 characters long.
    WrongLength,
    /// The text is 81 characters long and one of them is neither `'1'`–`'9'`
    /// nor `'_'`.
    InvalidCharacter,
}

impl FormatError {
    /// The words that name this error.
    pub open spec fn reason(self) -> Seq<char> {
        match self {
            FormatError::WrongLength => "Must be 9x9"@,
            FormatError::InvalidCharacter => "Invalid char"@,
        }
    }

    /// The words that name this error.
    pub fn message(&self) -> (m: &'static str)
        ensures
            m@ == self.reason(),
    {
        match self {
            FormatError::WrongLength => "Must be 9x9",
            FormatError::InvalidCharacter => "Invalid char",
        }
    }
}

/// The words that report a puzzle without a solution.
pub open spec fn no_solution_reason() -> Seq<char> {
    "no solution"@
}

/// Character `c` belongs to the alphabet of the text form.
pub open spec fn is_cell_char(c: char) -> bool {
    '1' <= c <= '9' || c == '_'
}

/// The cell that character `c` of the alphabet stands for.
pub open spec fn cell_of_char(c: char) -> Option<u8> {
    if '1' <= c <= '9' {
        Some((c as u32 - '0' as u32) as u8)
    } else {
        None
    }
}

/// The character that stands for cell `c`.
pub open spec fn char_of_cell(c: Option<u8>) -> char {
    match c {
        Some(d) => ('0' as u32 + d) as char,
        None => '_',
    }
}

/// The grid that a text stands for, or the reason why it stands for none.
///
/// The length is counted in characters and is checked first: a text of
/// another length than 81 is `WrongLength` whatever it holds. A text of 81
/// characters is `InvalidCharacter` exactly when one of them is outside the
/// alphabet. In every other text, character `i` gives cell `i`.
pub open spec fn parse_text(text: Seq<char>) -> Result<Seq<Option<u8>>, FormatError> {
    if text.len() != 81 {
        Err(FormatError::WrongLength)
    } else if exists|i: int| 0 <= i < 81 && !is_cell_char(#[trigger] text[i]) {
        Err(FormatError::InvalidCharacter)
    } else {
        Ok(Seq::new(81, |i: int| cell_of_char(text[i])))
    }
}

/// The text form of a grid.
pub open spec fn format_grid(g: Seq<Option<u8>>) -> Seq<char> {
    Seq::new(g.len(), |i: int| char_of_cell(g[i]))
}

/// The three reasons that solving can report are pairwise different.
pub proof fn lemma_reasons_differ()
    ensures
        FormatError::WrongLength.reason() != FormatError::InvalidCharacter.reason(),
        FormatError::WrongLength.reason() != no_solution_reason(),
        FormatError::InvalidCharacter.reason() != no_solution_reason(),
{
    reveal_strlit("Must be 9x9");
    reveal_strlit("Invalid char");
    reveal_strlit("no solution");
    assert("Must be 9x9"@.len() == 11);
    assert("Invalid char"@.len() == 12);
    assert("no solution"@.len() == 11);
    assert("Must be 9x9"@[0] == 'M');
    assert("no solution"@[0] == 'n');
}

/// A text of another length than 81 characters is refused as `WrongLength`,
/// one of 81 characters with a character outside the alphabet as
/// `InvalidCharacter`, wherever that character stands, and every other text
/// is read.
pub proof fn lemma_parse_outcomes(text: Seq<char>)
    ensures
        parse_text(text) == Err::<Seq<Option<u8>>, FormatError>(FormatError::WrongLength)
            <==> text.len() != 81,
        parse_text(text) == Err::<Seq<Option<u8>>, FormatError>(FormatError::InvalidCharacter)
            <==> text.len() == 81 && exists|i: int|
            0 <= i < 81 && !is_cell_char(#[trigger] text[i]),
        parse_text(text) is Ok <==> text.len() == 81 && forall|i: int|
            0 <= i < 81 ==> is_cell_char(#[trigger] text[i]),
{
}

/// Every text that parses stands for a well-formed grid.
pub proof fn lemma_parse_well_formed(text: Seq<char>)
    ensures
        parse_text(text) matches Ok(g) ==> well_formed(g),
{
    if parse_text(text) is Ok {
        let g = parse_text(text)->Ok_0;
        assert forall|i: int| 0 <= i < 81 implies cell_ok(#[trigger] g[i]) by {
            assert(is_cell_char(text[i]));
        }
    }
}

/// Writing down the grid that a text stands for gives the text back.
pub proof fn lemma_format_of_parse(text: Seq<char>)
    ensures
        parse_text(text) matches Ok(g) ==> format_grid(g) == text,
{
    if parse_text(text) is Ok {
        let g = parse_text(text)->Ok_0;
        assert forall|i: int| 0 <= i < 81 implies #[trigger] format_grid(g)[i] == text[i] by {
            assert(is_cell_char(text[i]));
        }
        assert(format_grid(g) =~= text);
    }
}

/// Reading the text form of a well-formed grid gives the grid back.
pub proof fn lemma_parse_of_format(g: Seq<Option<u8>>)
    requires
        well_formed(g),
    ensures
        parse_text(format_grid(g)) == Ok::<Seq<Option<u8>>, FormatError>(g),
{
    let written = format_grid(g);
    assert forall|i: int| 0 <= i < 81 implies is_cell_char(#[trigger] written[i]) && cell_of_char(
        written[i],
    ) == g[i] by {
        assert(cell_ok(g[i]));
    }
    assert(parse_text(written)->Ok_0 =~= g);
}

} // verus!
