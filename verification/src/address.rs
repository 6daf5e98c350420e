//! US postal addresses: parsing the block form
//!
//!   123 Main St
//!   Apt 4B
//!   Springfield, IL 62704
//!
//! validating the state code and zip, normalizing street suffixes, and
//! rendering the result as text or JSON.
use vstd::prelude::*;

use crate::text::{
    all_digits, chars_of, content_lines, content_lines_of, copy_range, debug_quote,
    debug_text, digits_only, hex_digits, find_first, find_last, find_last_ws, first_index_of, join,
    join_chars, last_index_of, last_ws_index, lemma_first_index_of, lemma_words_of_trim, lines_of, lowercase_of,
    push_all, push_one, push_str, runs, same_chars, split_chars, split_lines, split_on, split_words,
    string_of, to_lowercase, to_uppercase, trim, trim_chars, trim_end, trim_end_chars,
    uppercase_of, views, words_of,
};

verus! {

broadcast use vstd::seq_lib::group_seq_properties;

// ---------------------------------------------------------------------------
// Types
// ---------------------------------------------------------------------------

/// A validated US postal address.
#[derive(Debug, Clone, PartialEq, Eq)]
pub struct Address {
    pub street_lines: Vec<String>,
    pub city: String,
    pub state: String,
    pub zip: String,
}

/// The contents of an `Address`, as character sequences.
pub struct AddressView {
    pub street_lines: Seq<Seq<char>>,
    pub city: Seq<char>,
    pub state: Seq<char>,
    pub zip: Seq<char>,
}

/// The views of a sequence of strings.
pub open spec fn string_views(v: Seq<String>) -> Seq<Seq<char>> {
    v.map_values(|s: String| s@)
}

impl View for Address {
    type V = AddressView;

    open spec fn view(&self) -> AddressView {
        AddressView {
            street_lines: string_views(self.street_lines@),
            city: self.city@,
            state: self.state@,
            zip: self.zip@,
        }
    }
}

/// Strict rejects anything that doesn't match the documented input shape
/// exactly. Lenient accepts a couple of common real-world sloppiness cases
/// (a missing comma before the state, a zip that lost a leading zero) that
/// are unambiguous to recover from even though they're not well-formed.
#[derive(Debug, Clone, Copy, PartialEq, Eq, Structural)]
pub enum ValidationMode {
    Strict,
    Lenient,
}

impl Default for ValidationMode {
    fn default() -> (m: ValidationMode)
        ensures
            m == ValidationMode::Strict,
    {
        ValidationMode::Strict
    }
}

/// Why an input is not a valid US address.
#[derive(Debug, Clone, PartialEq, Eq)]
pub enum ParseError {
    Empty,
    MissingStreet,
    MissingCityStateZip,
    MalformedCityStateZip(String),
    UnknownState(String),
    InvalidZip(String),
}

/// A `ParseError` with its text as character sequences.
pub enum ParseFailure {
    Empty,
    MissingStreet,
    MissingCityStateZip,
    MalformedCityStateZip(Seq<char>),
    UnknownState(Seq<char>),
    InvalidZip(Seq<char>),
}

impl View for ParseError {
    type V = ParseFailure;

    open spec fn view(&self) -> ParseFailure {
        match self {
            ParseError::Empty => ParseFailure::Empty,
            ParseError::MissingStreet => ParseFailure::MissingStreet,
            ParseError::MissingCityStateZip => ParseFailure::MissingCityStateZip,
            ParseError::MalformedCityStateZip(l) => ParseFailure::MalformedCityStateZip(l@),
            ParseError::UnknownState(s) => ParseFailure::UnknownState(s@),
            ParseError::InvalidZip(z) => ParseFailure::InvalidZip(z@),
        }
    }
}

/// The view of a parse result.
pub open spec fn result_view(r: Result<Address, ParseError>) -> Result<AddressView, ParseFailure> {
    match r {
        Ok(a) => Ok(a@),
        Err(e) => Err(e@),
    }
}

// ---------------------------------------------------------------------------
// Tables
// ---------------------------------------------------------------------------

/// Two-letter USPS codes: 50 states, DC, and the territories that get their
/// own code (Puerto Rico, Virgin Islands, Guam, American Samoa, N. Mariana Is.)
pub open spec fn is_us_state_pair(a: char, b: char) -> bool {
    (a == 'A' && b == 'L') || (a == 'A' && b == 'K') || (a == 'A' && b == 'Z')
        || (a == 'A' && b == 'R') || (a == 'C' && b == 'A') || (a == 'C' && b == 'O')
        || (a == 'C' && b == 'T') || (a == 'D' && b == 'E') || (a == 'F' && b == 'L')
        || (a == 'G' && b == 'A') || (a == 'H' && b == 'I') || (a == 'I' && b == 'D')
        || (a == 'I' && b == 'L') || (a == 'I' && b == 'N') || (a == 'I' && b == 'A')
        || (a == 'K' && b == 'S') || (a == 'K' && b == 'Y') || (a == 'L' && b == 'A')
        || (a == 'M' && b == 'E') || (a == 'M' && b == 'D') || (a == 'M' && b == 'A')
        || (a == 'M' && b == 'I') || (a == 'M' && b == 'N') || (a == 'M' && b == 'S')
        || (a == 'M' && b == 'O') || (a == 'M' && b == 'T') || (a == 'N' && b == 'E')
        || (a == 'N' && b == 'V') || (a == 'N' && b == 'H') || (a == 'N' && b == 'J')
        || (a == 'N' && b == 'M') || (a == 'N' && b == 'Y') || (a == 'N' && b == 'C')
        || (a == 'N' && b == 'D') || (a == 'O' && b == 'H') || (a == 'O' && b == 'K')
        || (a == 'O' && b == 'R') || (a == 'P' && b == 'A') || (a == 'R' && b == 'I')
        || (a == 'S' && b == 'C') || (a == 'S' && b == 'D') || (a == 'T' && b == 'N')
        || (a == 'T' && b == 'X') || (a == 'U' && b == 'T') || (a == 'V' && b == 'T')
        || (a == 'V' && b == 'A') || (a == 'W' && b == 'A') || (a == 'W' && b == 'V')
        || (a == 'W' && b == 'I') || (a == 'W' && b == 'Y') || (a == 'D' && b == 'C')
        || (a == 'P' && b == 'R') || (a == 'V' && b == 'I') || (a == 'G' && b == 'U')
        || (a == 'A' && b == 'S') || (a == 'M' && b == 'P')
}

/// `code` is one of the two-letter USPS codes.
pub open spec fn is_us_state(code: Seq<char>) -> bool {
    code.len() == 2 && is_us_state_pair(code[0], code[1])
}

/// Whether `code` is one of the two-letter USPS codes (exact, case-sensitive).
pub fn is_us_state_code(code: &[char]) -> (r: bool)
    ensures
        r == is_us_state(code@),
{
    if code.len() != 2 {
        return false;
    }
    let a = code[0];
    let b = code[1];
    (a == 'A' && b == 'L') || (a == 'A' && b == 'K') || (a == 'A' && b == 'Z')
        || (a == 'A' && b == 'R') || (a == 'C' && b == 'A') || (a == 'C' && b == 'O')
        || (a == 'C' && b == 'T') || (a == 'D' && b == 'E') || (a == 'F' && b == 'L')
        || (a == 'G' && b == 'A') || (a == 'H' && b == 'I') || (a == 'I' && b == 'D')
        || (a == 'I' && b == 'L') || (a == 'I' && b == 'N') || (a == 'I' && b == 'A')
        || (a == 'K' && b == 'S') || (a == 'K' && b == 'Y') || (a == 'L' && b == 'A')
        || (a == 'M' && b == 'E') || (a == 'M' && b == 'D') || (a == 'M' && b == 'A')
        || (a == 'M' && b == 'I') || (a == 'M' && b == 'N') || (a == 'M' && b == 'S')
        || (a == 'M' && b == 'O') || (a == 'M' && b == 'T') || (a == 'N' && b == 'E')
        || (a == 'N' && b == 'V') || (a == 'N' && b == 'H') || (a == 'N' && b == 'J')
        || (a == 'N' && b == 'M') || (a == 'N' && b == 'Y') || (a == 'N' && b == 'C')
        || (a == 'N' && b == 'D') || (a == 'O' && b == 'H') || (a == 'O' && b == 'K')
        || (a == 'O' && b == 'R') || (a == 'P' && b == 'A') || (a == 'R' && b == 'I')
        || (a == 'S' && b == 'C') || (a == 'S' && b == 'D') || (a == 'T' && b == 'N')
        || (a == 'T' && b == 'X') || (a == 'U' && b == 'T') || (a == 'V' && b == 'T')
        || (a == 'V' && b == 'A') || (a == 'W' && b == 'A') || (a == 'W' && b == 'V')
        || (a == 'W' && b == 'I') || (a == 'W' && b == 'Y') || (a == 'D' && b == 'C')
        || (a == 'P' && b == 'R') || (a == 'V' && b == 'I') || (a == 'G' && b == 'U')
        || (a == 'A' && b == 'S') || (a == 'M' && b == 'P')
}

/// USPS Publication 28 street suffix abbreviations: the canonical
/// abbreviation of each lowercase spelling variant (full word or common
/// alternate abbreviation).
pub open spec fn canonical_suffix(v: Seq<char>) -> Option<Seq<char>> {
    if v == seq!['s', 't', 'r', 'e', 'e', 't']
        || v == seq!['s', 't', 'r']
        || v == seq!['s', 't', 'r', 't']
        || v == seq!['s', 't'] {
        Some(seq!['S', 't'])
    } else if v == seq!['a', 'v', 'e', 'n', 'u', 'e']
        || v == seq!['a', 'v', 'e', 'n']
        || v == seq!['a', 'v', 'n']
        || v == seq!['a', 'v']
        || v == seq!['a', 'v', 'e'] {
        Some(seq!['A', 'v', 'e'])
    } else if v == seq!['b', 'o', 'u', 'l', 'e', 'v', 'a', 'r', 'd']
        || v == seq!['b', 'o', 'u', 'l']
        || v == seq!['b', 'o', 'u', 'l', 'v']
        || v == seq!['b', 'l', 'v', 'd'] {
        Some(seq!['B', 'l', 'v', 'd'])
    } else if v == seq!['d', 'r', 'i', 'v', 'e']
        || v == seq!['d', 'r', 'i', 'v']
        || v == seq!['d', 'r', 'v']
        || v == seq!['d', 'r'] {
        Some(seq!['D', 'r'])
    } else if v == seq!['c', 'o', 'u', 'r', 't']
        || v == seq!['c', 'r', 't']
        || v == seq!['c', 't'] {
        Some(seq!['C', 't'])
    } else if v == seq!['l', 'a', 'n', 'e']
        || v == seq!['l', 'n'] {
        Some(seq!['L', 'n'])
    } else if v == seq!['r', 'o', 'a', 'd']
        || v == seq!['r', 'd'] {
        Some(seq!['R', 'd'])
    } else if v == seq!['p', 'l', 'a', 'c', 'e']
        || v == seq!['p', 'l'] {
        Some(seq!['P', 'l'])
    } else if v == seq!['t', 'e', 'r', 'r', 'a', 'c', 'e']
        || v == seq!['t', 'e', 'r', 'r']
        || v == seq!['t', 'e', 'r'] {
        Some(seq!['T', 'e', 'r'])
    } else if v == seq!['c', 'i', 'r', 'c', 'l', 'e']
        || v == seq!['c', 'i', 'r', 'c']
        || v == seq!['c', 'r', 'c', 'l']
        || v == seq!['c', 'i', 'r'] {
        Some(seq!['C', 'i', 'r'])
    } else if v == seq!['w', 'a', 'y']
        || v == seq!['w', 'y'] {
        Some(seq!['W', 'a', 'y'])
    } else if v == seq!['p', 'a', 'r', 'k', 'w', 'a', 'y']
        || v == seq!['p', 'k', 'w', 'y']
        || v == seq!['p', 'k', 'y'] {
        Some(seq!['P', 'k', 'w', 'y'])
    } else if v == seq!['h', 'i', 'g', 'h', 'w', 'a', 'y']
        || v == seq!['h', 'w', 'y']
        || v == seq!['h', 'i', 'w', 'y'] {
        Some(seq!['H', 'w', 'y'])
    } else if v == seq!['t', 'r', 'a', 'i', 'l']
        || v == seq!['t', 'r', 'l'] {
        Some(seq!['T', 'r', 'l'])
    } else if v == seq!['s', 'q', 'u', 'a', 'r', 'e']
        || v == seq!['s', 'q'] {
        Some(seq!['S', 'q'])
    } else if v == seq!['l', 'o', 'o', 'p']
        || v == seq!['l', 'p'] {
        Some(seq!['L', 'o', 'o', 'p'])
    } else if v == seq!['a', 'l', 'l', 'e', 'y']
        || v == seq!['a', 'l', 'y'] {
        Some(seq!['A', 'l', 'y'])
    } else if v == seq!['c', 'r', 'o', 's', 's', 'i', 'n', 'g']
        || v == seq!['x', 'i', 'n', 'g'] {
        Some(seq!['X', 'i', 'n', 'g'])
    } else if v == seq!['e', 'x', 't', 'e', 'n', 's', 'i', 'o', 'n']
        || v == seq!['e', 'x', 't'] {
        Some(seq!['E', 'x', 't'])
    } else if v == seq!['j', 'u', 'n', 'c', 't', 'i', 'o', 'n']
        || v == seq!['j', 'c', 't'] {
        Some(seq!['J', 'c', 't'])
    } else if v == seq!['t', 'u', 'r', 'n', 'p', 'i', 'k', 'e']
        || v == seq!['t', 'p', 'k', 'e'] {
        Some(seq!['T', 'p', 'k', 'e'])
    } else if v == seq!['p', 'o', 'i', 'n', 't']
        || v == seq!['p', 't'] {
        Some(seq!['P', 't'])
    } else if v == seq!['r', 'i', 'd', 'g', 'e']
        || v == seq!['r', 'd', 'g'] {
        Some(seq!['R', 'd', 'g'])
    } else {
        None
    }
}

/// The canonical abbreviation of the lowercase suffix spelling `v`, if it is one.
pub fn find_canonical_suffix(v: &[char]) -> (r: Option<Vec<char>>)
    ensures
        r matches Some(c) ==> canonical_suffix(v@) == Some(c@),
        r is None ==> canonical_suffix(v@) is None,
{
    if same_chars(v, &['s', 't', 'r', 'e', 'e', 't'])
        || same_chars(v, &['s', 't', 'r'])
        || same_chars(v, &['s', 't', 'r', 't'])
        || same_chars(v, &['s', 't']) {
        return Some(vec!['S', 't']);
    }
    if same_chars(v, &['a', 'v', 'e', 'n', 'u', 'e'])
        || same_chars(v, &['a', 'v', 'e', 'n'])
        || same_chars(v, &['a', 'v', 'n'])
        || same_chars(v, &['a', 'v'])
        || same_chars(v, &['a', 'v', 'e']) {
        return Some(vec!['A', 'v', 'e']);
    }
    if same_chars(v, &['b', 'o', 'u', 'l', 'e', 'v', 'a', 'r', 'd'])
        || same_chars(v, &['b', 'o', 'u', 'l'])
        || same_chars(v, &['b', 'o', 'u', 'l', 'v'])
        || same_chars(v, &['b', 'l', 'v', 'd']) {
        return Some(vec!['B', 'l', 'v', 'd']);
    }
    if same_chars(v, &['d', 'r', 'i', 'v', 'e'])
        || same_chars(v, &['d', 'r', 'i', 'v'])
        || same_chars(v, &['d', 'r', 'v'])
        || same_chars(v, &['d', 'r']) {
        return Some(vec!['D', 'r']);
    }
    if same_chars(v, &['c', 'o', 'u', 'r', 't'])
        || same_chars(v, &['c', 'r', 't'])
        || same_chars(v, &['c', 't']) {
        return Some(vec!['C', 't']);
    }
    if same_chars(v, &['l', 'a', 'n', 'e'])
        || same_chars(v, &['l', 'n']) {
        return Some(vec!['L', 'n']);
    }
    if same_chars(v, &['r', 'o', 'a', 'd'])
        || same_chars(v, &['r', 'd']) {
        return Some(vec!['R', 'd']);
    }
    if same_chars(v, &['p', 'l', 'a', 'c', 'e'])
        || same_chars(v, &['p', 'l']) {
        return Some(vec!['P', 'l']);
    }
    if same_chars(v, &['t', 'e', 'r', 'r', 'a', 'c', 'e'])
        || same_chars(v, &['t', 'e', 'r', 'r'])
        || same_chars(v, &['t', 'e', 'r']) {
        return Some(vec!['T', 'e', 'r']);
    }
    if same_chars(v, &['c', 'i', 'r', 'c', 'l', 'e'])
        || same_chars(v, &['c', 'i', 'r', 'c'])
        || same_chars(v, &['c', 'r', 'c', 'l'])
        || same_chars(v, &['c', 'i', 'r']) {
        return Some(vec!['C', 'i', 'r']);
    }
    if same_chars(v, &['w', 'a', 'y'])
        || same_chars(v, &['w', 'y']) {
        return Some(vec!['W', 'a', 'y']);
    }
    if same_chars(v, &['p', 'a', 'r', 'k', 'w', 'a', 'y'])
        || same_chars(v, &['p', 'k', 'w', 'y'])
        || same_chars(v, &['p', 'k', 'y']) {
        return Some(vec!['P', 'k', 'w', 'y']);
    }
    if same_chars(v, &['h', 'i', 'g', 'h', 'w', 'a', 'y'])
        || same_chars(v, &['h', 'w', 'y'])
        || same_chars(v, &['h', 'i', 'w', 'y']) {
        return Some(vec!['H', 'w', 'y']);
    }
    if same_chars(v, &['t', 'r', 'a', 'i', 'l'])
        || same_chars(v, &['t', 'r', 'l']) {
        return Some(vec!['T', 'r', 'l']);
    }
    if same_chars(v, &['s', 'q', 'u', 'a', 'r', 'e'])
        || same_chars(v, &['s', 'q']) {
        return Some(vec!['S', 'q']);
    }
    if same_chars(v, &['l', 'o', 'o', 'p'])
        || same_chars(v, &['l', 'p']) {
        return Some(vec!['L', 'o', 'o', 'p']);
    }
    if same_chars(v, &['a', 'l', 'l', 'e', 'y'])
        || same_chars(v, &['a', 'l', 'y']) {
        return Some(vec!['A', 'l', 'y']);
    }
    if same_chars(v, &['c', 'r', 'o', 's', 's', 'i', 'n', 'g'])
        || same_chars(v, &['x', 'i', 'n', 'g']) {
        return Some(vec!['X', 'i', 'n', 'g']);
    }
    if same_chars(v, &['e', 'x', 't', 'e', 'n', 's', 'i', 'o', 'n'])
        || same_chars(v, &['e', 'x', 't']) {
        return Some(vec!['E', 'x', 't']);
    }
    if same_chars(v, &['j', 'u', 'n', 'c', 't', 'i', 'o', 'n'])
        || same_chars(v, &['j', 'c', 't']) {
        return Some(vec!['J', 'c', 't']);
    }
    if same_chars(v, &['t', 'u', 'r', 'n', 'p', 'i', 'k', 'e'])
        || same_chars(v, &['t', 'p', 'k', 'e']) {
        return Some(vec!['T', 'p', 'k', 'e']);
    }
    if same_chars(v, &['p', 'o', 'i', 'n', 't'])
        || same_chars(v, &['p', 't']) {
        return Some(vec!['P', 't']);
    }
    if same_chars(v, &['r', 'i', 'd', 'g', 'e'])
        || same_chars(v, &['r', 'd', 'g']) {
        return Some(vec!['R', 'd', 'g']);
    }
    None
}

// ---------------------------------------------------------------------------
// Zip codes
// ---------------------------------------------------------------------------

/// A zip is 5 digits, or 5 digits, a hyphen and 4 digits.
pub open spec fn well_formed_zip(z: Seq<char>) -> bool {
    ||| z.len() == 5 && all_digits(z)
    ||| z.len() == 10 && all_digits(z.take(5)) && z[5] == '-' && all_digits(z.skip(6))
}

/// `base` with leading zeros added up to 5 characters.
pub open spec fn zero_padded(base: Seq<char>) -> Seq<char> {
    Seq::new((5 - base.len()) as nat, |i: int| '0') + base
}

/// The zip a parsed address carries: a valid zip as it is; in lenient mode
/// also a zip whose part before the first hyphen is 1 to 5 digits, padded
/// with leading zeros to 5 digits, provided the result is valid.
pub open spec fn normalized_zip(zip: Seq<char>, mode: ValidationMode) -> Option<Seq<char>> {
    if well_formed_zip(zip) {
        Some(zip)
    } else if mode == ValidationMode::Lenient {
        let base = match first_index_of(zip, '-') {
            Some(k) => zip.take(k),
            None => zip,
        };
        let candidate = match first_index_of(zip, '-') {
            Some(k) => zero_padded(base) + seq!['-'] + zip.skip(k + 1),
            None => zero_padded(base),
        };
        if base.len() <= 5 && all_digits(base) && well_formed_zip(candidate) {
            Some(candidate)
        } else {
            None
        }
    } else {
        None
    }
}

/// Whether `zip` is 5 digits, or 5 digits, a hyphen and 4 digits.
pub fn is_valid_zip(zip: &[char]) -> (r: bool)
    ensures
        r == well_formed_zip(zip@),
{
    proof {
        lemma_first_index_of(zip@, '-');
    }
    match find_first(zip, '-') {
        Some(k) => {
            let n = zip.len();
            let base = copy_range(zip, 0, k);
            let ext = copy_range(zip, k + 1, n);
            let r = base.len() == 5 && digits_only(base.as_slice()) && ext.len() == 4
                && digits_only(ext.as_slice());
            proof {
                if well_formed_zip(zip@) {
                    if zip@.len() == 5 && all_digits(zip@) {
                        assert(zip@[k as int] == '-');
                        assert(!crate::text::is_digit(zip@[k as int]));
                    } else {
                        if k < 5 {
                            assert(zip@.take(5)[k as int] == '-');
                        }
                        if k > 5 {
                            assert(zip@[5] != '-');
                        }
                        assert(base@ =~= zip@.take(5));
                        assert(ext@ =~= zip@.skip(6));
                    }
                }
                if r {
                    assert(zip@.take(5) =~= base@);
                    assert(zip@.skip(6) =~= ext@);
                }
            }
            r
        },
        None => {
            let r = zip.len() == 5 && digits_only(zip);
            proof {
                if well_formed_zip(zip@) && !(zip@.len() == 5 && all_digits(zip@)) {
                    assert(zip@[5] == '-');
                }
            }
            r
        },
    }
}

/// Validates a zip and, in lenient mode, repairs one common data-entry
/// problem: a zip that lost a leading zero (e.g. a New England zip like
/// "02101" round-tripped through a spreadsheet as the number 2101).
pub fn normalize_zip(zip: &[char], mode: ValidationMode) -> (r: Option<Vec<char>>)
    ensures
        r matches Some(z) ==> normalized_zip(zip@, mode) == Some(z@),
        r is None ==> normalized_zip(zip@, mode) is None,
{
    if is_valid_zip(zip) {
        return Some(copy_range(zip, 0, zip.len()));
    }
    if mode == ValidationMode::Lenient {
        let dash = find_first(zip, '-');
        let base = match dash {
            Some(k) => copy_range(zip, 0, k),
            None => copy_range(zip, 0, zip.len()),
        };
        if base.len() <= 5 && digits_only(base.as_slice()) {
            let mut candidate: Vec<char> = Vec::new();
            let mut i: usize = base.len();
            while i < 5
                invariant
                    base@.len() <= i <= 5,
                    candidate@ == Seq::new((i - base@.len()) as nat, |j: int| '0'),
                decreases 5 - i,
            {
                candidate.push('0');
                i = i + 1;
                assert(candidate@ =~= Seq::new((i - base@.len()) as nat, |j: int| '0'));
            }
            let mut j: usize = 0;
            while j < base.len()
                invariant
                    j <= base@.len() <= 5,
                    candidate@ == Seq::new((5 - base@.len()) as nat, |j: int| '0') + base@.take(
                        j as int,
                    ),
                decreases base@.len() - j,
            {
                candidate.push(base[j]);
                j = j + 1;
                assert(candidate@ =~= Seq::new((5 - base@.len()) as nat, |j: int| '0')
                    + base@.take(j as int));
            }
            assert(base@.take(base@.len() as int) == base@);
            if let Some(k) = dash {
                candidate.push('-');
                let mut m: usize = k + 1;
                let ghost head = candidate@;
                while m < zip.len()
                    invariant
                        k + 1 <= m <= zip@.len(),
                        candidate@ == head + zip@.subrange(k + 1, m as int),
                    decreases zip@.len() - m,
                {
                    candidate.push(zip[m]);
                    m = m + 1;
                    assert(candidate@ =~= head + zip@.subrange(k + 1, m as int));
                }
                assert(zip@.subrange(k + 1, zip@.len() as int) == zip@.skip(k + 1));
            }
            assert(candidate@ =~= match first_index_of(zip@, '-') {
                Some(k) => zero_padded(base@) + seq!['-'] + zip@.skip(k + 1),
                None => zero_padded(base@),
            });
            if is_valid_zip(candidate.as_slice()) {
                return Some(candidate);
            }
        }
    }
    None
}

// ---------------------------------------------------------------------------
// Street lines
// ---------------------------------------------------------------------------

/// `w` without the commas and periods at its end.
pub open spec fn trim_punct_end(w: Seq<char>) -> Seq<char>
    decreases w.len(),
{
    if w.len() > 0 && (w.last() == ',' || w.last() == '.') {
        trim_punct_end(w.drop_last())
    } else {
        w
    }
}

/// A word with a recognizable street suffix (compared case-insensitively,
/// ignoring trailing commas and periods) rewritten to its canonical
/// abbreviation, trailing punctuation kept; any other word as it is.
pub open spec fn normalized_word(w: Seq<char>) -> Seq<char> {
    let t = trim_punct_end(w);
    match canonical_suffix(lowercase_of(t)) {
        Some(c) => c + w.skip(t.len() as int),
        None => w,
    }
}

/// Each word normalized.
pub open spec fn normalized_words(ws: Seq<Seq<char>>) -> Seq<Seq<char>> {
    ws.map_values(|w: Seq<char>| normalized_word(w))
}

/// A street line with every space-separated word normalized.
pub open spec fn normalized_street_line(l: Seq<char>) -> Seq<char> {
    join(normalized_words(split_on(l, ' ')), ' ')
}

/// Each street line normalized.
pub open spec fn normalized_street_lines(ls: Seq<Seq<char>>) -> Seq<Seq<char>> {
    ls.map_values(|l: Seq<char>| normalized_street_line(l))
}

/// Rewrites one word's street suffix to its canonical abbreviation.
pub fn normalize_suffix_word(word: &[char]) -> (r: Vec<char>)
    ensures
        r@ == normalized_word(word@),
{
    let mut n: usize = word.len();
    assert(word@.take(n as int) == word@);
    while n > 0 && (word[n - 1] == ',' || word[n - 1] == '.')
        invariant
            n <= word@.len(),
            trim_punct_end(word@) == trim_punct_end(word@.take(n as int)),
        decreases n,
    {
        assert(word@.take(n as int).drop_last() == word@.take((n - 1) as int));
        n = n - 1;
    }
    let trimmed = copy_range(word, 0, n);
    assert(trimmed@ == trim_punct_end(word@));
    let lower = to_lowercase(trimmed.as_slice());
    match find_canonical_suffix(lower.as_slice()) {
        Some(canonical) => {
            let mut out = canonical;
            let mut i: usize = n;
            let ghost head = out@;
            while i < word.len()
                invariant
                    n <= i <= word@.len(),
                    out@ == head + word@.subrange(n as int, i as int),
                decreases word@.len() - i,
            {
                out.push(word[i]);
                i = i + 1;
                assert(out@ =~= head + word@.subrange(n as int, i as int));
            }
            assert(word@.subrange(n as int, word@.len() as int) == word@.skip(n as int));
            out
        },
        None => copy_range(word, 0, word.len()),
    }
}

/// Rewrites recognizable street suffix words to their canonical USPS
/// abbreviation, word by word, so it works whether the suffix sits mid-line
/// ("100 Main Street Suite 4") or at the end ("100 Main Street"). Spacing
/// and punctuation attached to the word (a trailing comma, say) are kept.
pub fn normalize_street_line(line: &[char]) -> (r: Vec<char>)
    ensures
        r@ == normalized_street_line(line@),
{
    let words = split_chars(line, ' ');
    let mut out: Vec<Vec<char>> = Vec::new();
    let mut i: usize = 0;
    while i < words.len()
        invariant
            i <= words@.len(),
            views(out@) == normalized_words(views(words@)).take(i as int),
        decreases words@.len() - i,
    {
        let w = normalize_suffix_word(words[i].as_slice());
        let ghost before = views(out@);
        let ghost wv = w@;
        out.push(w);
        assert(views(out@) =~= before.push(wv));
        assert(normalized_words(views(words@)).take(i + 1) =~= normalized_words(views(words@)).take(
            i as int,
        ).push(wv));
        i = i + 1;
    }
    assert(normalized_words(views(words@)).take(words@.len() as int) =~= normalized_words(
        views(words@),
    ));
    join_chars(&out, ' ')
}

// ---------------------------------------------------------------------------
// The city/state/zip line
// ---------------------------------------------------------------------------

/// City, state and zip as separated out of the last line.
pub open spec fn parts_view(
    r: Result<(Vec<char>, Vec<char>, Vec<char>), ParseError>,
) -> Result<(Seq<char>, Seq<char>, Seq<char>), ParseFailure> {
    match r {
        Ok((c, s, z)) => Ok((c@, s@, z@)),
        Err(e) => Err(e@),
    }
}

/// Where the zip starts in a line without a comma: after its last whitespace.
pub open spec fn zip_start(line: Seq<char>) -> int {
    match last_ws_index(line) {
        Some(i) => i + 1,
        None => 0,
    }
}

/// A line without a comma split into city, state and zip: the zip is what
/// follows the last whitespace, the state the word before it, the city
/// everything before that.
pub open spec fn parts_without_comma(line: Seq<char>) -> Result<
    (Seq<char>, Seq<char>, Seq<char>),
    ParseFailure,
> {
    let before_zip = trim_end(line.take(zip_start(line)));
    let zip = line.skip(zip_start(line));
    match last_ws_index(before_zip) {
        None => Err(ParseFailure::MalformedCityStateZip(line)),
        Some(i) => {
            let city = trim_end(before_zip.take(i));
            let state = trim(before_zip.skip(i + 1));
            if city.len() == 0 || state.len() == 0 || zip.len() == 0 {
                Err(ParseFailure::MalformedCityStateZip(line))
            } else {
                Ok((city, state, zip))
            }
        },
    }
}

/// The city/state/zip line split into its three parts. With a comma: the
/// city is what precedes the last comma, and what follows must be exactly
/// two words, state and zip. Without a comma: an error in strict mode, the
/// split of `parts_without_comma` in lenient mode.
pub open spec fn city_state_zip_parts(line: Seq<char>, mode: ValidationMode) -> Result<
    (Seq<char>, Seq<char>, Seq<char>),
    ParseFailure,
> {
    match last_index_of(line, ',') {
        None => if mode == ValidationMode::Lenient {
            parts_without_comma(line)
        } else {
            Err(ParseFailure::MalformedCityStateZip(line))
        },
        Some(p) => {
            let words = words_of(line.skip(p + 1));
            let city = trim(line.take(p));
            if words.len() == 2 && city.len() > 0 {
                Ok((city, words[0], words[1]))
            } else {
                Err(ParseFailure::MalformedCityStateZip(line))
            }
        },
    }
}

fn malformed(line: &[char]) -> (e: ParseError)
    ensures
        e@ == ParseFailure::MalformedCityStateZip(line@),
{
    ParseError::MalformedCityStateZip(string_of(line))
}

/// Splits the city/state/zip line into its three parts. Strict requires the
/// standard "City, ST ZIP" shape with a comma before the state. Lenient
/// falls back to treating the last two whitespace-separated tokens as state
/// and zip when there's no comma at all.
pub fn split_city_state_zip(line: &[char], mode: ValidationMode) -> (r: Result<
    (Vec<char>, Vec<char>, Vec<char>),
    ParseError,
>)
    ensures
        parts_view(r) == city_state_zip_parts(line@, mode),
{
    match find_last(line, ',') {
        None => {
            if mode == ValidationMode::Lenient {
                split_city_state_zip_without_comma(line)
            } else {
                Err(malformed(line))
            }
        },
        Some(p) => {
            let n = line.len();
            let city_part = copy_range(line, 0, p);
            let rest_raw = copy_range(line, p + 1, n);
            assert(rest_raw@ == line@.skip(p + 1));
            assert(city_part@ == line@.take(p as int));
            let rest = trim_chars(rest_raw.as_slice());
            proof {
                lemma_words_of_trim(rest_raw@);
            }
            let mut words = split_words(rest.as_slice());
            if words.len() != 2 {
                return Err(malformed(line));
            }
            let city = trim_chars(city_part.as_slice());
            if city.len() == 0 {
                return Err(malformed(line));
            }
            let ghost ws = views(words@);
            let zip = words.pop().unwrap();
            let state = words.pop().unwrap();
            assert(zip@ == ws[1]);
            assert(state@ == ws[0]);
            Ok((city, state, zip))
        },
    }
}

fn split_city_state_zip_without_comma(line: &[char]) -> (r: Result<
    (Vec<char>, Vec<char>, Vec<char>),
    ParseError,
>)
    ensures
        parts_view(r) == parts_without_comma(line@),
{
    let n = line.len();
    assert(line@.take(n as int) == line@);
    let zip_start = match find_last_ws(line, n) {
        Some(i) => i + 1,
        None => 0,
    };
    let head = copy_range(line, 0, zip_start);
    assert(head@ == line@.take(zip_start as int));
    let before_zip = trim_end_chars(head.as_slice());
    let zip = copy_range(line, zip_start, n);
    assert(zip@ == line@.skip(zip_start as int));
    let bn = before_zip.len();
    assert(before_zip@.take(bn as int) == before_zip@);
    match find_last_ws(before_zip.as_slice(), bn) {
        None => Err(malformed(line)),
        Some(i) => {
            let city_raw = copy_range(before_zip.as_slice(), 0, i);
            assert(city_raw@ == before_zip@.take(i as int));
            let city = trim_end_chars(city_raw.as_slice());
            let state_raw = copy_range(before_zip.as_slice(), i + 1, bn);
            assert(state_raw@ == before_zip@.skip(i + 1));
            let state = trim_chars(state_raw.as_slice());
            if city.len() == 0 || state.len() == 0 || zip.len() == 0 {
                return Err(malformed(line));
            }
            Ok((city, state, zip))
        },
    }
}

// ---------------------------------------------------------------------------
// Parsing
// ---------------------------------------------------------------------------

/// What parsing `input` gives: the non-blank lines, trimmed, are street
/// lines followed by a city/state/zip line; the state must be a USPS code
/// once uppercased and the zip valid (see `normalized_zip`). The street
/// lines come out with their suffixes normalized, the state uppercased.
pub open spec fn parsed(input: Seq<char>, mode: ValidationMode) -> Result<AddressView, ParseFailure> {
    let lines = content_lines(input);
    if lines.len() == 0 {
        Err(ParseFailure::Empty)
    } else if lines.len() < 2 {
        Err(ParseFailure::MissingCityStateZip)
    } else {
        match city_state_zip_parts(lines.last(), mode) {
            Err(e) => Err(e),
            Ok((city, state, zip)) => if !is_us_state(uppercase_of(state)) {
                Err(ParseFailure::UnknownState(state))
            } else {
                match normalized_zip(zip, mode) {
                    None => Err(ParseFailure::InvalidZip(zip)),
                    Some(z) => Ok(
                        AddressView {
                            street_lines: normalized_street_lines(lines.drop_last()),
                            city,
                            state: uppercase_of(state),
                            zip: z,
                        },
                    ),
                }
            },
        }
    }
}

fn parse_chars(input: &[char], mode: ValidationMode) -> (r: Result<Address, ParseError>)
    ensures
        result_view(r) == parsed(input@, mode),
{
    let lines = content_lines_of(input);
    if lines.len() == 0 {
        return Err(ParseError::Empty);
    }
    if lines.len() < 2 {
        return Err(ParseError::MissingCityStateZip);
    }
    let n = lines.len() - 1;
    if n == 0 {
        return Err(ParseError::MissingStreet);
    }
    let (city, state, zip) = match split_city_state_zip(lines[n].as_slice(), mode) {
        Ok(parts) => parts,
        Err(e) => {
            return Err(e);
        },
    };
    let state_upper = to_uppercase(state.as_slice());
    if !is_us_state_code(state_upper.as_slice()) {
        return Err(ParseError::UnknownState(string_of(state.as_slice())));
    }
    let zip = match normalize_zip(zip.as_slice(), mode) {
        Some(z) => z,
        None => {
            return Err(ParseError::InvalidZip(string_of(zip.as_slice())));
        },
    };
    let ghost content = views(lines@);
    let mut street_lines: Vec<String> = Vec::new();
    let mut i: usize = 0;
    while i < n
        invariant
            n + 1 == lines@.len(),
            content == views(lines@),
            i <= n,
            string_views(street_lines@) == normalized_street_lines(content.drop_last()).take(
                i as int,
            ),
        decreases n - i,
    {
        let l = normalize_street_line(lines[i].as_slice());
        let s = string_of(l.as_slice());
        let ghost before = string_views(street_lines@);
        let ghost sv = s@;
        street_lines.push(s);
        assert(string_views(street_lines@) =~= before.push(sv));
        assert(normalized_street_lines(content.drop_last()).take(i + 1) =~= normalized_street_lines(
            content.drop_last(),
        ).take(i as int).push(sv));
        i = i + 1;
    }
    assert(normalized_street_lines(content.drop_last()).take(n as int) =~= normalized_street_lines(
        content.drop_last(),
    ));
    Ok(
        Address {
            street_lines,
            city: string_of(city.as_slice()),
            state: string_of(state_upper.as_slice()),
            zip: string_of(zip.as_slice()),
        },
    )
}

/// Same as [`parse`], but in [`ValidationMode::Lenient`] recovers from a
/// couple of common formatting slips instead of rejecting them outright:
/// a missing comma before the state (falls back to splitting the line on
/// whitespace), and a zip that's short a leading zero (padded back to 5
/// digits). Everything else — unknown state codes, garbage input — is
/// still an error in both modes.
pub fn parse_with_mode(input: &str, mode: ValidationMode) -> (r: Result<Address, ParseError>)
    ensures
        result_view(r) == parsed(input@, mode),
{
    let chars = chars_of(input);
    parse_chars(chars.as_slice(), mode)
}

/// Parses a US-style postal address:
///
///   123 Main St
///   Apt 4B                     (optional extra street lines)
///   Springfield, IL 62704
///
/// The last non-blank line must be "City, ST ZIP" or "City, ST ZIP-XXXX".
/// Everything above it is treated as street address lines.
///
/// Equivalent to `parse_with_mode(input, ValidationMode::Strict)`.
pub fn parse(input: &str) -> (r: Result<Address, ParseError>)
    ensures
        result_view(r) == parsed(input@, ValidationMode::Strict),
{
    parse_with_mode(input, ValidationMode::Strict)
}

// ---------------------------------------------------------------------------
// Several addresses
// ---------------------------------------------------------------------------

/// The lines of `input` grouped into runs of consecutive non-blank lines.
pub open spec fn line_groups(input: Seq<char>) -> Seq<Seq<Seq<char>>> {
    runs(lines_of(input), |l: Seq<char>| trim(l).len() > 0)
}

/// Each group of lines joined back with `\n`.
pub open spec fn joined_groups(groups: Seq<Seq<Seq<char>>>) -> Seq<Seq<char>> {
    groups.map_values(|g: Seq<Seq<char>>| join(g, '\n'))
}

/// The address blocks of `input`: its runs of consecutive non-blank lines,
/// each joined back with `\n`; one or more blank lines separate blocks.
pub open spec fn blocks_of(input: Seq<char>) -> Seq<Seq<char>> {
    joined_groups(line_groups(input))
}

/// Groups input lines into blocks of consecutive non-blank lines, treating
/// one or more blank lines as a separator between addresses.
fn split_into_blocks(input: &[char]) -> (blocks: Vec<Vec<char>>)
    ensures
        views(blocks@) == blocks_of(input@),
{
    let lines = split_lines(input);
    let ghost ls = views(lines@);
    let ghost keep = |l: Seq<char>| trim(l).len() > 0;
    let mut blocks: Vec<Vec<char>> = Vec::new();
    let ghost mut groups: Seq<Seq<Seq<char>>> = Seq::empty();
    let mut current: Vec<Vec<char>> = Vec::new();
    let mut i: usize = 0;
    assert(ls.take(0) =~= Seq::<Seq<char>>::empty());
    while i < lines.len()
        invariant
            i <= lines@.len(),
            ls == views(lines@),
            ls == lines_of(input@),
            keep == (|l: Seq<char>| trim(l).len() > 0),
            views(blocks@) == joined_groups(groups),
            runs(ls.take(i as int), keep) == (if current@.len() > 0 {
                groups.push(views(current@))
            } else {
                groups
            }),
            current@.len() > 0 <==> (i > 0 && trim(ls[i - 1]).len() > 0),
        decreases lines@.len() - i,
    {
        let line = &lines[i];
        let t = trim_chars(line.as_slice());
        assert(ls.take(i + 1).drop_last() == ls.take(i as int));
        assert(ls.take(i + 1).last() == line@);
        if i > 0 {
            assert(ls.take(i + 1)[i - 1] == ls[i - 1]);
        }
        if t.len() == 0 {
            if current.len() > 0 {
                let b = join_chars(&current, '\n');
                proof {
                    groups = groups.push(views(current@));
                }
                let ghost bv = b@;
                let ghost before = views(blocks@);
                blocks.push(b);
                assert(views(blocks@) =~= before.push(bv));
                assert(joined_groups(groups) =~= joined_groups(groups.drop_last()).push(bv));
                current = Vec::new();
            }
            assert(runs(ls.take(i + 1), keep) =~= groups);
        } else {
            let ghost cv = views(current@);
            let copy = copy_range(line.as_slice(), 0, line.len());
            assert(copy@ == line@);
            current.push(copy);
            assert(views(current@) =~= cv.push(line@));
            if current.len() == 1 {
                assert(views(current@) =~= seq![line@]);
            }
            assert(runs(ls.take(i + 1), keep) =~= groups.push(views(current@)));
        }
        i = i + 1;
    }
    assert(ls.take(lines@.len() as int) == ls);
    if current.len() > 0 {
        let b = join_chars(&current, '\n');
        proof {
            groups = groups.push(views(current@));
        }
        let ghost bv = b@;
        let ghost before = views(blocks@);
        blocks.push(b);
        assert(views(blocks@) =~= before.push(bv));
        assert(joined_groups(groups) =~= joined_groups(groups.drop_last()).push(bv));
    }
    blocks
}

/// Same as [`parse_all`], but parses each address block with the given
/// [`ValidationMode`]. One block failing to parse doesn't stop the rest —
/// the caller gets a result per block, in input order, so a batch job can
/// report which entries were bad instead of aborting on the first one.
pub fn parse_all_with_mode(input: &str, mode: ValidationMode) -> (r: Vec<Result<Address, ParseError>>)
    ensures
        r@.len() == blocks_of(input@).len(),
        forall|i: int|
            0 <= i < r@.len() ==> result_view(#[trigger] r@[i]) == parsed(blocks_of(input@)[i], mode),
{
    let chars = chars_of(input);
    let blocks = split_into_blocks(chars.as_slice());
    let mut results: Vec<Result<Address, ParseError>> = Vec::new();
    let mut i: usize = 0;
    while i < blocks.len()
        invariant
            i <= blocks@.len(),
            views(blocks@) == blocks_of(input@),
            results@.len() == i,
            forall|j: int|
                0 <= j < i ==> result_view(#[trigger] results@[j]) == parsed(blocks_of(input@)[j], mode),
        decreases blocks@.len() - i,
    {
        assert(blocks@[i as int]@ == blocks_of(input@)[i as int]);
        results.push(parse_chars(blocks[i].as_slice(), mode));
        i = i + 1;
    }
    results
}

/// Parses zero or more addresses from a single input, where each address is
/// separated from the next by one or more blank lines. A single address with
/// no blank line anywhere behaves exactly like [`parse`] would, wrapped in a
/// one-element vec.
///
/// Equivalent to `parse_all_with_mode(input, ValidationMode::Strict)`.
pub fn parse_all(input: &str) -> (r: Vec<Result<Address, ParseError>>)
    ensures
        r@.len() == blocks_of(input@).len(),
        forall|i: int|
            0 <= i < r@.len() ==> result_view(#[trigger] r@[i]) == parsed(
                blocks_of(input@)[i],
                ValidationMode::Strict,
            ),
{
    parse_all_with_mode(input, ValidationMode::Strict)
}

// ---------------------------------------------------------------------------
// Rendering
// ---------------------------------------------------------------------------

/// How one character appears inside a JSON string literal.
pub open spec fn json_escape(c: char) -> Seq<char> {
    if c == '"' {
        seq!['\\', '"']
    } else if c == '\\' {
        seq!['\\', '\\']
    } else if c == '\n' {
        seq!['\\', 'n']
    } else if c == '\r' {
        seq!['\\', 'r']
    } else if c == '\t' {
        seq!['\\', 't']
    } else if (c as u32) < 0x20 {
        seq!['\\', 'u', '0', '0', hex_digits()[((c as u32) / 16) as int],
            hex_digits()[((c as u32) % 16) as int]]
    } else {
        seq![c]
    }
}

/// The characters of `s`, each escaped for a JSON string literal.
pub open spec fn json_body(s: Seq<char>) -> Seq<char>
    decreases s.len(),
{
    if s.len() == 0 {
        Seq::empty()
    } else {
        json_body(s.drop_last()) + json_escape(s.last())
    }
}

/// `s` as a JSON string literal.
pub open spec fn json_quoted(s: Seq<char>) -> Seq<char> {
    seq!['"'] + json_body(s) + seq!['"']
}

/// Each string as a JSON string literal.
pub open spec fn json_quoted_all(ss: Seq<Seq<char>>) -> Seq<Seq<char>> {
    ss.map_values(|s: Seq<char>| json_quoted(s))
}

pub(crate) fn hex_digit(n: u32) -> (c: char)
    requires
        n < 16,
    ensures
        c == hex_digits()[n as int],
{
    if n == 0 {
        '0'
    } else if n == 1 {
        '1'
    } else if n == 2 {
        '2'
    } else if n == 3 {
        '3'
    } else if n == 4 {
        '4'
    } else if n == 5 {
        '5'
    } else if n == 6 {
        '6'
    } else if n == 7 {
        '7'
    } else if n == 8 {
        '8'
    } else if n == 9 {
        '9'
    } else if n == 10 {
        'a'
    } else if n == 11 {
        'b'
    } else if n == 12 {
        'c'
    } else if n == 13 {
        'd'
    } else if n == 14 {
        'e'
    } else {
        'f'
    }
}

/// Appends `s` to `out` as a JSON string literal.
pub(crate) fn push_json_quoted(out: &mut String, s: &[char])
    ensures
        final(out)@ == old(out)@ + json_quoted(s@),
{
    let ghost start = out@;
    push_one(out, '"');
    let mut i: usize = 0;
    while i < s.len()
        invariant
            i <= s@.len(),
            out@ == start.push('"') + json_body(s@.take(i as int)),
        decreases s@.len() - i,
    {
        let c = s[i];
        let ghost before = out@;
        if c == '"' {
            push_one(out, '\\');
            push_one(out, '"');
        } else if c == '\\' {
            push_one(out, '\\');
            push_one(out, '\\');
        } else if c == '\n' {
            push_one(out, '\\');
            push_one(out, 'n');
        } else if c == '\r' {
            push_one(out, '\\');
            push_one(out, 'r');
        } else if c == '\t' {
            push_one(out, '\\');
            push_one(out, 't');
        } else if (c as u32) < 0x20 {
            push_one(out, '\\');
            push_one(out, 'u');
            push_one(out, '0');
            push_one(out, '0');
            push_one(out, hex_digit((c as u32) / 16));
            push_one(out, hex_digit((c as u32) % 16));
        } else {
            push_one(out, c);
        }
        assert(out@ =~= before + json_escape(c));
        assert(s@.take(i + 1).drop_last() == s@.take(i as int));
        i = i + 1;
    }
    assert(s@.take(s@.len() as int) == s@);
    push_one(out, '"');
    assert(out@ =~= start + json_quoted(s@));
}

/// `s` as a JSON string literal: quoted, with `"`, `\`, newline, carriage
/// return and tab backslash-escaped and other control characters written
/// as `\u00XX`.
pub fn json_string(s: &str) -> (r: String)
    ensures
        r@ == json_quoted(s@),
{
    let chars = chars_of(s);
    let mut out = String::new();
    push_json_quoted(&mut out, chars.as_slice());
    out
}

/// The street lines, one per line, each ended by `\n`.
pub open spec fn lines_block(ls: Seq<Seq<char>>) -> Seq<char>
    decreases ls.len(),
{
    if ls.len() == 0 {
        Seq::empty()
    } else {
        lines_block(ls.drop_last()) + ls.last().push('\n')
    }
}

/// The canonical text of an address: its street lines, one per line, then
/// "City, ST ZIP" with the state uppercased.
pub open spec fn pretty_text(a: AddressView) -> Seq<char> {
    lines_block(a.street_lines) + a.city + seq![',', ' '] + uppercase_of(a.state) + seq![' ']
        + a.zip
}

/// The JSON object of an address.
pub open spec fn address_json(a: AddressView) -> Seq<char> {
    "{\"street_lines\":["@ + join(json_quoted_all(a.street_lines), ',') + "],\"city\":"@
        + json_quoted(a.city) + ",\"state\":"@ + json_quoted(a.state) + ",\"zip\":"@
        + json_quoted(a.zip) + "}"@
}

/// `zip` without its +4 extension: what precedes the first hyphen.
pub open spec fn zip_without_extension(zip: Seq<char>) -> Seq<char> {
    match first_index_of(zip, '-') {
        Some(k) => zip.take(k),
        None => zip,
    }
}

impl Address {
    /// Drops the +4 extension, if any, leaving the base 5-digit zip. A
    /// no-op for an address that was already 5 digits.
    pub fn truncate_zip_to_five(&mut self)
        ensures
            final(self).street_lines == old(self).street_lines,
            final(self).city == old(self).city,
            final(self).state == old(self).state,
            final(self).zip@ == zip_without_extension(old(self).zip@),
    {
        let chars = chars_of(self.zip.as_str());
        if let Some(k) = find_first(chars.as_slice(), '-') {
            self.zip = string_of(copy_range(chars.as_slice(), 0, k).as_slice());
        }
    }

    /// Canonical human-readable rendering: one street line per line, state
    /// uppercased, city/state/zip collapsed onto a single trailing line.
    pub fn to_pretty(&self) -> (r: String)
        ensures
            r@ == pretty_text(self@),
    {
        let mut out = String::new();
        let mut i: usize = 0;
        while i < self.street_lines.len()
            invariant
                i <= self.street_lines@.len(),
                out@ == lines_block(string_views(self.street_lines@).take(i as int)),
            decreases self.street_lines@.len() - i,
        {
            push_str(&mut out, self.street_lines[i].as_str());
            push_one(&mut out, '\n');
            assert(string_views(self.street_lines@).take(i + 1).drop_last() == string_views(
                self.street_lines@,
            ).take(i as int));
            i = i + 1;
        }
        assert(string_views(self.street_lines@).take(self.street_lines@.len() as int)
            == string_views(self.street_lines@));
        push_str(&mut out, self.city.as_str());
        push_one(&mut out, ',');
        push_one(&mut out, ' ');
        let state = to_uppercase(chars_of(self.state.as_str()).as_slice());
        push_all(&mut out, state.as_slice());
        push_one(&mut out, ' ');
        push_str(&mut out, self.zip.as_str());
        assert(out@ =~= pretty_text(self@));
        out
    }

    /// The address as a JSON object with the fields `street_lines`, `city`,
    /// `state` and `zip`.
    pub fn to_json(&self) -> (r: String)
        ensures
            r@ == address_json(self@),
    {
        let mut street = String::new();
        let mut i: usize = 0;
        while i < self.street_lines.len()
            invariant
                i <= self.street_lines@.len(),
                street@ == join(json_quoted_all(string_views(self.street_lines@)).take(i as int), ','),
            decreases self.street_lines@.len() - i,
        {
            let ghost before = street@;
            if i > 0 {
                push_one(&mut street, ',');
            }
            let chars = chars_of(self.street_lines[i].as_str());
            push_json_quoted(&mut street, chars.as_slice());
            let ghost q = json_quoted_all(string_views(self.street_lines@));
            assert(q.take(i + 1).drop_last() == q.take(i as int));
            assert(q.take(i + 1).last() == json_quoted(self.street_lines@[i as int]@));
            if i == 0 {
                assert(q.take(1) == seq![q[0]]);
            }
            i = i + 1;
        }
        assert(json_quoted_all(string_views(self.street_lines@)).take(
            self.street_lines@.len() as int,
        ) == json_quoted_all(string_views(self.street_lines@)));
        let mut out = String::new();
        push_str(&mut out, "{\"street_lines\":[");
        push_str(&mut out, street.as_str());
        push_str(&mut out, "],\"city\":");
        push_json_quoted(&mut out, chars_of(self.city.as_str()).as_slice());
        push_str(&mut out, ",\"state\":");
        push_json_quoted(&mut out, chars_of(self.state.as_str()).as_slice());
        push_str(&mut out, ",\"zip\":");
        push_json_quoted(&mut out, chars_of(self.zip.as_str()).as_slice());
        push_str(&mut out, "}");
        assert(out@ =~= address_json(self@));
        out
    }
}

/// The human-readable description of an error.
pub open spec fn error_message(e: ParseFailure) -> Seq<char> {
    match e {
        ParseFailure::Empty => "input is empty"@,
        ParseFailure::MissingStreet => "missing street line"@,
        ParseFailure::MissingCityStateZip => "missing city/state/zip line"@,
        ParseFailure::MalformedCityStateZip(line) => "could not parse city/state/zip line: "@
            + debug_text(line),
        ParseFailure::UnknownState(code) => "unrecognized state code: "@ + debug_text(code),
        ParseFailure::InvalidZip(zip) => "invalid zip code: "@ + debug_text(zip),
    }
}

/// The JSON object reporting an error.
pub open spec fn error_json(e: ParseFailure) -> Seq<char> {
    "{\"error\":"@ + json_quoted(error_message(e)) + "}"@
}

impl ParseError {
    /// The human-readable description of the error.
    pub fn message(&self) -> (r: String)
        ensures
            r@ == error_message(self@),
    {
        let mut out = String::new();
        match self {
            ParseError::Empty => push_str(&mut out, "input is empty"),
            ParseError::MissingStreet => push_str(&mut out, "missing street line"),
            ParseError::MissingCityStateZip => push_str(&mut out, "missing city/state/zip line"),
            ParseError::MalformedCityStateZip(line) => {
                push_str(&mut out, "could not parse city/state/zip line: ");
                push_str(&mut out, debug_quote(line.as_str()).as_str());
            },
            ParseError::UnknownState(code) => {
                push_str(&mut out, "unrecognized state code: ");
                push_str(&mut out, debug_quote(code.as_str()).as_str());
            },
            ParseError::InvalidZip(zip) => {
                push_str(&mut out, "invalid zip code: ");
                push_str(&mut out, debug_quote(zip.as_str()).as_str());
            },
        }
        out
    }

    /// The error as a JSON object with one field, `error`, holding its message.
    pub fn to_json(&self) -> (r: String)
        ensures
            r@ == error_json(self@),
    {
        let msg = self.message();
        let mut out = String::new();
        push_str(&mut out, "{\"error\":");
        push_json_quoted(&mut out, chars_of(msg.as_str()).as_slice());
        push_str(&mut out, "}");
        out
    }
}

} // verus!
