//! Canadian postal addresses: the same block form as the US one, with a
//! last line "City, PR A1A 1A1".
use vstd::prelude::*;

use crate::address::{json_quoted, json_quoted_all, lines_block, push_json_quoted, string_views};
use crate::text::{
    chars_of, content_lines, content_lines_of, copy_range, debug_quote, debug_text,
    find_first_ws, find_last, first_ws_index, is_ascii_digit, is_ascii_letter, is_digit,
    is_letter, join, last_index_of, push_one, push_str, remove_ws, string_of, to_uppercase,
    trim, trim_chars, uppercase_of, views, without_ws,
};

verus! {

broadcast use vstd::seq_lib::group_seq_properties;

/// A validated Canadian postal address.
#[derive(Debug, Clone, PartialEq, Eq)]
pub struct CanadianAddress {
    pub street_lines: Vec<String>,
    pub city: String,
    pub province: String,
    pub postal_code: String,
}

/// The contents of a `CanadianAddress`, as character sequences.
pub struct CanadianAddressView {
    pub street_lines: Seq<Seq<char>>,
    pub city: Seq<char>,
    pub province: Seq<char>,
    pub postal_code: Seq<char>,
}

impl View for CanadianAddress {
    type V = CanadianAddressView;

    open spec fn view(&self) -> CanadianAddressView {
        CanadianAddressView {
            street_lines: string_views(self.street_lines@),
            city: self.city@,
            province: self.province@,
            postal_code: self.postal_code@,
        }
    }
}

/// Why an input is not a valid Canadian address.
#[derive(Debug, Clone, PartialEq, Eq)]
pub enum CaParseError {
    Empty,
    MissingStreet,
    MissingCityProvincePostal,
    MalformedCityProvincePostal(String),
    UnknownProvince(String),
    InvalidPostalCode(String),
}

/// A `CaParseError` with its text as character sequences.
pub enum CaParseFailure {
    Empty,
    MissingStreet,
    MissingCityProvincePostal,
    MalformedCityProvincePostal(Seq<char>),
    UnknownProvince(Seq<char>),
    InvalidPostalCode(Seq<char>),
}

impl View for CaParseError {
    type V = CaParseFailure;

    open spec fn view(&self) -> CaParseFailure {
        match self {
            CaParseError::Empty => CaParseFailure::Empty,
            CaParseError::MissingStreet => CaParseFailure::MissingStreet,
            CaParseError::MissingCityProvincePostal => CaParseFailure::MissingCityProvincePostal,
            CaParseError::MalformedCityProvincePostal(l) => CaParseFailure::MalformedCityProvincePostal(l@),
            CaParseError::UnknownProvince(p) => CaParseFailure::UnknownProvince(p@),
            CaParseError::InvalidPostalCode(c) => CaParseFailure::InvalidPostalCode(c@),
        }
    }
}

/// The view of a parse result.
pub open spec fn ca_result_view(r: Result<CanadianAddress, CaParseError>) -> Result<
    CanadianAddressView,
    CaParseFailure,
> {
    match r {
        Ok(a) => Ok(a@),
        Err(e) => Err(e@),
    }
}

/// Canada's provinces and territories, by their standard two-letter
/// Canada Post abbreviation.
pub open spec fn is_ca_province_pair(a: char, b: char) -> bool {
    (a == 'A' && b == 'B')
        || (a == 'B' && b == 'C')
        || (a == 'M' && b == 'B')
        || (a == 'N' && b == 'B')
        || (a == 'N' && b == 'L')
        || (a == 'N' && b == 'S')
        || (a == 'N' && b == 'T')
        || (a == 'N' && b == 'U')
        || (a == 'O' && b == 'N')
        || (a == 'P' && b == 'E')
        || (a == 'Q' && b == 'C')
        || (a == 'S' && b == 'K')
        || (a == 'Y' && b == 'T')
}

/// `code` is one of the two-letter Canada Post province abbreviations.
pub open spec fn is_ca_province(code: Seq<char>) -> bool {
    code.len() == 2 && is_ca_province_pair(code[0], code[1])
}

/// Whether `code` is a Canada Post province abbreviation (exact, case-sensitive).
pub fn is_ca_province_code(code: &[char]) -> (r: bool)
    ensures
        r == is_ca_province(code@),
{
    if code.len() != 2 {
        return false;
    }
    let a = code[0];
    let b = code[1];
    (a == 'A' && b == 'B')
        || (a == 'B' && b == 'C')
        || (a == 'M' && b == 'B')
        || (a == 'N' && b == 'B')
        || (a == 'N' && b == 'L')
        || (a == 'N' && b == 'S')
        || (a == 'N' && b == 'T')
        || (a == 'N' && b == 'U')
        || (a == 'O' && b == 'N')
        || (a == 'P' && b == 'E')
        || (a == 'Q' && b == 'C')
        || (a == 'S' && b == 'K')
        || (a == 'Y' && b == 'T')
}

/// A postal code without spaces has the shape letter-digit-letter-digit-letter-digit.
pub open spec fn has_postal_shape(c: Seq<char>) -> bool {
    &&& c.len() == 6
    &&& is_letter(c[0]) && is_digit(c[1]) && is_letter(c[2])
    &&& is_digit(c[3]) && is_letter(c[4]) && is_digit(c[5])
}

/// A postal code in "A1A 1A1" form, if `code` (whitespace ignored, any
/// case) has the right shape.
pub open spec fn normalized_postal_code(code: Seq<char>) -> Option<Seq<char>> {
    let compact = without_ws(code);
    if has_postal_shape(compact) {
        let upper = uppercase_of(compact);
        Some(upper.take(3) + seq![' '] + upper.skip(3))
    } else {
        None
    }
}

/// Validates and normalizes a Canadian postal code to "A1A 1A1" form,
/// accepting input with or without the internal space, case-insensitive.
/// Like the US zip check, this validates shape only (letter-digit-letter-
/// digit-letter-digit) — not that the code corresponds to a real location.
pub fn normalize_postal_code(code: &[char]) -> (r: Option<Vec<char>>)
    ensures
        r matches Some(p) ==> normalized_postal_code(code@) == Some(p@),
        r is None ==> normalized_postal_code(code@) is None,
{
    let compact = remove_ws(code);
    if compact.len() != 6 {
        return None;
    }
    let shape_ok = is_ascii_letter(compact[0]) && is_ascii_digit(compact[1]) && is_ascii_letter(
        compact[2],
    ) && is_ascii_digit(compact[3]) && is_ascii_letter(compact[4]) && is_ascii_digit(compact[5]);
    if !shape_ok {
        return None;
    }
    let upper = to_uppercase(compact.as_slice());
    let mut out = copy_range(upper.as_slice(), 0, 3);
    out.push(' ');
    let mut i: usize = 3;
    let ghost head = out@;
    while i < upper.len()
        invariant
            3 <= i <= upper@.len(),
            out@ == head + upper@.subrange(3, i as int),
        decreases upper@.len() - i,
    {
        out.push(upper[i]);
        i = i + 1;
        assert(out@ =~= head + upper@.subrange(3, i as int));
    }
    assert(out@ =~= upper@.take(3) + seq![' '] + upper@.skip(3));
    Some(out)
}

/// City, province and postal code as separated out of the last line.
pub open spec fn ca_parts_view(
    r: Result<(Vec<char>, Vec<char>, Vec<char>), CaParseError>,
) -> Result<(Seq<char>, Seq<char>, Seq<char>), CaParseFailure> {
    match r {
        Ok((c, p, z)) => Ok((c@, p@, z@)),
        Err(e) => Err(e@),
    }
}

/// The last line split into city, province and raw postal code: the city
/// precedes the last comma; after it comes the province, then (past the
/// first whitespace) the postal code.
pub open spec fn city_province_postal_parts(line: Seq<char>) -> Result<
    (Seq<char>, Seq<char>, Seq<char>),
    CaParseFailure,
> {
    match last_index_of(line, ',') {
        None => Err(CaParseFailure::MalformedCityProvincePostal(line)),
        Some(p) => {
            let city = trim(line.take(p));
            let rest = trim(line.skip(p + 1));
            match first_ws_index(rest) {
                None => Err(CaParseFailure::MalformedCityProvincePostal(line)),
                Some(k) => {
                    let province = rest.take(k);
                    let postal = trim(rest.skip(k + 1));
                    if city.len() == 0 || province.len() == 0 || postal.len() == 0 {
                        Err(CaParseFailure::MalformedCityProvincePostal(line))
                    } else {
                        Ok((city, province, postal))
                    }
                },
            }
        },
    }
}

fn malformed(line: &[char]) -> (e: CaParseError)
    ensures
        e@ == CaParseFailure::MalformedCityProvincePostal(line@),
{
    CaParseError::MalformedCityProvincePostal(string_of(line))
}

/// Splits the city/province/postal line on the last comma (same rationale
/// as the US parser: a multi-word city shouldn't confuse the split), then
/// takes the first whitespace-separated token after it as the province and
/// the rest as the postal code, since the postal code may or may not have
/// its own internal space ("M5V 2T6" vs "M5V2T6").
pub fn split_city_province_postal(line: &[char]) -> (r: Result<
    (Vec<char>, Vec<char>, Vec<char>),
    CaParseError,
>)
    ensures
        ca_parts_view(r) == city_province_postal_parts(line@),
{
    let comma = match find_last(line, ',') {
        Some(p) => p,
        None => {
            return Err(malformed(line));
        },
    };
    let n = line.len();
    let city_raw = copy_range(line, 0, comma);
    assert(city_raw@ == line@.take(comma as int));
    let city = trim_chars(city_raw.as_slice());
    let rest_raw = copy_range(line, comma + 1, n);
    assert(rest_raw@ == line@.skip(comma + 1));
    let rest = trim_chars(rest_raw.as_slice());
    let k = match find_first_ws(rest.as_slice()) {
        Some(k) => k,
        None => {
            return Err(malformed(line));
        },
    };
    let province = copy_range(rest.as_slice(), 0, k);
    assert(province@ == rest@.take(k as int));
    let rn = rest.len();
    let postal_raw = copy_range(rest.as_slice(), k + 1, rn);
    assert(postal_raw@ == rest@.skip(k + 1));
    let postal = trim_chars(postal_raw.as_slice());
    if city.len() == 0 || province.len() == 0 || postal.len() == 0 {
        return Err(malformed(line));
    }
    Ok((city, province, postal))
}

/// What parsing `input` as a Canadian address gives: the non-blank lines,
/// trimmed, are street lines followed by a city/province/postal line; the
/// province must be a Canada Post code once uppercased and the postal code
/// of the right shape. The province comes out uppercased, the postal code
/// in "A1A 1A1" form.
pub open spec fn parsed_ca(input: Seq<char>) -> Result<CanadianAddressView, CaParseFailure> {
    let lines = content_lines(input);
    if lines.len() == 0 {
        Err(CaParseFailure::Empty)
    } else if lines.len() < 2 {
        Err(CaParseFailure::MissingCityProvincePostal)
    } else {
        match city_province_postal_parts(lines.last()) {
            Err(e) => Err(e),
            Ok((city, province, postal)) => if !is_ca_province(uppercase_of(province)) {
                Err(CaParseFailure::UnknownProvince(province))
            } else {
                match normalized_postal_code(postal) {
                    None => Err(CaParseFailure::InvalidPostalCode(postal)),
                    Some(code) => Ok(
                        CanadianAddressView {
                            street_lines: lines.drop_last(),
                            city,
                            province: uppercase_of(province),
                            postal_code: code,
                        },
                    ),
                }
            },
        }
    }
}

/// Parses a Canadian postal address:
///
///   123 Main St
///   Apt 4B                     (optional extra street lines)
///   Toronto, ON M5V 2T6
///
/// The last non-blank line must be "City, PR A1A 1A1", with or without
/// the internal space in the postal code. Everything above it is treated
/// as street lines, same as the US format. There's no lenient mode here.
pub fn parse_ca(input: &str) -> (r: Result<CanadianAddress, CaParseError>)
    ensures
        ca_result_view(r) == parsed_ca(input@),
{
    let chars = chars_of(input);
    let lines = content_lines_of(chars.as_slice());
    if lines.len() == 0 {
        return Err(CaParseError::Empty);
    }
    if lines.len() < 2 {
        return Err(CaParseError::MissingCityProvincePostal);
    }
    let n = lines.len() - 1;
    if n == 0 {
        return Err(CaParseError::MissingStreet);
    }
    let (city, province, postal_raw) = match split_city_province_postal(lines[n].as_slice()) {
        Ok(parts) => parts,
        Err(e) => {
            return Err(e);
        },
    };
    let province_upper = to_uppercase(province.as_slice());
    if !is_ca_province_code(province_upper.as_slice()) {
        return Err(CaParseError::UnknownProvince(string_of(province.as_slice())));
    }
    let postal_code = match normalize_postal_code(postal_raw.as_slice()) {
        Some(code) => code,
        None => {
            return Err(CaParseError::InvalidPostalCode(string_of(postal_raw.as_slice())));
        },
    };
    let ghost content = views(lines@);
    let mut street_lines: Vec<String> = Vec::new();
    let mut i: usize = 0;
    while i < n
        invariant
            n + 1 == lines@.len(),
            content == views(lines@),
            i <= n,
            string_views(street_lines@) == content.drop_last().take(i as int),
        decreases n - i,
    {
        let s = string_of(lines[i].as_slice());
        let ghost before = string_views(street_lines@);
        let ghost sv = s@;
        street_lines.push(s);
        assert(string_views(street_lines@) =~= before.push(sv));
        assert(content.drop_last().take(i + 1) =~= content.drop_last().take(i as int).push(sv));
        i = i + 1;
    }
    assert(content.drop_last().take(n as int) =~= content.drop_last());
    Ok(
        CanadianAddress {
            street_lines,
            city: string_of(city.as_slice()),
            province: string_of(province_upper.as_slice()),
            postal_code: string_of(postal_code.as_slice()),
        },
    )
}

/// The canonical text of a Canadian address: its street lines, one per
/// line, then "City, PR A1A 1A1".
pub open spec fn ca_pretty_text(a: CanadianAddressView) -> Seq<char> {
    lines_block(a.street_lines) + a.city + seq![',', ' '] + a.province + seq![' '] + a.postal_code
}

/// The JSON object of a Canadian address.
pub open spec fn ca_address_json(a: CanadianAddressView) -> Seq<char> {
    "{\"street_lines\":["@ + join(json_quoted_all(a.street_lines), ',') + "],\"city\":"@
        + json_quoted(a.city) + ",\"province\":"@ + json_quoted(a.province)
        + ",\"postal_code\":"@ + json_quoted(a.postal_code) + "}"@
}

impl CanadianAddress {
    /// Canonical human-readable rendering, same layout as the US address:
    /// one street line per line, then "City, PR A1A 1A1" on the last line.
    pub fn to_pretty(&self) -> (r: String)
        ensures
            r@ == ca_pretty_text(self@),
    {
        let mut out = String::new();
        let mut i: usize = 0;
        while i < self.street_lines.len()
            invariant
                i <= self.street_lines@.len(),
                out@ == lines_block(string_views(self.street_lines@).take(i as int)),
            decreases self.street_lines@.len() - i,
        {
            push_str(&mut out, self.street_lines[i].as_str());
            push_one(&mut out, '\n');
            assert(string_views(self.street_lines@).take(i + 1).drop_last() == string_views(
                self.street_lines@,
            ).take(i as int));
            i = i + 1;
        }
        assert(string_views(self.street_lines@).take(self.street_lines@.len() as int)
            == string_views(self.street_lines@));
        push_str(&mut out, self.city.as_str());
        push_one(&mut out, ',');
        push_one(&mut out, ' ');
        push_str(&mut out, self.province.as_str());
        push_one(&mut out, ' ');
        push_str(&mut out, self.postal_code.as_str());
        assert(out@ =~= ca_pretty_text(self@));
        out
    }

    /// The address as a JSON object with the fields `street_lines`, `city`,
    /// `province` and `postal_code`.
    pub fn to_json(&self) -> (r: String)
        ensures
            r@ == ca_address_json(self@),
    {
        let mut street = String::new();
        let mut i: usize = 0;
        while i < self.street_lines.len()
            invariant
                i <= self.street_lines@.len(),
                street@ == join(json_quoted_all(string_views(self.street_lines@)).take(i as int), ','),
            decreases self.street_lines@.len() - i,
        {
            if i > 0 {
                push_one(&mut street, ',');
            }
            let chars = chars_of(self.street_lines[i].as_str());
            push_json_quoted(&mut street, chars.as_slice());
            let ghost q = json_quoted_all(string_views(self.street_lines@));
            assert(q.take(i + 1).drop_last() == q.take(i as int));
            assert(q.take(i + 1).last() == json_quoted(self.street_lines@[i as int]@));
            if i == 0 {
                assert(q.take(1) == seq![q[0]]);
            }
            i = i + 1;
        }
        assert(json_quoted_all(string_views(self.street_lines@)).take(
            self.street_lines@.len() as int,
        ) == json_quoted_all(string_views(self.street_lines@)));
        let mut out = String::new();
        push_str(&mut out, "{\"street_lines\":[");
        push_str(&mut out, street.as_str());
        push_str(&mut out, "],\"city\":");
        push_json_quoted(&mut out, chars_of(self.city.as_str()).as_slice());
        push_str(&mut out, ",\"province\":");
        push_json_quoted(&mut out, chars_of(self.province.as_str()).as_slice());
        push_str(&mut out, ",\"postal_code\":");
        push_json_quoted(&mut out, chars_of(self.postal_code.as_str()).as_slice());
        push_str(&mut out, "}");
        assert(out@ =~= ca_address_json(self@));
        out
    }
}

/// The human-readable description of an error.
pub open spec fn ca_error_message(e: CaParseFailure) -> Seq<char> {
    match e {
        CaParseFailure::Empty => "input is empty"@,
        CaParseFailure::MissingStreet => "missing street line"@,
        CaParseFailure::MissingCityProvincePostal => "missing city/province/postal code line"@,
        CaParseFailure::MalformedCityProvincePostal(line) =>
            "could not parse city/province/postal code line: "@ + debug_text(line),
        CaParseFailure::UnknownProvince(code) => "unrecognized province code: "@ + debug_text(
            code,
        ),
        CaParseFailure::InvalidPostalCode(code) => "invalid postal code: "@ + debug_text(code),
    }
}

/// The JSON object reporting an error.
pub open spec fn ca_error_json(e: CaParseFailure) -> Seq<char> {
    "{\"error\":"@ + json_quoted(ca_error_message(e)) + "}"@
}

impl CaParseError {
    /// The human-readable description of the error.
    pub fn message(&self) -> (r: String)
        ensures
            r@ == ca_error_message(self@),
    {
        let mut out = String::new();
        match self {
            CaParseError::Empty => push_str(&mut out, "input is empty"),
            CaParseError::MissingStreet => push_str(&mut out, "missing street line"),
            CaParseError::MissingCityProvincePostal => push_str(
                &mut out,
                "missing city/province/postal code line",
            ),
            CaParseError::MalformedCityProvincePostal(line) => {
                push_str(&mut out, "could not parse city/province/postal code line: ");
                push_str(&mut out, debug_quote(line.as_str()).as_str());
            },
            CaParseError::UnknownProvince(code) => {
                push_str(&mut out, "unrecognized province code: ");
                push_str(&mut out, debug_quote(code.as_str()).as_str());
            },
            CaParseError::InvalidPostalCode(code) => {
                push_str(&mut out, "invalid postal code: ");
                push_str(&mut out, debug_quote(code.as_str()).as_str());
            },
        }
        out
    }

    /// The error as a JSON object with one field, `error`, holding its message.
    pub fn to_json(&self) -> (r: String)
        ensures
            r@ == ca_error_json(self@),
    {
        let msg = self.message();
        let mut out = String::new();
        push_str(&mut out, "{\"error\":");
        push_json_quoted(&mut out, chars_of(msg.as_str()).as_slice());
        push_str(&mut out, "}");
        out
    }
}

} // verus!
