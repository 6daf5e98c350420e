//! The code tables the parsers accept, each stated as its own list and
//! proved to be exactly what the parsers use.
use vstd::prelude::*;

use crate::address::{canonical_suffix, is_us_state};
use crate::international::is_ca_province;

verus! {

/// The state codes accepted are exactly the 56 two-letter USPS codes: the
/// 50 states, DC, and PR, VI, GU, AS and MP.
pub proof fn law_us_state_codes(code: Seq<char>)
    ensures
        is_us_state(code) <==> set![
            seq!['A', 'L'], seq!['A', 'K'], seq!['A', 'Z'], seq!['A', 'R'], seq!['C', 'A'], seq!['C', 'O'],
            seq!['C', 'T'], seq!['D', 'E'], seq!['F', 'L'], seq!['G', 'A'], seq!['H', 'I'], seq!['I', 'D'],
            seq!['I', 'L'], seq!['I', 'N'], seq!['I', 'A'], seq!['K', 'S'], seq!['K', 'Y'], seq!['L', 'A'],
            seq!['M', 'E'], seq!['M', 'D'], seq!['M', 'A'], seq!['M', 'I'], seq!['M', 'N'], seq!['M', 'S'],
            seq!['M', 'O'], seq!['M', 'T'], seq!['N', 'E'], seq!['N', 'V'], seq!['N', 'H'], seq!['N', 'J'],
            seq!['N', 'M'], seq!['N', 'Y'], seq!['N', 'C'], seq!['N', 'D'], seq!['O', 'H'], seq!['O', 'K'],
            seq!['O', 'R'], seq!['P', 'A'], seq!['R', 'I'], seq!['S', 'C'], seq!['S', 'D'], seq!['T', 'N'],
            seq!['T', 'X'], seq!['U', 'T'], seq!['V', 'T'], seq!['V', 'A'], seq!['W', 'A'], seq!['W', 'V'],
            seq!['W', 'I'], seq!['W', 'Y'], seq!['D', 'C'], seq!['P', 'R'], seq!['V', 'I'], seq!['G', 'U'],
            seq!['A', 'S'], seq!['M', 'P'],
        ].contains(code),
{
    if is_us_state(code) {
        assert(code =~= seq![code[0], code[1]]);
    }
}

/// The province codes accepted are exactly the 13 Canada Post codes of the
/// provinces and territories.
pub proof fn law_ca_province_codes(code: Seq<char>)
    ensures
        is_ca_province(code) <==> set![
            seq!['A', 'B'], seq!['B', 'C'], seq!['M', 'B'], seq!['N', 'B'], seq!['N', 'L'], seq!['N', 'S'],
            seq!['N', 'T'], seq!['N', 'U'], seq!['O', 'N'], seq!['P', 'E'], seq!['Q', 'C'], seq!['S', 'K'],
            seq!['Y', 'T'],
        ].contains(code),
{
    if is_ca_province(code) {
        assert(code =~= seq![code[0], code[1]]);
    }
}

/// The street suffix spellings recognized (lowercase), each paired with its
/// USPS Publication 28 abbreviation: the lookup gives a spelling's
/// abbreviation exactly when the pair is listed here, and nothing for a
/// spelling that is not listed.
pub proof fn law_street_suffix_table(v: Seq<char>, c: Seq<char>)
    ensures
        canonical_suffix(v) == Some(c) <==> set![
            (seq!['s', 't', 'r', 'e', 'e', 't'], seq!['S', 't']),
            (seq!['s', 't', 'r'], seq!['S', 't']),
            (seq!['s', 't', 'r', 't'], seq!['S', 't']),
            (seq!['s', 't'], seq!['S', 't']),
            (seq!['a', 'v', 'e', 'n', 'u', 'e'], seq!['A', 'v', 'e']),
            (seq!['a', 'v', 'e', 'n'], seq!['A', 'v', 'e']),
            (seq!['a', 'v', 'n'], seq!['A', 'v', 'e']),
            (seq!['a', 'v'], seq!['A', 'v', 'e']),
            (seq!['a', 'v', 'e'], seq!['A', 'v', 'e']),
            (seq!['b', 'o', 'u', 'l', 'e', 'v', 'a', 'r', 'd'], seq!['B', 'l', 'v', 'd']),
            (seq!['b', 'o', 'u', 'l'], seq!['B', 'l', 'v', 'd']),
            (seq!['b', 'o', 'u', 'l', 'v'], seq!['B', 'l', 'v', 'd']),
            (seq!['b', 'l', 'v', 'd'], seq!['B', 'l', 'v', 'd']),
            (seq!['d', 'r', 'i', 'v', 'e'], seq!['D', 'r']),
            (seq!['d', 'r', 'i', 'v'], seq!['D', 'r']),
            (seq!['d', 'r', 'v'], seq!['D', 'r']),
            (seq!['d', 'r'], seq!['D', 'r']),
            (seq!['c', 'o', 'u', 'r', 't'], seq!['C', 't']),
            (seq!['c', 'r', 't'], seq!['C', 't']),
            (seq!['c', 't'], seq!['C', 't']),
            (seq!['l', 'a', 'n', 'e'], seq!['L', 'n']),
            (seq!['l', 'n'], seq!['L', 'n']),
            (seq!['r', 'o', 'a', 'd'], seq!['R', 'd']),
            (seq!['r', 'd'], seq!['R', 'd']),
            (seq!['p', 'l', 'a', 'c', 'e'], seq!['P', 'l']),
            (seq!['p', 'l'], seq!['P', 'l']),
            (seq!['t', 'e', 'r', 'r', 'a', 'c', 'e'], seq!['T', 'e', 'r']),
            (seq!['t', 'e', 'r', 'r'], seq!['T', 'e', 'r']),
            (seq!['t', 'e', 'r'], seq!['T', 'e', 'r']),
            (seq!['c', 'i', 'r', 'c', 'l', 'e'], seq!['C', 'i', 'r']),
            (seq!['c', 'i', 'r', 'c'], seq!['C', 'i', 'r']),
            (seq!['c', 'r', 'c', 'l'], seq!['C', 'i', 'r']),
            (seq!['c', 'i', 'r'], seq!['C', 'i', 'r']),
            (seq!['w', 'a', 'y'], seq!['W', 'a', 'y']),
            (seq!['w', 'y'], seq!['W', 'a', 'y']),
            (seq!['p', 'a', 'r', 'k', 'w', 'a', 'y'], seq!['P', 'k', 'w', 'y']),
            (seq!['p', 'k', 'w', 'y'], seq!['P', 'k', 'w', 'y']),
            (seq!['p', 'k', 'y'], seq!['P', 'k', 'w', 'y']),
            (seq!['h', 'i', 'g', 'h', 'w', 'a', 'y'], seq!['H', 'w', 'y']),
            (seq!['h', 'w', 'y'], seq!['H', 'w', 'y']),
            (seq!['h', 'i', 'w', 'y'], seq!['H', 'w', 'y']),
            (seq!['t', 'r', 'a', 'i', 'l'], seq!['T', 'r', 'l']),
            (seq!['t', 'r', 'l'], seq!['T', 'r', 'l']),
            (seq!['s', 'q', 'u', 'a', 'r', 'e'], seq!['S', 'q']),
            (seq!['s', 'q'], seq!['S', 'q']),
            (seq!['l', 'o', 'o', 'p'], seq!['L', 'o', 'o', 'p']),
            (seq!['l', 'p'], seq!['L', 'o', 'o', 'p']),
            (seq!['a', 'l', 'l', 'e', 'y'], seq!['A', 'l', 'y']),
            (seq!['a', 'l', 'y'], seq!['A', 'l', 'y']),
            (seq!['c', 'r', 'o', 's', 's', 'i', 'n', 'g'], seq!['X', 'i', 'n', 'g']),
            (seq!['x', 'i', 'n', 'g'], seq!['X', 'i', 'n', 'g']),
            (seq!['e', 'x', 't', 'e', 'n', 's', 'i', 'o', 'n'], seq!['E', 'x', 't']),
            (seq!['e', 'x', 't'], seq!['E', 'x', 't']),
            (seq!['j', 'u', 'n', 'c', 't', 'i', 'o', 'n'], seq!['J', 'c', 't']),
            (seq!['j', 'c', 't'], seq!['J', 'c', 't']),
            (seq!['t', 'u', 'r', 'n', 'p', 'i', 'k', 'e'], seq!['T', 'p', 'k', 'e']),
            (seq!['t', 'p', 'k', 'e'], seq!['T', 'p', 'k', 'e']),
            (seq!['p', 'o', 'i', 'n', 't'], seq!['P', 't']),
            (seq!['p', 't'], seq!['P', 't']),
            (seq!['r', 'i', 'd', 'g', 'e'], seq!['R', 'd', 'g']),
            (seq!['r', 'd', 'g'], seq!['R', 'd', 'g']),
        ].contains((v, c)),
{
    // The length and the first characters of `v` tell the listed spellings apart.
    assert(seq![v[0], v[1], v[2], v[3], v[4], v[5], v[6], v[7], v[8]].len() + v.len() >= 9);
}


} // verus!
