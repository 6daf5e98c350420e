//! Properties of the parsers that hold for every input.
use vstd::prelude::*;

use crate::address::{
    joined_groups, AddressView,
    ParseFailure, ValidationMode, blocks_of, canonical_suffix, city_state_zip_parts,
    is_us_state, line_groups, lines_block, normalized_street_line, normalized_street_lines,
    normalized_word, normalized_words, normalized_zip, parsed, zero_padded, pretty_text,
    trim_punct_end, well_formed_zip, zip_start, zip_without_extension,
};
use crate::international::{
    ca_pretty_text, city_province_postal_parts, has_postal_shape, is_ca_province,
    normalized_postal_code, parsed_ca, CaParseFailure, CanadianAddressView,
};
use crate::text::{
    lemma_split_on_concat, lemma_runs_break, lemma_runs_items, strip_cr,
    all_ascii, all_digits, content_lines, first_index_of, first_ws_index, is_digit, is_letter,
    is_trimmed, is_ws, join, lacks, last_index_of, last_ws_index, lemma_content_lines,
    lemma_filter_all, lemma_first_index_of, lemma_join_lacks, lemma_join_prefix,
    lemma_join_split, lemma_last_index_after, lemma_lines_of_join, lemma_lines_of_lack_newline,
    lemma_runs_all, lemma_split_on_join, lemma_split_on_pieces, lemma_split_on_pieces_lack,
    lemma_subrange_lacks, lemma_trim, lemma_trim_end, lemma_trim_fixed, lemma_trim_lead_space,
    lemma_trim_strip_cr, lemma_two_words, lemma_words_of_trim, lines_of, lowercase_of, runs, split_on, strip_crs,
    trim, trim_end, trim_offset, trim_start, uppercase_of, without_ws,
};

verus! {

/// Whatever strict mode accepts, lenient mode accepts as the same address
/// (lenient only adds recoveries).
pub proof fn law_strict_success_carries_to_lenient(input: Seq<char>)
    requires
        parsed(input, ValidationMode::Strict) is Ok,
    ensures
        parsed(input, ValidationMode::Lenient) == parsed(input, ValidationMode::Strict),
{
    let lines = content_lines(input);
    let last = lines.last();
    assert(last_index_of(last, ',') is Some);
    assert(city_state_zip_parts(last, ValidationMode::Lenient) == city_state_zip_parts(
        last,
        ValidationMode::Strict,
    ));
}

/// What lenient mode rejects, strict mode rejects too.
pub proof fn law_lenient_failure_is_strict_failure(input: Seq<char>)
    requires
        parsed(input, ValidationMode::Lenient) is Err,
    ensures
        parsed(input, ValidationMode::Strict) is Err,
{
    if parsed(input, ValidationMode::Strict) is Ok {
        law_strict_success_carries_to_lenient(input);
    }
}

/// Lenient mode recovers from exactly two slips: where it accepts what
/// strict mode does not, the city/state/zip line has no comma, or its zip
/// is not well-formed (and was repaired).
pub proof fn law_lenient_recovers_only_comma_or_zip(input: Seq<char>)
    requires
        parsed(input, ValidationMode::Lenient) is Ok,
        parsed(input, ValidationMode::Strict) != parsed(input, ValidationMode::Lenient),
    ensures
        ({
            let last = content_lines(input).last();
            ||| last_index_of(last, ',') is None
            ||| !well_formed_zip(city_state_zip_parts(last, ValidationMode::Lenient)->Ok_0.2)
        }),
{
}

/// A parsed address has at least one street line, a non-empty city, a
/// USPS state code, and a zip of 5 digits or 5+4 digits.
pub proof fn law_parsed_address_is_valid(input: Seq<char>, mode: ValidationMode)
    requires
        parsed(input, mode) is Ok,
    ensures
        ({
            let a = parsed(input, mode)->Ok_0;
            &&& a.street_lines.len() >= 1
            &&& a.city.len() > 0
            &&& is_us_state(a.state)
            &&& well_formed_zip(a.zip)
        }),
{
    let lines = content_lines(input);
    let (city, state, zip) = city_state_zip_parts(lines.last(), mode)->Ok_0;
    let z = normalized_zip(zip, mode)->Some_0;
    assert(well_formed_zip(z));
}

/// Input without a blank line is a single address: splitting it into
/// blocks gives exactly one block, and that block parses just as the whole
/// input does.
pub proof fn law_single_block(input: Seq<char>, mode: ValidationMode)
    requires
        lines_of(input).len() > 0,
        forall|i: int| 0 <= i < lines_of(input).len() ==> trim(#[trigger] lines_of(input)[i]).len() > 0,
    ensures
        blocks_of(input).len() == 1,
        parsed(blocks_of(input)[0], mode) == parsed(input, mode),
{
    let ls = lines_of(input);
    let keep = |l: Seq<char>| trim(l).len() > 0;
    lemma_runs_all(ls, keep);
    assert(line_groups(input) == seq![ls]);
    let b = join(ls, '\n');
    assert(blocks_of(input) =~= seq![b]);
    lemma_lines_of_lack_newline(input);
    lemma_trim(ls.last());
    assert(trim(ls[ls.len() - 1]).len() > 0);
    lemma_lines_of_join(ls);
    let l2 = strip_crs(ls.drop_last()).push(ls.last());
    assert(lines_of(b) == l2);
    assert forall|i: int| 0 <= i < ls.len() implies trim(#[trigger] l2[i]) == trim(ls[i]) by {
        if i < ls.len() - 1 {
            lemma_trim_strip_cr(ls[i]);
        }
    }
    assert(l2.map_values(|l: Seq<char>| trim(l)) =~= ls.map_values(|l: Seq<char>| trim(l)));
    assert(content_lines(b) == content_lines(input));
}

// ---------------------------------------------------------------------------
// Street lines are canonical once normalized
// ---------------------------------------------------------------------------

/// A comma or a period.
pub open spec fn is_punct(c: char) -> bool {
    c == ',' || c == '.'
}

/// Every canonical abbreviation is ASCII letters that normalize to itself.
proof fn lemma_canonical_fixed(v: Seq<char>, c: Seq<char>)
    requires
        canonical_suffix(v) == Some(c),
    ensures
        canonical_suffix(lowercase_of(c)) == Some(c),
        c.len() > 0,
        forall|j: int| 0 <= j < c.len() ==> is_letter(#[trigger] c[j]),
{
    if c == seq!['S', 't'] {
        assert(lowercase_of(c) =~= seq!['s', 't']);
    } else if c == seq!['A', 'v', 'e'] {
        assert(lowercase_of(c) =~= seq!['a', 'v', 'e']);
    } else if c == seq!['B', 'l', 'v', 'd'] {
        assert(lowercase_of(c) =~= seq!['b', 'l', 'v', 'd']);
    } else if c == seq!['D', 'r'] {
        assert(lowercase_of(c) =~= seq!['d', 'r']);
    } else if c == seq!['C', 't'] {
        assert(lowercase_of(c) =~= seq!['c', 't']);
    } else if c == seq!['L', 'n'] {
        assert(lowercase_of(c) =~= seq!['l', 'n']);
    } else if c == seq!['R', 'd'] {
        assert(lowercase_of(c) =~= seq!['r', 'd']);
    } else if c == seq!['P', 'l'] {
        assert(lowercase_of(c) =~= seq!['p', 'l']);
    } else if c == seq!['T', 'e', 'r'] {
        assert(lowercase_of(c) =~= seq!['t', 'e', 'r']);
    } else if c == seq!['C', 'i', 'r'] {
        assert(lowercase_of(c) =~= seq!['c', 'i', 'r']);
    } else if c == seq!['W', 'a', 'y'] {
        assert(lowercase_of(c) =~= seq!['w', 'a', 'y']);
    } else if c == seq!['P', 'k', 'w', 'y'] {
        assert(lowercase_of(c) =~= seq!['p', 'k', 'w', 'y']);
    } else if c == seq!['H', 'w', 'y'] {
        assert(lowercase_of(c) =~= seq!['h', 'w', 'y']);
    } else if c == seq!['T', 'r', 'l'] {
        assert(lowercase_of(c) =~= seq!['t', 'r', 'l']);
    } else if c == seq!['S', 'q'] {
        assert(lowercase_of(c) =~= seq!['s', 'q']);
    } else if c == seq!['L', 'o', 'o', 'p'] {
        assert(lowercase_of(c) =~= seq!['l', 'o', 'o', 'p']);
    } else if c == seq!['A', 'l', 'y'] {
        assert(lowercase_of(c) =~= seq!['a', 'l', 'y']);
    } else if c == seq!['X', 'i', 'n', 'g'] {
        assert(lowercase_of(c) =~= seq!['x', 'i', 'n', 'g']);
    } else if c == seq!['E', 'x', 't'] {
        assert(lowercase_of(c) =~= seq!['e', 'x', 't']);
    } else if c == seq!['J', 'c', 't'] {
        assert(lowercase_of(c) =~= seq!['j', 'c', 't']);
    } else if c == seq!['T', 'p', 'k', 'e'] {
        assert(lowercase_of(c) =~= seq!['t', 'p', 'k', 'e']);
    } else if c == seq!['P', 't'] {
        assert(lowercase_of(c) =~= seq!['p', 't']);
    } else if c == seq!['R', 'd', 'g'] {
        assert(lowercase_of(c) =~= seq!['r', 'd', 'g']);
    }
}

/// `trim_punct_end(w)` is the prefix of `w` before its run of trailing
/// commas and periods.
proof fn lemma_trim_punct_end(w: Seq<char>)
    ensures
        trim_punct_end(w).len() <= w.len(),
        trim_punct_end(w) == w.take(trim_punct_end(w).len() as int),
        forall|j: int| trim_punct_end(w).len() <= j < w.len() ==> is_punct(#[trigger] w[j]),
        trim_punct_end(w).len() > 0 ==> !is_punct(trim_punct_end(w).last()),
    decreases w.len(),
{
    if w.len() > 0 && (w.last() == ',' || w.last() == '.') {
        let d = w.drop_last();
        lemma_trim_punct_end(d);
        assert(d.take(trim_punct_end(w).len() as int) =~= w.take(trim_punct_end(w).len() as int));
        assert forall|j: int| trim_punct_end(w).len() <= j < w.len() implies is_punct(
            #[trigger] w[j],
        ) by {
            if j < d.len() {
                assert(w[j] == d[j]);
            }
        }
    } else {
        assert(w.take(w.len() as int) =~= w);
    }
}

/// Trailing punctuation after a word that does not end in punctuation is
/// exactly what `trim_punct_end` drops.
proof fn lemma_trim_punct_append(x: Seq<char>, y: Seq<char>)
    requires
        x.len() == 0 || !is_punct(x.last()),
        forall|j: int| 0 <= j < y.len() ==> is_punct(#[trigger] y[j]),
    ensures
        trim_punct_end(x + y) == x,
    decreases y.len(),
{
    if y.len() == 0 {
        assert(x + y =~= x);
    } else {
        let d = y.drop_last();
        assert(forall|j: int| 0 <= j < d.len() ==> #[trigger] d[j] == y[j]);
        lemma_trim_punct_append(x, d);
        assert((x + y).drop_last() =~= x + d);
        assert(is_punct(y[y.len() - 1]));
    }
}

/// A street-line word whose spelling, ignoring case, is a recognized suffix
/// spelling (see `law_street_suffix_table`) comes out as that suffix's
/// abbreviation, any trailing commas and periods kept; any other word comes
/// out unchanged.
pub proof fn law_suffix_word(w: Seq<char>, p: Seq<char>)
    requires
        w.len() == 0 || !is_punct(w.last()),
        forall|j: int| 0 <= j < p.len() ==> is_punct(#[trigger] p[j]),
    ensures
        canonical_suffix(lowercase_of(w)) matches Some(c) ==> normalized_word(w + p) == c + p,
        canonical_suffix(lowercase_of(w)) is None ==> normalized_word(w + p) == w + p,
{
    lemma_trim_punct_append(w, p);
    assert((w + p).skip(w.len() as int) =~= p);
}

/// A street line is normalized word by word, a word being what single
/// spaces separate: each word is replaced in place by its normalized form,
/// and the spaces stay where they were.
pub proof fn law_street_line_words(ws: Seq<Seq<char>>)
    requires
        ws.len() >= 1,
        forall|i: int| 0 <= i < ws.len() ==> lacks(#[trigger] ws[i], ' '),
    ensures
        normalized_street_line(join(ws, ' ')) == join(
            ws.map_values(|w: Seq<char>| normalized_word(w)),
            ' ',
        ),
{
    lemma_split_on_join(ws, ' ');
}

/// A street line none of whose words is a suffix spelling comes out
/// exactly as it went in.
pub proof fn law_street_line_without_suffix(l: Seq<char>)
    requires
        forall|i: int|
            0 <= i < split_on(l, ' ').len() ==> canonical_suffix(
                lowercase_of(trim_punct_end(#[trigger] split_on(l, ' ')[i])),
            ) is None,
    ensures
        normalized_street_line(l) == l,
{
    let ws = split_on(l, ' ');
    assert(normalized_words(ws) =~= ws);
    lemma_join_split(l, ' ');
}

/// A normalized word keeps its shape and normalizes to itself.
proof fn lemma_normalized_word(w: Seq<char>)
    requires
        lacks(w, ' '),
        lacks(w, '\n'),
    ensures
        lacks(normalized_word(w), ' '),
        lacks(normalized_word(w), '\n'),
        normalized_word(normalized_word(w)) == normalized_word(w),
        w.len() > 0 && !is_ws(w[0]) ==> normalized_word(w).len() > 0 && !is_ws(
            normalized_word(w)[0],
        ),
        w.len() > 0 && !is_ws(w.last()) ==> normalized_word(w).len() > 0 && !is_ws(
            normalized_word(w).last(),
        ),
{
    let t = trim_punct_end(w);
    lemma_trim_punct_end(w);
    match canonical_suffix(lowercase_of(t)) {
        Some(c) => {
            lemma_canonical_fixed(lowercase_of(t), c);
            let tr = w.skip(t.len() as int);
            let nw = c + tr;
            assert(normalized_word(w) == nw);
            assert forall|j: int| 0 <= j < tr.len() implies is_punct(#[trigger] tr[j]) by {
                assert(tr[j] == w[t.len() + j]);
            }
            assert(!is_punct(c[c.len() - 1]));
            lemma_trim_punct_append(c, tr);
            assert(nw.skip(c.len() as int) =~= tr);
            assert forall|j: int| 0 <= j < nw.len() implies #[trigger] nw[j] != ' ' && nw[j]
                != '\n' by {
                if j < c.len() {
                    assert(is_letter(c[j]));
                } else {
                    assert(is_punct(tr[j - c.len()]));
                }
            }
            assert(is_letter(c[0]));
            assert(nw[0] == c[0]);
            if tr.len() > 0 {
                assert(nw.last() == tr.last());
                assert(tr.last() == w.last());
            } else {
                assert(nw.last() == c.last());
                assert(is_letter(c[c.len() - 1]));
            }
        },
        None => {},
    }
}

/// A normalized street line is non-empty, trimmed, free of line breaks,
/// and normalizes to itself.
pub proof fn lemma_normalized_street_line(l: Seq<char>)
    requires
        l.len() > 0,
        is_trimmed(l),
        lacks(l, '\n'),
    ensures
        normalized_street_line(l).len() > 0,
        is_trimmed(normalized_street_line(l)),
        lacks(normalized_street_line(l), '\n'),
        normalized_street_line(normalized_street_line(l)) == normalized_street_line(l),
{
    let ws = split_on(l, ' ');
    lemma_split_on_pieces(l, ' ');
    lemma_split_on_pieces_lack(l, ' ', '\n');
    let nws = normalized_words(ws);
    assert forall|i: int| 0 <= i < ws.len() implies {
        &&& lacks(#[trigger] nws[i], ' ')
        &&& lacks(nws[i], '\n')
        &&& normalized_word(nws[i]) == nws[i]
        &&& ws[i].len() > 0 && !is_ws(ws[i][0]) ==> nws[i].len() > 0 && !is_ws(nws[i][0])
        &&& ws[i].len() > 0 && !is_ws(ws[i].last()) ==> nws[i].len() > 0 && !is_ws(
            nws[i].last(),
        )
    } by {
        lemma_normalized_word(ws[i]);
    }
    lemma_join_split(l, ' ');
    lemma_join_prefix(ws, ' ');
    let n = ws.len();
    // The first piece starts the line.
    if ws[0].len() == 0 {
        if n > 1 {
            assert(l[0] == ' ');
        } else {
            assert(l == ws[0]);
        }
    }
    assert(l[0] == ws[0][0]);
    // The last piece ends the line.
    if n > 1 {
        let x = join(ws.drop_last(), ' ');
        assert(l == x.push(' ') + ws.last());
        if ws.last().len() == 0 {
            assert(l.last() == ' ');
        }
        assert(l.last() == ws.last().last());
    } else {
        assert(l == ws[0]);
    }
    let nl = join(nws, ' ');
    lemma_join_prefix(nws, ' ');
    assert(nl[0] == nws[0][0]);
    if n > 1 {
        let y = join(nws.drop_last(), ' ');
        assert(nl == y.push(' ') + nws.last());
        assert(nl.last() == nws.last().last());
    } else {
        assert(nl == nws[0]);
    }
    lemma_join_lacks(nws, ' ', '\n');
    lemma_split_on_join(nws, ' ');
    assert(normalized_words(nws) =~= nws);
}

// ---------------------------------------------------------------------------
// The canonical rendering parses back to the same address
// ---------------------------------------------------------------------------

/// `last_index_of` finds the character inside the text.
proof fn lemma_last_index_of(s: Seq<char>, c: char)
    ensures
        last_index_of(s, c) matches Some(i) ==> 0 <= i < s.len() && s[i] == c,
    decreases s.len(),
{
    if s.len() > 0 && s.last() != c {
        lemma_last_index_of(s.drop_last(), c);
    }
}

/// `last_ws_index` finds a whitespace character inside the text.
proof fn lemma_last_ws_index(s: Seq<char>)
    ensures
        last_ws_index(s) matches Some(i) ==> 0 <= i < s.len() && is_ws(s[i]),
    decreases s.len(),
{
    if s.len() > 0 && !is_ws(s.last()) {
        lemma_last_ws_index(s.drop_last());
    }
}

/// Lines each ended by `\n`, then a last line, are those lines joined by `\n`.
proof fn lemma_lines_block_join(ls: Seq<Seq<char>>, x: Seq<char>)
    ensures
        lines_block(ls) + x == join(ls.push(x), '\n'),
    decreases ls.len(),
{
    if ls.len() == 0 {
        assert(lines_block(ls) + x =~= x);
        assert(ls.push(x) =~= seq![x]);
    } else {
        let d = ls.drop_last();
        lemma_lines_block_join(d, ls.last());
        assert(d.push(ls.last()) =~= ls);
        assert(ls.push(x).drop_last() =~= ls);
        assert(lines_block(ls) + x =~= (lines_block(d) + ls.last()).push('\n') + x);
    }
}

/// The content lines of rendered lines are the lines themselves, when each
/// is non-empty, trimmed and free of line breaks.
proof fn lemma_content_lines_of_block(ls: Seq<Seq<char>>, last: Seq<char>)
    requires
        forall|i: int|
            0 <= i < ls.len() ==> (#[trigger] ls[i]).len() > 0 && is_trimmed(ls[i]) && lacks(
                ls[i],
                '\n',
            ),
        last.len() > 0,
        is_trimmed(last),
        lacks(last, '\n'),
    ensures
        content_lines(lines_block(ls) + last) == ls.push(last),
{
    let all = ls.push(last);
    lemma_lines_block_join(ls, last);
    assert forall|i: int| 0 <= i < all.len() implies lacks(#[trigger] all[i], '\n') by {
        if i < ls.len() {
            assert(all[i] == ls[i]);
        }
    }
    assert(all.drop_last() =~= ls);
    lemma_lines_of_join(all);
    assert forall|i: int| 0 <= i < ls.len() implies #[trigger] strip_crs(ls)[i] == ls[i] by {
        assert(ls[i].last() != '\r');
    }
    assert(strip_crs(ls) =~= ls);
    let m = all.map_values(|l: Seq<char>| trim(l));
    assert forall|i: int| 0 <= i < all.len() implies #[trigger] m[i] == all[i] by {
        if i < ls.len() {
            lemma_trim_fixed(ls[i]);
        } else {
            lemma_trim_fixed(last);
        }
    }
    assert(m =~= all);
    lemma_filter_all(all, |t: Seq<char>| t.len() > 0);
}

/// The city split out of a content line is non-empty, trimmed and free of
/// line breaks.
proof fn lemma_city_shape(line: Seq<char>, mode: ValidationMode)
    requires
        line.len() > 0,
        is_trimmed(line),
        lacks(line, '\n'),
        city_state_zip_parts(line, mode) is Ok,
    ensures
        ({
            let city = city_state_zip_parts(line, mode)->Ok_0.0;
            city.len() > 0 && is_trimmed(city) && lacks(city, '\n')
        }),
{
    let city = city_state_zip_parts(line, mode)->Ok_0.0;
    match last_index_of(line, ',') {
        Some(p) => {
            lemma_last_index_of(line, ',');
            let h = line.take(p);
            lemma_subrange_lacks(line, '\n', 0, p);
            assert(line.subrange(0, p) == h);
            lemma_trim(h);
            lemma_subrange_lacks(h, '\n', trim_offset(h), trim_offset(h) + trim(h).len());
        },
        None => {
            let zs = zip_start(line);
            lemma_last_ws_index(line);
            let h = line.take(zs);
            lemma_trim_end(h);
            let bz = trim_end(h);
            lemma_last_ws_index(bz);
            let i = last_ws_index(bz)->Some_0;
            let g = bz.take(i);
            lemma_trim_end(g);
            let m = city.len() as int;
            assert(city == g.take(m));
            assert(city =~= line.take(m));
            assert(city[0] == line[0]);
            lemma_subrange_lacks(line, '\n', 0, m);
            assert(line.subrange(0, m) == city);
        },
    }
}

/// A USPS code is two uppercase ASCII letters, its own uppercase form.
proof fn lemma_us_state_shape(u: Seq<char>)
    requires
        is_us_state(u),
    ensures
        u.len() == 2,
        forall|j: int| 0 <= j < u.len() ==> 'A' <= #[trigger] u[j] && u[j] <= 'Z',
        uppercase_of(u) == u,
{
    assert('A' <= u[0] && u[0] <= 'Z');
    assert('A' <= u[1] && u[1] <= 'Z');
    assert(crate::text::all_ascii(u));
    assert(uppercase_of(u) =~= u);
}

/// A valid zip is digits and hyphens.
proof fn lemma_zip_shape(z: Seq<char>)
    requires
        well_formed_zip(z),
    ensures
        z.len() >= 5,
        forall|j: int| 0 <= j < z.len() ==> is_digit(#[trigger] z[j]) || z[j] == '-',
{
    assert forall|j: int| 0 <= j < z.len() implies is_digit(#[trigger] z[j]) || z[j] == '-' by {
        if z.len() == 10 {
            if j < 5 {
                assert(z.take(5)[j] == z[j]);
            } else if j > 5 {
                assert(z.skip(6)[j - 6] == z[j]);
            }
        }
    }
}

/// The rendered city/state/zip line splits back into its parts.
proof fn lemma_reparse_city_state_zip(city: Seq<char>, state: Seq<char>, zip: Seq<char>)
    requires
        city.len() > 0,
        is_trimmed(city),
        lacks(city, '\n'),
        state.len() == 2,
        forall|j: int| 0 <= j < state.len() ==> is_letter(#[trigger] state[j]),
        well_formed_zip(zip),
    ensures
        ({
            let csz = city + seq![',', ' '] + state + seq![' '] + zip;
            &&& city_state_zip_parts(csz, ValidationMode::Strict) == Ok::<
                (Seq<char>, Seq<char>, Seq<char>),
                ParseFailure,
            >((city, state, zip))
            &&& csz.len() > 0
            &&& is_trimmed(csz)
            &&& lacks(csz, '\n')
        }),
{
    lemma_zip_shape(zip);
    let csz = city + seq![',', ' '] + state + seq![' '] + zip;
    let x = state.push(' ') + zip;
    let b = seq![' '] + x;
    assert(csz =~= city.push(',') + b);
    assert forall|j: int| 0 <= j < b.len() implies #[trigger] b[j] != ',' by {
        if 1 <= j < 3 {
            assert(b[j] == state[j - 1]);
        } else if j >= 4 {
            assert(b[j] == zip[j - 4]);
        }
    }
    lemma_last_index_after(city, ',', b);
    assert(csz.take(city.len() as int) =~= city);
    lemma_trim_fixed(city);
    assert(csz.skip(city.len() as int + 1) =~= b);
    assert(x[0] == state[0]);
    assert(x.last() == zip.last());
    assert(is_digit(zip[zip.len() - 1]) || zip[zip.len() - 1] == '-');
    lemma_trim_lead_space(x);
    lemma_words_of_trim(b);
    assert forall|j: int| 0 <= j < zip.len() implies !is_ws(#[trigger] zip[j]) by {
        assert(is_digit(zip[j]) || zip[j] == '-');
    }
    lemma_two_words(state, zip);
    assert(csz[0] == city[0]);
    assert(csz.last() == zip.last());
    assert forall|j: int| 0 <= j < csz.len() implies #[trigger] csz[j] != '\n' by {
        if j < city.len() {
            assert(csz[j] == city[j]);
        } else if j > city.len() {
            assert(csz[j] == b[j - city.len() - 1]);
            if j - city.len() - 1 >= 4 {
                assert(b[j - city.len() - 1] == zip[j - city.len() - 5]);
            }
        }
    }
}

/// A zip is accepted as it is exactly when it is 5 ASCII digits, or 5
/// digits, a hyphen and 4 digits.
pub proof fn law_zip_forms(z: Seq<char>)
    ensures
        well_formed_zip(z) <==> {
            ||| z.len() == 5 && forall|j: int| 0 <= j < 5 ==> '0' <= #[trigger] z[j] && z[j] <= '9'
            ||| z.len() == 10 && z[5] == '-' && forall|j: int|
                0 <= j < 10 && j != 5 ==> '0' <= #[trigger] z[j] && z[j] <= '9'
        },
{
    if z.len() == 10 {
        assert forall|j: int| 0 <= j < 5 implies #[trigger] z.take(5)[j] == z[j] by {}
        assert forall|j: int| 0 <= j < 4 implies #[trigger] z.skip(6)[j] == z[j + 6] by {}
        if z[5] == '-' && forall|j: int| 0 <= j < 10 && j != 5 ==> '0' <= #[trigger] z[j] && z[j] <= '9' {
            assert(all_digits(z.take(5)));
            assert forall|j: int| 0 <= j < z.skip(6).len() implies is_digit(#[trigger] z.skip(6)[j]) by {
                assert(z.skip(6)[j] == z[j + 6]);
            }
        }
        if well_formed_zip(z) {
            assert forall|j: int| 0 <= j < 10 && j != 5 implies '0' <= #[trigger] z[j] && z[j] <= '9' by {
                if j < 5 {
                    assert(is_digit(z.take(5)[j]));
                } else {
                    assert(is_digit(z.skip(6)[j - 6]));
                }
            }
        }
    }
}

/// No occurrence, no last occurrence.
proof fn lemma_last_index_of_lacking(s: Seq<char>, c: char)
    requires
        lacks(s, c),
    ensures
        last_index_of(s, c) is None,
    decreases s.len(),
{
    if s.len() > 0 {
        assert(forall|j: int| 0 <= j < s.drop_last().len() ==> #[trigger] s.drop_last()[j] == s[j]);
        lemma_last_index_of_lacking(s.drop_last(), c);
    }
}

/// The last whitespace of text ending in a space and then a stretch without
/// whitespace is that space.
proof fn lemma_last_ws_before(x: Seq<char>, y: Seq<char>)
    requires
        forall|j: int| 0 <= j < y.len() ==> !is_ws(#[trigger] y[j]),
    ensures
        last_ws_index(x.push(' ') + y) == Some(x.len() as int),
    decreases y.len(),
{
    if y.len() == 0 {
        assert(x.push(' ') + y =~= x.push(' '));
    } else {
        let d = y.drop_last();
        assert(forall|j: int| 0 <= j < d.len() ==> #[trigger] d[j] == y[j]);
        lemma_last_ws_before(x, d);
        assert((x.push(' ') + y).drop_last() =~= x.push(' ') + d);
        assert((x.push(' ') + y).last() == y.last());
    }
}

/// In lenient mode a city/state/zip line without a comma is split on its
/// last two whitespace gaps: "City ST ZIP" gives the city, the state and
/// the zip, however many words the city has. Strict mode rejects the line.
pub proof fn law_lenient_split_without_comma(city: Seq<char>, state: Seq<char>, zip: Seq<char>)
    requires
        city.len() > 0,
        is_trimmed(city),
        lacks(city, ','),
        state.len() > 0,
        forall|j: int| 0 <= j < state.len() ==> !is_ws(#[trigger] state[j]) && state[j] != ',',
        zip.len() > 0,
        forall|j: int| 0 <= j < zip.len() ==> !is_ws(#[trigger] zip[j]) && zip[j] != ',',
    ensures
        ({
            let line = city + seq![' '] + state + seq![' '] + zip;
            &&& city_state_zip_parts(line, ValidationMode::Lenient) == Ok::<
                (Seq<char>, Seq<char>, Seq<char>),
                ParseFailure,
            >((city, state, zip))
            &&& city_state_zip_parts(line, ValidationMode::Strict) == Err::<
                (Seq<char>, Seq<char>, Seq<char>),
                ParseFailure,
            >(ParseFailure::MalformedCityStateZip(line))
        }),
{
    let line = city + seq![' '] + state + seq![' '] + zip;
    let head = city + seq![' '] + state;
    assert forall|j: int| 0 <= j < line.len() implies #[trigger] line[j] != ',' by {
        if j < city.len() {
            assert(line[j] == city[j]);
        } else if city.len() < j < head.len() {
            assert(line[j] == state[j - city.len() - 1]);
        } else if j > head.len() {
            assert(line[j] == zip[j - head.len() - 1]);
        }
    }
    lemma_last_index_of_lacking(line, ',');
    assert(line =~= head.push(' ') + zip);
    lemma_last_ws_before(head, zip);
    let zs = head.len() + 1int;
    assert(zip_start(line) == zs);
    assert(line.take(zs) =~= head.push(' '));
    assert(line.skip(zs) =~= zip);
    assert(head.push(' ').drop_last() =~= head);
    assert(head.last() == state.last());
    assert(trim_end(head) == head);
    assert(head =~= city.push(' ') + state);
    lemma_last_ws_before(city, state);
    let i = city.len() as int;
    assert(head.take(i) =~= city);
    assert(head.skip(i + 1) =~= state);
    lemma_trim_end(city);
    assert(trim_end(city) == city);
    assert(state[0] == state[0]);
    assert(trim_end(state) == state);
    assert(trim_start(state) == state);
}

/// In lenient mode a zip that lost leading zeros (1 to 4 digits, with or
/// without a 4-digit extension) gets them back: it is padded with zeros to
/// 5 digits, the extension kept. Strict mode rejects it.
pub proof fn law_lenient_zip_padding(d: Seq<char>, e: Seq<char>)
    requires
        1 <= d.len() < 5,
        forall|j: int| 0 <= j < d.len() ==> '0' <= #[trigger] d[j] && d[j] <= '9',
        e.len() == 4,
        forall|j: int| 0 <= j < e.len() ==> '0' <= #[trigger] e[j] && e[j] <= '9',
    ensures
        ({
            let zeros = Seq::new((5 - d.len()) as nat, |i: int| '0');
            &&& normalized_zip(d, ValidationMode::Lenient) == Some(zeros + d)
            &&& normalized_zip(d, ValidationMode::Strict) is None
            &&& normalized_zip(d + seq!['-'] + e, ValidationMode::Lenient) == Some(
                zeros + d + seq!['-'] + e,
            )
            &&& normalized_zip(d + seq!['-'] + e, ValidationMode::Strict) is None
        }),
{
    let zeros = Seq::new((5 - d.len()) as nat, |i: int| '0');
    let x = d + seq!['-'] + e;
    assert(!well_formed_zip(d));
    assert(!well_formed_zip(x));
    lemma_first_index_of(d, '-');
    assert(first_index_of(d, '-') is None) by {
        if first_index_of(d, '-') is Some {
            let k = first_index_of(d, '-')->Some_0;
            assert(d[k] == '-');
        }
    }
    lemma_first_index_of(x, '-');
    assert(x[d.len() as int] == '-');
    assert(forall|j: int| 0 <= j < d.len() ==> #[trigger] x[j] == d[j]);
    let k = first_index_of(x, '-')->Some_0;
    assert(k == d.len()) by {
        if k < d.len() {
            assert(x[k] == d[k]);
        }
    }
    assert(x.take(k) =~= d);
    assert(x.skip(k + 1) =~= e);
    assert(zero_padded(d) =~= zeros + d);
    assert(all_digits(d));
    let p = zeros + d;
    assert(p.len() == 5);
    assert(forall|j: int| 0 <= j < 5 ==> is_digit(#[trigger] p[j])) by {
        assert forall|j: int| 0 <= j < 5 implies is_digit(#[trigger] p[j]) by {
            if j >= zeros.len() {
                assert(p[j] == d[j - zeros.len()]);
            }
        }
    }
    assert(well_formed_zip(p));
    let q = p + seq!['-'] + e;
    assert(q.take(5) =~= p);
    assert(q.skip(6) =~= e);
    assert(all_digits(e));
    assert(well_formed_zip(q));
    assert(zero_padded(d) + seq!['-'] + x.skip(k + 1) =~= q);
}

/// Under a street line, a line "City, xx ZIP" with a well-formed zip and
/// any two ASCII letters xx parses, in either mode, to that address with
/// the code in capitals exactly when the capitals are a USPS code (see
/// `law_us_state_codes`); any other code is reported, as written, as an
/// unknown state.
pub proof fn law_state_code_decides(
    street: Seq<char>,
    city: Seq<char>,
    code: Seq<char>,
    zip: Seq<char>,
    mode: ValidationMode,
)
    requires
        street.len() > 0,
        is_trimmed(street),
        lacks(street, '\n'),
        city.len() > 0,
        is_trimmed(city),
        lacks(city, '\n'),
        code.len() == 2,
        forall|j: int| 0 <= j < code.len() ==> is_letter(#[trigger] code[j]),
        well_formed_zip(zip),
    ensures
        ({
            let input = street + seq!['\n'] + city + seq![',', ' '] + code + seq![' '] + zip;
            let upper = seq![
                if 'a' <= code[0] && code[0] <= 'z' { ((code[0] as u32) - 32) as char } else { code[0] },
                if 'a' <= code[1] && code[1] <= 'z' { ((code[1] as u32) - 32) as char } else { code[1] },
            ];
            &&& is_us_state(upper) ==> parsed(input, mode) == Ok::<AddressView, ParseFailure>(
                AddressView {
                    street_lines: seq![normalized_street_line(street)],
                    city,
                    state: upper,
                    zip,
                },
            )
            &&& !is_us_state(upper) ==> parsed(input, mode) == Err::<AddressView, ParseFailure>(
                ParseFailure::UnknownState(code),
            )
        }),
{
    let input = street + seq!['\n'] + city + seq![',', ' '] + code + seq![' '] + zip;
    let csz = city + seq![',', ' '] + code + seq![' '] + zip;
    lemma_reparse_city_state_zip(city, code, zip);
    assert(city_state_zip_parts(csz, mode) == city_state_zip_parts(csz, ValidationMode::Strict));
    let ls = seq![street];
    assert(lines_block(ls) =~= street.push('\n')) by {
        assert(ls.drop_last() =~= Seq::<Seq<char>>::empty());
        assert(lines_block(Seq::<Seq<char>>::empty()) =~= Seq::<char>::empty());
        assert(ls.last() == street);
    }
    assert(input =~= lines_block(ls) + csz);
    lemma_content_lines_of_block(ls, csz);
    assert(ls.push(csz).drop_last() =~= ls);
    assert(ls.push(csz).last() == csz);
    assert(crate::text::all_ascii(code));
    let upper = seq![
        if 'a' <= code[0] && code[0] <= 'z' { ((code[0] as u32) - 32) as char } else { code[0] },
        if 'a' <= code[1] && code[1] <= 'z' { ((code[1] as u32) - 32) as char } else { code[1] },
    ];
    assert(uppercase_of(code) =~= upper);
    assert(normalized_street_lines(ls) =~= seq![normalized_street_line(street)]);
}

/// The canonical text shows the state uppercased: an address whose
/// (ASCII) state is written in any case renders just as the one with the
/// state in capitals.
pub proof fn law_pretty_state_uppercased(a: AddressView)
    requires
        all_ascii(a.state),
    ensures
        pretty_text(a) == pretty_text(AddressView { state: uppercase_of(a.state), ..a }),
{
    let u = uppercase_of(a.state);
    assert forall|j: int| 0 <= j < u.len() implies (#[trigger] u[j] as u32) < 0x80 by {
        assert(u[j] == crate::text::ascii_upper_char(a.state[j]));
    }
    assert(uppercase_of(u) =~= u);
}

/// Rendering a parsed address with `to_pretty` and parsing the text again
/// (in strict mode) gives the same address back: the rendering is canonical.
pub proof fn law_pretty_round_trip(input: Seq<char>, mode: ValidationMode)
    requires
        parsed(input, mode) is Ok,
    ensures
        parsed(pretty_text(parsed(input, mode)->Ok_0), ValidationMode::Strict) == parsed(
            input,
            mode,
        ),
{
    let a = parsed(input, mode)->Ok_0;
    law_parsed_address_is_valid(input, mode);
    let lines = content_lines(input);
    lemma_content_lines(input);
    let last = lines.last();
    lemma_city_shape(last, mode);
    let (city, raw_state, raw_zip) = city_state_zip_parts(last, mode)->Ok_0;
    lemma_us_state_shape(a.state);
    let street = a.street_lines;
    let init = lines.drop_last();
    assert(street == normalized_street_lines(init));
    assert forall|i: int| 0 <= i < street.len() implies {
        &&& (#[trigger] street[i]).len() > 0
        &&& is_trimmed(street[i])
        &&& lacks(street[i], '\n')
        &&& normalized_street_line(street[i]) == street[i]
    } by {
        assert(init[i] == lines[i]);
        lemma_normalized_street_line(init[i]);
    }
    lemma_reparse_city_state_zip(a.city, a.state, a.zip);
    let csz = a.city + seq![',', ' '] + a.state + seq![' '] + a.zip;
    assert(uppercase_of(a.state) == a.state);
    assert(pretty_text(a) =~= lines_block(street) + csz);
    lemma_content_lines_of_block(street, csz);
    let again = street.push(csz);
    assert(again.drop_last() =~= street);
    assert(normalized_street_lines(street) =~= street);
}

// ---------------------------------------------------------------------------
// Canadian addresses
// ---------------------------------------------------------------------------

/// A Canada Post code is two uppercase ASCII letters, its own uppercase form.
proof fn lemma_ca_province_shape(u: Seq<char>)
    requires
        is_ca_province(u),
    ensures
        u.len() == 2,
        forall|j: int| 0 <= j < u.len() ==> 'A' <= #[trigger] u[j] && u[j] <= 'Z',
        uppercase_of(u) == u,
{
    assert('A' <= u[0] && u[0] <= 'Z');
    assert('A' <= u[1] && u[1] <= 'Z');
    assert(all_ascii(u));
    assert(uppercase_of(u) =~= u);
}

/// The first whitespace after a run of non-whitespace.
proof fn lemma_first_ws_after(p: Seq<char>, rest: Seq<char>)
    requires
        forall|j: int| 0 <= j < p.len() ==> !is_ws(#[trigger] p[j]),
    ensures
        first_ws_index(p.push(' ') + rest) == Some(p.len() as int),
    decreases p.len(),
{
    if p.len() > 0 {
        let d = p.drop_first();
        assert(forall|j: int| 0 <= j < d.len() ==> #[trigger] d[j] == p[j + 1]);
        lemma_first_ws_after(d, rest);
        assert((p.push(' ') + rest).drop_first() =~= d.push(' ') + rest);
        assert((p.push(' ') + rest)[0] == p[0]);
    } else {
        assert((p.push(' ') + rest)[0] == ' ');
    }
}

/// A normalized postal code is "A1A 1A1" with uppercase letters, and
/// normalizes to itself.
proof fn lemma_postal_code_shape(raw: Seq<char>)
    requires
        normalized_postal_code(raw) is Some,
    ensures
        ({
            let code = normalized_postal_code(raw)->Some_0;
            &&& code.len() == 7
            &&& code[3] == ' '
            &&& 'A' <= code[0] && code[0] <= 'Z'
            &&& 'A' <= code[2] && code[2] <= 'Z'
            &&& 'A' <= code[5] && code[5] <= 'Z'
            &&& is_digit(code[1]) && is_digit(code[4]) && is_digit(code[6])
            &&& normalized_postal_code(code) == Some(code)
        }),
{
    let compact = without_ws(raw);
    assert(has_postal_shape(compact));
    assert(all_ascii(compact));
    let u = uppercase_of(compact);
    assert(u == compact.map_values(|c: char| crate::text::ascii_upper_char(c)));
    assert(u.len() == 6);
    assert('A' <= u[0] && u[0] <= 'Z');
    assert('A' <= u[2] && u[2] <= 'Z');
    assert('A' <= u[4] && u[4] <= 'Z');
    assert(is_digit(u[1]) && is_digit(u[3]) && is_digit(u[5]));
    let code = u.take(3) + seq![' '] + u.skip(3);
    assert(normalized_postal_code(raw) == Some(code));
    let pred = |c: char| !is_ws(c);
    assert forall|j: int| 0 <= j < u.take(3).len() implies pred(#[trigger] u.take(3)[j]) by {}
    assert forall|j: int| 0 <= j < u.skip(3).len() implies pred(#[trigger] u.skip(3)[j]) by {
        assert(u.skip(3)[j] == u[j + 3]);
    }
    lemma_filter_all(u.take(3), pred);
    lemma_filter_all(u.skip(3), pred);
    Seq::filter_distributes_over_add(u.take(3) + seq![' '], u.skip(3), pred);
    Seq::filter_distributes_over_add(u.take(3), seq![' '], pred);
    reveal(Seq::filter);
    assert(Seq::<char>::empty().push(' ') =~= seq![' ']);
    Seq::<char>::empty().lemma_filter_push(' ', pred);
    assert(Seq::<char>::empty().filter(pred) =~= Seq::<char>::empty());
    assert(seq![' '].filter(pred) =~= Seq::<char>::empty());
    assert(without_ws(code) =~= u);
    assert(all_ascii(u));
    assert(uppercase_of(u) =~= u);
}

/// A parsed Canadian address has at least one street line, a non-empty
/// city, a Canada Post province code, and a postal code of the form
/// "A1A 1A1" with uppercase letters.
pub proof fn law_ca_parsed_address_is_valid(input: Seq<char>)
    requires
        parsed_ca(input) is Ok,
    ensures
        ({
            let a = parsed_ca(input)->Ok_0;
            &&& a.street_lines.len() >= 1
            &&& a.city.len() > 0
            &&& is_ca_province(a.province)
            &&& a.postal_code.len() == 7
            &&& a.postal_code[3] == ' '
            &&& 'A' <= a.postal_code[0] && a.postal_code[0] <= 'Z'
            &&& 'A' <= a.postal_code[2] && a.postal_code[2] <= 'Z'
            &&& 'A' <= a.postal_code[5] && a.postal_code[5] <= 'Z'
            &&& is_digit(a.postal_code[1]) && is_digit(a.postal_code[4]) && is_digit(
                a.postal_code[6],
            )
        }),
{
    let lines = content_lines(input);
    let (city, province, postal) = city_province_postal_parts(lines.last())->Ok_0;
    lemma_postal_code_shape(postal);
}

/// Rendering a parsed Canadian address with `to_pretty` and parsing the
/// text again gives the same address back.
pub proof fn law_ca_pretty_round_trip(input: Seq<char>)
    requires
        parsed_ca(input) is Ok,
    ensures
        parsed_ca(ca_pretty_text(parsed_ca(input)->Ok_0)) == parsed_ca(input),
{
    let a = parsed_ca(input)->Ok_0;
    let lines = content_lines(input);
    lemma_content_lines(input);
    let line = lines.last();
    let (raw_city, raw_province, raw_postal) = city_province_postal_parts(line)->Ok_0;
    // The city is a trimmed stretch of the line.
    lemma_last_index_of(line, ',');
    let p = last_index_of(line, ',')->Some_0;
    let h = line.take(p);
    lemma_subrange_lacks(line, '\n', 0, p);
    assert(line.subrange(0, p) == h);
    lemma_trim(h);
    lemma_subrange_lacks(h, '\n', trim_offset(h), trim_offset(h) + trim(h).len());
    let city = a.city;
    assert(city.len() > 0 && is_trimmed(city) && lacks(city, '\n'));
    lemma_ca_province_shape(a.province);
    lemma_postal_code_shape(raw_postal);
    let province = a.province;
    let code = a.postal_code;
    // The rendered last line.
    let x = province.push(' ') + code;
    let b = seq![' '] + x;
    let csz = city + seq![',', ' '] + province + seq![' '] + code;
    assert(csz =~= city.push(',') + b);
    assert forall|j: int| 0 <= j < b.len() implies #[trigger] b[j] != ',' && b[j] != '\n' by {
        if 1 <= j < 3 {
            assert(b[j] == province[j - 1]);
        } else if j >= 4 {
            assert(b[j] == code[j - 4]);
        }
    }
    lemma_last_index_after(city, ',', b);
    assert(csz.take(city.len() as int) =~= city);
    lemma_trim_fixed(city);
    assert(csz.skip(city.len() as int + 1) =~= b);
    assert(x[0] == province[0]);
    assert(x.last() == code[6]);
    lemma_trim_lead_space(x);
    lemma_first_ws_after(province, code);
    assert(x.take(2) =~= province);
    assert(x.skip(3) =~= code);
    assert(is_trimmed(code));
    lemma_trim_fixed(code);
    assert(csz[0] == city[0]);
    assert(csz.last() == code[6]);
    assert forall|j: int| 0 <= j < csz.len() implies #[trigger] csz[j] != '\n' by {
        if j < city.len() {
            assert(csz[j] == city[j]);
        } else if j > city.len() {
            assert(csz[j] == b[j - city.len() - 1]);
        }
    }
    let street = a.street_lines;
    assert(street == lines.drop_last());
    assert forall|i: int| 0 <= i < street.len() implies {
        &&& (#[trigger] street[i]).len() > 0
        &&& is_trimmed(street[i])
        &&& lacks(street[i], '\n')
    } by {
        assert(street[i] == lines[i]);
    }
    assert(ca_pretty_text(a) =~= lines_block(street) + csz);
    lemma_content_lines_of_block(street, csz);
    assert(street.push(csz).drop_last() =~= street);
}

/// A postal code is accepted exactly when, whitespace removed, it is
/// letter, digit, letter, digit, letter, digit (ASCII, either case); it
/// comes out as those six characters with the letters uppercased and one
/// space after the third.
pub proof fn law_postal_code_normalization(raw: Seq<char>)
    ensures
        ({
            let c = without_ws(raw);
            normalized_postal_code(raw) is Some <==> {
                &&& c.len() == 6
                &&& ('a' <= c[0] && c[0] <= 'z') || ('A' <= c[0] && c[0] <= 'Z')
                &&& '0' <= c[1] && c[1] <= '9'
                &&& ('a' <= c[2] && c[2] <= 'z') || ('A' <= c[2] && c[2] <= 'Z')
                &&& '0' <= c[3] && c[3] <= '9'
                &&& ('a' <= c[4] && c[4] <= 'z') || ('A' <= c[4] && c[4] <= 'Z')
                &&& '0' <= c[5] && c[5] <= '9'
            }
        }),
        normalized_postal_code(raw) matches Some(p) ==> {
            let c = without_ws(raw);
            &&& p.len() == 7
            &&& p[3] == ' '
            &&& forall|j: int|
                0 <= j < 6 ==> {
                    let k = if j < 3 { j } else { j + 1 };
                    if 'a' <= #[trigger] c[j] && c[j] <= 'z' {
                        (p[k] as u32) + 32 == (c[j] as u32)
                    } else {
                        p[k] == c[j]
                    }
                }
        },
{
    let c = without_ws(raw);
    if has_postal_shape(c) {
        assert(all_ascii(c));
        let u = uppercase_of(c);
        assert(u == c.map_values(|x: char| crate::text::ascii_upper_char(x)));
        let p = u.take(3) + seq![' '] + u.skip(3);
        assert forall|j: int| 0 <= j < 6 implies {
            let k = if j < 3 { j } else { j + 1 };
            if 'a' <= #[trigger] c[j] && c[j] <= 'z' {
                (p[k] as u32) + 32 == (c[j] as u32)
            } else {
                p[k] == c[j]
            }
        } by {
            let k = if j < 3 { j } else { j + 1 };
            assert(p[k] == u[j]);
        }
    }
}

/// A postal code already in "A1A 1A1" form with uppercase letters
/// normalizes to itself.
proof fn lemma_postal_normal_form(code: Seq<char>)
    requires
        code.len() == 7,
        code[3] == ' ',
        'A' <= code[0] && code[0] <= 'Z',
        'A' <= code[2] && code[2] <= 'Z',
        'A' <= code[5] && code[5] <= 'Z',
        is_digit(code[1]) && is_digit(code[4]) && is_digit(code[6]),
    ensures
        normalized_postal_code(code) == Some(code),
{
    let u = code.take(3) + code.skip(4);
    assert(u.take(3) + seq![' '] + u.skip(3) =~= code);
    let pred = |c: char| !is_ws(c);
    assert forall|j: int| 0 <= j < u.take(3).len() implies pred(#[trigger] u.take(3)[j]) by {
        assert(u.take(3)[j] == code[j]);
    }
    assert forall|j: int| 0 <= j < u.skip(3).len() implies pred(#[trigger] u.skip(3)[j]) by {
        assert(u.skip(3)[j] == code[j + 4]);
    }
    lemma_filter_all(u.take(3), pred);
    lemma_filter_all(u.skip(3), pred);
    Seq::filter_distributes_over_add(u.take(3) + seq![' '], u.skip(3), pred);
    Seq::filter_distributes_over_add(u.take(3), seq![' '], pred);
    reveal(Seq::filter);
    assert(Seq::<char>::empty().push(' ') =~= seq![' ']);
    Seq::<char>::empty().lemma_filter_push(' ', pred);
    assert(Seq::<char>::empty().filter(pred) =~= Seq::<char>::empty());
    assert(seq![' '].filter(pred) =~= Seq::<char>::empty());
    assert(without_ws(code) =~= u);
    assert(u[0] == code[0] && u[1] == code[1] && u[2] == code[2]);
    assert(u[3] == code[4] && u[4] == code[5] && u[5] == code[6]);
    assert(has_postal_shape(u));
    assert(all_ascii(u));
    assert(uppercase_of(u) =~= u);
}

/// Under a street line, a line "City, xx A1A 1A1" with a postal code in
/// normal form and any two ASCII letters xx parses to that address, with
/// the code in capitals, exactly when the capitals are a Canada Post code
/// (see `law_ca_province_codes`); any other code is reported, as written,
/// as an unknown province.
pub proof fn law_province_code_decides(
    street: Seq<char>,
    city: Seq<char>,
    province: Seq<char>,
    code: Seq<char>,
)
    requires
        street.len() > 0,
        is_trimmed(street),
        lacks(street, '\n'),
        city.len() > 0,
        is_trimmed(city),
        lacks(city, '\n'),
        province.len() == 2,
        forall|j: int| 0 <= j < province.len() ==> is_letter(#[trigger] province[j]),
        code.len() == 7,
        code[3] == ' ',
        'A' <= code[0] && code[0] <= 'Z',
        'A' <= code[2] && code[2] <= 'Z',
        'A' <= code[5] && code[5] <= 'Z',
        is_digit(code[1]) && is_digit(code[4]) && is_digit(code[6]),
    ensures
        ({
            let input = street + seq!['\n'] + city + seq![',', ' '] + province + seq![' '] + code;
            let upper = seq![
                if 'a' <= province[0] && province[0] <= 'z' { ((province[0] as u32) - 32) as char } else { province[0] },
                if 'a' <= province[1] && province[1] <= 'z' { ((province[1] as u32) - 32) as char } else { province[1] },
            ];
            &&& is_ca_province(upper) ==> parsed_ca(input) == Ok::<
                CanadianAddressView,
                CaParseFailure,
            >(CanadianAddressView { street_lines: seq![street], city, province: upper, postal_code: code })
            &&& !is_ca_province(upper) ==> parsed_ca(input) == Err::<
                CanadianAddressView,
                CaParseFailure,
            >(CaParseFailure::UnknownProvince(province))
        }),
{
    lemma_postal_normal_form(code);
    let input = street + seq!['\n'] + city + seq![',', ' '] + province + seq![' '] + code;
    let x = province.push(' ') + code;
    let b = seq![' '] + x;
    let csz = city + seq![',', ' '] + province + seq![' '] + code;
    assert(csz =~= city.push(',') + b);
    assert forall|j: int| 0 <= j < b.len() implies #[trigger] b[j] != ',' && b[j] != '\n' by {
        if 1 <= j < 3 {
            assert(b[j] == province[j - 1]);
        } else if j >= 4 {
            assert(b[j] == code[j - 4]);
        }
    }
    lemma_last_index_after(city, ',', b);
    assert(csz.take(city.len() as int) =~= city);
    lemma_trim_fixed(city);
    assert(csz.skip(city.len() as int + 1) =~= b);
    assert(x[0] == province[0]);
    assert(x.last() == code[6]);
    lemma_trim_lead_space(x);
    assert(!is_ws(province[0]) && !is_ws(province[1]));
    lemma_first_ws_after(province, code);
    assert(x.take(2) =~= province);
    assert(x.skip(3) =~= code);
    assert(is_trimmed(code));
    lemma_trim_fixed(code);
    assert(csz[0] == city[0]);
    assert(csz.last() == code[6]);
    assert forall|j: int| 0 <= j < csz.len() implies #[trigger] csz[j] != '\n' by {
        if j < city.len() {
            assert(csz[j] == city[j]);
        } else if j > city.len() {
            assert(csz[j] == b[j - city.len() - 1]);
        }
    }
    let ls = seq![street];
    assert(lines_block(ls) =~= street.push('\n')) by {
        assert(ls.drop_last() =~= Seq::<Seq<char>>::empty());
        assert(lines_block(Seq::<Seq<char>>::empty()) =~= Seq::<char>::empty());
        assert(ls.last() == street);
    }
    assert(input =~= lines_block(ls) + csz);
    lemma_content_lines_of_block(ls, csz);
    assert(ls.push(csz).drop_last() =~= ls);
    assert(ls.push(csz).last() == csz);
    assert(all_ascii(province));
    let upper = seq![
        if 'a' <= province[0] && province[0] <= 'z' { ((province[0] as u32) - 32) as char } else { province[0] },
        if 'a' <= province[1] && province[1] <= 'z' { ((province[1] as u32) - 32) as char } else { province[1] },
    ];
    assert(uppercase_of(province) =~= upper);
}

// ---------------------------------------------------------------------------
// Blocks and zip truncation
// ---------------------------------------------------------------------------

/// Nothing kept, no runs.
proof fn lemma_runs_none<T>(s: Seq<T>, keep: spec_fn(T) -> bool)
    requires
        forall|i: int| 0 <= i < s.len() ==> !keep(#[trigger] s[i]),
    ensures
        runs(s, keep).len() == 0,
    decreases s.len(),
{
    if s.len() > 0 {
        let d = s.drop_last();
        assert(forall|i: int| 0 <= i < d.len() ==> #[trigger] d[i] == s[i]);
        lemma_runs_none(d, keep);
        assert(!keep(s[s.len() - 1]));
    }
}

/// Input whose lines are all blank (or that has no lines) holds no address
/// block, so `parse_all` returns no results for it.
pub proof fn law_blank_input_has_no_blocks(input: Seq<char>)
    requires
        forall|i: int| 0 <= i < lines_of(input).len() ==> trim(#[trigger] lines_of(input)[i]).len() == 0,
    ensures
        blocks_of(input).len() == 0,
{
    lemma_runs_none(lines_of(input), |l: Seq<char>| trim(l).len() > 0);
}

/// Dropping the +4 extension of a valid zip leaves its five digits; a
/// five-digit zip is left as it is, and dropping twice is dropping once.
pub proof fn law_truncated_zip(zip: Seq<char>)
    requires
        well_formed_zip(zip),
    ensures
        zip_without_extension(zip) == zip.take(5),
        all_digits(zip_without_extension(zip)),
        zip.len() == 5 ==> zip_without_extension(zip) == zip,
        zip_without_extension(zip_without_extension(zip)) == zip_without_extension(zip),
{
    lemma_first_index_of(zip, '-');
    lemma_zip_shape(zip);
    let t = zip_without_extension(zip);
    if zip.len() == 10 {
        if first_index_of(zip, '-') != Some(5int) {
            assert(zip[5] == '-');
            let k = first_index_of(zip, '-')->Some_0;
            assert(zip.take(5)[k] == zip[k]);
        }
    } else {
        if first_index_of(zip, '-') is Some {
            let k = first_index_of(zip, '-')->Some_0;
            assert(crate::text::is_digit(zip[k]));
        }
        assert(zip.take(5) =~= zip);
    }
    assert(t == zip.take(5));
    lemma_first_index_of(t, '-');
    if first_index_of(t, '-') is Some {
        let k = first_index_of(t, '-')->Some_0;
        assert(crate::text::is_digit(t[k]));
    }
}

// ---------------------------------------------------------------------------
// Batches
// ---------------------------------------------------------------------------

/// What `parse_all_with_mode` returns for `input`: each block parsed, in order.
pub open spec fn batch_results(input: Seq<char>, mode: ValidationMode) -> Seq<
    Result<AddressView, ParseFailure>,
> {
    blocks_of(input).map_values(|b: Seq<char>| parsed(b, mode))
}

/// Every address block is a non-empty run of lines, none of them blank.
pub proof fn law_block_lines_are_not_blank(input: Seq<char>)
    ensures
        forall|i: int|
            0 <= i < line_groups(input).len() ==> (#[trigger] line_groups(input)[i]).len() > 0
                && forall|j: int|
                0 <= j < line_groups(input)[i].len() ==> trim(#[trigger] line_groups(input)[i][j]).len()
                    > 0,
{
    lemma_runs_items(lines_of(input), |l: Seq<char>| trim(l).len() > 0, |l: Seq<char>| true);
}

/// The lines of a block, joined and split again, are its lines trimmed.
proof fn lemma_group_content(g: Seq<Seq<char>>)
    requires
        g.len() > 0,
        forall|j: int| 0 <= j < g.len() ==> lacks(#[trigger] g[j], '\n') && trim(g[j]).len() > 0,
    ensures
        content_lines(join(g, '\n')) == g.map_values(|l: Seq<char>| trim(l)),
{
    lemma_trim(g.last());
    assert(trim(g[g.len() - 1]).len() > 0);
    lemma_lines_of_join(g);
    let l2 = strip_crs(g.drop_last()).push(g.last());
    assert forall|i: int| 0 <= i < g.len() implies trim(#[trigger] l2[i]) == trim(g[i]) by {
        if i < g.len() - 1 {
            lemma_trim_strip_cr(g[i]);
        }
    }
    let m = g.map_values(|l: Seq<char>| trim(l));
    assert(l2.map_values(|l: Seq<char>| trim(l)) =~= m);
    lemma_filter_all(m, |t: Seq<char>| t.len() > 0);
}

/// Two addresses separated by a blank line are parsed as a batch exactly as
/// each is parsed on its own: the results for `a`, then those for `b`.
pub proof fn law_blank_line_separates_batches(a: Seq<char>, b: Seq<char>, mode: ValidationMode)
    ensures
        batch_results(a + seq!['\n', '\n'] + b, mode) == batch_results(a, mode) + batch_results(
            b,
            mode,
        ),
{
    let keep = |l: Seq<char>| trim(l).len() > 0;
    let s = a + seq!['\n', '\n'] + b;
    let p = split_on(a, '\n');
    lemma_split_on_pieces(a, '\n');
    lemma_split_on_pieces(b, '\n');
    // The pieces of `s` are those of `a`, an empty one, then those of `b`.
    let c = Seq::<char>::empty().push('\n') + b;
    assert(s =~= a.push('\n') + c);
    lemma_split_on_concat(a, c, '\n');
    lemma_split_on_concat(Seq::<char>::empty(), b, '\n');
    assert(split_on(Seq::<char>::empty(), '\n') == seq![Seq::<char>::empty()]);
    let pb = split_on(b, '\n');
    let ps = split_on(s, '\n');
    assert(ps =~= p + seq![Seq::<char>::empty()] + pb);
    // So are its lines, with every piece of `a` now ended by `\n`.
    let la = strip_crs(p);
    assert(ps.drop_last() =~= p + seq![Seq::<char>::empty()] + pb.drop_last());
    assert(ps.last() == pb.last());
    assert(lines_of(s) =~= la.push(Seq::<char>::empty()) + lines_of(b));
    lemma_runs_break(la, Seq::<char>::empty(), lines_of(b), keep);
    let ra = runs(la, keep);
    let rb = runs(lines_of(b), keep);
    assert(line_groups(s) == ra + rb);
    assert(joined_groups(ra + rb) =~= joined_groups(ra) + joined_groups(rb));
    let f = |x: Seq<char>| parsed(x, mode);
    assert(batch_results(s, mode) =~= joined_groups(ra).map_values(f) + joined_groups(rb).map_values(f));
    assert(batch_results(b, mode) =~= joined_groups(rb).map_values(f));
    // The runs of `a`'s lines as `a + "\n\n" + b` has them, against those of
    // `a` alone: they differ at most in a `\r` ending the last line.
    let q = strip_crs(p.drop_last());
    let x = p.last();
    assert(la =~= q.push(strip_cr(x)));
    lemma_trim_strip_cr(x);
    let rq = runs(q, keep);
    let lacking = |l: Seq<char>| lacks(l, '\n');
    assert forall|k: int| 0 <= k < q.len() implies lacking(#[trigger] q[k]) by {
        assert(lacks(p[k], '\n'));
        assert forall|j: int| 0 <= j < q[k].len() implies #[trigger] q[k][j] != '\n' by {
            assert(q[k][j] == p[k][j]);
        }
    }
    lemma_runs_items(q, keep, lacking);
    assert(lacks(p[p.len() - 1], '\n'));
    assert forall|j: int| 0 <= j < strip_cr(x).len() implies #[trigger] strip_cr(x)[j] != '\n' by {
        assert(strip_cr(x)[j] == x[j]);
    }
    if x.len() == 0 || !keep(x) {
        assert(q.push(strip_cr(x)).drop_last() =~= q);
        if x.len() > 0 {
            assert(lines_of(a) =~= q.push(x));
            assert(q.push(x).drop_last() =~= q);
        } else {
            assert(lines_of(a) =~= q);
        }
        assert(runs(la, keep) == rq);
        assert(runs(lines_of(a), keep) == rq);
    } else {
        let x2 = strip_cr(x);
        assert(lines_of(a) =~= q.push(x));
        let u1 = runs(q.push(x), keep);
        let u2 = runs(q.push(x2), keep);
        assert(q.push(x).drop_last() =~= q);
        assert(q.push(x2).drop_last() =~= q);
        let prev = q.len() > 0 && keep(q.last());
        if q.len() > 0 {
            assert(q.push(x)[q.len() - 1] == q.last());
            assert(q.push(x2)[q.len() - 1] == q.last());
        }
        let g = if prev { rq.last() } else { Seq::<Seq<char>>::empty() };
        if prev {
            crate::text::lemma_runs_nonempty(q, keep);
        }
        assert(u1.len() == u2.len());
        assert(u1.last() == g.push(x));
        assert(u2.last() == g.push(x2));
        assert forall|i: int| 0 <= i < u1.len() - 1 implies #[trigger] u1[i] == u2[i] by {}
        // The last groups parse alike.
        assert forall|j: int| 0 <= j < g.len() implies lacks(#[trigger] g[j], '\n') && trim(g[j]).len()
            > 0 by {
            if prev {
                assert(keep(rq[rq.len() - 1][j]) && lacking(rq[rq.len() - 1][j]));
            }
        }
        let g1 = g.push(x);
        let g2 = g.push(x2);
        assert forall|j: int| 0 <= j < g1.len() implies lacks(#[trigger] g1[j], '\n') && trim(g1[j]).len()
            > 0 by {
            if j < g.len() {
                assert(g1[j] == g[j]);
            }
        }
        assert forall|j: int| 0 <= j < g2.len() implies lacks(#[trigger] g2[j], '\n') && trim(g2[j]).len()
            > 0 by {
            if j < g.len() {
                assert(g2[j] == g[j]);
            }
        }
        lemma_group_content(g1);
        lemma_group_content(g2);
        assert(g1.map_values(|l: Seq<char>| trim(l)) =~= g2.map_values(|l: Seq<char>| trim(l)));
        assert(parsed(join(g1, '\n'), mode) == parsed(join(g2, '\n'), mode));
        assert(joined_groups(u2).map_values(f) =~= joined_groups(u1).map_values(f));
    }
}

} // verus!
