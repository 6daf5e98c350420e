//! How the JSON renderings are laid out, stated by how the output changes
//! as items are added: arrays hold their items in order, separated by commas.
use vstd::prelude::*;

use crate::address::{address_json, json_body, json_escape, json_quoted, json_quoted_all, AddressView};
use crate::international::{ca_address_json, CanadianAddressView};
use crate::address::{error_message, pretty_text, ParseFailure};
use crate::report::{batch_errors, batch_json, batch_text, decimal, parsed_texts, result_json, results_jsons};
use crate::text::{hex_digits, join};

verus! {

broadcast use vstd::seq_lib::group_seq_properties;

/// The value of a hexadecimal digit (either case).
pub open spec fn hex_value(c: char) -> int {
    if '0' <= c && c <= '9' {
        c as int - '0' as int
    } else if 'a' <= c && c <= 'f' {
        c as int - 'a' as int + 10
    } else {
        c as int - 'A' as int + 10
    }
}

/// A hexadecimal digit (either case).
pub open spec fn is_hex(c: char) -> bool {
    ('0' <= c && c <= '9') || ('a' <= c && c <= 'f') || ('A' <= c && c <= 'F')
}

/// `t` is valid as the text between the quotes of a JSON string: no raw
/// quote or control character, and every backslash starts one of JSON's
/// escapes.
pub open spec fn json_string_body_valid(t: Seq<char>) -> bool
    decreases t.len(),
{
    if t.len() == 0 {
        true
    } else if t[0] == '\\' {
        if t.len() >= 2 && (t[1] == '"' || t[1] == '\\' || t[1] == '/' || t[1] == 'b' || t[1]
            == 'f' || t[1] == 'n' || t[1] == 'r' || t[1] == 't') {
            json_string_body_valid(t.skip(2))
        } else if t.len() >= 6 && t[1] == 'u' && is_hex(t[2]) && is_hex(t[3]) && is_hex(t[4])
            && is_hex(t[5]) {
            json_string_body_valid(t.skip(6))
        } else {
            false
        }
    } else {
        t[0] != '"' && (t[0] as u32) >= 0x20 && json_string_body_valid(t.skip(1))
    }
}

/// The characters a JSON string body stands for, as a JSON reader decodes
/// it (for a body that `json_string_body_valid` accepts; surrogate pairs
/// aside).
pub open spec fn json_string_decoded(t: Seq<char>) -> Seq<char>
    decreases t.len(),
{
    if t.len() == 0 {
        Seq::empty()
    } else if t[0] == '\\' && t.len() >= 2 {
        if t[1] == 'u' && t.len() >= 6 {
            let n = 4096 * hex_value(t[2]) + 256 * hex_value(t[3]) + 16 * hex_value(t[4])
                + hex_value(t[5]);
            seq![n as char] + json_string_decoded(t.skip(6))
        } else {
            let c = if t[1] == 'n' {
                '\n'
            } else if t[1] == 'r' {
                '\r'
            } else if t[1] == 't' {
                '\t'
            } else if t[1] == 'b' {
                '\u{8}'
            } else if t[1] == 'f' {
                '\u{c}'
            } else {
                t[1]
            };
            seq![c] + json_string_decoded(t.skip(2))
        }
    } else {
        seq![t[0]] + json_string_decoded(t.skip(1))
    }
}

/// Escaping one character and then the rest.
proof fn lemma_json_body_front(c: char, r: Seq<char>)
    ensures
        json_body(seq![c] + r) == json_escape(c) + json_body(r),
    decreases r.len(),
{
    if r.len() == 0 {
        assert(seq![c] + r =~= seq![c]);
        assert(seq![c].drop_last() =~= Seq::<char>::empty());
        assert(json_body(Seq::<char>::empty()) =~= Seq::<char>::empty());
    } else {
        let d = r.drop_last();
        lemma_json_body_front(c, d);
        assert((seq![c] + r).drop_last() =~= seq![c] + d);
        assert((seq![c] + r).last() == r.last());
    }
}

/// One escaped character, then the rest: valid, and decoded back.
proof fn lemma_json_escape_decodes(c: char, y: Seq<char>)
    ensures
        json_string_body_valid(json_escape(c) + y) == json_string_body_valid(y),
        json_string_decoded(json_escape(c) + y) == seq![c] + json_string_decoded(y),
{
    let t = json_escape(c) + y;
    if c == '"' || c == '\\' || c == '\n' || c == '\r' || c == '\t' {
        assert(t.skip(2) =~= y);
    } else if (c as u32) < 0x20 {
        let n = c as u32;
        let h1 = hex_digits()[(n / 16) as int];
        let h2 = hex_digits()[(n % 16) as int];
        assert(t[2] == '0' && t[3] == '0' && t[4] == h1 && t[5] == h2);
        assert(t.skip(6) =~= y);
        assert(is_hex(h1) && is_hex(h2));
        assert(hex_value(h1) == n / 16);
        assert(hex_value(h2) == n % 16);
        assert(16 * (n / 16) + n % 16 == n);
        assert((n as int) as char == c);
    } else {
        assert(t.skip(1) =~= y);
    }
}

/// A string written as JSON (`json_string`) is a valid JSON string literal
/// that a JSON reader decodes back to the very same string.
pub proof fn law_json_string_decodes(s: Seq<char>)
    ensures
        ({
            let q = json_quoted(s);
            &&& q.len() >= 2
            &&& q[0] == '"'
            &&& q.last() == '"'
            &&& json_string_body_valid(q.subrange(1, q.len() - 1))
            &&& json_string_decoded(q.subrange(1, q.len() - 1)) == s
        }),
    decreases s.len(),
{
    let q = json_quoted(s);
    assert(q.subrange(1, q.len() - 1) =~= json_body(s));
    if s.len() == 0 {
        assert(json_body(s) =~= Seq::<char>::empty());
    } else {
        let r = s.skip(1);
        law_json_string_decodes(r);
        let qr = json_quoted(r);
        assert(qr.subrange(1, qr.len() - 1) =~= json_body(r));
        assert(s =~= seq![s[0]] + r);
        lemma_json_body_front(s[0], r);
        lemma_json_escape_decodes(s[0], json_body(r));
        assert(seq![s[0]] + r =~= s);
    }
}

/// Adding a part to a non-empty list adds the separator and the part.
proof fn lemma_join_push<T>(ps: Seq<Seq<T>>, p: Seq<T>, sep: T)
    ensures
        ps.len() > 0 ==> join(ps.push(p), sep) == join(ps, sep).push(sep) + p,
        ps.len() == 0 ==> join(ps.push(p), sep) == p,
{
    assert(ps.push(p).drop_last() =~= ps);
    assert(ps.push(p).last() == p);
    if ps.len() == 0 {
        assert(ps.push(p)[0] == p);
    }
}

/// The batch JSON is an array with one item per result, in order: no
/// results give `[]`, one result gives `[item]`, and each further result
/// adds a comma and its item before the closing bracket.
pub proof fn law_batch_json_array(
    rs: Seq<Result<AddressView, crate::address::ParseFailure>>,
    r: Result<AddressView, crate::address::ParseFailure>,
)
    ensures
        batch_json(Seq::empty()) == seq!['[', ']'],
        batch_json(seq![r]) == seq!['['] + result_json(r) + seq![']'],
        rs.len() > 0 ==> batch_json(rs.push(r)) == batch_json(rs).drop_last() + seq![','] + result_json(r)
            + seq![']'],
{
    let e = Seq::<Result<AddressView, crate::address::ParseFailure>>::empty();
    assert(results_jsons(e) =~= Seq::<Seq<char>>::empty());
    assert(batch_json(e) =~= seq!['[', ']']);
    assert(e.push(r) =~= seq![r]);
    assert(results_jsons(seq![r]) =~= results_jsons(e).push(result_json(r)));
    lemma_join_push(results_jsons(e), result_json(r), ',');
    assert(batch_json(seq![r]) =~= seq!['['] + result_json(r) + seq![']']);
    assert(results_jsons(rs.push(r)) =~= results_jsons(rs).push(result_json(r)));
    lemma_join_push(results_jsons(rs), result_json(r), ',');
    if rs.len() > 0 {
        let j = join(results_jsons(rs), ',');
        assert((seq!['['] + j + seq![']']).drop_last() =~= seq!['['] + j);
        assert(batch_json(rs.push(r)) =~= (seq!['['] + j) + seq![','] + result_json(r) + seq![']']);
    }
}

/// The text output of a batch: a result that is an error adds nothing; an
/// address adds its canonical text and a line end, after a blank-line
/// separator when something was already printed.
pub proof fn law_batch_text_paragraphs(rs: Seq<Result<AddressView, ParseFailure>>, a: AddressView, e: ParseFailure)
    ensures
        batch_text(rs.push(Err(e))) == batch_text(rs),
        batch_text(rs).len() == 0 ==> batch_text(rs.push(Ok(a))) == pretty_text(a).push('\n'),
        batch_text(rs).len() > 0 ==> batch_text(rs.push(Ok(a))) == batch_text(rs).push('\n')
            + pretty_text(a).push('\n'),
{
    assert(rs.push(Err(e)).drop_last() =~= rs);
    assert(rs.push(Ok(a)).drop_last() =~= rs);
    lemma_parsed_texts_nonempty(rs);
    let t = parsed_texts(rs);
    let p = pretty_text(a).push('\n');
    assert(parsed_texts(rs.push(Ok(a))) == t.push(p));
    lemma_join_push(t, p, '\n');
    if t.len() > 0 {
        lemma_join_nonempty(t, '\n');
    } else {
        assert(batch_text(rs) =~= Seq::<char>::empty());
    }
}

/// The parsed texts of a batch are never empty.
proof fn lemma_parsed_texts_nonempty(rs: Seq<Result<AddressView, ParseFailure>>)
    ensures
        forall|i: int| 0 <= i < parsed_texts(rs).len() ==> (#[trigger] parsed_texts(rs)[i]).len() > 0,
    decreases rs.len(),
{
    if rs.len() > 0 {
        let t = parsed_texts(rs.drop_last());
        lemma_parsed_texts_nonempty(rs.drop_last());
        match rs.last() {
            Ok(a) => {
                let p = pretty_text(a).push('\n');
                assert(parsed_texts(rs) == t.push(p));
                assert forall|i: int| 0 <= i < t.len() + 1 implies (#[trigger] t.push(p)[i]).len() > 0 by {
                    if i < t.len() {
                        assert(t.push(p)[i] == t[i]);
                    }
                }
            },
            Err(_) => {},
        }
    }
}

/// Joining at least one non-empty first part gives a non-empty result.
proof fn lemma_join_nonempty<T>(ps: Seq<Seq<T>>, sep: T)
    requires
        ps.len() > 0,
    ensures
        join(ps, sep).len() > 0 || (ps.len() == 1 && ps[0].len() == 0),
    decreases ps.len(),
{
    if ps.len() > 1 {
        lemma_join_nonempty(ps.drop_last(), sep);
    }
}

/// The number a sequence of decimal digits stands for.
pub open spec fn decimal_value(s: Seq<char>) -> int
    decreases s.len(),
{
    if s.len() == 0 {
        0
    } else {
        10 * decimal_value(s.drop_last()) + (s.last() as int - '0' as int)
    }
}

/// `decimal(n)` is how `n` is written in base ten: ASCII digits, no leading
/// zero (but for zero itself), standing for `n`.
pub proof fn law_decimal_digits(n: nat)
    ensures
        decimal(n).len() > 0,
        forall|j: int| 0 <= j < decimal(n).len() ==> '0' <= #[trigger] decimal(n)[j] && decimal(n)[j] <= '9',
        decimal(n).len() > 1 ==> decimal(n)[0] != '0',
        decimal(n).len() == 1 <==> n < 10,
        decimal_value(decimal(n)) == n,
    decreases n,
{
    if n >= 10 {
        law_decimal_digits(n / 10);
        let d = decimal(n / 10);
        let x = hex_digits()[(n % 10) as int];
        lemma_decimal_digit((n % 10) as int);
        assert(decimal(n) == d.push(x));
        assert(decimal(n).drop_last() =~= d);
        assert(forall|j: int| 0 <= j < d.len() ==> #[trigger] decimal(n)[j] == d[j]);
        assert(decimal(n)[0] == d[0]);
        if d.len() == 1 {
            lemma_decimal_digit((n / 10) as int);
        }
        assert(decimal_value(decimal(n)) == 10 * decimal_value(d) + (n % 10));
    } else {
        lemma_decimal_digit(n as int);
        assert(decimal(n).drop_last() =~= Seq::<char>::empty());
        assert(decimal_value(Seq::<char>::empty()) == 0);
        assert(decimal_value(decimal(n)) == 10 * decimal_value(Seq::<char>::empty()) + n);
    }
}

/// The first ten hexadecimal digits are the decimal digits, in order.
proof fn lemma_decimal_digit(k: int)
    requires
        0 <= k < 10,
    ensures
        '0' <= hex_digits()[k] && hex_digits()[k] <= '9',
        hex_digits()[k] as int - '0' as int == k,
{
    let h = hex_digits();
    assert(h[0] == '0' && h[1] == '1' && h[2] == '2' && h[3] == '3' && h[4] == '4');
    assert(h[5] == '5' && h[6] == '6' && h[7] == '7' && h[8] == '8' && h[9] == '9');
}

/// The error report of a batch: an address adds nothing; an error adds the
/// line "address N: message", N being its 1-based position in the batch.
pub proof fn law_batch_errors_lines(rs: Seq<Result<AddressView, ParseFailure>>, a: AddressView, e: ParseFailure)
    ensures
        batch_errors(rs.push(Ok(a))) == batch_errors(rs),
        batch_errors(rs.push(Err(e))) == batch_errors(rs) + "address "@ + decimal(rs.len() + 1)
            + seq![':', ' '] + error_message(e) + seq!['\n'],
{
    assert(rs.push(Ok(a)).drop_last() =~= rs);
    assert(rs.push(Err(e)).drop_last() =~= rs);
}

/// The street lines of an address's JSON form an array: with no lines the
/// object starts `{"street_lines":[]`; the first line goes right after the
/// `[`; each further line adds a comma and the quoted line right after the
/// lines already there.
pub proof fn law_address_json_street_lines(a: AddressView, l: Seq<char>)
    ensures
        ({
            let none = AddressView { street_lines: Seq::empty(), ..a };
            let more = AddressView { street_lines: a.street_lines.push(l), ..a };
            let m = address_json(a).len() - address_json(none).len() + 17;
            &&& address_json(none).take(18) == "{\"street_lines\":[]"@
            &&& a.street_lines.len() == 0 ==> address_json(more) == address_json(none).take(17)
                + json_quoted(l) + address_json(none).skip(17)
            &&& a.street_lines.len() > 0 ==> address_json(more) == address_json(a).take(m)
                + seq![','] + json_quoted(l) + address_json(a).skip(m)
        }),
{
    reveal_strlit("{\"street_lines\":[");
    reveal_strlit("{\"street_lines\":[]");
    reveal_strlit("],\"city\":");
    let none = AddressView { street_lines: Seq::empty(), ..a };
    let more = AddressView { street_lines: a.street_lines.push(l), ..a };
    let h = "{\"street_lines\":["@;
    let t = "],\"city\":"@ + json_quoted(a.city) + ",\"state\":"@ + json_quoted(a.state)
        + ",\"zip\":"@ + json_quoted(a.zip) + "}"@;
    let ls = a.street_lines;
    let js = join(json_quoted_all(ls), ',');
    assert(json_quoted_all(none.street_lines) =~= Seq::<Seq<char>>::empty());
    assert(address_json(none) =~= h + t);
    assert(address_json(a) =~= h + js + t);
    assert(json_quoted_all(ls.push(l)) =~= json_quoted_all(ls).push(json_quoted(l)));
    lemma_join_push(json_quoted_all(ls), json_quoted(l), ',');
    assert(address_json(more) =~= h + join(json_quoted_all(ls.push(l)), ',') + t);
    assert(t[0] == ']');
    assert((h + t).take(18) =~= "{\"street_lines\":[]"@);
    if ls.len() == 0 {
        assert((h + t).take(17) =~= h);
        assert((h + t).skip(17) =~= t);
        assert(address_json(more) =~= h + json_quoted(l) + t);
    } else {
        let m = address_json(a).len() - address_json(none).len() + 17;
        assert(m == h.len() + js.len());
        assert((h + js + t).take(m) =~= h + js);
        assert((h + js + t).skip(m) =~= t);
        assert(address_json(more) =~= (h + js) + seq![','] + json_quoted(l) + t);
    }
}

/// The street lines of a Canadian address's JSON form an array, laid out
/// as in `law_address_json_street_lines`.
pub proof fn law_ca_json_street_lines(a: CanadianAddressView, l: Seq<char>)
    ensures
        ({
            let none = CanadianAddressView { street_lines: Seq::empty(), ..a };
            let more = CanadianAddressView { street_lines: a.street_lines.push(l), ..a };
            let m = ca_address_json(a).len() - ca_address_json(none).len() + 17;
            &&& ca_address_json(none).take(18) == "{\"street_lines\":[]"@
            &&& a.street_lines.len() == 0 ==> ca_address_json(more) == ca_address_json(none).take(
                17,
            ) + json_quoted(l) + ca_address_json(none).skip(17)
            &&& a.street_lines.len() > 0 ==> ca_address_json(more) == ca_address_json(a).take(m)
                + seq![','] + json_quoted(l) + ca_address_json(a).skip(m)
        }),
{
    reveal_strlit("{\"street_lines\":[");
    reveal_strlit("{\"street_lines\":[]");
    reveal_strlit("],\"city\":");
    let none = CanadianAddressView { street_lines: Seq::empty(), ..a };
    let more = CanadianAddressView { street_lines: a.street_lines.push(l), ..a };
    let h = "{\"street_lines\":["@;
    let t = "],\"city\":"@ + json_quoted(a.city) + ",\"province\":"@ + json_quoted(a.province)
        + ",\"postal_code\":"@ + json_quoted(a.postal_code) + "}"@;
    let ls = a.street_lines;
    let js = join(json_quoted_all(ls), ',');
    assert(json_quoted_all(none.street_lines) =~= Seq::<Seq<char>>::empty());
    assert(ca_address_json(none) =~= h + t);
    assert(ca_address_json(a) =~= h + js + t);
    assert(json_quoted_all(ls.push(l)) =~= json_quoted_all(ls).push(json_quoted(l)));
    lemma_join_push(json_quoted_all(ls), json_quoted(l), ',');
    assert(ca_address_json(more) =~= h + join(json_quoted_all(ls.push(l)), ',') + t);
    assert(t[0] == ']');
    assert((h + t).take(18) =~= "{\"street_lines\":[]"@);
    if ls.len() == 0 {
        assert((h + t).take(17) =~= h);
        assert((h + t).skip(17) =~= t);
        assert(ca_address_json(more) =~= h + json_quoted(l) + t);
    } else {
        let m = ca_address_json(a).len() - ca_address_json(none).len() + 17;
        assert(m == h.len() + js.len());
        assert((h + js + t).take(m) =~= h + js);
        assert((h + js + t).skip(m) =~= t);
        assert(ca_address_json(more) =~= (h + js) + seq![','] + json_quoted(l) + t);
    }
}

} // verus!
