//! Rendering a batch of parse results, one per address block.
use vstd::prelude::*;

use crate::address::{
    error_message, hex_digit, address_json, error_json, pretty_text, result_view,
    zip_without_extension, Address, AddressView, ParseError, ParseFailure,
};
use crate::text::{hex_digits, join, push_one, push_str};

verus! {

broadcast use vstd::seq_lib::group_seq_properties;

/// The views of a batch of results.
pub open spec fn results_view(rs: Seq<Result<Address, ParseError>>) -> Seq<
    Result<AddressView, ParseFailure>,
> {
    rs.map_values(|r: Result<Address, ParseError>| result_view(r))
}

/// One result as JSON: the address object or the error object.
pub open spec fn result_json(r: Result<AddressView, ParseFailure>) -> Seq<char> {
    match r {
        Ok(a) => address_json(a),
        Err(e) => error_json(e),
    }
}

/// Each result as JSON.
pub open spec fn results_jsons(rs: Seq<Result<AddressView, ParseFailure>>) -> Seq<Seq<char>> {
    rs.map_values(|r: Result<AddressView, ParseFailure>| result_json(r))
}

/// Every result, success or error, in one JSON array, in input order.
pub open spec fn batch_json(rs: Seq<Result<AddressView, ParseFailure>>) -> Seq<char> {
    seq!['['] + join(results_jsons(rs), ',') + seq![']']
}

/// The canonical text of each parsed address, with its line end, in order;
/// errors contribute nothing.
pub open spec fn parsed_texts(rs: Seq<Result<AddressView, ParseFailure>>) -> Seq<Seq<char>>
    decreases rs.len(),
{
    if rs.len() == 0 {
        Seq::empty()
    } else {
        let t = parsed_texts(rs.drop_last());
        match rs.last() {
            Ok(a) => t.push(pretty_text(a).push('\n')),
            Err(_) => t,
        }
    }
}

/// The text output of a batch: the parsed addresses, each on its own
/// paragraph (a blank line between neighbours), in input order.
pub open spec fn batch_text(rs: Seq<Result<AddressView, ParseFailure>>) -> Seq<char> {
    join(parsed_texts(rs), '\n')
}

/// Every result of the batch is an address.
pub open spec fn all_parsed(rs: Seq<Result<AddressView, ParseFailure>>) -> bool {
    forall|i: int| 0 <= i < rs.len() ==> #[trigger] rs[i] is Ok
}

/// Renders every result, success or error, as one JSON array in input order
/// so a caller can line results back up with whatever it fed in; also says
/// whether every result is an address.
pub fn render_batch_json(results: &Vec<Result<Address, ParseError>>) -> (r: (String, bool))
    ensures
        r.0@ == batch_json(results_view(results@)),
        r.1 == all_parsed(results_view(results@)),
{
    let ghost rs = results_view(results@);
    let mut items = String::new();
    let mut all_ok = true;
    let mut i: usize = 0;
    while i < results.len()
        invariant
            i <= results@.len(),
            rs == results_view(results@),
            items@ == join(results_jsons(rs).take(i as int), ','),
            all_ok == (forall|j: int| 0 <= j < i ==> #[trigger] rs[j] is Ok),
        decreases results@.len() - i,
    {
        if i > 0 {
            push_one(&mut items, ',');
        }
        let item = match &results[i] {
            Ok(a) => a.to_json(),
            Err(e) => {
                all_ok = false;
                e.to_json()
            },
        };
        push_str(&mut items, item.as_str());
        let ghost q = results_jsons(rs);
        assert(q[i as int] == result_json(rs[i as int]));
        assert(q.take(i + 1).drop_last() == q.take(i as int));
        assert(q.take(i + 1).last() == item@);
        if i == 0 {
            assert(q.take(1) == seq![q[0]]);
        }
        i = i + 1;
    }
    assert(results_jsons(rs).take(results@.len() as int) == results_jsons(rs));
    let mut out = String::new();
    push_one(&mut out, '[');
    push_str(&mut out, items.as_str());
    push_one(&mut out, ']');
    (out, all_ok)
}

/// The text output of a batch: each parsed address in canonical form on
/// its own paragraph, in input order (errors are reported separately).
pub fn render_batch_text(results: &Vec<Result<Address, ParseError>>) -> (r: String)
    ensures
        r@ == batch_text(results_view(results@)),
{
    let ghost rs = results_view(results@);
    let mut out = String::new();
    let mut printed_any = false;
    let mut i: usize = 0;
    assert(rs.take(0) =~= Seq::<Result<AddressView, ParseFailure>>::empty());
    while i < results.len()
        invariant
            i <= results@.len(),
            rs == results_view(results@),
            out@ == join(parsed_texts(rs.take(i as int)), '\n'),
            printed_any == (parsed_texts(rs.take(i as int)).len() > 0),
        decreases results@.len() - i,
    {
        assert(rs.take(i + 1).drop_last() == rs.take(i as int));
        assert(rs.take(i + 1).last() == result_view(results@[i as int]));
        match &results[i] {
            Ok(a) => {
                let ghost before = out@;
                if printed_any {
                    push_one(&mut out, '\n');
                }
                push_str(&mut out, a.to_pretty().as_str());
                push_one(&mut out, '\n');
                printed_any = true;
                proof {
                    let t = parsed_texts(rs.take(i as int));
                    let p = pretty_text(a@).push('\n');
                    assert(rs.take(i + 1).last() == Ok::<AddressView, ParseFailure>(a@));
                    assert(parsed_texts(rs.take(i + 1)) == t.push(p));
                    if t.len() == 0 {
                        assert(t.push(p) =~= seq![p]);
                        assert(out@ =~= p);
                    } else {
                        assert(t.push(p).drop_last() =~= t);
                        assert(out@ =~= before.push('\n') + p);
                    }
                }
                assert(out@ =~= join(parsed_texts(rs.take(i + 1)), '\n'));
            },
            Err(_) => {},
        }
        i = i + 1;
    }
    assert(rs.take(results@.len() as int) == rs);
    out
}

/// A result with the +4 extension dropped from its address's zip; an error
/// stays as it is.
pub open spec fn zip_truncated(r: Result<AddressView, ParseFailure>) -> Result<
    AddressView,
    ParseFailure,
> {
    match r {
        Ok(a) => Ok(AddressView { zip: zip_without_extension(a.zip), ..a }),
        Err(e) => Err(e),
    }
}

/// Drops the +4 extension from the zip of every address in the batch,
/// leaving the errors and the order of the results as they were.
pub fn truncate_zips_to_five(results: &mut Vec<Result<Address, ParseError>>)
    ensures
        final(results)@.len() == old(results)@.len(),
        forall|i: int|
            0 <= i < old(results)@.len() ==> result_view(#[trigger] final(results)@[i])
                == zip_truncated(result_view(old(results)@[i])),
{
    let ghost orig = results@;
    let ghost n = orig.len();
    let mut reversed: Vec<Result<Address, ParseError>> = Vec::new();
    while results.len() > 0
        invariant
            results@.len() + reversed@.len() == n,
            n == orig.len(),
            results@ == orig.take(results@.len() as int),
            forall|j: int|
                0 <= j < reversed@.len() ==> result_view(#[trigger] reversed@[j]) == zip_truncated(
                    result_view(orig[n - 1 - j]),
                ),
        decreases results@.len(),
    {
        let ghost k = results@.len() - 1;
        let r = results.pop().unwrap();
        assert(r == orig[k]);
        let t = match r {
            Ok(mut a) => {
                a.truncate_zip_to_five();
                Ok(a)
            },
            Err(e) => Err(e),
        };
        reversed.push(t);
        assert(results@ =~= orig.take(results@.len() as int));
    }
    while reversed.len() > 0
        invariant
            results@.len() + reversed@.len() == n,
            n == orig.len(),
            forall|j: int|
                0 <= j < reversed@.len() ==> result_view(#[trigger] reversed@[j]) == zip_truncated(
                    result_view(orig[n - 1 - j]),
                ),
            forall|j: int|
                0 <= j < results@.len() ==> result_view(#[trigger] results@[j]) == zip_truncated(
                    result_view(orig[j]),
                ),
        decreases reversed@.len(),
    {
        let ghost k = reversed@.len() - 1;
        let r = reversed.pop().unwrap();
        assert(result_view(r) == zip_truncated(result_view(orig[n - 1 - k])));
        results.push(r);
    }
}

/// The decimal digits of `n`, without leading zeros.
pub open spec fn decimal(n: nat) -> Seq<char>
    decreases n,
{
    if n < 10 {
        seq![hex_digits()[n as int]]
    } else {
        decimal(n / 10).push(hex_digits()[(n % 10) as int])
    }
}

/// The error report of a batch: for each error, in input order, a line
/// "address N: message" with N its 1-based position.
pub open spec fn batch_errors(rs: Seq<Result<AddressView, ParseFailure>>) -> Seq<char>
    decreases rs.len(),
{
    if rs.len() == 0 {
        Seq::empty()
    } else {
        let t = batch_errors(rs.drop_last());
        match rs.last() {
            Ok(_) => t,
            Err(e) => t + "address "@ + decimal(rs.len()) + seq![':', ' '] + error_message(e)
                + seq!['\n'],
        }
    }
}

/// Appends the decimal digits of `n`.
fn push_decimal(out: &mut String, n: usize)
    ensures
        final(out)@ == old(out)@ + decimal(n as nat),
    decreases n,
{
    if n >= 10 {
        push_decimal(out, n / 10);
    }
    push_one(out, hex_digit((n % 10) as u32));
    assert(out@ =~= old(out)@ + decimal(n as nat));
}

/// Reports the errors of a batch, each tagged with its 1-based position so
/// a batch of mostly-good input doesn't get lost behind one bad entry; also
/// says whether every result is an address.
pub fn render_batch_errors(results: &Vec<Result<Address, ParseError>>) -> (r: (String, bool))
    ensures
        r.0@ == batch_errors(results_view(results@)),
        r.1 == all_parsed(results_view(results@)),
{
    let ghost rs = results_view(results@);
    let mut out = String::new();
    let mut all_ok = true;
    let mut i: usize = 0;
    assert(rs.take(0) =~= Seq::<Result<AddressView, ParseFailure>>::empty());
    while i < results.len()
        invariant
            i <= results@.len(),
            rs == results_view(results@),
            out@ == batch_errors(rs.take(i as int)),
            all_ok == (forall|j: int| 0 <= j < i ==> #[trigger] rs[j] is Ok),
        decreases results@.len() - i,
    {
        assert(rs.take(i + 1).drop_last() == rs.take(i as int));
        assert(rs.take(i + 1).last() == result_view(results@[i as int]));
        match &results[i] {
            Ok(_) => {},
            Err(e) => {
                all_ok = false;
                push_str(&mut out, "address ");
                push_decimal(&mut out, i + 1);
                push_one(&mut out, ':');
                push_one(&mut out, ' ');
                push_str(&mut out, e.message().as_str());
                push_one(&mut out, '\n');
                assert(out@ =~= batch_errors(rs.take(i + 1)));
            },
        }
        i = i + 1;
    }
    assert(rs.take(results@.len() as int) == rs);
    (out, all_ok)
}

} // verus!
