//! Turning table records into attributes, products and pairings.

use vstd::prelude::*;
use vstd::string::StringSliceAdditionalSpecFns;

use crate::models::{opt_chars, spec_code, Attribute, CompareType, Match, Product, ProductId};
use crate::table::{contains_product, known};

verus! {

/// Why a record could not be turned into an attribute or a product.
#[derive(Clone, Copy, Debug, PartialEq, Eq, Structural)]
pub enum ParseError {
    /// The encoded value list is not a JSON array of strings and nulls.
    InvalidValues,
    /// The value list is not as long as the attribute list.
    ValueCountMismatch,
}

/// The comparison rule that a record's code and parameters stand for.
pub open spec fn spec_compare_type(code: u16, parameter_1: u16, parameter_2: u16) -> Option<CompareType> {
    if code == 1 {
        Some(CompareType::Equal)
    } else if code == 2 {
        Some(CompareType::GreaterThanOrEqual)
    } else if code == 3 {
        Some(CompareType::LessThanOrEqual)
    } else if code == 6 {
        Some(CompareType::IntervalMatch(parameter_1, parameter_2))
    } else if code == 50 {
        Some(CompareType::LinearInterval(parameter_2, parameter_1))
    } else {
        None
    }
}

/// The pieces of `s` between commas.
pub open spec fn split_commas(s: Seq<char>) -> Seq<Seq<char>>
    decreases s.len(),
{
    if s.len() == 0 {
        seq![Seq::empty()]
    } else {
        let r = split_commas(s.drop_last());
        if s.last() == ',' {
            r.push(Seq::empty())
        } else {
            r.update(r.len() - 1, r.last().push(s.last()))
        }
    }
}

proof fn lemma_split_commas_nonempty(s: Seq<char>)
    ensures
        split_commas(s).len() >= 1,
    decreases s.len(),
{
    if s.len() > 0 {
        lemma_split_commas_nonempty(s.drop_last());
    }
}

/// Decodes a comparison-rule code with its two parameters.
pub fn compare_type_from_code(code: u16, parameter_1: u16, parameter_2: u16) -> (r: Option<CompareType>)
    ensures
        r == spec_compare_type(code, parameter_1, parameter_2),
{
    match code {
        1 => Some(CompareType::Equal),
        2 => Some(CompareType::GreaterThanOrEqual),
        3 => Some(CompareType::LessThanOrEqual),
        6 => Some(CompareType::IntervalMatch(parameter_1, parameter_2)),
        50 => Some(CompareType::LinearInterval(parameter_2, parameter_1)),
        _ => None,
    }
}

/// Splits a vocabulary list on commas.
pub fn split_values(s: &str) -> (r: Vec<String>)
    ensures
        r@.len() == split_commas(s@).len(),
        forall|k: int| 0 <= k < r@.len() ==> #[trigger] r@[k]@ == split_commas(s@)[k],
{
    let n = s.unicode_len();
    let mut pieces: Vec<String> = Vec::new();
    let mut start: usize = 0;
    let mut i: usize = 0;
    while i < n
        invariant
            n == s@.len(),
            start <= i <= n,
            pieces@.len() + 1 == split_commas(s@.take(i as int)).len(),
            forall|k: int|
                0 <= k < pieces@.len() ==> #[trigger] pieces@[k]@ == split_commas(
                    s@.take(i as int),
                )[k],
            split_commas(s@.take(i as int)).last() == s@.subrange(start as int, i as int),
        decreases n - i,
    {
        let c = s.get_char(i);
        proof {
            assert(s@.take(i + 1).drop_last() =~= s@.take(i as int));
            assert(s@.take(i + 1).last() == c);
            lemma_split_commas_nonempty(s@.take(i as int));
        }
        if c == ',' {
            let piece = s.substring_char(start, i).to_string();
            pieces.push(piece);
            start = i + 1;
            proof {
                assert(s@.subrange(start as int, i + 1) =~= Seq::<char>::empty());
            }
        } else {
            proof {
                assert(s@.subrange(start as int, i + 1) =~= s@.subrange(start as int, i as int).push(
                    c,
                ));
            }
        }
        i += 1;
    }
    let last = s.substring_char(start, n).to_string();
    pieces.push(last);
    proof {
        assert(s@.take(n as int) =~= s@);
    }
    pieces
}

/// What `rustc_serialize::json::decode` reads from a text as a list of
/// optional strings; `None` where it fails.
pub uninterp spec fn json_string_list(s: Seq<char>) -> Option<Seq<Option<Seq<char>>>>;

/// The state of the list-text scan after some bytes: inside a string
/// literal, just after a backslash inside one, a `[` seen outside string
/// literals, and the text rejected.
pub open spec fn scan_step(st: (bool, bool, bool, bool), c: u8) -> (bool, bool, bool, bool) {
    let (in_string, escaped, opened, rejected) = st;
    if in_string {
        if escaped {
            (true, false, opened, rejected)
        } else if c == 92u8 {
            (true, true, opened, rejected)
        } else if c == 34u8 {
            (false, false, opened, rejected)
        } else {
            st
        }
    } else if c == 34u8 {
        (true, false, opened, rejected)
    } else if (48u8 <= c && c <= 57u8) || c == 101u8 || c == 69u8 || c == 123u8 {
        (false, false, opened, true)
    } else if c == 91u8 {
        (false, false, true, rejected || opened)
    } else {
        st
    }
}

pub open spec fn scan(b: Seq<u8>) -> (bool, bool, bool, bool)
    decreases b.len(),
{
    if b.len() == 0 {
        (false, false, false, false)
    } else {
        scan_step(scan(b.drop_last()), b.last())
    }
}

/// Outside string literals the text holds no digit, no `e` or `E`, no `{`
/// and at most one `[`. So it holds no number (whose exponent the decoder
/// reads into a `usize` that may overflow) and no nesting (which the decoder
/// follows by recursion).
pub open spec fn plain_list_text(b: Seq<u8>) -> bool {
    !scan(b).3
}

fn scan_byte(st: (bool, bool, bool, bool), c: u8) -> (r: (bool, bool, bool, bool))
    ensures
        r == scan_step(st, c),
{
    let (in_string, escaped, opened, rejected) = st;
    if in_string {
        if escaped {
            (true, false, opened, rejected)
        } else if c == 92u8 {
            (true, true, opened, rejected)
        } else if c == 34u8 {
            (false, false, opened, rejected)
        } else {
            st
        }
    } else if c == 34u8 {
        (true, false, opened, rejected)
    } else if (48u8 <= c && c <= 57u8) || c == 101u8 || c == 69u8 || c == 123u8 {
        (false, false, opened, true)
    } else if c == 91u8 {
        (false, false, true, rejected || opened)
    } else {
        st
    }
}

/// Whether a text passes the scan of `plain_list_text`; every list of
/// strings and nulls written as JSON without nesting passes it.
pub fn is_plain_list_text(s: &str) -> (r: bool)
    ensures
        r == plain_list_text(s.spec_bytes()),
{
    let b = s.as_bytes();
    let mut st: (bool, bool, bool, bool) = (false, false, false, false);
    let mut i: usize = 0;
    while i < b.len()
        invariant
            b@ == s.spec_bytes(),
            i <= b@.len(),
            st == scan(b@.take(i as int)),
        decreases b@.len() - i,
    {
        proof {
            assert(b@.take(i + 1).drop_last() =~= b@.take(i as int));
        }
        st = scan_byte(st, b[i]);
        i += 1;
    }
    proof {
        assert(b@.take(b@.len() as int) =~= b@);
    }
    !st.3
}

/// Relies on `rustc_serialize::json::decode` into `Vec<Option<String>>`: the
/// outcome depends on the text alone. On a text that passes the scan the
/// parser meets no number and no nesting, where it could panic.
#[verifier::external_body]
fn decode_raw_values(s: &str) -> (r: Option<Vec<Option<String>>>)
    requires
        plain_list_text(s.spec_bytes()),
    ensures
        match r {
            Some(v) => json_string_list(s@) == Some(
                v@.map_values(|o: Option<String>| opt_chars(o)),
            ),
            None => json_string_list(s@) is None,
        },
{
    rustc_serialize::json::decode::<Vec<Option<String>>>(s).ok()
}

/// Every vocabulary fits the 16-bit code range.
pub open spec fn codes_fit(attributes: Seq<Attribute>) -> bool {
    forall|i: int| 0 <= i < attributes.len() ==> #[trigger] attributes[i].values@.len() <= 65535
}

/// Builds an attribute from its name, its comma-separated vocabulary and
/// its comparison-rule code with two parameters; the code must be a known
/// one (see `compare_type_from_code`).
pub fn attribute_from_record(
    name: String,
    values: &str,
    code: u16,
    parameter_1: u16,
    parameter_2: u16,
) -> (r: Attribute)
    requires
        spec_compare_type(code, parameter_1, parameter_2) is Some,
    ensures
        r.name == name,
        r.compare_type == spec_compare_type(code, parameter_1, parameter_2).unwrap(),
        r.values@.len() == split_commas(values@).len(),
        forall|k: int| 0 <= k < r.values@.len() ==> #[trigger] r.values@[k]@ == split_commas(values@)[k],
{
    let compare_type = compare_type_from_code(code, parameter_1, parameter_2).unwrap();
    Attribute { name, values: split_values(values), compare_type }
}

/// Encodes one raw value per attribute as its ordinal code.
pub fn encode_values(attributes: &Vec<Attribute>, raw: Vec<Option<String>>) -> (r: Result<
    Vec<u16>,
    ParseError,
>)
    requires
        codes_fit(attributes@),
    ensures
        raw@.len() != attributes@.len() ==> r == Err::<Vec<u16>, ParseError>(
            ParseError::ValueCountMismatch,
        ),
        raw@.len() == attributes@.len() ==> (r matches Ok(v) && v@.len() == attributes@.len()
            && forall|i: int|
            0 <= i < v@.len() ==> spec_code(
                attributes@[i].values@,
                opt_chars(raw@[i]),
                #[trigger] v@[i] as int,
            )),
{
    if raw.len() != attributes.len() {
        return Err(ParseError::ValueCountMismatch);
    }
    let mut codes: Vec<u16> = Vec::new();
    let mut i: usize = 0;
    while i < raw.len()
        invariant
            raw@.len() == attributes@.len(),
            codes_fit(attributes@),
            i <= raw@.len(),
            codes@.len() == i,
            forall|k: int|
                0 <= k < i ==> spec_code(
                    attributes@[k].values@,
                    opt_chars(raw@[k]),
                    #[trigger] codes@[k] as int,
                ),
        decreases raw@.len() - i,
    {
        let value = raw[i].clone();
        assert(attributes@[i as int].values@.len() <= 65535);
        let code = attributes[i].map_value(value);
        codes.push(code);
        i += 1;
    }
    Ok(codes)
}

/// Builds a product from its id, its name and its JSON list of raw values,
/// one per attribute. A text that fails `is_plain_list_text` is invalid
/// without being decoded.
pub fn product_from_record(
    attributes: &Vec<Attribute>,
    id: ProductId,
    name: String,
    raw: &str,
) -> (r: Result<Product, ParseError>)
    requires
        codes_fit(attributes@),
    ensures
        !plain_list_text(raw.spec_bytes()) ==> r == Err::<Product, ParseError>(
            ParseError::InvalidValues,
        ),
        plain_list_text(raw.spec_bytes()) && json_string_list(raw@) is None ==> r == Err::<
            Product,
            ParseError,
        >(ParseError::InvalidValues),
        plain_list_text(raw.spec_bytes()) ==> (json_string_list(raw@) matches Some(list) ==> (
        list.len() != attributes@.len() ==> r == Err::<Product, ParseError>(
            ParseError::ValueCountMismatch,
        ))),
        plain_list_text(raw.spec_bytes()) ==> (json_string_list(raw@) matches Some(list) ==> (
        list.len() == attributes@.len() ==> (r matches Ok(
            p,
        ) && p.id == id && p.name == name && p.values@.len() == attributes@.len() && forall|i: int|
            0 <= i < p.values@.len() ==> spec_code(
                attributes@[i].values@,
                list[i],
                #[trigger] p.values@[i] as int,
            )))),
{
    if !is_plain_list_text(raw) {
        return Err(ParseError::InvalidValues);
    }
    match decode_raw_values(raw) {
        Some(list) => {
            let ghost l = list@;
            match encode_values(attributes, list) {
                Ok(values) => {
                    proof {
                        assert forall|i: int| 0 <= i < values@.len() implies spec_code(
                            attributes@[i].values@,
                            json_string_list(raw@).unwrap()[i],
                            #[trigger] values@[i] as int,
                        ) by {
                            assert(json_string_list(raw@).unwrap()[i] == opt_chars(l[i]));
                        }
                    }
                    Ok(Product { id, name, values })
                },
                Err(e) => Err(e),
            }
        },
        None => Err(ParseError::InvalidValues),
    }
}

/// The pairings whose two products are both in the table, in their order.
pub open spec fn keep_known(ps: Seq<Product>, pairs: Seq<(ProductId, ProductId)>) -> Seq<Match>
    decreases pairs.len(),
{
    if pairs.len() == 0 {
        Seq::empty()
    } else {
        let rest = keep_known(ps, pairs.drop_last());
        let m = Match(pairs.last().0, pairs.last().1);
        if known(ps, m) {
            rest.push(m)
        } else {
            rest
        }
    }
}

/// Keeps the pairings whose two products are both in the table.
pub fn filter_matches(products: &Vec<Product>, pairs: &Vec<(ProductId, ProductId)>) -> (r: Vec<
    Match,
>)
    ensures
        r@ == keep_known(products@, pairs@),
{
    let mut kept: Vec<Match> = Vec::new();
    let mut i: usize = 0;
    while i < pairs.len()
        invariant
            i <= pairs@.len(),
            kept@ == keep_known(products@, pairs@.take(i as int)),
        decreases pairs@.len() - i,
    {
        let (a, b) = pairs[i];
        proof {
            assert(pairs@.take(i + 1).drop_last() =~= pairs@.take(i as int));
        }
        if contains_product(products, a) && contains_product(products, b) {
            kept.push(Match(a, b));
        }
        i += 1;
    }
    proof {
        assert(pairs@.take(pairs@.len() as int) =~= pairs@);
    }
    kept
}

} // verus!
