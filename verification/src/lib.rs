//! A verified string calculator.
//!
//! `add` sums the numbers of a small textual format: comma- or
//! newline-separated by default, with an optional `//[d]...[d]` header line
//! that installs one or more custom delimiters of any length, whitespace
//! trimmed around tokens, negative numbers rejected (all of them reported),
//! and numbers over 1000 silently left out of the sum.
//!
//! The whole grammar is stated as a specification over byte sequences in
//! `model`, and `add` is proved to return, for every input, exactly the
//! outcome `model::calc_outcome` assigns to it.

use vstd::prelude::*;

pub mod model;
mod scan;

use crate::model::{
    body_outcome, calc_outcome, default_delims, first_bad_token, first_sep_from, kept_values,
    lemma_first_bad_token_skip, lemma_header_delims_nonempty, lemma_kept_push,
    lemma_negatives_push, lemma_no_negatives, lemma_sep_index_at_props, lemma_sep_index_at_shift,
    lemma_subrange_of_subrange, lemma_sum_push, matches_at, negatives_of, nonempty_all,
    sep_index_at, split_tokens, sum_of, token_number, token_value, token_values, trim,
    trimmed_tokens, Outcome,
};
use crate::scan::{delim_views, find_byte, find_sep, parse_header, parse_int, trim_range};
use vstd::slice::{slice_subrange, slice_to_vec};
use vstd::string::StringSliceAdditionalSpecFns;

verus! {

/// Why a call of `add` failed.
#[derive(Debug, PartialEq, Eq)]
pub enum AddError {
    /// A token, once trimmed, does not denote a number: the offending token's
    /// bytes are carried for the caller to report.
    CannotParseNumber(Vec<u8>),
    /// The input declared a custom-delimiter header but the header was
    /// malformed: no newline after the marker, an empty header, or header
    /// text that is not bracketed delimiter segments.
    CannotFindCustomDelimiter,
    /// One or more parsed numbers were negative; all of them are carried, in
    /// input order.
    NegativeNumbersNotAllowed(Vec<i128>),
}

/// The returned value is the one the model assigns to the input: the same
/// sum on success, and the same error with the same payload on failure.
pub open spec fn result_reflects(r: Result<i128, AddError>, oc: Outcome) -> bool {
    match (r, oc) {
        (Ok(n), Outcome::Sum(v)) => n as int == v,
        (Err(AddError::CannotFindCustomDelimiter), Outcome::BadHeader) => true,
        (Err(AddError::CannotParseNumber(t)), Outcome::BadToken(u)) => t@ == u,
        (Err(AddError::NegativeNumbersNotAllowed(ns)), Outcome::Negatives(vs)) => ns@.map_values(
            |x: i128| x as int,
        ) == vs,
        _ => false,
    }
}

/// Two results are the same answer: equal sums, or the same error with the
/// same payload.
pub open spec fn same_answer(r1: Result<i128, AddError>, r2: Result<i128, AddError>) -> bool {
    match (r1, r2) {
        (Ok(a), Ok(b)) => a == b,
        (
            Err(AddError::CannotFindCustomDelimiter),
            Err(AddError::CannotFindCustomDelimiter),
        ) => true,
        (Err(AddError::CannotParseNumber(t1)), Err(AddError::CannotParseNumber(t2))) => t1@ == t2@,
        (
            Err(AddError::NegativeNumbersNotAllowed(n1)),
            Err(AddError::NegativeNumbersNotAllowed(n2)),
        ) => n1@ == n2@,
        _ => false,
    }
}

/// Law: the calculator is a pure function of its input. Any two results that
/// `add`'s contract allows for one and the same input are the same answer, so
/// calling `add` twice on the same string yields the same result.
pub proof fn lemma_add_deterministic(
    s: Seq<u8>,
    r1: Result<i128, AddError>,
    r2: Result<i128, AddError>,
)
    requires
        result_reflects(r1, calc_outcome(s)),
        result_reflects(r2, calc_outcome(s)),
    ensures
        same_answer(r1, r2),
{
    match calc_outcome(s) {
        Outcome::Sum(v) => {},
        Outcome::BadHeader => {},
        Outcome::BadToken(u) => {},
        Outcome::Negatives(vs) => {
            match (r1, r2) {
                (
                    Err(AddError::NegativeNumbersNotAllowed(n1)),
                    Err(AddError::NegativeNumbersNotAllowed(n2)),
                ) => {
                    let f = |x: i128| x as int;
                    assert(n1@.map_values(f).len() == n2@.map_values(f).len());
                    assert forall|j: int| 0 <= j < n1@.len() implies n1@[j] == n2@[j] by {
                        assert(n1@.map_values(f)[j] == n1@[j] as int);
                        assert(n2@.map_values(f)[j] == n2@[j] as int);
                    }
                    assert(n1@ =~= n2@);
                },
                _ => {},
            }
        },
    }
}

/// The views of a list of token ranges into `b`.
pub open spec fn range_views(b: Seq<u8>, rs: Seq<(usize, usize)>) -> Seq<Seq<u8>> {
    rs.map_values(|r: (usize, usize)| b.subrange(r.0 as int, r.1 as int))
}

/// Sums the string of numbers `input`.
///
/// On success the result is the sum of the parsed numbers that are at most
/// 1000. The input is split on the active delimiters (comma and newline by
/// default, or those a `//[d]...[d]` header line installs), each token is
/// trimmed of surrounding whitespace and parsed as a signed base-10 integer,
/// the leftmost unparsable token is reported as `CannotParseNumber`, and
/// negative numbers are all collected and reported as
/// `NegativeNumbersNotAllowed`. The contract pins the result, for every
/// input, to the model's outcome.
///
/// The sum is returned as an `i128`: every summed value lies in `[0, 1000]`
/// and there are never more values than the input has bytes, so the sum of
/// any input that fits in memory is representable.
pub fn add(input: &str) -> (r: Result<i128, AddError>)
    ensures
        result_reflects(r, calc_outcome(input.spec_bytes())),
{
    let b: &[u8] = input.as_bytes();
    if b.len() == 0 {
        return Ok(0);
    }
    if b.len() >= 2 && b[0] == 47 && b[1] == 47 {
        match find_byte(b, 10, 2) {
            None => Err(AddError::CannotFindCustomDelimiter),
            Some(nl) => {
                if nl == 2 {
                    proof {
                        assert(b@.subrange(2, 2) =~= Seq::<u8>::empty());
                    }
                    return Err(AddError::CannotFindCustomDelimiter);
                }
                let header = slice_subrange(b, 2, nl);
                match parse_header(header) {
                    None => Err(AddError::CannotFindCustomDelimiter),
                    Some(delims) => {
                        proof {
                            lemma_header_delims_nonempty(header@);
                        }
                        let body = slice_subrange(b, nl + 1, b.len());
                        sum_body(body, &delims)
                    },
                }
            },
        }
    } else {
        let mut comma: Vec<u8> = Vec::new();
        comma.push(44);
        let mut newline: Vec<u8> = Vec::new();
        newline.push(10);
        let mut delims: Vec<Vec<u8>> = Vec::new();
        delims.push(comma);
        delims.push(newline);
        proof {
            assert(delim_views(delims@)[0] =~= seq![44u8]);
            assert(delim_views(delims@)[1] =~= seq![10u8]);
            assert(delim_views(delims@) =~= default_delims());
        }
        sum_body(b, &delims)
    }
}

/// Splits the numbers-body on the delimiter list, then trims, parses,
/// validates and sums the tokens, exactly as the model's `body_outcome` says.
fn sum_body(body: &[u8], delims: &Vec<Vec<u8>>) -> (r: Result<i128, AddError>)
    requires
        nonempty_all(delim_views(delims@)),
    ensures
        result_reflects(r, body_outcome(body@, delim_views(delims@))),
{
    let ghost ds = delim_views(delims@);
    // Split the body into token ranges.
    let mut toks: Vec<(usize, usize)> = Vec::new();
    let mut tok_lo: usize = 0;
    let mut i: usize = 0;
    proof {
        assert(body@.subrange(0, body@.len() as int) =~= body@);
        assert(range_views(body@, toks@) =~= Seq::<Seq<u8>>::empty());
    }
    loop
        invariant_except_break
            first_sep_from(body@.subrange(tok_lo as int, body@.len() as int), ds, 0)
                == first_sep_from(
                body@.subrange(tok_lo as int, body@.len() as int),
                ds,
                i - tok_lo,
            ),
            split_tokens(body@, ds) == range_views(body@, toks@) + split_tokens(
                body@.subrange(tok_lo as int, body@.len() as int),
                ds,
            ),
        invariant
            ds == delim_views(delims@),
            nonempty_all(ds),
            tok_lo <= i <= body@.len(),
            forall|j: int|
                0 <= j < toks@.len() ==> (#[trigger] toks@[j]).0 <= toks@[j].1 <= body@.len(),
        ensures
            range_views(body@, toks@) == split_tokens(body@, ds),
            forall|j: int|
                0 <= j < toks@.len() ==> (#[trigger] toks@[j]).0 <= toks@[j].1 <= body@.len(),
        decreases body@.len() - i,
    {
        let ghost rem = body@.subrange(tok_lo as int, body@.len() as int);
        if i == body.len() {
            proof {
                assert(first_sep_from(rem, ds, i - tok_lo) is None);
                assert(split_tokens(rem, ds) == seq![rem]);
                assert(range_views(body@, toks@.push((tok_lo, i))) =~= range_views(body@, toks@)
                    + seq![rem]);
                assert(range_views(body@, toks@) + seq![rem] =~= range_views(body@, toks@)
                    + split_tokens(rem, ds));
            }
            toks.push((tok_lo, i));
            break;
        }
        proof {
            lemma_sep_index_at_shift(body@, tok_lo as int, i - tok_lo, ds);
        }
        match find_sep(body, i, delims) {
            Some(j) => {
                proof {
                    lemma_sep_index_at_props(body@, i as int, ds);
                    assert(matches_at(body@, i as int, ds[j as int]));
                    assert(ds[j as int] == delims@[j as int]@);
                }
                let dl = delims[j].len();
                proof {
                    assert(i + dl <= body@.len());
                    assert(first_sep_from(rem, ds, i - tok_lo) == Some(
                        ((i - tok_lo) as int, dl as int),
                    ));
                    assert(split_tokens(rem, ds) == seq![rem.subrange(0, i - tok_lo)]
                        + split_tokens(rem.subrange(i - tok_lo + dl, rem.len() as int), ds));
                    lemma_subrange_of_subrange(
                        body@,
                        tok_lo as int,
                        body@.len() as int,
                        0,
                        i - tok_lo,
                    );
                    lemma_subrange_of_subrange(
                        body@,
                        tok_lo as int,
                        body@.len() as int,
                        i - tok_lo + dl,
                        rem.len() as int,
                    );
                    assert(rem.subrange(0, i - tok_lo) == body@.subrange(tok_lo as int, i as int));
                    assert(rem.subrange(i - tok_lo + dl, rem.len() as int) == body@.subrange(
                        i + dl,
                        body@.len() as int,
                    ));
                    assert(range_views(body@, toks@.push((tok_lo, i))) =~= range_views(
                        body@,
                        toks@,
                    ) + seq![body@.subrange(tok_lo as int, i as int)]);
                    assert(range_views(body@, toks@) + (seq![rem.subrange(0, i - tok_lo)]
                        + split_tokens(rem.subrange(i - tok_lo + dl, rem.len() as int), ds))
                        =~= (range_views(body@, toks@) + seq![rem.subrange(0, i - tok_lo)])
                        + split_tokens(rem.subrange(i - tok_lo + dl, rem.len() as int), ds));
                }
                toks.push((tok_lo, i));
                tok_lo = i + dl;
                i = tok_lo;
            },
            None => {
                proof {
                    assert(sep_index_at(rem, i - tok_lo, ds) is None);
                    assert(first_sep_from(rem, ds, i - tok_lo) == first_sep_from(
                        rem,
                        ds,
                        i - tok_lo + 1,
                    ));
                }
                i = i + 1;
            },
        }
    }
    // Trim and parse each token, reporting the leftmost failure.
    let ghost tts = trimmed_tokens(body@, ds);
    proof {
        assert(tts.len() == toks@.len());
        assert(forall|j: int|
            0 <= j < toks@.len() ==> tts[j] == trim(
                body@.subrange((#[trigger] toks@[j]).0 as int, toks@[j].1 as int),
            ));
    }
    let n = toks.len();
    let mut nums: Vec<i128> = Vec::new();
    let mut k: usize = 0;
    while k < n
        invariant
            n == toks@.len(),
            ds == delim_views(delims@),
            tts == trimmed_tokens(body@, ds),
            tts.len() == toks@.len(),
            forall|j: int|
                0 <= j < toks@.len() ==> (#[trigger] toks@[j]).0 <= toks@[j].1 <= body@.len(),
            forall|j: int|
                0 <= j < toks@.len() ==> tts[j] == trim(
                    body@.subrange((#[trigger] toks@[j]).0 as int, toks@[j].1 as int),
                ),
            0 <= k <= toks@.len(),
            nums@.len() == k,
            forall|j: int| 0 <= j < k ==> token_number(#[trigger] tts[j]) == Some(
                nums@[j] as int,
            ),
        decreases n - k,
    {
        let pair = toks[k];
        let (tlo, thi) = trim_range(body, pair.0, pair.1);
        match parse_int(body, tlo, thi) {
            Some(v) => {
                nums.push(v);
            },
            None => {
                let tok = slice_to_vec(slice_subrange(body, tlo, thi));
                proof {
                    lemma_first_bad_token_skip(tts, k as int);
                    assert(tts.skip(k as int)[0] == tts[k as int]);
                    assert(first_bad_token(tts) == Some(tts[k as int]));
                }
                return Err(AddError::CannotParseNumber(tok));
            },
        }
        k = k + 1;
    }
    proof {
        lemma_first_bad_token_skip(tts, tts.len() as int);
        assert(tts.skip(tts.len() as int) =~= Seq::<Seq<u8>>::empty());
        assert(first_bad_token(tts) is None);
    }
    let ghost vals = token_values(tts);
    proof {
        assert(vals.len() == nums@.len());
        assert(forall|j: int| 0 <= j < vals.len() ==> vals[j] == token_value(#[trigger] tts[j]));
        assert(forall|j: int| 0 <= j < nums@.len() ==> nums@[j] as int == vals[j]);
    }
    // Collect the negative numbers.
    let mut negs: Vec<i128> = Vec::new();
    let mut k2: usize = 0;
    proof {
        assert(vals.take(0) =~= Seq::<int>::empty());
        assert(negs@.map_values(|x: i128| x as int) =~= Seq::<int>::empty());
    }
    while k2 < n
        invariant
            n == nums@.len(),
            nums@.len() == vals.len(),
            forall|j: int| 0 <= j < nums@.len() ==> nums@[j] as int == vals[j],
            0 <= k2 <= vals.len(),
            negs@.map_values(|x: i128| x as int) == negatives_of(vals.take(k2 as int)),
        decreases n - k2,
    {
        let v = nums[k2];
        proof {
            lemma_negatives_push(vals.take(k2 as int), vals[k2 as int]);
            assert(vals.take(k2 as int).push(vals[k2 as int]) =~= vals.take(k2 + 1));
            if v < 0 {
                assert(negs@.push(v).map_values(|x: i128| x as int) =~= negs@.map_values(
                    |x: i128| x as int,
                ).push(v as int));
            }
        }
        if v < 0 {
            negs.push(v);
        }
        k2 = k2 + 1;
    }
    proof {
        assert(vals.take(vals.len() as int) =~= vals);
    }
    if negs.len() > 0 {
        return Err(AddError::NegativeNumbersNotAllowed(negs));
    }
    proof {
        assert(negatives_of(vals).len() == 0);
        lemma_no_negatives(vals);
    }
    // Sum the numbers that are at most 1000.
    let mut total: i128 = 0;
    let mut k3: usize = 0;
    proof {
        assert(kept_values(vals.take(0)) =~= Seq::<int>::empty());
    }
    while k3 < n
        invariant
            n == nums@.len(),
            nums@.len() == vals.len(),
            forall|j: int| 0 <= j < nums@.len() ==> nums@[j] as int == vals[j],
            forall|j: int| 0 <= j < vals.len() ==> vals[j] >= 0,
            0 <= k3 <= vals.len(),
            0 <= total as int <= 1000 * k3,
            total as int == sum_of(kept_values(vals.take(k3 as int))),
        decreases n - k3,
    {
        let v = nums[k3];
        proof {
            lemma_kept_push(vals.take(k3 as int), vals[k3 as int]);
            assert(vals.take(k3 as int).push(vals[k3 as int]) =~= vals.take(k3 + 1));
            if vals[k3 as int] <= 1000 {
                lemma_sum_push(kept_values(vals.take(k3 as int)), vals[k3 as int]);
            }
        }
        if v <= 1000 {
            total = total + v;
        }
        k3 = k3 + 1;
    }
    proof {
        assert(vals.take(vals.len() as int) =~= vals);
    }
    Ok(total)
}

} // verus!
