//! The mathematical model of the calculator's grammar.
//!
//! Everything here is specification: the input is a sequence of bytes, and
//! `calc_outcome` says, for every input, whether the calculator succeeds and
//! with which sum, or fails and with which error. The executable code in the
//! rest of the crate is proved to return exactly what `calc_outcome` says.

use vstd::prelude::*;

verus! {

/// ASCII decimal digit.
pub open spec fn is_digit(b: u8) -> bool {
    48 <= b <= 57
}

/// ASCII whitespace, as trimmed from around tokens.
pub open spec fn is_space(b: u8) -> bool {
    b == 32 || b == 9 || b == 10 || b == 11 || b == 12 || b == 13
}

/// Drops leading whitespace.
pub open spec fn trim_front(t: Seq<u8>) -> Seq<u8>
    decreases t.len(),
{
    if t.len() > 0 && is_space(t[0]) {
        trim_front(t.subrange(1, t.len() as int))
    } else {
        t
    }
}

/// Drops trailing whitespace.
pub open spec fn trim_back(t: Seq<u8>) -> Seq<u8>
    decreases t.len(),
{
    if t.len() > 0 && is_space(t[t.len() - 1]) {
        trim_back(t.subrange(0, t.len() - 1))
    } else {
        t
    }
}

/// Drops whitespace from both ends of a token.
pub open spec fn trim(t: Seq<u8>) -> Seq<u8> {
    trim_back(trim_front(t))
}

/// All bytes of `t` are decimal digits.
pub open spec fn all_digits(t: Seq<u8>) -> bool {
    forall|i: int| 0 <= i < t.len() ==> is_digit(#[trigger] t[i])
}

/// The value of a digit string, most significant digit first.
pub open spec fn digits_value(t: Seq<u8>) -> int
    decreases t.len(),
{
    if t.len() == 0 {
        0
    } else {
        digits_value(t.drop_last()) * 10 + (t.last() - 48)
    }
}

/// The token starts with an explicit sign.
pub open spec fn has_sign(t: Seq<u8>) -> bool {
    t.len() > 0 && (t[0] == 43 || t[0] == 45)
}

/// The digits of a token, after any sign.
pub open spec fn digits_part(t: Seq<u8>) -> Seq<u8> {
    if has_sign(t) {
        t.subrange(1, t.len() as int)
    } else {
        t
    }
}

/// The token is an optional sign followed by one or more digits.
pub open spec fn is_number_token(t: Seq<u8>) -> bool {
    digits_part(t).len() > 0 && all_digits(digits_part(t))
}

/// The signed value of a well-formed number token.
pub open spec fn token_value(t: Seq<u8>) -> int {
    if t.len() > 0 && t[0] == 45 {
        -digits_value(digits_part(t))
    } else {
        digits_value(digits_part(t))
    }
}

/// The number a token denotes, or `None` when the token is malformed or its
/// value does not fit the machine's signed 128-bit range.
pub open spec fn token_number(t: Seq<u8>) -> Option<int> {
    if is_number_token(t) && i128::MIN as int <= token_value(t) && token_value(t) <= i128::MAX as int {
        Some(token_value(t))
    } else {
        None
    }
}

/// Every delimiter in the list is non-empty.
pub open spec fn nonempty_all(ds: Seq<Seq<u8>>) -> bool {
    forall|i: int| 0 <= i < ds.len() ==> (#[trigger] ds[i]).len() > 0
}

/// Delimiter `d` occurs in `s` at position `i`.
pub open spec fn matches_at(s: Seq<u8>, i: int, d: Seq<u8>) -> bool {
    0 <= i && i + d.len() <= s.len() && s.subrange(i, i + d.len()) == d
}

/// The index in `ds` of the first delimiter that occurs in `s` at position
/// `i`, if any. Earlier delimiters in the list take precedence.
pub open spec fn sep_index_at(s: Seq<u8>, i: int, ds: Seq<Seq<u8>>) -> Option<int>
    decreases ds.len(),
{
    if ds.len() == 0 {
        None
    } else if matches_at(s, i, ds[0]) {
        Some(0)
    } else {
        match sep_index_at(s, i, ds.drop_first()) {
            None => None,
            Some(j) => Some(j + 1),
        }
    }
}

/// The first position at or after `i` where some delimiter occurs, together
/// with the length of the winning delimiter.
pub open spec fn first_sep_from(s: Seq<u8>, ds: Seq<Seq<u8>>, i: int) -> Option<(int, int)>
    decreases s.len() - i,
{
    if i < 0 || i >= s.len() {
        None
    } else {
        match sep_index_at(s, i, ds) {
            Some(j) => Some((i, ds[j].len() as int)),
            None => first_sep_from(s, ds, i + 1),
        }
    }
}

/// The first position at or after `i` where byte `target` occurs.
pub open spec fn find_byte_from(s: Seq<u8>, target: u8, i: int) -> Option<int>
    decreases s.len() - i,
{
    if i < 0 || i >= s.len() {
        None
    } else if s[i] == target {
        Some(i)
    } else {
        find_byte_from(s, target, i + 1)
    }
}

/// Splits `s` on the delimiter list `ds`, keeping empty tokens, as an
/// ordinary split does.
pub open spec fn split_tokens(s: Seq<u8>, ds: Seq<Seq<u8>>) -> Seq<Seq<u8>>
    decreases s.len(),
    when nonempty_all(ds)
    via split_tokens_decreases
{
    match first_sep_from(s, ds, 0) {
        None => seq![s],
        Some((p, l)) => seq![s.subrange(0, p)] + split_tokens(s.subrange(p + l, s.len() as int), ds),
    }
}

#[via_fn]
proof fn split_tokens_decreases(s: Seq<u8>, ds: Seq<Seq<u8>>) {
    match first_sep_from(s, ds, 0) {
        None => {},
        Some((p, l)) => {
            lemma_first_sep_from_props(s, ds, 0);
        },
    }
}

/// The delimiter lists a header may install: one or more bracketed segments
/// `[d]`, each `d` non-empty and free of `]`, covering the whole header.
/// `None` when the header text is not of that shape.
pub open spec fn header_delims(h: Seq<u8>) -> Option<Seq<Seq<u8>>>
    decreases h.len(),
    via header_delims_decreases
{
    if h.len() == 0 {
        Some(Seq::empty())
    } else if h[0] != 91 {
        None
    } else {
        match find_byte_from(h, 93, 1) {
            None => None,
            Some(c) => if c == 1 {
                None
            } else {
                match header_delims(h.subrange(c + 1, h.len() as int)) {
                    None => None,
                    Some(rest) => Some(seq![h.subrange(1, c)] + rest),
                }
            },
        }
    }
}

#[via_fn]
proof fn header_delims_decreases(h: Seq<u8>) {
    if h.len() > 0 && h[0] == 91 {
        lemma_find_byte_from_props(h, 93, 1);
    }
}

/// The two default delimiters: comma and newline.
pub open spec fn default_delims() -> Seq<Seq<u8>> {
    seq![seq![44u8], seq![10u8]]
}

/// The input opens with the custom-delimiter marker `//`.
pub open spec fn has_marker(s: Seq<u8>) -> bool {
    s.len() >= 2 && s[0] == 47 && s[1] == 47
}

/// The active delimiter list and the numbers-body of the input, or `None`
/// when a custom-delimiter header is declared but malformed: no newline after
/// the marker, an empty header, or a header that is not bracketed segments.
pub open spec fn delim_config(s: Seq<u8>) -> Option<(Seq<Seq<u8>>, Seq<u8>)> {
    if has_marker(s) {
        match find_byte_from(s, 10, 2) {
            None => None,
            Some(nl) => {
                let h = s.subrange(2, nl);
                if h.len() == 0 {
                    None
                } else {
                    match header_delims(h) {
                        None => None,
                        Some(ds) => Some((ds, s.subrange(nl + 1, s.len() as int))),
                    }
                }
            },
        }
    } else {
        Some((default_delims(), s))
    }
}

/// The tokens of the numbers-body, each trimmed of surrounding whitespace.
pub open spec fn trimmed_tokens(body: Seq<u8>, ds: Seq<Seq<u8>>) -> Seq<Seq<u8>> {
    split_tokens(body, ds).map_values(|t: Seq<u8>| trim(t))
}

/// The leftmost token that does not denote a number, if any.
pub open spec fn first_bad_token(ts: Seq<Seq<u8>>) -> Option<Seq<u8>>
    decreases ts.len(),
{
    if ts.len() == 0 {
        None
    } else if token_number(ts[0]) is None {
        Some(ts[0])
    } else {
        first_bad_token(ts.drop_first())
    }
}

/// The values the tokens denote, in input order.
pub open spec fn token_values(ts: Seq<Seq<u8>>) -> Seq<int> {
    ts.map_values(|t: Seq<u8>| token_value(t))
}

/// The negative values, in input order.
pub open spec fn negatives_of(vs: Seq<int>) -> Seq<int>
    decreases vs.len(),
{
    if vs.len() == 0 {
        Seq::empty()
    } else {
        let front = negatives_of(vs.drop_last());
        if vs.last() < 0 {
            front.push(vs.last())
        } else {
            front
        }
    }
}

/// The values that enter the sum: those not above 1000, in input order.
pub open spec fn kept_values(vs: Seq<int>) -> Seq<int>
    decreases vs.len(),
{
    if vs.len() == 0 {
        Seq::empty()
    } else {
        let front = kept_values(vs.drop_last());
        if vs.last() <= 1000 {
            front.push(vs.last())
        } else {
            front
        }
    }
}

/// The sum of a sequence of values.
pub open spec fn sum_of(vs: Seq<int>) -> int
    decreases vs.len(),
{
    if vs.len() == 0 {
        0
    } else {
        sum_of(vs.drop_last()) + vs.last()
    }
}

/// What one call of the calculator comes to.
pub enum Outcome {
    /// Success, with the computed sum.
    Sum(int),
    /// A custom-delimiter header was declared but malformed.
    BadHeader,
    /// The leftmost token (trimmed) that does not denote a number in range.
    BadToken(Seq<u8>),
    /// The negative values found, in input order.
    Negatives(Seq<int>),
}

/// The outcome of summing a numbers-body under a delimiter list.
pub open spec fn body_outcome(body: Seq<u8>, ds: Seq<Seq<u8>>) -> Outcome {
    let ts = trimmed_tokens(body, ds);
    match first_bad_token(ts) {
        Some(t) => Outcome::BadToken(t),
        None => {
            let vs = token_values(ts);
            if negatives_of(vs).len() > 0 {
                Outcome::Negatives(negatives_of(vs))
            } else {
                Outcome::Sum(sum_of(kept_values(vs)))
            }
        },
    }
}

/// The outcome of the calculator on a whole input: an empty input sums to
/// zero at once; otherwise the delimiter configuration is read and the
/// numbers-body is split, trimmed, parsed, validated, filtered and summed.
pub open spec fn calc_outcome(s: Seq<u8>) -> Outcome {
    if s.len() == 0 {
        Outcome::Sum(0)
    } else {
        match delim_config(s) {
            None => Outcome::BadHeader,
            Some(cfg) => body_outcome(cfg.1, cfg.0),
        }
    }
}

/// What `sep_index_at` returns: a real index of a delimiter that occurs at
/// `i`, earlier list entries preferred; `None` means no delimiter occurs.
pub proof fn lemma_sep_index_at_props(s: Seq<u8>, i: int, ds: Seq<Seq<u8>>)
    ensures
        match sep_index_at(s, i, ds) {
            Some(j) => 0 <= j < ds.len() && matches_at(s, i, ds[j])
                && (forall|k: int| 0 <= k < j ==> !matches_at(s, i, #[trigger] ds[k])),
            None => forall|k: int| 0 <= k < ds.len() ==> !matches_at(s, i, #[trigger] ds[k]),
        },
    decreases ds.len(),
{
    if ds.len() == 0 {
    } else if matches_at(s, i, ds[0]) {
    } else {
        let rest = ds.drop_first();
        lemma_sep_index_at_props(s, i, rest);
        assert(forall|k: int| 0 <= k < rest.len() ==> #[trigger] rest[k] == ds[k + 1]);
        match sep_index_at(s, i, rest) {
            Some(j) => {
                assert(rest[j] == ds[j + 1]);
                assert forall|k: int| 0 <= k < j + 1 implies !matches_at(s, i, #[trigger] ds[k]) by {
                    if k >= 1 {
                        assert(rest[k - 1] == ds[k]);
                    }
                }
            },
            None => {
                assert forall|k: int| 0 <= k < ds.len() implies !matches_at(s, i, #[trigger] ds[k]) by {
                    if k >= 1 {
                        assert(rest[k - 1] == ds[k]);
                    }
                }
            },
        }
    }
}

/// What `first_sep_from` returns: the earliest delimiter occurrence at or
/// after `i`, with the winning delimiter's length; `None` means none occurs.
pub proof fn lemma_first_sep_from_props(s: Seq<u8>, ds: Seq<Seq<u8>>, i: int)
    requires
        0 <= i,
    ensures
        match first_sep_from(s, ds, i) {
            Some(pl) => {
                &&& i <= pl.0 < s.len()
                &&& pl.0 + pl.1 <= s.len()
                &&& (nonempty_all(ds) ==> pl.1 >= 1)
                &&& sep_index_at(s, pl.0, ds) is Some
                &&& pl.1 == ds[sep_index_at(s, pl.0, ds).unwrap()].len()
                &&& (forall|k: int| i <= k < pl.0 ==> sep_index_at(s, k, ds) is None)
            },
            None => forall|k: int| i <= k < s.len() ==> sep_index_at(s, k, ds) is None,
        },
    decreases s.len() - i,
{
    if i >= s.len() {
    } else {
        match sep_index_at(s, i, ds) {
            Some(j) => {
                lemma_sep_index_at_props(s, i, ds);
            },
            None => {
                lemma_first_sep_from_props(s, ds, i + 1);
            },
        }
    }
}

/// What `find_byte_from` returns: the first occurrence of `target` at or
/// after `i`; `None` means the byte does not occur there.
pub proof fn lemma_find_byte_from_props(s: Seq<u8>, target: u8, i: int)
    requires
        0 <= i,
    ensures
        match find_byte_from(s, target, i) {
            Some(p) => i <= p < s.len() && s[p] == target
                && (forall|k: int| i <= k < p ==> s[k] != target),
            None => forall|k: int| i <= k < s.len() ==> s[k] != target,
        },
    decreases s.len() - i,
{
    if i >= s.len() {
    } else if s[i] == target {
    } else {
        lemma_find_byte_from_props(s, target, i + 1);
    }
}

/// The numbers the input derives, before any validation: split the
/// numbers-body on the active delimiters, trim each token, and read each
/// token's value. An empty input, or one whose header is malformed, derives
/// no numbers.
pub open spec fn derived_numbers(s: Seq<u8>) -> Seq<int> {
    if s.len() == 0 {
        Seq::empty()
    } else {
        match delim_config(s) {
            None => Seq::empty(),
            Some(cfg) => token_values(trimmed_tokens(cfg.1, cfg.0)),
        }
    }
}

/// Law: every successful sum is the arithmetic sum of the filtered, validated
/// number sequence independently re-derived from the input — split, trim,
/// parse, then keep only the values at most 1000.
pub proof fn lemma_sum_is_rederivation(s: Seq<u8>)
    requires
        calc_outcome(s) is Sum,
    ensures
        calc_outcome(s) == Outcome::Sum(sum_of(kept_values(derived_numbers(s)))),
{
    if s.len() == 0 {
        assert(kept_values(derived_numbers(s)) =~= Seq::<int>::empty());
    }
}

/// A subrange of a subrange is a subrange of the original sequence.
pub proof fn lemma_subrange_of_subrange(s: Seq<u8>, a: int, b: int, x: int, y: int)
    requires
        0 <= a <= b <= s.len(),
        0 <= x <= y <= b - a,
    ensures
        s.subrange(a, b).subrange(x, y) == s.subrange(a + x, a + y),
{
    assert(s.subrange(a, b).subrange(x, y) =~= s.subrange(a + x, a + y));
}

/// A delimiter occurs in a tail of `s` exactly where it occurs in `s`.
pub proof fn lemma_matches_at_shift(s: Seq<u8>, a: int, k: int, d: Seq<u8>)
    requires
        0 <= a <= s.len(),
        0 <= k,
    ensures
        matches_at(s.subrange(a, s.len() as int), k, d) <==> matches_at(s, a + k, d),
{
    let rem = s.subrange(a, s.len() as int);
    if k + d.len() <= rem.len() {
        lemma_subrange_of_subrange(s, a, s.len() as int, k, k + d.len());
    }
}

/// The winning delimiter in a tail of `s` is the winning delimiter in `s`.
pub proof fn lemma_sep_index_at_shift(s: Seq<u8>, a: int, k: int, ds: Seq<Seq<u8>>)
    requires
        0 <= a <= s.len(),
        0 <= k,
    ensures
        sep_index_at(s.subrange(a, s.len() as int), k, ds) == sep_index_at(s, a + k, ds),
    decreases ds.len(),
{
    if ds.len() > 0 {
        lemma_matches_at_shift(s, a, k, ds[0]);
        lemma_sep_index_at_shift(s, a, k, ds.drop_first());
    }
}

/// Finding a byte in a tail of `s` is finding it in `s`, indices shifted.
pub proof fn lemma_find_byte_from_shift(s: Seq<u8>, a: int, target: u8, k: int)
    requires
        0 <= a <= s.len(),
        0 <= k,
    ensures
        find_byte_from(s.subrange(a, s.len() as int), target, k) == match find_byte_from(
            s,
            target,
            a + k,
        ) {
            None => None::<int>,
            Some(p) => Some(p - a),
        },
    decreases s.len() - a - k,
{
    let rem = s.subrange(a, s.len() as int);
    if k < rem.len() {
        if rem[k] != target {
            lemma_find_byte_from_shift(s, a, target, k + 1);
        }
    }
}

/// A digit string's value is never negative.
pub proof fn lemma_digits_value_nonneg(t: Seq<u8>)
    requires
        all_digits(t),
    ensures
        digits_value(t) >= 0,
    decreases t.len(),
{
    if t.len() > 0 {
        lemma_digits_value_nonneg(t.drop_last());
    }
}

/// Extending a digit string multiplies and adds: the value of a prefix never
/// exceeds the value of the whole.
pub proof fn lemma_digits_value_prefix_le(t: Seq<u8>, m: int)
    requires
        all_digits(t),
        0 <= m <= t.len(),
    ensures
        digits_value(t.subrange(0, m)) <= digits_value(t),
    decreases t.len(),
{
    if m == t.len() {
        assert(t.subrange(0, m) =~= t);
    } else {
        assert(t.drop_last() =~= t.subrange(0, t.len() - 1));
        assert(all_digits(t.drop_last()));
        lemma_digits_value_prefix_le(t.drop_last(), m);
        assert(t.drop_last().subrange(0, m) =~= t.subrange(0, m));
        lemma_digits_value_nonneg(t.drop_last());
    }
}

/// The negatives of a sequence extended by one value.
pub proof fn lemma_negatives_push(vs: Seq<int>, v: int)
    ensures
        negatives_of(vs.push(v)) == if v < 0 {
            negatives_of(vs).push(v)
        } else {
            negatives_of(vs)
        },
{
    assert(vs.push(v).drop_last() =~= vs);
}

/// The kept values of a sequence extended by one value.
pub proof fn lemma_kept_push(vs: Seq<int>, v: int)
    ensures
        kept_values(vs.push(v)) == if v <= 1000 {
            kept_values(vs).push(v)
        } else {
            kept_values(vs)
        },
{
    assert(vs.push(v).drop_last() =~= vs);
}

/// A sequence without negatives holds no value below zero.
pub proof fn lemma_no_negatives(vs: Seq<int>)
    requires
        negatives_of(vs).len() == 0,
    ensures
        forall|j: int| 0 <= j < vs.len() ==> vs[j] >= 0,
    decreases vs.len(),
{
    if vs.len() > 0 {
        lemma_no_negatives(vs.drop_last());
        assert(forall|j: int| 0 <= j < vs.len() - 1 ==> vs[j] == vs.drop_last()[j]);
    }
}


/// The sum of a sequence extended by one element.
pub proof fn lemma_sum_push(vs: Seq<int>, v: int)
    ensures
        sum_of(vs.push(v)) == sum_of(vs) + v,
{
    assert(vs.push(v).drop_last() =~= vs);
}

/// If the first `k` tokens denote numbers, the leftmost bad token of the
/// whole list is the leftmost bad token after them.
pub proof fn lemma_first_bad_token_skip(ts: Seq<Seq<u8>>, k: int)
    requires
        0 <= k <= ts.len(),
        forall|j: int| 0 <= j < k ==> token_number(#[trigger] ts[j]) is Some,
    ensures
        first_bad_token(ts) == first_bad_token(ts.skip(k)),
    decreases k,
{
    if k > 0 {
        let rest = ts.drop_first();
        assert(token_number(ts[0]) is Some);
        assert(forall|j: int| 0 <= j < k - 1 ==> #[trigger] rest[j] == ts[j + 1]);
        lemma_first_bad_token_skip(rest, k - 1);
        assert(rest.skip(k - 1) =~= ts.skip(k));
    } else {
        assert(ts.skip(0) =~= ts);
    }
}

/// Every delimiter a well-formed header installs is non-empty.
pub proof fn lemma_header_delims_nonempty(h: Seq<u8>)
    requires
        header_delims(h) is Some,
    ensures
        nonempty_all(header_delims(h).unwrap()),
    decreases h.len(),
{
    if h.len() == 0 {
    } else {
        lemma_find_byte_from_props(h, 93, 1);
        match find_byte_from(h, 93, 1) {
            None => {},
            Some(c) => {
                if c != 1 {
                    let tail = h.subrange(c + 1, h.len() as int);
                    lemma_header_delims_nonempty(tail);
                    let ds = header_delims(h).unwrap();
                    let rest = header_delims(tail).unwrap();
                    assert forall|i: int| 0 <= i < ds.len() implies (#[trigger] ds[i]).len() > 0 by {
                        if i > 0 {
                            assert(ds[i] == rest[i - 1]);
                        }
                    }
                }
            },
        }
    }
}

} // verus!
