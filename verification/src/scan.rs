//! Executable scanning helpers: byte search, delimiter matching, trimming
//! and number parsing, each proved against the model in `model`.

use vstd::prelude::*;

use crate::model::{
    all_digits, digits_part, digits_value, find_byte_from, has_sign, header_delims, is_digit,
    is_number_token, is_space, lemma_digits_value_prefix_le, lemma_find_byte_from_shift,
    lemma_subrange_of_subrange, matches_at, sep_index_at, token_number, token_value, trim,
    trim_back, trim_front,
};
use vstd::slice::{slice_subrange, slice_to_vec};

verus! {

/// The views of a list of delimiter buffers.
pub open spec fn delim_views(ds: Seq<Vec<u8>>) -> Seq<Seq<u8>> {
    ds.map_values(|d: Vec<u8>| d@)
}

/// The first occurrence of `target` in `b` at or after `from`.
#[verifier::loop_isolation(false)]
pub(crate) fn find_byte(b: &[u8], target: u8, from: usize) -> (r: Option<usize>)
    ensures
        match r {
            Some(p) => from <= p < b@.len() && find_byte_from(b@, target, from as int) == Some(
                p as int,
            ),
            None => find_byte_from(b@, target, from as int) is None,
        },
{
    let mut i: usize = from;
    loop
        invariant
            from <= i,
            find_byte_from(b@, target, from as int) == find_byte_from(b@, target, i as int),
        decreases b@.len() - i,
    {
        if i >= b.len() {
            return None;
        }
        if b[i] == target {
            return Some(i);
        }
        i = i + 1;
    }
}

/// Whether delimiter `d` occurs in `b` at position `i`.
#[verifier::loop_isolation(false)]
pub(crate) fn matches_prefix(b: &[u8], i: usize, d: &Vec<u8>) -> (r: bool)
    requires
        i <= b@.len(),
    ensures
        r == matches_at(b@, i as int, d@),
{
    if d.len() > b.len() - i {
        return false;
    }
    let mut k: usize = 0;
    while k < d.len()
        invariant
            0 <= k <= d@.len(),
            forall|m: int| 0 <= m < k ==> b@[i + m] == d@[m],
        decreases d@.len() - k,
    {
        if b[i + k] != d[k] {
            proof {
                if matches_at(b@, i as int, d@) {
                    assert(b@.subrange(i as int, i + d@.len())[k as int] == b@[i + k]);
                }
            }
            return false;
        }
        k = k + 1;
    }
    proof {
        assert(b@.subrange(i as int, i + d@.len()) =~= d@);
    }
    true
}

/// The index of the first delimiter in the list that occurs in `b` at
/// position `i`, if any.
#[verifier::loop_isolation(false)]
pub(crate) fn find_sep(b: &[u8], i: usize, delims: &Vec<Vec<u8>>) -> (r: Option<usize>)
    requires
        i <= b@.len(),
    ensures
        match r {
            Some(j) => j < delims@.len() && sep_index_at(b@, i as int, delim_views(delims@))
                == Some(j as int),
            None => sep_index_at(b@, i as int, delim_views(delims@)) is None,
        },
{
    let ghost dv = delim_views(delims@);
    proof {
        assert(dv.skip(0) =~= dv);
    }
    let mut j: usize = 0;
    while j < delims.len()
        invariant
            0 <= j <= delims@.len(),
            sep_index_at(b@, i as int, dv) == (match sep_index_at(
                b@,
                i as int,
                dv.skip(j as int),
            ) {
                None => None::<int>,
                Some(m) => Some(m + j),
            }),
        decreases delims@.len() - j,
    {
        let hit = matches_prefix(b, i, &delims[j]);
        proof {
            assert(dv.skip(j as int)[0] == dv[j as int]);
            assert(dv.skip(j as int).drop_first() =~= dv.skip(j + 1));
        }
        if hit {
            return Some(j);
        }
        j = j + 1;
    }
    proof {
        assert(dv.skip(delims@.len() as int) =~= Seq::<Seq<u8>>::empty());
    }
    None
}

/// Narrows `[lo, hi)` to the same token with surrounding whitespace dropped.
pub(crate) fn trim_range(b: &[u8], lo: usize, hi: usize) -> (r: (usize, usize))
    requires
        lo <= hi <= b@.len(),
    ensures
        lo <= r.0 <= r.1 <= hi,
        b@.subrange(r.0 as int, r.1 as int) == trim(b@.subrange(lo as int, hi as int)),
{
    let mut x: usize = lo;
    loop
        invariant
            lo <= x <= hi <= b@.len(),
            trim_front(b@.subrange(lo as int, hi as int)) == trim_front(
                b@.subrange(x as int, hi as int),
            ),
        ensures
            lo <= x <= hi,
            trim_front(b@.subrange(lo as int, hi as int)) == b@.subrange(x as int, hi as int),
        decreases hi - x,
    {
        if x >= hi {
            break;
        }
        let c = b[x];
        if !(c == 32 || c == 9 || c == 10 || c == 11 || c == 12 || c == 13) {
            break;
        }
        proof {
            let cur = b@.subrange(x as int, hi as int);
            assert(is_space(cur[0]));
            lemma_subrange_of_subrange(b@, x as int, hi as int, 1, cur.len() as int);
        }
        x = x + 1;
    }
    let mut y: usize = hi;
    loop
        invariant
            x <= y <= hi <= b@.len(),
            trim_back(b@.subrange(x as int, hi as int)) == trim_back(
                b@.subrange(x as int, y as int),
            ),
        ensures
            x <= y <= hi,
            trim_back(b@.subrange(x as int, hi as int)) == b@.subrange(x as int, y as int),
        decreases y,
    {
        if y <= x {
            break;
        }
        let c = b[y - 1];
        if !(c == 32 || c == 9 || c == 10 || c == 11 || c == 12 || c == 13) {
            break;
        }
        proof {
            let cur = b@.subrange(x as int, y as int);
            assert(is_space(cur[cur.len() - 1]));
            lemma_subrange_of_subrange(b@, x as int, y as int, 0, cur.len() - 1);
        }
        y = y - 1;
    }
    (x, y)
}

/// Parses the token in `[lo, hi)` as a signed base-10 integer. `None` exactly
/// when the token is malformed or its value does not fit an `i128`.
#[verifier::loop_isolation(false)]
pub(crate) fn parse_int(b: &[u8], lo: usize, hi: usize) -> (r: Option<i128>)
    requires
        lo <= hi <= b@.len(),
    ensures
        match r {
            Some(v) => token_number(b@.subrange(lo as int, hi as int)) == Some(v as int),
            None => token_number(b@.subrange(lo as int, hi as int)) is None,
        },
{
    let ghost t = b@.subrange(lo as int, hi as int);
    if lo == hi {
        return None;
    }
    let first = b[lo];
    let neg = first == 45;
    let d0: usize = if first == 45 || first == 43 {
        lo + 1
    } else {
        lo
    };
    proof {
        assert(t[0] == b@[lo as int]);
        if has_sign(t) {
            lemma_subrange_of_subrange(b@, lo as int, hi as int, 1, t.len() as int);
        }
        assert(digits_part(t) == b@.subrange(d0 as int, hi as int));
    }
    let ghost dp = b@.subrange(d0 as int, hi as int);
    if d0 == hi {
        return None;
    }
    // 2^127: the magnitude of the smallest i128.
    let bound: u128 = (i128::MAX as u128) + 1;
    // The largest magnitude that another digit may extend: floor(2^127 / 10).
    let cap: u128 = 17014118346046923173168730371588410572;
    let mut mag: u128 = 0;
    let mut k: usize = d0;
    while k < hi
        invariant
            d0 <= k <= hi,
            mag <= bound,
            mag as int == digits_value(b@.subrange(d0 as int, k as int)),
            forall|m: int| d0 <= m < k ==> is_digit(#[trigger] b@[m]),
        decreases hi - k,
    {
        let c = b[k];
        if c < 48 || c > 57 {
            proof {
                assert(dp[k - d0] == b@[k as int]);
                assert(!all_digits(dp));
            }
            return None;
        }
        let d = (c - 48) as u128;
        let ghost prefix = b@.subrange(d0 as int, k + 1);
        proof {
            assert(prefix.drop_last() =~= b@.subrange(d0 as int, k as int));
            assert(prefix.last() == b@[k as int]);
            assert(digits_value(prefix) == mag as int * 10 + d);
            assert(all_digits(prefix));
        }
        if mag > cap {
            proof {
                lemma_out_of_range(b@, d0 as int, k + 1, hi as int, t, bound as int);
            }
            return None;
        }
        let next = mag * 10 + d;
        if next > bound {
            proof {
                lemma_out_of_range(b@, d0 as int, k + 1, hi as int, t, bound as int);
            }
            return None;
        }
        mag = next;
        k = k + 1;
    }
    proof {
        assert(b@.subrange(d0 as int, k as int) =~= dp);
        assert(is_number_token(t));
        if neg {
            assert(token_value(t) == -(mag as int));
        } else {
            assert(token_value(t) == mag as int);
        }
    }
    if neg {
        if mag <= i128::MAX as u128 {
            Some(-(mag as i128))
        } else {
            Some(i128::MIN)
        }
    } else {
        if mag <= i128::MAX as u128 {
            Some(mag as i128)
        } else {
            None
        }
    }
}

/// Reads a whole header as bracketed delimiter segments. `None` exactly when
/// the header is not one or more `[d]` segments with non-empty `d`.
pub(crate) fn parse_header(h: &[u8]) -> (r: Option<Vec<Vec<u8>>>)
    ensures
        match r {
            Some(v) => header_delims(h@) == Some(delim_views(v@)),
            None => header_delims(h@) is None,
        },
{
    let mut acc: Vec<Vec<u8>> = Vec::new();
    let mut i: usize = 0;
    proof {
        assert(h@.subrange(0, h@.len() as int) =~= h@);
        assert(delim_views(acc@) =~= Seq::<Seq<u8>>::empty());
    }
    loop
        invariant
            i <= h@.len(),
            header_delims(h@) == (match header_delims(h@.subrange(i as int, h@.len() as int)) {
                None => None::<Seq<Seq<u8>>>,
                Some(rest) => Some(delim_views(acc@) + rest),
            }),
        decreases h@.len() - i,
    {
        let ghost rem = h@.subrange(i as int, h@.len() as int);
        if i == h.len() {
            proof {
                assert(rem =~= Seq::<u8>::empty());
                assert(delim_views(acc@) + Seq::<Seq<u8>>::empty() =~= delim_views(acc@));
            }
            return Some(acc);
        }
        proof {
            assert(rem[0] == h@[i as int]);
        }
        if h[i] != 91 {
            return None;
        }
        proof {
            lemma_find_byte_from_shift(h@, i as int, 93, 1);
        }
        match find_byte(h, 93, i + 1) {
            None => {
                return None;
            },
            Some(c) => {
                if c == i + 1 {
                    return None;
                }
                let d = slice_to_vec(slice_subrange(h, i + 1, c));
                proof {
                    lemma_subrange_of_subrange(h@, i as int, h@.len() as int, 1, c - i);
                    lemma_subrange_of_subrange(
                        h@,
                        i as int,
                        h@.len() as int,
                        c - i + 1,
                        rem.len() as int,
                    );
                    assert(rem.subrange(1, c - i) == d@);
                    assert(rem.subrange(c - i + 1, rem.len() as int) == h@.subrange(
                        c + 1,
                        h@.len() as int,
                    ));
                    assert(delim_views(acc@.push(d)) =~= delim_views(acc@) + seq![d@]);
                    assert(header_delims(rem) == (match header_delims(
                        h@.subrange(c + 1, h@.len() as int),
                    ) {
                        None => None::<Seq<Seq<u8>>>,
                        Some(rest2) => Some(seq![d@] + rest2),
                    }));
                    match header_delims(h@.subrange(c + 1, h@.len() as int)) {
                        None => {},
                        Some(rest2) => {
                            assert(delim_views(acc@) + (seq![d@] + rest2) =~= (delim_views(acc@)
                                + seq![d@]) + rest2);
                        },
                    }
                }
                acc.push(d);
                i = c + 1;
            },
        }
    }
}

/// When some digit prefix of the token already reaches past the magnitude of
/// the smallest `i128`, the token denotes no representable number.
proof fn lemma_out_of_range(b: Seq<u8>, d0: int, k1: int, hi: int, t: Seq<u8>, bound: int)
    requires
        0 <= d0 <= k1 <= hi <= b.len(),
        t.len() > 0,
        digits_part(t) == b.subrange(d0, hi),
        all_digits(b.subrange(d0, k1)),
        digits_value(b.subrange(d0, k1)) > bound,
        bound == i128::MAX as int + 1,
    ensures
        token_number(t) is None,
{
    let dp = b.subrange(d0, hi);
    if all_digits(dp) {
        lemma_subrange_of_subrange(b, d0, hi, 0, k1 - d0);
        assert(b.subrange(d0, k1) == dp.subrange(0, k1 - d0));
        lemma_digits_value_prefix_le(dp, k1 - d0);
        assert(digits_value(dp) > bound);
        assert(token_value(t) == digits_value(dp) || token_value(t) == -digits_value(dp));
    }
}

} // verus!
