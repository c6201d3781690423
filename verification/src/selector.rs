//! The interactive selector's validation: parsing the operator's one input
//! line as a zero-based catalog index and holding it against the catalog's
//! bounds.

use vstd::prelude::*;

use crate::catalog::Catalog;
use crate::catalog::strip_ext_spec;
use crate::render::trim;
use crate::render::trim_spec;

verus! {

/// The byte `+`: a decimal number may carry an explicit plus sign.
pub const PLUS: u8 = 43;

/// A decimal digit byte.
pub open spec fn is_digit(b: u8) -> bool {
    48 <= b <= 57
}

/// The value of a decimal digit string, most significant digit first.
pub open spec fn digits_value(s: Seq<u8>) -> int
    decreases s.len(),
{
    if s.len() == 0 {
        0
    } else {
        digits_value(s.drop_last()) * 10 + (s.last() - 48)
    }
}

/// The digit part of a trimmed input: everything after an optional leading
/// plus sign.
pub open spec fn digits_of(s: Seq<u8>) -> Seq<u8> {
    if s.len() > 0 && s[0] == PLUS {
        s.drop_first()
    } else {
        s
    }
}

/// The input parses as an index exactly when, after trimming, it is an
/// optional plus sign followed by one or more decimal digits whose value
/// fits the platform's index type.
pub open spec fn parses_as_index(s: Seq<u8>) -> bool {
    let d = digits_of(trim_spec(s));
    &&& d.len() > 0
    &&& forall|k: int| 0 <= k < d.len() ==> is_digit(#[trigger] d[k])
    &&& digits_value(d) <= usize::MAX
}

/// The value a parsable input denotes.
pub open spec fn index_value(s: Seq<u8>) -> int {
    digits_value(digits_of(trim_spec(s)))
}

/// A digit string's value is nonnegative.
proof fn lemma_digits_value_nonneg(s: Seq<u8>)
    requires
        forall|k: int| 0 <= k < s.len() ==> is_digit(#[trigger] s[k]),
    ensures
        digits_value(s) >= 0,
    decreases s.len(),
{
    if s.len() > 0 {
        let t = s.drop_last();
        assert forall|k: int| 0 <= k < t.len() implies is_digit(#[trigger] t[k]) by {
            assert(t[k] == s[k]);
        }
        lemma_digits_value_nonneg(t);
        assert(is_digit(s.last()));
    }
}

/// A digit string's value is at least the value of any of its prefixes.
proof fn lemma_digits_value_extend(s: Seq<u8>, k: int)
    requires
        0 <= k <= s.len(),
        forall|j: int| 0 <= j < s.len() ==> is_digit(#[trigger] s[j]),
    ensures
        digits_value(s.take(k)) <= digits_value(s),
    decreases s.len() - k,
{
    if k == s.len() {
        assert(s.take(k) =~= s);
    } else {
        lemma_digits_value_extend(s, k + 1);
        let t = s.take(k + 1);
        assert(t.drop_last() =~= s.take(k));
        assert(t.last() == s[k]);
        assert forall|j: int| 0 <= j < s.take(k).len() implies is_digit(
            #[trigger] s.take(k)[j],
        ) by {
            assert(s.take(k)[j] == s[j]);
        }
        lemma_digits_value_nonneg(s.take(k));
        assert(digits_value(t) == digits_value(s.take(k)) * 10 + (s[k] - 48));
        assert(is_digit(s[k]));
    }
}

/// Parse a raw input line as a zero-based index: after trimming, an optional
/// plus sign followed by decimal digits whose value fits the platform's
/// index type. Returns the value exactly when the input parses.
pub fn parse_index(input: &Vec<u8>) -> (r: Option<usize>)
    ensures
        match r {
            Some(v) => parses_as_index(input@) && v == index_value(input@),
            None => !parses_as_index(input@),
        },
{
    let t = trim(input);
    let ghost d = digits_of(trim_spec(input@));
    let start: usize = if t.len() > 0 && t[0] == PLUS {
        1
    } else {
        0
    };
    proof {
        if t@.len() > 0 && t@[0] == PLUS {
            assert(d =~= t@.skip(1));
        } else {
            assert(d =~= t@.skip(0));
        }
        assert(d.len() == t@.len() - start);
        assert forall|j: int| 0 <= j < d.len() implies d[j] == t@[j + start] by {}
    }
    if t.len() == start {
        return None;
    }
    let mut val: usize = 0;
    let mut i: usize = start;
    proof {
        assert(d.take(0) =~= Seq::<u8>::empty());
    }
    while i < t.len()
        invariant
            start <= i <= t@.len(),
            t@ == trim_spec(input@),
            d == digits_of(trim_spec(input@)),
            d.len() == t@.len() - start,
            forall|j: int| 0 <= j < d.len() ==> d[j] == t@[j + start],
            forall|j: int| 0 <= j < i - start ==> is_digit(#[trigger] d[j]),
            val == digits_value(d.take(i - start)),
        decreases t@.len() - i,
    {
        let b = t[i];
        let ghost j = i - start;
        if b < 48 || b > 57 {
            proof {
                assert(d[j] == t@[i as int]);
                assert(!is_digit(d[j]));
            }
            return None;
        }
        proof {
            assert(d.take(j + 1).drop_last() =~= d.take(j));
            assert(d.take(j + 1).last() == d[j]);
            assert(digits_value(d.take(j + 1)) == val * 10 + (b - 48));
            assert forall|q: int| 0 <= q < j + 1 implies is_digit(#[trigger] d.take(j + 1)[q]) by {
                assert(d.take(j + 1)[q] == d[q]);
            }
            lemma_digits_value_nonneg(d.take(j + 1));
        }
        if val > usize::MAX / 10 {
            proof {
                vstd::arithmetic::div_mod::lemma_fundamental_div_mod(usize::MAX as int, 10);
                vstd::arithmetic::div_mod::lemma_mod_bound(usize::MAX as int, 10);
                assert(val * 10 > usize::MAX);
                if forall|q: int| 0 <= q < d.len() ==> is_digit(#[trigger] d[q]) {
                    lemma_digits_value_extend(d, j + 1);
                    assert(digits_value(d) > usize::MAX);
                }
            }
            return None;
        }
        proof {
            vstd::arithmetic::div_mod::lemma_fundamental_div_mod(usize::MAX as int, 10);
            vstd::arithmetic::div_mod::lemma_mod_bound(usize::MAX as int, 10);
            assert(val * 10 <= usize::MAX);
        }
        let grown: usize = val * 10;
        let digit: usize = (b - 48) as usize;
        if grown > usize::MAX - digit {
            proof {
                assert(digits_value(d.take(j + 1)) > usize::MAX);
                if forall|q: int| 0 <= q < d.len() ==> is_digit(#[trigger] d[q]) {
                    lemma_digits_value_extend(d, j + 1);
                    assert(digits_value(d) > usize::MAX);
                }
            }
            return None;
        }
        val = grown + digit;
        i = i + 1;
    }
    proof {
        assert(d.take(d.len() as int) =~= d);
        assert(parses_as_index(input@));
    }
    Some(val)
}

/// A failure of the interactive selection.
#[derive(Debug, PartialEq, Eq)]
pub enum SelectError {
    /// The input does not parse as an index; carries the trimmed input.
    InvalidIndex(Vec<u8>),
    /// The parsed index and the largest valid one.
    IndexOutOfRange(usize, usize),
}

/// Validate a raw input line against a catalog of `count` entries: the index
/// it denotes when it parses and lies within `[0, count)`, the exact failure
/// otherwise. A catalog that is empty is reported before any prompt, so a
/// response is only ever validated against at least one entry.
pub fn select_index(input: &Vec<u8>, count: usize) -> (r: Result<usize, SelectError>)
    requires
        count >= 1,
    ensures
        match r {
            Ok(i) => parses_as_index(input@) && i == index_value(input@) && i < count,
            Err(e) => match e {
                SelectError::InvalidIndex(raw) => !parses_as_index(input@) && raw@ == trim_spec(
                    input@,
                ),
                SelectError::IndexOutOfRange(v, max) => parses_as_index(input@) && v
                    == index_value(input@) && v >= count && max == count - 1,
            },
        },
{
    match parse_index(input) {
        Some(v) => {
            if v < count {
                Ok(v)
            } else {
                Err(SelectError::IndexOutOfRange(v, count - 1))
            }
        },
        None => Err(SelectError::InvalidIndex(trim(input))),
    }
}

/// One interactive selection step: validate the input against the catalog
/// and hand back the identifier at the chosen index.
pub fn select_name(catalog: &Catalog, input: &Vec<u8>) -> (r: Result<Vec<u8>, SelectError>)
    requires
        catalog.names().len() >= 1,
    ensures
        match r {
            Ok(name) => parses_as_index(input@) && index_value(input@) < catalog.names().len()
                && name@ == catalog.identifiers()[index_value(input@)],
            Err(e) => match e {
                SelectError::InvalidIndex(raw) => !parses_as_index(input@) && raw@ == trim_spec(
                    input@,
                ),
                SelectError::IndexOutOfRange(v, max) => parses_as_index(input@) && v
                    == index_value(input@) && v >= catalog.names().len() && max == catalog.names().len()
                    - 1,
            },
        },
{
    match select_index(input, catalog.entries.len()) {
        Ok(i) => {
            let id = crate::catalog::strip_extension(&catalog.entries[i]);
            proof {
                assert(catalog.names()[i as int] == catalog.entries@[i as int]@);
                assert(catalog.identifiers()[i as int] == strip_ext_spec(
                    catalog.names()[i as int],
                ));
            }
            Ok(id)
        },
        Err(e) => Err(e),
    }
}

} // verus!
