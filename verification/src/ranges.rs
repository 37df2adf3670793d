//! The range resolver: bound expressions, their validation, and dispatch.
//!
//! A range arm's key is a bound expression — `..N`, `N..`, `N..M` or
//! `N..=M` — giving a lower and an upper [`Bound`]. An upper bound that
//! excludes the minimum representable integer admits no value at all and is
//! reported as `InvalidBoundEnd`; an arm whose upper bound lies before its
//! lower bound is an `ImpossibleRange`. Arms keep their authored order and
//! dispatch is first-match-wins, so overlapping arms are legal.

use vstd::prelude::*;
use vstd::string::StrSliceExecFns;

use crate::error::Error;
use crate::key::KeyPath;
use crate::parsed_value::ParsedValue;
use crate::text::{parse_i64_str, substring, valid_i64_text, i64_text_val};

verus! {

/// One end of a range arm.
#[derive(Clone, Copy, Debug, PartialEq, Eq, Structural)]
pub enum Bound {
    Unbounded,
    Inclusive(i64),
    Exclusive(i64),
}

/// The index of the first `..` of `s`, if any.
pub open spec fn first_dotdot(s: Seq<char>) -> Option<int>
    decreases s.len(),
{
    if s.len() < 2 {
        None
    } else if s[0] == '.' && s[1] == '.' {
        Some(0)
    } else {
        match first_dotdot(s.drop_first()) {
            Some(k) => Some(k + 1),
            None => None,
        }
    }
}

/// What [`first_dotdot`] means position by position.
pub proof fn lemma_first_dotdot(s: Seq<char>)
    ensures
        first_dotdot(s) matches Some(k) ==> 0 <= k && k + 1 < s.len() && s[k] == '.' && s[k + 1]
            == '.' && (forall|j: int| 0 <= j < k ==> !(#[trigger] s[j] == '.' && s[j + 1] == '.')),
        first_dotdot(s) is None ==> (forall|j: int|
            0 <= j && j + 1 < s.len() ==> !(#[trigger] s[j] == '.' && s[j + 1] == '.')),
    decreases s.len(),
{
    if s.len() >= 2 && !(s[0] == '.' && s[1] == '.') {
        lemma_first_dotdot(s.drop_first());
        let t = s.drop_first();
        assert(forall|j: int| 0 <= j < t.len() ==> #[trigger] t[j] == s[j + 1]);
        match first_dotdot(s) {
            Some(k) => {
                assert(first_dotdot(t) == Some(k - 1));
                assert(s[k] == t[k - 1] && s[k + 1] == t[k]);
                assert forall|j: int| 0 <= j < k implies !(#[trigger] s[j] == '.' && s[j + 1]
                    == '.') by {
                    if j > 0 {
                        assert(!(t[j - 1] == '.' && t[j] == '.'));
                    }
                }
            },
            None => {
                assert forall|j: int| 0 <= j && j + 1 < s.len() implies !(#[trigger] s[j] == '.'
                    && s[j + 1] == '.') by {
                    if j > 0 {
                        assert(!(t[j - 1] == '.' && t[j] == '.'));
                    }
                }
            },
        }
    }
}

/// The bounds a range arm's text denotes: `None` when the text is not a
/// valid bound expression.
pub open spec fn spec_parse_range(s: Seq<char>) -> Option<(Bound, Bound)> {
    match first_dotdot(s) {
        None => None,
        Some(k) => {
            let lower_text = s.take(k);
            let rest = s.skip(k + 2);
            if lower_text.len() > 0 && !valid_i64_text(lower_text) {
                None
            } else {
                let lower = if lower_text.len() == 0 {
                    Bound::Unbounded
                } else {
                    Bound::Inclusive(i64_text_val(lower_text) as i64)
                };
                if rest.len() == 0 {
                    Some((lower, Bound::Unbounded))
                } else if rest[0] == '=' {
                    if valid_i64_text(rest.drop_first()) {
                        Some((lower, Bound::Inclusive(i64_text_val(rest.drop_first()) as i64)))
                    } else {
                        None
                    }
                } else {
                    if valid_i64_text(rest) {
                        Some((lower, Bound::Exclusive(i64_text_val(rest) as i64)))
                    } else {
                        None
                    }
                }
            }
        },
    }
}

/// Parses one bound expression, exactly as [`spec_parse_range`] reads it.
pub fn parse_range_arm(s: &str) -> (r: Option<(Bound, Bound)>)
    ensures
        r == spec_parse_range(s@),
{
    proof {
        lemma_first_dotdot(s@);
    }
    let n: usize = s.unicode_len();
    let mut i: usize = 0;
    let mut found: bool = false;
    while !found && n - i > 1
        invariant
            i <= n,
            n == s@.len(),
            forall|j: int| 0 <= j && j + 1 < n && j < i ==> !(#[trigger] s@[j] == '.' && s@[j + 1] == '.'),
            found ==> i + 1 < n && s@[i as int] == '.' && s@[i as int + 1] == '.',
        decreases n - i, if found { 0int } else { 1int },
    {
        if s.get_char(i) == '.' && s.get_char(i + 1) == '.' {
            found = true;
        } else {
            i = i + 1;
        }
    }
    if !found {
        proof {
            assert(first_dotdot(s@) is None) by {
                match first_dotdot(s@) {
                    Some(m) => {
                        assert(!(s@[m] == '.' && s@[m + 1] == '.'));
                    },
                    None => {},
                }
            }
        }
        return None;
    }
    let k: usize = i;
    proof {
        assert(first_dotdot(s@) == Some(k as int)) by {
            match first_dotdot(s@) {
                Some(m) => {
                    if m < k {
                        assert(!(s@[m] == '.' && s@[m + 1] == '.'));
                    }
                    if m > k {
                        assert(!(s@[k as int] == '.' && s@[k as int + 1] == '.'));
                    }
                },
                None => {
                    assert(!(s@[k as int] == '.' && s@[k as int + 1] == '.'));
                },
            }
        }
    }
    let lower: Bound;
    if k == 0 {
        lower = Bound::Unbounded;
        proof {
            assert(s@.take(0) =~= Seq::<char>::empty());
        }
    } else {
        let lower_text = substring(s, 0, k);
        proof {
            assert(lower_text@ =~= s@.take(k as int));
        }
        match parse_i64_str(lower_text.as_str()) {
            Some(v) => {
                lower = Bound::Inclusive(v);
            },
            None => {
                return None;
            },
        }
    }
    let rest_start: usize = k + 2;
    proof {
        assert(s@.skip(k as int + 2).len() == n - rest_start);
    }
    if rest_start == n {
        proof {
            assert(s@.skip(k as int + 2) =~= Seq::<char>::empty());
        }
        return Some((lower, Bound::Unbounded));
    }
    let ghost rest = s@.skip(k as int + 2);
    proof {
        assert(forall|j: int| 0 <= j < rest.len() ==> rest[j] == s@[j + k + 2]);
    }
    if s.get_char(rest_start) == '=' {
        let upper_text = substring(s, rest_start + 1, n);
        proof {
            assert(upper_text@ =~= rest.drop_first());
        }
        match parse_i64_str(upper_text.as_str()) {
            Some(v) => Some((lower, Bound::Inclusive(v))),
            None => None,
        }
    } else {
        let upper_text = substring(s, rest_start, n);
        proof {
            assert(upper_text@ =~= rest);
        }
        match parse_i64_str(upper_text.as_str()) {
            Some(v) => Some((lower, Bound::Exclusive(v))),
            None => None,
        }
    }
}

/// An upper bound that excludes the minimum representable integer: nothing
/// lies strictly below it.
pub open spec fn bound_end_invalid(upper: Bound) -> bool {
    upper == Bound::Exclusive(i64::MIN)
}

/// Whether `n` lies within the arm's bounds.
pub open spec fn spec_bounds_match(lower: Bound, upper: Bound, n: int) -> bool {
    (match lower {
        Bound::Unbounded => true,
        Bound::Inclusive(l) => l <= n,
        Bound::Exclusive(l) => l < n,
    }) && (match upper {
        Bound::Unbounded => true,
        Bound::Inclusive(u) => n <= u,
        Bound::Exclusive(u) => n < u,
    })
}

/// An arm whose bounds no integer satisfies, judged without looking at the
/// excluded-minimum case that [`bound_end_invalid`] already rejects.
pub open spec fn range_impossible(lower: Bound, upper: Bound) -> bool {
    match (lower, upper) {
        (Bound::Inclusive(l), Bound::Inclusive(u)) => u < l,
        (Bound::Inclusive(l), Bound::Exclusive(u)) => u <= l,
        _ => false,
    }
}

/// Checks one arm's bounds; exactly the two semantic judgements of the
/// range resolver.
pub fn check_bounds(
    locale: &str,
    path: &KeyPath,
    arm_text: &str,
    lower: Bound,
    upper: Bound,
) -> (r: Result<(), Error>)
    ensures
        r is Ok <==> !bound_end_invalid(upper) && !range_impossible(lower, upper),
        bound_end_invalid(upper) ==> (r matches Err(e) && e matches Error::InvalidBoundEnd {
            locale: l,
            path: p,
            range: t,
        } && l@ == locale@ && p@ == path@ && t@ == arm_text@),
        !bound_end_invalid(upper) && range_impossible(lower, upper) ==> (r matches Err(e)
            && e matches Error::ImpossibleRange { locale: l, path: p, range: t } && l@ == locale@
            && p@ == path@ && t@ == arm_text@),
{
    match upper {
        Bound::Exclusive(u) => {
            if u == i64::MIN {
                return Err(
                    Error::InvalidBoundEnd {
                        locale: locale.to_owned(),
                        path: path.duplicate(),
                        range: arm_text.to_owned(),
                    },
                );
            }
        },
        _ => {},
    }
    let impossible: bool = match (lower, upper) {
        (Bound::Inclusive(l), Bound::Inclusive(u)) => u < l,
        (Bound::Inclusive(l), Bound::Exclusive(u)) => u <= l,
        _ => false,
    };
    if impossible {
        return Err(
            Error::ImpossibleRange {
                locale: locale.to_owned(),
                path: path.duplicate(),
                range: arm_text.to_owned(),
            },
        );
    }
    Ok(())
}

/// Parses and checks every arm of a range node, in authored order; the
/// result aligns index by index with the arms.
pub fn resolve_range(
    locale: &str,
    path: &KeyPath,
    arms: &Vec<(String, ParsedValue)>,
) -> (r: Result<Vec<(Bound, Bound)>, Error>)
    ensures
        r matches Ok(bounds) ==> bounds@.len() == arms@.len() && (forall|i: int|
            0 <= i < arms@.len() ==> {
                &&& spec_parse_range(arms@[i].0@) == Some(#[trigger] bounds@[i])
                &&& !bound_end_invalid(bounds@[i].1)
                &&& !range_impossible(bounds@[i].0, bounds@[i].1)
            }),
        r is Err ==> (exists|i: int|
            0 <= i < arms@.len() && (spec_parse_range(#[trigger] arms@[i].0@) matches Some(b)
                ==> bound_end_invalid(b.1) || range_impossible(b.0, b.1))),
        r matches Err(e) ==> (e is InvalidBoundEnd || e is ImpossibleRange || e is ParseError),
{
    let mut out: Vec<(Bound, Bound)> = Vec::new();
    let mut i: usize = 0;
    while i < arms.len()
        invariant
            i <= arms@.len(),
            out@.len() == i as int,
            forall|j: int|
                0 <= j < i ==> {
                    &&& spec_parse_range(arms@[j].0@) == Some(#[trigger] out@[j])
                    &&& !bound_end_invalid(out@[j].1)
                    &&& !range_impossible(out@[j].0, out@[j].1)
                },
        decreases arms@.len() - i,
    {
        let arm_text: &str = arms[i].0.as_str();
        match parse_range_arm(arm_text) {
            Some((lower, upper)) => {
                match check_bounds(locale, path, arm_text, lower, upper) {
                    Ok(()) => {
                        out.push((lower, upper));
                    },
                    Err(e) => {
                        return Err(e);
                    },
                }
            },
            None => {
                return Err(
                    crate::parse::parse_error(locale, path, arms[i].0.clone()),
                );
            },
        }
        i = i + 1;
    }
    Ok(out)
}

/// Whether `n` lies within the arm's bounds, executably.
pub fn check_bounds_match(lower: Bound, upper: Bound, n: i64) -> (r: bool)
    ensures
        r == spec_bounds_match(lower, upper, n as int),
{
    let lower_ok: bool = match lower {
        Bound::Unbounded => true,
        Bound::Inclusive(l) => l <= n,
        Bound::Exclusive(l) => l < n,
    };
    let upper_ok: bool = match upper {
        Bound::Unbounded => true,
        Bound::Inclusive(u) => n <= u,
        Bound::Exclusive(u) => n < u,
    };
    lower_ok && upper_ok
}

/// First-match dispatch over resolved arms: the first arm whose bounds
/// contain `n`, or nothing when no arm matches.
pub fn dispatch_range(bounds: &Vec<(Bound, Bound)>, n: i64) -> (r: Option<usize>)
    ensures
        r matches Some(i) ==> i < bounds@.len() && spec_bounds_match(
            bounds@[i as int].0,
            bounds@[i as int].1,
            n as int,
        ) && (forall|j: int|
            0 <= j < i ==> !spec_bounds_match(bounds@[j].0, #[trigger] bounds@[j].1, n as int)),
        r is None ==> (forall|j: int|
            0 <= j < bounds@.len() ==> !spec_bounds_match(
                bounds@[j].0,
                #[trigger] bounds@[j].1,
                n as int,
            )),
{
    let mut i: usize = 0;
    while i < bounds.len()
        invariant
            i <= bounds@.len(),
            forall|j: int|
                0 <= j < i ==> !spec_bounds_match(bounds@[j].0, #[trigger] bounds@[j].1, n as int),
        decreases bounds@.len() - i,
    {
        let (lower, upper) = bounds[i];
        let lower_ok: bool = match lower {
            Bound::Unbounded => true,
            Bound::Inclusive(l) => l <= n,
            Bound::Exclusive(l) => l < n,
        };
        let upper_ok: bool = match upper {
            Bound::Unbounded => true,
            Bound::Inclusive(u) => n <= u,
            Bound::Exclusive(u) => n < u,
        };
        if lower_ok && upper_ok {
            return Some(i);
        }
        i = i + 1;
    }
    None
}

} // verus!
