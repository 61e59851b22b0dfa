use vstd::prelude::*;

verus! {

/// The sum of the lower bounds of the hints.
pub open spec fn lower_total(hints: Seq<(usize, Option<usize>)>) -> int
    decreases hints.len(),
{
    if hints.len() == 0 {
        0
    } else {
        lower_total(hints.drop_last()) + hints.last().0
    }
}

/// The sum of the upper bounds of the hints, or `None` where one of them is unknown.
pub open spec fn upper_total(hints: Seq<(usize, Option<usize>)>) -> Option<int>
    decreases hints.len(),
{
    if hints.len() == 0 {
        Some(0)
    } else {
        match (upper_total(hints.drop_last()), hints.last().1) {
            (Some(a), Some(b)) => Some(a + b),
            _ => None,
        }
    }
}

/// Every sum that adding the hints up in order computes fits in a `usize`.
pub open spec fn hints_fit(hints: Seq<(usize, Option<usize>)>) -> bool {
    &&& lower_total(hints) <= usize::MAX
    &&& forall|k: int|
        0 <= k <= hints.len() ==> (#[trigger] upper_total(hints.take(k)) matches Some(u) ==> u
            <= usize::MAX)
}

proof fn lemma_lower_monotone(hints: Seq<(usize, Option<usize>)>, k: int)
    requires
        0 <= k <= hints.len(),
    ensures
        lower_total(hints.take(k)) <= lower_total(hints),
    decreases hints.len(),
{
    if k < hints.len() {
        assert(hints.drop_last().take(k) =~= hints.take(k));
        lemma_lower_monotone(hints.drop_last(), k);
    } else {
        assert(hints.take(k) =~= hints);
    }
}

/// Combines the size hints of the sources into the hint of the router: the
/// lower bounds add up, and the upper bound is the sum of theirs when every
/// source knows one. `None` when one of the sums that adding them up in order
/// computes does not fit in a `usize`.
pub fn combine_size_hints(hints: &Vec<(usize, Option<usize>)>) -> (r: Option<(usize, Option<usize>)>)
    ensures
        r is Some <==> hints_fit(hints@),
        r matches Some(h) ==> {
            &&& h.0 == lower_total(hints@)
            &&& match upper_total(hints@) {
                Some(u) => h.1 == Some(u as usize),
                None => h.1 is None,
            }
        },
{
    let mut lower: usize = 0;
    let mut upper: Option<usize> = Some(0);
    let n = hints.len();
    for i in 0..n
        invariant
            n == hints@.len(),
            lower == lower_total(hints@.take(i as int)),
            match upper_total(hints@.take(i as int)) {
                Some(u) => upper == Some(u as usize) && 0 <= u <= usize::MAX,
                None => upper is None,
            },
            forall|k: int|
                0 <= k <= i ==> (#[trigger] upper_total(hints@.take(k)) matches Some(u) ==> u
                    <= usize::MAX),
    {
        let ghost prefix = hints@.take(i + 1);
        assert(prefix.drop_last() =~= hints@.take(i as int));
        assert(prefix.last() == hints@[i as int]);
        let (lo, hi) = hints[i];
        match lower.checked_add(lo) {
            Some(sum) => {
                lower = sum;
            },
            None => {
                proof {
                    lemma_lower_monotone(hints@, i + 1);
                }
                return None;
            },
        }
        match (upper, hi) {
            (Some(a), Some(b)) => {
                assert(upper_total(prefix.drop_last()) == Some(a as int));
                match a.checked_add(b) {
                    Some(sum) => {
                        upper = Some(sum);
                    },
                    None => {
                        assert(upper_total(hints@.take(i + 1)) == Some(a + b));
                        return None;
                    },
                }
            },
            (Some(_), None) => {
                upper = None;
            },
            _ => {},
        }
        assert(upper_total(hints@.take(i + 1)) matches Some(u) ==> u <= usize::MAX);
    }
    assert(hints@.take(n as int) =~= hints@);
    Some((lower, upper))
}

/// The hints add up one source at a time: no sources give `(0, Some(0))`;
/// one more source adds its lower bound to the lower bound, and its upper
/// bound to the upper bound while every upper bound is known; one source
/// with no upper bound makes the upper bound unknown.
pub proof fn law_hints_add_up(hints: Seq<(usize, Option<usize>)>, h: (usize, Option<usize>))
    ensures
        lower_total(Seq::empty()) == 0,
        upper_total(Seq::empty()) == Some(0int),
        lower_total(hints.push(h)) == lower_total(hints) + h.0,
        upper_total(hints.push(h)) == match (upper_total(hints), h.1) {
            (Some(a), Some(b)) => Some(a + b),
            _ => None::<int>,
        },
{
    assert(hints.push(h).drop_last() =~= hints);
}

/// When every source's upper bound is at least its lower bound, so is the
/// combined one's.
pub proof fn law_hints_keep_order(hints: Seq<(usize, Option<usize>)>)
    requires
        forall|i: int|
            0 <= i < hints.len() ==> ((#[trigger] hints[i]).1 matches Some(hi) ==> hints[i].0 <= hi),
    ensures
        upper_total(hints) matches Some(u) ==> lower_total(hints) <= u,
    decreases hints.len(),
{
    if hints.len() > 0 {
        let rest = hints.drop_last();
        assert forall|i: int| 0 <= i < rest.len() implies ((#[trigger] rest[i]).1 matches Some(hi)
            ==> rest[i].0 <= hi) by {
            assert(rest[i] == hints[i]);
        }
        law_hints_keep_order(rest);
        assert(hints.last() == hints[hints.len() - 1]);
    }
}

} // verus!
