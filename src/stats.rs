use vstd::prelude::*;

verus! {

/// Summary of a run of totals. The mean is `sum / count`.
#[derive(Debug, Clone, Copy, PartialEq, Eq, Structural)]
pub struct Stats {
    pub count: usize,
    pub min: i32,
    pub max: i32,
    pub sum: i128,
}

/// Sum of a sequence of totals.
pub open spec fn sum_of(s: Seq<i32>) -> int
    decreases s.len(),
{
    if s.len() == 0 {
        0
    } else {
        sum_of(s.drop_last()) + s.last() as int
    }
}

/// `m` is the least element of `s`.
pub open spec fn is_min_of(m: i32, s: Seq<i32>) -> bool {
    &&& exists|i: int| 0 <= i < s.len() && s[i] == m
    &&& forall|i: int| 0 <= i < s.len() ==> m <= #[trigger] s[i]
}

/// `m` is the greatest element of `s`.
pub open spec fn is_max_of(m: i32, s: Seq<i32>) -> bool {
    &&& exists|i: int| 0 <= i < s.len() && s[i] == m
    &&& forall|i: int| 0 <= i < s.len() ==> #[trigger] s[i] <= m
}

/// Count, least, greatest and sum of `results`; nothing for an empty slice.
pub fn compute_stats(results: &[i32]) -> (r: Option<Stats>)
    ensures
        r is None <==> results@.len() == 0,
        r matches Some(s) ==> {
            &&& s.count == results@.len()
            &&& is_min_of(s.min, results@)
            &&& is_max_of(s.max, results@)
            &&& s.sum == sum_of(results@)
        },
{
    if results.len() == 0 {
        return None;
    }
    let mut min = results[0];
    let mut max = results[0];
    let mut sum: i128 = results[0] as i128;
    let mut i: usize = 1;
    assert(results@.take(1).drop_last() =~= Seq::<i32>::empty());
    assert(results@.take(1)[0] == min);
    assert(sum_of(results@.take(1)) == min) by {
        reveal_with_fuel(sum_of, 2);
    }
    while i < results.len()
        invariant
            1 <= i <= results@.len(),
            is_min_of(min, results@.take(i as int)),
            is_max_of(max, results@.take(i as int)),
            sum == sum_of(results@.take(i as int)),
            -2147483648 * (i as int) <= sum <= 2147483647 * (i as int),
        decreases results@.len() - i,
    {
        let v = results[i];
        assert(results@.take(i + 1).drop_last() =~= results@.take(i as int));
        proof {
            let p = results@.take(i as int);
            let q = results@.take(i + 1);
            assert forall|k: int| 0 <= k < p.len() implies p[k] == #[trigger] q[k] by {}
            assert(q[i as int] == v);
            assert(q[p.len() - 1] == p[p.len() - 1]);
        }
        if v < min {
            min = v;
        }
        if v > max {
            max = v;
        }
        sum = sum + v as i128;
        i = i + 1;
    }
    assert(results@.take(i as int) =~= results@);
    Some(Stats { count: results.len(), min, max, sum })
}

} // verus!
