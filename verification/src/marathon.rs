//! Streaks of similar consecutive minutes, which drive the marathon decay.

use vstd::prelude::*;

verus! {

/// Length of the run of similar minutes that ends at minute `k`: zero at the
/// first minute and at any minute not similar to the one before it, else one
/// more than the run at the minute before.
pub open spec fn spec_streak(similar: Seq<bool>, k: int) -> nat
    decreases k,
{
    if k <= 0 || !similar[k] {
        0
    } else {
        spec_streak(similar, k - 1) + 1
    }
}

/// Whether the decay divisor of a minute whose streak is `streak` is doubled.
pub open spec fn spec_doubled(streak: int, double_at: int) -> bool {
    streak >= double_at
}

/// Streak of every minute. `similar[k]` says whether minute `k` is close
/// enough to minute `k - 1`; the entry for the first minute is not read.
pub fn streak_lengths(similar: &[bool]) -> (r: Vec<u32>)
    requires
        forall|k: int| 0 <= k < similar@.len() ==> spec_streak(similar@, k) <= u32::MAX,
    ensures
        r@.len() == similar@.len(),
        forall|k: int| 0 <= k < r@.len() ==> r@[k] == spec_streak(similar@, k),
        r@.len() > 0 ==> r@[0] == 0,
        forall|k: int|
            0 < k < r@.len() ==> #[trigger] r@[k] == (if similar@[k] {
                r@[k - 1] + 1
            } else {
                0
            }),
{
    let mut r: Vec<u32> = Vec::new();
    let mut streak: u32 = 0;
    let mut k: usize = 0;
    while k < similar.len()
        invariant
            k <= similar@.len(),
            r@.len() == k,
            forall|j: int| 0 <= j < similar@.len() ==> spec_streak(similar@, j) <= u32::MAX,
            forall|j: int| 0 <= j < k ==> r@[j] == spec_streak(similar@, j),
            k > 0 ==> streak == spec_streak(similar@, k - 1),
        decreases similar@.len() - k,
    {
        if k > 0 && similar[k] {
            assert(spec_streak(similar@, k as int) == spec_streak(similar@, k - 1) + 1);
            streak = streak + 1;
        } else {
            streak = 0;
        }
        r.push(streak);
        k = k + 1;
    }
    proof {
        assert forall|k: int| 0 < k < r@.len() implies #[trigger] r@[k] == (if similar@[k] {
            r@[k - 1] + 1
        } else {
            0
        }) by {
            assert(r@[k] == spec_streak(similar@, k));
            assert(r@[k - 1] == spec_streak(similar@, k - 1));
        }
    }
    r
}

/// Whether every minute's streak fits in a `u32`, which `streak_lengths`
/// and `decay_plan` need.
pub fn streaks_fit(similar: &[bool]) -> (fit: bool)
    ensures
        fit <==> forall|k: int| 0 <= k < similar@.len() ==> spec_streak(similar@, k) <= u32::MAX,
{
    let mut streak: u64 = 0;
    let mut k: usize = 0;
    while k < similar.len()
        invariant
            k <= similar@.len(),
            forall|j: int| 0 <= j < k ==> spec_streak(similar@, j) <= u32::MAX,
            k > 0 ==> streak == spec_streak(similar@, k - 1),
            streak <= u32::MAX,
        decreases similar@.len() - k,
    {
        if k > 0 && similar[k] {
            streak = streak + 1;
        } else {
            streak = 0;
        }
        if streak > 0xffff_ffffu64 {
            assert(spec_streak(similar@, k as int) > u32::MAX);
            return false;
        }
        k = k + 1;
    }
    true
}

/// The integer side of the marathon decay: `None` where there are fewer than
/// two minutes (the multiplier is then 1); otherwise, for every minute, its
/// streak and whether its decay divisor is doubled (streak at least
/// `double_at`).
pub fn decay_plan(similar: &[bool], double_at: u32) -> (plan: Option<Vec<(u32, bool)>>)
    requires
        forall|k: int| 0 <= k < similar@.len() ==> spec_streak(similar@, k) <= u32::MAX,
    ensures
        plan is None <==> similar@.len() < 2,
        plan matches Some(p) ==> {
            &&& p@.len() == similar@.len()
            &&& forall|k: int|
                0 <= k < p@.len() ==> {
                    &&& (#[trigger] p@[k]).0 == spec_streak(similar@, k)
                    &&& p@[k].1 == spec_doubled(spec_streak(similar@, k) as int, double_at as int)
                    &&& p@[k].1 == (p@[k].0 >= double_at)
                }
            &&& p@[0].0 == 0
            &&& forall|k: int|
                0 < k < p@.len() ==> (#[trigger] p@[k]).0 == (if similar@[k] {
                    p@[k - 1].0 + 1
                } else {
                    0
                })
        },
{
    if similar.len() < 2 {
        return None;
    }
    let streaks = streak_lengths(similar);
    let mut p: Vec<(u32, bool)> = Vec::new();
    let mut k: usize = 0;
    while k < streaks.len()
        invariant
            k <= streaks@.len(),
            streaks@.len() == similar@.len(),
            forall|j: int| 0 <= j < streaks@.len() ==> streaks@[j] == spec_streak(similar@, j),
            p@.len() == k,
            forall|j: int|
                0 <= j < k ==> {
                    &&& (#[trigger] p@[j]).0 == spec_streak(similar@, j)
                    &&& p@[j].1 == spec_doubled(spec_streak(similar@, j) as int, double_at as int)
                },
        decreases streaks@.len() - k,
    {
        let s = streaks[k];
        p.push((s, s >= double_at));
        k = k + 1;
    }
    proof {
        assert forall|k: int| 0 < k < p@.len() implies (#[trigger] p@[k]).0 == (if similar@[k] {
            p@[k - 1].0 + 1
        } else {
            0
        }) by {
            assert(p@[k].0 == spec_streak(similar@, k));
            assert(p@[k - 1].0 == spec_streak(similar@, k - 1));
        }
    }
    Some(p)
}

/// Doubling starts exactly at `double_at`: a streak one short of it is
/// never doubled, a streak equal to it is, and a longer streak is doubled
/// whenever a shorter one is.
pub proof fn lemma_doubling_threshold(streak: int, longer: int, double_at: int)
    requires
        streak <= longer,
    ensures
        !spec_doubled(double_at - 1, double_at),
        spec_doubled(double_at, double_at),
        spec_doubled(streak, double_at) ==> spec_doubled(longer, double_at),
{
}

/// A minute's streak never exceeds its index.
pub proof fn lemma_streak_bounded(similar: Seq<bool>, k: int)
    requires
        0 <= k,
    ensures
        spec_streak(similar, k) <= k,
    decreases k,
{
    if k > 0 && similar[k] {
        lemma_streak_bounded(similar, k - 1);
    }
}

/// The streak of minute `k` is exactly the run of similar minutes ending at
/// `k`: every minute in it is similar to its predecessor, and the minute
/// just before the run is either the first minute or not similar.
pub proof fn lemma_streak_is_run(similar: Seq<bool>, k: int)
    requires
        0 <= k < similar.len(),
    ensures
        forall|j: int| k - spec_streak(similar, k) < j <= k ==> 1 <= j && #[trigger] similar[j],
        k - spec_streak(similar, k) == 0 || !similar[k - spec_streak(similar, k)],
    decreases k,
{
    if k > 0 && similar[k] {
        lemma_streak_is_run(similar, k - 1);
    }
}

/// Once a minute's divisor is doubled, the next minute's is doubled too,
/// as long as that minute is similar to it.
pub proof fn lemma_doubling_persists(similar: Seq<bool>, double_at: int, k: int)
    requires
        0 <= k,
        k + 1 < similar.len(),
        similar[k + 1],
        spec_doubled(spec_streak(similar, k) as int, double_at),
    ensures
        spec_doubled(spec_streak(similar, k + 1) as int, double_at),
{
}

/// A minute that is not similar to the one before it starts afresh: its
/// streak is zero, so its divisor is doubled only when `double_at` is zero.
pub proof fn lemma_reset_on_change(similar: Seq<bool>, double_at: int, k: int)
    requires
        0 <= k < similar.len(),
        !similar[k] || k == 0,
    ensures
        spec_streak(similar, k) == 0,
        spec_doubled(spec_streak(similar, k) as int, double_at) <==> double_at <= 0,
{
}

} // verus!
