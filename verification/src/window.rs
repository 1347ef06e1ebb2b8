//! Which earlier hit objects a sliding window reads.

use vstd::prelude::*;

verus! {

/// Position of the object `back + 1` places before position `idx`, among
/// `len` objects, if there is one.
pub open spec fn spec_previous(idx: int, back: int, len: int) -> Option<int> {
    if back + 1 <= idx && idx - back - 1 < len {
        Some(idx - back - 1)
    } else {
        None
    }
}

/// Finds the object `back + 1` places before position `idx` among `len`
/// objects: `back == 0` is the object just before.
pub fn previous_index(idx: usize, back: usize, len: usize) -> (r: Option<usize>)
    requires
        back < usize::MAX,
    ensures
        r matches Some(j) ==> spec_previous(idx as int, back as int, len as int) == Some(j as int),
        r is None ==> spec_previous(idx as int, back as int, len as int) is None,
        back < idx && idx - back - 1 < len ==> r == Some((idx - back - 1) as usize),
        !(back < idx && idx - back - 1 < len) ==> r is None,
{
    let step = back + 1;
    if step <= idx {
        let j = idx - step;
        if j < len {
            return Some(j);
        }
    }
    None
}

/// The values present in `s`, in order.
pub open spec fn present<T>(s: Seq<Option<T>>) -> Seq<T>
    decreases s.len(),
{
    if s.len() == 0 {
        Seq::empty()
    } else {
        present(s.drop_last()) + match s.last() {
            Some(v) => seq![v],
            None => Seq::empty(),
        }
    }
}

/// The entries at positions `idx`, `idx - 1`, ..., `idx - n`, in that order.
pub open spec fn entries_back<T>(values: Seq<Option<T>>, idx: int, n: int) -> Seq<Option<T>> {
    Seq::new((n + 1) as nat, |j: int| values[idx - j])
}

/// How far back a window of `window` previous objects reaches from `idx`.
pub open spec fn window_reach(idx: int, window: int) -> int {
    if window < idx {
        window
    } else {
        idx
    }
}

/// The present values of the object at `idx` and of up to `window` objects
/// before it, nearest first. `values[i]` is the value of object `i`, or
/// `None` where that object has none.
pub fn window_sample<T: Copy>(values: &[Option<T>], idx: usize, window: usize) -> (out: Vec<T>)
    requires
        idx < values@.len(),
        window < usize::MAX,
    ensures
        out@ == present(entries_back(values@, idx as int, window_reach(idx as int, window as int))),
        out@ == present(
            Seq::new(
                ((if window < idx {
                    window as int
                } else {
                    idx as int
                }) + 1) as nat,
                |j: int| values@[idx - j],
            ),
        ),
        (forall|i: int| 0 <= i < values@.len() ==> (#[trigger] values@[i]) is Some) ==> {
            &&& out@.len() == (if window < idx {
                window as int
            } else {
                idx as int
            }) + 1
            &&& forall|j: int| 0 <= j < out@.len() ==> Some(#[trigger] out@[j]) == values@[idx - j]
        },
{
    let out = window_sample_back(values, idx, window);
    proof {
        let e = entries_back(values@, idx as int, window_reach(idx as int, window as int));
        let d = Seq::new(
            ((if window < idx {
                window as int
            } else {
                idx as int
            }) + 1) as nat,
            |j: int| values@[idx - j],
        );
        assert(e =~= d);
        if forall|i: int| 0 <= i < values@.len() ==> (#[trigger] values@[i]) is Some {
            assert forall|j: int| 0 <= j < d.len() implies (#[trigger] d[j]) is Some by {
                assert(d[j] == values@[idx - j]);
            }
            lemma_all_present(d);
        }
    }
    out
}

/// The loop behind `window_sample`: the entry at `idx`, then the entries
/// before it while the window lasts and there is an earlier object.
fn window_sample_back<T: Copy>(values: &[Option<T>], idx: usize, window: usize) -> (out: Vec<T>)
    requires
        idx < values@.len(),
        window < usize::MAX,
    ensures
        out@ == present(entries_back(values@, idx as int, window_reach(idx as int, window as int))),
{
    let mut out: Vec<T> = Vec::new();
    proof {
        assert(entries_back(values@, idx as int, 0).drop_last() =~= Seq::<Option<T>>::empty());
        assert(present(Seq::<Option<T>>::empty()) =~= Seq::<T>::empty());
        assert(entries_back(values@, idx as int, 0).last() == values@[idx as int]);
    }
    match values[idx] {
        Some(v) => out.push(v),
        None => {},
    }
    proof {
        assert(out@ =~= present(entries_back(values@, idx as int, 0)));
    }
    let mut back: usize = 0;
    let mut going: bool = true;
    while going && back < window
        invariant
            idx < values@.len(),
            window < usize::MAX,
            back <= window,
            back <= idx,
            !going ==> back == idx,
            out@ == present(entries_back(values@, idx as int, back as int)),
        decreases window - back + (if going { 1int } else { 0int }),
    {
        match previous_index(idx, back, values.len()) {
            Some(j) => {
                let ghost old_entries = entries_back(values@, idx as int, back as int);
                let ghost new_entries = entries_back(values@, idx as int, back + 1);
                proof {
                    assert(new_entries.drop_last() =~= old_entries);
                    assert(new_entries.last() == values@[j as int]);
                }
                match values[j] {
                    Some(v) => {
                        out.push(v);
                    },
                    None => {},
                }
                proof {
                    assert(out@ =~= present(new_entries));
                }
                back = back + 1;
            },
            None => {
                going = false;
            },
        }
    }
    out
}

/// The `count` entries at positions `idx`, `idx - 1`, ..., nearest first.
pub open spec fn latest_entries<T>(values: Seq<Option<T>>, idx: int, count: int) -> Seq<Option<T>> {
    Seq::new(count as nat, |j: int| values[idx - j])
}

/// How many positions a window of `window` entries, the one at `idx`
/// included, spans: `window`, cut off at the `idx + 1` positions there are.
pub open spec fn window_span(idx: int, window: int) -> int {
    if window < idx + 1 {
        window
    } else {
        idx + 1
    }
}

/// The present values among at most `window` entries, the one at `idx`
/// included, nearest first: the entry at `idx` and up to `window - 1`
/// entries before it. No entries at all where `window` is zero.
pub fn window_sample_within<T: Copy>(values: &[Option<T>], idx: usize, window: usize) -> (out: Vec<T>)
    requires
        idx < values@.len(),
    ensures
        out@ == present(latest_entries(values@, idx as int, window_span(idx as int, window as int))),
        out@.len() <= window,
        out@ == present(
            Seq::new(
                (if window <= idx + 1 {
                    window as int
                } else {
                    idx + 1
                }) as nat,
                |j: int| values@[idx - j],
            ),
        ),
        (forall|i: int| 0 <= i < values@.len() ==> (#[trigger] values@[i]) is Some) ==> {
            &&& out@.len() == (if window <= idx + 1 {
                window as int
            } else {
                idx + 1
            })
            &&& forall|j: int| 0 <= j < out@.len() ==> Some(#[trigger] out@[j]) == values@[idx - j]
        },
{
    let out = window_sample_span(values, idx, window);
    proof {
        let e = latest_entries(values@, idx as int, window_span(idx as int, window as int));
        let d = Seq::new(
            (if window <= idx + 1 {
                window as int
            } else {
                idx + 1
            }) as nat,
            |j: int| values@[idx - j],
        );
        assert(e =~= d);
        lemma_present_len(d);
        if forall|i: int| 0 <= i < values@.len() ==> (#[trigger] values@[i]) is Some {
            assert forall|j: int| 0 <= j < d.len() implies (#[trigger] d[j]) is Some by {
                assert(d[j] == values@[idx - j]);
            }
            lemma_all_present(d);
        }
    }
    out
}

/// The work behind `window_sample_within`.
fn window_sample_span<T: Copy>(values: &[Option<T>], idx: usize, window: usize) -> (out: Vec<T>)
    requires
        idx < values@.len(),
    ensures
        out@ == present(latest_entries(values@, idx as int, window_span(idx as int, window as int))),
        out@.len() <= window,
{
    if window == 0 {
        proof {
            assert(latest_entries(values@, idx as int, 0) =~= Seq::<Option<T>>::empty());
            assert(present(Seq::<Option<T>>::empty()) =~= Seq::<T>::empty());
        }
        return Vec::new();
    }
    let out = window_sample_back(values, idx, window - 1);
    proof {
        let e = entries_back(values@, idx as int, window_reach(idx as int, window - 1));
        assert(e =~= latest_entries(values@, idx as int, window_span(idx as int, window as int)));
        lemma_present_len(e);
    }
    out
}

/// Taking only the present values never yields more values than entries.
pub proof fn lemma_present_len<T>(s: Seq<Option<T>>)
    ensures
        present(s).len() <= s.len(),
    decreases s.len(),
{
    if s.len() > 0 {
        lemma_present_len(s.drop_last());
    }
}

/// Where every entry is present, all of them are kept, in order.
pub proof fn lemma_all_present<T>(s: Seq<Option<T>>)
    requires
        forall|j: int| 0 <= j < s.len() ==> (#[trigger] s[j]) is Some,
    ensures
        present(s).len() == s.len(),
        forall|j: int| 0 <= j < s.len() ==> Some(#[trigger] present(s)[j]) == s[j],
    decreases s.len(),
{
    if s.len() > 0 {
        let t = s.drop_last();
        assert forall|j: int| 0 <= j < t.len() implies (#[trigger] t[j]) is Some by {
            assert(t[j] == s[j]);
        }
        lemma_all_present(t);
        assert(s[s.len() - 1] is Some);
    }
}

/// A window sample holds at most `window + 1` values, and never more than
/// the `idx + 1` objects up to and including `idx`. Where every object has
/// a value, it holds exactly `min(window, idx) + 1` of them, the value at
/// `idx` first.
pub proof fn lemma_window_sample_size<T>(values: Seq<Option<T>>, idx: int, window: int)
    requires
        0 <= idx < values.len(),
        0 <= window,
    ensures
        present(entries_back(values, idx, window_reach(idx, window))).len() <= window + 1,
        present(entries_back(values, idx, window_reach(idx, window))).len() <= idx + 1,
        (forall|i: int| 0 <= i < values.len() ==> (#[trigger] values[i]) is Some) ==> {
            &&& present(entries_back(values, idx, window_reach(idx, window))).len() == window_reach(
                idx,
                window,
            ) + 1
            &&& Some(present(entries_back(values, idx, window_reach(idx, window)))[0]) == values[idx]
        },
{
    let e = entries_back(values, idx, window_reach(idx, window));
    lemma_present_len(e);
    if forall|i: int| 0 <= i < values.len() ==> (#[trigger] values[i]) is Some {
        assert forall|j: int| 0 <= j < e.len() implies (#[trigger] e[j]) is Some by {
            assert(e[j] == values[idx - j]);
        }
        lemma_all_present(e);
        assert(e[0] == values[idx]);
    }
}

/// A window of at most `window` entries, the current one included, yields
/// at most `window` values, and never more than the `idx + 1` objects up to
/// `idx`. Where every object has a value it yields exactly
/// `min(window, idx + 1)` of them, the value at `idx` first.
pub proof fn lemma_window_within_size<T>(values: Seq<Option<T>>, idx: int, window: int)
    requires
        0 <= idx < values.len(),
        0 <= window,
    ensures
        present(latest_entries(values, idx, window_span(idx, window))).len() <= window,
        present(latest_entries(values, idx, window_span(idx, window))).len() <= idx + 1,
        (forall|i: int| 0 <= i < values.len() ==> (#[trigger] values[i]) is Some) ==> {
            &&& present(latest_entries(values, idx, window_span(idx, window))).len() == window_span(
                idx,
                window,
            )
            &&& window > 0 ==> Some(present(latest_entries(values, idx, window_span(idx, window)))[0])
                == values[idx]
        },
{
    let e = latest_entries(values, idx, window_span(idx, window));
    lemma_present_len(e);
    if forall|i: int| 0 <= i < values.len() ==> (#[trigger] values[i]) is Some {
        assert forall|j: int| 0 <= j < e.len() implies (#[trigger] e[j]) is Some by {
            assert(e[j] == values[idx - j]);
        }
        lemma_all_present(e);
        if window > 0 {
            assert(e[0] == values[idx]);
        }
    }
}

/// `spec_previous` names the object exactly `back + 1` places earlier: a
/// found position plus `back + 1` is `idx` and lies among the objects, and
/// one is found whenever that position exists.
pub proof fn lemma_previous_position(idx: int, back: int, len: int)
    requires
        0 <= back,
    ensures
        spec_previous(idx, back, len) matches Some(j) ==> j + back + 1 == idx && 0 <= j < len,
        back < idx && idx - back - 1 < len ==> spec_previous(idx, back, len) is Some,
{
}

/// A window of `window` earlier objects reaches back the smaller of
/// `window` and `idx`: never further than either, and as far as one of them.
pub proof fn lemma_window_reach_is_smaller(idx: int, window: int)
    ensures
        window_reach(idx, window) <= window,
        window_reach(idx, window) <= idx,
        window_reach(idx, window) == window || window_reach(idx, window) == idx,
{
}

/// A window of `window` entries, the current one included, spans the
/// smaller of `window` and `idx + 1`.
pub proof fn lemma_window_span_is_smaller(idx: int, window: int)
    ensures
        window_span(idx, window) <= window,
        window_span(idx, window) <= idx + 1,
        window_span(idx, window) == window || window_span(idx, window) == idx + 1,
{
}

/// The two objects before position `idx`, as `(second before, just
/// before)`, when both exist among the `spinners@.len()` objects and neither
/// the current object nor the one just before it is a spinner.
/// `spinners[i]` says whether object `i` is a spinner.
pub fn evaluation_pair(spinners: &[bool], idx: usize, curr_is_spinner: bool) -> (r: Option<(usize, usize)>)
    ensures
        r is Some <==> (idx >= 2 && idx - 1 < spinners@.len() && !curr_is_spinner
            && !spinners@[idx - 1]),
        r matches Some(p) ==> p.0 == idx - 2 && p.1 == idx - 1,
{
    match (previous_index(idx, 1, spinners.len()), previous_index(idx, 0, spinners.len())) {
        (Some(last_last), Some(last)) => {
            if curr_is_spinner || spinners[last] {
                None
            } else {
                Some((last_last, last))
            }
        },
        _ => None,
    }
}

} // verus!
