use vstd::prelude::*;

verus! {

/// The onsets picked among the first `k` analysis windows, and the start of
/// the last one picked: window `i` starts at `i * window`; it is an onset
/// when its level jumped (`jumps[i]`) and it starts at least `refractory`
/// samples after the last onset.
pub open spec fn onsets_upto(jumps: Seq<bool>, window: nat, refractory: nat, k: nat) -> (
    Seq<u64>,
    Option<nat>,
)
    decreases k,
{
    if k == 0 {
        (Seq::empty(), None)
    } else {
        let (out, last) = onsets_upto(jumps, window, refractory, (k - 1) as nat);
        let start = ((k - 1) * window) as nat;
        let clear = match last {
            None => true,
            Some(l) => start >= l + refractory,
        };
        if jumps[k - 1] && clear {
            (out.push(start as u64), Some(start))
        } else {
            (out, last)
        }
    }
}

/// Sample positions of the onsets among the analysis windows.
pub open spec fn spec_onsets(jumps: Seq<bool>, window: nat, refractory: nat) -> Seq<u64> {
    onsets_upto(jumps, window, refractory, jumps.len()).0
}

proof fn lemma_onsets_last_bound(jumps: Seq<bool>, window: nat, refractory: nat, k: nat)
    requires
        k <= jumps.len(),
    ensures
        match onsets_upto(jumps, window, refractory, k).1 {
            Some(l) => k > 0 && l <= (k - 1) * window,
            None => true,
        },
    decreases k,
{
    if k > 0 {
        lemma_onsets_last_bound(jumps, window, refractory, (k - 1) as nat);
        if k > 1 {
            assert((k - 2) * window <= (k - 1) * window) by (nonlinear_arith)
                requires
                    k > 1,
            ;
        }
    }
}

/// Every onset is the start of a window whose level jumped.
pub open spec fn onsets_from_jumps(jumps: Seq<bool>, window: nat, k: nat, out: Seq<u64>) -> bool {
    forall|j: int|
        #![trigger out[j]]
        0 <= j < out.len() ==> exists|w: int|
            0 <= w < k && #[trigger] jumps[w] && out[j] == w * window
}

/// Consecutive onsets are at least `refractory` samples apart.
pub open spec fn onsets_spaced(refractory: nat, out: Seq<u64>) -> bool {
    forall|j: int| 0 < j < out.len() ==> out[j - 1] + refractory <= #[trigger] out[j]
}

/// No window whose level jumped is passed over: its start is an onset, or it
/// falls within `refractory` samples after an onset at or before it.
pub open spec fn no_jump_skipped(
    jumps: Seq<bool>,
    window: nat,
    refractory: nat,
    k: nat,
    out: Seq<u64>,
) -> bool {
    forall|w: int|
        0 <= w < k && #[trigger] jumps[w] ==> exists|j: int|
            0 <= j < out.len() && #[trigger] out[j] <= w * window && (out[j] == w * window || w
                * window < out[j] + refractory)
}

proof fn lemma_onsets_upto_last(jumps: Seq<bool>, window: nat, refractory: nat, k: nat)
    requires
        k <= jumps.len(),
        k == 0 || (k - 1) * window <= u64::MAX,
    ensures
        ({
            let (out, last) = onsets_upto(jumps, window, refractory, k);
            &&& last is None <==> out.len() == 0
            &&& last matches Some(l) ==> out.last() == l && k > 0 && l <= (k - 1) * window
        }),
    decreases k,
{
    if k > 0 {
        if k > 1 {
            assert((k - 2) * window <= (k - 1) * window) by (nonlinear_arith)
                requires
                    k > 1,
            ;
        }
        lemma_onsets_upto_last(jumps, window, refractory, (k - 1) as nat);
        lemma_onsets_last_bound(jumps, window, refractory, k);
    }
}

proof fn lemma_onsets_upto_spaced(jumps: Seq<bool>, window: nat, refractory: nat, k: nat)
    requires
        k <= jumps.len(),
        k == 0 || (k - 1) * window <= u64::MAX,
    ensures
        onsets_spaced(refractory, onsets_upto(jumps, window, refractory, k).0),
        window > 0 ==> ({
            let out = onsets_upto(jumps, window, refractory, k).0;
            forall|j: int| 0 < j < out.len() ==> out[j - 1] < #[trigger] out[j]
        }),
    decreases k,
{
    if k > 0 {
        let km = (k - 1) as nat;
        if km > 0 {
            assert((km - 1) * window <= km * window) by (nonlinear_arith);
        }
        lemma_onsets_upto_spaced(jumps, window, refractory, km);
        lemma_onsets_upto_last(jumps, window, refractory, km);
        let (out0, last0) = onsets_upto(jumps, window, refractory, km);
        let out = onsets_upto(jumps, window, refractory, k).0;
        let start = (km * window) as nat;
        let clear = match last0 {
            None => true,
            Some(l) => start >= l + refractory,
        };
        if jumps[km as int] && clear {
            assert(out =~= out0.push(start as u64));
            if let Some(l) = last0 {
                if window > 0 {
                    assert((km - 1) * window < km * window) by (nonlinear_arith)
                        requires
                            km > 0,
                            window > 0,
                    ;
                }
            }
        }
    }
}

proof fn lemma_onsets_upto_from_jumps(jumps: Seq<bool>, window: nat, refractory: nat, k: nat)
    requires
        k <= jumps.len(),
        k == 0 || (k - 1) * window <= u64::MAX,
    ensures
        onsets_from_jumps(jumps, window, k, onsets_upto(jumps, window, refractory, k).0),
    decreases k,
{
    if k > 0 {
        let km = (k - 1) as nat;
        if km > 0 {
            assert((km - 1) * window <= km * window) by (nonlinear_arith);
        }
        lemma_onsets_upto_from_jumps(jumps, window, refractory, km);
        let out0 = onsets_upto(jumps, window, refractory, km).0;
        let out = onsets_upto(jumps, window, refractory, k).0;
        assert forall|j: int| #![trigger out[j]] 0 <= j < out.len() implies exists|w: int|
            0 <= w < k && #[trigger] jumps[w] && out[j] == w * window by {
            if j < out0.len() {
                assert(out[j] == out0[j]);
                let w = choose|w: int| 0 <= w < km && #[trigger] jumps[w] && out0[j] == w * window;
                assert(jumps[w]);
            } else {
                assert(jumps[km as int]);
                assert(out[j] == km * window);
            }
        }
    }
}

proof fn lemma_onsets_upto_none_skipped(jumps: Seq<bool>, window: nat, refractory: nat, k: nat)
    requires
        k <= jumps.len(),
        k == 0 || (k - 1) * window <= u64::MAX,
    ensures
        no_jump_skipped(jumps, window, refractory, k, onsets_upto(jumps, window, refractory, k).0),
    decreases k,
{
    if k > 0 {
        let km = (k - 1) as nat;
        if km > 0 {
            assert((km - 1) * window <= km * window) by (nonlinear_arith);
        }
        lemma_onsets_upto_none_skipped(jumps, window, refractory, km);
        lemma_onsets_upto_last(jumps, window, refractory, km);
        let (out0, last0) = onsets_upto(jumps, window, refractory, km);
        let out = onsets_upto(jumps, window, refractory, k).0;
        let start = (km * window) as nat;
        assert(out0.is_prefix_of(out));
        assert forall|w: int| 0 <= w < k && #[trigger] jumps[w] implies exists|j: int|
            0 <= j < out.len() && #[trigger] out[j] <= w * window && (out[j] == w * window || w
                * window < out[j] + refractory) by {
            if w < km {
                let j = choose|j: int|
                    0 <= j < out0.len() && #[trigger] out0[j] <= w * window && (out0[j] == w
                        * window || w * window < out0[j] + refractory);
                assert(out[j] == out0[j]);
            } else if out.len() > out0.len() {
                assert(out[out0.len() as int] == start);
            } else {
                let l = last0->0;
                let j = out0.len() - 1;
                assert(out[j] == l);
            }
        }
    }
}

/// What counts as an onset, stated without the scan: every onset is the
/// start of a window whose level jumped, consecutive onsets are at least
/// `refractory` samples apart (and strictly increase when windows have a
/// length), and every window whose level jumped is an onset or falls within
/// `refractory` samples after an onset at or before it.
pub proof fn lemma_onsets_characterized(jumps: Seq<bool>, window: nat, refractory: nat)
    requires
        jumps.len() == 0 || (jumps.len() - 1) * window <= u64::MAX,
    ensures
        onsets_from_jumps(jumps, window, jumps.len(), spec_onsets(jumps, window, refractory)),
        onsets_spaced(refractory, spec_onsets(jumps, window, refractory)),
        no_jump_skipped(
            jumps,
            window,
            refractory,
            jumps.len(),
            spec_onsets(jumps, window, refractory),
        ),
        window > 0 ==> ({
            let out = spec_onsets(jumps, window, refractory);
            forall|j: int| 0 < j < out.len() ==> out[j - 1] < #[trigger] out[j]
        }),
{
    lemma_onsets_upto_spaced(jumps, window, refractory, jumps.len());
    lemma_onsets_upto_from_jumps(jumps, window, refractory, jumps.len());
    lemma_onsets_upto_none_skipped(jumps, window, refractory, jumps.len());
}

/// Picks onsets among consecutive analysis windows of `window` samples:
/// `jumps[i]` says whether window `i` is loud enough and jumped enough over
/// the one before. An onset is reported at its window's start, and none
/// within `refractory` samples after the previous one.
pub fn select_onsets(jumps: &[bool], window: usize, refractory: usize) -> (onsets: Vec<u64>)
    requires
        jumps@.len() == 0 || (jumps@.len() - 1) * window <= usize::MAX,
    ensures
        onsets@ == spec_onsets(jumps@, window as nat, refractory as nat),
{
    let mut out: Vec<u64> = Vec::new();
    let mut last: Option<usize> = None;
    let mut i: usize = 0;
    while i < jumps.len()
        invariant
            i <= jumps@.len(),
            jumps@.len() == 0 || (jumps@.len() - 1) * window <= usize::MAX,
            out@ == onsets_upto(jumps@, window as nat, refractory as nat, i as nat).0,
            match onsets_upto(jumps@, window as nat, refractory as nat, i as nat).1 {
                Some(l) => last == Some(l as usize) && l <= usize::MAX,
                None => last is None,
            },
        decreases jumps@.len() - i,
    {
        proof {
            lemma_onsets_last_bound(jumps@, window as nat, refractory as nat, i as nat);
            assert(i * window <= (jumps@.len() - 1) * window) by (nonlinear_arith)
                requires
                    i < jumps@.len(),
            ;
            if i > 0 {
                assert((i - 1) * window <= i * window) by (nonlinear_arith)
                    requires
                        i > 0,
                ;
            }
        }
        let start = i * window;
        let clear = match last {
            None => true,
            Some(l) => start - l >= refractory,
        };
        if jumps[i] && clear {
            out.push(start as u64);
            last = Some(start);
        }
        i += 1;
    }
    out
}

} // verus!
