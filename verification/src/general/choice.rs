//! Choosing, among steps with a value each, those of the highest value.
use vstd::prelude::*;

verus! {

/// The highest of the first `k` values.
pub open spec fn top(values: Seq<i32>, k: nat) -> int
    decreases k,
{
    if k <= 1 {
        values[0] as int
    } else {
        let t = top(values, (k - 1) as nat);
        if values[k - 1] > t {
            values[k - 1] as int
        } else {
            t
        }
    }
}

/// Of the first `k` steps, those whose value is `best`, in their order.
pub open spec fn pick_upto<S>(steps: Seq<S>, values: Seq<i32>, best: int, k: nat) -> Seq<S>
    decreases k,
{
    if k == 0 {
        Seq::empty()
    } else {
        let p = pick_upto(steps, values, best, (k - 1) as nat);
        if values[k - 1] == best {
            p.push(steps[k - 1])
        } else {
            p
        }
    }
}

/// The steps of the highest value, in their order.
pub open spec fn best_steps<S>(steps: Seq<S>, values: Seq<i32>) -> Seq<S> {
    pick_upto(steps, values, top(values, values.len()), values.len())
}

/// The highest value is the value of a step, and no value is higher.
pub proof fn lemma_top(values: Seq<i32>, k: nat)
    requires
        0 < k <= values.len(),
    ensures
        forall|i: int| 0 <= i < k ==> values[i] <= top(values, k),
        exists|i: int| 0 <= i < k && values[i] == top(values, k),
    decreases k,
{
    if k > 1 {
        lemma_top(values, (k - 1) as nat);
        let i = choose|i: int| 0 <= i < k - 1 && values[i] == top(values, (k - 1) as nat);
        if values[k - 1] > top(values, (k - 1) as nat) {
            assert(values[k - 1] == top(values, k));
        } else {
            assert(values[i] == top(values, k));
        }
    } else {
        assert(values[0] == top(values, k));
    }
}

/// Every step of the highest value is picked, so some step is.
pub proof fn lemma_pick_some<S>(steps: Seq<S>, values: Seq<i32>, best: int, k: nat, i: int)
    requires
        0 <= i < k <= values.len(),
        values[i] == best,
    ensures
        pick_upto(steps, values, best, k).len() > 0,
    decreases k,
{
    if i < k - 1 {
        lemma_pick_some(steps, values, best, (k - 1) as nat, i);
    }
}

/// The steps of the highest value.
pub fn best_of<S: Copy>(steps: &Vec<S>, values: &Vec<i32>) -> (r: Vec<S>)
    requires
        steps.len() == values.len(),
        values.len() > 0,
    ensures
        r@ == best_steps(steps@, values@),
        r.len() > 0,
{
    let mut best: i32 = values[0];
    let mut k: usize = 1;
    while k < values.len()
        invariant
            1 <= k <= values.len(),
            best == top(values@, k as nat),
        decreases values.len() - k,
    {
        if values[k] > best {
            best = values[k];
        }
        k += 1;
    }
    let mut r: Vec<S> = Vec::new();
    let mut i: usize = 0;
    while i < values.len()
        invariant
            i <= values.len(),
            steps.len() == values.len(),
            r@ == pick_upto(steps@, values@, best as int, i as nat),
        decreases values.len() - i,
    {
        if values[i] == best {
            r.push(steps[i]);
        }
        i += 1;
    }
    proof {
        lemma_top(values@, values.len() as nat);
        let w = choose|w: int| 0 <= w < values.len() && values@[w] == top(values@, values.len() as nat);
        lemma_pick_some(steps@, values@, best as int, values.len() as nat, w);
    }
    r
}

} // verus!
