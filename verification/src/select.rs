//! Turning a confirmed selection into a download plan: the chosen indices,
//! validated and put in ascending order.

use vstd::prelude::*;

verus! {

/// Every selected index points into a list of `n` items.
pub open spec fn in_range(sel: Seq<usize>, n: usize) -> bool {
    forall|k: int| 0 <= k < sel.len() ==> (#[trigger] sel[k]) < n
}

/// No index is selected twice.
pub open spec fn distinct(sel: Seq<usize>) -> bool {
    forall|j: int, k: int| 0 <= j < k < sel.len() ==> sel[j] != sel[k]
}

/// A selection is valid for `n` items when its indices are in range and
/// pairwise distinct.
pub open spec fn valid_selection(sel: Seq<usize>, n: usize) -> bool {
    in_range(sel, n) && distinct(sel)
}

/// The ascending download plan: of the indices below `n`, those that the
/// selection contains, in increasing order.
pub open spec fn plan_spec(sel: Seq<usize>, n: usize) -> Seq<usize>
    decreases n,
{
    if n == 0 {
        Seq::empty()
    } else {
        plan_spec(sel, (n - 1) as usize) + (if sel.contains((n - 1) as usize) {
            seq![(n - 1) as usize]
        } else {
            Seq::empty()
        })
    }
}

/// The plan is strictly ascending (so it holds no duplicates), stays inside
/// `[0, n)`, and holds exactly the selected indices below `n`.
pub proof fn lemma_plan_properties(sel: Seq<usize>, n: usize)
    ensures
        forall|a: int, b: int|
            0 <= a < b < plan_spec(sel, n).len() ==> plan_spec(sel, n)[a] < plan_spec(sel, n)[b],
        forall|a: int| 0 <= a < plan_spec(sel, n).len() ==> plan_spec(sel, n)[a] < n,
        forall|i: usize| plan_spec(sel, n).contains(i) <==> (i < n && sel.contains(i)),
    decreases n,
{
    if n > 0 {
        let m = (n - 1) as usize;
        lemma_plan_properties(sel, m);
        let p = plan_spec(sel, n);
        let q = plan_spec(sel, m);
        assert forall|i: usize| p.contains(i) implies (i < n && sel.contains(i)) by {
            let k = choose|k: int| 0 <= k < p.len() && p[k] == i;
            if k < q.len() {
                assert(q[k] == i);
                assert(q.contains(i));
            }
        }
        assert forall|i: usize| i < n && sel.contains(i) implies p.contains(i) by {
            if i < m {
                assert(q.contains(i));
                let k = choose|k: int| 0 <= k < q.len() && q[k] == i;
                assert(p[k] == i);
            } else {
                assert(p[p.len() - 1] == i);
            }
        }
        assert forall|a: int, b: int| 0 <= a < b < p.len() implies p[a] < p[b] by {
            if b < q.len() {
                assert(p[a] == q[a] && p[b] == q[b]);
            } else {
                assert(p[a] == q[a] && p[b] == m);
            }
        }
    }
}

fn selection_contains(sel: &Vec<usize>, x: usize) -> (r: bool)
    ensures
        r == sel@.contains(x),
{
    let mut j: usize = 0;
    while j < sel.len()
        invariant
            j <= sel.len(),
            forall|k: int| 0 <= k < j ==> sel@[k] != x,
        decreases sel.len() - j,
    {
        if sel[j] == x {
            return true;
        }
        j = j + 1;
    }
    false
}

/// Validates a confirmed selection against an `n`-item list and yields the
/// ascending download plan; rejects a selection with an out-of-range or a
/// repeated index.
pub fn ascending_plan(selected: &Vec<usize>, n: usize) -> (r: Option<Vec<usize>>)
    ensures
        match r {
            Some(p) => valid_selection(selected@, n) && p@ == plan_spec(selected@, n),
            None => !valid_selection(selected@, n),
        },
{
    let m = selected.len();
    let mut j: usize = 0;
    while j < m
        invariant
            m == selected.len(),
            j <= m,
            forall|k: int| 0 <= k < j ==> (#[trigger] selected@[k]) < n,
            forall|a: int, b: int| 0 <= a < b < j ==> selected@[a] != selected@[b],
        decreases m - j,
    {
        if selected[j] >= n {
            return None;
        }
        let mut k: usize = 0;
        while k < j
            invariant
                m == selected.len(),
                k <= j < m,
                forall|a: int| 0 <= a < k ==> selected@[a] != selected@[j as int],
            decreases j - k,
        {
            if selected[k] == selected[j] {
                return None;
            }
            k = k + 1;
        }
        j = j + 1;
    }
    let mut plan: Vec<usize> = Vec::new();
    proof {
        assert(plan@ =~= plan_spec(selected@, 0));
    }
    let mut i: usize = 0;
    while i < n
        invariant
            i <= n,
            valid_selection(selected@, n),
            plan@ == plan_spec(selected@, i),
        decreases n - i,
    {
        if selection_contains(selected, i) {
            plan.push(i);
        }
        proof {
            if selected@.contains(i) {
                assert(plan@ =~= plan_spec(selected@, i) + seq![i]);
            } else {
                assert(plan@ =~= plan_spec(selected@, i) + Seq::<usize>::empty());
            }
            assert(plan@ == plan_spec(selected@, (i + 1) as usize));
        }
        i = i + 1;
    }
    Some(plan)
}

} // verus!
