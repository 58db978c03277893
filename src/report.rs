use vstd::prelude::*;

verus! {

/// The positions of the `n` largest values, largest first: `r` holds `n`
/// distinct positions, or every position where there are fewer; their values
/// do not increase, and no position left out holds a value above any that was
/// taken.
pub fn top_indices(vals: &Vec<u64>, n: usize) -> (r: Vec<usize>)
    ensures
        r@.len() <= n,
        r@.len() == n || forall|j: usize| j < vals@.len() ==> #[trigger] r@.contains(j),
        forall|a: int| 0 <= a < r@.len() ==> #[trigger] r@[a] < vals@.len(),
        forall|a: int, b: int| 0 <= a < b < r@.len() ==> r@[a] != r@[b],
        forall|a: int, b: int| 0 <= a < b < r@.len() ==> vals@[r@[a] as int] >= vals@[r@[b] as int],
        forall|a: int, j: usize|
            0 <= a < r@.len() && j < vals@.len() && !r@.contains(j) ==> #[trigger] vals@[j as int]
                <= #[trigger] vals@[r@[a] as int],
{
    let len = vals.len();
    let mut taken: Vec<bool> = Vec::new();
    let mut k: usize = 0;
    while k < len
        invariant
            len == vals@.len(),
            k <= len,
            taken@.len() == k,
            forall|j: int| 0 <= j < k ==> !taken@[j],
        decreases len - k,
    {
        taken.push(false);
        k = k + 1;
    }
    let mut r: Vec<usize> = Vec::new();
    while r.len() < n
        invariant
            len == vals@.len(),
            taken@.len() == len,
            r@.len() <= n,
            forall|j: usize| j < len ==> (taken@[j as int] <==> #[trigger] r@.contains(j)),
            forall|a: int| 0 <= a < r@.len() ==> #[trigger] r@[a] < len,
            forall|a: int, b: int| 0 <= a < b < r@.len() ==> r@[a] != r@[b],
            forall|a: int, b: int| 0 <= a < b < r@.len() ==> vals@[r@[a] as int] >= vals@[r@[b] as int],
            forall|a: int, j: usize|
                0 <= a < r@.len() && j < len && !r@.contains(j) ==> #[trigger] vals@[j as int]
                    <= #[trigger] vals@[r@[a] as int],
        decreases n - r@.len(),
    {
        let mut best: usize = len;
        let mut j: usize = 0;
        while j < len
            invariant
                len == vals@.len(),
                taken@.len() == len,
                j <= len,
                best == len || (best < j && !taken@[best as int]),
                forall|i: int| 0 <= i < j && !taken@[i] ==> best < len && vals@[i] <= vals@[best as int],
            decreases len - j,
        {
            if !taken[j] && (best == len || vals[j] > vals[best]) {
                best = j;
            }
            j = j + 1;
        }
        if best == len {
            assert forall|i: usize| i < len implies #[trigger] r@.contains(i) by {
                assert(taken@[i as int]);
            }
            return r;
        }
        let ghost old_r = r@;
        assert(!old_r.contains(best));
        r.push(best);
        taken.set(best, true);
        proof {
            assert forall|a: int, b: int| 0 <= a < b < r@.len() implies r@[a] != r@[b] by {
                if b == old_r.len() && r@[a] == best {
                    assert(old_r[a] == best);
                    assert(old_r.contains(best));
                }
            }
            assert forall|i: usize| i < len implies (taken@[i as int] <==> #[trigger] r@.contains(i)) by {
                if i == best {
                    assert(r@[old_r.len() as int] == best);
                } else {
                    if r@.contains(i) {
                        let w = choose|w: int| 0 <= w < r@.len() && r@[w] == i;
                        assert(old_r[w] == i);
                    }
                    if old_r.contains(i) {
                        let w = choose|w: int| 0 <= w < old_r.len() && old_r[w] == i;
                        assert(r@[w] == i);
                    }
                }
            }
        }
    }
    r
}

} // verus!
