use vstd::prelude::*;

verus! {

/// `a + b`, held at `u64::MAX`.
pub open spec fn sat_add(a: nat, b: nat) -> nat {
    if a + b > u64::MAX {
        u64::MAX as nat
    } else {
        a + b
    }
}

/// The first index at or after `i` where `s` holds `x`, or the length of `s`.
pub open spec fn find_in<T>(s: Seq<T>, x: T, i: int) -> int
    decreases s.len() - i,
{
    if i >= s.len() {
        s.len() as int
    } else if 0 <= i && s[i] == x {
        i
    } else {
        find_in(s, x, i + 1)
    }
}

pub proof fn lemma_find_in_found<T>(s: Seq<T>, x: T, i: int)
    requires
        0 <= i <= s.len(),
    ensures
        i <= find_in(s, x, i) <= s.len(),
        find_in(s, x, i) < s.len() ==> s[find_in(s, x, i)] == x,
        find_in(s, x, i) == s.len() ==> forall|k: int| i <= k < s.len() ==> s[k] != x,
    decreases s.len() - i,
{
    if i < s.len() && s[i] != x {
        lemma_find_in_found(s, x, i + 1);
    }
}

pub proof fn lemma_find_in_push<T>(s: Seq<T>, y: T, x: T, i: int)
    requires
        0 <= i <= s.len(),
    ensures
        find_in(s.push(y), x, i) == if find_in(s, x, i) < s.len() {
            find_in(s, x, i)
        } else if y == x {
            s.len() as int
        } else {
            s.len() + 1int
        },
    decreases s.len() - i,
{
    let t = s.push(y);
    if i < s.len() {
        assert(t[i] == s[i]);
        if s[i] != x {
            lemma_find_in_push(s, y, x, i + 1);
        }
    } else {
        assert(t[i] == y);
        if y != x {
            assert(find_in(t, x, i + 1) == t.len());
        }
    }
}

pub proof fn lemma_find_in_at<T>(s: Seq<T>, x: T, i: int, j: int)
    requires
        0 <= i <= j < s.len(),
        s[j] == x,
        forall|k: int| i <= k < j ==> s[k] != x,
    ensures
        find_in(s, x, i) == j,
    decreases j - i,
{
    if i < j {
        lemma_find_in_at(s, x, i + 1, j);
    }
}

/// Occurrence counts keyed by text.
pub struct Counts {
    keys: Vec<String>,
    vals: Vec<u64>,
}

impl Counts {
    pub closed spec fn keys_view(&self) -> Seq<Seq<char>> {
        self.keys@.map_values(|s: String| s@)
    }

    pub closed spec fn wf(&self) -> bool {
        &&& self.keys@.len() == self.vals@.len()
        &&& forall|a: int, b: int|
            0 <= a < b < self.keys@.len() ==> self.keys@[a]@ != self.keys@[b]@
        &&& forall|a: int| 0 <= a < self.vals@.len() ==> #[trigger] self.vals@[a] > 0
    }

    /// How often `k` was counted; zero for a key never seen.
    pub closed spec fn count(&self, k: Seq<char>) -> nat {
        let i = find_in(self.keys_view(), k, 0);
        if i < self.vals@.len() {
            self.vals@[i] as nat
        } else {
            0
        }
    }

    /// The keys, each once, in the order first seen.
    pub closed spec fn key_seq(&self) -> Seq<Seq<char>> {
        self.keys_view()
    }

    /// A count fits in a `u64`.
    pub proof fn lemma_count_bounded(&self, k: Seq<char>)
        ensures
            self.count(k) <= u64::MAX,
    {
    }

    /// A key that is not among the keys counts zero.
    pub proof fn lemma_absent_is_zero(&self, k: Seq<char>)
        requires
            self.wf(),
        ensures
            find_in(self.key_seq(), k, 0) < self.key_seq().len() || self.count(k) == 0,
            find_in(self.key_seq(), k, 0) <= self.key_seq().len(),
    {
        lemma_find_in_found(self.keys_view(), k, 0);
    }

    pub fn new() -> (r: Counts)
        ensures
            r.wf(),
            forall|k: Seq<char>| r.count(k) == 0,
            r.key_seq() == Seq::<Seq<char>>::empty(),
    {
        let r = Counts { keys: Vec::new(), vals: Vec::new() };
        assert(r.key_seq() =~= Seq::<Seq<char>>::empty());
        r
    }

    /// The keys are exactly those with a non-zero count.
    pub proof fn lemma_keys_are_counted(&self)
        requires
            self.wf(),
        ensures
            forall|k: Seq<char>| #[trigger] self.key_seq().contains(k) <==> self.count(k) > 0,
    {
        let kv = self.keys_view();
        assert forall|k: Seq<char>| #[trigger] self.key_seq().contains(k) <==> self.count(k) > 0 by {
            lemma_find_in_found(kv, k, 0);
            if kv.contains(k) {
                let w = choose|w: int| 0 <= w < kv.len() && kv[w] == k;
                assert(kv[w] == self.keys@[w]@);
                assert(find_in(kv, k, 0) < kv.len());
            }
            if find_in(kv, k, 0) < kv.len() {
                assert(kv[find_in(kv, k, 0)] == k);
            }
        }
    }

    fn index_of(&self, k: &String) -> (r: usize)
        requires
            self.wf(),
        ensures
            r == find_in(self.keys_view(), k@, 0),
            r <= self.keys@.len(),
    {
        let mut i: usize = 0;
        while i < self.keys.len()
            invariant
                self.wf(),
                i <= self.keys@.len(),
                find_in(self.keys_view(), k@, 0) == find_in(self.keys_view(), k@, i as int),
            decreases self.keys.len() - i,
        {
            if self.keys[i].eq(k) {
                return i;
            }
            i = i + 1;
        }
        i
    }

    /// The count of `k`.
    pub fn get(&self, k: &String) -> (r: u64)
        requires
            self.wf(),
        ensures
            r == self.count(k@),
    {
        let i = self.index_of(k);
        if i < self.vals.len() {
            self.vals[i]
        } else {
            0
        }
    }

    /// Adds `n` to the count of `k`, holding at `u64::MAX`.
    pub fn add(&mut self, k: &String, n: u64)
        requires
            old(self).wf(),
        ensures
            final(self).wf(),
            forall|j: Seq<char>|
                #[trigger] final(self).count(j) == if j == k@ {
                    sat_add(old(self).count(j), n as nat)
                } else {
                    old(self).count(j)
                },
            final(self).key_seq() == if n == 0 || old(self).key_seq().contains(k@) {
                old(self).key_seq()
            } else {
                old(self).key_seq().push(k@)
            },
    {
        if n == 0 {
            assert forall|j: Seq<char>| #[trigger] self.count(j) == if j == k@ {
                sat_add(old(self).count(j), n as nat)
            } else {
                old(self).count(j)
            } by {
                self.lemma_count_bounded(j);
            }
            return;
        }
        let i = self.index_of(k);
        let ghost kv = self.keys_view();
        proof {
            lemma_find_in_found(kv, k@, 0);
        }
        if i < self.vals.len() {
            let v = self.vals[i].saturating_add(n);
            let ghost old_vals = self.vals@;
            self.vals.set(i, v);
            assert(self.keys_view() == kv);
            assert(self.vals@ == old_vals.update(i as int, v));
            assert(kv.contains(k@)) by {
                assert(kv[i as int] == k@);
            }
            assert(v == sat_add(old(self).count(k@), n as nat));
            assert(self.count(k@) == sat_add(old(self).count(k@), n as nat));
            assert forall|j: Seq<char>| j != k@ implies #[trigger] self.count(j) == old(self).count(j) by {
                lemma_find_in_found(kv, j, 0);
                assert(old(self).keys_view() == kv);
                assert(old(self).vals@ == old_vals);
                let fi = find_in(kv, j, 0);
                assert(self.keys_view() == kv);
                if fi < kv.len() {
                    assert(fi != i);
                    assert(self.vals@[fi] == old_vals[fi]);
                }
            }
        } else {
            let ghost old_vals = self.vals@;
            self.keys.push(k.clone());
            self.vals.push(n);
            assert(self.keys_view() =~= kv.push(k@));
            assert(old(self).keys_view() == kv);
            assert(!kv.contains(k@));
            assert forall|a: int, b: int| 0 <= a < b < self.keys@.len() implies self.keys@[a]@
                != self.keys@[b]@ by {
                if b == kv.len() {
                    assert(kv[a] == self.keys@[a]@);
                }
            }
            assert forall|j: Seq<char>| #[trigger] self.count(j) == if j == k@ {
                sat_add(old(self).count(j), n as nat)
            } else {
                old(self).count(j)
            } by {
                lemma_find_in_push(kv, k@, j, 0);
                lemma_find_in_found(kv, j, 0);
                let fi = find_in(kv, j, 0);
                if fi < kv.len() {
                    assert(self.vals@[fi] == old_vals[fi]);
                }
            }
        }
    }

    /// The number of distinct keys.
    pub fn len(&self) -> (r: usize)
        ensures
            r == self.key_seq().len(),
    {
        self.keys.len()
    }

    /// The key at position `i` and its count.
    pub fn entry(&self, i: usize) -> (r: (&String, u64))
        requires
            self.wf(),
            i < self.key_seq().len(),
        ensures
            r.0@ == self.key_seq()[i as int],
            r.1 == self.count(self.key_seq()[i as int]),
            find_in(self.key_seq(), self.key_seq()[i as int], 0) == i,
    {
        proof {
            let kv = self.keys_view();
            assert forall|k: int| 0 <= k < i implies kv[k] != kv[i as int] by {
                assert(kv[k] == self.keys@[k]@);
            }
            lemma_find_in_at(kv, kv[i as int], 0, i as int);
        }
        let k = &self.keys[i];
        (k, self.get(k))
    }

    /// The counts in key order.
    fn values(&self) -> (r: Vec<u64>)
        requires
            self.wf(),
        ensures
            r@.len() == self.key_seq().len(),
            forall|i: int| 0 <= i < r@.len() ==> #[trigger] r@[i] == self.count(self.key_seq()[i]),
    {
        let mut r: Vec<u64> = Vec::new();
        let mut i: usize = 0;
        while i < self.keys.len()
            invariant
                self.wf(),
                i <= self.keys@.len(),
                r@.len() == i,
                forall|j: int| 0 <= j < i ==> #[trigger] r@[j] == self.count(self.key_seq()[j]),
            decreases self.keys.len() - i,
        {
            let (_, c) = self.entry(i);
            r.push(c);
            i = i + 1;
        }
        r
    }

    /// The `n` keys with the largest counts, largest first, each with its
    /// count; all keys where there are fewer. No key left out counts more than
    /// one that was taken.
    pub fn top(&self, n: usize) -> (r: Vec<(String, u64)>)
        requires
            self.wf(),
        ensures
            r@.len() <= n,
            forall|a: int| 0 <= a < r@.len() ==> self.key_seq().contains(#[trigger] r@[a].0@),
            forall|a: int| 0 <= a < r@.len() ==> #[trigger] r@[a].1 == self.count(r@[a].0@),
            forall|a: int, b: int| 0 <= a < b < r@.len() ==> r@[a].0@ != r@[b].0@,
            forall|a: int, b: int| 0 <= a < b < r@.len() ==> r@[a].1 >= r@[b].1,
            forall|a: int, k: Seq<char>|
                0 <= a < r@.len() && self.key_seq().contains(k) && !(exists|b: int|
                    0 <= b < r@.len() && #[trigger] r@[b].0@ == k) ==> #[trigger] self.count(k)
                    <= #[trigger] r@[a].1,
            r@.len() == n || forall|k: Seq<char>|
                #[trigger] self.key_seq().contains(k) ==> exists|b: int|
                    0 <= b < r@.len() && #[trigger] r@[b].0@ == k,
    {
        let vals = self.values();
        let idx = crate::report::top_indices(&vals, n);
        let ghost ks = self.key_seq();
        let mut r: Vec<(String, u64)> = Vec::new();
        let mut i: usize = 0;
        while i < idx.len()
            invariant
                self.wf(),
                ks == self.key_seq(),
                vals@.len() == ks.len(),
                forall|j: int| 0 <= j < vals@.len() ==> #[trigger] vals@[j] == self.count(ks[j]),
                forall|a: int| 0 <= a < idx@.len() ==> #[trigger] idx@[a] < ks.len(),
                i <= idx@.len(),
                r@.len() == i,
                forall|a: int| 0 <= a < i ==> #[trigger] r@[a].0@ == ks[idx@[a] as int],
                forall|a: int| 0 <= a < i ==> #[trigger] r@[a].1 == vals@[idx@[a] as int],
            decreases idx.len() - i,
        {
            let (k, c) = self.entry(idx[i]);
            r.push((k.clone(), c));
            i = i + 1;
        }
        proof {
            let kv = self.keys_view();
            assert forall|a: int| 0 <= a < r@.len() implies self.key_seq().contains(#[trigger] r@[a].0@) by {
                assert(ks[idx@[a] as int] == r@[a].0@);
            }
            assert forall|a: int, b: int| 0 <= a < b < r@.len() implies r@[a].0@ != r@[b].0@ by {
                assert(self.keys@[idx@[a] as int]@ == ks[idx@[a] as int]);
                assert(self.keys@[idx@[b] as int]@ == ks[idx@[b] as int]);
            }
            assert forall|a: int, k: Seq<char>|
                0 <= a < r@.len() && self.key_seq().contains(k) && !(exists|b: int|
                    0 <= b < r@.len() && #[trigger] r@[b].0@ == k) implies #[trigger] self.count(k)
                    <= #[trigger] r@[a].1 by {
                let j = choose|j: int| 0 <= j < ks.len() && ks[j] == k;
                if idx@.contains(j as usize) {
                    let b = choose|b: int| 0 <= b < idx@.len() && idx@[b] == j as usize;
                    assert(r@[b].0@ == k);
                }
                assert(vals@[j] <= vals@[idx@[a] as int]);
            }
            if r@.len() != n {
                assert forall|k: Seq<char>| #[trigger] self.key_seq().contains(k) implies exists|b: int|
                    0 <= b < r@.len() && #[trigger] r@[b].0@ == k by {
                    let j = choose|j: int| 0 <= j < ks.len() && ks[j] == k;
                    assert(idx@.contains(j as usize));
                    let b = choose|b: int| 0 <= b < idx@.len() && idx@[b] == j as usize;
                    assert(r@[b].0@ == k);
                }
            }
        }
        r
    }
}

} // verus!
