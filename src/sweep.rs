use vstd::prelude::*;

verus! {

/// The interval `[iv[0], iv[1])` contains `t`.
pub open spec fn covers(iv: [u64; 2], t: u64) -> bool {
    iv@[0] <= t < iv@[1]
}

/// The indices below `n` whose interval contains `t`, in increasing order.
pub open spec fn covering_upto(ivs: Seq<[u64; 2]>, t: u64, n: nat) -> Seq<usize>
    decreases n,
{
    if n == 0 {
        Seq::empty()
    } else {
        let rest = covering_upto(ivs, t, (n - 1) as nat);
        if covers(ivs[n - 1], t) {
            rest.push((n - 1) as usize)
        } else {
            rest
        }
    }
}

/// The indices of all intervals of `ivs` that contain `t`, in increasing order.
pub open spec fn covering(ivs: Seq<[u64; 2]>, t: u64) -> Seq<usize> {
    covering_upto(ivs, t, ivs.len())
}

pub open spec fn strictly_increasing(s: Seq<u64>) -> bool {
    forall|i: int, j: int| 0 <= i < j < s.len() ==> s[i] < s[j]
}

/// `s` lists each start of `ivs` once, in increasing order.
pub open spec fn is_start_keys(ivs: Seq<[u64; 2]>, s: Seq<u64>) -> bool {
    &&& strictly_increasing(s)
    &&& forall|x: u64| s.contains(x) <==> exists|i: int| 0 <= i < ivs.len() && (#[trigger] ivs[i])@[0] == x
}

/// The distinct interval starts, in increasing order.
pub open spec fn start_keys(ivs: Seq<[u64; 2]>) -> Seq<u64> {
    choose|s: Seq<u64>| is_start_keys(ivs, s)
}

/// Two increasing sequences with the same elements are equal.
pub proof fn lemma_increasing_unique(s1: Seq<u64>, s2: Seq<u64>)
    requires
        strictly_increasing(s1),
        strictly_increasing(s2),
        forall|x: u64| s1.contains(x) <==> s2.contains(x),
    ensures
        s1 == s2,
    decreases s1.len(),
{
    if s1.len() == 0 {
        if s2.len() > 0 {
            assert(s2.contains(s2[0]));
        }
        assert(s1 =~= s2);
    } else if s2.len() == 0 {
        assert(s1.contains(s1[0]));
    } else {
        assert(s1.contains(s1[0]));
        assert(s2.contains(s2[0]));
        assert(s1[0] == s2[0]);
        let (t1, t2) = (s1.drop_first(), s2.drop_first());
        assert forall|x: u64| t1.contains(x) <==> t2.contains(x) by {
            if t1.contains(x) {
                let i = choose|i: int| 0 <= i < t1.len() && t1[i] == x;
                assert(s1[i + 1] == x);
                assert(s1.contains(x));
                let j = choose|j: int| 0 <= j < s2.len() && s2[j] == x;
                assert(j != 0);
                assert(t2[j - 1] == x);
            }
            if t2.contains(x) {
                let i = choose|i: int| 0 <= i < t2.len() && t2[i] == x;
                assert(s2[i + 1] == x);
                assert(s2.contains(x));
                let j = choose|j: int| 0 <= j < s1.len() && s1[j] == x;
                assert(j != 0);
                assert(t1[j - 1] == x);
            }
        }
        lemma_increasing_unique(t1, t2);
        assert forall|i: int| 0 <= i < s1.len() implies s1[i] == s2[i] by {
            if i > 0 {
                assert(s1[i] == t1[i - 1]);
                assert(s2[i] == t2[i - 1]);
            }
        }
        assert(s1 =~= s2);
    }
}

/// The sweep attributes to each timestamp exactly the intervals that contain it, each once and
/// in increasing order.
pub proof fn lemma_covering_members(ivs: Seq<[u64; 2]>, t: u64, n: nat)
    requires
        n <= ivs.len(),
        n <= usize::MAX + 1,
    ensures
        forall|x: usize|
            #[trigger] covering_upto(ivs, t, n).contains(x) <==> (x < n && covers(ivs[x as int], t)),
        forall|i: int, j: int|
            0 <= i < j < covering_upto(ivs, t, n).len() ==> covering_upto(ivs, t, n)[i]
                < covering_upto(ivs, t, n)[j],
    decreases n,
{
    if n > 0 {
        let m = (n - 1) as nat;
        lemma_covering_members(ivs, t, m);
        let rest = covering_upto(ivs, t, m);
        let all = covering_upto(ivs, t, n);
        if covers(ivs[m as int], t) {
            assert(all == rest.push(m as usize));
            assert forall|x: usize| all.contains(x) <==> (rest.contains(x) || x == m as usize) by {
                if all.contains(x) {
                    let i = choose|i: int| 0 <= i < all.len() && all[i] == x;
                    if i < rest.len() {
                        assert(rest[i] == x);
                    }
                }
                if rest.contains(x) {
                    let i = choose|i: int| 0 <= i < rest.len() && rest[i] == x;
                    assert(all[i] == x);
                }
                if x == m as usize {
                    assert(all[rest.len() as int] == x);
                }
            }
        } else {
            assert(all == rest);
        }
        assert forall|x: usize| #[trigger] all.contains(x) <==> (x < n && covers(ivs[x as int], t)) by {
            assert(rest.contains(x) <==> (x < m && covers(ivs[x as int], t)));
        }
        assert forall|i: int, j: int| 0 <= i < j < all.len() implies all[i] < all[j] by {
            if i < rest.len() {
                assert(all[i] == rest[i]);
                assert(rest.contains(rest[i]));
                assert(rest[i] < m);
            }
            if j < rest.len() {
                assert(all[j] == rest[j]);
            }
        }
    }
}

/// The nodes that the sweep attributes to a timestamp `t` are exactly those whose interval
/// contains `t`: the brute-force set `{i : start_i <= t < end_i}`.
pub proof fn lemma_sweep_is_brute_force(ivs: Seq<[u64; 2]>, t: u64)
    requires
        ivs.len() <= usize::MAX + 1,
    ensures
        covering(ivs, t).to_set() == Set::new(
            |i: usize| i < ivs.len() && ivs[i as int]@[0] <= t < ivs[i as int]@[1],
        ),
{
    lemma_covering_members(ivs, t, ivs.len());
    assert(covering(ivs, t).to_set() =~= Set::new(
        |i: usize| i < ivs.len() && ivs[i as int]@[0] <= t < ivs[i as int]@[1],
    ));
}

/// First position of `keys` whose key is not below `x`.
fn lower_bound(keys: &Vec<u64>, x: u64) -> (r: usize)
    requires
        strictly_increasing(keys@),
    ensures
        r <= keys@.len(),
        forall|j: int| 0 <= j < r ==> keys@[j] < x,
        forall|j: int| r <= j < keys@.len() ==> keys@[j] >= x,
{
    let mut lo: usize = 0;
    let mut hi: usize = keys.len();
    while lo < hi
        invariant
            lo <= hi <= keys@.len(),
            strictly_increasing(keys@),
            forall|j: int| 0 <= j < lo ==> keys@[j] < x,
            forall|j: int| hi <= j < keys@.len() ==> keys@[j] >= x,
        decreases hi - lo,
    {
        let mid = lo + (hi - lo) / 2;
        if keys[mid] < x {
            lo = mid + 1;
        } else {
            hi = mid;
        }
    }
    lo
}

/// The distinct starts of `intervals` in increasing order, and for each the indices of the
/// intervals that contain it. Each interval adds its index to the keys of one contiguous range,
/// found by binary search.
pub fn sweep(intervals: &Vec<[u64; 2]>) -> (r: (Vec<u64>, Vec<Vec<usize>>))
    ensures
        r.0@ == start_keys(intervals@),
        r.1@.len() == r.0@.len(),
        forall|k: int| 0 <= k < r.1@.len() ==> (#[trigger] r.1@[k])@ == covering(intervals@, r.0@[k]),
{
    let ghost ivs = intervals@;
    let n = intervals.len();
    let mut keys: Vec<u64> = Vec::new();
    let mut i: usize = 0;
    while i < n
        invariant
            n == ivs.len(),
            ivs == intervals@,
            i <= n,
            strictly_increasing(keys@),
            forall|x: u64| keys@.contains(x) <==> exists|j: int| 0 <= j < i && (#[trigger] ivs[j])@[0] == x,
        decreases n - i,
    {
        let s = intervals[i][0];
        let pos = lower_bound(&keys, s);
        let ghost old_keys = keys@;
        if pos < keys.len() && keys[pos] == s {
            assert forall|x: u64| keys@.contains(x) <==> exists|j: int| 0 <= j < i + 1 && (#[trigger] ivs[j])@[0] == x by {
                if x == s {
                    assert(keys@[pos as int] == x);
                    assert(ivs[i as int]@[0] == x);
                }
                if exists|j: int| 0 <= j < i + 1 && (#[trigger] ivs[j])@[0] == x {
                    let j = choose|j: int| 0 <= j < i + 1 && (#[trigger] ivs[j])@[0] == x;
                    if j < i {
                        assert(exists|j: int| 0 <= j < i && (#[trigger] ivs[j])@[0] == x);
                    }
                }
            }
        } else {
            keys.insert(pos, s);
            assert(keys@ == old_keys.insert(pos as int, s));
            assert forall|a: int, b: int| 0 <= a < b < keys@.len() implies keys@[a] < keys@[b] by {
                if pos < old_keys.len() {
                    assert(old_keys[pos as int] > s);
                }
            }
            assert forall|x: u64| keys@.contains(x) <==> exists|j: int| 0 <= j < i + 1 && (#[trigger] ivs[j])@[0] == x by {
                if x == s {
                    assert(keys@[pos as int] == x);
                    assert(ivs[i as int]@[0] == x);
                } else {
                    if keys@.contains(x) {
                        let a = choose|a: int| 0 <= a < keys@.len() && keys@[a] == x;
                        if a < pos {
                            assert(old_keys[a] == x);
                        } else {
                            assert(old_keys[a - 1] == x);
                        }
                    }
                    if old_keys.contains(x) {
                        let a = choose|a: int| 0 <= a < old_keys.len() && old_keys[a] == x;
                        if a < pos {
                            assert(keys@[a] == x);
                        } else {
                            assert(keys@[a + 1] == x);
                        }
                    }
                    if exists|j: int| 0 <= j < i + 1 && (#[trigger] ivs[j])@[0] == x {
                        let j = choose|j: int| 0 <= j < i + 1 && (#[trigger] ivs[j])@[0] == x;
                        assert(exists|j: int| 0 <= j < i && (#[trigger] ivs[j])@[0] == x);
                    }
                }
            }
        }
        i += 1;
    }
    proof {
        assert(is_start_keys(ivs, keys@));
        lemma_increasing_unique(keys@, start_keys(ivs));
    }

    let m = keys.len();
    let mut buckets: Vec<Vec<usize>> = Vec::new();
    let mut k: usize = 0;
    while k < m
        invariant
            m == keys@.len(),
            k <= m,
            buckets@.len() == k,
            forall|j: int| 0 <= j < k ==> (#[trigger] buckets@[j])@ == Seq::<usize>::empty(),
        decreases m - k,
    {
        buckets.push(Vec::new());
        k += 1;
    }

    let mut i: usize = 0;
    while i < n
        invariant
            n == ivs.len(),
            ivs == intervals@,
            i <= n,
            m == keys@.len(),
            strictly_increasing(keys@),
            buckets@.len() == m,
            forall|j: int| 0 <= j < m ==> (#[trigger] buckets@[j])@ == covering_upto(ivs, keys@[j], i as nat),
        decreases n - i,
    {
        let start = intervals[i][0];
        let end = intervals[i][1];
        let lo = lower_bound(&keys, start);
        let mut k = lo;
        while k < m && keys[k] < end
            invariant
                n == ivs.len(),
                ivs == intervals@,
                i < n,
                start == ivs[i as int]@[0],
                end == ivs[i as int]@[1],
                m == keys@.len(),
                strictly_increasing(keys@),
                forall|j: int| 0 <= j < lo ==> keys@[j] < start,
                forall|j: int| lo <= j < m ==> keys@[j] >= start,
                lo <= k <= m,
                buckets@.len() == m,
                forall|j: int| lo <= j < k ==> keys@[j] < end,
                forall|j: int|
                    0 <= j < m ==> (#[trigger] buckets@[j])@ == if lo <= j < k {
                        covering_upto(ivs, keys@[j], (i + 1) as nat)
                    } else {
                        covering_upto(ivs, keys@[j], i as nat)
                    },
            decreases m - k,
        {
            buckets[k].push(i);
            k += 1;
        }
        assert forall|j: int| 0 <= j < m implies (#[trigger] buckets@[j])@ == covering_upto(
            ivs,
            keys@[j],
            (i + 1) as nat,
        ) by {
            if k < m && j >= k {
                assert(keys@[j] >= keys@[k as int]);
            }
        }
        i += 1;
    }
    (keys, buckets)
}

} // verus!
