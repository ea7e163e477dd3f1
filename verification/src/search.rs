//! Ranking search hits by score, best first.
//!
//! Scores are `f32`; they reach this module as their bit patterns
//! (`f32::to_bits`), which `total_key` orders as `f32::total_cmp` does.
use vstd::prelude::*;

verus! {

/// The position of the float with bit pattern `bits` in the order of
/// `f32::total_cmp`: non-negative values (sign bit clear) ascend with their
/// bits, negative ones descend with theirs, all below the non-negative ones.
pub open spec fn total_key(bits: u32) -> int {
    if bits < 0x8000_0000 {
        bits as int
    } else {
        0x7fff_ffff - bits as int
    }
}

/// Hit `i` comes before hit `j`: a higher score, or the same score and an
/// earlier position (the sort is stable).
pub open spec fn ranks_before(keys: Seq<u32>, i: int, j: int) -> bool {
    total_key(keys[i]) > total_key(keys[j]) || (total_key(keys[i]) == total_key(keys[j]) && i < j)
}

pub open spec fn min_nat(a: nat, b: nat) -> nat {
    if a <= b {
        a
    } else {
        b
    }
}

/// `r` lists the best `limit` hits (all of them if there are fewer), best
/// first: what a stable sort by descending score, cut to `limit`, keeps.
pub open spec fn is_ranking(keys: Seq<u32>, limit: nat, r: Seq<usize>) -> bool {
    &&& r.len() == min_nat(limit, keys.len())
    &&& forall|k: int| 0 <= k < r.len() ==> (#[trigger] r[k]) < keys.len()
    &&& forall|a: int, b: int|
        0 <= a < b < r.len() ==> ranks_before(keys, #[trigger] r[a] as int, #[trigger] r[b] as int)
    &&& forall|j: usize, k: int|
        #![trigger r.contains(j), r[k]]
        j < keys.len() && !r.contains(j) && 0 <= k < r.len() ==> ranks_before(
            keys,
            r[k] as int,
            j as int,
        )
}

/// The key of the score with bit pattern `bits`.
pub fn score_key(bits: u32) -> (r: i64)
    ensures
        r == total_key(bits),
{
    if bits < 0x8000_0000 {
        bits as i64
    } else {
        0x7fff_ffffi64 - bits as i64
    }
}

proof fn lemma_some_unchosen(r: Seq<usize>, n: nat)
    requires
        r.no_duplicates(),
        forall|k: int| 0 <= k < r.len() ==> (#[trigger] r[k]) < n,
        r.len() < n,
        n <= usize::MAX,
    ensures
        exists|j: usize| j < n && !#[trigger] r.contains(j),
{
    let ri = Seq::new(r.len(), |k: int| r[k] as int);
    assert(ri.no_duplicates()) by {
        assert forall|a: int, b: int| 0 <= a < ri.len() && 0 <= b < ri.len() && a != b implies ri[a]
            != ri[b] by {
            assert(r[a] != r[b]);
        }
    }
    ri.unique_seq_to_set();
    vstd::set_lib::lemma_int_range(0, n as int);
    let range = vstd::set_lib::set_int_range(0, n as int);
    assert(ri.to_set().subset_of(range)) by {
        assert forall|x: int| ri.to_set().contains(x) implies range.contains(x) by {
            let k = choose|k: int| 0 <= k < ri.len() && ri[k] == x;
        }
    }
    if forall|j: usize| j < n ==> #[trigger] r.contains(j) {
        assert(range.subset_of(ri.to_set())) by {
            assert forall|x: int| range.contains(x) implies ri.to_set().contains(x) by {
                assert(r.contains(x as usize));
                let k = choose|k: int| 0 <= k < r.len() && r[k] == x as usize;
                assert(ri[k] == x);
            }
        }
        vstd::set_lib::lemma_len_subset(range, ri.to_set());
    }
}

/// The positions of the best `limit` hits, best first, given the bit
/// patterns of their scores.
pub fn rank_hits(score_bits: &Vec<u32>, limit: usize) -> (r: Vec<usize>)
    ensures
        is_ranking(score_bits@, limit as nat, r@),
{
    let n = score_bits.len();
    let want = if limit <= n {
        limit
    } else {
        n
    };
    let ghost keys = score_bits@;
    let mut chosen: Vec<bool> = Vec::new();
    for j in 0..n
        invariant
            chosen@.len() == j,
            forall|m: int| 0 <= m < j ==> !chosen@[m],
    {
        chosen.push(false);
    }
    let mut r: Vec<usize> = Vec::new();
    while r.len() < want
        invariant
            keys == score_bits@,
            n == keys.len(),
            want == min_nat(limit as nat, n as nat),
            r@.len() <= want,
            chosen@.len() == n,
            forall|m: int| 0 <= m < n ==> (chosen@[m] <==> r@.contains(m as usize)),
            r@.no_duplicates(),
            forall|k: int| 0 <= k < r@.len() ==> (#[trigger] r@[k]) < n,
            forall|a: int, b: int|
                0 <= a < b < r@.len() ==> ranks_before(
                    keys,
                    #[trigger] r@[a] as int,
                    #[trigger] r@[b] as int,
                ),
            forall|j: usize, k: int|
                #![trigger r@.contains(j), r@[k]]
                j < n && !r@.contains(j) && 0 <= k < r@.len() ==> ranks_before(
                    keys,
                    r@[k] as int,
                    j as int,
                ),
        decreases want - r@.len(),
    {
        proof {
            lemma_some_unchosen(r@, n as nat);
        }
        let mut best: usize = n;
        let mut best_key: i64 = 0;
        for j in 0..n
            invariant
                keys == score_bits@,
                n == keys.len(),
                chosen@.len() == n,
                best == n ==> forall|m: int| 0 <= m < j ==> chosen@[m],
                best < n ==> best < j && !chosen@[best as int] && best_key == total_key(
                    keys[best as int],
                ),
                best < n ==> forall|m: int|
                    0 <= m < j && !chosen@[m] && m != best ==> ranks_before(keys, best as int, m),
                best <= n,
        {
            if !chosen[j] {
                let k = score_key(score_bits[j]);
                if best == n || k > best_key {
                    best = j;
                    best_key = k;
                }
            }
        }
        if best == n {
            proof {
                let j = choose|j: usize| j < n && !r@.contains(j);
                assert(chosen@[j as int]);
                assert(r@.contains((j as int) as usize));
            }
            assert(false);
        }
        proof {
            assert(!r@.contains(best));
        }
        let ghost prev = r@;
        r.push(best);
        chosen.set(best, true);
        proof {
            assert forall|m: int| 0 <= m < n implies (chosen@[m] <==> r@.contains(m as usize)) by {
                if m == best as int {
                    assert(r@[prev.len() as int] == best);
                } else {
                    if prev.contains(m as usize) {
                        let k = choose|k: int| 0 <= k < prev.len() && prev[k] == m as usize;
                        assert(r@[k] == m as usize);
                    }
                    if r@.contains(m as usize) {
                        let k = choose|k: int| 0 <= k < r@.len() && r@[k] == m as usize;
                        assert(k < prev.len());
                        assert(prev[k] == m as usize);
                    }
                }
            }
            assert forall|a: int, b: int| 0 <= a < b < r@.len() implies ranks_before(
                keys,
                #[trigger] r@[a] as int,
                #[trigger] r@[b] as int,
            ) by {
                if b == prev.len() {
                    assert(r@[a] == prev[a]);
                } else {
                    assert(r@[a] == prev[a] && r@[b] == prev[b]);
                }
            }
            assert forall|j: usize, k: int|
                #![trigger r@.contains(j), r@[k]]
                j < n && !r@.contains(j) && 0 <= k < r@.len() implies ranks_before(
                keys,
                r@[k] as int,
                j as int,
            ) by {
                assert(j != best) by {
                    assert(r@[prev.len() as int] == best);
                }
                assert(!prev.contains(j)) by {
                    if prev.contains(j) {
                        let q = choose|q: int| 0 <= q < prev.len() && prev[q] == j;
                        assert(r@[q] == j);
                    }
                }
                if k < prev.len() {
                    assert(r@[k] == prev[k]);
                    assert(prev.contains(prev[k]));
                } else {
                    assert(!chosen@[j as int]);
                }
            }
            assert(r@.no_duplicates()) by {
                assert forall|a: int, b: int| 0 <= a < r@.len() && 0 <= b < r@.len() && a != b implies r@[a]
                    != r@[b] by {
                    if a < prev.len() && b < prev.len() {
                        assert(r@[a] == prev[a] && r@[b] == prev[b]);
                    } else if a < prev.len() {
                        assert(r@[a] == prev[a]);
                        assert(prev.contains(prev[a]));
                    } else if b < prev.len() {
                        assert(r@[b] == prev[b]);
                        assert(prev.contains(prev[b]));
                    }
                }
            }
        }
    }
    r
}

/// Hit lists that both satisfy `is_ranking` for the same scores and limit
/// are the same list: the ranking is determined by the scores alone.
pub proof fn law_ranking_unique(keys: Seq<u32>, limit: nat, r1: Seq<usize>, r2: Seq<usize>)
    requires
        is_ranking(keys, limit, r1),
        is_ranking(keys, limit, r2),
    ensures
        r1 == r2,
{
    assert forall|k: int| 0 <= k < r1.len() implies r1[k] == r2[k] by {
        lemma_ranking_agree(keys, limit, r1, r2, k);
    }
    assert(r1 =~= r2);
}

proof fn lemma_ranking_agree(keys: Seq<u32>, limit: nat, r1: Seq<usize>, r2: Seq<usize>, k: int)
    requires
        is_ranking(keys, limit, r1),
        is_ranking(keys, limit, r2),
        0 <= k < r1.len(),
    ensures
        r1[k] == r2[k],
    decreases k,
{
    assert forall|m: int| 0 <= m < k implies r1[m] == r2[m] by {
        lemma_ranking_agree(keys, limit, r1, r2, m);
    }
    let x = r1[k];
    let y = r2[k];
    if x != y {
        // y ranks after x in r1, and x ranks after y in r2.
        assert(ranks_before(keys, x as int, y as int)) by {
            if r1.contains(y) {
                let a = choose|a: int| 0 <= a < r1.len() && r1[a] == y;
                if a < k {
                    assert(r2[a] == y);
                    assert(ranks_before(keys, r2[a] as int, r2[k] as int));
                } else if a > k {
                    assert(ranks_before(keys, r1[k] as int, r1[a] as int));
                }
            } else {
                assert(ranks_before(keys, r1[k] as int, y as int));
            }
        }
        assert(ranks_before(keys, y as int, x as int)) by {
            if r2.contains(x) {
                let a = choose|a: int| 0 <= a < r2.len() && r2[a] == x;
                if a < k {
                    assert(r1[a] == x);
                    assert(ranks_before(keys, r1[a] as int, r1[k] as int));
                } else if a > k {
                    assert(ranks_before(keys, r2[k] as int, r2[a] as int));
                }
            } else {
                assert(ranks_before(keys, r2[k] as int, x as int));
            }
        }
    }
}

} // verus!
