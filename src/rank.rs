//! Top-k ranking of scored records. A score is carried as an order key: an
//! unsigned integer whose order is the order of the score it stands for.
use vstd::prelude::*;

verus! {

/// Why scoring or ranking failed.
#[derive(Debug, Clone, Copy, PartialEq, Eq, Structural)]
pub enum RagError {
    /// Two vectors that were compared have different lengths.
    DimensionMismatch,
    /// A vector that was compared is entirely zero.
    ZeroMagnitude,
    /// Fewer records were given than the number of results asked for.
    InsufficientData,
}

/// Checks that two vectors to be compared have the same number of
/// components.
pub fn check_dimensions(len_a: usize, len_b: usize) -> (r: Result<(), RagError>)
    ensures
        r == if len_a == len_b {
            Ok::<(), RagError>(())
        } else {
            Err(RagError::DimensionMismatch)
        },
{
    if len_a == len_b {
        Ok(())
    } else {
        Err(RagError::DimensionMismatch)
    }
}

/// The order key of a 32-bit IEEE-754 value given by its bit pattern: the
/// sign bit is set on non-negative values and all bits are flipped on
/// negative ones, so that unsigned order of keys is the total order of the
/// values (negative values below `-0.0` below `+0.0` below positive values).
pub open spec fn order_key(bits: u32) -> u32 {
    if bits >= 0x8000_0000 {
        (0xffff_ffffu32 - bits) as u32
    } else {
        (bits + 0x8000_0000u32) as u32
    }
}

/// Computes the order key of a 32-bit score from its bit pattern.
pub fn score_key(bits: u32) -> (key: u32)
    ensures
        key == order_key(bits),
{
    if bits >= 0x8000_0000 {
        0xffff_ffffu32 - bits
    } else {
        bits + 0x8000_0000u32
    }
}

/// The first index at or after `i` in `order` whose record has a key below
/// `key` (the length of `order` if there is none).
pub open spec fn first_below(order: Seq<usize>, keys: Seq<u32>, key: u32, i: int) -> int
    decreases order.len() - i,
{
    if 0 <= i < order.len() && keys[order[i] as int] >= key {
        first_below(order, keys, key, i + 1)
    } else {
        i
    }
}

/// The indices `0 .. n` of `keys`, ordered by descending key, records with
/// equal keys kept in index order: each index in turn is placed after every
/// earlier index whose key is at least as large.
pub open spec fn ranked_prefix(keys: Seq<u32>, n: nat) -> Seq<usize>
    decreases n,
{
    if n == 0 {
        seq![]
    } else {
        let i = (n - 1) as nat;
        let prev = ranked_prefix(keys, i);
        prev.insert(first_below(prev, keys, keys[i as int], 0), i as usize)
    }
}

/// All indices of `keys`, by descending key, ties in index order.
pub open spec fn ranking(keys: Seq<u32>) -> Seq<usize> {
    ranked_prefix(keys, keys.len())
}

/// The first failure among the scores from index `i` on, if any.
pub open spec fn failure_from(scores: Seq<Result<u32, RagError>>, i: int) -> Option<RagError>
    decreases scores.len() - i,
{
    if 0 <= i < scores.len() {
        match scores[i] {
            Ok(_) => failure_from(scores, i + 1),
            Err(e) => Some(e),
        }
    } else {
        None
    }
}

/// The first failure among the scores, if any.
pub open spec fn first_failure(scores: Seq<Result<u32, RagError>>) -> Option<RagError> {
    failure_from(scores, 0)
}

/// The keys of a sequence of scores (a failed score counts as key 0).
pub open spec fn score_keys(scores: Seq<Result<u32, RagError>>) -> Seq<u32> {
    scores.map_values(
        |s: Result<u32, RagError>|
            match s {
                Ok(k) => k,
                Err(_) => 0u32,
            },
    )
}

proof fn lemma_first_below(order: Seq<usize>, keys: Seq<u32>, key: u32, i: int)
    requires
        0 <= i <= order.len(),
        forall|j: int| 0 <= j < i ==> keys[#[trigger] order[j] as int] >= key,
    ensures
        i <= first_below(order, keys, key, i) <= order.len(),
        forall|j: int|
            0 <= j < first_below(order, keys, key, i) ==> keys[#[trigger] order[j] as int] >= key,
        first_below(order, keys, key, i) < order.len() ==> keys[order[first_below(
            order,
            keys,
            key,
            i,
        )] as int] < key,
    decreases order.len() - i,
{
    if i < order.len() && keys[order[i] as int] >= key {
        lemma_first_below(order, keys, key, i + 1);
    }
}

/// The ranking lists every record index exactly once.
pub proof fn lemma_ranking_permutation(keys: Seq<u32>)
    requires
        keys.len() <= usize::MAX,
    ensures
        ranking(keys).len() == keys.len(),
        ranking(keys).no_duplicates(),
        forall|j: int| 0 <= j < keys.len() ==> #[trigger] ranking(keys)[j] < keys.len(),
{
    lemma_ranked_prefix_permutation(keys, keys.len());
}

proof fn lemma_ranked_prefix_permutation(keys: Seq<u32>, n: nat)
    requires
        n <= usize::MAX,
    ensures
        ranked_prefix(keys, n).len() == n,
        ranked_prefix(keys, n).no_duplicates(),
        forall|j: int| 0 <= j < n ==> #[trigger] ranked_prefix(keys, n)[j] < n,
    decreases n,
{
    if n > 0 {
        let i = (n - 1) as nat;
        let prev = ranked_prefix(keys, i);
        lemma_ranked_prefix_permutation(keys, i);
        let key = keys[i as int];
        lemma_first_below(prev, keys, key, 0);
        let p = first_below(prev, keys, key, 0);
        let cur = ranked_prefix(keys, n);
        assert(cur == prev.insert(p, i as usize));
        prev.insert_ensures(p, i as usize);
        assert forall|j: int| 0 <= j < n implies #[trigger] cur[j] < n && (j != p ==> cur[j] < i) by {
            if j > p {
                assert(cur[j] == prev[j - 1]);
            }
        }
        assert forall|a: int, b: int| 0 <= a < n && 0 <= b < n && a != b implies cur[a] != cur[b] by {
            if a > p {
                assert(cur[a] == prev[a - 1]);
            }
            if b > p {
                assert(cur[b] == prev[b - 1]);
            }
        }
    }
}

/// Whether the records listed in `order` come by non-increasing key.
pub open spec fn keys_descending(order: Seq<usize>, keys: Seq<u32>) -> bool {
    forall|a: int, b: int|
        0 <= a < b < order.len() ==> keys[#[trigger] order[a] as int] >= keys[#[trigger] order[b] as int]
}

/// Whether records with equal keys come in `order` by increasing index.
pub open spec fn ties_by_index(order: Seq<usize>, keys: Seq<u32>) -> bool {
    forall|a: int, b: int|
        0 <= a < b < order.len() && keys[#[trigger] order[a] as int] == keys[#[trigger] order[b] as int]
            ==> order[a] < order[b]
}

/// The ranking lists records by non-increasing key, and records with equal
/// keys by increasing index.
pub proof fn lemma_ranking_descending(keys: Seq<u32>)
    requires
        keys.len() <= usize::MAX,
    ensures
        keys_descending(ranking(keys), keys),
        ties_by_index(ranking(keys), keys),
{
    lemma_ranked_prefix_descending(keys, keys.len());
}

proof fn lemma_ranked_prefix_descending(keys: Seq<u32>, n: nat)
    requires
        n <= usize::MAX,
    ensures
        keys_descending(ranked_prefix(keys, n), keys),
        ties_by_index(ranked_prefix(keys, n), keys),
    decreases n,
{
    lemma_ranked_prefix_permutation(keys, n);
    if n > 0 {
        let i = (n - 1) as nat;
        let prev = ranked_prefix(keys, i);
        lemma_ranked_prefix_descending(keys, i);
        let key = keys[i as int];
        lemma_first_below(prev, keys, key, 0);
        let p = first_below(prev, keys, key, 0);
        let cur = ranked_prefix(keys, n);
        assert(cur == prev.insert(p, i as usize));
        prev.insert_ensures(p, i as usize);
        assert forall|j: int| p <= j < prev.len() implies keys[#[trigger] prev[j] as int] < key by {
            if j > p {
                assert(keys[prev[p] as int] >= keys[prev[j] as int]);
            }
        }
        lemma_ranked_prefix_permutation(keys, i);
        assert forall|a: int, b: int| 0 <= a < b < cur.len() implies keys[#[trigger] cur[a] as int]
            >= keys[#[trigger] cur[b] as int] && (keys[cur[a] as int] == keys[cur[b] as int]
            ==> cur[a] < cur[b]) by {
            if a > p {
                assert(cur[a] == prev[a - 1]);
            }
            if b > p {
                assert(cur[b] == prev[b - 1]);
            }
        }
    }
}

/// Orders all record indices by descending key; records with equal keys keep
/// their original relative order.
pub fn rank_indices(keys: &Vec<u32>) -> (order: Vec<usize>)
    ensures
        order@ == ranking(keys@),
{
    let mut order: Vec<usize> = Vec::new();
    let mut n: usize = 0;
    while n < keys.len()
        invariant
            n <= keys.len(),
            order@ == ranked_prefix(keys@, n as nat),
            forall|j: int| 0 <= j < order.len() ==> order@[j] < n,
        decreases keys.len() - n,
    {
        let key = keys[n];
        let mut p: usize = 0;
        while p < order.len() && keys[order[p]] >= key
            invariant
                n < keys.len(),
                p <= order.len(),
                forall|j: int| 0 <= j < order.len() ==> order@[j] < n,
                first_below(order@, keys@, key, p as int) == first_below(order@, keys@, key, 0),
            decreases order.len() - p,
        {
            p = p + 1;
        }
        let ghost prev = order@;
        proof {
            assert(first_below(prev, keys@, key, p as int) == p);
            assert(ranked_prefix(keys@, (n + 1) as nat) == prev.insert(p as int, n));
        }
        order.insert(p, n);
        proof {
            prev.insert_ensures(p as int, n);
            assert forall|j: int| 0 <= j < order.len() implies order@[j] < n + 1 by {
                if j > p {
                    assert(order@[j] == prev[j - 1]);
                }
            }
        }
        n = n + 1;
    }
    order
}

/// Ranks records by their scores and keeps the best `k`: the result lists
/// record indices by descending key, records with equal keys in their
/// original order. Fails with the first failed score, if any; otherwise with
/// `InsufficientData` when fewer than `k` records are given.
pub fn rank_top_k(scores: &Vec<Result<u32, RagError>>, k: usize) -> (r: Result<
    Vec<usize>,
    RagError,
>)
    ensures
        match first_failure(scores@) {
            Some(e) => r == Err::<Vec<usize>, RagError>(e),
            None => if k > scores@.len() {
                r == Err::<Vec<usize>, RagError>(RagError::InsufficientData)
            } else {
                &&& r is Ok
                &&& r->Ok_0@ == ranking(score_keys(scores@)).take(k as int)
                &&& r->Ok_0@.len() == k
                &&& keys_descending(r->Ok_0@, score_keys(scores@))
                &&& ties_by_index(r->Ok_0@, score_keys(scores@))
            },
        },
{
    let mut keys: Vec<u32> = Vec::new();
    let mut i: usize = 0;
    while i < scores.len()
        invariant
            i <= scores.len(),
            keys@ == score_keys(scores@).take(i as int),
            first_failure(scores@) == failure_from(scores@, i as int),
        decreases scores.len() - i,
    {
        match scores[i] {
            Ok(key) => {
                keys.push(key);
                proof {
                    assert(keys@ =~= score_keys(scores@).take(i + 1));
                }
            },
            Err(e) => {
                return Err(e);
            },
        }
        i = i + 1;
    }
    if k > scores.len() {
        return Err(RagError::InsufficientData);
    }
    proof {
        assert(keys@ =~= score_keys(scores@));
    }
    let mut order = rank_indices(&keys);
    proof {
        lemma_ranking_permutation(keys@);
        lemma_ranking_descending(keys@);
    }
    order.truncate(k);
    proof {
        assert(order@ =~= ranking(score_keys(scores@)).take(k as int));
    }
    Ok(order)
}

} // verus!
