//! Selecting elements of a sequence by ascending positions.
use vstd::prelude::*;

verus! {

/// `idx` lists positions of a sequence of length `n`, each once, in
/// ascending order: picking them yields a subsequence by position.
pub open spec fn is_position_subsequence(idx: Seq<usize>, n: nat) -> bool {
    &&& forall|i: int, j: int| 0 <= i < j < idx.len() ==> idx[i] < idx[j]
    &&& forall|i: int| 0 <= i < idx.len() ==> idx[i] < n
}

/// The positions `0, 1, ..., n - 1`.
pub open spec fn identity_indices(n: nat) -> Seq<usize> {
    Seq::new(n, |i: int| i as usize)
}

/// The elements of `v` at the positions `idx`, in the order of `idx`.
pub open spec fn picked<T>(v: Seq<T>, idx: Seq<usize>) -> Seq<T> {
    idx.map_values(|k: usize| v[k as int])
}

/// Copies out the elements of `v` at the positions listed in `idx`.
pub fn select<T: Copy>(v: &Vec<T>, idx: &Vec<usize>) -> (r: Vec<T>)
    requires
        forall|i: int| 0 <= i < idx@.len() ==> idx@[i] < v@.len(),
    ensures
        r@ == picked(v@, idx@),
{
    let mut r: Vec<T> = Vec::with_capacity(idx.len());
    let mut i: usize = 0;
    while i < idx.len()
        invariant
            i <= idx@.len(),
            forall|j: int| 0 <= j < idx@.len() ==> idx@[j] < v@.len(),
            r@ == picked(v@, idx@.take(i as int)),
        decreases idx@.len() - i,
    {
        let k = idx[i];
        r.push(v[k]);
        proof {
            assert(idx@.take(i as int + 1) == idx@.take(i as int).push(k));
        }
        i = i + 1;
    }
    proof {
        assert(idx@.take(i as int) == idx@);
    }
    r
}

/// Ascending positions below `n` number at most `n`: a subsequence by
/// position is never longer than the sequence it is taken from.
pub proof fn lemma_subsequence_not_longer(idx: Seq<usize>, n: nat)
    requires
        is_position_subsequence(idx, n),
    ensures
        idx.len() <= n,
{
    lemma_position_at_least_rank(idx, n);
    if idx.len() > 0 {
        assert(idx[idx.len() - 1] >= idx.len() - 1);
    }
}

/// The `j`-th of ascending positions is at least `j`.
proof fn lemma_position_at_least_rank(idx: Seq<usize>, n: nat)
    requires
        is_position_subsequence(idx, n),
    ensures
        forall|j: int| 0 <= j < idx.len() ==> idx[j] >= j,
    decreases idx.len(),
{
    if idx.len() > 0 {
        let p = idx.drop_last();
        lemma_position_at_least_rank(p, n);
        assert forall|j: int| 0 <= j < idx.len() implies idx[j] >= j by {
            if j + 1 < idx.len() {
                assert(idx[j] == p[j]);
            } else if j > 0 {
                assert(idx[j - 1] == p[j - 1]);
                assert(idx[j - 1] < idx[j]);
            }
        }
    }
}

/// Picking every position, in order, gives back the sequence itself.
pub proof fn lemma_identity_pick<T>(v: Seq<T>)
    requires
        v.len() <= usize::MAX,
    ensures
        picked(v, identity_indices(v.len())) == v,
{
    let p = picked(v, identity_indices(v.len()));
    assert forall|i: int| 0 <= i < v.len() implies p[i] == v[i] by {
        assert(identity_indices(v.len())[i] as int == i);
    }
    assert(p =~= v);
}

/// What is picked at ascending positions keeps the order of `v`: its `i`-th
/// element is `v`'s at `idx[i]`, and positions rise with `i`.
pub proof fn lemma_picked_order<T>(v: Seq<T>, idx: Seq<usize>)
    requires
        is_position_subsequence(idx, v.len()),
    ensures
        picked(v, idx).len() == idx.len(),
        picked(v, idx).len() <= v.len(),
        forall|i: int| 0 <= i < idx.len() ==> #[trigger] picked(v, idx)[i] == v[idx[i] as int],
{
    lemma_subsequence_not_longer(idx, v.len());
}

} // verus!
