//! Permutations of node ids.

use vstd::prelude::*;

verus! {

/// `m` sends the numbers below its length to those numbers, no two to the same one.
pub open spec fn is_permutation(m: Seq<usize>) -> bool {
    &&& forall|i: int| 0 <= i < m.len() ==> #[trigger] m[i] < m.len()
    &&& forall|i: int, j: int| 0 <= i < j < m.len() ==> #[trigger] m[i] != #[trigger] m[j]
}

/// `inv` undoes `m`, and `m` undoes `inv`.
pub open spec fn is_inverse(m: Seq<usize>, inv: Seq<usize>) -> bool {
    &&& inv.len() == m.len()
    &&& forall|i: int| 0 <= i < m.len() ==> #[trigger] m[i] < m.len() && inv[m[i] as int] == i
    &&& forall|j: int| 0 <= j < m.len() ==> #[trigger] inv[j] < m.len() && m[inv[j] as int] == j
}

/// The inverse of a permutation.
pub open spec fn inverse(m: Seq<usize>) -> Seq<usize> {
    choose|inv: Seq<usize>| is_inverse(m, inv)
}

/// What keeps a sequence from being a permutation.
#[derive(Clone, Copy, Debug, PartialEq, Eq, Structural)]
pub enum PermutationError {
    /// The value at `index` is not below the length.
    OutOfRange { index: usize },
    /// The value at `index` stands at an earlier index too.
    Duplicate { index: usize },
}

/// The value at `i` is too great, or stands at an earlier index too.
pub open spec fn is_fault(m: Seq<usize>, i: int) -> bool {
    m[i] >= m.len() || exists|j: int| 0 <= j < i && #[trigger] m[j] == m[i]
}

/// `i` is the first index at which something is wrong.
pub open spec fn is_first_fault(m: Seq<usize>, i: int) -> bool {
    &&& 0 <= i < m.len()
    &&& is_fault(m, i)
    &&& forall|j: int| 0 <= j < i ==> !(#[trigger] is_fault(m, j))
}

/// The error tells what is wrong at the first index at which something is.
pub open spec fn is_complaint(m: Seq<usize>, e: PermutationError) -> bool {
    match e {
        PermutationError::OutOfRange { index } => is_first_fault(m, index as int)
            && m[index as int] >= m.len(),
        PermutationError::Duplicate { index } => is_first_fault(m, index as int)
            && m[index as int] < m.len(),
    }
}

/// A sequence is a permutation exactly if nothing is wrong at any index.
pub proof fn lemma_no_fault(m: Seq<usize>)
    requires
        forall|i: int| 0 <= i < m.len() ==> !(#[trigger] is_fault(m, i)),
    ensures
        is_permutation(m),
{
    assert forall|i: int| 0 <= i < m.len() implies #[trigger] m[i] < m.len() by {
        assert(!is_fault(m, i));
    }
    assert forall|i: int, j: int| 0 <= i < j < m.len() implies #[trigger] m[i]
        != #[trigger] m[j] by {
        assert(!is_fault(m, j));
    }
}

/// Tells whether a sequence is a permutation; if not, what is wrong at the first place where
/// something is.
pub fn validate_permutation(mapping: &[usize]) -> (r: Result<(), PermutationError>)
    ensures
        r is Ok <==> is_permutation(mapping@),
        r matches Err(e) ==> is_complaint(mapping@, e),
{
    let n: usize = mapping.len();
    let mut seen: Vec<bool> = vec![false; n];
    for i in 0..n
        invariant
            n == mapping@.len(),
            seen@.len() == n,
            forall|j: int| 0 <= j < i ==> !(#[trigger] is_fault(mapping@, j)),
            forall|v: int|
                0 <= v < n ==> (#[trigger] seen@[v] <==> exists|j: int|
                    0 <= j < i && #[trigger] mapping@[j] == v),
    {
        let v: usize = mapping[i];
        if v >= n {
            assert(is_fault(mapping@, i as int));
            return Err(PermutationError::OutOfRange { index: i });
        }
        if seen[v] {
            assert(is_fault(mapping@, i as int));
            return Err(PermutationError::Duplicate { index: i });
        }
        assert(!is_fault(mapping@, i as int));
        let ghost before = seen@;
        seen.set(v, true);
        assert forall|w: int| 0 <= w < n implies (#[trigger] seen@[w] <==> exists|j: int|
            0 <= j < i + 1 && #[trigger] mapping@[j] == w) by {
            if w == v {
                assert(mapping@[i as int] == w);
            } else if before[w] {
                let j = choose|j: int| 0 <= j < i && #[trigger] mapping@[j] == w;
                assert(mapping@[j] == w);
            }
        }
    }
    proof {
        lemma_no_fault(mapping@);
    }
    Ok(())
}

/// A permutation reaches every number below its length.
pub proof fn lemma_permutation_onto(m: Seq<usize>, v: int)
    requires
        is_permutation(m),
        0 <= v < m.len(),
    ensures
        exists|i: int| 0 <= i < m.len() && #[trigger] m[i] == v,
{
    let ids = m.map_values(|x: usize| x as int);
    assert(ids.no_duplicates()) by {
        assert forall|i: int, j: int| 0 <= i < ids.len() && 0 <= j < ids.len() && i
            != j implies ids[i] != ids[j] by {
            if i < j {
                assert(m[i] != m[j]);
            } else {
                assert(m[j] != m[i]);
            }
        }
    }
    ids.unique_seq_to_set();
    let all = vstd::set_lib::set_int_range(0, m.len() as int);
    vstd::set_lib::lemma_int_range(0, m.len() as int);
    assert(ids.to_set().subset_of(all)) by {
        assert forall|x: int| ids.to_set().contains(x) implies all.contains(x) by {
            let i = choose|i: int| 0 <= i < ids.len() && ids[i] == x;
            assert(m[i] < m.len());
        }
    }
    vstd::set_lib::lemma_subset_equality(ids.to_set(), all);
    assert(all.contains(v));
    assert(ids.to_set().contains(v));
    let i = choose|i: int| 0 <= i < ids.len() && ids[i] == v;
    assert(m[i] == v);
}

/// The inverse of a permutation.
pub fn invert_mapping(mapping: &[usize]) -> (inv: Vec<usize>)
    requires
        is_permutation(mapping@),
    ensures
        inv@ == inverse(mapping@),
        is_inverse(mapping@, inv@),
{
    let n: usize = mapping.len();
    let mut inv: Vec<usize> = vec![0usize; n];
    for i in 0..n
        invariant
            n == mapping@.len(),
            is_permutation(mapping@),
            inv@.len() == n,
            forall|j: int| 0 <= j < i ==> inv@[#[trigger] mapping@[j] as int] == j,
    {
        let v: usize = mapping[i];
        assert(mapping@[i as int] < n);
        inv.set(v, i);
    }
    proof {
        assert forall|j: int| 0 <= j < n implies #[trigger] inv@[j] < n && mapping@[inv@[j] as int]
            == j by {
            lemma_permutation_onto(mapping@, j);
            let i = choose|i: int| 0 <= i < n && #[trigger] mapping@[i] == j;
            assert(inv@[mapping@[i] as int] == i);
        }
        assert(is_inverse(mapping@, inv@));
        law_inverse_is_unique(mapping@, inv@, inverse(mapping@));
    }
    inv
}

/// Every permutation has an inverse.
pub proof fn law_inverse_exists(m: Seq<usize>)
    requires
        is_permutation(m),
        m.len() <= usize::MAX,
    ensures
        is_inverse(m, inverse(m)),
{
    let inv = Seq::new(
        m.len(),
        |v: int| (choose|i: int| 0 <= i < m.len() && #[trigger] m[i] == v) as usize,
    );
    assert forall|v: int| 0 <= v < m.len() implies #[trigger] inv[v] < m.len() && m[inv[v] as int]
        == v by {
        lemma_permutation_onto(m, v);
    }
    assert forall|i: int| 0 <= i < m.len() implies #[trigger] m[i] < m.len() && inv[m[i] as int]
        == i by {
        let j = inv[m[i] as int] as int;
        assert(m[j] == m[i]);
        if j < i {
            assert(m[j] != m[i]);
        } else if i < j {
            assert(m[i] != m[j]);
        }
    }
    assert(is_inverse(m, inv));
}

/// The inverse of a permutation is a permutation, and the permutation is its inverse.
pub proof fn law_inverse_is_mutual(m: Seq<usize>, inv: Seq<usize>)
    requires
        is_inverse(m, inv),
    ensures
        is_permutation(m),
        is_permutation(inv),
        is_inverse(inv, m),
{
    assert forall|i: int, j: int| 0 <= i < j < m.len() implies #[trigger] m[i]
        != #[trigger] m[j] by {
        assert(inv[m[i] as int] == i && inv[m[j] as int] == j);
    }
    assert forall|i: int, j: int| 0 <= i < j < inv.len() implies #[trigger] inv[i]
        != #[trigger] inv[j] by {
        assert(m[inv[i] as int] == i && m[inv[j] as int] == j);
    }
}

/// A permutation has one inverse.
pub proof fn law_inverse_is_unique(m: Seq<usize>, a: Seq<usize>, b: Seq<usize>)
    requires
        is_inverse(m, a),
        is_inverse(m, b),
    ensures
        a == b,
{
    assert forall|j: int| 0 <= j < m.len() implies a[j] == b[j] by {
        assert(m[a[j] as int] == j);
        assert(b[m[a[j] as int] as int] == a[j]);
    }
    assert(a =~= b);
}

} // verus!
