//! Datasets of vectors, and how they are brought into the order of a permutation.

use crate::hnsw_utils;
use vstd::prelude::*;

verus! {

/// Vectors of one dimension, one after the other.
pub struct DenseDataset<T> {
    values: Vec<T>,
    n: usize,
    dim: usize,
}

/// The vectors of values laid out one after the other.
pub open spec fn rows_of<T>(values: Seq<T>, n: nat, dim: nat) -> Seq<Seq<T>> {
    Seq::new(n, |i: int| values.subrange(i * dim, i * dim + dim))
}

impl<T> View for DenseDataset<T> {
    type V = Seq<Seq<T>>;

    closed spec fn view(&self) -> Seq<Seq<T>> {
        rows_of(self.values@, self.n as nat, self.dim as nat)
    }
}

impl<T> DenseDataset<T> {
    pub closed spec fn wf(&self) -> bool {
        self.values@.len() == self.n * self.dim
    }

    /// The number of values in each vector.
    pub closed spec fn dimension(&self) -> nat {
        self.dim as nat
    }

    /// The values of all vectors.
    pub closed spec fn all_values(&self) -> Seq<T> {
        self.values@
    }

    /// `n` vectors of dimension `dim`.
    pub fn from_raw(values: Vec<T>, n: usize, dim: usize) -> (dataset: Self)
        requires
            values@.len() == n * dim,
        ensures
            dataset.wf(),
            dataset.dimension() == dim,
            dataset.all_values() == values@,
            dataset@ == rows_of(values@, n as nat, dim as nat),
    {
        DenseDataset { values, n, dim }
    }

    /// The number of vectors.
    pub fn len(&self) -> (n: usize)
        ensures
            n == self@.len(),
    {
        self.n
    }

    /// The number of values in each vector.
    pub fn output_dim(&self) -> (dim: usize)
        ensures
            dim == self.dimension(),
    {
        self.dim
    }

    /// The values of all vectors, one vector after the other.
    pub fn values(&self) -> (values: &Vec<T>)
        ensures
            values@ == self.all_values(),
            self.wf() ==> self@ == rows_of(values@, self@.len(), self.dimension()),
    {
        &self.values
    }
}

/// What stood at `old` in `before` stands at `permutation[old]` in `after`.
pub open spec fn is_permuted<T>(before: Seq<T>, after: Seq<T>, permutation: Seq<usize>) -> bool {
    forall|old_id: int|
        0 <= old_id < before.len() ==> after[#[trigger] permutation[old_id] as int]
            == before[old_id]
}

/// `old` is the last index that a mapping sends to `new`.
pub open spec fn is_last_source(mapping: Seq<usize>, old_id: int, new_id: int) -> bool {
    &&& 0 <= old_id < mapping.len()
    &&& mapping[old_id] == new_id
    &&& forall|later: int| old_id < later < mapping.len() ==> #[trigger] mapping[later] != new_id
}

/// A mapping sends no index to `new`.
pub open spec fn is_unsourced(mapping: Seq<usize>, new_id: int) -> bool {
    forall|old_id: int| 0 <= old_id < mapping.len() ==> #[trigger] mapping[old_id] != new_id
}

/// All items of a sequence are the same.
pub open spec fn is_uniform<T>(items: Seq<T>, fill: T) -> bool {
    forall|j: int| 0 <= j < items.len() ==> #[trigger] items[j] == fill
}

proof fn lemma_block(dim: int, n: int, i: int)
    requires
        0 <= i < n,
        0 <= dim,
    ensures
        0 <= i * dim <= i * dim + dim <= n * dim,
{
    assert(0 <= i * dim && i * dim + dim <= n * dim) by (nonlinear_arith)
        requires
            0 <= i < n,
            0 <= dim,
    ;
}

proof fn lemma_blocks_apart(dim: int, i: int, j: int)
    requires
        i != j,
        0 <= dim,
    ensures
        i * dim + dim <= j * dim || j * dim + dim <= i * dim,
{
    assert(i < j ==> i * dim + dim <= j * dim) by (nonlinear_arith)
        requires
            0 <= dim,
    ;
    assert(j < i ==> j * dim + dim <= i * dim) by (nonlinear_arith)
        requires
            0 <= dim,
    ;
}

/// The dataset in which vector `old` of `dataset` has become vector `permutation[old]`.
///
/// Where `permutation` sends two vectors to the same place, the later one is there. A place that no
/// vector is sent to has default values.
pub fn permute_dense_dataset<T: Copy + Default>(
    dataset: &DenseDataset<T>,
    permutation: &[usize],
) -> (permuted: DenseDataset<T>)
    requires
        dataset.wf(),
        permutation@.len() == dataset@.len(),
        forall|i: int| 0 <= i < permutation@.len() ==> #[trigger] permutation@[i] < dataset@.len(),
    ensures
        permuted.wf(),
        permuted@.len() == dataset@.len(),
        permuted.dimension() == dataset.dimension(),
        forall|old_id: int, new_id: int| #[trigger]
            is_last_source(permutation@, old_id, new_id) ==> permuted@[new_id] == dataset@[old_id],
        hnsw_utils::is_permutation(permutation@) ==> is_permuted(
            dataset@,
            permuted@,
            permutation@,
        ),
        exists|fill: T|
            call_ensures(T::default, (), fill) && forall|new_id: int|
                0 <= new_id < permuted@.len() && is_unsourced(permutation@, new_id) ==> is_uniform(
                    #[trigger] permuted@[new_id],
                    fill,
                ),
{
    let n: usize = dataset.n;
    let dim: usize = dataset.dim;
    let ghost count = n as nat;
    let ghost width = dim as nat;
    let fill: T = T::default();
    let mut values: Vec<T> = Vec::new();
    let total: usize = dataset.values.len();
    for i in 0..total
        invariant
            values@.len() == i,
            forall|j: int| 0 <= j < i ==> #[trigger] values@[j] == fill,
    {
        values.push(fill);
    }
    proof {
        assert forall|new_id: int| 0 <= new_id < n implies is_uniform(
            #[trigger] rows_of(values@, count, width)[new_id],
            fill,
        ) by {
            lemma_block(dim as int, n as int, new_id);
        }
    }
    let mut old_id: usize = 0;
    while old_id < permutation.len()
        invariant
            old_id <= permutation@.len(),
            dataset.wf(),
            n == dataset.n,
            dim == dataset.dim,
            count == n,
            width == dim,
            permutation@.len() == n,
            forall|i: int| 0 <= i < permutation@.len() ==> #[trigger] permutation@[i] < n,
            values@.len() == n * dim,
            forall|o: int, new_id: int| #[trigger]
                is_last_source(permutation@.take(old_id as int), o, new_id) ==> rows_of(
                    values@,
                    count,
                    width,
                )[new_id] == dataset@[o],
            forall|new_id: int|
                0 <= new_id < n && is_unsourced(permutation@.take(old_id as int), new_id)
                    ==> is_uniform(
                    #[trigger] rows_of(values@, count, width)[new_id],
                    fill,
                ),
        decreases permutation@.len() - old_id,
    {
        let new_id: usize = permutation[old_id];
        assert(permutation@[old_id as int] < n);
        let ghost values0 = values@;
        proof {
            lemma_block(dim as int, n as int, old_id as int);
            lemma_block(dim as int, n as int, new_id as int);
            assert(dataset.values@.len() == dataset.values.len());
            assert(values@.len() == values.len());
        }
        let old_start: usize = old_id * dim;
        let new_start: usize = new_id * dim;
        for j in 0..dim
            invariant
                old_start + dim <= dataset.values@.len(),
                new_start + dim <= values@.len(),
                values@.len() == values0.len(),
                forall|x: int|
                    0 <= x < values@.len() ==> #[trigger] values@[x] == if new_start <= x < new_start
                        + j {
                        dataset.values@[x - new_start + old_start]
                    } else {
                        values0[x]
                    },
        {
            assert(dataset.values@.len() == dataset.values.len());
            assert(values@.len() == values.len());
            values.set(new_start + j, dataset.values[old_start + j]);
        }
        proof {
            let before = rows_of(values0, count, width);
            let after = rows_of(values@, count, width);
            assert forall|w: int| 0 <= w < n && w != new_id implies #[trigger] after[w]
                == before[w] by {
                lemma_block(dim as int, n as int, w);
                lemma_blocks_apart(dim as int, new_id as int, w);
                assert(after[w] =~= before[w]);
            }
            assert(after[new_id as int] =~= dataset@[old_id as int]);
            assert forall|o: int, w: int| #[trigger]
                is_last_source(permutation@.take(old_id + 1), o, w) implies after[w]
                == dataset@[o] by {
                let now = permutation@.take(old_id + 1);
                let prior = permutation@.take(old_id as int);
                assert(now[o] == w);
                if o == old_id {
                    assert(w == new_id);
                } else {
                    assert(now[old_id as int] != w);
                    assert forall|later: int| o < later < prior.len() implies #[trigger] prior[later]
                        != w by {
                        assert(now[later] != w);
                    }
                    assert(prior[o] == now[o]);
                    assert(is_last_source(prior, o, w));
                    assert(permutation@[o] < n);
                    assert(after[w] == before[w]);
                }
            }
            assert forall|w: int|
                0 <= w < n && is_unsourced(permutation@.take(old_id + 1), w) implies is_uniform(
                #[trigger] after[w],
                fill,
            ) by {
                let now = permutation@.take(old_id + 1);
                let prior = permutation@.take(old_id as int);
                assert(now[old_id as int] != w);
                assert forall|o: int| 0 <= o < prior.len() implies #[trigger] prior[o] != w by {
                    assert(now[o] != w);
                }
                assert(after[w] == before[w]);
            }
        }
        old_id = old_id + 1;
    }
    assert(permutation@.take(permutation@.len() as int) =~= permutation@);
    let permuted = DenseDataset { values, n, dim };
    proof {
        if hnsw_utils::is_permutation(permutation@) {
            assert forall|old_id: int| 0 <= old_id < dataset@.len() implies permuted@[
                #[trigger] permutation@[old_id] as int
            ] == dataset@[old_id] by {
                law_permutation_moves_rows(dataset@, permuted@, permutation@, old_id);
            }
        }
    }
    permuted
}

/// A permutation moves every vector: vector `old` becomes vector `permutation[old]`.
pub proof fn law_permutation_moves_rows<T>(
    before: Seq<Seq<T>>,
    after: Seq<Seq<T>>,
    permutation: Seq<usize>,
    old_id: int,
)
    requires
        hnsw_utils::is_permutation(permutation),
        permutation.len() == before.len(),
        forall|o: int, new_id: int| #[trigger]
            is_last_source(permutation, o, new_id) ==> after[new_id] == before[o],
        0 <= old_id < before.len(),
    ensures
        after[permutation[old_id] as int] == before[old_id],
{
    assert(is_last_source(permutation, old_id, permutation[old_id] as int));
}

/// A sparse vector: where it is not zero, and what it is there.
pub struct SparseVector<C, V> {
    pub components: Vec<C>,
    pub values: Vec<V>,
}

impl<C, V> View for SparseVector<C, V> {
    type V = (Seq<C>, Seq<V>);

    open spec fn view(&self) -> (Seq<C>, Seq<V>) {
        (self.components@, self.values@)
    }
}

/// Sparse vectors, one after the other.
pub struct SparseDataset<C, V> {
    components: Vec<C>,
    values: Vec<V>,
    offsets: Vec<usize>,
    dim: usize,
}

impl<C, V> View for SparseDataset<C, V> {
    type V = Seq<(Seq<C>, Seq<V>)>;

    closed spec fn view(&self) -> Seq<(Seq<C>, Seq<V>)> {
        Seq::new(
            (self.offsets@.len() - 1) as nat,
            |i: int|
                (
                    self.components@.subrange(self.offsets@[i] as int, self.offsets@[i + 1] as int),
                    self.values@.subrange(self.offsets@[i] as int, self.offsets@[i + 1] as int),
                ),
        )
    }
}

impl<C: Copy, V: Copy> SparseDataset<C, V> {
    pub closed spec fn wf(&self) -> bool {
        &&& self.components@.len() == self.values@.len()
        &&& self.offsets@.len() > 0
        &&& self.offsets@.last() == self.values@.len()
        &&& forall|i: int|
            0 <= i < self.offsets@.len() - 1 ==> #[trigger] self.offsets@[i] <= self.offsets@[i + 1]
                <= self.values@.len()
    }

    /// The number of components that a vector can have.
    pub closed spec fn dimension(&self) -> nat {
        self.dim as nat
    }

    /// A dataset without vectors.
    pub fn new(dim: usize) -> (dataset: Self)
        ensures
            dataset.wf(),
            dataset.dimension() == dim,
            dataset@ == Seq::<(Seq<C>, Seq<V>)>::empty(),
    {
        let dataset = SparseDataset {
            components: Vec::new(),
            values: Vec::new(),
            offsets: vec![0usize],
            dim,
        };
        assert(dataset@ =~= Seq::<(Seq<C>, Seq<V>)>::empty());
        dataset
    }

    /// The number of vectors.
    pub fn len(&self) -> (n: usize)
        requires
            self.wf(),
        ensures
            n == self@.len(),
    {
        self.offsets.len() - 1
    }

    /// The number of components that a vector can have.
    pub fn output_dim(&self) -> (dim: usize)
        ensures
            dim == self.dimension(),
    {
        self.dim
    }

    /// The vector at an index.
    pub fn get(&self, i: usize) -> (vector: SparseVector<C, V>)
        requires
            self.wf(),
            i < self@.len(),
        ensures
            vector@ == self@[i as int],
    {
        assert(i + 1 < self.offsets.len());
        let begin: usize = self.offsets[i];
        let end: usize = self.offsets[i + 1];
        let mut components: Vec<C> = Vec::new();
        let mut values: Vec<V> = Vec::new();
        for j in begin..end
            invariant
                begin <= j <= end,
                end <= self.values@.len(),
                self.components@.len() == self.values@.len(),
                components@ == self.components@.subrange(begin as int, j as int),
                values@ == self.values@.subrange(begin as int, j as int),
        {
            components.push(self.components[j]);
            values.push(self.values[j]);
            assert(components@ =~= self.components@.subrange(begin as int, j + 1));
            assert(values@ =~= self.values@.subrange(begin as int, j + 1));
        }
        SparseVector { components, values }
    }

    /// Adds a vector.
    pub fn push(&mut self, vector: &SparseVector<C, V>)
        requires
            old(self).wf(),
            vector.components@.len() == vector.values@.len(),
        ensures
            final(self).wf(),
            final(self).dimension() == old(self).dimension(),
            final(self)@ == old(self)@.push(vector@),
    {
        let ghost components0 = self.components@;
        let ghost values0 = self.values@;
        let ghost offsets0 = self.offsets@;
        for j in 0..vector.values.len()
            invariant
                vector.components@.len() == vector.values@.len(),
                self.offsets@ == offsets0,
                self.dim == old(self).dim,
                self.components@ == components0 + vector.components@.take(j as int),
                self.values@ == values0 + vector.values@.take(j as int),
        {
            self.components.push(vector.components[j]);
            self.values.push(vector.values[j]);
            assert(self.components@ =~= components0 + vector.components@.take(j + 1));
            assert(self.values@ =~= values0 + vector.values@.take(j + 1));
        }
        assert(vector.values@.take(vector.values@.len() as int) =~= vector.values@);
        assert(vector.components@.take(vector.components@.len() as int) =~= vector.components@);
        self.offsets.push(self.values.len());
        proof {
            assert forall|i: int| 0 <= i < self@.len() implies self@[i] == old(self)@.push(
                vector@,
            )[i] by {
                if i < offsets0.len() - 1 {
                    assert(offsets0[i] <= offsets0[i + 1] <= values0.len());
                    assert(self@[i].0 =~= old(self)@[i].0);
                    assert(self@[i].1 =~= old(self)@[i].1);
                } else {
                    assert(self@[i].0 =~= vector.components@);
                    assert(self@[i].1 =~= vector.values@);
                }
            }
            assert(self@ =~= old(self)@.push(vector@));
            assert forall|i: int| 0 <= i < self.offsets@.len() - 1 implies #[trigger] self.offsets@[i]
                <= self.offsets@[i + 1] <= self.values@.len() by {
                if i < offsets0.len() - 1 {
                    assert(offsets0[i] <= offsets0[i + 1] <= values0.len());
                }
            }
        }
    }
}

/// The items of a sequence in the order of `order`.
pub open spec fn in_order<T>(items: Seq<T>, order: Seq<usize>) -> Seq<T> {
    Seq::new(order.len(), |i: int| items[order[i] as int])
}

/// The dataset in which vector `old` of `dataset` has become vector `permutation[old]`.
pub fn permute_plain_sparse_dataset<C: Copy, V: Copy>(
    dataset: &SparseDataset<C, V>,
    permutation: &[usize],
) -> (permuted: SparseDataset<C, V>)
    requires
        dataset.wf(),
        permutation@.len() == dataset@.len(),
        hnsw_utils::is_permutation(permutation@),
    ensures
        permuted.wf(),
        permuted.dimension() == dataset.dimension(),
        permuted@ == in_order(dataset@, hnsw_utils::inverse(permutation@)),
        is_permuted(dataset@, permuted@, permutation@),
{
    let order = hnsw_utils::invert_mapping(permutation);
    let mut permuted: SparseDataset<C, V> = SparseDataset::new(dataset.dim);
    for i in 0..order.len()
        invariant
            dataset.wf(),
            hnsw_utils::is_inverse(permutation@, order@),
            permutation@.len() == dataset@.len(),
            permuted.wf(),
            permuted.dimension() == dataset.dimension(),
            permuted@ == in_order(dataset@, order@).take(i as int),
    {
        assert(order@[i as int] < permutation@.len());
        let vector = dataset.get(order[i]);
        proof {
            lemma_same_lengths(dataset, order@[i as int] as int);
        }
        permuted.push(&vector);
        assert(permuted@ =~= in_order(dataset@, order@).take(i + 1));
    }
    assert(permuted@ =~= in_order(dataset@, order@));
    permuted
}

proof fn lemma_same_lengths<C: Copy, V: Copy>(dataset: &SparseDataset<C, V>, i: int)
    requires
        dataset.wf(),
        0 <= i < dataset@.len(),
    ensures
        dataset@[i].0.len() == dataset@[i].1.len(),
{
    assert(dataset.offsets@[i] <= dataset.offsets@[i + 1] <= dataset.values@.len());
}

/// The dataset in which vector `old` of `dataset` has become vector `permutation[old]`; quantized
/// values are moved as they are.
pub fn permute_scalar_sparse_dataset<C: Copy, V: Copy>(
    dataset: &SparseDataset<C, V>,
    permutation: &[usize],
) -> (permuted: SparseDataset<C, V>)
    requires
        dataset.wf(),
        permutation@.len() == dataset@.len(),
        hnsw_utils::is_permutation(permutation@),
    ensures
        permuted.wf(),
        permuted.dimension() == dataset.dimension(),
        permuted@ == in_order(dataset@, hnsw_utils::inverse(permutation@)),
        is_permuted(dataset@, permuted@, permutation@),
{
    permute_plain_sparse_dataset(dataset, permutation)
}

/// What `decode` says the vectors of a packed dataset are, in the order of a permutation.
///
/// The vector that stood at `old` stands at `permutation[old]`. Encoding the vectors in turn gives
/// the packed dataset in its new order.
pub fn permute_packed_dataset<C, V, F: Fn(usize) -> SparseVector<C, V>>(
    permutation: &[usize],
    decode: &F,
) -> (vectors: Vec<SparseVector<C, V>>)
    requires
        hnsw_utils::is_permutation(permutation@),
        forall|id: usize| id < permutation@.len() ==> #[trigger] decode.requires((id,)),
    ensures
        vectors@.len() == permutation@.len(),
        forall|i: int|
            0 <= i < vectors@.len() ==> decode.ensures(
                (hnsw_utils::inverse(permutation@)[i],),
                #[trigger] vectors@[i],
            ),
        forall|old_id: int|
            0 <= old_id < permutation@.len() ==> decode.ensures(
                (old_id as usize,),
                vectors@[#[trigger] permutation@[old_id] as int],
            ),
{
    let order = hnsw_utils::invert_mapping(permutation);
    let mut vectors: Vec<SparseVector<C, V>> = Vec::new();
    for i in 0..order.len()
        invariant
            hnsw_utils::is_inverse(permutation@, order@),
            forall|id: usize| id < permutation@.len() ==> #[trigger] decode.requires((id,)),
            vectors@.len() == i,
            forall|j: int|
                0 <= j < i ==> decode.ensures((order@[j],), #[trigger] vectors@[j]),
    {
        assert(order@[i as int] < permutation@.len());
        vectors.push(decode(order[i]));
    }
    vectors
}

/// Like [`permute_packed_dataset`], with every value made narrower before it is encoded again.
pub fn permute_packed_dataset_narrowed<
    C: Copy,
    V: Copy,
    N,
    F: Fn(usize) -> SparseVector<C, V>,
    G: Fn(V) -> N,
>(permutation: &[usize], decode: &F, narrow: &G) -> (vectors: Vec<SparseVector<C, N>>)
    requires
        hnsw_utils::is_permutation(permutation@),
        forall|id: usize| id < permutation@.len() ==> #[trigger] decode.requires((id,)),
        forall|v: V| #[trigger] narrow.requires((v,)),
    ensures
        vectors@.len() == permutation@.len(),
        forall|i: int|
            0 <= i < vectors@.len() ==> is_narrowed(
                decode,
                narrow,
                hnsw_utils::inverse(permutation@)[i],
                #[trigger] vectors@[i],
            ),
        forall|old_id: int|
            0 <= old_id < permutation@.len() ==> is_narrowed(
                decode,
                narrow,
                old_id as usize,
                vectors@[#[trigger] permutation@[old_id] as int],
            ),
{
    let decoded = permute_packed_dataset(permutation, decode);
    let mut vectors: Vec<SparseVector<C, N>> = Vec::new();
    for i in 0..decoded.len()
        invariant
            forall|v: V| #[trigger] narrow.requires((v,)),
            decoded@.len() == permutation@.len(),
            forall|j: int|
                0 <= j < decoded@.len() ==> decode.ensures(
                    (hnsw_utils::inverse(permutation@)[j],),
                    #[trigger] decoded@[j],
                ),
            vectors@.len() == i,
            forall|j: int|
                0 <= j < i ==> is_narrowed(
                    decode,
                    narrow,
                    hnsw_utils::inverse(permutation@)[j],
                    #[trigger] vectors@[j],
                ),
    {
        let wide = &decoded[i];
        let mut components: Vec<C> = Vec::new();
        for j in 0..wide.components.len()
            invariant
                components@ == wide.components@.take(j as int),
        {
            components.push(wide.components[j]);
            assert(components@ =~= wide.components@.take(j + 1));
        }
        assert(components@ =~= wide.components@);
        let mut values: Vec<N> = Vec::new();
        for j in 0..wide.values.len()
            invariant
                forall|v: V| #[trigger] narrow.requires((v,)),
                values@.len() == j,
                forall|x: int|
                    0 <= x < j ==> narrow.ensures((wide.values@[x],), #[trigger] values@[x]),
        {
            values.push(narrow(wide.values[j]));
        }
        let vector = SparseVector { components, values };
        assert(decode.ensures((hnsw_utils::inverse(permutation@)[i as int],), decoded@[i as int]));
        assert(is_narrowed(decode, narrow, hnsw_utils::inverse(permutation@)[i as int], vector));
        vectors.push(vector);
    }
    proof {
        assert(permutation@.len() == permutation.len());
        hnsw_utils::law_inverse_exists(permutation@);
        assert forall|old_id: int| 0 <= old_id < permutation@.len() implies is_narrowed(
            decode,
            narrow,
            old_id as usize,
            vectors@[#[trigger] permutation@[old_id] as int],
        ) by {
            let new_id = permutation@[old_id] as int;
            assert(hnsw_utils::inverse(permutation@)[new_id] == old_id);
            assert(is_narrowed(
                decode,
                narrow,
                hnsw_utils::inverse(permutation@)[new_id],
                vectors@[new_id],
            ));
        }
    }
    vectors
}

/// `vector` is what `decode` gives for `id`, with every value made narrower.
pub open spec fn is_narrowed<C, V, N, F: Fn(usize) -> SparseVector<C, V>, G: Fn(V) -> N>(
    decode: &F,
    narrow: &G,
    id: usize,
    vector: SparseVector<C, N>,
) -> bool {
    exists|wide: SparseVector<C, V>|
        {
            &&& #[trigger] decode.ensures((id,), wide)
            &&& vector.components@ == wide.components@
            &&& vector.values@.len() == wide.values@.len()
            &&& forall|j: int|
                0 <= j < wide.values@.len() ==> narrow.ensures(
                    (wide.values@[j],),
                    #[trigger] vector.values@[j],
                )
        }
}

/// `row` is what `decode` gives for `id`.
pub open spec fn is_decoded<C, V, F: Fn(usize) -> SparseVector<C, V>>(
    decode: &F,
    id: usize,
    row: (Seq<C>, Seq<V>),
) -> bool {
    exists|vector: SparseVector<C, V>| #[trigger] decode.ensures((id,), vector) && vector@ == row
}

/// The vectors of a packed dataset of `n` vectors, in their order.
pub fn decode_packed_dataset<C: Copy, V: Copy, F: Fn(usize) -> SparseVector<C, V>>(
    n: usize,
    dim: usize,
    decode: &F,
) -> (plain: SparseDataset<C, V>)
    requires
        forall|id: usize| id < n ==> #[trigger] decode.requires((id,)),
        forall|id: usize, vector: SparseVector<C, V>| #[trigger]
            decode.ensures((id,), vector) ==> vector.components@.len() == vector.values@.len(),
    ensures
        plain.wf(),
        plain.dimension() == dim,
        plain@.len() == n,
        forall|i: int|
            0 <= i < n ==> is_decoded(decode, i as usize, #[trigger] plain@[i]),
{
    let mut plain: SparseDataset<C, V> = SparseDataset::new(dim);
    for id in 0..n
        invariant
            forall|i: usize| i < n ==> #[trigger] decode.requires((i,)),
            forall|i: usize, vector: SparseVector<C, V>| #[trigger]
                decode.ensures((i,), vector) ==> vector.components@.len() == vector.values@.len(),
            plain.wf(),
            plain.dimension() == dim,
            plain@.len() == id,
            forall|i: int|
                0 <= i < id ==> is_decoded(decode, i as usize, #[trigger] plain@[i]),
    {
        let vector = decode(id);
        let ghost before = plain@;
        plain.push(&vector);
        proof {
            assert forall|i: int| 0 <= i < id + 1 implies is_decoded(
                decode,
                i as usize,
                #[trigger] plain@[i],
            ) by {
                if i < id {
                    assert(plain@[i] == before[i]);
                } else {
                    assert(decode.ensures((i as usize,), vector));
                }
            }
        }
    }
    plain
}

} // verus!
