//! Vector storage: a growing table of fixed-dimension vectors, kept as a
//! loose tail plus sealed row-major blocks, and the query drivers that
//! select the best k candidates out of a scored pass over the storage.
//!
//! Every stored element is an opaque 32-bit scalar payload (the bit image
//! of one vector coordinate); the table never interprets elements, it only
//! guards lengths and layout. The global id of the i-th inserted vector is
//! `i`, forever: sealing moves vectors from the loose tail into blocks
//! without reordering or renumbering, so `rows()[i]` is always the i-th
//! inserted vector.
use vstd::prelude::*;

use crate::error::Error;
use crate::rank::{sorted_asc, sorted_desc};
use crate::selector::{cands_of, kept_spec, lemma_sorted_asc_unique, lemma_sorted_desc_unique,
    Selector};
use vstd::seq_lib::lemma_flatten_concat;

verus! {

/// Sealed blocks hold this many vectors unless a table is created with an
/// explicit chunk size.
pub const DEFAULT_CHUNK_SIZE: usize = 4096;

/// The views of a sequence of stored vectors.
pub open spec fn vec_views(vs: Seq<Vec<u32>>) -> Seq<Seq<u32>> {
    vs.map_values(|v: Vec<u32>| v@)
}

/// Flattening uniform-length rows: lengths multiply and every element of
/// the flattening is the corresponding row element.
pub proof fn lemma_flatten_uniform<A>(rs: Seq<Seq<A>>, d: nat)
    requires
        forall|i: int| 0 <= i < rs.len() ==> (#[trigger] rs[i]).len() == d,
    ensures
        rs.flatten().len() == rs.len() * d,
        forall|i: int, j: int|
            0 <= i < rs.len() && 0 <= j < d ==> rs.flatten()[i * d + j] == rs[i][j],
    decreases rs.len(),
{
    if rs.len() == 0 {
        assert(rs.flatten() =~= Seq::<A>::empty());
    } else {
        let tail = rs.drop_first();
        assert(forall|i: int| 0 <= i < tail.len() ==> (#[trigger] tail[i]).len() == d);
        lemma_flatten_uniform(tail, d);
        assert(rs.flatten() == rs.first() + tail.flatten());
        assert(rs[0].len() == d);
        assert(rs.flatten().len() == d + tail.len() * d);
        assert(d + tail.len() * d == rs.len() * d) by (nonlinear_arith)
            requires
                tail.len() + 1 == rs.len(),
        ;
        assert forall|i: int, j: int| 0 <= i < rs.len() && 0 <= j < d implies rs.flatten()[i * d
            + j] == rs[i][j] by {
            if i == 0 {
                assert(rs.flatten()[j] == rs.first()[j]);
            } else {
                assert((i - 1) * d + j == i * d + j - d) by (nonlinear_arith);
                assert(0 <= (i - 1) * d + j < tail.len() * d) by (nonlinear_arith)
                    requires
                        0 <= i - 1 < tail.len() && 0 <= j < d,
                ;
                assert(tail.flatten()[(i - 1) * d + j] == tail[i - 1][j]);
                assert(rs.flatten()[i * d + j] == tail.flatten()[i * d + j - d]);
                assert(tail[i - 1] == rs[i]);
            }
        }
    }
}

/// The `i`-th uniform-length row can be read back off the flattening as a
/// subrange.
pub proof fn lemma_flatten_uniform_row<A>(rs: Seq<Seq<A>>, d: nat, i: int)
    requires
        forall|n: int| 0 <= n < rs.len() ==> (#[trigger] rs[n]).len() == d,
        0 <= i < rs.len(),
    ensures
        rs.flatten().subrange(i * d, i * d + d) == rs[i],
{
    lemma_flatten_uniform(rs, d);
    assert(0 <= i * d && i * d + d <= rs.len() * d) by (nonlinear_arith)
        requires
            0 <= i < rs.len(),
    ;
    assert(rs.flatten().subrange(i * d, i * d + d) =~= rs[i]);
}

/// An immutable row-major block of exactly `chunk_size` vectors, produced
/// only by sealing.
pub struct Matrix {
    dim: usize,
    rows: usize,
    data: Vec<u32>,
}

impl Matrix {
    /// The flat payload has exactly `rows * dim` elements.
    pub closed spec fn wf(self) -> bool {
        self.data@.len() == self.rows * self.dim
    }

    /// Length of each row.
    pub closed spec fn dim_spec(self) -> nat {
        self.dim as nat
    }

    /// Number of rows.
    pub closed spec fn rows_spec(self) -> nat {
        self.rows as nat
    }

    /// The block as a sequence of rows.
    pub closed spec fn row_seq(self) -> Seq<Seq<u32>> {
        Seq::new(
            self.rows as nat,
            |i: int| self.data@.subrange(i * self.dim, i * self.dim + self.dim),
        )
    }

    /// Each row of a well-formed block has length `dim`.
    pub proof fn lemma_row_lens(self)
        requires
            self.wf(),
        ensures
            forall|i: int|
                0 <= i < self.rows_spec() ==> (#[trigger] self.row_seq()[i]).len()
                    == self.dim_spec(),
    {
        assert forall|i: int| 0 <= i < self.rows_spec() implies (#[trigger] self.row_seq()[i]).len()
            == self.dim_spec() by {
            assert(0 <= i * self.dim && i * self.dim + self.dim <= self.data@.len())
                by (nonlinear_arith)
                requires
                    0 <= i < self.rows && self.data@.len() == self.rows * self.dim,
            ;
        }
    }

    /// Number of rows.
    pub fn row_count(&self) -> (n: usize)
        ensures
            n as nat == self.rows_spec(),
    {
        self.rows
    }

    /// Length of each row.
    pub fn dim(&self) -> (n: usize)
        ensures
            n as nat == self.dim_spec(),
    {
        self.dim
    }

    /// A copy of row `i`.
    pub fn row(&self, i: usize) -> (r: Vec<u32>)
        requires
            self.wf(),
            i < self.rows_spec(),
        ensures
            r@ == self.row_seq()[i as int],
    {
        let n = self.data.len();
        proof {
            self.lemma_row_lens();
            assert(0 <= i * self.dim && i * self.dim + self.dim <= self.data@.len())
                by (nonlinear_arith)
                requires
                    0 <= (i as int) < self.rows && self.data@.len() == self.rows * self.dim,
            ;
        }
        let lo = i * self.dim;
        let mut r: Vec<u32> = Vec::new();
        let mut c: usize = 0;
        while c < self.dim
            invariant
                c <= self.dim,
                self.wf(),
                i < self.rows_spec(),
                lo == i * self.dim,
                lo + self.dim <= self.data@.len(),
                self.data@.len() <= usize::MAX,
                r@ == self.data@.subrange(lo as int, lo + c),
            decreases self.dim - c,
        {
            r.push(self.data[lo + c]);
            proof {
                assert(self.data@.subrange(lo as int, lo + c + 1) =~= self.data@.subrange(
                    lo as int,
                    lo + c,
                ).push(self.data@[lo + c]));
            }
            c = c + 1;
        }
        proof {
            assert(r@ == self.row_seq()[i as int]);
        }
        r
    }

    /// The flat row-major payload: the concatenation of all rows.
    pub fn entries(&self) -> (r: &Vec<u32>)
        requires
            self.wf(),
        ensures
            r@ == self.row_seq().flatten(),
            r@.len() == self.rows_spec() * self.dim_spec(),
    {
        proof {
            self.lemma_row_lens();
            lemma_flatten_uniform(self.row_seq(), self.dim_spec());
            assert forall|n: int| 0 <= n < self.data@.len() implies self.row_seq().flatten()[n]
                == self.data@[n] by {
                let i = n / (self.dim as int);
                let j = n % (self.dim as int);
                assert(self.dim > 0) by (nonlinear_arith)
                    requires
                        self.data@.len() == self.rows * self.dim && self.data@.len() > 0,
                ;
                assert(n == i * self.dim + j && 0 <= j < self.dim) by (nonlinear_arith)
                    requires
                        self.dim > 0 && i == n / (self.dim as int) && j == n % (self.dim as int)
                            && 0 <= n,
                ;
                assert(i < self.rows) by (nonlinear_arith)
                    requires
                        n < self.rows * self.dim && n == i * self.dim + j && 0 <= j < self.dim && 0
                            <= i,
                ;
                assert(self.row_seq().flatten()[i * self.dim + j] == self.row_seq()[i][j]);
                assert(0 <= i * self.dim && i * self.dim + self.dim <= self.data@.len())
                    by (nonlinear_arith)
                    requires
                        0 <= i < self.rows && self.data@.len() == self.rows * self.dim,
                ;
                assert(self.row_seq()[i][j] == self.data@[i * self.dim + j]);
            }
            assert(self.data@ =~= self.row_seq().flatten());
        }
        &self.data
    }
}

/// An exact element-wise copy of a stored vector.
fn copy_vec(v: &Vec<u32>) -> (r: Vec<u32>)
    ensures
        r@ == v@,
{
    let mut r: Vec<u32> = Vec::new();
    let n = v.len();
    let mut i: usize = 0;
    while i < n
        invariant
            i <= n,
            n == v@.len(),
            r@ == v@.subrange(0, i as int),
        decreases n - i,
    {
        r.push(v[i]);
        proof {
            assert(v@.subrange(0, i + 1) =~= v@.subrange(0, i as int).push(v@[i as int]));
        }
        i = i + 1;
    }
    proof {
        assert(v@.subrange(0, n as int) =~= v@);
    }
    r
}

/// The vector table: a loose tail of recent insertions plus sealed
/// blocks, with a fixed dimension, an optional chunking mode and a
/// per-table chunk size.
pub struct VectorTable {
    dim: usize,
    chunking: bool,
    chunk_size: usize,
    loose: Vec<Vec<u32>>,
    blocks: Vec<Matrix>,
}

impl VectorTable {
    /// The table dimension: the length every stored vector must have.
    pub closed spec fn dim_spec(self) -> nat {
        self.dim as nat
    }

    /// Whether loose vectors are condensed into sealed blocks.
    pub closed spec fn chunking_spec(self) -> bool {
        self.chunking
    }

    /// How many vectors a sealed block holds.
    pub closed spec fn chunk_size_spec(self) -> nat {
        self.chunk_size as nat
    }

    /// The unsealed vectors, most recent insertions last.
    pub closed spec fn loose_rows(self) -> Seq<Seq<u32>> {
        vec_views(self.loose@)
    }

    /// Number of unsealed vectors.
    pub closed spec fn loose_count(self) -> nat {
        self.loose@.len()
    }

    /// The sealed blocks, in sealing order.
    pub closed spec fn block_views(self) -> Seq<Matrix> {
        self.blocks@
    }

    /// Number of sealed blocks.
    pub closed spec fn block_count(self) -> nat {
        self.blocks@.len()
    }

    /// All sealed vectors, in insertion order.
    pub closed spec fn sealed_rows(self) -> Seq<Seq<u32>> {
        self.blocks@.map_values(|m: Matrix| m.row_seq()).flatten()
    }

    /// Every stored vector in insertion order: `rows()[i]` is the vector
    /// with global id `i`.
    pub open spec fn rows(self) -> Seq<Seq<u32>> {
        self.sealed_rows() + self.loose_rows()
    }

    /// Number of stored vectors.
    pub open spec fn total_spec(self) -> nat {
        self.rows().len()
    }

    /// Structural invariant, except for the loose-tail bound: positive
    /// chunk size, every block sealed full with rows of the table
    /// dimension, every loose vector of the table dimension, and a total
    /// count that fits the machine.
    pub closed spec fn pre_wf(self) -> bool {
        &&& 1 <= self.chunk_size
        &&& (forall|b: int|
            0 <= b < self.blocks@.len() ==> {
                &&& (#[trigger] self.blocks@[b]).wf()
                &&& self.blocks@[b].rows_spec() == self.chunk_size
                &&& self.blocks@[b].dim_spec() == self.dim
            })
        &&& (forall|i: int|
            0 <= i < self.loose@.len() ==> (#[trigger] self.loose@[i])@.len() == self.dim)
        &&& self.blocks@.len() * self.chunk_size + self.loose@.len() <= usize::MAX
    }

    /// Structural invariant: with chunking enabled the loose tail always
    /// holds fewer than `chunk_size` vectors.
    pub open spec fn wf(self) -> bool {
        &&& self.pre_wf()
        &&& (self.chunking_spec() ==> self.loose_count() < self.chunk_size_spec())
    }

    /// Accounting: the stored vectors are the sealed blocks' rows plus the
    /// loose tail, and every stored vector has the table dimension.
    pub proof fn lemma_row_accounting(self)
        requires
            self.pre_wf(),
        ensures
            self.sealed_rows().len() == self.block_count() * self.chunk_size_spec(),
            self.total_spec() == self.block_count() * self.chunk_size_spec() + self.loose_count(),
            forall|i: int|
                0 <= i < self.total_spec() ==> (#[trigger] self.rows()[i]).len() == self.dim_spec(),
            forall|b: int, j: int|
                0 <= b < self.block_count() && 0 <= j < self.chunk_size_spec()
                    ==> #[trigger] self.sealed_rows()[b * self.chunk_size_spec() + j]
                    == self.block_views()[b].row_seq()[j],
    {
        let mapped = self.blocks@.map_values(|m: Matrix| m.row_seq());
        let cs = self.chunk_size as nat;
        assert(forall|b: int| 0 <= b < mapped.len() ==> (#[trigger] mapped[b]).len() == cs);
        lemma_flatten_uniform(mapped, cs);
        assert forall|b: int, j: int|
            0 <= b < self.block_count() && 0 <= j < self.chunk_size_spec() implies #[trigger] self.sealed_rows()[b
            * self.chunk_size_spec() + j] == self.block_views()[b].row_seq()[j] by {
            assert(0 <= b * cs + j < mapped.len() * cs) by (nonlinear_arith)
                requires
                    0 <= b < mapped.len() && 0 <= j < cs,
            ;
            assert(self.sealed_rows()[b * cs + j] == mapped[b][j]);
        }
        assert forall|i: int| 0 <= i < self.total_spec() implies (#[trigger] self.rows()[i]).len()
            == self.dim_spec() by {
            let sl = self.sealed_rows().len() as int;
            if i < sl {
                let b = i / (cs as int);
                let j = i % (cs as int);
                assert(i == b * cs + j && 0 <= j < cs) by (nonlinear_arith)
                    requires
                        cs > 0 && b == i / (cs as int) && j == i % (cs as int) && 0 <= i,
                ;
                assert(0 <= b < mapped.len()) by (nonlinear_arith)
                    requires
                        0 <= i < mapped.len() * cs && i == b * cs + j && 0 <= j < cs,
                ;
                assert(self.sealed_rows()[i] == mapped[b][j]);
                self.blocks@[b].lemma_row_lens();
            } else {
                assert(self.rows()[i] == self.loose_rows()[i - sl]);
            }
        }
    }

    /// An empty table with the given dimension and chunking mode, and the
    /// default chunk size.
    pub fn new(dim: usize, chunking: bool) -> (t: VectorTable)
        ensures
            t.wf(),
            t.dim_spec() == dim as nat,
            t.chunking_spec() == chunking,
            t.chunk_size_spec() == DEFAULT_CHUNK_SIZE as nat,
            t.rows() == Seq::<Seq<u32>>::empty(),
            t.block_count() == 0,
            t.loose_count() == 0,
    {
        Self::with_chunk_size(dim, chunking, DEFAULT_CHUNK_SIZE)
    }

    /// An empty table with an explicit chunk size.
    pub fn with_chunk_size(dim: usize, chunking: bool, chunk_size: usize) -> (t: VectorTable)
        requires
            chunk_size >= 1,
        ensures
            t.wf(),
            t.dim_spec() == dim as nat,
            t.chunking_spec() == chunking,
            t.chunk_size_spec() == chunk_size as nat,
            t.rows() == Seq::<Seq<u32>>::empty(),
            t.block_count() == 0,
            t.loose_count() == 0,
    {
        let t = VectorTable {
            dim,
            chunking,
            chunk_size,
            loose: Vec::<Vec<u32>>::new(),
            blocks: Vec::<Matrix>::new(),
        };
        proof {
            assert(t.blocks@.map_values(|m: Matrix| m.row_seq()).len() == 0);
            assert(t.rows() =~= Seq::<Seq<u32>>::empty());
        }
        t
    }

    /// The table dimension.
    pub fn dim(&self) -> (d: usize)
        ensures
            d as nat == self.dim_spec(),
    {
        self.dim
    }

    /// Whether chunking is enabled.
    pub fn is_chunking(&self) -> (c: bool)
        ensures
            c == self.chunking_spec(),
    {
        self.chunking
    }

    /// The chunk size.
    pub fn chunk_size(&self) -> (c: usize)
        ensures
            c as nat == self.chunk_size_spec(),
    {
        self.chunk_size
    }

    /// Number of stored vectors.
    pub fn len(&self) -> (n: usize)
        requires
            self.wf(),
        ensures
            n as nat == self.total_spec(),
    {
        proof {
            self.lemma_row_accounting();
        }
        self.blocks.len() * self.chunk_size + self.loose.len()
    }

    /// Number of sealed blocks.
    pub fn block_len(&self) -> (n: usize)
        ensures
            n as nat == self.block_count(),
    {
        self.blocks.len()
    }

    /// Number of loose (unsealed) vectors.
    pub fn loose_len(&self) -> (n: usize)
        ensures
            n as nat == self.loose_count(),
    {
        self.loose.len()
    }

    /// The `b`-th sealed block.
    pub fn block_at(&self, b: usize) -> (m: &Matrix)
        requires
            b < self.block_count(),
        ensures
            *m == self.block_views()[b as int],
    {
        &self.blocks[b]
    }

    /// The `i`-th loose vector.
    pub fn loose_at(&self, i: usize) -> (v: &Vec<u32>)
        requires
            i < self.loose_count(),
        ensures
            v@ == self.loose_rows()[i as int],
    {
        &self.loose[i]
    }

    /// Whether the vector has the table dimension — the one structural
    /// check enforced on every insert path.
    fn check_dims(&self, vector: &Vec<u32>) -> (ok: bool)
        ensures
            ok == (vector@.len() == self.dim_spec()),
    {
        vector.len() == self.dim
    }

    /// Inserts one vector at the end of the table. Rejected with
    /// `DimensionMismatch` (table unchanged) exactly when the vector's
    /// length is not the table dimension; otherwise the vector is appended
    /// as the new last row and, with chunking enabled, full chunks are
    /// sealed.
    pub fn insert(&mut self, vector: &Vec<u32>) -> (res: Result<(), Error>)
        requires
            old(self).wf(),
            old(self).total_spec() < usize::MAX,
        ensures
            final(self).wf(),
            final(self).dim_spec() == old(self).dim_spec(),
            final(self).chunking_spec() == old(self).chunking_spec(),
            final(self).chunk_size_spec() == old(self).chunk_size_spec(),
            match res {
                Ok(()) => vector@.len() == old(self).dim_spec() && final(self).rows() == old(
                    self,
                ).rows().push(vector@),
                Err(e) => {
                    &&& e == Error::DimensionMismatch
                    &&& vector@.len() != old(self).dim_spec()
                    &&& *final(self) == *old(self)
                },
            },
    {
        if !self.check_dims(vector) {
            return Err(Error::DimensionMismatch);
        }
        proof {
            old(self).lemma_row_accounting();
        }
        let copy = copy_vec(vector);
        self.loose.push(copy);
        proof {
            assert(vec_views(self.loose@) =~= vec_views(old(self).loose@).push(vector@));
            assert(self.rows() =~= old(self).rows().push(vector@));
        }
        if self.chunking {
            self.condense_vectors();
        }
        Ok(())
    }

    /// Inserts a batch of vectors, atomically: every vector's dimension is
    /// validated before the table is touched, so on `DimensionMismatch`
    /// nothing was inserted; on success all vectors are appended in order
    /// and, with chunking enabled, full chunks are sealed.
    pub fn insert_many(&mut self, vectors: &[Vec<u32>]) -> (res: Result<(), Error>)
        requires
            old(self).wf(),
            old(self).total_spec() + vectors@.len() <= usize::MAX,
        ensures
            final(self).wf(),
            final(self).dim_spec() == old(self).dim_spec(),
            final(self).chunking_spec() == old(self).chunking_spec(),
            final(self).chunk_size_spec() == old(self).chunk_size_spec(),
            match res {
                Ok(()) => (forall|i: int|
                    0 <= i < vectors@.len() ==> (#[trigger] vectors@[i])@.len() == old(
                        self,
                    ).dim_spec()) && final(self).rows() == old(self).rows() + vec_views(vectors@),
                Err(e) => {
                    &&& e == Error::DimensionMismatch
                    &&& exists|i: int|
                        0 <= i < vectors@.len() && (#[trigger] vectors@[i])@.len() != old(
                            self,
                        ).dim_spec()
                    &&& *final(self) == *old(self)
                },
            },
    {
        let n = vectors.len();
        let mut i: usize = 0;
        while i < n
            invariant
                i <= n,
                n == vectors@.len(),
                self == old(self),
                old(self).wf(),
                forall|j: int| 0 <= j < i ==> (#[trigger] vectors@[j])@.len() == self.dim_spec(),
            decreases n - i,
        {
            if !self.check_dims(&vectors[i]) {
                return Err(Error::DimensionMismatch);
            }
            i = i + 1;
        }
        proof {
            old(self).lemma_row_accounting();
        }
        let mut i: usize = 0;
        while i < n
            invariant
                i <= n,
                n == vectors@.len(),
                self.pre_wf(),
                self.dim_spec() == old(self).dim_spec(),
                self.chunking_spec() == old(self).chunking_spec(),
                self.chunk_size_spec() == old(self).chunk_size_spec(),
                old(self).total_spec() + n <= usize::MAX,
                self.total_spec() == old(self).total_spec() + i,
                forall|j: int| 0 <= j < n ==> (#[trigger] vectors@[j])@.len() == self.dim_spec(),
                self.rows() == old(self).rows() + vec_views(vectors@.subrange(0, i as int)),
            decreases n - i,
        {
            proof {
                self.lemma_row_accounting();
            }
            let copy = copy_vec(&vectors[i]);
            self.loose.push(copy);
            proof {
                assert(self.rows() =~= (old(self).rows() + vec_views(
                    vectors@.subrange(0, i as int),
                )).push(vectors@[i as int]@));
                assert((old(self).rows() + vec_views(vectors@.subrange(0, i as int))).push(
                    vectors@[i as int]@,
                ) =~= old(self).rows() + vec_views(vectors@.subrange(0, i + 1)));
            }
            i = i + 1;
        }
        proof {
            assert(vectors@.subrange(0, n as int) =~= vectors@);
        }
        if self.chunking {
            self.condense_vectors();
        }
        Ok(())
    }

    /// Seals full chunks: while the loose tail holds at least `chunk_size`
    /// vectors, the oldest `chunk_size` of them move, in insertion order,
    /// into a new sealed block. The stored sequence is unchanged.
    fn condense_vectors(&mut self)
        requires
            old(self).pre_wf(),
        ensures
            final(self).pre_wf(),
            final(self).loose_count() < final(self).chunk_size_spec(),
            final(self).rows() == old(self).rows(),
            final(self).dim_spec() == old(self).dim_spec(),
            final(self).chunking_spec() == old(self).chunking_spec(),
            final(self).chunk_size_spec() == old(self).chunk_size_spec(),
    {
        while self.loose.len() >= self.chunk_size
            invariant
                self.pre_wf(),
                self.rows() == old(self).rows(),
                self.dim_spec() == old(self).dim_spec(),
                self.chunking_spec() == old(self).chunking_spec(),
                self.chunk_size_spec() == old(self).chunk_size_spec(),
            decreases self.loose@.len(),
        {
            self.create_chunk();
        }
    }

    /// Seals exactly one chunk: drains the oldest `chunk_size` loose
    /// vectors, in order, into a new block appended to the sealed blocks.
    fn create_chunk(&mut self)
        requires
            old(self).pre_wf(),
            old(self).loose_count() >= old(self).chunk_size_spec(),
        ensures
            final(self).pre_wf(),
            final(self).rows() == old(self).rows(),
            final(self).loose_count() == old(self).loose_count() - old(self).chunk_size_spec(),
            final(self).block_count() == old(self).block_count() + 1,
            final(self).dim_spec() == old(self).dim_spec(),
            final(self).chunking_spec() == old(self).chunking_spec(),
            final(self).chunk_size_spec() == old(self).chunk_size_spec(),
    {
        let cs = self.chunk_size;
        let rest = self.loose.split_off(cs);
        let ghost head = vec_views(self.loose@);
        proof {
            assert(vec_views(old(self).loose@) =~= head + vec_views(rest@));
        }
        let mut data: Vec<u32> = Vec::new();
        let mut r: usize = 0;
        while r < cs
            invariant
                r <= cs,
                cs == self.chunk_size,
                self.loose@.len() == cs,
                head == vec_views(self.loose@),
                forall|i: int|
                    0 <= i < self.loose@.len() ==> (#[trigger] self.loose@[i])@.len() == self.dim,
                data@ == head.take(r as int).flatten(),
                data@.len() == r * self.dim,
            decreases cs - r,
        {
            let mut c: usize = 0;
            let ghost row = self.loose@[r as int]@;
            while c < self.dim
                invariant
                    c <= self.dim,
                    r < cs,
                    cs == self.chunk_size,
                    self.loose@.len() == cs,
                    head == vec_views(self.loose@),
                    row == self.loose@[r as int]@,
                    row.len() == self.dim,
                    data@ == head.take(r as int).flatten() + row.subrange(0, c as int),
                decreases self.dim - c,
            {
                let x = self.loose[r][c];
                data.push(x);
                proof {
                    assert(row.subrange(0, c + 1) =~= row.subrange(0, c as int).push(
                        row[c as int],
                    ));
                }
                c = c + 1;
            }
            proof {
                assert(row.subrange(0, self.dim as int) =~= row);
                assert(head.take(r + 1) =~= head.take(r as int).push(head[r as int]));
                head.take(r as int).lemma_flatten_push(row);
                assert(data@ == head.take(r + 1).flatten());
                assert(data@.len() == (r + 1) * self.dim) by (nonlinear_arith)
                    requires
                        data@.len() == r * self.dim + self.dim,
                ;
            }
            r = r + 1;
        }
        proof {
            assert(head.take(cs as int) =~= head);
        }
        let m = Matrix { dim: self.dim, rows: cs, data };
        proof {
            assert(m.wf());
            assert forall|i: int| 0 <= i < cs implies m.row_seq()[i] == head[i] by {
                lemma_flatten_uniform_row(head, self.dim as nat, i);
            }
            assert(m.row_seq() =~= head);
        }
        let ghost before = *self;
        self.blocks.push(m);
        self.loose = rest;
        proof {
            let prior = old(self).blocks@.map_values(|mm: Matrix| mm.row_seq());
            assert(self.blocks@.map_values(|mm: Matrix| mm.row_seq()) =~= prior.push(m.row_seq()));
            prior.lemma_flatten_push(m.row_seq());
            assert(self.sealed_rows() =~= old(self).sealed_rows() + head);
            assert(self.rows() =~= old(self).rows());
            let bc = old(self).block_count();
            let csn = old(self).chunk_size_spec();
            assert((bc + 1) * csn == bc * csn + csn) by (nonlinear_arith);
        }
    }

    /// A copy of the vector with global id `i`: always the `i`-th inserted
    /// vector, whether it still sits in the loose tail or has been sealed.
    pub fn get(&self, i: usize) -> (r: Vec<u32>)
        requires
            self.wf(),
            i < self.total_spec(),
        ensures
            r@ == self.rows()[i as int],
    {
        proof {
            self.lemma_row_accounting();
        }
        let sealed = self.blocks.len() * self.chunk_size;
        if i < sealed {
            let b = i / self.chunk_size;
            let j = i % self.chunk_size;
            proof {
                let cs = self.chunk_size as int;
                assert(i == b * cs + j && 0 <= (j as int) < cs) by (nonlinear_arith)
                    requires
                        cs > 0 && b as int == i as int / cs && j as int == i as int % cs,
                ;
                assert((b as int) < self.blocks@.len()) by (nonlinear_arith)
                    requires
                        (i as int) < self.blocks@.len() * cs && i == b * cs + j && 0 <= (j as int)
                            < cs && 0 <= b as int,
                ;
                assert(self.rows()[i as int] == self.sealed_rows()[i as int]);
            }
            self.blocks[b].row(j)
        } else {
            proof {
                assert(self.rows()[i as int] == self.loose_rows()[i - sealed]);
            }
            copy_vec(&self.loose[i - sealed])
        }
    }

    /// Scalar top-k: streams the candidate `(scores[i], i)` for every
    /// stored vector through a keep-largest bounded selector and returns
    /// the retained candidates in descending order. `scores[i]` must be
    /// the score key of the vector with global id `i`.
    pub fn top_k(&self, scores: &Vec<u32>, k: usize) -> (r: Vec<(u32, usize)>)
        requires
            self.wf(),
            scores@.len() == self.total_spec(),
        ensures
            sorted_desc(r@),
            r@.to_multiset() == kept_spec(cands_of(scores@), k as nat, true),
            r@.len() == (if k as nat <= self.total_spec() {
                k as nat
            } else {
                self.total_spec()
            }),
    {
        select_top_k(scores, k)
    }

    /// Scalar bottom-k: like [`VectorTable::top_k`] but keep-smallest,
    /// returned in ascending order.
    pub fn bottom_k(&self, scores: &Vec<u32>, k: usize) -> (r: Vec<(u32, usize)>)
        requires
            self.wf(),
            scores@.len() == self.total_spec(),
        ensures
            sorted_asc(r@),
            r@.to_multiset() == kept_spec(cands_of(scores@), k as nat, false),
            r@.len() == (if k as nat <= self.total_spec() {
                k as nat
            } else {
                self.total_spec()
            }),
    {
        select_bottom_k(scores, k)
    }

    /// Batched top-k: takes one score vector per block — one per sealed
    /// block, in order, plus one for the loose tail when it is nonempty —
    /// and selects over the flattened scores, assigning the candidate at
    /// flat position `i` the global id `i`. With `asc` the discipline is
    /// keep-smallest/ascending (distance metrics), otherwise
    /// keep-largest/descending.
    pub fn matrix_top_k(&self, block_scores: &Vec<Vec<u32>>, k: usize, asc: bool) -> (r: Vec<
        (u32, usize),
    >)
        requires
            self.wf(),
            block_scores@.len() == self.block_count() + (if self.loose_count() == 0 {
                0int
            } else {
                1int
            }),
            forall|b: int|
                0 <= b < self.block_count() ==> (#[trigger] block_scores@[b])@.len()
                    == self.chunk_size_spec(),
            self.loose_count() > 0 ==> block_scores@[self.block_count() as int]@.len()
                == self.loose_count(),
        ensures
            flat_scores(block_scores@).len() == self.total_spec(),
            !asc ==> sorted_desc(r@),
            asc ==> sorted_asc(r@),
            r@.to_multiset() == kept_spec(cands_of(flat_scores(block_scores@)), k as nat, !asc),
            r@.len() == (if k as nat <= self.total_spec() {
                k as nat
            } else {
                self.total_spec()
            }),
    {
        let ghost views = vec_views(block_scores@);
        let ghost fl = flat_scores(block_scores@);
        proof {
            self.lemma_row_accounting();
            let bc = self.block_count() as int;
            let cs = self.chunk_size_spec();
            assert(views.take(bc) + views.skip(bc) =~= views);
            lemma_flatten_concat(views.take(bc), views.skip(bc));
            assert(forall|b: int|
                0 <= b < bc ==> (#[trigger] views.take(bc)[b]).len() == cs);
            lemma_flatten_uniform(views.take(bc), cs);
            if self.loose_count() == 0 {
                assert(views.skip(bc).len() == 0);
                assert(views.skip(bc).flatten() =~= Seq::<u32>::empty());
            } else {
                assert(views.skip(bc).len() == 1);
                views.skip(bc).lemma_flatten_singleton();
                assert(views.skip(bc).flatten() == views[bc]);
            }
            assert(fl.len() == self.total_spec());
        }
        let mut sel = Selector::new(k, !asc);
        proof {
            assert(views.take(0).flatten() =~= Seq::<u32>::empty());
            assert(cands_of(fl).take(0) =~= sel.pushed@);
        }
        let count = block_scores.len();
        let mut b: usize = 0;
        let mut base: usize = 0;
        while b < count
            invariant
                b <= count,
                count == views.len(),
                views == vec_views(block_scores@),
                fl == flat_scores(block_scores@),
                fl.len() <= usize::MAX,
                sel.inv(),
                sel.k == k,
                sel.largest == !asc,
                base as int == views.take(b as int).flatten().len(),
                base <= fl.len(),
                sel.pushed@ == cands_of(fl).take(base as int),
            decreases count - b,
        {
            let ghost prefix = views.take(b as int).flatten();
            let ghost suffix = views.skip(b + 1).flatten();
            proof {
                assert(views.take(b + 1) =~= views.take(b as int).push(views[b as int]));
                views.take(b as int).lemma_flatten_push(views[b as int]);
                assert(views.take(b + 1) + views.skip(b + 1) =~= views);
                lemma_flatten_concat(views.take(b + 1), views.skip(b + 1));
                assert(fl =~= prefix + views[b as int] + suffix);
            }
            let row = &block_scores[b];
            let row_len = row.len();
            let mut j: usize = 0;
            while j < row_len
                invariant
                    j <= row_len,
                    b < count,
                    count == views.len(),
                    views == vec_views(block_scores@),
                    row_len == views[b as int].len(),
                    row@ == views[b as int],
                    fl == flat_scores(block_scores@),
                    fl =~= prefix + views[b as int] + suffix,
                    prefix.len() == base,
                    base + row_len <= fl.len(),
                    fl.len() <= usize::MAX,
                    sel.inv(),
                    sel.k == k,
                    sel.largest == !asc,
                    sel.pushed@ == cands_of(fl).take(base + j),
                decreases row_len - j,
            {
                proof {
                    assert(fl[base + j] == views[b as int][j as int]);
                    assert(cands_of(fl).take(base + j + 1) =~= cands_of(fl).take(base + j).push(
                        (fl[base + j], (base + j) as usize),
                    ));
                }
                sel.push(row[j], base + j);
                j = j + 1;
            }
            base = base + row_len;
            b = b + 1;
        }
        proof {
            assert(views.take(count as int) =~= views);
            assert(cands_of(fl).take(fl.len() as int) =~= cands_of(fl));
        }
        let r = sel.drain_sorted();
        proof {
            broadcast use vstd::seq_lib::group_to_multiset_ensures;

            crate::selector::lemma_kept_len(cands_of(fl), k as nat, !asc);
        }
        r
    }
}

/// The flattening of per-block score vectors: position `i` carries the
/// score of the vector with global id `i`.
pub open spec fn flat_scores(bs: Seq<Vec<u32>>) -> Seq<u32> {
    vec_views(bs).flatten()
}

/// Keep-largest selection over one score per stored vector: the shared
/// core of the scalar query drivers.
pub fn select_top_k(scores: &Vec<u32>, k: usize) -> (r: Vec<(u32, usize)>)
    ensures
        sorted_desc(r@),
        r@.to_multiset() == kept_spec(cands_of(scores@), k as nat, true),
        r@.len() == (if k as nat <= scores@.len() {
            k as nat
        } else {
            scores@.len()
        }),
{
    let mut sel = Selector::new(k, true);
    proof {
        assert(cands_of(scores@).take(0) =~= sel.pushed@);
    }
    let n = scores.len();
    let mut i: usize = 0;
    while i < n
        invariant
            i <= n,
            n == scores@.len(),
            sel.inv(),
            sel.k == k,
            sel.largest == true,
            sel.pushed@ == cands_of(scores@).take(i as int),
        decreases n - i,
    {
        proof {
            assert(cands_of(scores@).take(i + 1) =~= cands_of(scores@).take(i as int).push(
                (scores@[i as int], i),
            ));
        }
        sel.push(scores[i], i);
        i = i + 1;
    }
    proof {
        assert(cands_of(scores@).take(n as int) =~= cands_of(scores@));
    }
    let r = sel.drain_sorted();
    proof {
        broadcast use vstd::seq_lib::group_to_multiset_ensures;

        crate::selector::lemma_kept_len(cands_of(scores@), k as nat, true);
    }
    r
}

/// Keep-smallest counterpart of [`select_top_k`].
pub fn select_bottom_k(scores: &Vec<u32>, k: usize) -> (r: Vec<(u32, usize)>)
    ensures
        sorted_asc(r@),
        r@.to_multiset() == kept_spec(cands_of(scores@), k as nat, false),
        r@.len() == (if k as nat <= scores@.len() {
            k as nat
        } else {
            scores@.len()
        }),
{
    let mut sel = Selector::new(k, false);
    proof {
        assert(cands_of(scores@).take(0) =~= sel.pushed@);
    }
    let n = scores.len();
    let mut i: usize = 0;
    while i < n
        invariant
            i <= n,
            n == scores@.len(),
            sel.inv(),
            sel.k == k,
            sel.largest == false,
            sel.pushed@ == cands_of(scores@).take(i as int),
        decreases n - i,
    {
        proof {
            assert(cands_of(scores@).take(i + 1) =~= cands_of(scores@).take(i as int).push(
                (scores@[i as int], i),
            ));
        }
        sel.push(scores[i], i);
        i = i + 1;
    }
    proof {
        assert(cands_of(scores@).take(n as int) =~= cands_of(scores@));
    }
    let r = sel.drain_sorted();
    proof {
        broadcast use vstd::seq_lib::group_to_multiset_ensures;

        crate::selector::lemma_kept_len(cands_of(scores@), k as nat, false);
    }
    r
}

/// Chunked/unchunked equivalence: when the per-block scores of a batched
/// query flatten to exactly the scalar scores — identical stored data,
/// scored by the same metric — the batched and the scalar top-k return
/// identical ordered results.
pub proof fn lemma_query_paths_agree(
    r1: Seq<(u32, usize)>,
    r2: Seq<(u32, usize)>,
    scores: Seq<u32>,
    block_scores: Seq<Vec<u32>>,
    k: nat,
    largest: bool,
)
    requires
        flat_scores(block_scores) == scores,
        largest ==> sorted_desc(r1) && sorted_desc(r2),
        !largest ==> sorted_asc(r1) && sorted_asc(r2),
        r1.to_multiset() == kept_spec(cands_of(scores), k, largest),
        r2.to_multiset() == kept_spec(cands_of(flat_scores(block_scores)), k, largest),
    ensures
        r1 == r2,
{
    if largest {
        lemma_sorted_desc_unique(r1, r2);
    } else {
        lemma_sorted_asc_unique(r1, r2);
    }
}

/// Sealing invariant: a chunking table holding exactly `n * chunk_size`
/// vectors has an empty loose tail and exactly `n` sealed blocks (and, by
/// [`VectorTable::rows`], global id `i` is the `i`-th inserted vector).
pub proof fn lemma_sealing_invariant(t: VectorTable, n: nat)
    requires
        t.wf(),
        t.chunking_spec(),
        t.total_spec() == n * t.chunk_size_spec(),
    ensures
        t.loose_count() == 0,
        t.block_count() == n,
{
    t.lemma_row_accounting();
    let bc = t.block_count();
    let cs = t.chunk_size_spec();
    let lc = t.loose_count();
    assert(bc == n && lc == 0) by (nonlinear_arith)
        requires
            bc * cs + lc == n * cs,
            lc < cs,
            1 <= cs,
    ;
}

} // verus!
