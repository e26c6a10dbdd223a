//! Reed-Solomon encoding and decoding with a systematic Vandermonde-style
//! matrix: the first `k` rows are the identity, and row `k + q` holds the
//! powers `(q + 1)^j`.

use vstd::prelude::*;
use crate::erasure::field::{
    gf_mul, gf_pow, lemma_gf_mul_commutative, lemma_gf_mul_identity, ErasureError, GaloisField,
};
use crate::erasure::matrix::{
    dot_at, gf_sum, has_left_inverse, identity_entry, is_left_inverse, is_square, lemma_combine_rows,
    lemma_initial_row, lemma_left_inverse_recovers, lemma_scale_row, lemma_sum_ext,
    lemma_sum_single, lemma_xor_facts, row_consistent, right_half, swap_cols, scale_col, combine_col,
    lemma_identity_inverse, lemma_inverse_swap, lemma_inverse_scale, lemma_inverse_combine,
    lemma_stuck_column_singular,
};

verus! {

/// The views of a sequence of byte vectors.
pub open spec fn rows_view(v: Seq<Vec<u8>>) -> Seq<Seq<u8>> {
    v.map_values(|r: Vec<u8>| r@)
}

/// `rows_view` keeps the length and views each row.
pub proof fn lemma_rows_view(v: Seq<Vec<u8>>)
    ensures
        rows_view(v).len() == v.len(),
        forall|i: int| 0 <= i < v.len() ==> #[trigger] rows_view(v)[i] == v[i]@,
{
}

/// Entry `(i, j)` of the encoding matrix for `d` data shards.
pub open spec fn enc_entry(d: nat, i: int, j: int) -> u8 {
    if i < d {
        identity_entry(i, j)
    } else {
        gf_pow((i - d + 1) as u8, j as nat)
    }
}

/// Row `i` of the encoding matrix for `d` data shards.
pub open spec fn enc_row(d: nat, i: int) -> Seq<u8> {
    Seq::new(d, |j: int| enc_entry(d, i, j))
}

/// The encoding matrix: `total` rows of `d` entries.
pub open spec fn enc_matrix(d: nat, total: nat) -> Seq<Seq<u8>> {
    Seq::new(total, |i: int| enc_row(d, i))
}

/// Byte `i` of `data` padded with zeros.
pub open spec fn data_byte(data: Seq<u8>, i: int) -> u8 {
    if 0 <= i < data.len() { data[i] } else { 0 }
}

/// Size of each shard when `len` bytes are split into `d` shards.
pub open spec fn shard_size_for(len: nat, d: nat) -> nat {
    ((len + d - 1) / (d as int)) as nat
}

/// The data shards: `data` padded with zeros and cut into `d` shards of `sz` bytes.
pub open spec fn data_matrix(data: Seq<u8>, d: nat, sz: nat) -> Seq<Seq<u8>> {
    Seq::new(d, |i: int| Seq::new(sz, |b: int| data_byte(data, i * sz + b)))
}

/// Shard `i` of the encoding of `data`: row `i` of the encoding matrix times the data shards.
pub open spec fn coded_shard(d: nat, i: int, dm: Seq<Seq<u8>>, sz: nat) -> Seq<u8> {
    Seq::new(sz, |b: int| dot_at(enc_row(d, i), 0, dm, b, d))
}

/// The parity shards of `data` for `d` data and `p` parity shards.
pub open spec fn parity_matrix(data: Seq<u8>, d: nat, p: nat, sz: nat) -> Seq<Seq<u8>> {
    Seq::new(p, |q: int| coded_shard(d, d + q, data_matrix(data, d, sz), sz))
}

/// `s` is the encoding of `data` with `d` data and `p` parity shards.
pub open spec fn is_encoding_of(s: EncodedShards, data: Seq<u8>, d: nat, p: nat) -> bool {
    let sz = shard_size_for(data.len(), d);
    &&& s.shard_size == sz
    &&& s.original_size == data.len()
    &&& rows_view(s.data_shards@) == data_matrix(data, d, sz)
    &&& rows_view(s.parity_shards@) == parity_matrix(data, d, p, sz)
}

/// The first entries of `available` that index an existing shard
/// (`< all_len`), in order.
pub open spec fn valid_indices(available: Seq<usize>, all_len: nat) -> Seq<usize>
    decreases available.len(),
{
    if available.len() == 0 {
        Seq::empty()
    } else {
        let rest = valid_indices(available.drop_last(), all_len);
        if (available.last() as nat) < all_len {
            rest.push(available.last())
        } else {
            rest
        }
    }
}

/// The rows of the encoding matrix for the shards `sel`.
pub open spec fn selected_rows(d: nat, sel: Seq<usize>) -> Seq<Seq<u8>> {
    Seq::new(sel.len(), |s: int| enc_row(d, sel[s] as int))
}

/// The shards `sel` of `all`.
pub open spec fn selected_shards(all: Seq<Seq<u8>>, sel: Seq<usize>) -> Seq<Seq<u8>> {
    Seq::new(sel.len(), |s: int| all[sel[s] as int])
}

/// Rows `x[i] * y` for `i < d`, each `sz` bytes long.
pub open spec fn decoded_rows(x: Seq<Seq<u8>>, y: Seq<Seq<u8>>, d: nat, sz: nat) -> Seq<Seq<u8>> {
    Seq::new(d, |i: int| Seq::new(sz, |b: int| dot_at(x[i], 0, y, b, d)))
}

/// `v` cut to at most `len` bytes.
pub open spec fn truncated(v: Seq<u8>, len: nat) -> Seq<u8> {
    if len <= v.len() { v.take(len as int) } else { v }
}

/// Encoded data shards.
#[derive(Debug, Clone)]
pub struct EncodedShards {
    /// Data shards.
    pub data_shards: Vec<Vec<u8>>,
    /// Parity shards.
    pub parity_shards: Vec<Vec<u8>>,
    /// Shard size.
    pub shard_size: usize,
    /// Original data size.
    pub original_size: usize,
}

impl EncodedShards {
    /// All shards, data shards first, as byte sequences.
    pub open spec fn all_shards(&self) -> Seq<Seq<u8>> {
        rows_view(self.data_shards@) + rows_view(self.parity_shards@)
    }
}

/// Shard reconstruction information.
#[derive(Debug, Clone)]
pub struct ReconstructionInfo {
    /// Available shard indices.
    pub available_shards: Vec<usize>,
    /// Missing shard indices.
    pub missing_shards: Vec<usize>,
    /// Whether reconstruction is possible.
    pub can_reconstruct: bool,
}

/// The indices `0 <= i < total` that `available` does not hold, ascending.
/// Number of distinct shard indices below `total` that occur in `available`.
pub open spec fn present_count(available: Seq<usize>, total: nat) -> nat
    decreases total,
{
    if total == 0 {
        0
    } else {
        present_count(available, (total - 1) as nat) + (if available.contains((total - 1) as usize) { 1nat } else { 0nat })
    }
}

pub open spec fn missing_indices(available: Seq<usize>, total: nat) -> Seq<usize>
    decreases total,
{
    if total == 0 {
        Seq::empty()
    } else {
        let rest = missing_indices(available, (total - 1) as nat);
        if available.contains((total - 1) as usize) {
            rest
        } else {
            rest.push((total - 1) as usize)
        }
    }
}

/// Reed-Solomon erasure coding system.
#[derive(Debug)]
pub struct ErasureCoding {
    /// Galois field for operations.
    field: GaloisField,
    /// Number of data shards.
    data_shards: usize,
    /// Number of parity shards.
    parity_shards: usize,
    /// Total number of shards.
    total_shards: usize,
    /// Encoding matrix.
    encoding_matrix: Vec<Vec<u8>>,
}

/// What `ErasureCoding::new(data_shards, parity_shards)` refuses, if anything.
pub open spec fn coding_error(data_shards: nat, parity_shards: nat) -> Option<ErasureError> {
    if data_shards == 0 || parity_shards == 0 {
        Some(ErasureError::ZeroShards)
    } else if data_shards + parity_shards > 255 {
        Some(ErasureError::TooManyShards)
    } else {
        None
    }
}

impl ErasureCoding {
    #[verifier::type_invariant]
    closed spec fn wf(self) -> bool {
        &&& 0 < self.data_shards
        &&& 0 < self.parity_shards
        &&& self.total_shards == self.data_shards + self.parity_shards
        &&& self.total_shards <= 255
        &&& rows_view(self.encoding_matrix@) == enc_matrix(self.data_shards as nat, self.total_shards as nat)
    }

    /// Number of data shards.
    pub closed spec fn spec_data_shards(&self) -> nat {
        self.data_shards as nat
    }

    /// Number of parity shards.
    pub closed spec fn spec_parity_shards(&self) -> nat {
        self.parity_shards as nat
    }

    /// Create a new Reed-Solomon encoder/decoder.
    pub fn new(data_shards: usize, parity_shards: usize) -> (res: Result<ErasureCoding, ErasureError>)
        ensures
            coding_error(data_shards as nat, parity_shards as nat) matches Some(e) ==> res == Err::<ErasureCoding, ErasureError>(e),
            coding_error(data_shards as nat, parity_shards as nat) is None ==> (res matches Ok(ec)
                && ec.spec_data_shards() == data_shards && ec.spec_parity_shards() == parity_shards),
    {
        if data_shards == 0 || parity_shards == 0 {
            return Err(ErasureError::ZeroShards);
        }
        if data_shards > 255 || parity_shards > 255 - data_shards {
            return Err(ErasureError::TooManyShards);
        }
        let field = GaloisField::new();
        let total_shards = data_shards + parity_shards;
        let encoding_matrix = match Self::build_vandermonde_matrix(&field, data_shards, total_shards) {
            Ok(m) => m,
            Err(e) => return Err(e),
        };
        Ok(ErasureCoding { field, data_shards, parity_shards, total_shards, encoding_matrix })
    }

    /// Build the encoding matrix: identity rows, then rows of powers.
    fn build_vandermonde_matrix(field: &GaloisField, data_shards: usize, total_shards: usize) -> (res: Result<Vec<Vec<u8>>, ErasureError>)
        requires
            0 < data_shards <= total_shards <= 255,
        ensures
            res matches Ok(m) && rows_view(m@) == enc_matrix(data_shards as nat, total_shards as nat),
    {
        let mut matrix: Vec<Vec<u8>> = Vec::new();
        let ghost d = data_shards as nat;
        for i in 0..total_shards
            invariant
                d == data_shards,
                0 < data_shards <= total_shards <= 255,
                matrix@.len() == i,
                forall|r: int| 0 <= r < i ==> #[trigger] matrix@[r]@ == enc_row(d, r),
        {
            let mut row: Vec<u8> = Vec::new();
            for j in 0..data_shards
                invariant
                    d == data_shards,
                    0 < data_shards <= total_shards <= 255,
                    i < total_shards,
                    row@.len() == j,
                    forall|c: int| 0 <= c < j ==> #[trigger] row@[c] == enc_entry(d, i as int, c),
            {
                if i < data_shards {
                    row.push(if i == j { 1u8 } else { 0u8 });
                } else {
                    let v = field.power((i - data_shards + 1) as u8, j as u8);
                    row.push(v);
                }
            }
            assert(row@ == enc_row(d, i as int));
            matrix.push(row);
        }
        proof { lemma_rows_view(matrix@); }
        assert(rows_view(matrix@) == enc_matrix(d, total_shards as nat));
        Ok(matrix)
    }

    /// Encode `data` into data and parity shards.
    pub fn encode(&self, data: &[u8]) -> (res: Result<EncodedShards, ErasureError>)
        requires
            data@.len() + self.spec_data_shards() <= usize::MAX,
        ensures
            data@.len() == 0 ==> res == Err::<EncodedShards, ErasureError>(ErasureError::EmptyData),
            data@.len() > 0 ==> (res matches Ok(s)
                && is_encoding_of(s, data@, self.spec_data_shards(), self.spec_parity_shards())),
    {
        proof { use_type_invariant(self); }
        if data.len() == 0 {
            return Err(ErasureError::EmptyData);
        }
        let d = self.data_shards;
        let shard_size = (data.len() + d - 1) / d;
        let ghost sz = shard_size as nat;
        let ghost dn = d as nat;
        proof {
            let total = (data.len() + d - 1) as int;
            vstd::arithmetic::div_mod::lemma_fundamental_div_mod(total, d as int);
            vstd::arithmetic::div_mod::lemma_mod_pos_bound(total, d as int);
            let rem = total % (d as int);
            assert((shard_size as int) * (d as int) <= total) by (nonlinear_arith)
                requires total == (d as int) * (shard_size as int) + rem, rem >= 0;
            lemma_rows_view(self.encoding_matrix@);
        }
        let mut data_shards: Vec<Vec<u8>> = Vec::new();
        for i in 0..d
            invariant
                d == self.data_shards,
                dn == d,
                sz == shard_size,
                shard_size * d <= data.len() + d - 1,
                data.len() + d - 1 <= usize::MAX,
                data_shards@.len() == i,
                forall|r: int| 0 <= r < i ==> #[trigger] data_shards@[r]@ == data_matrix(data@, dn, sz)[r],
        {
            let mut shard: Vec<u8> = Vec::new();
            proof {
                assert(i * shard_size + shard_size <= shard_size * d) by (nonlinear_arith)
                    requires i < d;
            }
            let start = i * shard_size;
            for b in 0..shard_size
                invariant
                    d == self.data_shards,
                    i < d,
                    start == i * shard_size,
                    start + shard_size <= usize::MAX,
                    sz == shard_size,
                    shard@.len() == b,
                    forall|c: int| 0 <= c < b ==> #[trigger] shard@[c] == data_byte(data@, i * sz + c),
            {
                let pos = start + b;
                let byte = if pos < data.len() { data[pos] } else { 0u8 };
                assert(byte == data_byte(data@, i * sz + b));
                shard.push(byte);
            }
            assert(shard@ == data_matrix(data@, dn, sz)[i as int]);
            data_shards.push(shard);
        }
        let ghost dm = data_matrix(data@, dn, sz);
        proof { lemma_rows_view(data_shards@); }
        assert(rows_view(data_shards@) == dm);
        let mut parity_shards: Vec<Vec<u8>> = Vec::new();
        for q in 0..self.parity_shards
            invariant
                d == self.data_shards,
                dn == d,
                sz == shard_size,
                self.total_shards == d + self.parity_shards,
                rows_view(self.encoding_matrix@) == enc_matrix(dn, self.total_shards as nat),
                rows_view(data_shards@) == dm,
                dm == data_matrix(data@, dn, sz),
                parity_shards@.len() == q,
                forall|r: int| 0 <= r < q ==> #[trigger] parity_shards@[r]@ == coded_shard(dn, dn + r, dm, sz),
        {
            proof { lemma_rows_view(self.encoding_matrix@); lemma_rows_view(data_shards@); }
            let row = &self.encoding_matrix[d + q];
            assert(rows_view(self.encoding_matrix@)[(d + q) as int] == row@);
            assert(row@ == enc_row(dn, (d + q) as int));
            let mut shard: Vec<u8> = Vec::new();
            for b in 0..shard_size
                invariant
                    d == self.data_shards,
                    dn == d,
                    sz == shard_size,
                    row@ == enc_row(dn, (d + q) as int),
                    rows_view(data_shards@) == dm,
                    dm == data_matrix(data@, dn, sz),
                    shard@.len() == b,
                    forall|c: int| 0 <= c < b ==> #[trigger] shard@[c] == dot_at(row@, 0, dm, c, dn),
            {
                let mut acc: u8 = 0;
                for j in 0..d
                    invariant
                        d == self.data_shards,
                        dn == d,
                        sz == shard_size,
                        b < shard_size,
                        row@ == enc_row(dn, (d + q) as int),
                        rows_view(data_shards@) == dm,
                        dm == data_matrix(data@, dn, sz),
                        acc == gf_sum(|t: int| gf_mul(row@[0 + t], dm[t][b as int]), j as nat),
                {
                    proof { lemma_rows_view(data_shards@); }
                    assert(rows_view(data_shards@)[j as int] == data_shards@[j as int]@);
                    assert(data_shards@[j as int]@ == dm[j as int]);
                    let product = self.field.multiply(row[j], data_shards[j][b]);
                    acc = self.field.add(acc, product);
                }
                shard.push(acc);
            }
            assert(shard@ == coded_shard(dn, dn + q, dm, sz));
            parity_shards.push(shard);
        }
        proof { lemma_rows_view(parity_shards@); }
        assert(rows_view(parity_shards@) == parity_matrix(data@, dn, self.parity_shards as nat, sz));
        Ok(EncodedShards { data_shards, parity_shards, shard_size, original_size: data.len() })
    }

    /// Invert a square matrix over the field by Gauss-Jordan elimination.
    #[verifier::rlimit(50)]
    fn invert_matrix(&self, matrix: &Vec<Vec<u8>>) -> (res: Result<Vec<Vec<u8>>, ErasureError>)
        requires
            0 < matrix@.len() <= 255,
            forall|r: int| 0 <= r < matrix@.len() ==> #[trigger] matrix@[r]@.len() == matrix@[0]@.len(),
        ensures
            matrix@[0]@.len() != matrix@.len() ==> res == Err::<Vec<Vec<u8>>, ErasureError>(ErasureError::NotSquare),
            res matches Ok(inv) ==> is_left_inverse(rows_view(inv@), rows_view(matrix@), matrix@.len() as nat),
            res matches Err(e) ==> (e == ErasureError::NotSquare && matrix@[0]@.len() != matrix@.len())
                || (e == ErasureError::NotInvertible && !has_left_inverse(rows_view(matrix@), matrix@.len() as nat)),
    {
        let size = matrix.len();
        if size != matrix[0].len() {
            return Err(ErasureError::NotSquare);
        }
        let ghost n = size as nat;
        let ghost m = rows_view(matrix@);
        proof { lemma_rows_view(matrix@); }
        assert(is_square(m, n));
        let mut aug: Vec<Vec<u8>> = Vec::new();
        for i in 0..size
            invariant
                n == size,
                matrix@[0]@.len() == n,
                matrix@.len() == n,
                size <= 255,
                m == rows_view(matrix@),
                is_square(m, n),
                aug@.len() == i,
                forall|r: int| 0 <= r < i ==> #[trigger] row_consistent(aug@[r]@, m, n),
                forall|r: int, t: int| 0 <= r < i && 0 <= t < n ==> #[trigger] aug@[r]@[n + t] == identity_entry(r, t),
        {
            let mut row: Vec<u8> = Vec::new();
            assert(m[i as int] == matrix@[i as int]@);
            for j in 0..size
                invariant
                    n == size,
                    matrix@[0]@.len() == n,
                    matrix@.len() == n,
                    i < size,
                    m == rows_view(matrix@),
                    is_square(m, n),
                    row@.len() == j,
                    forall|c: int| 0 <= c < j ==> #[trigger] row@[c] == m[i as int][c],
            {
                assert(m[i as int] == matrix@[i as int]@);
                row.push(matrix[i][j]);
            }
            for j in 0..size
                invariant
                    n == size,
                    matrix@[0]@.len() == n,
                    matrix@.len() == n,
                    i < size,
                    row@.len() == size + j,
                    forall|c: int| 0 <= c < size ==> #[trigger] row@[c] == m[i as int][c],
                    forall|t: int| 0 <= t < j ==> #[trigger] row@[size + t] == identity_entry(i as int, t),
            {
                row.push(if i == j { 1u8 } else { 0u8 });
            }
            proof { lemma_initial_row(row@, m, n, i as int); }
            aug.push(row);
        }
        let ghost mut fi = right_half(rows_view(aug@), n);
        proof {
            lemma_right_half(aug@, n);
            lemma_identity_inverse(fi, n);
        }
        let mut i: usize = 0;
        while i < size
            invariant
                n == size,
                matrix@[0]@.len() == n,
                matrix@.len() == n,
                size <= 255,
                i <= size,
                matrix@[0]@.len() == n,
                matrix@.len() == n,
                m == rows_view(matrix@),
                is_square(m, n),
                aug@.len() == n,
                forall|r: int| 0 <= r < n ==> #[trigger] row_consistent(aug@[r]@, m, n),
                forall|r: int, c: int| 0 <= r < n && 0 <= c < i ==> #[trigger] aug@[r]@[c] == identity_entry(r, c),
                is_left_inverse(fi, right_half(rows_view(aug@), n), n),
            decreases size - i,
        {
            // Find a pivot: the first later row with a non-zero entry in column i.
            let mut pivot_row = i;
            let mut found = false;
            let mut k = i + 1;
            while k < size && !found
                invariant
                    n == size,
                    matrix@[0]@.len() == n,
                    matrix@.len() == n,
                    i < size,
                    i + 1 <= k <= size,
                    aug@.len() == n,
                    forall|r: int| 0 <= r < n ==> #[trigger] row_consistent(aug@[r]@, m, n),
                    found ==> i < pivot_row < size && aug@[pivot_row as int]@[i as int] != 0,
                    !found ==> pivot_row == i,
                    !found ==> forall|r: int| i < r < k ==> #[trigger] aug@[r]@[i as int] == 0,
                    is_left_inverse(fi, right_half(rows_view(aug@), n), n),
                decreases size - k + (if found { 0int } else { 1int }),
            {
                assert(row_consistent(aug@[k as int]@, m, n));
                if aug[k][i] != 0 {
                    pivot_row = k;
                    found = true;
                } else {
                    k += 1;
                }
            }
            assert(row_consistent(aug@[pivot_row as int]@, m, n));
            if aug[pivot_row][i] == 0 {
                proof {
                    lemma_rows_view(aug@);
                    assert forall|r: int| 0 <= r < n implies #[trigger] row_consistent(rows_view(aug@)[r], m, n) by {
                        assert(row_consistent(aug@[r]@, m, n));
                    }
                    assert forall|r: int| i <= r < n implies #[trigger] rows_view(aug@)[r][i as int] == 0 by {}
                    lemma_stuck_column_singular(rows_view(aug@), m, fi, n, i as int);
                }
                return Err(ErasureError::NotInvertible);
            }
            if pivot_row != i {
                let ghost before = aug@;
                let mut tmp: Vec<u8> = Vec::new();
                aug.set_and_swap(i, &mut tmp);
                aug.set_and_swap(pivot_row, &mut tmp);
                aug.set_and_swap(i, &mut tmp);
                assert(aug@ == before.update(i as int, before[pivot_row as int]).update(pivot_row as int, before[i as int]));
                proof {
                    let e = right_half(rows_view(before), n);
                    lemma_right_half(before, n);
                    lemma_right_half(aug@, n);
                    assert(right_half(rows_view(aug@), n) =~= e.update(i as int, e[pivot_row as int]).update(pivot_row as int, e[i as int]));
                    lemma_inverse_swap(fi, e, right_half(rows_view(aug@), n), n, i as int, pivot_row as int);
                    fi = swap_cols(fi, i as int, pivot_row as int);
                }
                assert forall|r: int, c: int| 0 <= r < n && 0 <= c < i implies #[trigger] aug@[r]@[c] == identity_entry(r, c) by {
                    if r == i {
                        assert(before[pivot_row as int]@[c] == identity_entry(pivot_row as int, c));
                    } else if r == pivot_row {
                        assert(before[i as int]@[c] == identity_entry(i as int, c));
                    } else {
                        assert(before[r]@[c] == identity_entry(r, c));
                    }
                }
                assert forall|r: int| 0 <= r < n implies #[trigger] row_consistent(aug@[r]@, m, n) by {
                    if r == i {
                        assert(row_consistent(before[pivot_row as int]@, m, n));
                    } else if r == pivot_row {
                        assert(row_consistent(before[i as int]@, m, n));
                    } else {
                        assert(row_consistent(before[r]@, m, n));
                    }
                }
            }
            assert(row_consistent(aug@[i as int]@, m, n));
            let pivot = aug[i][i];
            let inv_pivot = match self.field.inverse(pivot) {
                Ok(v) => v,
                Err(e) => return Err(e),
            };
            // Scale the pivot row so that the pivot becomes 1.
            let mut scaled: Vec<u8> = Vec::new();
            for j in 0..2 * size
                invariant
                    n == size,
                    matrix@[0]@.len() == n,
                    matrix@.len() == n,
                    i < size,
                    aug@.len() == n,
                    row_consistent(aug@[i as int]@, m, n),
                    scaled@.len() == j,
                    is_left_inverse(fi, right_half(rows_view(aug@), n), n),
                    forall|c: int| 0 <= c < j ==> #[trigger] scaled@[c] == gf_mul(aug@[i as int]@[c], inv_pivot),
            {
                scaled.push(self.field.multiply(aug[i][j], inv_pivot));
            }
            proof {
                lemma_scale_row(aug@[i as int]@, scaled@, inv_pivot, m, n);
                assert forall|c: int| 0 <= c < i implies #[trigger] scaled@[c] == identity_entry(i as int, c) by {
                    assert(aug@[i as int]@[c] == identity_entry(i as int, c));
                    lemma_gf_mul_identity(inv_pivot);
                }
            }
            let ghost before_scale = aug@;
            aug.set(i, scaled);
            proof {
                lemma_right_half(before_scale, n);
                lemma_right_half(aug@, n);
                lemma_gf_mul_commutative(pivot, inv_pivot);
                lemma_inverse_scale(fi, right_half(rows_view(before_scale), n), right_half(rows_view(aug@), n), n, i as int, inv_pivot, pivot);
                fi = scale_col(fi, i as int, pivot);
            }
            assert forall|r: int, c: int| 0 <= r < n && 0 <= c < i implies #[trigger] aug@[r]@[c] == identity_entry(r, c) by {
                if r != i {
                    assert(before_scale[r]@[c] == identity_entry(r, c));
                }
            }
            assert forall|r: int| 0 <= r < n implies #[trigger] row_consistent(aug@[r]@, m, n) by {
                if r != i {
                    assert(row_consistent(before_scale[r]@, m, n));
                }
            }
            let ghost prow = aug@[i as int]@;
            assert(prow[i as int] == 1);
            // Clear column i in every other row.
            for k in 0..size
                invariant
                    n == size,
                    matrix@[0]@.len() == n,
                    matrix@.len() == n,
                    size <= 255,
                    i < size,
                    aug@.len() == n,
                    aug@[i as int]@ == prow,
                    prow[i as int] == 1,
                    forall|r: int| 0 <= r < n ==> #[trigger] row_consistent(aug@[r]@, m, n),
                    forall|r: int, c: int| 0 <= r < n && 0 <= c < i ==> #[trigger] aug@[r]@[c] == identity_entry(r, c),
                    forall|r: int| 0 <= r < k && r != i ==> #[trigger] aug@[r]@[i as int] == 0,
                    is_left_inverse(fi, right_half(rows_view(aug@), n), n),
            {
                assert(row_consistent(aug@[k as int]@, m, n));
                if k != i && aug[k][i] != 0 {
                    let factor = aug[k][i];
                    let mut reduced: Vec<u8> = Vec::new();
                    for j in 0..2 * size
                        invariant
                            n == size,
                            matrix@[0]@.len() == n,
                            matrix@.len() == n,
                            i < size,
                            k < size,
                            aug@.len() == n,
                            aug@[i as int]@ == prow,
                            row_consistent(aug@[k as int]@, m, n),
                            row_consistent(prow, m, n),
                            reduced@.len() == j,
                            is_left_inverse(fi, right_half(rows_view(aug@), n), n),
                            forall|c: int| 0 <= c < j ==> #[trigger] reduced@[c] == aug@[k as int]@[c] ^ gf_mul(factor, prow[c]),
                    {
                        let product = self.field.multiply(factor, aug[i][j]);
                        reduced.push(self.field.subtract(aug[k][j], product));
                    }
                    proof {
                        lemma_combine_rows(aug@[k as int]@, prow, reduced@, factor, m, n);
                        assert forall|c: int| 0 <= c < i implies #[trigger] reduced@[c] == identity_entry(k as int, c) by {
                            assert(prow[c] == identity_entry(i as int, c));
                            assert(aug@[k as int]@[c] == identity_entry(k as int, c));
                            lemma_gf_mul_identity(factor);
                            lemma_xor_facts(aug@[k as int]@[c], 0, 0, 0);
                        }
                        lemma_gf_mul_identity(factor);
                        lemma_xor_facts(factor, 0, 0, 0);
                        assert(reduced@[i as int] == 0);
                    }
                    let ghost before_reduce = aug@;
                    aug.set(k, reduced);
                    proof {
                        lemma_right_half(before_reduce, n);
                        lemma_right_half(aug@, n);
                        lemma_inverse_combine(fi, right_half(rows_view(before_reduce), n), right_half(rows_view(aug@), n), n, i as int, k as int, factor);
                        fi = combine_col(fi, i as int, k as int, factor);
                    }
                    assert forall|r: int, c: int| 0 <= r < n && 0 <= c < i implies #[trigger] aug@[r]@[c] == identity_entry(r, c) by {
                        if r != k {
                            assert(before_reduce[r]@[c] == identity_entry(r, c));
                        }
                    }
                    assert forall|r: int| 0 <= r < n implies #[trigger] row_consistent(aug@[r]@, m, n) by {
                        if r != k {
                            assert(row_consistent(before_reduce[r]@, m, n));
                        }
                    }
                    assert forall|r: int| 0 <= r < k + 1 && r != i implies #[trigger] aug@[r]@[i as int] == 0 by {
                        if r != k {
                            assert(before_reduce[r]@[i as int] == 0);
                        }
                    }
                }
            }
            assert forall|r: int, c: int| 0 <= r < n && 0 <= c < i + 1 implies #[trigger] aug@[r]@[c] == identity_entry(r, c) by {
                if c == i && r != i {
                    assert(aug@[r]@[i as int] == 0);
                }
            }
            i += 1;
        }
        let mut inverse: Vec<Vec<u8>> = Vec::new();
        for r in 0..size
            invariant
                n == size,
                matrix@[0]@.len() == n,
                matrix@.len() == n,
                size <= 255,
                aug@.len() == n,
                is_square(m, n),
                forall|q: int| 0 <= q < n ==> #[trigger] row_consistent(aug@[q]@, m, n),
                forall|q: int, c: int| 0 <= q < n && 0 <= c < n ==> #[trigger] aug@[q]@[c] == identity_entry(q, c),
                inverse@.len() == r,
                forall|q: int| 0 <= q < r ==> #[trigger] inverse@[q]@.len() == n,
                forall|q: int, c: int| 0 <= q < r && 0 <= c < n ==> #[trigger] dot_at(inverse@[q]@, 0, m, c, n) == identity_entry(q, c),
        {
            let mut row: Vec<u8> = Vec::new();
            assert(row_consistent(aug@[r as int]@, m, n));
            for c in 0..size
                invariant
                    n == size,
                    matrix@[0]@.len() == n,
                    matrix@.len() == n,
                    size <= 255,
                    r < size,
                    aug@.len() == n,
                    row_consistent(aug@[r as int]@, m, n),
                    row@.len() == c,
                    forall|t: int| 0 <= t < c ==> #[trigger] row@[t] == aug@[r as int]@[n + t],
            {
                row.push(aug[r][c + size]);
            }
            proof {
                assert forall|c: int| 0 <= c < n implies #[trigger] dot_at(row@, 0, m, c, n) == identity_entry(r as int, c) by {
                    lemma_sum_ext(
                        |t: int| gf_mul(row@[0 + t], m[t][c]),
                        |t: int| gf_mul(aug@[r as int]@[n + t], m[t][c]),
                        n,
                    );
                    assert(aug@[r as int]@[c] == identity_entry(r as int, c));
                }
            }
            inverse.push(row);
        }
        proof { lemma_rows_view(inverse@); }
        assert(is_left_inverse(rows_view(inverse@), m, n));
        Ok(inverse)
    }

    /// The shards that `decode` uses: the first `k` available indices that
    /// name an existing shard.
    pub open spec fn decode_selection(&self, shards: EncodedShards, available: Seq<usize>) -> Seq<usize> {
        valid_indices(available.take(self.spec_data_shards() as int), shards.all_shards().len())
    }

    /// Decode data from the shards at `available_indices`.
    pub fn decode(&self, shards: &EncodedShards, available_indices: &[usize]) -> (res: Result<Vec<u8>, ErasureError>)
        requires
            shards.data_shards@.len() + shards.parity_shards@.len() <= usize::MAX,
            available_indices@.len() >= self.spec_data_shards() ==> forall|s: int|
                0 <= s < self.decode_selection(*shards, available_indices@).len()
                ==> #[trigger] self.decode_selection(*shards, available_indices@)[s]
                    < self.spec_data_shards() + self.spec_parity_shards(),
            ({
                let sel = self.decode_selection(*shards, available_indices@);
                let d = self.spec_data_shards();
                available_indices@.len() >= d && sel.len() == d && has_left_inverse(selected_rows(d, sel), d)
                ==> forall|s: int| 0 <= s < d ==> #[trigger] shards.all_shards()[sel[s] as int].len() >= shards.shard_size
            }),
        ensures
            available_indices@.len() < self.spec_data_shards() ==> res == Err::<Vec<u8>, ErasureError>(ErasureError::InsufficientShards),
            ({
                let sel = self.decode_selection(*shards, available_indices@);
                let d = self.spec_data_shards();
                available_indices@.len() >= d ==> {
                    &&& sel.len() < d ==> res == Err::<Vec<u8>, ErasureError>(ErasureError::NotEnoughValidShards)
                    &&& sel.len() >= d ==> (res matches Ok(v) ==> exists|x: Seq<Seq<u8>>| {
                        &&& is_left_inverse(x, selected_rows(d, sel), d)
                        &&& v@ == truncated(
                            decoded_rows(x, selected_shards(shards.all_shards(), sel), d, shards.shard_size as nat).flatten(),
                            shards.original_size as nat,
                        )
                    })
                    &&& sel.len() >= d ==> (res matches Err(e) ==> e == ErasureError::NotInvertible
                        && !has_left_inverse(selected_rows(d, sel), d))
                }
            }),
    {
        proof { use_type_invariant(self); }
        let d = self.data_shards;
        if available_indices.len() < d {
            return Err(ErasureError::InsufficientShards);
        }
        let ghost dn = d as nat;
        let shard_size = shards.shard_size;
        let data_len = shards.data_shards.len();
        let all_len = data_len + shards.parity_shards.len();
        let ghost all = shards.all_shards();
        proof {
            lemma_rows_view(shards.data_shards@);
            lemma_rows_view(shards.parity_shards@);
            lemma_rows_view(self.encoding_matrix@);
        }
        assert(all.len() == all_len);
        let ghost avail = available_indices@.take(d as int);
        let mut sel: Vec<usize> = Vec::new();
        let mut rmatrix: Vec<Vec<u8>> = Vec::new();
        for t in 0..d
            invariant
                d == self.data_shards,
                dn == d,
                d <= available_indices@.len(),
                avail == available_indices@.take(d as int),
                all_len == all.len(),
                self.total_shards == d + self.parity_shards,
                0 < d,
                self.total_shards <= 255,
                self.encoding_matrix@.len() == self.total_shards,
                rows_view(self.encoding_matrix@) == enc_matrix(dn, self.total_shards as nat),
                forall|s: int| 0 <= s < valid_indices(avail, all_len as nat).len()
                    ==> #[trigger] valid_indices(avail, all_len as nat)[s] < self.total_shards,
                sel@ == valid_indices(available_indices@.take(t as int), all_len as nat),
                rmatrix@.len() == sel@.len(),
                forall|s: int| 0 <= s < sel@.len() ==> #[trigger] rmatrix@[s]@ == enc_row(dn, sel@[s] as int),
        {
            let idx = available_indices[t];
            assert(available_indices@.take(t + 1).drop_last() == available_indices@.take(t as int));
            proof { lemma_valid_indices_prefix(avail, all_len as nat, (t + 1) as nat); }
            assert(avail.take(t + 1) == available_indices@.take(t + 1));
            if idx < all_len {
                assert(valid_indices(available_indices@.take(t + 1), all_len as nat) == sel@.push(idx));
                assert(idx < self.total_shards) by {
                    let k = (sel@.len()) as int;
                    assert(valid_indices(avail.take(t + 1), all_len as nat)[k] == idx);
                };
                sel.push(idx);
                proof { lemma_rows_view(self.encoding_matrix@); }
                assert(rows_view(self.encoding_matrix@)[idx as int] == self.encoding_matrix@[idx as int]@);
                let row = copy_row(&self.encoding_matrix[idx]);
                rmatrix.push(row);
            }
        }
        assert(available_indices@.take(d as int) == avail);
        proof { lemma_valid_indices_bounds(avail, all_len as nat); }
        if sel.len() < d {
            return Err(ErasureError::NotEnoughValidShards);
        }
        let ghost r = selected_rows(dn, sel@);
        proof { lemma_rows_view(rmatrix@); }
        assert(rows_view(rmatrix@) == r);
        let inverted = match self.invert_matrix(&rmatrix) {
            Ok(m) => m,
            Err(e) => return Err(e),
        };
        let ghost x = rows_view(inverted@);
        proof { lemma_rows_view(inverted@); }
        assert(has_left_inverse(r, dn));
        let ghost y = selected_shards(all, sel@);
        let mut result: Vec<u8> = Vec::new();
        for i in 0..d
            invariant
                d == self.data_shards,
                dn == d,
                sel@.len() == d,
                is_left_inverse(x, r, dn),
                x == rows_view(inverted@),
                all == shards.all_shards(),
                data_len == shards.data_shards@.len(),
                all_len == all.len(),
                shard_size == shards.shard_size,
                y == selected_shards(all, sel@),
                forall|s: int| 0 <= s < d ==> #[trigger] sel@[s] < all_len,
                forall|s: int| 0 <= s < d ==> #[trigger] all[sel@[s] as int].len() >= shard_size,
                result@ == decoded_rows(x, y, dn, shard_size as nat).take(i as int).flatten(),
        {
            let ghost before = result@;
            assert(inverted@[i as int]@ == x[i as int]);
            for b in 0..shard_size
                invariant
                    d == self.data_shards,
                    dn == d,
                    i < d,
                    sel@.len() == d,
                    is_left_inverse(x, r, dn),
                    x == rows_view(inverted@),
                    all == shards.all_shards(),
                    data_len == shards.data_shards@.len(),
                    all_len == all.len(),
                    shard_size == shards.shard_size,
                    y == selected_shards(all, sel@),
                    forall|s: int| 0 <= s < d ==> #[trigger] sel@[s] < all_len,
                    forall|s: int| 0 <= s < d ==> #[trigger] all[sel@[s] as int].len() >= shard_size,
                    result@ == before + decoded_rows(x, y, dn, shard_size as nat)[i as int].take(b as int),
            {
                let mut acc: u8 = 0;
                for s in 0..d
                    invariant
                        d == self.data_shards,
                        dn == d,
                        i < d,
                        b < shard_size,
                        sel@.len() == d,
                        x == rows_view(inverted@),
                        is_left_inverse(x, r, dn),
                        all == shards.all_shards(),
                        data_len == shards.data_shards@.len(),
                        all_len == all.len(),
                        shard_size == shards.shard_size,
                        y == selected_shards(all, sel@),
                        forall|s2: int| 0 <= s2 < d ==> #[trigger] sel@[s2] < all_len,
                        forall|s2: int| 0 <= s2 < d ==> #[trigger] all[sel@[s2] as int].len() >= shard_size,
                        acc == gf_sum(|t: int| gf_mul(x[i as int][0 + t], y[t][b as int]), s as nat),
                {
                    let idx = sel[s];
                    let byte = if idx < data_len {
                        assert(all[idx as int] == shards.data_shards@[idx as int]@);
                        shards.data_shards[idx][b]
                    } else {
                        assert(all[idx as int] == shards.parity_shards@[idx - data_len]@);
                        shards.parity_shards[idx - data_len][b]
                    };
                    assert(byte == y[s as int][b as int]);
                    assert(inverted@[i as int]@[s as int] == x[i as int][s as int]);
                    let product = self.field.multiply(inverted[i][s], byte);
                    acc = self.field.add(acc, product);
                }
                result.push(acc);
                assert(decoded_rows(x, y, dn, shard_size as nat)[i as int].take(b + 1)
                    == decoded_rows(x, y, dn, shard_size as nat)[i as int].take(b as int).push(acc));
            }
            assert(decoded_rows(x, y, dn, shard_size as nat)[i as int].take(shard_size as int)
                == decoded_rows(x, y, dn, shard_size as nat)[i as int]);
            assert(decoded_rows(x, y, dn, shard_size as nat).take(i + 1)
                == decoded_rows(x, y, dn, shard_size as nat).take(i as int).push(decoded_rows(x, y, dn, shard_size as nat)[i as int]));
            proof {
                decoded_rows(x, y, dn, shard_size as nat).take(i as int).lemma_flatten_push(decoded_rows(x, y, dn, shard_size as nat)[i as int]);
            }
        }
        assert(decoded_rows(x, y, dn, shard_size as nat).take(d as int) == decoded_rows(x, y, dn, shard_size as nat));
        let ghost full = result@;
        result.truncate(shards.original_size);
        assert(result@ == truncated(full, shards.original_size as nat));
        Ok(result)
    }

    /// Whether the shards of `shards` are those of the encoding of
    /// `original_data`: the same data shards and the same parity shards
    /// (the recorded sizes are not compared).
    pub fn verify_integrity(&self, original_data: &[u8], shards: &EncodedShards) -> (res: Result<bool, ErasureError>)
        requires
            original_data@.len() + self.spec_data_shards() <= usize::MAX,
        ensures
            original_data@.len() == 0 ==> res == Err::<bool, ErasureError>(ErasureError::EmptyData),
            original_data@.len() > 0 ==> (res matches Ok(b) && b == ({
                let sz = shard_size_for(original_data@.len(), self.spec_data_shards());
                &&& rows_view(shards.data_shards@) == data_matrix(original_data@, self.spec_data_shards(), sz)
                &&& rows_view(shards.parity_shards@)
                    == parity_matrix(original_data@, self.spec_data_shards(), self.spec_parity_shards(), sz)
            })),
    {
        let re_encoded = match self.encode(original_data) {
            Ok(s) => s,
            Err(e) => return Err(e),
        };
        proof {
            lemma_rows_view(re_encoded.data_shards@);
            lemma_rows_view(re_encoded.parity_shards@);
            lemma_rows_view(shards.data_shards@);
            lemma_rows_view(shards.parity_shards@);
        }
        if re_encoded.data_shards.len() != shards.data_shards.len() {
            return Ok(false);
        }
        if re_encoded.parity_shards.len() != shards.parity_shards.len() {
            return Ok(false);
        }
        let same_data = rows_equal(&re_encoded.data_shards, &shards.data_shards);
        if !same_data {
            return Ok(false);
        }
        let same_parity = rows_equal(&re_encoded.parity_shards, &shards.parity_shards);
        if !same_parity {
            return Ok(false);
        }
        Ok(true)
    }

    /// Whether the data can be reconstructed from `available_shards`: at
    /// least as many distinct valid shard indices (below the total number
    /// of shards) are available as there are data shards.
    pub fn can_reconstruct(&self, available_shards: &[usize]) -> (b: bool)
        ensures
            b == (present_count(available_shards@, self.spec_data_shards() + self.spec_parity_shards())
                >= self.spec_data_shards()),
    {
        proof { use_type_invariant(self); }
        let mut count: usize = 0;
        for i in 0..self.total_shards
            invariant
                self.total_shards <= 255,
                count == present_count(available_shards@, i as nat),
                count <= i,
        {
            if contains_index(available_shards, i) {
                count = count + 1;
            }
            assert(((i + 1) as nat - 1) as usize == i);
        }
        count >= self.data_shards
    }

    /// Which shards are missing and whether reconstruction is possible.
    pub fn get_reconstruction_info(&self, available_shards: &[usize]) -> (info: ReconstructionInfo)
        ensures
            info.available_shards@ == available_shards@,
            info.missing_shards@ == missing_indices(available_shards@, self.spec_data_shards() + self.spec_parity_shards()),
            info.can_reconstruct == (present_count(available_shards@, self.spec_data_shards() + self.spec_parity_shards())
                >= self.spec_data_shards()),
    {
        proof { use_type_invariant(self); }
        let mut missing_shards: Vec<usize> = Vec::new();
        for i in 0..self.total_shards
            invariant
                self.total_shards <= 255,
                missing_shards@ == missing_indices(available_shards@, i as nat),
        {
            if !contains_index(available_shards, i) {
                missing_shards.push(i);
            }
            assert(((i + 1) as nat - 1) as usize == i);
        }
        let mut available: Vec<usize> = Vec::new();
        for j in 0..available_shards.len()
            invariant
                available@ == available_shards@.take(j as int),
        {
            available.push(available_shards[j]);
            assert(available_shards@.take(j + 1) == available_shards@.take(j as int).push(available_shards@[j as int]));
        }
        assert(available_shards@.take(available_shards.len() as int) == available_shards@);
        ReconstructionInfo {
            available_shards: available,
            missing_shards,
            can_reconstruct: self.can_reconstruct(available_shards),
        }
    }

    /// The number of data and parity shards.
    pub fn get_config(&self) -> (c: (usize, usize))
        ensures
            c.0 == self.spec_data_shards(),
            c.1 == self.spec_parity_shards(),
    {
        (self.data_shards, self.parity_shards)
    }
}

/// The right half of the augmented rows `a`, entry by entry.
proof fn lemma_right_half(a: Seq<Vec<u8>>, n: nat)
    requires
        a.len() == n,
    ensures
        is_square(right_half(rows_view(a), n), n),
        forall|r: int, t: int| 0 <= r < n && 0 <= t < n ==> #[trigger] right_half(rows_view(a), n)[r][t] == a[r]@[n + t],
{
    lemma_rows_view(a);
}

/// Whether two byte vectors are equal.
fn bytes_equal(a: &Vec<u8>, b: &Vec<u8>) -> (r: bool)
    ensures
        r == (a@ == b@),
{
    if a.len() != b.len() {
        return false;
    }
    for i in 0..a.len()
        invariant
            a@.len() == b@.len(),
            forall|j: int| 0 <= j < i ==> a@[j] == b@[j],
    {
        if a[i] != b[i] {
            return false;
        }
    }
    assert(a@ == b@);
    true
}

/// Whether two sequences of byte vectors of the same length are equal row by row.
fn rows_equal(a: &Vec<Vec<u8>>, b: &Vec<Vec<u8>>) -> (r: bool)
    requires
        a@.len() == b@.len(),
    ensures
        r == (rows_view(a@) == rows_view(b@)),
{
    proof {
        lemma_rows_view(a@);
        lemma_rows_view(b@);
    }
    for i in 0..a.len()
        invariant
            a@.len() == b@.len(),
            rows_view(a@).len() == a@.len(),
            rows_view(b@).len() == b@.len(),
            forall|j: int| 0 <= j < a@.len() ==> #[trigger] rows_view(a@)[j] == a@[j]@,
            forall|j: int| 0 <= j < b@.len() ==> #[trigger] rows_view(b@)[j] == b@[j]@,
            forall|j: int| 0 <= j < i ==> #[trigger] rows_view(a@)[j] == rows_view(b@)[j],
    {
        if !bytes_equal(&a[i], &b[i]) {
            assert(rows_view(a@)[i as int] != rows_view(b@)[i as int]);
            return false;
        }
        assert(rows_view(a@)[i as int] == rows_view(b@)[i as int]);
    }
    assert(rows_view(a@) == rows_view(b@));
    true
}

/// A copy of `v`.
fn copy_row(v: &Vec<u8>) -> (r: Vec<u8>)
    ensures
        r@ == v@,
{
    let mut r: Vec<u8> = Vec::new();
    for j in 0..v.len()
        invariant
            r@ == v@.take(j as int),
    {
        r.push(v[j]);
        assert(v@.take(j + 1) == v@.take(j as int).push(v@[j as int]));
    }
    assert(v@.take(v.len() as int) == v@);
    r
}

/// `valid_indices` keeps at most all entries, each below the bound.
proof fn lemma_valid_indices_bounds(s: Seq<usize>, all_len: nat)
    ensures
        valid_indices(s, all_len).len() <= s.len(),
        forall|k: int| 0 <= k < valid_indices(s, all_len).len() ==> #[trigger] valid_indices(s, all_len)[k] < all_len,
    decreases s.len(),
{
    if s.len() > 0 {
        lemma_valid_indices_bounds(s.drop_last(), all_len);
    }
}

/// `valid_indices` of a prefix is a prefix of `valid_indices`.
proof fn lemma_valid_indices_prefix(s: Seq<usize>, all_len: nat, t: nat)
    requires
        t <= s.len(),
    ensures
        valid_indices(s.take(t as int), all_len).len() <= valid_indices(s, all_len).len(),
        forall|k: int| 0 <= k < valid_indices(s.take(t as int), all_len).len()
            ==> #[trigger] valid_indices(s.take(t as int), all_len)[k] == valid_indices(s, all_len)[k],
    decreases s.len(),
{
    if t < s.len() {
        assert(s.drop_last().take(t as int) == s.take(t as int));
        lemma_valid_indices_prefix(s.drop_last(), all_len, t);
    } else {
        assert(s.take(t as int) == s);
    }
}

/// Whether `v` holds `x`.
fn contains_index(v: &[usize], x: usize) -> (b: bool)
    ensures
        b == v@.contains(x),
{
    for i in 0..v.len()
        invariant
            forall|j: int| 0 <= j < i ==> v@[j] != x,
    {
        if v[i] == x {
            assert(v@[i as int] == x);
            return true;
        }
    }
    false
}

impl Default for ErasureCoding {
    /// Four data shards and two parity shards.
    fn default() -> (ec: ErasureCoding)
        ensures
            ec.spec_data_shards() == 4,
            ec.spec_parity_shards() == 2,
    {
        ErasureCoding::new(4, 2).unwrap()
    }
}

/// Row `i < d` of the encoding matrix picks data shard `i`.
proof fn lemma_identity_row(d: nat, i: int, dm: Seq<Seq<u8>>, sz: nat)
    requires
        0 <= i < d,
        dm.len() == d,
        forall|r: int| 0 <= r < d ==> #[trigger] dm[r].len() == sz,
    ensures
        coded_shard(d, i, dm, sz) == dm[i],
{
    assert forall|b: int| 0 <= b < sz implies #[trigger] coded_shard(d, i, dm, sz)[b] == dm[i][b] by {
        let f = |t: int| gf_mul(enc_row(d, i)[0 + t], dm[t][b]);
        assert forall|t: int| 0 <= t < d && t != i implies #[trigger] f(t) == 0 by {
            lemma_gf_mul_identity(dm[t][b]);
        }
        lemma_sum_single(f, d, i);
        lemma_gf_mul_identity(dm[i][b]);
    }
    assert(coded_shard(d, i, dm, sz) =~= dm[i]);
}

/// Flattening the first `i` data shards gives the first `i * sz` padded bytes.
proof fn lemma_flatten_data(data: Seq<u8>, d: nat, sz: nat, i: nat)
    requires
        i <= d,
    ensures
        data_matrix(data, d, sz).take(i as int).flatten() == Seq::new(i * sz, |p: int| data_byte(data, p)),
    decreases i,
{
    let dm = data_matrix(data, d, sz);
    if i == 0 {
        assert(dm.take(0) =~= Seq::<Seq<u8>>::empty());
        assert(Seq::new(0 * sz, |p: int| data_byte(data, p)) =~= Seq::<u8>::empty());
    } else {
        let j = (i - 1) as nat;
        lemma_flatten_data(data, d, sz, j);
        assert(dm.take(i as int) == dm.take(j as int).push(dm[j as int]));
        dm.take(j as int).lemma_flatten_push(dm[j as int]);
        assert(i * sz == j * sz + sz) by (nonlinear_arith)
            requires i == j + 1;
        assert(dm.take(i as int).flatten() =~= Seq::new(i * sz, |p: int| data_byte(data, p)));
    }
}

/// The shards cover the data: `shard_size_for(len, d) * d >= len`.
proof fn lemma_shards_cover(len: nat, d: nat)
    requires
        d > 0,
    ensures
        shard_size_for(len, d) * d >= len,
{
    let total = len + d - 1;
    vstd::arithmetic::div_mod::lemma_fundamental_div_mod(total, d as int);
    vstd::arithmetic::div_mod::lemma_mod_pos_bound(total, d as int);
    let q = total / (d as int);
    let rem = total % (d as int);
    assert(q * d >= len) by (nonlinear_arith)
        requires total == (d as int) * q + rem, 0 <= rem < d, total == len + d - 1;
}

/// Decoding undoes encoding: for shards that encode `data`, any left inverse
/// of the encoding rows of `d` selected shards, applied to those shards,
/// gives back exactly `data`.
pub proof fn lemma_decode_recovers_encoded_data(
    d: nat,
    p: nat,
    data: Seq<u8>,
    shards: EncodedShards,
    sel: Seq<usize>,
    x: Seq<Seq<u8>>,
)
    requires
        0 < d,
        data.len() > 0,
        is_encoding_of(shards, data, d, p),
        sel.len() == d,
        forall|s: int| 0 <= s < d ==> #[trigger] sel[s] < d + p,
        is_left_inverse(x, selected_rows(d, sel), d),
    ensures
        truncated(
            decoded_rows(x, selected_shards(shards.all_shards(), sel), d, shards.shard_size as nat).flatten(),
            shards.original_size as nat,
        ) == data,
{
    let sz = shards.shard_size as nat;
    let dm = data_matrix(data, d, sz);
    let all = shards.all_shards();
    let r = selected_rows(d, sel);
    let y = selected_shards(all, sel);
    // Every shard is its encoding row times the data shards.
    assert forall|i: int| 0 <= i < d + p implies #[trigger] all[i] == coded_shard(d, i, dm, sz) by {
        lemma_rows_view(shards.data_shards@);
        lemma_rows_view(shards.parity_shards@);
        if i < d {
            lemma_identity_row(d, i, dm, sz);
        } else {
            assert(all[i] == parity_matrix(data, d, p, sz)[i - d]);
            assert(d + (i - d) == i);
        }
    }
    let rows = decoded_rows(x, y, d, sz);
    assert forall|i: int| 0 <= i < d implies #[trigger] rows[i] == dm[i] by {
        assert forall|b: int| 0 <= b < sz implies #[trigger] rows[i][b] == dm[i][b] by {
            assert forall|s: int| 0 <= s < d implies #[trigger] y[s][b] == dot_at(r[s], 0, dm, b, d) by {
                assert(y[s] == all[sel[s] as int]);
                assert(all[sel[s] as int] == coded_shard(d, sel[s] as int, dm, sz));
            }
            lemma_left_inverse_recovers(x, r, y, dm, d, b, i);
        }
        assert(rows[i] =~= dm[i]);
    }
    assert(rows =~= dm);
    assert(dm.take(d as int) == dm);
    lemma_flatten_data(data, d, sz, d);
    lemma_shards_cover(data.len(), d);
    assert(truncated(rows.flatten(), shards.original_size as nat) =~= data);
}

} // verus!
