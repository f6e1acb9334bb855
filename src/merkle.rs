use vstd::prelude::*;
use crate::transcript::{
    concat_bytes, digest_to_words, digest_words, hash_words, sha256, sha256_of, word_bytes,
};

verus! {

/// Row `r` of a matrix of `rows` rows stored column by column.
pub open spec fn row_values(values: Seq<u32>, rows: nat, cols: nat, r: nat) -> Seq<u32> {
    Seq::new(cols, |c: int| values[c * rows + r])
}

/// The digest of node `i` of the Merkle tree over the rows: nodes
/// `rows..2 * rows` are the row digests, node `i` below `rows` hashes its
/// children `2 * i` and `2 * i + 1`, and node 1 is the root.
pub open spec fn node_hash(values: Seq<u32>, rows: nat, cols: nat, i: nat) -> Seq<u8>
    decreases 2 * rows - i,
{
    if i >= 2 * rows || i == 0 {
        Seq::empty()
    } else if i >= rows {
        sha256_of(word_bytes(row_values(values, rows, cols, (i - rows) as nat)))
    } else {
        sha256_of(node_hash(values, rows, cols, 2 * i) + node_hash(values, rows, cols, 2 * i + 1))
    }
}

pub open spec fn sibling(i: nat) -> nat {
    if i % 2 == 0 { i + 1 } else { (i - 1) as nat }
}

/// The digests of the siblings on the way from node `i` up to the root.
pub open spec fn auth_path(values: Seq<u32>, rows: nat, cols: nat, i: nat) -> Seq<u32>
    decreases i,
{
    if i <= 1 {
        Seq::empty()
    } else {
        digest_words(node_hash(values, rows, cols, sibling(i))) + auth_path(values, rows, cols, i / 2)
    }
}

/// The opening of row `r`: its values, then its authentication path.
pub open spec fn row_opening(values: Seq<u32>, rows: nat, cols: nat, r: nat) -> Seq<u32> {
    row_values(values, rows, cols, r) + auth_path(values, rows, cols, rows + r)
}

/// A Merkle tree over the rows of a matrix of evaluations, kept so that
/// rows can be opened later.
pub struct MerkleTreeProver {
    values: Vec<u32>,
    rows: usize,
    cols: usize,
    nodes: Vec<Vec<u8>>,
}

impl MerkleTreeProver {
    pub closed spec fn values_view(&self) -> Seq<u32> {
        self.values@
    }

    pub closed spec fn rows_view(&self) -> nat {
        self.rows as nat
    }

    pub closed spec fn cols_view(&self) -> nat {
        self.cols as nat
    }

    pub closed spec fn wf(&self) -> bool {
        &&& self.rows >= 1
        &&& self.rows * self.cols <= self.values@.len()
        &&& 2 * self.rows <= usize::MAX
        &&& self.nodes@.len() == 2 * self.rows
        &&& forall|j: int|
            1 <= j < 2 * self.rows ==> (#[trigger] self.nodes@[j])@ == node_hash(
                self.values@,
                self.rows as nat,
                self.cols as nat,
                j as nat,
            ) && self.nodes@[j]@.len() == 32
    }

    /// The root digest of the tree.
    pub open spec fn root_view(&self) -> Seq<u8> {
        node_hash(self.values_view(), self.rows_view(), self.cols_view(), 1)
    }

    /// Builds the tree over the `rows` rows of `cols` entries of `values`,
    /// stored column by column.
    pub fn new(values: Vec<u32>, rows: usize, cols: usize) -> (r: Self)
        requires
            rows >= 1,
            rows * cols <= values@.len(),
            2 * rows <= usize::MAX,
        ensures
            r.wf(),
            r.values_view() == values@,
            r.rows_view() == rows,
            r.cols_view() == cols,
    {
        let mut nodes: Vec<Vec<u8>> = Vec::new();
        let mut k: usize = 0;
        while k < 2 * rows
            invariant
                k <= 2 * rows,
                2 * rows <= usize::MAX,
                nodes@.len() == k,
            decreases 2 * rows - k,
        {
            nodes.push(Vec::new());
            k = k + 1;
        }
        let mut r: usize = 0;
        while r < rows
            invariant
                r <= rows,
                rows >= 1,
                rows * cols <= values@.len(),
                2 * rows <= usize::MAX,
                nodes@.len() == 2 * rows,
                forall|j: int|
                    rows <= j < rows + r ==> (#[trigger] nodes@[j])@ == node_hash(
                        values@,
                        rows as nat,
                        cols as nat,
                        j as nat,
                    ) && nodes@[j]@.len() == 32,
            decreases rows - r,
        {
            let row = row_of(&values, rows, cols, r);
            let h = hash_words(&row);
            nodes.set(rows + r, h);
            r = r + 1;
        }
        let mut i: usize = rows;
        while i > 1
            invariant
                1 <= i <= rows,
                rows * cols <= values@.len(),
                2 * rows <= usize::MAX,
                nodes@.len() == 2 * rows,
                forall|j: int|
                    i <= j < 2 * rows ==> (#[trigger] nodes@[j])@ == node_hash(
                        values@,
                        rows as nat,
                        cols as nat,
                        j as nat,
                    ) && nodes@[j]@.len() == 32,
            decreases i,
        {
            i = i - 1;
            let both = concat_bytes(&nodes[2 * i], &nodes[2 * i + 1]);
            let h = sha256(&both);
            nodes.set(i, h);
        }
        MerkleTreeProver { values, rows, cols, nodes }
    }

    /// The root digest of the tree.
    pub fn root(&self) -> (r: Vec<u8>)
        requires
            self.wf(),
        ensures
            r@ == self.root_view(),
            r@.len() == 32,
    {
        self.nodes[1].clone()
    }

    /// The opening of row `row`: its values and authentication path.
    pub fn open(&self, row: usize) -> (r: Vec<u32>)
        requires
            self.wf(),
            row < self.rows_view(),
        ensures
            r@ == row_opening(self.values_view(), self.rows_view(), self.cols_view(), row as nat),
    {
        let ghost vals = self.values@;
        let ghost rs = self.rows as nat;
        let ghost cs = self.cols as nat;
        let mut out = row_of(&self.values, self.rows, self.cols, row);
        let mut idx: usize = self.rows + row;
        while idx > 1
            invariant
                self.wf(),
                1 <= idx < 2 * self.rows,
                vals == self.values@,
                rs == self.rows,
                cs == self.cols,
                out@ + auth_path(vals, rs, cs, idx as nat) == row_opening(vals, rs, cs, row as nat),
            decreases idx,
        {
            let sib = if idx % 2 == 0 { idx + 1 } else { idx - 1 };
            let dw = digest_to_words(&self.nodes[sib]);
            let ghost before = out@;
            let mut k: usize = 0;
            while k < 8
                invariant
                    k <= 8,
                    dw@.len() == 8,
                    out@ == before + dw@.subrange(0, k as int),
                decreases 8 - k,
            {
                out.push(dw[k]);
                k = k + 1;
                assert(dw@.subrange(0, k as int) == dw@.subrange(0, k - 1).push(dw@[k - 1]));
            }
            assert(dw@.subrange(0, 8) == dw@);
            assert(auth_path(vals, rs, cs, idx as nat) == dw@ + auth_path(vals, rs, cs, (idx / 2) as nat));
            assert(out@ + auth_path(vals, rs, cs, (idx / 2) as nat) == before + auth_path(
                vals,
                rs,
                cs,
                idx as nat,
            ));
            idx = idx / 2;
        }
        out
    }
}

/// Row `r` of the column-major matrix `values` with `rows` rows.
fn row_of(values: &Vec<u32>, rows: usize, cols: usize, r: usize) -> (out: Vec<u32>)
    requires
        r < rows,
        rows * cols <= values.len(),
    ensures
        out@ == row_values(values@, rows as nat, cols as nat, r as nat),
{
    let mut out: Vec<u32> = Vec::new();
    let mut c: usize = 0;
    while c < cols
        invariant
            c <= cols,
            r < rows,
            rows * cols <= values.len(),
            out@ == row_values(values@, rows as nat, cols as nat, r as nat).subrange(0, c as int),
        decreases cols - c,
    {
        proof {
            assert(c * rows + r < rows * cols) by (nonlinear_arith)
                requires c < cols, r < rows;
        }
        out.push(values[c * rows + r]);
        c = c + 1;
        assert(out@ =~= row_values(values@, rows as nat, cols as nat, r as nat).subrange(0, c as int));
    }
    assert(out@ =~= row_values(values@, rows as nat, cols as nat, r as nat));
    out
}

} // verus!
