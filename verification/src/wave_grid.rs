//! Index arithmetic of the 2D wave-equation grid: row-major cell indices and
//! the chunked sweep over interior rows and columns.
use vstd::prelude::*;

verus! {

/// Rows (or columns) are swept in chunks of this many.
pub const CHUNK_SIZE: usize = 32;

/// The number of chunks of `CHUNK_SIZE` rows (or columns) that cover the
/// `n - 2` interior rows `1 ..= n - 2` of a dimension of `n` cells.
pub open spec fn chunk_count(n: nat) -> nat {
    if n <= 2 {
        0
    } else {
        ((n - 2 + 31) / 32) as nat
    }
}

/// The inclusive range of the `k`-th chunk (counted from 0) of a dimension of `n` cells.
pub open spec fn chunk_range(k: nat, n: nat) -> (nat, nat) {
    (
        32 * k + 1,
        if 32 * k + 32 <= n - 2 {
            32 * k + 32
        } else {
            (n - 2) as nat
        },
    )
}

/// Row (or column) `r` lies in the `k`-th of the given chunks.
pub open spec fn chunk_holds(chunks: Seq<(usize, usize)>, k: int, r: int) -> bool {
    chunks[k].0 <= r <= chunks[k].1
}

/// Row (or column) `r` lies in one of the given chunks.
pub open spec fn chunks_cover(chunks: Seq<(usize, usize)>, r: int) -> bool {
    exists|k: int| 0 <= k < chunks.len() && #[trigger] chunk_holds(chunks, k, r)
}

/// Row-major index of cell `(x, y)` in a grid `nx` cells wide.
pub open spec fn cell_index(x: nat, y: nat, nx: nat) -> nat {
    y * nx + x
}

/// Row-major index of cell `(x, y)` in a grid of `nx` by `ny` cells.
pub fn grid_index(x: usize, y: usize, nx: usize, ny: usize) -> (index: usize)
    requires
        x < nx,
        y < ny,
        nx * ny <= usize::MAX,
    ensures
        index == cell_index(x as nat, y as nat, nx as nat),
        index < nx * ny,
{
    assert(y * nx + x < nx * ny) by (nonlinear_arith)
        requires
            x < nx,
            y < ny,
    ;
    y * nx + x
}

/// Distinct cells have distinct row-major indices.
pub proof fn lemma_cell_index_injective(x1: nat, y1: nat, x2: nat, y2: nat, nx: nat)
    requires
        x1 < nx,
        x2 < nx,
        cell_index(x1, y1, nx) == cell_index(x2, y2, nx),
    ensures
        x1 == x2,
        y1 == y2,
{
    vstd::arithmetic::div_mod::lemma_fundamental_div_mod_converse(
        cell_index(x1, y1, nx) as int,
        nx as int,
        y1 as int,
        x1 as int,
    );
    vstd::arithmetic::div_mod::lemma_fundamental_div_mod_converse(
        cell_index(x2, y2, nx) as int,
        nx as int,
        y2 as int,
        x2 as int,
    );
}

/// The chunks of interior rows (or columns) that the wave solver's sweep
/// visits for a dimension of `n` cells, as inclusive ranges: consecutive runs
/// of `CHUNK_SIZE` rows from row 1, the last one cut at row `n - 2`. Every
/// interior row lies in exactly one chunk, and no chunk reaches the boundary.
pub fn interior_chunks(n: usize) -> (chunks: Vec<(usize, usize)>)
    requires
        n >= 1,
    ensures
        chunks@.len() == chunk_count(n as nat),
        forall|k: int|
            0 <= k < chunks@.len() ==> (#[trigger] chunks@[k]).0 as nat == chunk_range(
                k as nat,
                n as nat,
            ).0 && chunks@[k].1 as nat == chunk_range(k as nat, n as nat).1,
        forall|r: int| 1 <= r <= n - 2 ==> #[trigger] chunks_cover(chunks@, r),
        forall|k: int, r: int|
            0 <= k < chunks@.len() && #[trigger] chunk_holds(chunks@, k, r) ==> 1 <= r <= n - 2,
        forall|k1: int, k2: int, r: int|
            0 <= k1 < chunks@.len() && 0 <= k2 < chunks@.len() && #[trigger] chunk_holds(
                chunks@,
                k1,
                r,
            ) && #[trigger] chunk_holds(chunks@, k2, r) ==> k1 == k2,
{
    let count: usize = if n <= 2 {
        0
    } else {
        let m = n - 2;
        m / CHUNK_SIZE + if m % CHUNK_SIZE != 0 {
            1
        } else {
            0
        }
    };
    assert(count == chunk_count(n as nat));
    let mut chunks: Vec<(usize, usize)> = Vec::new();
    let mut k: usize = 0;
    while k < count
        invariant
            count == chunk_count(n as nat),
            k <= count,
            chunks@.len() == k,
            forall|j: int|
                0 <= j < chunks@.len() ==> (#[trigger] chunks@[j]).0 as nat == chunk_range(
                    j as nat,
                    n as nat,
                ).0 && chunks@[j].1 as nat == chunk_range(j as nat, n as nat).1,
        decreases count - k,
    {
        assert(32 * k + 1 <= n - 2);
        let start = k * CHUNK_SIZE + 1;
        let end = if n - 2 - start >= CHUNK_SIZE - 1 {
            start + (CHUNK_SIZE - 1)
        } else {
            n - 2
        };
        chunks.push((start, end));
        k = k + 1;
    }
    assert forall|r: int| 1 <= r <= n - 2 implies #[trigger] chunks_cover(chunks@, r) by {
        let j = (r - 1) / 32;
        assert(0 <= j < chunks@.len());
        assert(chunk_holds(chunks@, j, r));
    }
    chunks
}

} // verus!
