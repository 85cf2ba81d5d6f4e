//! Position fingerprints: one 64-bit signature per side and cell, combined
//! by exclusive or over the pawns on the board.
//!
//! The fingerprint depends on the pawn layout alone, not on the side to move.

use crate::board::{Board, Cell, Grid, COLUMNS, ROWS};
use vstd::prelude::*;

verus! {

/// Seed of the default signature set.
pub const RNG_SEED: u128 = 0xbadd0990d15ea5e5;

/// One signature for each side and cell.
pub const SIGNATURE_COUNT: usize = 2 * ROWS * COLUMNS;

/// The first `len` 64-bit outputs of the `Pcg64Mcg` generator of `rand_pcg`
/// started from `seed`, as `rand::Rng::fill` writes them into a slice of
/// `u64`.
pub uninterp spec fn pcg64_mcg_stream(seed: u128, len: nat) -> Seq<u64>;

/// Overwrites `buffer` with the output of `rand_pcg::Pcg64Mcg::new(seed)`,
/// drawn by `rand::Rng::fill`.
///
/// Trusted: the generator is a pure function of its seed and `fill` writes
/// every element of the slice in a byte order that does not depend on the
/// machine, so the contents are a function of the seed and the length; the
/// length of the buffer does not change.
#[verifier::external_body]
fn fill_from_seed(seed: u128, buffer: &mut Vec<u64>)
    ensures
        final(buffer)@ == pcg64_mcg_stream(seed, old(buffer)@.len()),
        final(buffer)@.len() == old(buffer)@.len(),
{
    let mut generator = rand_pcg::Pcg64Mcg::new(seed);
    rand::Rng::fill(&mut generator, &mut buffer[..]);
}

/// Where the signature of a pawn on (`row`, `column`) stands: the white
/// pawns' signatures come first, each side's row by row.
pub open spec fn signature_index(cell: Cell, row: int, column: int) -> int {
    match cell {
        Cell::BlackPawn => ROWS * COLUMNS + row * COLUMNS + column,
        _ => row * COLUMNS + column,
    }
}

/// The hash after the cell on (`row`, `column`) has been taken in: an empty
/// cell leaves it unchanged.
pub open spec fn mixed_in(keys: Seq<u64>, hash: u64, cell: Cell, row: int, column: int) -> u64 {
    match cell {
        Cell::Empty => hash,
        _ => hash ^ keys[signature_index(cell, row, column)],
    }
}

/// The combined signatures of the pawns on the first `n` cells, counted row
/// by row.
pub open spec fn fingerprint_before(keys: Seq<u64>, g: Grid, n: nat) -> u64
    decreases n,
{
    if n == 0 {
        0
    } else {
        mixed_in(
            keys,
            fingerprint_before(keys, g, (n - 1) as nat),
            g[(n - 1) / (COLUMNS as int)][(n - 1) % (COLUMNS as int)],
            (n - 1) / (COLUMNS as int),
            (n - 1) % (COLUMNS as int),
        )
    }
}

/// The fingerprint of a position under the signatures `keys`.
pub open spec fn fingerprint_of(keys: Seq<u64>, g: Grid) -> u64 {
    fingerprint_before(keys, g, (ROWS * COLUMNS) as nat)
}

/// The signatures that fingerprints are made of, fixed once and handed to
/// every function that hashes a position.
pub struct CellSignatures {
    values: Vec<u64>,
}

impl View for CellSignatures {
    type V = Seq<u64>;

    closed spec fn view(&self) -> Seq<u64> {
        self.values@
    }
}

impl CellSignatures {
    #[verifier::type_invariant]
    spec fn complete(self) -> bool {
        self.values@.len() == SIGNATURE_COUNT
    }

    /// The signatures drawn from the generator started at `seed`.
    pub fn from_seed(seed: u128) -> (signatures: Self)
        ensures
            signatures@ == pcg64_mcg_stream(seed, SIGNATURE_COUNT as nat),
            signatures@.len() == SIGNATURE_COUNT,
    {
        let mut values: Vec<u64> = Vec::new();
        let mut n: usize = 0;
        while n < SIGNATURE_COUNT
            invariant
                n <= SIGNATURE_COUNT,
                values@.len() == n,
            decreases SIGNATURE_COUNT - n,
        {
            values.push(0);
            n += 1;
        }
        fill_from_seed(seed, &mut values);
        CellSignatures { values }
    }

    /// A signature set chosen by the caller; `None` unless there is exactly
    /// one signature for each side and cell.
    pub fn from_values(values: Vec<u64>) -> (signatures: Option<Self>)
        ensures
            signatures is Some <==> values@.len() == SIGNATURE_COUNT,
            signatures is Some ==> signatures->0@ == values@,
    {
        if values.len() == SIGNATURE_COUNT {
            Some(CellSignatures { values })
        } else {
            None
        }
    }

    /// The signature of the pawn `pawn` on (`row`, `column`).
    pub fn signature(&self, pawn: Cell, row: usize, column: usize) -> (signature: u64)
        requires
            row < ROWS,
            column < COLUMNS,
        ensures
            signature == self@[signature_index(pawn, row as int, column as int)],
    {
        proof {
            use_type_invariant(self);
        }
        let offset: usize = match pawn {
            Cell::BlackPawn => ROWS * COLUMNS,
            _ => 0,
        };
        self.values[offset + row * COLUMNS + column]
    }
}

impl Board {
    /// The fingerprint of this position under `signatures`.
    pub fn fingerprint(&self, signatures: &CellSignatures) -> (hash: u64)
        ensures
            hash == fingerprint_of(signatures@, self@),
    {
        let mut hash: u64 = 0;
        let mut i: usize = 0;
        while i < ROWS
            invariant
                i <= ROWS,
                hash == fingerprint_before(signatures@, self@, (i * COLUMNS) as nat),
            decreases ROWS - i,
        {
            let mut j: usize = 0;
            while j < COLUMNS
                invariant
                    i < ROWS,
                    j <= COLUMNS,
                    hash == fingerprint_before(signatures@, self@, (i * COLUMNS + j) as nat),
                decreases COLUMNS - j,
            {
                assert((i * COLUMNS + j) / (COLUMNS as int) == i);
                assert((i * COLUMNS + j) % (COLUMNS as int) == j);
                let cell: Cell = self.0[i][j];
                match cell {
                    Cell::Empty => {},
                    _ => {
                        hash = hash ^ signatures.signature(cell, i, j);
                    },
                }
                j += 1;
            }
            i += 1;
        }
        hash
    }
}

} // verus!
