//! Grid images: the pixels and bytes of map exports.

use vstd::prelude::*;

use crate::convert::{floor_to_i64, floored};
use crate::float::{F32, F64};
use crate::grid::{
    lemma_index_in_grid, lemma_index_splits, prob_from_log_odds, probability, OccupancyGrid, HALF,
    ONE32,
};
use crate::numerics::{
    deterministic, difference32, minus32, plus, product, sum, times, widen, widen_of, Numerics,
};

verus! {

/// 0.65: occupancy probability above which a cell is exported as *occupied*
/// (ROS `map_server` convention).
pub const PGM_OCCUPIED_THRESHOLD: u32 = 0x3f26_6666;

/// 0.196: occupancy probability below which a cell is exported as *free* (ROS
/// `map_server` convention).
pub const PGM_FREE_THRESHOLD: u32 = 0x3e48_b439;

/// 255.
pub const WHITE: u64 = 0x406f_e000_0000_0000;

/// The exported pixel of a cell with occupancy probability `p`: occupied black,
/// free nearly white, anything between grey.
#[verifier::allow_in_spec]
pub fn pgm_pixel(p: F32) -> u8
    returns
        (if (F32 { bits: PGM_OCCUPIED_THRESHOLD }).lt(p) {
            0u8
        } else if p.lt(F32 { bits: PGM_FREE_THRESHOLD }) {
            254u8
        } else {
            205u8
        }),
{
    if (F32 { bits: PGM_OCCUPIED_THRESHOLD }).lt(p) {
        0
    } else if p.lt(F32 { bits: PGM_FREE_THRESHOLD }) {
        254
    } else {
        205
    }
}

/// The display grey of a scaled value: its floor, or mid-grey if that is no
/// byte.
pub open spec fn grey_level(scaled: F64) -> u8 {
    match floored(scaled) {
        Some(v) => if 0 <= v <= 255 {
            v as u8
        } else {
            205
        },
        None => 205,
    }
}

/// Compute [`grey_level`].
pub fn gray_level(scaled: F64) -> (r: u8)
    ensures
        r == grey_level(scaled),
{
    match floor_to_i64(scaled) {
        Some(v) => if 0 <= v && v <= 255 {
            v as u8
        } else {
            205
        },
        None => 205,
    }
}

/// `255 × (1 - p)`, rounded, as a grey value.
pub open spec fn gray<N: Numerics>(l: F32) -> u8 {
    let free = difference32::<N>(F32 { bits: ONE32 }, probability::<N>(l)).clamped(
        F32 { bits: 0 },
        F32 { bits: ONE32 },
    );
    grey_level(
        sum::<N>(product::<N>(widen_of::<N>(free), F64 { bits: WHITE }), F64 { bits: HALF }),
    )
}

/// Map cell log-odds to a display grey value: `255 × (1 - p)`, rounded.
pub fn gray_from_log_odds<N: Numerics>(l: F32) -> (r: u8)
    ensures
        deterministic::<N>() ==> r == gray::<N>(l),
{
    let p = prob_from_log_odds::<N>(l);
    let free = minus32::<N>(F32 { bits: ONE32 }, p).clamp(F32 { bits: 0 }, F32 { bits: ONE32 });
    gray_level(plus::<N>(times::<N>(widen::<N>(free), F64 { bits: WHITE }), F64 { bits: HALF }))
}

/// The cells of a row-major grid with the last row first.
pub open spec fn top_first(cells: Seq<F32>, width: int, height: int) -> Seq<F32> {
    Seq::new(
        (width * height) as nat,
        |k: int| cells[(height - 1 - k / width) * width + k % width],
    )
}

/// Decimal digits of `n` in ASCII.
pub open spec fn decimal(n: nat) -> Seq<u8>
    decreases n,
{
    if n < 10 {
        seq![(0x30 + n) as u8]
    } else {
        decimal(n / 10).push((0x30 + n % 10) as u8)
    }
}

/// The number that ASCII digits stand for.
pub open spec fn decimal_value(digits: Seq<u8>) -> int
    decreases digits.len(),
{
    if digits.len() == 0 {
        0
    } else {
        10 * decimal_value(digits.drop_last()) + (digits.last() - 0x30)
    }
}

/// Decimal digits stand for the number that they were made from.
pub proof fn law_decimal_reads_back(n: nat)
    ensures
        decimal_value(decimal(n)) == n,
        forall|i: int| 0 <= i < decimal(n).len() ==> 0x30 <= #[trigger] decimal(n)[i] <= 0x39,
    decreases n,
{
    reveal_with_fuel(decimal_value, 2);
    if n < 10 {
        assert(decimal(n).drop_last() =~= Seq::<u8>::empty());
    } else {
        law_decimal_reads_back(n / 10);
        assert(decimal(n).drop_last() =~= decimal(n / 10));
    }
}

/// Append the decimal digits of `n`.
fn push_decimal(bytes: &mut Vec<u8>, n: usize)
    ensures
        final(bytes)@ == old(bytes)@ + decimal(n as nat),
    decreases n,
{
    if n < 10 {
        bytes.push(0x30 + n as u8);
        proof {
            assert(bytes@ =~= old(bytes)@ + decimal(n as nat));
        }
    } else {
        push_decimal(bytes, n / 10);
        bytes.push(0x30 + (n % 10) as u8);
        proof {
            assert(bytes@ =~= old(bytes)@ + decimal(n as nat));
        }
    }
}

/// Header of a binary PGM: `P5`, width and height, and the greatest value 255.
pub open spec fn pgm_header(width: nat, height: nat) -> Seq<u8> {
    seq![0x50u8, 0x35, 0x0a] + decimal(width) + seq![0x20u8] + decimal(height)
        + seq![0x0au8, 0x32, 0x35, 0x35, 0x0a]
}

impl OccupancyGrid {
    /// The cells with the maximum-y row first: image order.
    fn rows_top_first(&self) -> (r: Vec<F32>)
        requires
            self.wf(),
        ensures
            r@ == top_first(
                self.spec_cells(),
                self.spec_config().width_cells as int,
                self.spec_config().height_cells as int,
            ),
    {
        let width: usize = self.width();
        let height: usize = self.height();
        let cells = self.cells();
        let mut rows: Vec<F32> = Vec::new();
        let ghost expected = top_first(cells@, width as int, height as int);
        for k in 0..cells.len()
            invariant
                self.wf(),
                width == self.spec_config().width_cells,
                height == self.spec_config().height_cells,
                cells@ == self.spec_cells(),
                expected == top_first(cells@, width as int, height as int),
                rows@ =~= expected.take(k as int),
        {
            let row: usize = k / width;
            let column: usize = k % width;
            proof {
                lemma_index_splits(k as int, width as int, height as int);
                lemma_index_in_grid(
                    column as int,
                    height - 1 - row,
                    width as int,
                    height as int,
                );
                assert((height - 1 - row) * width <= (height - 1 - row) * width + column);
            }
            rows.push(cells[(height - 1 - row) * width + column]);
        }
        proof {
            assert(expected.take(expected.len() as int) =~= expected);
        }
        rows
    }

    /// The bytes of the map as a binary (P5) PGM in the ROS `map_server`
    /// convention: occupied (p > 0.65) = 0 (black), free (p < 0.196) = 254,
    /// unknown = 205. The image is top-row-first, so the grid's maximum-y row
    /// comes first.
    pub fn pgm_bytes<N: Numerics>(&self) -> (r: Vec<u8>)
        requires
            self.wf(),
        ensures
            deterministic::<N>() ==> r@ == pgm_header(
                self.spec_config().width_cells as nat,
                self.spec_config().height_cells as nat,
            ) + top_first(
                self.spec_cells(),
                self.spec_config().width_cells as int,
                self.spec_config().height_cells as int,
            ).map_values(|l: F32| pgm_pixel(probability::<N>(l))),
            r@.len() == pgm_header(
                self.spec_config().width_cells as nat,
                self.spec_config().height_cells as nat,
            ).len() + self.spec_cells().len(),
            r@.take(
                pgm_header(
                    self.spec_config().width_cells as nat,
                    self.spec_config().height_cells as nat,
                ).len() as int,
            ) == pgm_header(
                self.spec_config().width_cells as nat,
                self.spec_config().height_cells as nat,
            ),
    {
        let ghost header = pgm_header(
            self.spec_config().width_cells as nat,
            self.spec_config().height_cells as nat,
        );
        let mut bytes: Vec<u8> = vec![0x50, 0x35, 0x0a];
        push_decimal(&mut bytes, self.width());
        bytes.push(0x20);
        push_decimal(&mut bytes, self.height());
        bytes.push(0x0a);
        bytes.push(0x32);
        bytes.push(0x35);
        bytes.push(0x35);
        bytes.push(0x0a);
        proof {
            assert(bytes@ =~= header);
        }
        let rows = self.rows_top_first();
        for k in 0..rows.len()
            invariant
                bytes@.len() == header.len() + k,
                bytes@.take(header.len() as int) =~= header,
                deterministic::<N>() ==> bytes@ =~= header + rows@.take(k as int).map_values(
                    |l: F32| pgm_pixel(probability::<N>(l)),
                ),
        {
            bytes.push(pgm_pixel(prob_from_log_odds::<N>(rows[k])));
        }
        proof {
            assert(rows@.take(rows@.len() as int) =~= rows@);
        }
        bytes
    }

    /// The map as grey pixels for display, `255 × (1 - p)` each, maximum-y row
    /// first.
    pub fn gray_pixels<N: Numerics>(&self) -> (r: Vec<u8>)
        requires
            self.wf(),
        ensures
            r@.len() == self.spec_cells().len(),
            deterministic::<N>() ==> r@ == top_first(
                self.spec_cells(),
                self.spec_config().width_cells as int,
                self.spec_config().height_cells as int,
            ).map_values(|l: F32| gray::<N>(l)),
    {
        let rows = self.rows_top_first();
        let mut bytes: Vec<u8> = Vec::new();
        for k in 0..rows.len()
            invariant
                bytes@.len() == k,
                deterministic::<N>() ==> bytes@ =~= rows@.take(k as int).map_values(
                    |l: F32| gray::<N>(l),
                ),
        {
            bytes.push(gray_from_log_odds::<N>(rows[k]));
        }
        proof {
            assert(rows@.take(rows@.len() as int) =~= rows@);
        }
        bytes
    }
}

/// Turning the rows of a grid over twice gives the grid back.
pub proof fn law_turning_over_twice_restores(cells: Seq<F32>, width: int, height: int)
    requires
        0 < width,
        0 <= height,
        cells.len() == width * height,
    ensures
        top_first(top_first(cells, width, height), width, height) == cells,
{
    let once = top_first(cells, width, height);
    let twice = top_first(once, width, height);
    assert forall|k: int| 0 <= k < cells.len() implies twice[k] == cells[k] by {
        lemma_index_splits(k, width, height);
        lemma_index_in_grid(k % width, height - 1 - k / width, width, height);
    }
    assert(twice =~= cells);
}

} // verus!
