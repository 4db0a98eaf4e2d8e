//! The fingerprint of an image: sixty-four bits, one for each cell of an
//! eight by eight grid of resampled luminance, set where the cell is brighter
//! than the mean of the grid.

use crate::raster::{DecodedImage, Raster};
use crate::resample::{resample, resampled_grid};
use vstd::prelude::*;

verus! {

/// The number that four channel bytes stand for once each has been put in a
/// field of sixteen bits of its own, the first channel in the highest field.
pub open spec fn packed_value(c0: u8, c1: u8, c2: u8, c3: u8) -> int {
    c0 * 0x1_0000_0000_0000 + c1 * 0x1_0000_0000 + c2 * 0x1_0000 + c3
}

/// Channel `k` of a pixel, or zero where the pixel has no such channel.
pub open spec fn channel_or_zero(pixel: Seq<u8>, k: int) -> u8 {
    if 0 <= k < pixel.len() {
        pixel[k]
    } else {
        0
    }
}

/// The packed value of a pixel given by its channels, of which the first
/// four count.
pub open spec fn packed_pixel(pixel: Seq<u8>) -> int {
    packed_value(
        channel_or_zero(pixel, 0),
        channel_or_zero(pixel, 1),
        channel_or_zero(pixel, 2),
        channel_or_zero(pixel, 3),
    )
}

proof fn lemma_pack_fields(c0: u8, c1: u8, c2: u8, c3: u8)
    by (bit_vector)
    ensures
        ((c0 as u64) << 48) | ((c1 as u64) << 32) | ((c2 as u64) << 16) | (c3 as u64) == (c0 as u64)
            * 0x1_0000_0000_0000 + (c1 as u64) * 0x1_0000_0000 + (c2 as u64) * 0x1_0000 + (
        c3 as u64),
{
}

/// Packs four channel bytes into one word, sixteen bits apart.
pub fn pack_channels(c0: u8, c1: u8, c2: u8, c3: u8) -> (word: u64)
    ensures
        word == packed_value(c0, c1, c2, c3),
{
    proof {
        lemma_pack_fields(c0, c1, c2, c3);
    }
    ((c0 as u64) << 48) | ((c1 as u64) << 32) | ((c2 as u64) << 16) | (c3 as u64)
}

/// Packs a pixel given by its channels. Channels that the pixel does not
/// have count as zero; only the first four enter the word.
pub fn pack_pixel(pixel: &[u8]) -> (word: u64)
    ensures
        word == packed_pixel(pixel@),
{
    let c0: u8 = if pixel.len() > 0 { pixel[0] } else { 0 };
    let c1: u8 = if pixel.len() > 1 { pixel[1] } else { 0 };
    let c2: u8 = if pixel.len() > 2 { pixel[2] } else { 0 };
    let c3: u8 = if pixel.len() > 3 { pixel[3] } else { 0 };
    pack_channels(c0, c1, c2, c3)
}

/// Sum of the values of a sequence of cells.
pub open spec fn sum_of(cells: Seq<u64>) -> int
    decreases cells.len(),
{
    if cells.len() == 0 {
        0
    } else {
        sum_of(cells.drop_last()) + cells.last()
    }
}

/// Mean of a grid of cells: their sum divided by the number of cells of a
/// grid, rounded down.
pub open spec fn mean_of(cells: Seq<u64>) -> int {
    sum_of(cells) / 64
}

/// Whether bit `i` of `word` is set, bit 0 being the least significant.
pub open spec fn bit_at(word: u64, i: int) -> bool {
    (word >> (i as u64)) & 1 == 1
}

/// `word` is a fingerprint of `cells`: for each cell of the grid, in scan
/// order, the bit at the cell's index says whether the cell is strictly
/// greater than the mean.
pub open spec fn is_fingerprint_of(word: u64, cells: Seq<u64>) -> bool {
    forall|i: int| 0 <= i < 64 ==> bit_at(word, i) == (#[trigger] cells[i] > mean_of(cells))
}

/// The fingerprint of a grid of cells. There is exactly one word that
/// `is_fingerprint_of` holds of: see `lemma_fingerprint_unique`.
pub open spec fn fingerprint_of(cells: Seq<u64>) -> u64 {
    choose|word: u64| is_fingerprint_of(word, cells)
}

proof fn lemma_shift_step(a: u64, n: u64)
    by (bit_vector)
    requires
        n < 63,
    ensures
        a >> n == 2 * (a >> ((n + 1) as u64)) + ((a >> n) & 1),
{
}

proof fn lemma_low_bit(a: u64)
    by (bit_vector)
    ensures
        a & 1 == 0 || a & 1 == 1,
{
}

proof fn lemma_shift_top(a: u64)
    by (bit_vector)
    ensures
        a >> 63 == (a >> 63) & 1,
        a >> 0 == a,
{
}

/// Two words whose bits agree from position `n` upwards agree once shifted
/// down by `n`.
proof fn lemma_equal_bits_equal_shifts(a: u64, b: u64, n: int)
    requires
        0 <= n < 64,
        forall|i: int| n <= i < 64 ==> bit_at(a, i) == bit_at(b, i),
    ensures
        a >> (n as u64) == b >> (n as u64),
    decreases 64 - n,
{
    let low_a = (a >> (n as u64)) & 1;
    let low_b = (b >> (n as u64)) & 1;
    lemma_low_bit(a >> (n as u64));
    lemma_low_bit(b >> (n as u64));
    assert(bit_at(a, n) == bit_at(b, n));
    assert(low_a == low_b);
    if n == 63 {
        lemma_shift_top(a);
        lemma_shift_top(b);
    } else {
        lemma_equal_bits_equal_shifts(a, b, n + 1);
        lemma_shift_step(a, n as u64);
        lemma_shift_step(b, n as u64);
    }
}

/// A word is determined by its sixty-four bits.
pub proof fn lemma_bits_determine_word(a: u64, b: u64)
    requires
        forall|i: int| 0 <= i < 64 ==> bit_at(a, i) == bit_at(b, i),
    ensures
        a == b,
{
    lemma_equal_bits_equal_shifts(a, b, 0);
    lemma_shift_top(a);
    lemma_shift_top(b);
}

/// A grid has one fingerprint: any word that `is_fingerprint_of` holds of is
/// `fingerprint_of` the grid.
pub proof fn lemma_fingerprint_unique(word: u64, cells: Seq<u64>)
    requires
        is_fingerprint_of(word, cells),
    ensures
        word == fingerprint_of(cells),
{
    let other = fingerprint_of(cells);
    assert(is_fingerprint_of(other, cells));
    assert forall|i: int| 0 <= i < 64 implies bit_at(word, i) == bit_at(other, i) by {
        assert(bit_at(word, i) == (cells[i] > mean_of(cells)));
        assert(bit_at(other, i) == (cells[i] > mean_of(cells)));
    }
    lemma_bits_determine_word(word, other);
}

proof fn lemma_set_bit(word: u64, i: u64, j: u64)
    by (bit_vector)
    requires
        i < 64,
        j < 64,
    ensures
        ((word | (1u64 << i)) >> j) & 1 == (if j == i {
            1
        } else {
            (word >> j) & 1
        }),
        (0u64 >> j) & 1 == 0,
{
}

proof fn lemma_sum_bounds(cells: Seq<u64>)
    ensures
        0 <= sum_of(cells) <= cells.len() * u64::MAX,
    decreases cells.len(),
{
    if cells.len() > 0 {
        lemma_sum_bounds(cells.drop_last());
        assert(sum_of(cells) <= (cells.len() - 1) * u64::MAX + u64::MAX);
        assert((cells.len() - 1) * u64::MAX + u64::MAX == cells.len() * u64::MAX)
            by (nonlinear_arith);
    }
}

/// Computes the fingerprint of a grid of sixty-four cells, given in scan
/// order: bit `i` of the result is set exactly where cell `i` is strictly
/// greater than the mean of the cells, rounded down.
pub fn fingerprint_of_cells(cells: &[u64; 64]) -> (word: u64)
    ensures
        is_fingerprint_of(word, cells@),
        word == fingerprint_of(cells@),
{
    let mut total: u128 = 0;
    let mut k: usize = 0;
    while k < 64
        invariant
            0 <= k <= 64,
            total == sum_of(cells@.take(k as int)),
        decreases 64 - k,
    {
        proof {
            lemma_sum_bounds(cells@.take(k as int));
            assert(cells@.take(k + 1).drop_last() =~= cells@.take(k as int));
            assert(k * u64::MAX <= 63 * u64::MAX);
        }
        total = total + cells[k] as u128;
        k = k + 1;
    }
    proof {
        assert(cells@.take(64) =~= cells@);
        lemma_sum_bounds(cells@);
    }
    let mean: u64 = (total / 64) as u64;
    assert(mean == mean_of(cells@));
    let mut word: u64 = 0;
    let mut i: usize = 0;
    proof {
        assert forall|j: int| 0 <= j < 64 implies !bit_at(word, j) by {
            lemma_set_bit(0, 0, j as u64);
        }
    }
    while i < 64
        invariant
            0 <= i <= 64,
            mean == mean_of(cells@),
            forall|j: int| 0 <= j < i ==> bit_at(word, j) == (#[trigger] cells@[j] > mean),
            forall|j: int| i <= j < 64 ==> !bit_at(word, j),
        decreases 64 - i,
    {
        if cells[i] > mean {
            let ghost before = word;
            word = word | (1u64 << i);
            proof {
                assert forall|j: int| 0 <= j < 64 implies bit_at(word, j) == (if j == i {
                    true
                } else {
                    bit_at(before, j)
                }) by {
                    lemma_set_bit(before, i as u64, j as u64);
                }
            }
        }
        i = i + 1;
    }
    proof {
        lemma_fingerprint_unique(word, cells@);
    }
    word
}

/// The cells of a grid given by its samples: cell `i` is the packed value
/// of the four samples of pixel `i`.
pub open spec fn cells_of(grid: Seq<u8>) -> Seq<u64> {
    Seq::new(
        64,
        |i: int| packed_value(grid[4 * i], grid[4 * i + 1], grid[4 * i + 2], grid[4 * i + 3]) as u64,
    )
}

/// Packs the sixty-four pixels of a grid, given by their samples in scan
/// order, into cells.
pub fn pack_grid(grid: &[u8]) -> (cells: [u64; 64])
    requires
        grid@.len() == 256,
    ensures
        cells@ == cells_of(grid@),
{
    let mut cells: [u64; 64] = [0u64; 64];
    let mut i: usize = 0;
    while i < 64
        invariant
            0 <= i <= 64,
            grid@.len() == 256,
            forall|j: int| 0 <= j < i ==> cells@[j] == #[trigger] cells_of(grid@)[j],
        decreases 64 - i,
    {
        let word: u64 = pack_channels(grid[4 * i], grid[4 * i + 1], grid[4 * i + 2], grid[4 * i + 3]);
        cells[i] = word;
        i = i + 1;
    }
    assert(cells@ =~= cells_of(grid@));
    cells
}

/// Computes the fingerprint of a resampled grid, given by the samples of
/// its sixty-four pixels in scan order.
pub fn fingerprint_of_grid(grid: &[u8]) -> (word: u64)
    requires
        grid@.len() == 256,
    ensures
        is_fingerprint_of(word, cells_of(grid@)),
        word == fingerprint_of(cells_of(grid@)),
{
    let cells: [u64; 64] = pack_grid(grid);
    fingerprint_of_cells(&cells)
}

/// The fingerprint of an image: that of the grid it is resampled to.
pub open spec fn image_fingerprint(image: Raster) -> u64 {
    fingerprint_of(cells_of(resampled_grid(image)))
}

/// Computes the fingerprint of a decoded image. The result is a function of
/// the image alone: the same pixels always give the same fingerprint.
pub fn fingerprint(image: &DecodedImage) -> (word: u64)
    ensures
        word == image_fingerprint(image@),
        is_fingerprint_of(word, cells_of(resampled_grid(image@))),
{
    let grid: Vec<u8> = resample(image);
    fingerprint_of_grid(grid.as_slice())
}

/// Each channel of a pixel is found again in its own field of the packed
/// value: the first in bits 48 to 63, the second in bits 32 to 47, the third
/// in bits 16 to 31, the fourth in bits 0 to 15. No field runs over into the
/// next, and the value fits fifty-six bits.
pub proof fn lemma_packed_fields(c0: u8, c1: u8, c2: u8, c3: u8)
    ensures
        0 <= packed_value(c0, c1, c2, c3) < 0x100_0000_0000_0000,
        ((packed_value(c0, c1, c2, c3) as u64) >> 48) & 0xffff == c0,
        ((packed_value(c0, c1, c2, c3) as u64) >> 32) & 0xffff == c1,
        ((packed_value(c0, c1, c2, c3) as u64) >> 16) & 0xffff == c2,
        (packed_value(c0, c1, c2, c3) as u64) & 0xffff == c3,
{
    let word: u64 = ((c0 as u64) << 48) | ((c1 as u64) << 32) | ((c2 as u64) << 16) | (c3 as u64);
    lemma_pack_fields(c0, c1, c2, c3);
    assert(word == packed_value(c0, c1, c2, c3));
    assert((word >> 48) & 0xffff == c0 as u64 && (word >> 32) & 0xffff == c1 as u64 && (word >> 16)
        & 0xffff == c2 as u64 && word & 0xffff == c3 as u64) by (bit_vector)
        requires
            word == ((c0 as u64) << 48) | ((c1 as u64) << 32) | ((c2 as u64) << 16) | (c3 as u64),
    ;
}

proof fn lemma_sum_at_least(cells: Seq<u64>, low: int)
    requires
        forall|i: int| 0 <= i < cells.len() ==> low <= #[trigger] cells[i],
    ensures
        cells.len() * low <= sum_of(cells),
    decreases cells.len(),
{
    if cells.len() > 0 {
        lemma_sum_at_least(cells.drop_last(), low);
        assert((cells.len() - 1) * low + low == cells.len() * low) by (nonlinear_arith);
    } else {
        assert(cells.len() * low == 0) by (nonlinear_arith)
            requires
                cells.len() == 0,
        ;
    }
}

/// Where no cell is above `high`, the sum falls short of the sum of as many
/// cells at `high` by at least what cell `k` falls short of `high`.
proof fn lemma_sum_at_most(cells: Seq<u64>, high: int, k: int)
    requires
        forall|i: int| 0 <= i < cells.len() ==> #[trigger] cells[i] <= high,
        0 <= k < cells.len(),
    ensures
        sum_of(cells) <= cells.len() * high - (high - cells[k]),
    decreases cells.len(),
{
    let rest = cells.drop_last();
    assert((cells.len() - 1) * high + high == cells.len() * high) by (nonlinear_arith);
    if k == cells.len() - 1 {
        lemma_sum_upper(rest, high);
    } else {
        lemma_sum_at_most(rest, high, k);
    }
}

proof fn lemma_sum_upper(cells: Seq<u64>, high: int)
    requires
        forall|i: int| 0 <= i < cells.len() ==> #[trigger] cells[i] <= high,
    ensures
        sum_of(cells) <= cells.len() * high,
    decreases cells.len(),
{
    if cells.len() > 0 {
        lemma_sum_upper(cells.drop_last(), high);
        assert((cells.len() - 1) * high + high == cells.len() * high) by (nonlinear_arith);
    } else {
        assert(cells.len() * high == 0) by (nonlinear_arith)
            requires
                cells.len() == 0,
        ;
    }
}

/// A grid whose cells are all equal has the fingerprint zero: no cell is
/// above the mean, which is the value of every cell.
pub proof fn lemma_uniform_grid(cells: Seq<u64>)
    requires
        cells.len() == 64,
        forall|i: int, j: int| 0 <= i < 64 && 0 <= j < 64 ==> cells[i] == cells[j],
    ensures
        mean_of(cells) == cells[0],
        fingerprint_of(cells) == 0,
{
    let value: int = cells[0] as int;
    assert forall|i: int| 0 <= i < cells.len() implies value <= #[trigger] cells[i] by {
        assert(cells[i] == cells[0]);
    }
    assert forall|i: int| 0 <= i < cells.len() implies #[trigger] cells[i] <= value by {
        assert(cells[i] == cells[0]);
    }
    lemma_sum_at_least(cells, value);
    lemma_sum_upper(cells, value);
    assert(sum_of(cells) == 64 * value);
    assert forall|i: int| 0 <= i < 64 implies bit_at(0, i) == (#[trigger] cells[i] > mean_of(
        cells,
    )) by {
        lemma_set_bit(0, 0, i as u64);
        assert(cells[i] == cells[0]);
    }
    lemma_fingerprint_unique(0, cells);
}

/// A grid whose pixels all have the same channel values, each sample being
/// that of the first pixel in the same channel, has the fingerprint zero.
pub proof fn lemma_uniform_pixels(grid: Seq<u8>)
    requires
        grid.len() == 256,
        forall|n: int| 0 <= n < 256 ==> #[trigger] grid[n] == grid[n % 4],
    ensures
        fingerprint_of(cells_of(grid)) == 0,
{
    let cells = cells_of(grid);
    assert forall|i: int, j: int| 0 <= i < 64 && 0 <= j < 64 implies cells[i] == cells[j] by {
        assert(grid[4 * i] == grid[0] && grid[4 * j] == grid[0]);
        assert(grid[4 * i + 1] == grid[1] && grid[4 * j + 1] == grid[1]);
        assert(grid[4 * i + 2] == grid[2] && grid[4 * j + 2] == grid[2]);
        assert(grid[4 * i + 3] == grid[3] && grid[4 * j + 3] == grid[3]);
    }
    lemma_uniform_grid(cells);
}

/// Two grids that have the same upper half, the lower half of one at the
/// darkest value and that of the other at the lightest, have fingerprints
/// that are complements of one another in the bits of the lower half: clear
/// for the dark grid, set for the light one. The upper half must hold a cell
/// that is not at the lightest value: with none, the light grid is uniform
/// and its fingerprint is zero.
pub proof fn lemma_lower_half_flips(dark: Seq<u64>, light: Seq<u64>, darkest: u64, lightest: u64)
    requires
        dark.len() == 64,
        light.len() == 64,
        forall|i: int| 0 <= i < 32 ==> dark[i] == light[i],
        forall|i: int| 0 <= i < 32 ==> darkest <= #[trigger] dark[i] <= lightest,
        forall|i: int| 32 <= i < 64 ==> #[trigger] dark[i] == darkest,
        forall|i: int| 32 <= i < 64 ==> #[trigger] light[i] == lightest,
        exists|k: int| 0 <= k < 32 && #[trigger] dark[k] < lightest,
    ensures
        forall|i: int|
            32 <= i < 64 ==> !(#[trigger] bit_at(fingerprint_of(dark), i)) && bit_at(
                fingerprint_of(light),
                i,
            ),
{
    let k = choose|k: int| 0 <= k < 32 && #[trigger] dark[k] < lightest;
    assert(light[k] == dark[k]);
    assert forall|i: int| 0 <= i < dark.len() implies darkest as int <= #[trigger] dark[i] by {}
    assert forall|i: int| 0 <= i < light.len() implies #[trigger] light[i] <= lightest as int by {
        if i < 32 {
            assert(light[i] == dark[i]);
        }
    }
    lemma_sum_at_least(dark, darkest as int);
    lemma_sum_at_most(light, lightest as int, k);
    assert(mean_of(dark) >= darkest);
    assert(mean_of(light) < lightest);
    lemma_fingerprint_exists(dark);
    lemma_fingerprint_exists(light);
    assert forall|i: int| 32 <= i < 64 implies !(#[trigger] bit_at(fingerprint_of(dark), i))
        && bit_at(fingerprint_of(light), i) by {
        assert(bit_at(fingerprint_of(dark), i) == (dark[i] > mean_of(dark)));
        assert(bit_at(fingerprint_of(light), i) == (light[i] > mean_of(light)));
    }
}

/// Every grid has a fingerprint: bit `i` of `fingerprint_of` says whether
/// cell `i` is above the mean.
pub proof fn lemma_fingerprint_exists(cells: Seq<u64>)
    ensures
        is_fingerprint_of(fingerprint_of(cells), cells),
{
    let word = word_up_to(cells, 64);
    lemma_word_up_to(cells, 64);
    assert(is_fingerprint_of(word, cells));
}

/// The word whose bits below `n` are those of the fingerprint of `cells`,
/// and whose other bits are clear.
spec fn word_up_to(cells: Seq<u64>, n: nat) -> u64
    decreases n,
{
    if n == 0 {
        0
    } else if cells[n - 1] > mean_of(cells) {
        word_up_to(cells, (n - 1) as nat) | (1u64 << ((n - 1) as u64))
    } else {
        word_up_to(cells, (n - 1) as nat)
    }
}

proof fn lemma_word_up_to(cells: Seq<u64>, n: nat)
    requires
        n <= 64,
    ensures
        forall|j: int|
            0 <= j < 64 ==> #[trigger] bit_at(word_up_to(cells, n), j) == (j < n && cells[j]
                > mean_of(cells)),
    decreases n,
{
    if n == 0 {
        assert forall|j: int| 0 <= j < 64 implies !#[trigger] bit_at(word_up_to(cells, n), j) by {
            lemma_set_bit(0, 0, j as u64);
        }
    } else {
        let before = word_up_to(cells, (n - 1) as nat);
        lemma_word_up_to(cells, (n - 1) as nat);
        assert forall|j: int| 0 <= j < 64 implies #[trigger] bit_at(word_up_to(cells, n), j) == (j
            < n && cells[j] > mean_of(cells)) by {
            lemma_set_bit(before, (n - 1) as u64, j as u64);
            assert(bit_at(before, j) == (j < n - 1 && cells[j] > mean_of(cells)));
        }
    }
}

} // verus!
