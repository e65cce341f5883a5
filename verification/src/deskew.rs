//! Finding the panel of a trade terminal on a screenshot, and stretching the
//! contrast of a panel.
//!
//! The screenshot is divided into a grid of cells. A panel is a dark background
//! with thin bright accents, so its cells hold both dark pixels and bright,
//! saturated ones; the panel is the largest connected group of such cells.

use vstd::prelude::*;

use crate::blob::{blob_of, is_group, largest_blob, law_blob_is_the_largest_group};
use crate::number::{decimal, push_decimal};
use crate::text::{chars_of, push_text, string_of};

verus! {

/// Which side of the screen a panel is on.
#[derive(Clone, Copy, Debug, PartialEq, Eq, Structural)]
pub enum Side {
    /// The left panel holds the name of the terminal.
    Left,
    /// The right panel holds the list of commodities.
    Right,
}

/// The colour of a pixel.
#[derive(Clone, Copy, Debug, PartialEq, Eq, Structural)]
pub struct Pixel {
    pub r: u8,
    pub g: u8,
    pub b: u8,
}

impl Pixel {
    /// The largest component.
    pub open spec fn brightness(self) -> int {
        if self.r >= self.g && self.r >= self.b {
            self.r as int
        } else if self.g >= self.b {
            self.g as int
        } else {
            self.b as int
        }
    }

    /// The smallest component.
    pub open spec fn darkness(self) -> int {
        if self.r <= self.g && self.r <= self.b {
            self.r as int
        } else if self.g <= self.b {
            self.g as int
        } else {
            self.b as int
        }
    }

    /// Bright and saturated, of whatever hue.
    pub open spec fn is_accent(self) -> bool {
        self.brightness() > 95 && self.brightness() - self.darkness() > 32
    }

    /// Dark.
    pub open spec fn is_dark(self) -> bool {
        self.brightness() < 55
    }
}

fn largest_component(p: Pixel) -> (m: u8)
    ensures
        m == p.brightness(),
{
    if p.r >= p.g && p.r >= p.b {
        p.r
    } else if p.g >= p.b {
        p.g
    } else {
        p.b
    }
}

fn smallest_component(p: Pixel) -> (m: u8)
    ensures
        m == p.darkness(),
{
    if p.r <= p.g && p.r <= p.b {
        p.r
    } else if p.g <= p.b {
        p.g
    } else {
        p.b
    }
}

/// Whether a pixel is a bright, saturated one of the interface. Panels have
/// different accent colours at different places, so brightness and saturation
/// count and not the hue; white, grey and the dark scene are left out.
pub fn is_ui_pixel(p: Pixel) -> (r: bool)
    ensures
        r == p.is_accent(),
{
    let most = largest_component(p);
    let least = smallest_component(p);
    most > 95 && most - least > 32
}

/// Whether a pixel is dark.
pub fn is_dark_pixel(p: Pixel) -> (r: bool)
    ensures
        r == p.is_dark(),
{
    largest_component(p) < 55
}

/// The number of cells from left to right.
pub const COLUMNS: usize = 160;

/// The number of cells from top to bottom.
pub const ROWS: usize = 90;

/// The number of cells.
pub const CELLS: usize = 14_400;

/// The cell of pixel `p`, given the cell column of each pixel column and the cell
/// row of each pixel row.
pub open spec fn cell_of(columns: Seq<usize>, rows: Seq<usize>, p: int) -> int {
    rows[p / columns.len() as int] * COLUMNS + columns[p % columns.len() as int]
}

/// How many of the first `n` pixels lie in a cell and are accents.
pub open spec fn accents(
    pixels: Seq<Pixel>,
    columns: Seq<usize>,
    rows: Seq<usize>,
    cell: int,
    n: int,
) -> nat
    decreases n,
{
    if n <= 0 {
        0
    } else {
        accents(pixels, columns, rows, cell, n - 1) + if cell_of(columns, rows, n - 1) == cell
            && pixels[n - 1].is_accent() {
            1nat
        } else {
            0nat
        }
    }
}

/// How many of the first `n` pixels lie in a cell and are dark.
pub open spec fn darks(
    pixels: Seq<Pixel>,
    columns: Seq<usize>,
    rows: Seq<usize>,
    cell: int,
    n: int,
) -> nat
    decreases n,
{
    if n <= 0 {
        0
    } else {
        darks(pixels, columns, rows, cell, n - 1) + if cell_of(columns, rows, n - 1) == cell
            && pixels[n - 1].is_dark() {
            1nat
        } else {
            0nat
        }
    }
}

/// An image of as many pixels as the columns and rows make, each of them in some
/// cell, and not so many that they could not be counted.
pub open spec fn is_grid(pixels: Seq<Pixel>, columns: Seq<usize>, rows: Seq<usize>) -> bool {
    &&& pixels.len() == columns.len() * rows.len()
    &&& pixels.len() <= u32::MAX
    &&& forall|x: int| 0 <= x < columns.len() ==> #[trigger] columns[x] < COLUMNS
    &&& forall|y: int| 0 <= y < rows.len() ==> #[trigger] rows[y] < ROWS
}

fn zeros() -> (v: Vec<u32>)
    ensures
        v@.len() == CELLS,
        forall|i: int| 0 <= i < CELLS ==> #[trigger] v@[i] == 0,
{
    let mut v: Vec<u32> = Vec::new();
    let mut i: usize = 0;
    while i < CELLS
        invariant
            i <= CELLS,
            v@.len() == i,
            forall|k: int| 0 <= k < i ==> #[trigger] v@[k] == 0,
        decreases CELLS - i,
    {
        v.push(0);
        i += 1;
    }
    v
}

/// Pixel `p` of a grid is in some column and row.
proof fn lemma_pixel_place(pixels: Seq<Pixel>, columns: Seq<usize>, rows: Seq<usize>, p: int)
    requires
        is_grid(pixels, columns, rows),
        0 <= p < pixels.len(),
    ensures
        columns.len() > 0,
        0 <= p % columns.len() as int,
        (p % columns.len() as int) < columns.len(),
        0 <= p / columns.len() as int,
        (p / columns.len() as int) < rows.len(),
        0 <= cell_of(columns, rows, p) < CELLS,
{
    let w = columns.len() as int;
    let h = rows.len() as int;
    if w == 0 {
        assert(w * h == 0) by (nonlinear_arith)
            requires
                w == 0,
        ;
    }
    assert(0 <= p % w < w && 0 <= p / w < h) by (nonlinear_arith)
        requires
            w > 0,
            0 <= p < w * h,
    ;
    assert(columns[p % w] < COLUMNS);
    assert(rows[p / w] < ROWS);
}

/// Counts the accents and the dark pixels of each cell.
fn count_cells(pixels: &Vec<Pixel>, columns: &Vec<usize>, rows: &Vec<usize>) -> (r: (
    Vec<u32>,
    Vec<u32>,
))
    requires
        is_grid(pixels@, columns@, rows@),
    ensures
        r.0@.len() == CELLS,
        r.1@.len() == CELLS,
        forall|i: int|
            0 <= i < CELLS ==> #[trigger] r.0@[i] == accents(
                pixels@,
                columns@,
                rows@,
                i,
                pixels@.len() as int,
            ),
        forall|i: int|
            0 <= i < CELLS ==> #[trigger] r.1@[i] == darks(
                pixels@,
                columns@,
                rows@,
                i,
                pixels@.len() as int,
            ),
{
    let mut ui = zeros();
    let mut dark = zeros();
    let mut p: usize = 0;
    while p < pixels.len()
        invariant
            is_grid(pixels@, columns@, rows@),
            p <= pixels.len(),
            ui@.len() == CELLS,
            dark@.len() == CELLS,
            forall|i: int|
                0 <= i < CELLS ==> #[trigger] ui@[i] == accents(
                    pixels@,
                    columns@,
                    rows@,
                    i,
                    p as int,
                ) && ui@[i] <= p,
            forall|i: int|
                0 <= i < CELLS ==> #[trigger] dark@[i] == darks(
                    pixels@,
                    columns@,
                    rows@,
                    i,
                    p as int,
                ) && dark@[i] <= p,
        decreases pixels.len() - p,
    {
        proof {
            lemma_pixel_place(pixels@, columns@, rows@, p as int);
        }
        let i: usize = rows[p / columns.len()] * COLUMNS + columns[p % columns.len()];
        if is_ui_pixel(pixels[p]) {
            let n = ui[i];
            ui.set(i, n + 1);
        }
        if is_dark_pixel(pixels[p]) {
            let n = dark[i];
            dark.set(i, n + 1);
        }
        p += 1;
    }
    (ui, dark)
}

/// How many accents a cell of so many pixels needs.
pub open spec fn accents_needed(cell_pixels: int) -> int {
    if cell_pixels / 80 < 2 {
        2
    } else {
        cell_pixels / 80
    }
}

/// How many dark pixels a cell of so many pixels needs: three tenths.
pub open spec fn darks_needed(cell_pixels: int) -> int {
    3 * cell_pixels / 10
}

/// The columns of cells that belong to a side: a little less than half of them.
pub open spec fn on_side(side: Side, column: int) -> bool {
    match side {
        Side::Right => 88 <= column,
        Side::Left => column < 72,
    }
}

/// The cells of a side that look like a panel.
pub open spec fn panel_mask(
    pixels: Seq<Pixel>,
    columns: Seq<usize>,
    rows: Seq<usize>,
    cell_pixels: int,
    side: Side,
) -> Seq<bool> {
    Seq::new(
        CELLS as nat,
        |i: int|
            on_side(side, i % COLUMNS as int) && accents(
                pixels,
                columns,
                rows,
                i,
                pixels.len() as int,
            ) >= accents_needed(cell_pixels) && darks(
                pixels,
                columns,
                rows,
                i,
                pixels.len() as int,
            ) >= darks_needed(cell_pixels),
    )
}

/// The cells of the panel on a side: the largest connected group of cells that
/// look like one, where it has twenty cells or more.
pub open spec fn panel_cells(
    pixels: Seq<Pixel>,
    columns: Seq<usize>,
    rows: Seq<usize>,
    cell_pixels: int,
    side: Side,
) -> Option<Seq<(usize, usize)>> {
    let cells = blob_of(
        panel_mask(pixels, columns, rows, cell_pixels, side),
        COLUMNS as int,
        ROWS as int,
    );
    if cells.len() < 20 {
        None
    } else {
        Some(cells)
    }
}

/// Finds the cells, as columns and rows, of the panel on a side. `columns` and
/// `rows` give the cell column and row of each pixel column and row, and
/// `cell_pixels` is the size of a cell.
pub fn find_panel_cells(
    pixels: &Vec<Pixel>,
    columns: &Vec<usize>,
    rows: &Vec<usize>,
    cell_pixels: u32,
    side: Side,
) -> (r: Option<Vec<(usize, usize)>>)
    requires
        is_grid(pixels@, columns@, rows@),
    ensures
        match r {
            Some(cells) => panel_cells(pixels@, columns@, rows@, cell_pixels as int, side) == Some(
                cells@,
            ),
            None => panel_cells(pixels@, columns@, rows@, cell_pixels as int, side) is None,
        },
{
    let (ui, dark) = count_cells(pixels, columns, rows);
    let ui_needed: u32 = if cell_pixels / 80 < 2 {
        2
    } else {
        cell_pixels / 80
    };
    let dark_needed: u64 = 3 * (cell_pixels as u64) / 10;
    let ghost mask = panel_mask(pixels@, columns@, rows@, cell_pixels as int, side);
    let mut on: Vec<bool> = Vec::new();
    let mut i: usize = 0;
    while i < CELLS
        invariant
            i <= CELLS,
            ui@.len() == CELLS,
            dark@.len() == CELLS,
            mask == panel_mask(pixels@, columns@, rows@, cell_pixels as int, side),
            forall|i: int|
                0 <= i < CELLS ==> #[trigger] ui@[i] == accents(
                    pixels@,
                    columns@,
                    rows@,
                    i,
                    pixels@.len() as int,
                ),
            forall|i: int|
                0 <= i < CELLS ==> #[trigger] dark@[i] == darks(
                    pixels@,
                    columns@,
                    rows@,
                    i,
                    pixels@.len() as int,
                ),
            ui_needed == accents_needed(cell_pixels as int),
            dark_needed == darks_needed(cell_pixels as int),
            on@ == mask.take(i as int),
        decreases CELLS - i,
    {
        let column: usize = i % COLUMNS;
        let here = match side {
            Side::Right => 88 <= column,
            Side::Left => column < 72,
        };
        let set = here && ui[i] >= ui_needed && dark[i] as u64 >= dark_needed;
        assert(set == mask[i as int]);
        on.push(set);
        assert(mask.take(i + 1) =~= mask.take(i as int).push(set));
        i += 1;
    }
    assert(mask.take(i as int) =~= mask);
    match largest_blob(&on, COLUMNS, ROWS) {
        Some(cells) => if cells.len() < 20 {
            None
        } else {
            Some(cells)
        },
        None => None,
    }
}

/// How many of `pixels` are at most `v`.
pub open spec fn at_most(pixels: Seq<u8>, v: int) -> nat
    decreases pixels.len(),
{
    if pixels.len() == 0 {
        0
    } else {
        at_most(pixels.drop_last(), v) + if pixels.last() <= v {
            1nat
        } else {
            0nat
        }
    }
}

/// The smallest value, from `from` on, that as many as `target` pixels do not
/// exceed; 255 where there is none.
pub open spec fn percentile_from(pixels: Seq<u8>, target: int, from: int) -> int
    decreases 256 - from,
{
    if from >= 255 {
        255
    } else if at_most(pixels, from) >= target {
        from
    } else {
        percentile_from(pixels, target, from + 1)
    }
}

/// The smallest value that as many as `target` pixels do not exceed.
pub open spec fn percentile_of(pixels: Seq<u8>, target: int) -> int {
    percentile_from(pixels, target, 0)
}

/// `v` on a scale on which `low` is 0 and `high` is 255.
pub open spec fn stretched(v: int, low: int, high: int) -> int {
    if v <= low {
        0
    } else if v >= high {
        255
    } else {
        255 * (v - low) / (high - low)
    }
}

/// The end of the scale: above its start.
pub open spec fn scale_end(low: int, high: int) -> int {
    if high < low + 1 {
        low + 1
    } else {
        high
    }
}

/// The pixels after the contrast was stretched, given how many pixels are to fall
/// below each end of the scale.
pub open spec fn contrasted(pixels: Seq<u8>, low_target: int, high_target: int) -> Seq<u8> {
    let low = percentile_of(pixels, low_target);
    let high = scale_end(low, percentile_of(pixels, high_target));
    Seq::new(pixels.len(), |i: int| stretched(pixels[i] as int, low, high) as u8)
}

fn histogram(pixels: &Vec<u8>) -> (h: Vec<u64>)
    ensures
        h@.len() == 256,
        forall|v: int|
            0 <= v < 256 ==> #[trigger] h@[v] + at_most(pixels@, v - 1) == at_most(pixels@, v),
{
    let mut h: Vec<u64> = Vec::new();
    let mut i: usize = 0;
    while i < 256
        invariant
            i <= 256,
            h@.len() == i,
            forall|k: int| 0 <= k < i ==> #[trigger] h@[k] == 0,
        decreases 256 - i,
    {
        h.push(0);
        i += 1;
    }
    let mut p: usize = 0;
    while p < pixels.len()
        invariant
            p <= pixels.len(),
            h@.len() == 256,
            forall|v: int|
                0 <= v < 256 ==> #[trigger] h@[v] + at_most(pixels@.take(p as int), v - 1)
                    == at_most(pixels@.take(p as int), v) && h@[v] <= p,
        decreases pixels.len() - p,
    {
        assert(pixels@.take(p + 1).drop_last() =~= pixels@.take(p as int));
        let at = pixels[p] as usize;
        let n = h[at];
        h.set(at, n + 1);
        p += 1;
    }
    assert(pixels@.take(p as int) =~= pixels@);
    h
}

fn percentile(h: &Vec<u64>, target: u32, Ghost(pixels): Ghost<Seq<u8>>) -> (v: u32)
    requires
        h@.len() == 256,
        forall|v: int|
            0 <= v < 256 ==> #[trigger] h@[v] + at_most(pixels, v - 1) == at_most(pixels, v),
        pixels.len() <= usize::MAX,
    ensures
        v == percentile_of(pixels, target as int),
        v <= 255,
{
    let mut acc: u128 = 0;
    let mut v: u32 = 0;
    proof {
        lemma_none_below_zero(pixels);
    }
    while v < 255
        invariant
            h@.len() == 256,
            forall|v: int|
                0 <= v < 256 ==> #[trigger] h@[v] + at_most(pixels, v - 1) == at_most(pixels, v),
            v <= 255,
            acc == at_most(pixels, v - 1),
            acc <= v * u64::MAX,
            percentile_of(pixels, target as int) == percentile_from(
                pixels,
                target as int,
                v as int,
            ),
        decreases 255 - v,
    {
        acc += h[v as usize] as u128;
        assert(h@[v as int] + at_most(pixels, v - 1) == at_most(pixels, v as int));
        if acc >= target as u128 {
            return v;
        }
        v += 1;
    }
    255
}

proof fn lemma_none_below_zero(pixels: Seq<u8>)
    ensures
        at_most(pixels, -1) == 0,
    decreases pixels.len(),
{
    if pixels.len() > 0 {
        lemma_none_below_zero(pixels.drop_last());
    }
}

/// Stretches the contrast of an image, so that `low_target` of its pixels come out
/// black and all but the first `high_target` white.
pub fn contrast_stretch(pixels: &mut Vec<u8>, low_target: u32, high_target: u32)
    ensures
        final(pixels)@ == contrasted(old(pixels)@, low_target as int, high_target as int),
{
    let ghost before = pixels@;
    let h = histogram(pixels);
    assert(pixels.len() <= usize::MAX);
    let low = percentile(&h, low_target, Ghost(before));
    let mut high = percentile(&h, high_target, Ghost(before));
    if high < low + 1 {
        high = low + 1;
    }
    let ghost after = contrasted(before, low_target as int, high_target as int);
    let mut i: usize = 0;
    while i < pixels.len()
        invariant
            i <= pixels@.len() == before.len(),
            low <= 255,
            low < high <= 256,
            low == percentile_of(before, low_target as int),
            high == scale_end(low as int, percentile_of(before, high_target as int)),
            after == contrasted(before, low_target as int, high_target as int),
            forall|k: int| 0 <= k < i ==> #[trigger] pixels@[k] == after[k],
            forall|k: int| i <= k < before.len() ==> #[trigger] pixels@[k] == before[k],
        decreases pixels.len() - i,
    {
        let v: u32 = pixels[i] as u32;
        let s: u8 = if v <= low {
            0
        } else if v >= high {
            255
        } else {
            let n: u32 = 255 * (v - low);
            let d: u32 = high - low;
            assert(0 <= n as int / d as int && n as int / d as int <= 255) by (nonlinear_arith)
                requires
                    n as int == 255 * (v - low),
                    d as int == high - low,
                    0 < v - low < high - low,
            ;
            (n / d) as u8
        };
        assert(s == after[i as int]);
        pixels.set(i, s);
        i += 1;
    }
    assert(pixels@ =~= after);
}

/// Stretching keeps the order of the shades and uses the whole scale.
pub proof fn law_stretching_keeps_order(v: int, w: int, low: int, high: int)
    requires
        v <= w,
        low < high,
    ensures
        0 <= stretched(v, low, high) <= stretched(w, low, high) <= 255,
        stretched(low, low, high) == 0,
        stretched(high, low, high) == 255,
{
    let d = high - low;
    if low < v && w < high {
        assert(255 * (v - low) / d <= 255 * (w - low) / d) by (nonlinear_arith)
            requires
                d > 0,
                v <= w,
        ;
    }
    if low < v < high {
        assert(0 <= 255 * (v - low) / d <= 255) by (nonlinear_arith)
            requires
                d > 0,
                0 < v - low < d,
        ;
    }
    if low < w < high {
        assert(0 <= 255 * (w - low) / d <= 255) by (nonlinear_arith)
            requires
                d > 0,
                0 < w - low < d,
        ;
    }
}

/// The letter of a side in file names.
pub open spec fn side_letter(side: Side) -> Seq<char> {
    match side {
        Side::Left => "l"@,
        Side::Right => "r"@,
    }
}

/// The name of a temporary file for a panel.
pub fn panel_file_name(pid: u32, side: Side, run: u64) -> (name: String)
    ensures
        name@ == "ruex_panel_"@ + decimal(pid as nat) + "_"@ + side_letter(side) + "_"@ + decimal(
            run as nat,
        ) + ".png"@,
{
    let mut v = chars_of("ruex_panel_");
    push_decimal(&mut v, pid as u64);
    push_text(&mut v, "_");
    match side {
        Side::Left => push_text(&mut v, "l"),
        Side::Right => push_text(&mut v, "r"),
    }
    push_text(&mut v, "_");
    push_decimal(&mut v, run);
    push_text(&mut v, ".png");
    string_of(&v)
}

/// A pixel is an accent where some component is above 95 and two of them are more than 32
/// apart, and it is dark where all components are below 55; never both.
pub proof fn law_accents_are_bright_and_coloured(p: Pixel)
    ensures
        p.is_accent() <==> {
            &&& p.r > 95 || p.g > 95 || p.b > 95
            &&& {
                ||| p.r - p.g > 32 || p.g - p.r > 32
                ||| p.g - p.b > 32 || p.b - p.g > 32
                ||| p.b - p.r > 32 || p.r - p.b > 32
            }
        },
        p.is_dark() <==> p.r < 55 && p.g < 55 && p.b < 55,
        !(p.is_accent() && p.is_dark()),
{
}

/// Pixel `p` lies in the cell in the given column and row of cells.
pub open spec fn lies_in(
    columns: Seq<usize>,
    rows: Seq<usize>,
    p: int,
    column: int,
    row: int,
) -> bool {
    columns[p % columns.len() as int] == column && rows[p / columns.len() as int] == row
}

/// The accents, or the dark pixels, among the first `n` that lie in a cell.
pub open spec fn pixels_in(
    pixels: Seq<Pixel>,
    columns: Seq<usize>,
    rows: Seq<usize>,
    column: int,
    row: int,
    accent: bool,
    n: int,
) -> Set<int> {
    Set::new(
        |p: int|
            0 <= p < n && lies_in(columns, rows, p, column, row) && if accent {
                pixels[p].is_accent()
            } else {
                pixels[p].is_dark()
            },
    )
}

proof fn lemma_counts(
    pixels: Seq<Pixel>,
    columns: Seq<usize>,
    rows: Seq<usize>,
    column: int,
    row: int,
    n: int,
)
    requires
        is_grid(pixels, columns, rows),
        0 <= column < COLUMNS,
        0 <= row < ROWS,
        0 <= n <= pixels.len(),
    ensures
        ({
            let bright = pixels_in(pixels, columns, rows, column, row, true, n);
            let dark = pixels_in(pixels, columns, rows, column, row, false, n);
            let cell = row * COLUMNS + column;
            &&& bright.finite() && accents(pixels, columns, rows, cell, n) == bright.len()
            &&& dark.finite() && darks(pixels, columns, rows, cell, n) == dark.len()
        }),
    decreases n,
{
    let bright = pixels_in(pixels, columns, rows, column, row, true, n);
    let dark = pixels_in(pixels, columns, rows, column, row, false, n);
    let cell = row * COLUMNS + column;
    if n == 0 {
        assert(bright =~= Set::empty());
        assert(dark =~= Set::empty());
    } else {
        let p = n - 1;
        lemma_counts(pixels, columns, rows, column, row, p);
        lemma_pixel_place(pixels, columns, rows, p);
        let w = columns.len() as int;
        assert(columns[p % w] < COLUMNS);
        assert(cell_of(columns, rows, p) == cell <==> lies_in(columns, rows, p, column, row));
        let bright_before = pixels_in(pixels, columns, rows, column, row, true, p);
        let dark_before = pixels_in(pixels, columns, rows, column, row, false, p);
        if lies_in(columns, rows, p, column, row) && pixels[p].is_accent() {
            assert(bright =~= bright_before.insert(p));
        } else {
            assert(bright =~= bright_before);
        }
        if lies_in(columns, rows, p, column, row) && pixels[p].is_dark() {
            assert(dark =~= dark_before.insert(p));
        } else {
            assert(dark =~= dark_before);
        }
    }
}

/// A cell belongs to the mask of its side exactly where two of its pixels or more are
/// accents, one in eighty at the least, and three in ten are dark. The right side starts
/// at 55 hundredths of the width, and the left one ends at 45.
pub proof fn law_cells_with_few_accents_count(
    pixels: Seq<Pixel>,
    columns: Seq<usize>,
    rows: Seq<usize>,
    cell_pixels: int,
    side: Side,
    column: int,
    row: int,
)
    requires
        is_grid(pixels, columns, rows),
        0 <= cell_pixels,
        0 <= column < 160,
        0 <= row < 90,
    ensures
        ({
            let n = pixels.len() as int;
            let bright = pixels_in(pixels, columns, rows, column, row, true, n).len();
            let dark = pixels_in(pixels, columns, rows, column, row, false, n).len();
            panel_mask(pixels, columns, rows, cell_pixels, side)[row * 160 + column] <==> {
                &&& match side {
                    Side::Right => 100 * column >= 55 * 160,
                    Side::Left => 100 * column < 45 * 160,
                }
                &&& bright >= 2
                &&& 80 * bright + 79 >= cell_pixels
                &&& 10 * dark + 9 >= 3 * cell_pixels
            }
        }),
{
    lemma_counts(pixels, columns, rows, column, row, pixels.len() as int);
    let cell = row * 160 + column;
    assert(cell % 160 == column);
    assert(0 <= cell < CELLS);
}

/// A line of one pixel on a dark ground is enough: it puts a cell of its side into the
/// mask, up to cells of eighty pixels a side.
pub proof fn law_thin_lines_are_seen(
    pixels: Seq<Pixel>,
    columns: Seq<usize>,
    rows: Seq<usize>,
    size: int,
    side: Side,
    column: int,
    row: int,
)
    requires
        is_grid(pixels, columns, rows),
        2 <= size <= 80,
        0 <= row < 90,
        match side {
            Side::Right => 88 <= column < 160,
            Side::Left => 0 <= column < 72,
        },
        pixels_in(pixels, columns, rows, column, row, true, pixels.len() as int).len() >= size,
        10 * pixels_in(pixels, columns, rows, column, row, false, pixels.len() as int).len() >= 3
            * (size * size),
    ensures
        panel_mask(pixels, columns, rows, size * size, side)[row * 160 + column],
{
    law_cells_with_few_accents_count(pixels, columns, rows, size * size, side, column, row);
    assert(size * size <= 80 * size) by (nonlinear_arith)
        requires
            0 <= size <= 80,
    ;
    assert(size * size >= 0) by (nonlinear_arith);
}

/// The panel on a side is a largest group of connected cells of the mask; it is found
/// exactly where there is a group of twenty cells or more.
pub proof fn law_panel_is_the_largest_group(
    pixels: Seq<Pixel>,
    columns: Seq<usize>,
    rows: Seq<usize>,
    cell_pixels: int,
    side: Side,
)
    ensures
        ({
            let mask = panel_mask(pixels, columns, rows, cell_pixels, side);
            match panel_cells(pixels, columns, rows, cell_pixels, side) {
                Some(cells) => {
                    &&& cells.len() >= 20
                    &&& is_group(mask, 160, 90, cells)
                    &&& forall|group: Seq<(usize, usize)>| #[trigger]
                        is_group(mask, 160, 90, group) ==> group.len() <= cells.len()
                },
                None => forall|group: Seq<(usize, usize)>| #[trigger]
                    is_group(mask, 160, 90, group) ==> group.len() < 20,
            }
        }),
{
    let mask = panel_mask(pixels, columns, rows, cell_pixels, side);
    law_blob_is_the_largest_group(mask, COLUMNS as int, ROWS as int);
}

/// A percentile is the smallest shade that as many pixels as asked for do not exceed; it
/// is the brightest one where there are too few pixels.
pub proof fn law_percentile_is_the_smallest(pixels: Seq<u8>, target: int)
    ensures
        0 <= percentile_of(pixels, target) <= 255,
        percentile_of(pixels, target) < 255 ==> at_most(pixels, percentile_of(pixels, target))
            >= target,
        forall|v: int|
            0 <= v < percentile_of(pixels, target) ==> #[trigger] at_most(pixels, v) < target,
{
    lemma_percentile_from(pixels, target, 0);
}

proof fn lemma_percentile_from(pixels: Seq<u8>, target: int, from: int)
    requires
        0 <= from <= 255,
    ensures
        from <= percentile_from(pixels, target, from) <= 255,
        percentile_from(pixels, target, from) < 255 ==> at_most(
            pixels,
            percentile_from(pixels, target, from),
        ) >= target,
        forall|v: int|
            from <= v < percentile_from(pixels, target, from) ==> #[trigger] at_most(pixels, v)
                < target,
    decreases 255 - from,
{
    if from < 255 && at_most(pixels, from) < target {
        lemma_percentile_from(pixels, target, from + 1);
    }
}

/// How many pixels a shade is not exceeded by, as a set.
pub proof fn law_at_most_counts(pixels: Seq<u8>, v: int)
    ensures
        at_most(pixels, v) == Set::new(|i: int| 0 <= i < pixels.len() && pixels[i] <= v).len(),
        Set::new(|i: int| 0 <= i < pixels.len() && pixels[i] <= v).finite(),
    decreases pixels.len(),
{
    let found = Set::new(|i: int| 0 <= i < pixels.len() && pixels[i] <= v);
    if pixels.len() == 0 {
        assert(found =~= Set::empty());
    } else {
        let shorter = pixels.drop_last();
        law_at_most_counts(shorter, v);
        let before = Set::new(|i: int| 0 <= i < shorter.len() && shorter[i] <= v);
        if pixels.last() <= v {
            assert(found =~= before.insert(pixels.len() - 1));
        } else {
            assert(found =~= before);
        }
    }
}

/// Stretching the contrast turns what is at or below the lower percentile black, what is
/// at or above the upper one white, and puts the shades between in proportion, rounded
/// down. Where the two percentiles are the same shade, the next one is white already.
pub proof fn law_contrast_is_in_proportion(
    pixels: Seq<u8>,
    low_target: int,
    high_target: int,
    i: int,
)
    requires
        0 <= i < pixels.len(),
    ensures
        ({
            let low = percentile_of(pixels, low_target);
            let upper = percentile_of(pixels, high_target);
            let high = if upper > low {
                upper
            } else {
                low + 1
            };
            let after = contrasted(pixels, low_target, high_target);
            let shade = after[i] as int;
            &&& after.len() == pixels.len()
            &&& pixels[i] <= low ==> shade == 0
            &&& pixels[i] >= high ==> shade == 255
            &&& low < pixels[i] < high ==> shade * (high - low) <= 255 * (pixels[i] - low) < (shade
                + 1) * (high - low)
        }),
{
    let low = percentile_of(pixels, low_target);
    let high = scale_end(low, percentile_of(pixels, high_target));
    let v = pixels[i] as int;
    law_stretching_keeps_order(v, v, low, high);
    if low < v < high {
        let n = 255 * (v - low);
        let d = high - low;
        let q = n / d;
        assert(q * d <= n < (q + 1) * d) by (nonlinear_arith)
            requires
                d > 0,
                n >= 0,
                q == n / d,
        ;
    }
}

} // verus!
