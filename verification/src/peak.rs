//! Peaks of halite: cells that hold more than the cells before and after
//! them on their line, and the far ends of plateaus that do.
use crate::game_map::GameMap;
use crate::position::Position;
use vstd::prelude::*;

verus! {

/// Whether a plateau lies above or below the cell next to it.
#[derive(Copy, Clone, Debug, PartialEq, Eq, Structural)]
pub enum BufferClass {
    Max,
    Min,
}

/// What a window of three cells in a line shows at its middle cell.
#[derive(Copy, Clone, Debug, PartialEq, Eq, Structural)]
pub enum PeakProcess {
    /// The middle cell holds more than both its neighbours.
    Maximum,
    /// A plateau begins at the middle cell.
    BufferBegin(BufferClass),
    /// A plateau ends at the middle cell.
    BufferEnd(BufferClass),
}

/// What three amounts in a line show at the middle one.
pub open spec fn window_kind(before: int, here: int, after: int) -> Option<PeakProcess> {
    if before < here && here > after {
        Some(PeakProcess::Maximum)
    } else if before == here && here > after {
        Some(PeakProcess::BufferEnd(BufferClass::Max))
    } else if before == here && here < after {
        Some(PeakProcess::BufferEnd(BufferClass::Min))
    } else if before > here && here == after {
        Some(PeakProcess::BufferBegin(BufferClass::Min))
    } else if before < here && here == after {
        Some(PeakProcess::BufferBegin(BufferClass::Max))
    } else {
        None
    }
}

/// What the window around the cell `col` of the line `row` shows. A line
/// is the set of cells with the same `x`.
pub open spec fn window_at(map: GameMap, row: int, col: int) -> Option<PeakProcess> {
    window_kind(
        map.richness(Position { x: row as i32, y: (col - 1) as i32 }) as int,
        map.richness(Position { x: row as i32, y: col as i32 }) as int,
        map.richness(Position { x: row as i32, y: (col + 1) as i32 }) as int,
    )
}

/// A scan along a line: the peaks found so far and the kind of the plateau
/// that began last.
pub struct LineScan {
    pub peaks: Seq<(i32, i32)>,
    pub plateau: Option<BufferClass>,
}

/// The scan of the line `row` up to, not including, the cell `cols`,
/// continuing from the peaks `found` on the lines before. A cell is a peak
/// if it is a maximum, or if a plateau above its neighbours ends at it and
/// the plateau that began last on the line was above its neighbours too.
pub open spec fn line_scan(map: GameMap, found: Seq<(i32, i32)>, row: int, cols: int) -> LineScan
    decreases cols,
{
    if cols <= 0 {
        LineScan { peaks: found, plateau: None }
    } else {
        let before = line_scan(map, found, row, cols - 1);
        let here = (row as i32, (cols - 1) as i32);
        match window_at(map, row, cols - 1) {
            Some(PeakProcess::Maximum) => LineScan { peaks: before.peaks.push(here), ..before },
            Some(PeakProcess::BufferBegin(class)) => LineScan { plateau: Some(class), ..before },
            Some(PeakProcess::BufferEnd(BufferClass::Max)) => if before.plateau == Some(
                BufferClass::Max,
            ) {
                LineScan { peaks: before.peaks.push(here), ..before }
            } else {
                before
            },
            _ => before,
        }
    }
}

/// The peaks on the first `rows` lines, each line scanned over `cols`
/// cells, line by line.
pub open spec fn peaks_of(map: GameMap, rows: int, cols: int) -> Seq<(i32, i32)>
    decreases rows,
{
    if rows <= 0 {
        Seq::empty()
    } else {
        line_scan(map, peaks_of(map, rows - 1, cols), rows - 1, cols).peaks
    }
}

/// What the window around the cell `col` of the line `row` shows.
pub fn process_window(row: i32, col: i32, map: &GameMap) -> (r: Option<PeakProcess>)
    requires
        map.wf(),
        i32::MIN < col < i32::MAX,
    ensures
        r == window_at(*map, row as int, col as int),
{
    let c1 = map.at_position(&Position { x: row, y: col - 1 });
    let c2 = map.at_position(&Position { x: row, y: col });
    let c3 = map.at_position(&Position { x: row, y: col + 1 });
    if c1 < c2 && c2 > c3 {
        Some(PeakProcess::Maximum)
    } else if c1 == c2 && c2 > c3 {
        Some(PeakProcess::BufferEnd(BufferClass::Max))
    } else if c1 == c2 && c2 < c3 {
        Some(PeakProcess::BufferEnd(BufferClass::Min))
    } else if c1 > c2 && c2 == c3 {
        Some(PeakProcess::BufferBegin(BufferClass::Min))
    } else if c1 < c2 && c2 == c3 {
        Some(PeakProcess::BufferBegin(BufferClass::Max))
    } else {
        None
    }
}

/// The peaks of the grid as pairs of line and cell: as many lines as the
/// grid is high, each scanned over as many cells as the grid is wide.
pub fn find_peaks(map: &GameMap) -> (r: Vec<(i32, i32)>)
    requires
        map.wf(),
    ensures
        r@ == peaks_of(*map, map.spec_height(), map.spec_width()),
{
    proof {
        map.lemma_wf();
    }
    let height = map.height();
    let width = map.width();
    let mut peaks: Vec<(i32, i32)> = Vec::new();
    let mut i: usize = 0;
    while i < height
        invariant
            map.wf(),
            height == map.spec_height(),
            width == map.spec_width(),
            0 < width <= i32::MAX,
            0 <= i <= height <= i32::MAX,
            peaks@ == peaks_of(*map, i as int, width as int),
        decreases height - i,
    {
        let ghost found = peaks@;
        let mut buffer_start: Option<BufferClass> = None;
        let mut j: usize = 0;
        while j < width
            invariant
                map.wf(),
                0 <= i < height <= i32::MAX,
                0 <= j <= width <= i32::MAX,
                found == peaks_of(*map, i as int, width as int),
                peaks@ == line_scan(*map, found, i as int, j as int).peaks,
                buffer_start == line_scan(*map, found, i as int, j as int).plateau,
            decreases width - j,
        {
            match process_window(i as i32, j as i32, map) {
                Some(PeakProcess::Maximum) => {
                    peaks.push((i as i32, j as i32));
                },
                Some(PeakProcess::BufferBegin(class)) => {
                    buffer_start = Some(class);
                },
                Some(PeakProcess::BufferEnd(class)) => {
                    let above = match (buffer_start, class) {
                        (Some(BufferClass::Max), BufferClass::Max) => true,
                        _ => false,
                    };
                    if above {
                        peaks.push((i as i32, j as i32));
                    }
                },
                None => {},
            }
            j += 1;
        }
        i += 1;
    }
    peaks
}

} // verus!
