use vstd::prelude::*;
use crate::candidates::stride_of;
use crate::frame::{Color, Frame};

verus! {

/// Length of the run of equal colors that contains position `i` of `line`
/// and stops there: how many positions up to `i` have held `line[i]` without
/// a break.
pub open spec fn run_len(line: Seq<Color>, i: int) -> int
    decreases i,
{
    if i > 0 && line[i - 1] == line[i] {
        run_len(line, i - 1) + 1
    } else {
        1
    }
}

/// Position `i` is the last of its run.
pub open spec fn ends_run(line: Seq<Color>, i: int) -> bool {
    i + 1 == line.len() || line[i + 1] != line[i]
}

/// The run that ends at `i` is taken as evidence: with `ignore_border`, a
/// run that starts at the first position or ends at the last one is passed
/// over.
pub open spec fn counted(line: Seq<Color>, i: int, ignore_border: bool) -> bool {
    &&& 0 <= i < line.len()
    &&& ends_run(line, i)
    &&& (!ignore_border || (run_len(line, i) <= i && i + 1 < line.len()))
}

/// A counted run of one pixel ends at `i`.
pub open spec fn singleton_at(line: Seq<Color>, i: int, ignore_border: bool) -> bool {
    counted(line, i, ignore_border) && run_len(line, i) == 1
}

/// A counted run that is not fully transparent ends at `i`.
pub open spec fn candidate_at(line: Seq<Color>, i: int, ignore_border: bool) -> bool {
    counted(line, i, ignore_border) && line[i].a > 0
}

/// Row `y` of `f`, left to right.
pub open spec fn row(f: &Frame, y: int) -> Seq<Color> {
    Seq::new(f.width_spec() as nat, |x: int| f.at(x, y))
}

/// Column `x` of `f`, top to bottom.
pub open spec fn column(f: &Frame, x: int) -> Seq<Color> {
    Seq::new(f.height_spec() as nat, |y: int| f.at(x, y))
}

/// Row `j` when `horizontal`, else column `j`.
pub open spec fn line(f: &Frame, horizontal: bool, j: int) -> Seq<Color> {
    if horizontal {
        row(f, j)
    } else {
        column(f, j)
    }
}

/// Number of rows when `horizontal`, else of columns.
pub open spec fn line_count(f: &Frame, horizontal: bool) -> int {
    if horizontal {
        f.height_spec() as int
    } else {
        f.width_spec() as int
    }
}

/// A counted single-pixel run ends at position `i` of line `j`.
pub open spec fn singleton_event(f: &Frame, b: bool, horizontal: bool, j: int, i: int) -> bool {
    0 <= j < line_count(f, horizontal) && singleton_at(line(f, horizontal, j), i, b)
}

/// A counted, not fully transparent run ends at position `i` of line `j`.
pub open spec fn candidate_event(f: &Frame, b: bool, horizontal: bool, j: int, i: int) -> bool {
    0 <= j < line_count(f, horizontal) && candidate_at(line(f, horizontal, j), i, b)
}

/// Length of the run that ends at position `i` of line `j`.
pub open spec fn event_len(f: &Frame, horizontal: bool, j: int, i: int) -> int {
    run_len(line(f, horizontal, j), i)
}

/// Some row or column of `f` holds a counted run of one pixel: no uniform
/// magnification can have produced the frame.
pub open spec fn frame_disproved(f: &Frame, ignore_border: bool) -> bool {
    exists|horizontal: bool, j: int, i: int| #[trigger] singleton_event(f, ignore_border, horizontal, j, i)
}

/// The lengths of the counted, not fully transparent runs of every row and
/// every column of `f`.
pub open spec fn frame_candidates(f: &Frame, ignore_border: bool) -> Set<int> {
    Set::new(
        |n: int|
            exists|horizontal: bool, j: int, i: int|
                #[trigger] candidate_event(f, ignore_border, horizontal, j, i) && n == event_len(
                    f,
                    horizontal,
                    j,
                    i,
                ),
    )
}

/// The stride detected in one frame.
pub open spec fn frame_stride(f: &Frame, ignore_border: bool) -> int {
    if frame_disproved(f, ignore_border) {
        1
    } else {
        stride_of(frame_candidates(f, ignore_border))
    }
}

/// A run is at least one pixel long and no longer than the positions up to
/// its end.
pub proof fn lemma_run_len_bounds(line: Seq<Color>, i: int)
    requires
        0 <= i,
    ensures
        1 <= run_len(line, i) <= i + 1,
    decreases i,
{
    if i > 0 && line[i - 1] == line[i] {
        lemma_run_len_bounds(line, i - 1);
    }
}

} // verus!
