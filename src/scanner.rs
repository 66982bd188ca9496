use vstd::prelude::*;
use crate::candidates::CandidateSet;
use crate::frame::{Color, Frame};
use crate::runs::{
    candidate_at, candidate_event, column, event_len, frame_candidates, frame_disproved,
    lemma_run_len_bounds, line, line_count, row, run_len, singleton_at, singleton_event,
};

verus! {

/// The color a run is taken to have before the first pixel of a line.
spec fn blank() -> Color {
    Color { r: 0, g: 0, b: 0, a: 0 }
}

/// The run in progress along one row or column.
#[derive(Clone, Copy)]
struct RunState {
    color: Color,
    run_length: u32,
}

/// `st` is the run in progress after the first `k` pixels of `line`.
spec fn run_state_at(st: RunState, line: Seq<Color>, k: int) -> bool {
    &&& k == 0 ==> st.run_length == 0 && st.color == blank()
    &&& k > 0 ==> st.color == line[k - 1] && st.run_length as int == run_len(line, k - 1)
}

/// How far the scan has come: rows before `p.0` are done, and the first
/// `p.1` pixels of row `p.0`; columns before `p.3` have seen `p.2 + 1`
/// pixels, the others `p.2`. Position `i` of a line is known to end a run or
/// not once the pixel after it has been seen, or the line is finished.
spec fn seen(p: (int, int, int, int), horizontal: bool, j: int, i: int) -> bool {
    if horizontal {
        j < p.0 || (j == p.0 && i + 1 < p.1)
    } else if j < p.3 {
        i < p.2
    } else {
        i + 1 < p.2
    }
}

/// The candidates among the runs that the scan has closed by `p`.
spec fn scanned_candidates(f: &Frame, b: bool, p: (int, int, int, int)) -> Set<int> {
    Set::new(
        |n: int|
            exists|horizontal: bool, j: int, i: int|
                #[trigger] seen(p, horizontal, j, i) && candidate_event(f, b, horizontal, j, i) && n
                    == event_len(f, horizontal, j, i),
    )
}

/// A disproof among the runs that the scan has closed by `p`.
spec fn scanned_disproved(f: &Frame, b: bool, p: (int, int, int, int)) -> bool {
    exists|horizontal: bool, j: int, i: int|
        #[trigger] seen(p, horizontal, j, i) && singleton_event(f, b, horizontal, j, i)
}

/// Moving from `p` to `q` closes the single position `i0` of line `j0`.
proof fn lemma_step(
    f: &Frame,
    b: bool,
    p: (int, int, int, int),
    q: (int, int, int, int),
    h0: bool,
    j0: int,
    i0: int,
)
    requires
        forall|horizontal: bool, j: int, i: int|
            0 <= j < line_count(f, horizontal) && 0 <= i < line(f, horizontal, j).len() ==> seen(
                q,
                horizontal,
                j,
                i,
            ) == (seen(p, horizontal, j, i) || (horizontal == h0 && j == j0 && i == i0)),
    ensures
        scanned_candidates(f, b, q) == (if candidate_event(f, b, h0, j0, i0) {
            scanned_candidates(f, b, p).insert(event_len(f, h0, j0, i0))
        } else {
            scanned_candidates(f, b, p)
        }),
        scanned_disproved(f, b, q) == (scanned_disproved(f, b, p) || singleton_event(
            f,
            b,
            h0,
            j0,
            i0,
        )),
{
    let sp = scanned_candidates(f, b, p);
    let sq = scanned_candidates(f, b, q);
    let target = if candidate_event(f, b, h0, j0, i0) {
        sp.insert(event_len(f, h0, j0, i0))
    } else {
        sp
    };
    assert forall|n: int| sq.contains(n) implies target.contains(n) by {
        let (hz, j, i) = choose|hz: bool, j: int, i: int|
            #[trigger] seen(q, hz, j, i) && candidate_event(f, b, hz, j, i) && n == event_len(
                f,
                hz,
                j,
                i,
            );
        if !(hz == h0 && j == j0 && i == i0) {
            assert(seen(p, hz, j, i));
        }
    }
    assert forall|n: int| target.contains(n) implies sq.contains(n) by {
        if sp.contains(n) {
            let (hz, j, i) = choose|hz: bool, j: int, i: int|
                #[trigger] seen(p, hz, j, i) && candidate_event(f, b, hz, j, i) && n == event_len(
                    f,
                    hz,
                    j,
                    i,
                );
            assert(seen(q, hz, j, i));
        } else {
            assert(seen(q, h0, j0, i0));
        }
    }
    assert(sq =~= target);
    if scanned_disproved(f, b, q) {
        let (hz, j, i) = choose|hz: bool, j: int, i: int|
            #[trigger] seen(q, hz, j, i) && singleton_event(f, b, hz, j, i);
        if !(hz == h0 && j == j0 && i == i0) {
            assert(seen(p, hz, j, i));
        }
    }
    if scanned_disproved(f, b, p) {
        let (hz, j, i) = choose|hz: bool, j: int, i: int|
            #[trigger] seen(p, hz, j, i) && singleton_event(f, b, hz, j, i);
        assert(seen(q, hz, j, i));
    }
    if singleton_event(f, b, h0, j0, i0) {
        assert(seen(q, h0, j0, i0));
    }
}

/// Two stages that have closed the same positions have found the same.
proof fn lemma_same_progress(f: &Frame, b: bool, p: (int, int, int, int), q: (int, int, int, int))
    requires
        forall|horizontal: bool, j: int, i: int|
            0 <= j < line_count(f, horizontal) && 0 <= i < line(f, horizontal, j).len() ==> seen(
                q,
                horizontal,
                j,
                i,
            ) == seen(p, horizontal, j, i),
    ensures
        scanned_candidates(f, b, q) == scanned_candidates(f, b, p),
        scanned_disproved(f, b, q) == scanned_disproved(f, b, p),
{
    let sp = scanned_candidates(f, b, p);
    let sq = scanned_candidates(f, b, q);
    assert forall|n: int| sq.contains(n) implies sp.contains(n) by {
        let (hz, j, i) = choose|hz: bool, j: int, i: int|
            #[trigger] seen(q, hz, j, i) && candidate_event(f, b, hz, j, i) && n == event_len(
                f,
                hz,
                j,
                i,
            );
        assert(seen(p, hz, j, i));
    }
    assert forall|n: int| sp.contains(n) implies sq.contains(n) by {
        let (hz, j, i) = choose|hz: bool, j: int, i: int|
            #[trigger] seen(p, hz, j, i) && candidate_event(f, b, hz, j, i) && n == event_len(
                f,
                hz,
                j,
                i,
            );
        assert(seen(q, hz, j, i));
    }
    assert(sq =~= sp);
    if scanned_disproved(f, b, q) {
        let (hz, j, i) = choose|hz: bool, j: int, i: int|
            #[trigger] seen(q, hz, j, i) && singleton_event(f, b, hz, j, i);
        assert(seen(p, hz, j, i));
    }
    if scanned_disproved(f, b, p) {
        let (hz, j, i) = choose|hz: bool, j: int, i: int|
            #[trigger] seen(p, hz, j, i) && singleton_event(f, b, hz, j, i);
        assert(seen(q, hz, j, i));
    }
}

/// Closes `run`: `false` when it is a single pixel; else a run that is not
/// fully transparent adds its length to `strides`.
fn record_run(run: &RunState, strides: &mut CandidateSet) -> (ok: bool)
    requires
        old(strides).wf(),
    ensures
        final(strides).wf(),
        ok == (run.run_length != 1),
        ok ==> final(strides)@ == (if run.run_length > 0 && run.color.a > 0 {
            old(strides)@.insert(run.run_length as int)
        } else {
            old(strides)@
        }),
{
    if run.run_length == 1 {
        return false;
    }
    if run.run_length > 0 && run.color.a > 0 {
        strides.insert(run.run_length);
    }
    true
}

/// Feeds pixel `pos` of `line`, whose color is `color`, to the run in
/// progress. A change of color closes the run that ended at `pos - 1`.
fn advance(
    run: &mut RunState,
    color: Color,
    pos: u32,
    ignore_border: bool,
    strides: &mut CandidateSet,
    Ghost(line): Ghost<Seq<Color>>,
) -> (ok: bool)
    requires
        pos < line.len(),
        line.len() <= u32::MAX,
        line[pos as int] == color,
        run_state_at(*old(run), line, pos as int),
        old(strides).wf(),
    ensures
        final(strides).wf(),
        ok == !singleton_at(line, pos - 1, ignore_border),
        ok ==> run_state_at(*final(run), line, pos + 1),
        ok ==> final(strides)@ == (if candidate_at(line, pos - 1, ignore_border) {
            old(strides)@.insert(run_len(line, pos - 1))
        } else {
            old(strides)@
        }),
{
    if pos > 0 {
        proof { lemma_run_len_bounds(line, pos - 1); }
    }
    if color == run.color {
        run.run_length = run.run_length + 1;
    } else {
        if !ignore_border || pos > run.run_length {
            if !record_run(run, strides) {
                return false;
            }
        }
        *run = RunState { color, run_length: 1 };
    }
    true
}

/// Scans one frame row by row and column by column in a single pass. Returns
/// `false` when some counted run is a single pixel; otherwise every counted,
/// not fully transparent run adds its length to `strides`.
pub fn get_smallest_stride_phase1(
    img: &Frame,
    strides: &mut CandidateSet,
    ignore_border: bool,
) -> (r: bool)
    requires
        img.wf(),
        old(strides).wf(),
    ensures
        final(strides).wf(),
        r == !frame_disproved(img, ignore_border),
        r ==> final(strides)@ == old(strides)@.union(frame_candidates(img, ignore_border)),
{
    let b = ignore_border;
    let w = img.width();
    let h = img.height();
    let ghost s0 = strides@;
    let mut curr_y: Vec<RunState> = Vec::new();
    let mut c: u32 = 0;
    while c < w
        invariant
            c <= w,
            curr_y@.len() == c,
            forall|k: int| 0 <= k < c ==> run_state_at(#[trigger] curr_y@[k], column(img, k), 0),
        decreases w - c,
    {
        curr_y.push(RunState { color: Color { r: 0, g: 0, b: 0, a: 0 }, run_length: 0 });
        c = c + 1;
    }
    proof {
        lemma_same_progress(img, b, (0, 0, 0, 0), (0, 0, 0, 0));
        assert(scanned_candidates(img, b, (0, 0, 0, 0)) =~= Set::empty());
        assert(strides@ =~= s0.union(scanned_candidates(img, b, (0, 0, 0, 0))));
    }
    let mut y: u32 = 0;
    while y < h
        invariant
            img.wf(),
            b == ignore_border,
            s0 == old(strides)@,
            w == img.width_spec(),
            h == img.height_spec(),
            y <= h,
            curr_y@.len() == w,
            forall|k: int| 0 <= k < w ==> run_state_at(#[trigger] curr_y@[k], column(img, k), y as int),
            strides.wf(),
            strides@ == s0.union(scanned_candidates(img, b, (y as int, 0, y as int, 0))),
            !scanned_disproved(img, b, (y as int, 0, y as int, 0)),
        decreases h - y,
    {
        let mut curr_x = RunState { color: Color { r: 0, g: 0, b: 0, a: 0 }, run_length: 0 };
        let mut x: u32 = 0;
        let ghost yy = y as int;
        while x < w
            invariant
                img.wf(),
                b == ignore_border,
                s0 == old(strides)@,
                w == img.width_spec(),
                h == img.height_spec(),
                y < h,
                yy == y,
                x <= w,
                curr_y@.len() == w,
                run_state_at(curr_x, row(img, yy), x as int),
                forall|k: int|
                    0 <= k < w ==> run_state_at(
                        #[trigger] curr_y@[k],
                        column(img, k),
                        if k < x { yy + 1 } else { yy },
                    ),
                strides.wf(),
                strides@ == s0.union(scanned_candidates(img, b, (yy, x as int, yy, x as int))),
                !scanned_disproved(img, b, (yy, x as int, yy, x as int)),
            decreases w - x,
        {
            let color = img.pixel(x, y);
            let ghost before = strides@;
            let ghost xx = x as int;
            if !advance(&mut curr_x, color, x, b, strides, Ghost(row(img, yy))) {
                proof {
                    lemma_step(img, b, (yy, xx, yy, xx), (yy, xx + 1, yy, xx), true, yy, xx - 1);
                    assert(singleton_event(img, b, true, yy, xx - 1));
                    assert(seen((yy, w as int, yy, w as int), true, yy, xx - 1));
                    assert(frame_disproved(img, b));
                }
                return false;
            }
            proof {
                lemma_step(img, b, (yy, xx, yy, xx), (yy, xx + 1, yy, xx), true, yy, xx - 1);
            }
            let ghost mid = strides@;
            let mut st = curr_y[x as usize];
            if !advance(&mut st, color, y, b, strides, Ghost(column(img, xx))) {
                proof {
                    lemma_step(img, b, (yy, xx + 1, yy, xx), (yy, xx + 1, yy, xx + 1), false, xx, yy - 1);
                    assert(singleton_event(img, b, false, xx, yy - 1));
                    assert(frame_disproved(img, b));
                }
                return false;
            }
            curr_y.set(x as usize, st);
            proof {
                lemma_step(img, b, (yy, xx + 1, yy, xx), (yy, xx + 1, yy, xx + 1), false, xx, yy - 1);
                assert(strides@ =~= s0.union(scanned_candidates(img, b, (yy, xx + 1, yy, xx + 1))));
            }
            x = x + 1;
        }
        let ghost ww = w as int;
        proof {
            if ww > 0 {
                lemma_run_len_bounds(row(img, yy), ww - 1);
            }
        }
        if !b {
            if !record_run(&curr_x, strides) {
                proof {
                    lemma_step(img, b, (yy, ww, yy, ww), (yy + 1, 0, yy, ww), true, yy, ww - 1);
                    assert(singleton_event(img, b, true, yy, ww - 1));
                    assert(frame_disproved(img, b));
                }
                return false;
            }
        }
        proof {
            lemma_step(img, b, (yy, ww, yy, ww), (yy + 1, 0, yy, ww), true, yy, ww - 1);
            lemma_same_progress(img, b, (yy + 1, 0, yy, ww), (yy + 1, 0, yy + 1, 0));
            assert(strides@ =~= s0.union(scanned_candidates(img, b, (yy + 1, 0, yy + 1, 0))));
        }
        y = y + 1;
    }
    let ghost hh = h as int;
    if !b {
        let mut c: u32 = 0;
        while c < w
            invariant
                img.wf(),
                !b,
                hh == h,
                b == ignore_border,
                s0 == old(strides)@,
                w == img.width_spec(),
                h == img.height_spec(),
                c <= w,
                curr_y@.len() == w,
                forall|k: int| 0 <= k < w ==> run_state_at(#[trigger] curr_y@[k], column(img, k), hh),
                strides.wf(),
                strides@ == s0.union(scanned_candidates(img, b, (hh, 0, hh, c as int))),
                !scanned_disproved(img, b, (hh, 0, hh, c as int)),
            decreases w - c,
        {
            let st = curr_y[c as usize];
            let ghost cc = c as int;
            proof {
                assert(run_state_at(curr_y@[cc], column(img, cc), hh));
                if hh > 0 {
                    lemma_run_len_bounds(column(img, cc), hh - 1);
                }
            }
            if !record_run(&st, strides) {
                proof {
                    lemma_step(img, b, (hh, 0, hh, cc), (hh, 0, hh, cc + 1), false, cc, hh - 1);
                    assert(singleton_event(img, b, false, cc, hh - 1));
                    assert(frame_disproved(img, b));
                }
                return false;
            }
            proof {
                lemma_step(img, b, (hh, 0, hh, cc), (hh, 0, hh, cc + 1), false, cc, hh - 1);
                assert(strides@ =~= s0.union(scanned_candidates(img, b, (hh, 0, hh, cc + 1))));
            }
            c = c + 1;
        }
    } else {
        proof {
            lemma_border_columns(img, b, w as int);
        }
    }
    proof {
        lemma_complete(img, b);
    }
    true
}

/// With `ignore_border`, the last run of each column adds nothing.
proof fn lemma_border_columns(f: &Frame, b: bool, c: int)
    requires
        b,
        0 <= c,
    ensures
        scanned_candidates(f, b, (f.height_spec() as int, 0, f.height_spec() as int, c))
            == scanned_candidates(f, b, (f.height_spec() as int, 0, f.height_spec() as int, 0)),
        scanned_disproved(f, b, (f.height_spec() as int, 0, f.height_spec() as int, c))
            == scanned_disproved(f, b, (f.height_spec() as int, 0, f.height_spec() as int, 0)),
    decreases c,
{
    let h = f.height_spec() as int;
    if c > 0 {
        lemma_border_columns(f, b, c - 1);
        lemma_step(f, b, (h, 0, h, c - 1), (h, 0, h, c), false, c - 1, h - 1);
    }
}

/// Once every line is finished, the scan has found what the frame holds.
proof fn lemma_complete(f: &Frame, b: bool)
    requires
        f.width_spec() >= 0,
        f.height_spec() >= 0,
    ensures
        scanned_candidates(f, b, (f.height_spec() as int, 0, f.height_spec() as int, f.width_spec() as int))
            == frame_candidates(f, b),
        scanned_disproved(f, b, (f.height_spec() as int, 0, f.height_spec() as int, f.width_spec() as int))
            == frame_disproved(f, b),
{
    let p = (f.height_spec() as int, 0, f.height_spec() as int, f.width_spec() as int);
    let s = scanned_candidates(f, b, p);
    let t = frame_candidates(f, b);
    assert forall|n: int| t.contains(n) implies s.contains(n) by {
        let (hz, j, i) = choose|hz: bool, j: int, i: int|
            #[trigger] candidate_event(f, b, hz, j, i) && n == event_len(f, hz, j, i);
        assert(seen(p, hz, j, i));
    }
    assert(s =~= t);
    if frame_disproved(f, b) {
        let (hz, j, i) = choose|hz: bool, j: int, i: int| #[trigger] singleton_event(f, b, hz, j, i);
        assert(seen(p, hz, j, i));
    }
}

} // verus!
