use vstd::prelude::*;
use vstd::arithmetic::div_mod::{
    lemma_fundamental_div_mod, lemma_fundamental_div_mod_converse, lemma_mod_bound,
};
use crate::candidates::{is_least_positive, lemma_least_positive_unique, stride_of};
use crate::detect::{animation_disproved, animation_stride};
use crate::frame::{Color, Frame};
use crate::runs::{
    candidate_event, column, counted, ends_run, event_len, frame_candidates, frame_disproved,
    frame_stride, line, line_count, row, run_len, singleton_event,
};

verus! {

/// `f` and `g` have the same size and the same pixels.
pub open spec fn same_pixels(f: &Frame, g: &Frame) -> bool {
    &&& f.width_spec() == g.width_spec()
    &&& f.height_spec() == g.height_spec()
    &&& forall|x: int, y: int|
        0 <= x < f.width_spec() && 0 <= y < f.height_spec() ==> #[trigger] f.at(x, y) == g.at(x, y)
}

/// Detection is a function of the pixels and the flag alone: two frames with
/// the same size and pixels give the same stride.
pub proof fn lemma_deterministic(f: &Frame, g: &Frame, ignore_border: bool)
    requires
        same_pixels(f, g),
    ensures
        frame_disproved(f, ignore_border) == frame_disproved(g, ignore_border),
        frame_candidates(f, ignore_border) == frame_candidates(g, ignore_border),
        frame_stride(f, ignore_border) == frame_stride(g, ignore_border),
{
    let b = ignore_border;
    assert forall|hz: bool, j: int| 0 <= j < line_count(f, hz) implies #[trigger] line(f, hz, j)
        == line(g, hz, j) by {
        if hz {
            assert(row(f, j) =~= row(g, j));
        } else {
            assert(column(f, j) =~= column(g, j));
        }
    }
    assert forall|hz: bool, j: int, i: int| #[trigger] candidate_event(f, b, hz, j, i) implies candidate_event(
        g,
        b,
        hz,
        j,
        i,
    ) && event_len(f, hz, j, i) == event_len(g, hz, j, i) by {
        assert(line(f, hz, j) == line(g, hz, j));
    }
    assert forall|hz: bool, j: int, i: int| #[trigger] candidate_event(g, b, hz, j, i) implies candidate_event(
        f,
        b,
        hz,
        j,
        i,
    ) && event_len(f, hz, j, i) == event_len(g, hz, j, i) by {
        assert(0 <= j < line_count(f, hz));
        assert(line(f, hz, j) == line(g, hz, j));
    }
    assert(frame_candidates(f, b) =~= frame_candidates(g, b));
    if frame_disproved(f, b) {
        let (hz, j, i) = choose|hz: bool, j: int, i: int| #[trigger] singleton_event(f, b, hz, j, i);
        assert(line(f, hz, j) == line(g, hz, j));
        assert(singleton_event(g, b, hz, j, i));
    }
    if frame_disproved(g, b) {
        let (hz, j, i) = choose|hz: bool, j: int, i: int| #[trigger] singleton_event(g, b, hz, j, i);
        assert(0 <= j < line_count(f, hz));
        assert(line(f, hz, j) == line(g, hz, j));
        assert(singleton_event(f, b, hz, j, i));
    }
}

/// Stepping back one position across a multiple of `n` moves to the
/// previous block; elsewhere it stays in the block.
proof fn lemma_div_step(i: int, n: int)
    requires
        n > 0,
        i > 0,
    ensures
        i % n != 0 ==> (i - 1) / n == i / n && (i - 1) % n == i % n - 1,
        i % n == 0 ==> (i - 1) / n == i / n - 1 && (i - 1) % n == n - 1,
{
    lemma_fundamental_div_mod(i, n);
    lemma_mod_bound(i, n);
    if i % n != 0 {
        assert(i - 1 == (i / n) * n + (i % n - 1)) by (nonlinear_arith)
            requires
                i == n * (i / n) + (i % n),
        ;
        lemma_fundamental_div_mod_converse(i - 1, n, i / n, i % n - 1);
    } else {
        assert(i - 1 == (i / n - 1) * n + (n - 1)) by (nonlinear_arith)
            requires
                i == n * (i / n) + (i % n),
                i % n == 0,
        ;
        lemma_fundamental_div_mod_converse(i - 1, n, i / n - 1, n - 1);
    }
}

/// A position below `m * n` lies in one of the first `m` blocks of `n`.
proof fn lemma_block_index(i: int, n: int, m: int)
    requires
        n > 0,
        0 <= i < m * n,
    ensures
        0 <= i / n < m,
{
    lemma_fundamental_div_mod(i, n);
    lemma_mod_bound(i, n);
    assert(0 <= i / n < m) by (nonlinear_arith)
        requires
            i == n * (i / n) + (i % n),
            0 <= i % n < n,
            0 <= i < m * n,
            n > 0,
    ;
}

/// A line made of blocks of `n` equal colors, where neighbouring blocks
/// differ: the run that reaches position `i` is `i % n + 1` long.
proof fn lemma_block_run_len(line: Seq<Color>, n: int, i: int)
    requires
        n > 0,
        0 <= i < line.len(),
        forall|k: int| 0 < k < line.len() ==> (line[k - 1] == line[k]) == (#[trigger] (k % n) != 0),
    ensures
        run_len(line, i) == i % n + 1,
    decreases i,
{
    if i == 0 {
        assert(0int % n == 0) by {
            lemma_fundamental_div_mod_converse(0, n, 0, 0);
        }
    } else {
        lemma_div_step(i, n);
        lemma_block_run_len(line, n, i - 1);
    }
}

/// In a line of whole blocks of `n`, a run ends exactly at the last position
/// of a block.
proof fn lemma_block_ends(line: Seq<Color>, n: int, i: int)
    requires
        n > 0,
        0 <= i < line.len(),
        (line.len() as int) % n == 0,
        forall|k: int| 0 < k < line.len() ==> (line[k - 1] == line[k]) == (#[trigger] (k % n) != 0),
    ensures
        ends_run(line, i) == (i % n == n - 1),
{
    lemma_div_step(i + 1, n);
    if i + 1 == line.len() {
    } else {
        assert(line[i] == line[i + 1] <==> (i + 1) % n != 0);
    }
}

/// `scaled` is `original` with each pixel replaced by an `n` by `n` block.
pub open spec fn is_upscaled(original: &Frame, scaled: &Frame, n: int) -> bool {
    &&& n >= 1
    &&& scaled.width_spec() == original.width_spec() * n
    &&& scaled.height_spec() == original.height_spec() * n
    &&& forall|x: int, y: int|
        0 <= x < scaled.width_spec() && 0 <= y < scaled.height_spec() ==> #[trigger] scaled.at(x, y)
            == original.at(x / n, y / n)
}

/// No two pixels of `f` that share a side have the same color.
pub open spec fn neighbours_differ(f: &Frame) -> bool {
    &&& forall|x: int, y: int|
        0 <= x && x + 1 < f.width_spec() && 0 <= y < f.height_spec() ==> #[trigger] f.at(x, y) != f.at(
            x + 1,
            y,
        )
    &&& forall|x: int, y: int|
        0 <= x < f.width_spec() && 0 <= y && y + 1 < f.height_spec() ==> #[trigger] f.at(x, y) != f.at(
            x,
            y + 1,
        )
}

/// Some pixel of `f` is not fully transparent.
pub open spec fn has_visible_pixel(f: &Frame) -> bool {
    exists|x: int, y: int| 0 <= x < f.width_spec() && 0 <= y < f.height_spec() && #[trigger] f.at(x, y).a > 0
}

/// Every line of a block-upscaled frame is made of whole blocks of `n`.
proof fn lemma_upscaled_lines(original: &Frame, scaled: &Frame, n: int, hz: bool, j: int)
    requires
        n >= 2,
        is_upscaled(original, scaled, n),
        neighbours_differ(original),
        0 <= j < line_count(scaled, hz),
    ensures
        (line(scaled, hz, j).len() as int) % n == 0,
        forall|k: int|
            0 < k < line(scaled, hz, j).len() ==> (line(scaled, hz, j)[k - 1] == line(scaled, hz, j)[k])
                == (#[trigger] (k % n) != 0),
{
    let l = line(scaled, hz, j);
    let m = if hz { original.width_spec() as int } else { original.height_spec() as int };
    assert(l.len() == m * n);
    assert((m * n) % n == 0) by {
        lemma_fundamental_div_mod_converse(m * n, n, m, 0);
    }
    let other = if hz { original.height_spec() as int } else { original.width_spec() as int };
    lemma_block_index(j, n, other);
    assert forall|k: int| 0 < k < l.len() implies (l[k - 1] == l[k]) == (#[trigger] (k % n) != 0) by {
        lemma_div_step(k, n);
        lemma_block_index(k, n, m);
        lemma_block_index(k - 1, n, m);
        if hz {
            assert(l[k] == original.at(k / n, j / n));
            assert(l[k - 1] == original.at((k - 1) / n, j / n));
            if k % n == 0 {
                assert(original.at((k - 1) / n, j / n) != original.at((k - 1) / n + 1, j / n));
            }
        } else {
            assert(l[k] == original.at(j / n, k / n));
            assert(l[k - 1] == original.at(j / n, (k - 1) / n));
            if k % n == 0 {
                assert(original.at(j / n, (k - 1) / n) != original.at(j / n, (k - 1) / n + 1));
            }
        }
    }
}

/// Some pixel of `f` that is not fully transparent lies strictly inside its
/// row, or strictly inside its column.
pub open spec fn has_visible_inner_pixel(f: &Frame) -> bool {
    exists|x: int, y: int|
        0 <= x < f.width_spec() && 0 <= y < f.height_spec() && #[trigger] f.at(x, y).a > 0 && ((0 < x
            && x + 1 < f.width_spec()) || (0 < y && y + 1 < f.height_spec()))
}

/// Magnifying an image by an integer factor `n >= 2`, with no two
/// neighbouring pixels of the same color, is detected as exactly `n`,
/// provided that some run is evidence: some pixel is not fully transparent,
/// and with `ignore_border` such a pixel lies strictly inside its row or its
/// column.
pub proof fn lemma_upscale_round_trip(original: &Frame, scaled: &Frame, n: int, ignore_border: bool)
    requires
        n >= 2,
        is_upscaled(original, scaled, n),
        neighbours_differ(original),
        if ignore_border {
            has_visible_inner_pixel(original)
        } else {
            has_visible_pixel(original)
        },
    ensures
        frame_stride(scaled, ignore_border) == n,
{
    let b = ignore_border;
    assert forall|hz: bool, j: int, i: int| #[trigger] candidate_event(scaled, b, hz, j, i) implies event_len(
        scaled,
        hz,
        j,
        i,
    ) == n by {
        lemma_upscaled_lines(original, scaled, n, hz, j);
        lemma_block_run_len(line(scaled, hz, j), n, i);
        lemma_block_ends(line(scaled, hz, j), n, i);
    }
    assert(!frame_disproved(scaled, b)) by {
        if frame_disproved(scaled, b) {
            let (hz, j, i) = choose|hz: bool, j: int, i: int| #[trigger] singleton_event(scaled, b, hz, j, i);
            lemma_upscaled_lines(original, scaled, n, hz, j);
            lemma_block_run_len(line(scaled, hz, j), n, i);
            lemma_block_ends(line(scaled, hz, j), n, i);
        }
    }
    let (x0, y0) = choose|x: int, y: int|
        0 <= x < original.width_spec() && 0 <= y < original.height_spec() && #[trigger] original.at(x, y).a > 0
            && (!b || ((0 < x && x + 1 < original.width_spec()) || (0 < y && y + 1 < original.height_spec())));
    let w = original.width_spec() as int;
    let h = original.height_spec() as int;
    assert(0 <= x0 * n <= (w - 1) * n) by (nonlinear_arith)
        requires
            0 <= x0 < w,
            n >= 2,
    ;
    assert(0 <= y0 * n <= (h - 1) * n) by (nonlinear_arith)
        requires
            0 <= y0 < h,
            n >= 2,
    ;
    assert((w - 1) * n == w * n - n && (h - 1) * n == h * n - n) by (nonlinear_arith);
    assert(x0 > 0 ==> x0 * n >= n && (x0 + 1 < w ==> x0 * n + n < w * n)) by (nonlinear_arith)
        requires
            0 <= x0 < w,
            n >= 2,
    ;
    assert(y0 > 0 ==> y0 * n >= n && (y0 + 1 < h ==> y0 * n + n < h * n)) by (nonlinear_arith)
        requires
            0 <= y0 < h,
            n >= 2,
    ;
    let xs = x0 * n;
    let ys = y0 * n;
    lemma_fundamental_div_mod_converse(xs + (n - 1), n, x0, n - 1);
    lemma_fundamental_div_mod_converse(ys + (n - 1), n, y0, n - 1);
    lemma_fundamental_div_mod_converse(xs, n, x0, 0);
    lemma_fundamental_div_mod_converse(ys, n, y0, 0);
    // the last pixel of the visible pixel's block closes a counted run
    if !b || (0 < x0 && x0 + 1 < w) {
        let i0 = xs + (n - 1);
        lemma_upscaled_lines(original, scaled, n, true, ys);
        lemma_block_run_len(row(scaled, ys), n, i0);
        lemma_block_ends(row(scaled, ys), n, i0);
        assert(row(scaled, ys)[i0] == original.at(x0, y0));
        assert(candidate_event(scaled, b, true, ys, i0));
    } else {
        let i0 = ys + (n - 1);
        lemma_upscaled_lines(original, scaled, n, false, xs);
        lemma_block_run_len(column(scaled, xs), n, i0);
        lemma_block_ends(column(scaled, xs), n, i0);
        assert(column(scaled, xs)[i0] == original.at(x0, y0));
        assert(candidate_event(scaled, b, false, xs, i0));
    }
    let s = frame_candidates(scaled, b);
    assert(s.contains(n));
    assert(s =~= set![n]);
    assert(is_least_positive(s, n));
    let m = choose|m: int| is_least_positive(s, m);
    lemma_least_positive_unique(s, m, n);
    assert forall|k: int| s.contains(k) implies #[trigger] (k % n) == 0 by {
        lemma_fundamental_div_mod_converse(n, n, 1, 0);
    }
}

/// A pixel whose color differs from both of its neighbours along a row, or
/// along a column, is a run of one pixel: with `ignore_border` off the frame
/// is detected as 1, whatever the pixel's alpha.
pub proof fn lemma_singleton_disproves(f: &Frame, x: int, y: int, horizontal: bool)
    requires
        0 <= x < f.width_spec(),
        0 <= y < f.height_spec(),
        horizontal ==> (x == 0 || f.at(x - 1, y) != f.at(x, y)) && (x + 1 == f.width_spec() || f.at(
            x + 1,
            y,
        ) != f.at(x, y)),
        !horizontal ==> (y == 0 || f.at(x, y - 1) != f.at(x, y)) && (y + 1 == f.height_spec() || f.at(
            x,
            y + 1,
        ) != f.at(x, y)),
    ensures
        frame_disproved(f, false),
        frame_stride(f, false) == 1,
{
    if horizontal {
        assert(singleton_event(f, false, true, y, x));
    } else {
        assert(singleton_event(f, false, false, x, y));
    }
}

/// One disproved frame decides a whole sequence: it is detected as 1,
/// whatever the other frames hold.
pub proof fn lemma_disproved_frame_decides(frames: Seq<Frame>, k: int, ignore_border: bool)
    requires
        0 <= k < frames.len(),
        frame_disproved(&frames[k], ignore_border),
    ensures
        animation_disproved(frames, ignore_border),
        animation_stride(frames, ignore_border) == 1,
{
}

/// Fully transparent runs are no evidence: a frame whose pixels all have
/// alpha 0 has no candidates, and is detected as 1.
pub proof fn lemma_transparent_frame(f: &Frame, ignore_border: bool)
    requires
        forall|x: int, y: int| 0 <= x < f.width_spec() && 0 <= y < f.height_spec() ==> #[trigger] f.at(x, y).a == 0,
    ensures
        frame_candidates(f, ignore_border) == Set::<int>::empty(),
        frame_stride(f, ignore_border) == 1,
{
    let s = frame_candidates(f, ignore_border);
    assert forall|n: int| !s.contains(n) by {
        if s.contains(n) {
            let (hz, j, i) = choose|hz: bool, j: int, i: int|
                #[trigger] candidate_event(f, ignore_border, hz, j, i) && n == event_len(f, hz, j, i);
            if hz {
                assert(f.at(i, j).a == 0);
            } else {
                assert(f.at(j, i).a == 0);
            }
        }
    }
    assert(s =~= Set::<int>::empty());
}

/// An empty frame, or one of a single pixel, is detected as 1.
pub proof fn lemma_degenerate(f: &Frame, ignore_border: bool)
    requires
        (f.width_spec() == 0 && f.height_spec() == 0) || (f.width_spec() == 1 && f.height_spec() == 1),
    ensures
        frame_stride(f, ignore_border) == 1,
{
    let s = frame_candidates(f, ignore_border);
    if f.width_spec() == 1 && !ignore_border {
        assert(singleton_event(f, false, true, 0, 0));
    } else {
        assert forall|n: int| !s.contains(n) by {
            if s.contains(n) {
                let (hz, j, i) = choose|hz: bool, j: int, i: int|
                    #[trigger] candidate_event(f, ignore_border, hz, j, i) && n == event_len(f, hz, j, i);
                assert(line(f, hz, j).len() == f.width_spec());
            }
        }
        assert(s =~= Set::<int>::empty());
    }
}

/// `framed` is `inner` inside a border one pixel wide of the color
/// `border`, which no pixel on the edge of `inner` has.
pub open spec fn is_framed(framed: &Frame, inner: &Frame, border: Color) -> bool {
    &&& framed.width_spec() == inner.width_spec() + 2
    &&& framed.height_spec() == inner.height_spec() + 2
    &&& forall|x: int, y: int|
        0 <= x < framed.width_spec() && 0 <= y < framed.height_spec() && (x == 0 || y == 0 || x
            == framed.width_spec() - 1 || y == framed.height_spec() - 1) ==> #[trigger] framed.at(x, y)
            == border
    &&& forall|x: int, y: int|
        0 <= x < inner.width_spec() && 0 <= y < inner.height_spec() ==> #[trigger] inner.at(x, y)
            == framed.at(x + 1, y + 1)
    &&& forall|x: int, y: int|
        0 <= x < inner.width_spec() && 0 <= y < inner.height_spec() && (x == 0 || y == 0 || x
            == inner.width_spec() - 1 || y == inner.height_spec() - 1) ==> #[trigger] inner.at(x, y)
            != border
}

/// In a line of one color, the run that reaches `i` starts at the beginning.
proof fn lemma_constant_run_len(line: Seq<Color>, i: int)
    requires
        0 <= i < line.len(),
        forall|k: int| 0 <= k < line.len() ==> #[trigger] line[k] == line[0],
    ensures
        run_len(line, i) == i + 1,
    decreases i,
{
    if i > 0 {
        assert(line[i - 1] == line[i]);
        lemma_constant_run_len(line, i - 1);
    }
}

/// When the first position of a line starts a run of its own, runs past it
/// are measured as in the line without its first and last positions.
proof fn lemma_run_len_shift(line: Seq<Color>, i: int)
    requires
        1 <= i <= line.len() - 2,
        line[0] != line[1],
    ensures
        run_len(line, i) == run_len(line.subrange(1, line.len() - 1), i - 1),
    decreases i,
{
    if i > 1 {
        lemma_run_len_shift(line, i - 1);
    }
}

/// Every counted run of a framed, block-upscaled frame with
/// `ignore_border` is `n` long.
proof fn lemma_framed_event(
    original: &Frame,
    inner: &Frame,
    framed: &Frame,
    n: int,
    border: Color,
    hz: bool,
    j: int,
    i: int,
)
    requires
        n >= 2,
        is_upscaled(original, inner, n),
        neighbours_differ(original),
        is_framed(framed, inner, border),
        0 <= j < line_count(framed, hz),
        counted(line(framed, hz, j), i, true),
    ensures
        1 <= j < line_count(framed, hz) - 1,
        1 <= i < line(framed, hz, j).len() - 1,
        event_len(framed, hz, j, i) == n,
{
    let l = line(framed, hz, j);
    let count = line_count(framed, hz);
    if j == 0 || j == count - 1 {
        assert forall|k: int| 0 <= k < l.len() implies #[trigger] l[k] == l[0] by {
            if hz {
                assert(l[k] == border && l[0] == border);
            } else {
                assert(l[k] == border && l[0] == border);
            }
        }
        lemma_constant_run_len(l, i);
    } else {
        assert(l[0] == border);
        if i == 0 {
            assert(run_len(l, 0) == 1);
        } else {
            let sub = l.subrange(1, l.len() - 1);
            let inner_line = line(inner, hz, j - 1);
            assert(sub =~= inner_line) by {
                assert forall|k: int| 0 <= k < sub.len() implies sub[k] == inner_line[k] by {
                    if hz {
                        assert(inner.at(k, j - 1) == framed.at(k + 1, j));
                    } else {
                        assert(inner.at(j - 1, k) == framed.at(j, k + 1));
                    }
                }
            }
            if hz {
                assert(inner.at(0, j - 1) != border);
                assert(inner.at(inner.width_spec() - 1, j - 1) != border);
                assert(l[l.len() - 1] == border);
                assert(l[1] == inner.at(0, j - 1));
                assert(l[l.len() - 2] == inner.at(inner.width_spec() - 1, j - 1));
            } else {
                assert(inner.at(j - 1, 0) != border);
                assert(inner.at(j - 1, inner.height_spec() - 1) != border);
                assert(l[l.len() - 1] == border);
                assert(l[1] == inner.at(j - 1, 0));
                assert(l[l.len() - 2] == inner.at(j - 1, inner.height_spec() - 1));
            }
            lemma_run_len_shift(l, i);
            lemma_upscaled_lines(original, inner, n, hz, j - 1);
            lemma_block_run_len(sub, n, i - 1);
            lemma_block_ends(sub, n, i - 1);
            if i + 1 < l.len() - 1 {
                assert(l[i + 1] == sub[i] && l[i] == sub[i - 1]);
            }
        }
    }
}

/// A frame made of blocks of `n >= 2` inside a border one pixel wide:
/// with `ignore_border` the blocks' size is detected; without it, the
/// border's single-pixel runs make detection fail.
pub proof fn lemma_border_suppression(
    original: &Frame,
    inner: &Frame,
    framed: &Frame,
    n: int,
    border: Color,
)
    requires
        n >= 2,
        is_upscaled(original, inner, n),
        neighbours_differ(original),
        has_visible_pixel(original),
        is_framed(framed, inner, border),
    ensures
        frame_stride(framed, true) == n,
        frame_stride(framed, false) == 1,
{
    let b = true;
    assert forall|hz: bool, j: int, i: int| #[trigger] candidate_event(framed, b, hz, j, i) implies event_len(
        framed,
        hz,
        j,
        i,
    ) == n by {
        lemma_framed_event(original, inner, framed, n, border, hz, j, i);
    }
    assert(!frame_disproved(framed, b)) by {
        if frame_disproved(framed, b) {
            let (hz, j, i) = choose|hz: bool, j: int, i: int| #[trigger] singleton_event(framed, b, hz, j, i);
            lemma_framed_event(original, inner, framed, n, border, hz, j, i);
        }
    }
    let (x0, y0) = choose|x: int, y: int|
        0 <= x < original.width_spec() && 0 <= y < original.height_spec() && #[trigger] original.at(x, y).a > 0;
    let w = original.width_spec() as int;
    let h = original.height_spec() as int;
    assert(0 <= x0 * n <= (w - 1) * n) by (nonlinear_arith)
        requires
            0 <= x0 < w,
            n >= 2,
    ;
    assert(0 <= y0 * n <= (h - 1) * n) by (nonlinear_arith)
        requires
            0 <= y0 < h,
            n >= 2,
    ;
    assert((w - 1) * n == w * n - n && (h - 1) * n == h * n - n) by (nonlinear_arith);
    let ys = y0 * n;
    let i0 = x0 * n + (n - 1);
    lemma_fundamental_div_mod_converse(i0, n, x0, n - 1);
    lemma_fundamental_div_mod_converse(ys, n, y0, 0);
    // the last pixel of the visible block's top row closes a counted run
    let l = row(framed, ys + 1);
    let sub = l.subrange(1, l.len() - 1);
    assert(sub =~= row(inner, ys)) by {
        assert forall|k: int| 0 <= k < sub.len() implies sub[k] == row(inner, ys)[k] by {
            assert(inner.at(k, ys) == framed.at(k + 1, ys + 1));
        }
    }
    assert(l[0] == border);
    assert(inner.at(0, ys) != border);
    assert(inner.at(0, ys) == framed.at(1, ys + 1));
    assert(inner.at(inner.width_spec() - 1, ys) != border);
    assert(inner.at(inner.width_spec() - 1, ys) == framed.at(inner.width_spec() as int, ys + 1));
    assert(l[l.len() - 1] == border);
    lemma_run_len_shift(l, i0 + 1);
    lemma_upscaled_lines(original, inner, n, true, ys);
    lemma_block_run_len(sub, n, i0);
    lemma_block_ends(sub, n, i0);
    lemma_fundamental_div_mod(i0, n);
    if i0 + 2 < l.len() - 1 {
        assert(l[i0 + 2] == sub[i0 + 1] && l[i0 + 1] == sub[i0]);
    }
    assert(sub[i0] == original.at(x0, y0));
    assert(run_len(l, i0 + 1) <= i0 + 1);
    assert(candidate_event(framed, b, true, ys + 1, i0 + 1));
    let s = frame_candidates(framed, b);
    assert(s.contains(n));
    assert(s =~= set![n]);
    assert(is_least_positive(s, n));
    let m = choose|m: int| is_least_positive(s, m);
    lemma_least_positive_unique(s, m, n);
    assert forall|k: int| s.contains(k) implies #[trigger] (k % n) == 0 by {
        lemma_fundamental_div_mod_converse(n, n, 1, 0);
    }
    // without the flag, the border pixel that opens row 1 is a run of its own
    let r1 = row(framed, 1);
    assert(inner.at(0, 0) == framed.at(1, 1));
    assert(inner.at(0, 0) != border);
    assert(r1[0] == border);
    assert(singleton_event(framed, false, true, 1, 0));
}

} // verus!
