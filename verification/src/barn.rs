//! The largest rectangle of free cells on a grid with buildings, by the
//! histogram of free cells above each row.

use vstd::prelude::*;

verus! {

/// Whether every row of `grid` has `m` cells.
pub open spec fn rectangular<T>(grid: Seq<Vec<T>>, m: int) -> bool {
    forall|x: int| 0 <= x < grid.len() ==> (#[trigger] grid[x]).len() == m
}

/// Whether no cell of the `height` rows from `i` and the `width` columns
/// from `j` holds a building.
pub open spec fn free(grid: Seq<Vec<i32>>, i: int, j: int, height: int, width: int) -> bool {
    forall|x: int, y: int|
        i <= x < i + height && j <= y < j + width ==> #[trigger] grid[x][y] != 1
}

/// The height of the tallest bar of a histogram; 0 where it has no bar.
pub open spec fn tallest(heights: Seq<i32>) -> int
    decreases heights.len(),
{
    if heights.len() == 0 {
        0
    } else if heights.last() > tallest(heights.drop_last()) {
        heights.last() as int
    } else {
        tallest(heights.drop_last())
    }
}

/// No bar is taller than the tallest, and the tallest is no taller than
/// any bound on all bars.
pub proof fn lemma_tallest(heights: Seq<i32>, bound: int)
    requires
        bound >= 0,
        forall|y: int| 0 <= y < heights.len() ==> #[trigger] heights[y] <= bound,
    ensures
        0 <= tallest(heights) <= bound,
        forall|y: int| 0 <= y < heights.len() ==> #[trigger] heights[y] <= tallest(heights),
    decreases heights.len(),
{
    if heights.len() > 0 {
        let rest = heights.drop_last();
        assert forall|y: int| 0 <= y < rest.len() implies #[trigger] rest[y] <= bound by {
            assert(rest[y] == heights[y]);
        }
        lemma_tallest(rest, bound);
        assert forall|y: int| 0 <= y < heights.len() implies #[trigger] heights[y] <= tallest(
            heights,
        ) by {
            if y < rest.len() {
                assert(rest[y] == heights[y]);
            }
        }
    }
}

/// Whether a barn of area `area` and height `h` fits on the grid with its
/// corner at row `i` and column `j` and covers no building.
pub open spec fn barn_fits(grid: Seq<Vec<i32>>, i: int, j: int, area: int, h: int) -> bool {
    &&& area % h == 0
    &&& i + h <= grid.len()
    &&& j + area / h <= grid[0].len()
    &&& free(grid, i, j, h, area / h)
}

/// The number of free cells in the column `y` from the row `x` upward, up
/// to the first building.
pub open spec fn run_up(grid: Seq<Vec<i32>>, x: int, y: int) -> int
    decreases
            if x < 0 {
                0
            } else {
                x + 1
            },
{
    if x < 0 || grid[x][y] == 1 {
        0
    } else {
        run_up(grid, x - 1, y) + 1
    }
}

/// The free cells from a row upward are at most as many as the rows up to
/// it, and as many cells upward from the row are free.
pub proof fn lemma_run_is_free(grid: Seq<Vec<i32>>, x: int, y: int)
    requires
        -1 <= x,
    ensures
        0 <= run_up(grid, x, y) <= x + 1,
        forall|r: int| x - run_up(grid, x, y) < r <= x ==> #[trigger] grid[r][y] != 1,
    decreases x + 1,
{
    if x >= 0 && grid[x][y] != 1 {
        lemma_run_is_free(grid, x - 1, y);
    }
}

/// Where `t` cells from a row upward are free, the free cells from the
/// row upward are at least as many.
pub proof fn lemma_free_is_run(grid: Seq<Vec<i32>>, x: int, y: int, t: int)
    requires
        0 <= t <= x + 1,
        forall|r: int| x - t < r <= x ==> #[trigger] grid[r][y] != 1,
    ensures
        run_up(grid, x, y) >= t,
    decreases t,
{
    if t > 0 {
        assert(grid[x][y] != 1);
        lemma_free_is_run(grid, x - 1, y, t - 1);
    } else {
        lemma_run_is_free(grid, x, y);
    }
}

/// Whether the cells of the `height` rows from `i` and the `width` columns
/// from `j` lie on the grid, are at least one, and hold no building.
pub open spec fn free_block(grid: Seq<Vec<i32>>, i: int, j: int, height: int, width: int) -> bool {
    &&& 0 <= i
    &&& 0 <= j
    &&& 1 <= height
    &&& 1 <= width
    &&& i + height <= grid.len()
    &&& j + width <= grid[0].len()
    &&& free(grid, i, j, height, width)
}

/// `area` is 0 or the area of a rectangle of free cells.
pub open spec fn built(grid: Seq<Vec<i32>>, area: int) -> bool {
    area == 0 || exists|i: int, j: int, height: int, width: int| #[trigger]
        free_block(grid, i, j, height, width) && area == height * width
}

/// A rectangle of free cells that ends in the row `x` stands under the
/// histogram of the free cells above the row `x`.
pub proof fn lemma_block_covered(
    grid: Seq<Vec<i32>>,
    heights: Seq<i32>,
    x: int,
    i: int,
    j: int,
    height: int,
    width: int,
)
    requires
        free_block(grid, i, j, height, width),
        i + height == x + 1,
        heights.len() == grid[0].len(),
        forall|y: int| 0 <= y < heights.len() ==> #[trigger] heights[y] == run_up(grid, x, y),
    ensures
        covers(heights, j, j + width - 1, height),
{
    assert forall|k: int| j <= k <= j + width - 1 implies #[trigger] heights[k] >= height by {
        assert forall|r: int| x - height < r <= x implies #[trigger] grid[r][k] != 1 by {
            assert(i <= r < i + height && j <= k < j + width);
        }
        lemma_free_is_run(grid, x, k, height);
    }
}

/// A rectangle under the histogram of the free cells above the row `x` is
/// a rectangle of free cells that ends in the row `x`.
pub proof fn lemma_cover_is_block(
    grid: Seq<Vec<i32>>,
    heights: Seq<i32>,
    x: int,
    a: int,
    b: int,
    m: int,
)
    requires
        covers(heights, a, b, m),
        1 <= m,
        0 <= x < grid.len(),
        heights.len() == grid[0].len(),
        forall|y: int| 0 <= y < heights.len() ==> #[trigger] heights[y] == run_up(grid, x, y),
    ensures
        free_block(grid, x + 1 - m, a, m, b - a + 1),
{
    lemma_run_is_free(grid, x, a);
    assert(heights[a] >= m);
    assert forall|r: int, c: int|
        x + 1 - m <= r < x + 1 - m + m && a <= c < a + (b - a + 1) implies #[trigger] grid[r][c]
        != 1 by {
        lemma_run_is_free(grid, x, c);
        assert(heights[c] >= m);
    }
}

/// The area of the largest rectangle without a building. The grid has at
/// least one row, and its rows are of one length.
pub fn largest_rectangle_area(grid: &Vec<Vec<i32>>) -> (max_area: i32)
    requires
        grid.len() > 0,
        rectangular(grid@, grid[0].len() as int),
        grid.len() * grid[0].len() <= i32::MAX,
    ensures
        0 <= max_area <= grid.len() * grid[0].len(),
        built(grid@, max_area as int),
        forall|i: int, j: int, height: int, width: int| #[trigger]
            free_block(grid@, i, j, height, width) ==> height * width <= max_area,
{
    let n = grid.len();
    let m = grid[0].len();
    let ghost g = grid@;
    let mut heights: Vec<i32> = Vec::new();
    let mut k: usize = 0;
    while k < m
        invariant
            k <= m,
            heights.len() == k,
            forall|y: int| 0 <= y < k ==> heights[y] == 0,
        decreases m - k,
    {
        heights.push(0);
        k += 1;
    }
    let mut max_area: i32 = 0;
    let mut i: usize = 0;
    proof {
        assert(m <= n * m) by (nonlinear_arith)
            requires
                n >= 1,
                m >= 0,
        ;
    }
    while i < n
        invariant
            i <= n,
            m <= i32::MAX,
            n == grid.len(),
            m == grid[0].len(),
            g == grid@,
            n > 0,
            rectangular(grid@, m as int),
            n * m <= i32::MAX,
            heights.len() == m,
            forall|y: int| 0 <= y < m ==> #[trigger] heights[y] == run_up(g, i - 1, y),
            0 <= max_area <= n * m,
            built(g, max_area as int),
            forall|r: int, c: int, height: int, width: int| #[trigger]
                free_block(g, r, c, height, width) && r + height <= i ==> height * width
                    <= max_area,
        decreases n - i,
    {
        let mut j: usize = 0;
        while j < m
            invariant
                j <= m,
                i < n,
                n == grid.len(),
                g == grid@,
                rectangular(grid@, m as int),
                n * m <= i32::MAX,
                heights.len() == m,
                forall|y: int| 0 <= y < j ==> #[trigger] heights[y] == run_up(g, i as int, y),
                forall|y: int| j <= y < m ==> #[trigger] heights[y] == run_up(g, i - 1, y),
            decreases m - j,
        {
            proof {
                assert(i < n * m) by (nonlinear_arith)
                    requires
                        i < n,
                        j < m,
                ;
                lemma_run_is_free(g, i - 1, j as int);
            }
            if grid[i][j] == 1 {
                heights.set(j, 0);
            } else {
                let h = heights[j];
                heights.set(j, h + 1);
            }
            j += 1;
        }
        proof {
            assert forall|y: int| 0 <= y < m implies 0 <= #[trigger] heights[y] <= i + 1 by {
                lemma_run_is_free(g, i as int, y);
            }
            lemma_tallest(heights@, i + 1);
            let t = tallest(heights@);
            assert(t * m <= n * m) by (nonlinear_arith)
                requires
                    0 <= t <= i + 1,
                    i < n,
            ;
        }
        let area = largest_rectangle_histogram(&heights);
        proof {
            assert forall|r: int, c: int, height: int, width: int| #[trigger]
                free_block(g, r, c, height, width) && r + height == i + 1 implies height * width
                <= area by {
                lemma_block_covered(g, heights@, i as int, r, c, height, width);
                assert(covers(heights@, c, c + width - 1, height));
                assert(height * width == height * ((c + width - 1) - c + 1));
            }
            if area > 0 {
                let (a, b, mm) = choose|a: int, b: int, mm: int| #[trigger]
                    covers(heights@, a, b, mm) && area == mm * (b - a + 1);
                assert(mm >= 1) by (nonlinear_arith)
                    requires
                        area == mm * (b - a + 1),
                        area > 0,
                        b - a + 1 >= 1,
                ;
                lemma_cover_is_block(g, heights@, i as int, a, b, mm);
                assert(free_block(g, i + 1 - mm, a, mm, b - a + 1));
            }
        }
        if area > max_area {
            max_area = area;
        }
        i += 1;
    }
    max_area
}

/// Whether a rectangle of the height `m` stands under the histogram on
/// the bars from `a` to `b`.
pub open spec fn covers(h: Seq<i32>, a: int, b: int, m: int) -> bool {
    &&& 0 <= a <= b < h.len()
    &&& forall|k: int| a <= k <= b ==> #[trigger] h[k] >= m
}

/// Whether the bar `p` is the first lowest of the bars from `a` to `b`.
pub open spec fn first_lowest(h: Seq<i32>, a: int, p: int, b: int) -> bool {
    &&& 0 <= a <= p <= b < h.len()
    &&& forall|k: int| a <= k < p ==> #[trigger] h[k] > h[p]
    &&& forall|k: int| p <= k <= b ==> #[trigger] h[k] >= h[p]
}

/// Whether the bar `p` is one of the open bars.
pub open spec fn open_bar(stack: Seq<usize>, p: int) -> bool {
    exists|t: int| 0 <= t < stack.len() && #[trigger] stack[t] == p
}

/// The open bar below the open bar `t`, or -1 where `t` is the lowest.
pub open spec fn bar_below(stack: Seq<usize>, t: int) -> int {
    if t == 0 {
        -1
    } else {
        stack[t - 1] as int
    }
}

/// The open bars stand in rising places and are of heights that do not
/// fall, and no bar from behind the open bar below it up to the bar `i` is
/// lower than an open bar.
#[verifier::opaque]
pub open spec fn open_bars_ok(h: Seq<i32>, stack: Seq<usize>, i: int) -> bool {
    &&& forall|t: int| 0 <= t < stack.len() ==> #[trigger] stack[t] < i
    &&& forall|t: int, u: int|
        0 <= t < u < stack.len() ==> #[trigger] stack[t] < #[trigger] stack[u] && h[stack[t] as int]
            <= h[stack[u] as int]
    &&& forall|t: int, k: int|
        0 <= t < stack.len() && bar_below(stack, t) < k < i ==> #[trigger] h[k] >= h[(#[trigger] stack[t]) as int]
}

/// For every bar that is no longer open, no rectangle of its height on
/// bars of which it is the first lowest is larger than `area`.
#[verifier::opaque]
pub open spec fn closed_bars_ok(h: Seq<i32>, stack: Seq<usize>, i: int, area: int) -> bool {
    forall|a: int, p: int, b: int| #[trigger]
        first_lowest(h, a, p, b) && p < i && !open_bar(stack, p) ==> h[p] * (b - a + 1) <= area
}

/// `area` is 0 or the area of a rectangle under the histogram.
pub open spec fn reached(h: Seq<i32>, area: int) -> bool {
    area == 0 || exists|a: int, b: int, m: int| #[trigger]
        covers(h, a, b, m) && area == m * (b - a + 1)
}

/// Among the bars from `a` to `b` there is a first lowest.
pub proof fn lemma_first_lowest(h: Seq<i32>, a: int, b: int) -> (p: int)
    requires
        0 <= a <= b < h.len(),
    ensures
        first_lowest(h, a, p, b),
    decreases b - a,
{
    if a == b {
        a
    } else {
        let q = lemma_first_lowest(h, a, b - 1);
        if h[b] < h[q] {
            b
        } else {
            q
        }
    }
}

/// Without the highest open bar the open bars are as they should be, and
/// every bar behind the new highest is higher than `now`.
pub proof fn lemma_close_keeps_open(h: Seq<i32>, stack: Seq<usize>, i: int, now: int)
    requires
        stack.len() > 0,
        0 <= i <= h.len(),
        open_bars_ok(h, stack, i),
        now < h[stack.last() as int],
    ensures
        open_bars_ok(h, stack.drop_last(), i),
        forall|k: int| bar_below(stack, stack.len() - 1) < k < i ==> #[trigger] h[k] > now,
        0 <= bar_below(stack, stack.len() - 1) + 1 <= stack.last() < i,
        covers(h, bar_below(stack, stack.len() - 1) + 1, i - 1, h[stack.last() as int] as int),
{
    reveal(open_bars_ok);
    let top = stack.len() - 1;
    let bar = stack[top] as int;
    let below = bar_below(stack, top);
    let rest = stack.drop_last();
    assert(stack[top] < i);
    if top > 0 {
        assert(stack[top - 1] < stack[top]);
    }
    assert forall|t: int, k: int|
        0 <= t < rest.len() && bar_below(rest, t) < k < i implies #[trigger] h[k] >= h[(
    #[trigger] rest[t]) as int] by {
        assert(rest[t] == stack[t]);
        assert(bar_below(rest, t) == bar_below(stack, t));
    }
    assert forall|t: int, u: int| 0 <= t < u < rest.len() implies #[trigger] rest[t]
        < #[trigger] rest[u] && h[rest[t] as int] <= h[rest[u] as int] by {
        assert(rest[t] == stack[t] && rest[u] == stack[u]);
    }
    assert forall|t: int| 0 <= t < rest.len() implies #[trigger] rest[t] < i by {
        assert(rest[t] == stack[t]);
    }
    assert forall|k: int| below < k < i implies #[trigger] h[k] > now by {
        assert(h[k] >= h[stack[top] as int]);
    }
    assert forall|k: int| below + 1 <= k <= i - 1 implies #[trigger] h[k] >= h[bar] by {
        assert(h[k] >= h[stack[top] as int]);
    }
}

/// Once the highest open bar is closed, no rectangle of its height on
/// bars of which it is the first lowest is larger than the one from
/// behind the open bar below it up to the bar before `i`.
pub proof fn lemma_close_settles(h: Seq<i32>, stack: Seq<usize>, i: int, now: int, area: int)
    requires
        stack.len() > 0,
        0 <= i <= h.len(),
        forall|y: int| 0 <= y < h.len() ==> 0 <= #[trigger] h[y],
        open_bars_ok(h, stack, i),
        closed_bars_ok(h, stack, i, area),
        i < h.len() ==> now == h[i],
        now < h[stack.last() as int],
    ensures
        closed_bars_ok(
            h,
            stack.drop_last(),
            i,
            if h[stack.last() as int] * (i - bar_below(stack, stack.len() - 1) - 1) > area {
                h[stack.last() as int] * (i - bar_below(stack, stack.len() - 1) - 1)
            } else {
                area
            },
        ),
{
    reveal(open_bars_ok);
    reveal(closed_bars_ok);
    let top = stack.len() - 1;
    let bar = stack[top] as int;
    let below = bar_below(stack, top);
    let rest = stack.drop_last();
    let found = h[bar] * (i - below - 1);
    let best = if found > area {
        found
    } else {
        area
    };
    assert(stack[top] < i);
    assert forall|a: int, p: int, b: int| #[trigger]
        first_lowest(h, a, p, b) && p < i && !open_bar(rest, p) implies h[p] * (b - a + 1)
        <= best by {
        if p == bar {
            if b >= i {
                assert(h[i] >= h[p]);
            }
            if a <= below {
                assert(h[below] > h[p]);
                assert(stack[top - 1] == below);
                assert(h[stack[top - 1] as int] <= h[stack[top] as int]);
            }
            assert(h[p] * (b - a + 1) <= h[p] * (i - below - 1)) by (nonlinear_arith)
                requires
                    h[p] >= 0,
                    b - a + 1 <= i - below - 1,
            ;
        } else {
            if open_bar(stack, p) {
                let t = choose|t: int| 0 <= t < stack.len() && #[trigger] stack[t] == p;
                assert(t < top);
                assert(rest[t] == p);
            }
        }
    }
}

/// Opening the bar `i` on top of the open bars, of which none is higher,
/// where every bar behind the highest of them is higher than the bar `i`.
pub proof fn lemma_open_bar(h: Seq<i32>, stack: Seq<usize>, i: int, area: int)
    requires
        0 <= i < h.len(),
        i <= usize::MAX,
        open_bars_ok(h, stack, i),
        closed_bars_ok(h, stack, i, area),
        stack.len() > 0 ==> h[stack.last() as int] <= h[i],
        forall|k: int| bar_below(stack.push(i as usize), stack.len() as int) < k < i ==> #[trigger] h[k]
            > h[i],
    ensures
        open_bars_ok(h, stack.push(i as usize), i + 1),
        closed_bars_ok(h, stack.push(i as usize), i + 1, area),
{
    reveal(open_bars_ok);
    reveal(closed_bars_ok);
    let grown = stack.push(i as usize);
    let top = stack.len() as int;
    assert forall|t: int| 0 <= t < grown.len() implies bar_below(grown, t) == if t < top {
        bar_below(stack, t)
    } else {
        bar_below(grown, top)
    } by {}
    assert forall|t: int, u: int| 0 <= t < u < grown.len() implies #[trigger] grown[t]
        < #[trigger] grown[u] && h[grown[t] as int] <= h[grown[u] as int] by {
        assert(grown[t] == stack[t]);
        if u < top {
            assert(grown[u] == stack[u]);
        } else {
            assert(stack[t] < i);
            if t < top - 1 {
                assert(h[stack[t] as int] <= h[stack[top - 1] as int]);
            }
        }
    }
    assert forall|t: int, k: int|
        0 <= t < grown.len() && bar_below(grown, t) < k < i + 1 implies #[trigger] h[k] >= h[(#[trigger] grown[t]) as int] by {
        if t < top {
            assert(grown[t] == stack[t]);
            if k < i {
                assert(bar_below(stack, t) < k < i);
            } else {
                if t < top - 1 {
                    assert(h[stack[t] as int] <= h[stack[top - 1] as int]);
                }
            }
        } else {
            if k < i {
                assert(h[k] > h[i]);
            }
        }
    }
    assert forall|a: int, p: int, b: int| #[trigger]
        first_lowest(h, a, p, b) && p < i + 1 && !open_bar(grown, p) implies h[p] * (b - a + 1)
        <= area by {
        assert(grown[top] == i);
        if open_bar(stack, p) {
            let t = choose|t: int| 0 <= t < stack.len() && #[trigger] stack[t] == p;
            assert(grown[t] == p);
        }
    }
}

/// At the end every bar that is still open is of no height, so that no
/// rectangle under the histogram is larger than `area`.
pub proof fn lemma_all_closed(h: Seq<i32>, stack: Seq<usize>, area: int, a: int, b: int, m: int)
    requires
        forall|y: int| 0 <= y < h.len() ==> 0 <= #[trigger] h[y],
        closed_bars_ok(h, stack, h.len() as int, area),
        forall|t: int| 0 <= t < stack.len() && stack[t] < h.len() ==> h[(#[trigger] stack[t]) as int] == 0,
        covers(h, a, b, m),
        0 <= m,
        0 <= area,
    ensures
        m * (b - a + 1) <= area,
{
    reveal(closed_bars_ok);
    let p = lemma_first_lowest(h, a, b);
    assert(h[p] >= m);
    if open_bar(stack, p) {
        let t = choose|t: int| 0 <= t < stack.len() && #[trigger] stack[t] == p;
        assert(h[stack[t] as int] == 0);
        assert(m * (b - a + 1) == 0) by (nonlinear_arith)
            requires
                m == 0,
        ;
    } else {
        assert(first_lowest(h, a, p, b));
        assert(m * (b - a + 1) <= h[p] * (b - a + 1)) by (nonlinear_arith)
            requires
                0 <= m <= h[p],
                b - a + 1 >= 0,
        ;
    }
}

/// The area of the largest rectangle under the histogram `heights`, found
/// with a stack of the bars that are still open.
pub fn largest_rectangle_histogram(heights: &Vec<i32>) -> (max_area: i32)
    requires
        forall|y: int| 0 <= y < heights.len() ==> 0 <= #[trigger] heights[y],
        tallest(heights@) * heights.len() <= i32::MAX,
        heights.len() < usize::MAX,
    ensures
        0 <= max_area <= tallest(heights@) * heights.len(),
        reached(heights@, max_area as int),
        forall|a: int, b: int, m: int| #[trigger]
            covers(heights@, a, b, m) && 0 <= m ==> m * (b - a + 1) <= max_area,
{
    let mut stack: Vec<usize> = Vec::new();
    let mut max_area: i32 = 0;
    let n = heights.len();
    let ghost top = tallest(heights@);
    let ghost hs = heights@;
    proof {
        lemma_tallest(heights@, i32::MAX as int);
        assert(0 <= top * n) by (nonlinear_arith)
            requires
                top >= 0,
                n >= 0,
        ;
    }
    let mut i: usize = 0;
    proof {
        reveal(open_bars_ok);
        reveal(closed_bars_ok);
    }
    while i <= n
        invariant
            i <= n + 1,
            n == heights.len(),
            n < usize::MAX,
            hs == heights@,
            i <= n ==> forall|t: int| 0 <= t < stack.len() ==> #[trigger] stack[t] < i,
            top == tallest(heights@),
            forall|y: int| 0 <= y < n ==> 0 <= #[trigger] heights[y] <= top,
            top * n <= i32::MAX,
            0 <= max_area <= top * n,
            i <= n ==> open_bars_ok(hs, stack@, i as int),
            1 <= i <= n ==> stack.len() > 0 && stack[stack.len() - 1] == i - 1,
            closed_bars_ok(hs, stack@, if i <= n {
                i as int
            } else {
                n as int
            }, max_area as int),
            reached(hs, max_area as int),
            i == n + 1 ==> forall|t: int|
                0 <= t < stack.len() && stack[t] < n ==> hs[(#[trigger] stack[t]) as int] == 0,
        decreases n + 1 - i,
    {
        let h = if i == n {
            0
        } else {
            heights[i]
        };
        while stack.len() > 0 && h < heights[stack[stack.len() - 1]]
            invariant
                i <= n,
                h >= 0,
                i < n ==> h == hs[i as int],
                i == n ==> h == 0,
                n < usize::MAX,
                hs == heights@,
                top == tallest(heights@),
                n == heights.len(),
                forall|y: int| 0 <= y < n ==> 0 <= #[trigger] heights[y] <= top,
                top * n <= i32::MAX,
                0 <= max_area <= top * n,
                open_bars_ok(hs, stack@, i as int),
                closed_bars_ok(hs, stack@, i as int, max_area as int),
                reached(hs, max_area as int),
                forall|t: int| 0 <= t < stack.len() ==> #[trigger] stack[t] < i,
                forall|k: int|
                    bar_below(stack@.push(i), stack.len() as int) < k < i ==> #[trigger] hs[k] > h,
            decreases stack.len(),
        {
            let ghost open = stack@;
            proof {
                assert(open[open.len() - 1] < i);
                lemma_close_keeps_open(hs, open, i as int, h as int);
                lemma_close_settles(hs, open, i as int, h as int, max_area as int);
            }
            let bar = stack.pop().unwrap();
            let height = heights[bar];
            proof {
                assert(stack@ =~= open.drop_last());
                assert(n <= top * n) by (nonlinear_arith)
                    requires
                        top >= 1,
                        n >= 0,
                ;
            }
            let width = if stack.len() == 0 {
                i as i32
            } else {
                (i - stack[stack.len() - 1] - 1) as i32
            };
            proof {
                assert(width == i - bar_below(open, open.len() - 1) - 1);
                assert(0 <= height * width <= top * n) by (nonlinear_arith)
                    requires
                        0 <= height <= top,
                        0 <= width <= n,
                ;
            }
            let area = height * width;
            proof {
                let below = bar_below(open, open.len() - 1);
                assert(covers(hs, below + 1, i - 1, height as int) && area == height * ((i - 1) - (
                below + 1) + 1));
            }
            if area > max_area {
                max_area = area;
            }
            proof {
                assert(bar_below(stack@.push(i), stack.len() as int) == bar_below(
                    open,
                    open.len() - 1,
                ));
            }
        }
        proof {
            if i < n {
                lemma_open_bar(hs, stack@, i as int, max_area as int);
            } else {
                reveal(open_bars_ok);
                reveal(closed_bars_ok);
                assert forall|t: int| 0 <= t < stack.len() implies hs[(#[trigger] stack[t]) as int]
                    == 0 by {
                    assert(stack[t] < i);
                    if t < stack.len() - 1 {
                        assert(hs[stack[t] as int] <= hs[stack[stack.len() - 1] as int]);
                    }
                }
                assert forall|a: int, p: int, b: int| #[trigger]
                    first_lowest(hs, a, p, b) && p < n && !open_bar(stack@.push(i), p) implies hs[p]
                    * (b - a + 1) <= max_area by {
                    if open_bar(stack@, p) {
                        let t = choose|t: int| 0 <= t < stack.len() && #[trigger] stack[t] == p;
                        assert(stack@.push(i)[t] == p);
                    }
                }
                assert forall|t: int|
                    0 <= t < stack@.push(i).len() && stack@.push(i)[t] < n implies hs[(
                #[trigger] stack@.push(i)[t]) as int] == 0 by {
                    assert(stack@.push(i)[t] == stack[t]);
                }
            }
        }
        stack.push(i);
        i += 1;
    }
    proof {
        assert forall|a: int, b: int, m: int| #[trigger]
            covers(hs, a, b, m) && 0 <= m implies m * (b - a + 1) <= max_area by {
            lemma_all_closed(hs, stack@, max_area as int, a, b, m);
        }
    }
    max_area
}

/// The tallest barn of area `max_area` that fits on the grid with its
/// corner at row `i` and column `j` and covers no building, as its height
/// and width.
pub fn find_largest_barn(grid: &Vec<Vec<i32>>, i: usize, j: usize, max_area: i32) -> (barn: Option<
    (i32, i32),
>)
    requires
        grid.len() > 0,
        rectangular(grid@, grid[0].len() as int),
        grid.len() <= i32::MAX,
        grid[0].len() <= i32::MAX,
        grid.len() + max_area <= i32::MAX,
        grid[0].len() + max_area <= i32::MAX,
        i <= grid.len(),
        j <= grid[0].len(),
    ensures
        match barn {
            Some((height, width)) => {
                &&& 1 <= height <= max_area
                &&& height * width == max_area
                &&& i + height <= grid.len()
                &&& j + width <= grid[0].len()
                &&& free(grid@, i as int, j as int, height as int, width as int)
                &&& forall|h: int|
                    height < h <= max_area ==> !barn_fits(
                        grid@,
                        i as int,
                        j as int,
                        max_area as int,
                        h,
                    )
            },
            None => forall|h: int|
                1 <= h <= max_area ==> !barn_fits(grid@, i as int, j as int, max_area as int, h),
        },
{
    let n = grid.len() as i32;
    let m = grid[0].len() as i32;
    let mut height = max_area;
    while height >= 1
        invariant
            height <= max_area,
            max_area < 1 ==> height == max_area,
            n == grid.len(),
            m == grid[0].len(),
            grid.len() > 0,
            rectangular(grid@, grid[0].len() as int),
            n + max_area <= i32::MAX,
            m + max_area <= i32::MAX,
            i <= n,
            j <= m,
            forall|h: int|
                height < h <= max_area ==> !barn_fits(
                    grid@,
                    i as int,
                    j as int,
                    max_area as int,
                    h,
                ),
        decreases height,
    {
        if max_area % height == 0 {
            let width = max_area / height;
            proof {
                assert(height * width == max_area && 1 <= width <= max_area) by (nonlinear_arith)
                    requires
                        1 <= height <= max_area,
                        max_area % height == 0,
                        width == max_area / height,
                ;
            }
            if i as i32 + height <= n && j as i32 + width <= m {
                if can_fit_barn(grid, i, j, height, width) {
                    return Some((height, width));
                }
            }
        }
        height -= 1;
    }
    None
}

/// Whether the barn of `height` rows and `width` columns with its corner
/// at row `i` and column `j` covers no building.
pub fn can_fit_barn(grid: &Vec<Vec<i32>>, i: usize, j: usize, height: i32, width: i32) -> (fits:
    bool)
    requires
        height >= 0,
        width >= 0,
        i + height <= grid.len(),
        forall|x: int| i <= x < i + height ==> j + width <= (#[trigger] grid[x]).len(),
    ensures
        fits == free(grid@, i as int, j as int, height as int, width as int),
{
    let mut x = i;
    while x < i + height as usize
        invariant
            i <= x <= i + height,
            height >= 0,
            width >= 0,
            i + height <= grid.len(),
            forall|x: int| i <= x < i + height ==> j + width <= (#[trigger] grid[x]).len(),
            free(grid@, i as int, j as int, x - i, width as int),
        decreases i + height - x,
    {
        let mut y = j;
        while y < j + width as usize
            invariant
                j <= y <= j + width,
                i <= x < i + height,
                width >= 0,
                i + height <= grid.len(),
                j + width <= grid[x as int].len(),
                free(grid@, i as int, j as int, x - i, width as int),
                forall|c: int| j <= c < y ==> grid[x as int][c] != 1,
            decreases j + width - y,
        {
            if grid[x][y] == 1 {
                return false;
            }
            y += 1;
        }
        x += 1;
    }
    true
}

/// Draws the barn of `height` rows and `width` columns with its corner at
/// row `i` and column `j` onto the picture.
pub fn mark_barn(ascii_grid: &mut Vec<Vec<char>>, i: usize, j: usize, height: i32, width: i32)
    requires
        height >= 0,
        width >= 0,
        i + height <= old(ascii_grid).len(),
        forall|x: int| i <= x < i + height ==> j + width <= (#[trigger] old(ascii_grid)[x]).len(),
    ensures
        final(ascii_grid).len() == old(ascii_grid).len(),
        forall|x: int|
            0 <= x < old(ascii_grid).len() ==> (#[trigger] final(ascii_grid)[x]).len() == old(ascii_grid)[x].len(),
        forall|x: int, y: int|
            0 <= x < old(ascii_grid).len() && 0 <= y < old(ascii_grid)[x].len() ==> #[trigger] final(ascii_grid)[x][y] == if i <= x < i + height && j <= y < j + width {
                '*'
            } else {
                old(ascii_grid)[x][y]
            },
{
    let mut x = i;
    while x < i + height as usize
        invariant
            i <= x <= i + height,
            height >= 0,
            width >= 0,
            i + height <= ascii_grid.len(),
            ascii_grid.len() == old(ascii_grid).len(),
            forall|r: int|
                0 <= r < ascii_grid.len() ==> (#[trigger] ascii_grid[r]).len() == old(ascii_grid)[r].len(),
            forall|r: int| i <= r < i + height ==> j + width <= (#[trigger] old(ascii_grid)[r]).len(),
            forall|r: int, y: int|
                0 <= r < ascii_grid.len() && 0 <= y < ascii_grid[r].len() ==> #[trigger] ascii_grid[r][y]
                    == if i <= r < x && j <= y < j + width {
                    '*'
                } else {
                    old(ascii_grid)[r][y]
                },
        decreases i + height - x,
    {
        let mut row = Vec::new();
        std::mem::swap(&mut row, &mut ascii_grid[x]);
        let mut y = j;
        while y < j + width as usize
            invariant
                j <= y <= j + width,
                width >= 0,
                j + width <= row.len(),
                row.len() == old(ascii_grid)[x as int].len(),
                forall|c: int|
                    0 <= c < row.len() ==> #[trigger] row[c] == if j <= c < y {
                        '*'
                    } else {
                        old(ascii_grid)[x as int][c]
                    },
            decreases j + width - y,
        {
            row.set(y, '*');
            y += 1;
        }
        ascii_grid.set(x, row);
        x += 1;
    }
}

} // verus!
