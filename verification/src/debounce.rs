//! Temporal debouncing of the raw key matrix.
//!
//! Every cell of the matrix keeps the last debounced (stable) level and a
//! counter of consecutive raw samples that disagree with it. A level flip
//! is emitted as an event only once the new level has been observed for a
//! whole window of consecutive samples, which rejects mechanical contact
//! bounce. Cells are scanned in row-major order, so simultaneous
//! transitions in one tick come out in a stable, reproducible order.

use vstd::prelude::*;
use crate::event::Event;

verus! {

/// Whether one cell flips (and so emits an event) on this sample: the raw
/// level disagrees with the stable level and has done so for a full
/// window of consecutive samples.
pub open spec fn cell_fires(stable: bool, count: u8, raw: bool, window: u8) -> bool {
    raw != stable && count + 1 >= window
}

/// The cell's stable level after one sample.
pub open spec fn cell_next_stable(stable: bool, count: u8, raw: bool, window: u8) -> bool {
    if cell_fires(stable, count, raw, window) {
        raw
    } else {
        stable
    }
}

/// The cell's disagreement counter after one sample: reset by a sample at
/// the stable level or by a flip, advanced by a sample at the new level.
pub open spec fn cell_next_count(stable: bool, count: u8, raw: bool, window: u8) -> u8 {
    if raw == stable {
        0u8
    } else if count + 1 >= window {
        0u8
    } else {
        (count + 1) as u8
    }
}

/// The event a firing cell emits: the raw level that was reached decides
/// press or release.
pub open spec fn cell_event(raw: bool, r: int, c: int) -> Event {
    if raw {
        Event::Press(r as u8, c as u8)
    } else {
        Event::Release(r as u8, c as u8)
    }
}

/// Events emitted by the first `n` cells of row `r`, in column order.
pub open spec fn row_events_upto(
    stable: Seq<bool>,
    count: Seq<u8>,
    raw: Seq<bool>,
    window: u8,
    r: int,
    n: int,
) -> Seq<Event>
    decreases n,
{
    if n <= 0 {
        Seq::empty()
    } else {
        row_events_upto(stable, count, raw, window, r, n - 1) + if cell_fires(
            stable[n - 1],
            count[n - 1],
            raw[n - 1],
            window,
        ) {
            seq![cell_event(raw[n - 1], r, n - 1)]
        } else {
            Seq::empty()
        }
    }
}

/// Events emitted by the first `m` rows of the matrix, row-major.
pub open spec fn scan_events_upto(
    stable: Seq<Seq<bool>>,
    count: Seq<Seq<u8>>,
    raw: Seq<Seq<bool>>,
    window: u8,
    m: int,
) -> Seq<Event>
    decreases m,
{
    if m <= 0 {
        Seq::empty()
    } else {
        scan_events_upto(stable, count, raw, window, m - 1) + row_events_upto(
            stable[m - 1],
            count[m - 1],
            raw[m - 1],
            window,
            m - 1,
            stable[m - 1].len() as int,
        )
    }
}

/// The debounced view of one key matrix.
pub struct Debouncer {
    /// Debounced level of every cell; `true` is pressed.
    pub stable: Vec<Vec<bool>>,
    /// Consecutive raw samples so far disagreeing with the stable level.
    pub count: Vec<Vec<u8>>,
    /// Number of consecutive disagreeing samples that flips a cell.
    pub window: u8,
}

impl Debouncer {
    /// The debounced (stable) levels as a sequence of rows.
    pub open spec fn stable_view(self) -> Seq<Seq<bool>> {
        self.stable@.map(|i: int, v: Vec<bool>| v@)
    }

    /// The disagreement counters as a sequence of rows.
    pub open spec fn count_view(self) -> Seq<Seq<u8>> {
        self.count@.map(|i: int, v: Vec<u8>| v@)
    }

    pub open spec fn rows(self) -> int {
        self.stable@.len() as int
    }

    pub open spec fn cols(self) -> int {
        if self.stable@.len() > 0 {
            self.stable@[0]@.len() as int
        } else {
            0
        }
    }

    /// Internal consistency: a positive window, matching grid shapes, all
    /// counters still short of the window, and coordinates that fit in a
    /// byte.
    pub open spec fn wf(self) -> bool {
        &&& self.window >= 1
        &&& self.rows() <= 256
        &&& self.cols() <= 256
        &&& self.count@.len() == self.stable@.len()
        &&& forall|r: int|
            0 <= r < self.rows() ==> #[trigger] self.stable@[r]@.len() == self.cols()
        &&& forall|r: int|
            0 <= r < self.rows() ==> #[trigger] self.count@[r]@.len() == self.cols()
        &&& forall|r: int, c: int|
            0 <= r < self.rows() && 0 <= c < self.cols() ==> #[trigger] self.count@[r]@[c]
                < self.window
    }

    /// Shape of a raw sample matrix that matches this debouncer.
    pub open spec fn matches_shape(self, raw: Vec<Vec<bool>>) -> bool {
        &&& raw@.len() == self.rows()
        &&& forall|r: int| 0 <= r < self.rows() ==> #[trigger] raw@[r]@.len() == self.cols()
    }

    /// A fresh debouncer: every cell released and at rest.
    pub fn new(rows: usize, cols: usize, window: u8) -> (d: Debouncer)
        requires
            window >= 1,
            rows <= 256,
            cols <= 256,
        ensures
            d.wf(),
            d.rows() == rows,
            d.cols() == cols || rows == 0,
            d.window == window,
            forall|r: int, c: int|
                0 <= r < d.rows() && 0 <= c < d.cols() ==> !#[trigger] d.stable_view()[r][c],
            forall|r: int, c: int|
                0 <= r < d.rows() && 0 <= c < d.cols() ==> #[trigger] d.count_view()[r][c] == 0,
    {
        let mut stable: Vec<Vec<bool>> = Vec::new();
        let mut count: Vec<Vec<u8>> = Vec::new();
        let mut r: usize = 0;
        while r < rows
            invariant
                r <= rows,
                stable@.len() == r,
                count@.len() == r,
                forall|i: int| 0 <= i < r ==> #[trigger] stable@[i]@.len() == cols,
                forall|i: int| 0 <= i < r ==> #[trigger] count@[i]@.len() == cols,
                forall|i: int, j: int|
                    0 <= i < r && 0 <= j < cols ==> !#[trigger] stable@[i]@[j],
                forall|i: int, j: int|
                    0 <= i < r && 0 <= j < cols ==> #[trigger] count@[i]@[j] == 0,
            decreases rows - r,
        {
            let mut srow: Vec<bool> = Vec::new();
            let mut crow: Vec<u8> = Vec::new();
            let mut c: usize = 0;
            while c < cols
                invariant
                    c <= cols,
                    srow@.len() == c,
                    crow@.len() == c,
                    forall|j: int| 0 <= j < c ==> !#[trigger] srow@[j],
                    forall|j: int| 0 <= j < c ==> #[trigger] crow@[j] == 0,
                decreases cols - c,
            {
                srow.push(false);
                crow.push(0);
                c += 1;
            }
            stable.push(srow);
            count.push(crow);
            r += 1;
        }
        Debouncer { stable, count, window }
    }

    /// Feeds one raw sample of the whole matrix and returns the events of
    /// every cell that flipped, in row-major order. Every cell advances by
    /// exactly one debouncing step.
    pub fn events(&mut self, raw: &Vec<Vec<bool>>) -> (out: Vec<Event>)
        requires
            old(self).wf(),
            old(self).matches_shape(*raw),
        ensures
            final(self).wf(),
            final(self).window == old(self).window,
            final(self).rows() == old(self).rows(),
            final(self).cols() == old(self).cols(),
            forall|r: int, c: int|
                0 <= r < old(self).rows() && 0 <= c < old(self).cols()
                    ==> #[trigger] final(self).stable_view()[r][c] == cell_next_stable(
                    old(self).stable_view()[r][c],
                    old(self).count_view()[r][c],
                    raw@[r]@[c],
                    old(self).window,
                ),
            forall|r: int, c: int|
                0 <= r < old(self).rows() && 0 <= c < old(self).cols()
                    ==> #[trigger] final(self).count_view()[r][c] == cell_next_count(
                    old(self).stable_view()[r][c],
                    old(self).count_view()[r][c],
                    raw@[r]@[c],
                    old(self).window,
                ),
            out@ == scan_events_upto(
                old(self).stable_view(),
                old(self).count_view(),
                raw@.map(|i: int, v: Vec<bool>| v@),
                old(self).window,
                old(self).rows(),
            ),
    {
        let ghost raw_view = raw@.map(|i: int, v: Vec<bool>| v@);
        let mut out: Vec<Event> = Vec::new();
        let rows = self.stable.len();
        let mut r: usize = 0;
        while r < rows
            invariant
                old(self).wf(),
                old(self).matches_shape(*raw),
                raw_view == raw@.map(|i: int, v: Vec<bool>| v@),
                rows == old(self).rows(),
                r <= rows,
                self.window == old(self).window,
                self.stable@.len() == old(self).stable@.len(),
                self.count@.len() == old(self).count@.len(),
                forall|i: int|
                    r <= i < rows ==> #[trigger] self.stable@[i]@ == old(self).stable_view()[i],
                forall|i: int|
                    r <= i < rows ==> #[trigger] self.count@[i]@ == old(self).count_view()[i],
                forall|i: int|
                    0 <= i < r ==> #[trigger] self.stable@[i]@.len() == old(self).cols(),
                forall|i: int|
                    0 <= i < r ==> #[trigger] self.count@[i]@.len() == old(self).cols(),
                forall|i: int, j: int|
                    0 <= i < r && 0 <= j < old(self).cols()
                        ==> #[trigger] self.stable@[i]@[j] == cell_next_stable(
                        old(self).stable_view()[i][j],
                        old(self).count_view()[i][j],
                        raw_view[i][j],
                        old(self).window,
                    ),
                forall|i: int, j: int|
                    0 <= i < r && 0 <= j < old(self).cols()
                        ==> #[trigger] self.count@[i]@[j] == cell_next_count(
                        old(self).stable_view()[i][j],
                        old(self).count_view()[i][j],
                        raw_view[i][j],
                        old(self).window,
                    ),
                out@ == scan_events_upto(
                    old(self).stable_view(),
                    old(self).count_view(),
                    raw_view,
                    old(self).window,
                    r as int,
                ),
            decreases rows - r,
        {
            let cols = self.stable[r].len();
            proof {
                assert(old(self).stable_view()[r as int] == self.stable@[r as int]@);
                assert(cols == old(self).cols());
            }
            let mut c: usize = 0;
            while c < cols
                invariant
                    old(self).wf(),
                    old(self).matches_shape(*raw),
                    raw_view == raw@.map(|i: int, v: Vec<bool>| v@),
                    rows == old(self).rows(),
                    r < rows,
                    c <= cols,
                    cols == old(self).cols(),
                    self.window == old(self).window,
                    self.stable@.len() == old(self).stable@.len(),
                    self.count@.len() == old(self).count@.len(),
                    self.stable@[r as int]@.len() == cols,
                    self.count@[r as int]@.len() == cols,
                    forall|i: int|
                        r < i < rows ==> #[trigger] self.stable@[i]@ == old(
                            self,
                        ).stable_view()[i],
                    forall|i: int|
                        r < i < rows ==> #[trigger] self.count@[i]@ == old(self).count_view()[i],
                    forall|j: int|
                        c <= j < cols ==> #[trigger] self.stable@[r as int]@[j] == old(
                            self,
                        ).stable_view()[r as int][j],
                    forall|j: int|
                        c <= j < cols ==> #[trigger] self.count@[r as int]@[j] == old(
                            self,
                        ).count_view()[r as int][j],
                    forall|i: int|
                        0 <= i < r ==> #[trigger] self.stable@[i]@.len() == old(self).cols(),
                    forall|i: int|
                        0 <= i < r ==> #[trigger] self.count@[i]@.len() == old(self).cols(),
                    forall|i: int, j: int|
                        0 <= i < r && 0 <= j < old(self).cols()
                            ==> #[trigger] self.stable@[i]@[j] == cell_next_stable(
                            old(self).stable_view()[i][j],
                            old(self).count_view()[i][j],
                            raw_view[i][j],
                            old(self).window,
                        ),
                    forall|i: int, j: int|
                        0 <= i < r && 0 <= j < old(self).cols()
                            ==> #[trigger] self.count@[i]@[j] == cell_next_count(
                            old(self).stable_view()[i][j],
                            old(self).count_view()[i][j],
                            raw_view[i][j],
                            old(self).window,
                        ),
                    forall|j: int|
                        0 <= j < c ==> #[trigger] self.stable@[r as int]@[j] == cell_next_stable(
                            old(self).stable_view()[r as int][j],
                            old(self).count_view()[r as int][j],
                            raw_view[r as int][j],
                            old(self).window,
                        ),
                    forall|j: int|
                        0 <= j < c ==> #[trigger] self.count@[r as int]@[j] == cell_next_count(
                            old(self).stable_view()[r as int][j],
                            old(self).count_view()[r as int][j],
                            raw_view[r as int][j],
                            old(self).window,
                        ),
                    out@ == scan_events_upto(
                        old(self).stable_view(),
                        old(self).count_view(),
                        raw_view,
                        old(self).window,
                        r as int,
                    ) + row_events_upto(
                        old(self).stable_view()[r as int],
                        old(self).count_view()[r as int],
                        raw_view[r as int],
                        old(self).window,
                        r as int,
                        c as int,
                    ),
                decreases cols - c,
            {
                let s = self.stable[r][c];
                let cnt = self.count[r][c];
                let rb = raw[r][c];
                if rb == s {
                    self.count[r].set(c, 0);
                } else if cnt + 1 >= self.window {
                    self.stable[r].set(c, rb);
                    self.count[r].set(c, 0);
                    let ev = if rb {
                        Event::Press(r as u8, c as u8)
                    } else {
                        Event::Release(r as u8, c as u8)
                    };
                    out.push(ev);
                } else {
                    self.count[r].set(c, cnt + 1);
                }
                c += 1;
            }
            proof {
                assert(out@ == scan_events_upto(
                    old(self).stable_view(),
                    old(self).count_view(),
                    raw_view,
                    old(self).window,
                    r as int + 1,
                ));
            }
            r += 1;
        }
        out
    }
}

/// Events of one row carry that row's number and a column below the
/// row's length.
pub proof fn lemma_row_events_bounds(
    stable: Seq<bool>,
    count: Seq<u8>,
    raw: Seq<bool>,
    window: u8,
    r: int,
    n: int,
)
    requires
        0 <= r < 256,
        n <= 256,
    ensures
        forall|t: int|
            0 <= t < row_events_upto(stable, count, raw, window, r, n).len()
                ==> (#[trigger] row_events_upto(stable, count, raw, window, r, n)[t]).spec_row()
                == r as u8 && row_events_upto(stable, count, raw, window, r, n)[t].spec_col() < n,
    decreases n,
{
    if n > 0 {
        lemma_row_events_bounds(stable, count, raw, window, r, n - 1);
        let prev = row_events_upto(stable, count, raw, window, r, n - 1);
        let cur = row_events_upto(stable, count, raw, window, r, n);
        assert forall|t: int| 0 <= t < cur.len() implies (#[trigger] cur[t]).spec_row() == r as u8
            && cur[t].spec_col() < n by {
            if t < prev.len() {
                assert(cur[t] == prev[t]);
            } else {
                assert(cur[t] == cell_event(raw[n - 1], r, n - 1));
            }
        }
    }
}

/// Events of one scan stay within the matrix: row below the row count,
/// column below the (uniform) column count.
pub proof fn lemma_scan_events_bounds(
    stable: Seq<Seq<bool>>,
    count: Seq<Seq<u8>>,
    raw: Seq<Seq<bool>>,
    window: u8,
    m: int,
    cols: int,
)
    requires
        m <= 256,
        cols <= 256,
        forall|i: int| 0 <= i < m ==> #[trigger] stable[i].len() == cols,
    ensures
        forall|t: int|
            0 <= t < scan_events_upto(stable, count, raw, window, m).len()
                ==> (#[trigger] scan_events_upto(stable, count, raw, window, m)[t]).spec_row()
                < m && scan_events_upto(stable, count, raw, window, m)[t].spec_col() < cols,
    decreases m,
{
    if m > 0 {
        lemma_scan_events_bounds(stable, count, raw, window, m - 1, cols);
        lemma_row_events_bounds(
            stable[m - 1],
            count[m - 1],
            raw[m - 1],
            window,
            m - 1,
            stable[m - 1].len() as int,
        );
        let prev = scan_events_upto(stable, count, raw, window, m - 1);
        let row = row_events_upto(
            stable[m - 1],
            count[m - 1],
            raw[m - 1],
            window,
            m - 1,
            stable[m - 1].len() as int,
        );
        let cur = scan_events_upto(stable, count, raw, window, m);
        assert forall|t: int| 0 <= t < cur.len() implies (#[trigger] cur[t]).spec_row() < m
            && cur[t].spec_col() < cols by {
            if t < prev.len() {
                assert(cur[t] == prev[t]);
            } else {
                assert(cur[t] == row[t - prev.len()]);
            }
        }
    }
}

/// How many events in a list carry the coordinate `(r, c)`.
pub open spec fn count_events_at(evs: Seq<Event>, r: u8, c: u8) -> nat
    decreases evs.len(),
{
    if evs.len() == 0 {
        0
    } else {
        count_events_at(evs.drop_last(), r, c) + if evs.last().spec_row() == r
            && evs.last().spec_col() == c {
            1nat
        } else {
            0nat
        }
    }
}

proof fn lemma_count_events_concat(a: Seq<Event>, b: Seq<Event>, r: u8, c: u8)
    ensures
        count_events_at(a + b, r, c) == count_events_at(a, r, c) + count_events_at(b, r, c),
    decreases b.len(),
{
    if b.len() == 0 {
        assert(a + b =~= a);
    } else {
        lemma_count_events_concat(a, b.drop_last(), r, c);
        assert((a + b).drop_last() =~= a + b.drop_last());
        assert((a + b).last() == b.last());
    }
}

proof fn lemma_row_events_count_other(
    stable: Seq<bool>,
    count: Seq<u8>,
    raw: Seq<bool>,
    window: u8,
    rr: int,
    n: int,
    r: u8,
    c: u8,
)
    requires
        0 <= rr < 256,
        rr != r as int,
    ensures
        count_events_at(row_events_upto(stable, count, raw, window, rr, n), r, c) == 0,
    decreases n,
{
    if n <= 0 {
    } else {
        lemma_row_events_count_other(stable, count, raw, window, rr, n - 1, r, c);
        let prev = row_events_upto(stable, count, raw, window, rr, n - 1);
        let cur = row_events_upto(stable, count, raw, window, rr, n);
        if cell_fires(stable[n - 1], count[n - 1], raw[n - 1], window) {
            assert(cur.drop_last() =~= prev);
            assert(cur.last() == cell_event(raw[n - 1], rr, n - 1));
            assert(cur.last().spec_row() != r);
        } else {
            assert(cur =~= prev);
        }
    }
}

proof fn lemma_row_events_count_same(
    stable: Seq<bool>,
    count: Seq<u8>,
    raw: Seq<bool>,
    window: u8,
    r: u8,
    n: int,
    c: u8,
)
    requires
        n <= 256,
    ensures
        count_events_at(row_events_upto(stable, count, raw, window, r as int, n), r, c) == (
        if (c as int) < n && cell_fires(stable[c as int], count[c as int], raw[c as int], window) {
            1nat
        } else {
            0nat
        }),
    decreases n,
{
    if n <= 0 {
    } else {
        lemma_row_events_count_same(stable, count, raw, window, r, n - 1, c);
        let prev = row_events_upto(stable, count, raw, window, r as int, n - 1);
        let cur = row_events_upto(stable, count, raw, window, r as int, n);
        if cell_fires(stable[n - 1], count[n - 1], raw[n - 1], window) {
            assert(cur.drop_last() =~= prev);
            assert(cur.last() == cell_event(raw[n - 1], r as int, n - 1));
            assert(cur.last().spec_col() == (n - 1) as u8);
            assert((n - 1) as u8 == c <==> n - 1 == c as int);
        } else {
            assert(cur =~= prev);
        }
    }
}

proof fn lemma_scan_events_count_above(
    stable: Seq<Seq<bool>>,
    count: Seq<Seq<u8>>,
    raw: Seq<Seq<bool>>,
    window: u8,
    m: int,
    r: u8,
    c: u8,
)
    requires
        m <= 256,
        m <= r as int,
    ensures
        count_events_at(scan_events_upto(stable, count, raw, window, m), r, c) == 0,
    decreases m,
{
    if m > 0 {
        lemma_scan_events_count_above(stable, count, raw, window, m - 1, r, c);
        lemma_row_events_count_other(
            stable[m - 1],
            count[m - 1],
            raw[m - 1],
            window,
            m - 1,
            stable[m - 1].len() as int,
            r,
            c,
        );
        lemma_count_events_concat(
            scan_events_upto(stable, count, raw, window, m - 1),
            row_events_upto(
                stable[m - 1],
                count[m - 1],
                raw[m - 1],
                window,
                m - 1,
                stable[m - 1].len() as int,
            ),
            r,
            c,
        );
    }
}

/// What one scan emits for one cell: exactly one event when the cell
/// flips on this sample, none otherwise. Together with the fire-count
/// lemmas below, this pins "at most one event per physical transition"
/// down to the events themselves.
pub proof fn lemma_scan_events_cell_count(
    stable: Seq<Seq<bool>>,
    count: Seq<Seq<u8>>,
    raw: Seq<Seq<bool>>,
    window: u8,
    m: int,
    cols: int,
    r: u8,
    c: u8,
)
    requires
        m <= 256,
        cols <= 256,
        forall|i: int| 0 <= i < m ==> #[trigger] stable[i].len() == cols,
        (r as int) < m,
        (c as int) < cols,
    ensures
        count_events_at(scan_events_upto(stable, count, raw, window, m), r, c) == (if cell_fires(
            stable[r as int][c as int],
            count[r as int][c as int],
            raw[r as int][c as int],
            window,
        ) {
            1nat
        } else {
            0nat
        }),
    decreases m,
{
    lemma_count_events_concat(
        scan_events_upto(stable, count, raw, window, m - 1),
        row_events_upto(
            stable[m - 1],
            count[m - 1],
            raw[m - 1],
            window,
            m - 1,
            stable[m - 1].len() as int,
        ),
        r,
        c,
    );
    if m - 1 == r as int {
        lemma_scan_events_count_above(stable, count, raw, window, m - 1, r, c);
        lemma_row_events_count_same(
            stable[m - 1],
            count[m - 1],
            raw[m - 1],
            window,
            r,
            stable[m - 1].len() as int,
            c,
        );
    } else {
        lemma_scan_events_cell_count(stable, count, raw, window, m - 1, cols, r, c);
        lemma_row_events_count_other(
            stable[m - 1],
            count[m - 1],
            raw[m - 1],
            window,
            m - 1,
            stable[m - 1].len() as int,
            r,
            c,
        );
    }
}

/// How many times one cell fires over a whole sequence of raw samples,
/// starting from a given stable level and counter.
pub open spec fn cell_run_fire_count(stable: bool, count: u8, raws: Seq<bool>, window: u8) -> nat
    decreases raws.len(),
{
    if raws.len() == 0 {
        0
    } else {
        (if cell_fires(stable, count, raws[0], window) {
            1nat
        } else {
            0nat
        }) + cell_run_fire_count(
            cell_next_stable(stable, count, raws[0], window),
            cell_next_count(stable, count, raws[0], window),
            raws.subrange(1, raws.len() as int),
            window,
        )
    }
}

/// Debounce idempotence, first half: a signal held steadily at one level,
/// for however many ticks, makes a cell fire at most once — one physical
/// transition never yields more than one event — and a signal steady at
/// the already-stable level yields none at all.
pub proof fn lemma_debounce_stable_signal(
    stable: bool,
    count: u8,
    level: bool,
    raws: Seq<bool>,
    window: u8,
)
    requires
        window >= 1,
        count < window,
        forall|i: int| 0 <= i < raws.len() ==> raws[i] == level,
    ensures
        cell_run_fire_count(stable, count, raws, window) <= 1,
        level == stable ==> cell_run_fire_count(stable, count, raws, window) == 0,
    decreases raws.len(),
{
    if raws.len() == 0 {
    } else {
        let tail = raws.subrange(1, raws.len() as int);
        assert(forall|i: int| 0 <= i < tail.len() ==> tail[i] == level);
        if raws[0] == stable {
            lemma_debounce_stable_signal(stable, 0, level, tail, window);
        } else if count + 1 >= window {
            // The cell flips to `level`; from then on every sample agrees
            // with the new stable level, so nothing more fires.
            lemma_debounce_stable_signal(level, 0, level, tail, window);
        } else {
            lemma_debounce_stable_signal(stable, (count + 1) as u8, level, tail, window);
        }
    }
}

/// Whether the window-sized stretch of samples beginning at `i` (clipped
/// at the front of the sequence) touches the stable level at least once.
pub open spec fn window_touches_stable(stable: bool, raws: Seq<bool>, window: u8, i: int) -> bool {
    exists|j: int|
        (if i < 0 {
            0
        } else {
            i
        }) <= j < i + window && raws[j] == stable
}

/// Generalisation of the noise lemma: the counter stands for that many
/// immediately preceding samples away from the stable level, and every
/// window-sized stretch of samples (counting those) touches the stable
/// level at least once, so the counter can never reach the window.
proof fn lemma_debounce_noise_run(stable: bool, count: u8, raws: Seq<bool>, window: u8)
    requires
        window >= 1,
        count < window,
        forall|i: int|
            -(count as int) <= i && i + window <= raws.len() ==> #[trigger] window_touches_stable(
                stable,
                raws,
                window,
                i,
            ),
    ensures
        cell_run_fire_count(stable, count, raws, window) == 0,
    decreases raws.len(),
{
    if raws.len() == 0 {
    } else {
        let tail = raws.subrange(1, raws.len() as int);
        if raws[0] == stable {
            assert forall|i: int| -(0int) <= i && i + window <= tail.len() implies
                #[trigger] window_touches_stable(stable, tail, window, i) by {
                let i0 = i + 1;
                assert(window_touches_stable(stable, raws, window, i0));
                let j0 = choose|j: int|
                    (if i0 < 0 {
                        0
                    } else {
                        i0
                    }) <= j < i0 + window && raws[j] == stable;
                assert(tail[j0 - 1] == stable);
                assert((if i < 0 {
                    0
                } else {
                    i
                }) <= j0 - 1 < i + window);
            }
            lemma_debounce_noise_run(stable, 0, tail, window);
        } else {
            // The counter cannot reach the window: the last `count + 1`
            // samples (virtual ones included) are all away from the stable
            // level, so a flip would exhibit a full window without it.
            if count + 1 >= window {
                let i0 = 1 - window as int;
                assert(window_touches_stable(stable, raws, window, i0));
                let j0 = choose|j: int|
                    (if i0 < 0 {
                        0
                    } else {
                        i0
                    }) <= j < i0 + window && raws[j] == stable;
                assert(j0 == 0);
                assert(false);
            }
            assert forall|i: int| -((count + 1) as int) <= i && i + window <= tail.len() implies
                #[trigger] window_touches_stable(stable, tail, window, i) by {
                let i0 = i + 1;
                assert(window_touches_stable(stable, raws, window, i0));
                let j0 = choose|j: int|
                    (if i0 < 0 {
                        0
                    } else {
                        i0
                    }) <= j < i0 + window && raws[j] == stable;
                assert(j0 != 0);
                assert(tail[j0 - 1] == stable);
                assert((if i < 0 {
                    0
                } else {
                    i
                }) <= j0 - 1 < i + window);
            }
            lemma_debounce_noise_run(stable, (count + 1) as u8, tail, window);
        }
    }
}

/// Debounce idempotence, second half: noise below the window length —
/// a sample stream in which every window-sized stretch returns to the
/// stable level at least once — produces no event at all.
pub proof fn lemma_debounce_noise(stable: bool, raws: Seq<bool>, window: u8)
    requires
        window >= 1,
        forall|i: int|
            0 <= i && i + window <= raws.len() ==> #[trigger] window_touches_stable(
                stable,
                raws,
                window,
                i,
            ),
    ensures
        cell_run_fire_count(stable, 0, raws, window) == 0,
{
    lemma_debounce_noise_run(stable, 0, raws, window);
}

} // verus!
