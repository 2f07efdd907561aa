//! Daily activity: the chart window, sparse daily counts, chart bars and the
//! column of the date cursor. Days are numbered consecutively (one apart for
//! consecutive calendar days).
use crate::history::Entry;
use vstd::prelude::*;

verus! {

/// How many days the activity chart spans.
#[derive(Clone, Copy, Debug, PartialEq, Eq, Structural)]
pub enum Window {
    Week,
    Month,
    All,
}

impl Default for Window {
    fn default() -> (r: Self)
        ensures
            r == Window::Month,
    {
        Window::Month
    }
}

/// The window after `w` in the cycle week, month, all time.
pub open spec fn next_window(w: Window) -> Window {
    match w {
        Window::Week => Window::Month,
        Window::Month => Window::All,
        Window::All => Window::Week,
    }
}

/// The label of a window.
pub open spec fn window_label(w: Window) -> Seq<char> {
    match w {
        Window::Week => "7 days"@,
        Window::Month => "30 days"@,
        Window::All => "all time"@,
    }
}

impl Window {
    /// The next window in the cycle.
    pub fn next(self) -> (r: Window)
        ensures
            r == next_window(self),
    {
        match self {
            Window::Week => Window::Month,
            Window::Month => Window::All,
            Window::All => Window::Week,
        }
    }

    /// The window's label.
    pub fn label(self) -> (r: &'static str)
        ensures
            r@ == window_label(self),
    {
        match self {
            Window::Week => "7 days",
            Window::Month => "30 days",
            Window::All => "all time",
        }
    }
}

/// Law: three steps of the cycle come back to the start.
pub proof fn lemma_window_cycle(w: Window)
    ensures
        next_window(next_window(next_window(w))) == w,
{
}

/// The number of records on day `d`.
pub open spec fn day_count(cs: Seq<(i64, u64)>, d: int) -> u64
    decreases cs.len(),
{
    if cs.len() == 0 {
        0
    } else if cs[0].0 == d {
        cs[0].1
    } else {
        day_count(cs.drop_first(), d)
    }
}

/// The sum of the counts of days from `start` to `end` among the first `n` days.
pub open spec fn range_total(cs: Seq<(i64, u64)>, start: int, end: int, n: int) -> int
    decreases n,
{
    if n <= 0 {
        0
    } else {
        range_total(cs, start, end, n - 1) + if start <= cs[n - 1].0 <= end {
            cs[n - 1].1 as int
        } else {
            0
        }
    }
}

/// The number of days from `start` to `end`, both included.
pub open spec fn span(start: int, end: int) -> int {
    end - start + 1
}

/// The column of day `day` (counted from the start) in a chart `width`
/// columns wide spanning `days` days.
pub open spec fn column_of(day: int, width: int, days: int) -> int {
    day * width / days
}

/// The chart bars when the chart has more days than columns: each column
/// shows the highest daily count among its days (first `n` recorded days).
pub open spec fn compressed_bars(cs: Seq<(i64, u64)>, start: int, end: int, width: int, n: int) -> Seq<u64>
    decreases n,
{
    if n <= 0 {
        Seq::new(width as nat, |c: int| 0u64)
    } else {
        let prev = compressed_bars(cs, start, end, width, n - 1);
        let d = cs[n - 1].0 as int;
        if start <= d <= end {
            let c = column_of(d - start, width, span(start, end));
            prev.update(
                c,
                if prev[c] < cs[n - 1].1 {
                    cs[n - 1].1
                } else {
                    prev[c]
                },
            )
        } else {
            prev
        }
    }
}

/// The chart bars: with at least as many columns as days, each day spans
/// whole columns showing its count; else each column shows its busiest day.
pub open spec fn chart_bars(cs: Seq<(i64, u64)>, start: int, end: int, width: int) -> Seq<u64> {
    if width <= 0 {
        Seq::empty()
    } else if span(start, end) <= width {
        Seq::new(
            width as nat,
            |c: int| day_count(cs, start + column_of(c, span(start, end), width)),
        )
    } else {
        compressed_bars(cs, start, end, width, cs.len() as int)
    }
}

/// Whether recorded day `k` of `cs` falls in column `c` of a chart from
/// `start` to `end` in `width` columns.
pub open spec fn day_in_column(cs: Seq<(i64, u64)>, start: int, end: int, width: int, k: int, c: int) -> bool {
    start <= cs[k].0 <= end && column_of(cs[k].0 - start, width, span(start, end)) == c
}

proof fn lemma_compressed_busiest(cs: Seq<(i64, u64)>, start: int, end: int, width: int, n: int, c: int)
    requires
        0 <= n <= cs.len(),
        width > 0,
        start <= end,
        0 <= c < width,
    ensures
        compressed_bars(cs, start, end, width, n).len() == width,
        forall|k: int|
            0 <= k < n && day_in_column(cs, start, end, width, k, c) ==> cs[k].1
                <= #[trigger] compressed_bars(cs, start, end, width, n)[c],
        compressed_bars(cs, start, end, width, n)[c] == 0 || exists|k: int|
            0 <= k < n && day_in_column(cs, start, end, width, k, c) && cs[k].1 == compressed_bars(
                cs,
                start,
                end,
                width,
                n,
            )[c],
    decreases n,
{
    if n > 0 {
        lemma_compressed_busiest(cs, start, end, width, n - 1, c);
        let prev = compressed_bars(cs, start, end, width, n - 1);
        let d = cs[n - 1].0 as int;
        if start <= d <= end {
            lemma_column_in_range(d - start, width, span(start, end));
            let col = column_of(d - start, width, span(start, end));
            if col == c {
                assert(day_in_column(cs, start, end, width, n - 1, c));
            } else {
                assert(!day_in_column(cs, start, end, width, n - 1, c));
            }
        } else {
            assert(!day_in_column(cs, start, end, width, n - 1, c));
        }
    }
}

/// Law: in a chart with more days than columns, each column's bar is the
/// count of the busiest recorded day among the days it covers (0 when it
/// covers none): no recorded day of the column has a higher count, and the
/// bar is the count of one of them.
pub proof fn lemma_compressed_bar_is_busiest_day(cs: Seq<(i64, u64)>, start: int, end: int, width: int, c: int)
    requires
        start <= end,
        0 < width < span(start, end),
        0 <= c < width,
    ensures
        chart_bars(cs, start, end, width).len() == width,
        forall|k: int|
            0 <= k < cs.len() && day_in_column(cs, start, end, width, k, c) ==> cs[k].1 <= chart_bars(
                cs,
                start,
                end,
                width,
            )[c],
        chart_bars(cs, start, end, width)[c] == 0 || exists|k: int|
            0 <= k < cs.len() && day_in_column(cs, start, end, width, k, c) && cs[k].1 == chart_bars(
                cs,
                start,
                end,
                width,
            )[c],
{
    lemma_compressed_busiest(cs, start, end, width, cs.len() as int, c);
}

/// The smallest integer at least `a / b`.
pub open spec fn ceil_div(a: int, b: int) -> int {
    (a + b - 1) / b
}

/// The chart column of the date cursor: the middle of the columns of its day
/// when days span several columns, else the column holding its day.
pub open spec fn cursor_at(start: int, end: int, date: int, width: int) -> int {
    if width <= 0 {
        0
    } else {
        let days = span(start, end);
        let day = (if date < start {
            start
        } else if date > end {
            end
        } else {
            date
        }) - start;
        if days <= width {
            let left = ceil_div(day * width, days);
            let right = ceil_div((day + 1) * width, days);
            (left + if right > 0 {
                right - 1
            } else {
                0
            }) / 2
        } else {
            let c = column_of(day, width, days);
            if c < width - 1 {
                c
            } else {
                width - 1
            }
        }
    }
}

/// Daily record counts, by strictly increasing day.
pub struct Activity {
    pub counts: Vec<(i64, u64)>,
}

impl Activity {
    /// Days strictly increasing, and the counts summing to a `u64`.
    pub open spec fn wf(&self) -> bool {
        &&& forall|a: int, b: int|
            0 <= a < b < self.counts.len() ==> #[trigger] self.counts@[a].0
                < #[trigger] self.counts@[b].0
        &&& range_total(self.counts@, i64::MIN as int, i64::MAX as int, self.counts.len() as int)
            <= u64::MAX
    }

    /// The first day and the last day of the chart for `window` ending
    /// `today`: the last 7 or 30 days (from `today` itself where the
    /// calendar cannot go back that far), or from the earliest counted day.
    pub fn bounds(&self, window: Window, today: i64) -> (r: (i64, i64))
        ensures
            r.1 == today,
            r.0 == match window {
                Window::Week => window_start(today, 7) as int,
                Window::Month => window_start(today, 30) as int,
                Window::All => if self.counts.len() > 0 && self.counts@[0].0 < today {
                    self.counts@[0].0 as int
                } else {
                    today as int
                },
            },
            r.0 <= r.1,
    {
        let start = match window {
            Window::Week => match days_before(today, 6) {
                Some(d) => d,
                None => today,
            },
            Window::Month => match days_before(today, 29) {
                Some(d) => d,
                None => today,
            },
            Window::All => if self.counts.len() > 0 && self.counts[0].0 < today {
                self.counts[0].0
            } else {
                today
            },
        };
        (start, today)
    }

    /// The number of records on `date`.
    pub fn count(&self, date: i64) -> (r: u64)
        ensures
            r == day_count(self.counts@, date as int),
    {
        let mut i: usize = 0;
        assert(self.counts@.skip(0) =~= self.counts@);
        while i < self.counts.len()
            invariant
                i <= self.counts.len(),
                day_count(self.counts@, date as int) == day_count(self.counts@.skip(i as int), date as int),
            decreases self.counts.len() - i,
        {
            assert(self.counts@.skip(i as int).drop_first() =~= self.counts@.skip(i + 1));
            if self.counts[i].0 == date {
                return self.counts[i].1;
            }
            i = i + 1;
        }
        0
    }

    /// The number of records from `start` to `end`, both included.
    pub fn total(&self, start: i64, end: i64) -> (r: u64)
        requires
            self.wf(),
        ensures
            r == range_total(self.counts@, start as int, end as int, self.counts.len() as int),
    {
        let ghost cs = self.counts@;
        proof {
            lemma_total_bounded(cs, start as int, end as int, cs.len() as int);
        }
        let mut sum: u64 = 0;
        let mut i: usize = 0;
        while i < self.counts.len()
            invariant
                i <= self.counts.len(),
                cs == self.counts@,
                self.wf(),
                sum == range_total(cs, start as int, end as int, i as int),
            decreases self.counts.len() - i,
        {
            proof {
                lemma_total_bounded(cs, start as int, end as int, i + 1);
                lemma_total_monotonic(cs, i64::MIN as int, i64::MAX as int, i + 1, cs.len() as int);
            }
            if start <= self.counts[i].0 && self.counts[i].0 <= end {
                sum = sum + self.counts[i].1;
            }
            i = i + 1;
        }
        sum
    }

    /// The chart bars from `start` to `end` in `width` columns.
    pub fn bars(&self, start: i64, end: i64, width: usize) -> (r: Vec<u64>)
        requires
            start <= end,
            end - start < i64::MAX,
            span(start as int, end as int) * (width as int) <= usize::MAX,
        ensures
            r@ == chart_bars(self.counts@, start as int, end as int, width as int),
    {
        let ghost cs = self.counts@;
        if width == 0 {
            return Vec::new();
        }
        proof {
            let sp = span(start as int, end as int);
            assert(sp <= sp * (width as int)) by (nonlinear_arith)
                requires
                    sp >= 1,
                    width >= 1,
            ;
        }
        let days: usize = (end - start) as usize + 1;
        if days <= width {
            let mut out: Vec<u64> = Vec::new();
            let mut c: usize = 0;
            while c < width
                invariant
                    c <= width,
                    days == span(start as int, end as int),
                    (days as int) * (width as int) <= usize::MAX,
                    end - start < i64::MAX,
                    days <= width,
                    cs == self.counts@,
                    start <= end,
                    out@.len() == c,
                    forall|k: int| 0 <= k < c ==> #[trigger] out@[k] == day_count(
                        cs,
                        start + column_of(k, days as int, width as int),
                    ),
                decreases width - c,
            {
                proof {
                    lemma_column_in_range(c as int, days as int, width as int);
                    assert((c as int) * (days as int) <= (days as int) * (width as int)) by (
                    nonlinear_arith)
                        requires
                            c < width,
                    ;
                }
                let offset = c * days / width;
                out.push(self.count(start + offset as i64));
                c = c + 1;
            }
            assert(out@ =~= chart_bars(cs, start as int, end as int, width as int));
            out
        } else {
            let mut out: Vec<u64> = Vec::new();
            let mut c: usize = 0;
            while c < width
                invariant
                    c <= width,
                    out@ =~= Seq::new(c as nat, |k: int| 0u64),
                decreases width - c,
            {
                out.push(0);
                c = c + 1;
            }
            let mut i: usize = 0;
            while i < self.counts.len()
                invariant
                    i <= self.counts.len(),
                    cs == self.counts@,
                    days == span(start as int, end as int),
                    (days as int) * (width as int) <= usize::MAX,
                    end - start < i64::MAX,
                    days > width,
                    width > 0,
                    start <= end,
                    out@ == compressed_bars(cs, start as int, end as int, width as int, i as int),
                    out@.len() == width,
                decreases self.counts.len() - i,
            {
                let (d, k) = self.counts[i];
                if start <= d && d <= end {
                    let day = (d - start) as usize;
                    proof {
                        lemma_column_in_range(day as int, width as int, days as int);
                        assert((day as int) * (width as int) <= (days as int) * (width as int)) by (
                        nonlinear_arith)
                            requires
                                day < days,
                        ;
                    }
                    let col = day * width / days;
                    let m = if out[col] < k {
                        k
                    } else {
                        out[col]
                    };
                    out.set(col, m);
                }
                i = i + 1;
            }
            out
        }
    }

    /// The chart column of the date cursor (see `cursor_at`).
    pub fn cursor_column(start: i64, end: i64, date: i64, width: usize) -> (r: usize)
        requires
            start <= end,
            end - start < i64::MAX,
            span(start as int, end as int) * (width as int + 1) <= usize::MAX,
        ensures
            r == cursor_at(start as int, end as int, date as int, width as int),
    {
        if width == 0 {
            return 0;
        }
        proof {
            let sp = span(start as int, end as int);
            assert(sp <= sp * (width as int + 1)) by (nonlinear_arith)
                requires
                    sp >= 1,
                    width >= 0,
            ;
        }
        let days: usize = (end - start) as usize + 1;
        let clamped = if date < start {
            start
        } else if date > end {
            end
        } else {
            date
        };
        let day = (clamped - start) as usize;
        proof {
            assert(day < days);
            assert((day as int) * (width as int) <= (days as int) * (width as int)) by (nonlinear_arith)
                requires
                    day < days,
            ;
            assert(((day + 1) as int) * (width as int) <= (days as int) * (width as int)) by (
            nonlinear_arith)
                requires
                    day < days,
            ;
            assert((days as int) * (width as int + 1) == (days as int) * (width as int) + days)
                by (nonlinear_arith);
        }
        if days <= width {
            proof {
                lemma_cursor_bounds(day as int, width as int, days as int);
            }
            let left = (day * width + days - 1) / days;
            let right = ((day + 1) * width + days - 1) / days;
            (left + right.saturating_sub(1)) / 2
        } else {
            proof {
                lemma_column_in_range(day as int, width as int, days as int);
            }
            let c = day * width / days;
            if c < width - 1 {
                c
            } else {
                width - 1
            }
        }
    }
}

proof fn lemma_total_bounded(cs: Seq<(i64, u64)>, start: int, end: int, n: int)
    requires
        0 <= n <= cs.len(),
    ensures
        0 <= range_total(cs, start, end, n) <= range_total(cs, i64::MIN as int, i64::MAX as int, n),
    decreases n,
{
    if n > 0 {
        lemma_total_bounded(cs, start, end, n - 1);
    }
}

proof fn lemma_total_monotonic(cs: Seq<(i64, u64)>, start: int, end: int, a: int, b: int)
    requires
        0 <= a <= b <= cs.len(),
    ensures
        range_total(cs, start, end, a) <= range_total(cs, start, end, b),
    decreases b - a,
{
    if a < b {
        lemma_total_monotonic(cs, start, end, a, b - 1);
    }
}

/// The columns of a day in a stretched chart lie within it, and their
/// middle can be computed without overflow.
proof fn lemma_cursor_bounds(day: int, w: int, days: int)
    requires
        0 <= day < days,
        1 <= days <= w,
        days * (w + 1) <= usize::MAX,
    ensures
        ceil_div(day * w, days) <= ceil_div((day + 1) * w, days) <= w,
        ceil_div(day * w, days) + ceil_div((day + 1) * w, days) <= usize::MAX,
        0 <= ceil_div(day * w, days),
{
    assert(day * w <= (day + 1) * w) by (nonlinear_arith)
        requires
            0 <= day,
            1 <= w,
    ;
    assert(0 <= day * w) by (nonlinear_arith)
        requires
            0 <= day,
            1 <= w,
    ;
    assert((day + 1) * w <= days * w) by (nonlinear_arith)
        requires
            day + 1 <= days,
            1 <= w,
    ;
    assert((day * w + days - 1) / days <= ((day + 1) * w + days - 1) / days) by (nonlinear_arith)
        requires
            day * w <= (day + 1) * w,
            1 <= days,
    ;
    assert(((day + 1) * w + days - 1) / days <= (days * w + days - 1) / days) by (nonlinear_arith)
        requires
            (day + 1) * w <= days * w,
            1 <= days,
    ;
    assert((days * w + days - 1) / days == w) by (nonlinear_arith)
        requires
            1 <= days,
            0 <= w,
    ;
    assert(0 <= (day * w + days - 1) / days) by (nonlinear_arith)
        requires
            0 <= day * w,
            1 <= days,
    ;
    if days == 1 {
        assert(day == 0);
        assert(ceil_div(day * w, days) == 0);
    } else {
        assert(2 * (w + 1) <= days * (w + 1)) by (nonlinear_arith)
            requires
                2 <= days,
                0 <= w,
        ;
    }
}

/// A day's column lies within the chart.
proof fn lemma_column_in_range(day: int, width: int, days: int)
    requires
        0 <= day < days,
        0 < width,
    ensures
        0 <= column_of(day, width, days) < width,
        day * width <= days * width,
{
    assert(0 <= day * width) by (nonlinear_arith)
        requires
            0 <= day,
            0 < width,
    ;
    assert(day * width < days * width) by (nonlinear_arith)
        requires
            day < days,
            0 < width,
    ;
    assert(day * width / days < width) by (nonlinear_arith)
        requires
            day * width < days * width,
            0 < days,
    ;
    assert(0 <= day * width / days) by (nonlinear_arith)
        requires
            0 <= day * width,
            0 < days,
    ;
}

proof fn lemma_stretched_cursor(day: int, w: int, days: int)
    requires
        0 <= day < days,
        1 <= days <= w,
    ensures
        ({
            let left = ceil_div(day * w, days);
            let right = ceil_div((day + 1) * w, days);
            let c = (left + right - 1) / 2;
            &&& left < right
            &&& 0 <= c < w
            &&& column_of(c, days, w) == day
        }),
{
    let left = ceil_div(day * w, days);
    let right = ceil_div((day + 1) * w, days);
    let c = (left + right - 1) / 2;
    lemma_cursor_bounds_int(day, w, days);
    assert(left * days >= day * w) by (nonlinear_arith)
        requires
            left == (day * w + days - 1) / days,
            1 <= days,
    ;
    assert(right * days >= (day + 1) * w) by (nonlinear_arith)
        requires
            right == ((day + 1) * w + days - 1) / days,
            1 <= days,
    ;
    assert((right - 1) * days < (day + 1) * w) by (nonlinear_arith)
        requires
            right == ((day + 1) * w + days - 1) / days,
            1 <= days,
    ;
    assert(left * days < day * w + days) by (nonlinear_arith)
        requires
            left == (day * w + days - 1) / days,
            1 <= days,
    ;
    assert(day * w + days <= (day + 1) * w) by (nonlinear_arith)
        requires
            days <= w,
    ;
    assert(left < right) by (nonlinear_arith)
        requires
            left * days < (day + 1) * w,
            right * days >= (day + 1) * w,
            1 <= days,
    ;
    assert(left <= c < right);
    assert(c * days >= day * w) by (nonlinear_arith)
        requires
            c >= left,
            left * days >= day * w,
            1 <= days,
    ;
    assert(c * days < (day + 1) * w) by (nonlinear_arith)
        requires
            c <= right - 1,
            (right - 1) * days < (day + 1) * w,
            1 <= days,
    ;
    assert(c * days / w == day) by (nonlinear_arith)
        requires
            c * days >= day * w,
            c * days < (day + 1) * w,
            1 <= w,
    ;
}

proof fn lemma_cursor_bounds_int(day: int, w: int, days: int)
    requires
        0 <= day < days,
        1 <= days <= w,
    ensures
        0 <= ceil_div(day * w, days) <= ceil_div((day + 1) * w, days) <= w,
{
    assert(day * w <= (day + 1) * w) by (nonlinear_arith)
        requires
            0 <= day,
            1 <= w,
    ;
    assert(0 <= day * w) by (nonlinear_arith)
        requires
            0 <= day,
            1 <= w,
    ;
    assert((day + 1) * w <= days * w) by (nonlinear_arith)
        requires
            day + 1 <= days,
            1 <= w,
    ;
    assert((day * w + days - 1) / days <= ((day + 1) * w + days - 1) / days) by (nonlinear_arith)
        requires
            day * w <= (day + 1) * w,
            1 <= days,
    ;
    assert(((day + 1) * w + days - 1) / days <= (days * w + days - 1) / days) by (nonlinear_arith)
        requires
            (day + 1) * w <= days * w,
            1 <= days,
    ;
    assert((days * w + days - 1) / days == w) by (nonlinear_arith)
        requires
            1 <= days,
            0 <= w,
    ;
    assert(0 <= (day * w + days - 1) / days) by (nonlinear_arith)
        requires
            0 <= day * w,
            1 <= days,
    ;
}

proof fn lemma_compressed_covers(cs: Seq<(i64, u64)>, start: int, end: int, width: int, n: int, k: int)
    requires
        0 <= k < n <= cs.len(),
        start <= cs[k].0 <= end,
        span(start, end) > width > 0,
    ensures
        compressed_bars(cs, start, end, width, n).len() == width,
        compressed_bars(cs, start, end, width, n)[column_of(cs[k].0 - start, width, span(start, end))]
            >= cs[k].1,
    decreases n,
{
    lemma_compressed_len(cs, start, end, width, n);
    lemma_compressed_len(cs, start, end, width, n - 1);
    lemma_column_in_range(cs[k].0 - start, width, span(start, end));
    if k < n - 1 {
        lemma_compressed_covers(cs, start, end, width, n - 1, k);
        lemma_compressed_len(cs, start, end, width, n - 1);
        let d = cs[n - 1].0 as int;
        if start <= d <= end {
            lemma_column_in_range(d - start, width, span(start, end));
        }
    }
}

proof fn lemma_compressed_len(cs: Seq<(i64, u64)>, start: int, end: int, width: int, n: int)
    requires
        n <= cs.len(),
        span(start, end) > width > 0,
    ensures
        compressed_bars(cs, start, end, width, n).len() == width,
    decreases n,
{
    if n > 0 {
        lemma_compressed_len(cs, start, end, width, n - 1);
        let d = cs[n - 1].0 as int;
        if start <= d <= end {
            lemma_column_in_range(d - start, width, span(start, end));
        }
    }
}

proof fn lemma_day_count_found(cs: Seq<(i64, u64)>, d: int)
    ensures
        day_count(cs, d) == 0 || exists|k: int|
            0 <= k < cs.len() && cs[k].0 == d && #[trigger] cs[k].1 == day_count(cs, d),
    decreases cs.len(),
{
    if cs.len() > 0 && cs[0].0 != d {
        lemma_day_count_found(cs.drop_first(), d);
        if day_count(cs.drop_first(), d) != 0 {
            let k = choose|k: int|
                0 <= k < cs.drop_first().len() && cs.drop_first()[k].0 == d && #[trigger] cs.drop_first()[k].1
                    == day_count(cs.drop_first(), d);
            assert(cs[k + 1].1 == day_count(cs, d));
        }
    }
}

/// Law: the cursor's column lies in the chart and shows the cursor's day:
/// when days span whole columns, the column belongs to that day; when the
/// chart is compressed, the column's bar is at least that day's count.
pub proof fn lemma_cursor_shows_its_day(cs: Seq<(i64, u64)>, start: int, end: int, date: int, width: int)
    requires
        start <= date <= end,
        width > 0,
    ensures
        0 <= cursor_at(start, end, date, width) < width,
        span(start, end) <= width ==> chart_bars(cs, start, end, width)[cursor_at(start, end, date, width)]
            == day_count(cs, date),
        span(start, end) > width ==> chart_bars(cs, start, end, width)[cursor_at(start, end, date, width)]
            >= day_count(cs, date),
{
    let days = span(start, end);
    let day = date - start;
    if days <= width {
        lemma_stretched_cursor(day, width, days);
    } else {
        lemma_column_in_range(day, width, days);
        lemma_compressed_len(cs, start, end, width, cs.len() as int);
        lemma_day_count_found(cs, date);
        if day_count(cs, date) != 0 {
            let k = choose|k: int| 0 <= k < cs.len() && cs[k].0 == date && #[trigger] cs[k].1 == day_count(cs, date);
            lemma_compressed_covers(cs, start, end, width, cs.len() as int, k);
        }
    }
}

/// The UTC calendar day (counted from the common era, day 1 being January 1
/// of year 1) of a Unix time.
pub open spec fn utc_day(timestamp: i64) -> int {
    timestamp / 86400 + 719163
}

/// Whether `day` can be the local calendar day of Unix time `timestamp`:
/// within one day of its UTC day, and known whenever its UTC day lies well
/// inside chrono's calendar (years about -260000 to 260000).
pub open spec fn local_day_of(timestamp: i64, day: Option<i64>) -> bool {
    &&& day matches Some(d) ==> utc_day(timestamp) - 1 <= d <= utc_day(timestamp) + 1
    &&& -95_000_000 <= utc_day(timestamp) <= 95_000_000 ==> day is Some
}

/// The local calendar day (counted from the common era) of a Unix time, in
/// the machine's time zone: `chrono::DateTime::from_timestamp`, then the
/// zone's offset for that instant (`TimeZone::offset_from_utc_datetime` of
/// `chrono::Local`) added with `NaiveDateTime::checked_add_offset`; none
/// for a time or local time out of chrono's calendar. Claimed: the day is
/// within one of the UTC day (a fixed offset is less than a day, and
/// `checked_add_offset` moves the date by at most one day), and there is a
/// day when the UTC day lies well inside chrono's calendar. Which of the
/// three days it is depends on the machine's zone and is left unsaid.
#[verifier::external_body]
pub fn local_date(timestamp: i64) -> (r: Option<i64>)
    ensures
        local_day_of(timestamp, r),
{
    chrono::DateTime::from_timestamp(timestamp, 0).map(|time| time.naive_utc()).and_then(
        |utc| utc.checked_add_offset(
            chrono::Offset::fix(&chrono::TimeZone::offset_from_utc_datetime(&chrono::Local, &utc)),
        ),
    ).map(|local| i64::from(chrono::Datelike::num_days_from_ce(&local.date())))
}

/// Today's local calendar day (counted from the common era), from the
/// machine's clock and zone (`chrono::Local::now`). Nothing is stated of it.
#[verifier::external_body]
pub(crate) fn today() -> i64 {
    i64::from(chrono::Datelike::num_days_from_ce(&chrono::Local::now().date_naive()))
}

/// The text that `chrono::NaiveDate::from_num_days_from_ce_opt` and the
/// date's `Display` give for day `day`; none for a day out of chrono's range.
pub uninterp spec fn iso_date(day: i64) -> Option<Seq<char>>;

/// Day `day` as text (`YYYY-MM-DD`, by `chrono::NaiveDate`'s `Display`);
/// none for a day out of chrono's range.
#[verifier::external_body]
pub(crate) fn date_text(day: i64) -> (r: Option<String>)
    ensures
        match r {
            Some(t) => iso_date(day) == Some(t@),
            None => iso_date(day) is None,
        },
{
    i32::try_from(day).ok().and_then(chrono::NaiveDate::from_num_days_from_ce_opt).map(|date| date.to_string())
}

/// The first day of chrono's calendar (January 1 of year -262143),
/// counted from the common era.
pub const FIRST_DAY: i64 = -95746129;

/// The last day of chrono's calendar (December 31 of year 262142), counted
/// from the common era.
pub const LAST_DAY: i64 = 95745399;

/// The day `n` days before `day`, where both lie in chrono's calendar and
/// `n` fits in `i32`.
pub open spec fn days_before_of(day: i64, n: u64) -> Option<i64> {
    if n <= i32::MAX && FIRST_DAY <= day <= LAST_DAY && FIRST_DAY <= day - n {
        Some((day - n) as i64)
    } else {
        None
    }
}

/// The day `n` days before `day`: `NaiveDate::from_num_days_from_ce_opt`
/// then `checked_sub_days`. Claimed, as chrono's source shows: a day comes
/// back exactly when `day` lies in chrono's calendar, `n` is at most
/// `i32::MAX` (else `checked_sub_days` gives none) and the day `n` before
/// it lies in the calendar too.
#[verifier::external_body]
pub(crate) fn days_before(day: i64, n: u64) -> (r: Option<i64>)
    ensures
        r == days_before_of(day, n),
{
    i32::try_from(day).ok().and_then(chrono::NaiveDate::from_num_days_from_ce_opt).and_then(
        |date| date.checked_sub_days(chrono::Days::new(n)),
    ).map(|date| i64::from(chrono::Datelike::num_days_from_ce(&date)))
}

/// The first day of the last `days` days ending `today` (`today` itself
/// when the calendar cannot go back that far).
pub open spec fn window_start(today: i64, days: u64) -> i64 {
    let back = if days == 0 {
        0u64
    } else {
        (days - 1) as u64
    };
    match days_before_of(today, back) {
        Some(d) => d,
        None => today,
    }
}

/// How many of the days in `ds` are day `d`.
pub open spec fn day_hits(ds: Seq<Option<i64>>, d: int) -> nat
    decreases ds.len(),
{
    if ds.len() == 0 {
        0
    } else {
        day_hits(ds.drop_last(), d) + if ds.last() == Some(d as i64) && i64::MIN <= d <= i64::MAX {
            1nat
        } else {
            0nat
        }
    }
}

/// How many of the days in `ds` are known.
pub open spec fn known_days(ds: Seq<Option<i64>>) -> nat
    decreases ds.len(),
{
    if ds.len() == 0 {
        0
    } else {
        known_days(ds.drop_last()) + if ds.last() is Some {
            1nat
        } else {
            0nat
        }
    }
}

/// Daily counts of `ds`: each known day once, with its count, by strictly
/// increasing day, and the counts adding up to the known days.
pub open spec fn tallied(ds: Seq<Option<i64>>, cs: Seq<(i64, u64)>) -> bool {
    &&& forall|a: int, b: int| 0 <= a < b < cs.len() ==> #[trigger] cs[a].0 < #[trigger] cs[b].0
    &&& forall|k: int| 0 <= k < cs.len() ==> #[trigger] cs[k].1 == day_hits(ds, cs[k].0 as int) && cs[k].1 > 0
    &&& forall|d: int| #[trigger] day_hits(ds, d) > 0 ==> exists|k: int| 0 <= k < cs.len() && cs[k].0 == d
    &&& range_total(cs, i64::MIN as int, i64::MAX as int, cs.len() as int) == known_days(ds)
}

proof fn lemma_total_update(cs: Seq<(i64, u64)>, k: int, c: u64, n: int)
    requires
        0 <= k < n <= cs.len(),
    ensures
        range_total(cs.update(k, (cs[k].0, c)), i64::MIN as int, i64::MAX as int, n) == range_total(
            cs,
            i64::MIN as int,
            i64::MAX as int,
            n,
        ) - cs[k].1 + c,
    decreases n,
{
    if n - 1 > k {
        lemma_total_update(cs, k, c, n - 1);
    } else {
        assert(range_total(cs.update(k, (cs[k].0, c)), i64::MIN as int, i64::MAX as int, n - 1)
            == range_total(cs, i64::MIN as int, i64::MAX as int, n - 1)) by {
            lemma_total_same_prefix(cs.update(k, (cs[k].0, c)), cs, n - 1);
        }
    }
}

proof fn lemma_total_same_prefix(a: Seq<(i64, u64)>, b: Seq<(i64, u64)>, n: int)
    requires
        0 <= n <= a.len(),
        n <= b.len(),
        forall|j: int| 0 <= j < n ==> a[j] == b[j],
    ensures
        range_total(a, i64::MIN as int, i64::MAX as int, n) == range_total(b, i64::MIN as int, i64::MAX as int, n),
    decreases n,
{
    if n > 0 {
        lemma_total_same_prefix(a, b, n - 1);
    }
}

proof fn lemma_total_insert(cs: Seq<(i64, u64)>, k: int, x: (i64, u64), n: int)
    requires
        0 <= k <= cs.len(),
        k <= n <= cs.len(),
    ensures
        range_total(cs.insert(k, x), i64::MIN as int, i64::MAX as int, n + 1) == range_total(
            cs,
            i64::MIN as int,
            i64::MAX as int,
            n,
        ) + x.1,
    decreases n,
{
    if n > k {
        lemma_total_insert(cs, k, x, n - 1);
        assert(cs.insert(k, x)[n] == cs[n - 1]);
    } else {
        lemma_total_same_prefix(cs.insert(k, x), cs, k);
        assert(cs.insert(k, x)[k] == x);
    }
}

/// With strictly increasing days, a day's count is its entry's count.
proof fn lemma_day_count_sorted(cs: Seq<(i64, u64)>, d: int)
    requires
        forall|a: int, b: int| 0 <= a < b < cs.len() ==> #[trigger] cs[a].0 < #[trigger] cs[b].0,
    ensures
        forall|k: int| 0 <= k < cs.len() && cs[k].0 == d ==> day_count(cs, d) == #[trigger] cs[k].1,
        (forall|k: int| 0 <= k < cs.len() ==> #[trigger] cs[k].0 != d) ==> day_count(cs, d) == 0,
    decreases cs.len(),
{
    if cs.len() > 0 {
        let rest = cs.drop_first();
        assert forall|a: int, b: int| 0 <= a < b < rest.len() implies #[trigger] rest[a].0 < #[trigger] rest[b].0 by {
            assert(cs[a + 1].0 < cs[b + 1].0);
        }
        lemma_day_count_sorted(rest, d);
        assert forall|k: int| 0 <= k < cs.len() && cs[k].0 == d implies day_count(cs, d) == #[trigger] cs[k].1 by {
            if k > 0 {
                assert(cs[0].0 < cs[k].0);
                assert(rest[k - 1] == cs[k]);
            }
        }
        if forall|k: int| 0 <= k < cs.len() ==> #[trigger] cs[k].0 != d {
            assert forall|k: int| 0 <= k < rest.len() implies #[trigger] rest[k].0 != d by {
                assert(rest[k] == cs[k + 1]);
            }
        }
    }
}

proof fn lemma_hits_push(ds: Seq<Option<i64>>, x: Option<i64>)
    ensures
        forall|e: int| #[trigger] day_hits(ds.push(x), e) == day_hits(ds, e) + if x == Some(e as i64) && i64::MIN <= e <= i64::MAX {
            1nat
        } else {
            0nat
        },
        known_days(ds.push(x)) == known_days(ds) + if x is Some {
            1nat
        } else {
            0nat
        },
{
    assert(ds.push(x).drop_last() =~= ds);
}

/// A day already counted gains one.
proof fn lemma_tally_bump(ds: Seq<Option<i64>>, cs: Seq<(i64, u64)>, k: int)
    requires
        tallied(ds, cs),
        0 <= k < cs.len(),
        known_days(ds) < u64::MAX,
    ensures
        tallied(ds.push(Some(cs[k].0)), cs.update(k, (cs[k].0, (cs[k].1 + 1) as u64))),
{
    let d = cs[k].0;
    let now = cs.update(k, (d, (cs[k].1 + 1) as u64));
    let after = ds.push(Some(d));
    lemma_hits_push(ds, Some(d));
    lemma_total_single(cs, k, cs.len() as int);
    lemma_total_update(cs, k, (cs[k].1 + 1) as u64, cs.len() as int);
    assert forall|j: int| 0 <= j < now.len() implies #[trigger] now[j].1 == day_hits(after, now[j].0 as int)
        && now[j].1 > 0 by {
        if j != k {
            if j < k {
                assert(cs[j].0 < cs[k].0);
            } else {
                assert(cs[k].0 < cs[j].0);
            }
        }
        assert(cs[j].1 == day_hits(ds, cs[j].0 as int));
    }
    assert forall|e: int| #[trigger] day_hits(after, e) > 0 implies exists|j: int| 0 <= j < now.len() && now[j].0 == e by {
        if e == d {
            assert(now[k].0 == e);
        } else {
            assert(day_hits(ds, e) > 0);
            let j = choose|j: int| 0 <= j < cs.len() && cs[j].0 == e;
            assert(now[j].0 == e);
        }
    }
    assert forall|a: int, b: int| 0 <= a < b < now.len() implies #[trigger] now[a].0 < #[trigger] now[b].0 by {
        assert(cs[a].0 < cs[b].0);
    }
}

/// A new day enters at its place with one record.
proof fn lemma_tally_insert(ds: Seq<Option<i64>>, cs: Seq<(i64, u64)>, k: int, d: i64)
    requires
        tallied(ds, cs),
        0 <= k <= cs.len(),
        forall|j: int| 0 <= j < k ==> #[trigger] cs[j].0 < d,
        k < cs.len() ==> cs[k].0 > d,
    ensures
        tallied(ds.push(Some(d)), cs.insert(k, (d, 1u64))),
{
    let now = cs.insert(k, (d, 1u64));
    let after = ds.push(Some(d));
    lemma_hits_push(ds, Some(d));
    lemma_total_insert(cs, k, (d, 1u64), cs.len() as int);
    assert(day_hits(ds, d as int) == 0) by {
        if day_hits(ds, d as int) > 0 {
            let j = choose|j: int| 0 <= j < cs.len() && cs[j].0 == d;
            if j >= k {
                if j > k {
                    assert(cs[k].0 < cs[j].0);
                }
            }
        }
    }
    assert forall|a: int, b: int| 0 <= a < b < now.len() implies #[trigger] now[a].0 < #[trigger] now[b].0 by {
        if a < k && b == k {
            assert(now[a] == cs[a]);
        } else if a == k && b > k {
            assert(now[b] == cs[b - 1]);
            if k < b - 1 {
                assert(cs[k].0 < cs[b - 1].0);
            }
        } else if a < k && b > k {
            assert(now[a] == cs[a]);
            assert(now[b] == cs[b - 1]);
            assert(cs[a].0 < d);
            if k < b - 1 {
                assert(cs[k].0 < cs[b - 1].0);
            }
        } else if b < k {
            assert(now[a] == cs[a]);
            assert(now[b] == cs[b]);
            assert(cs[a].0 < cs[b].0);
        } else {
            assert(now[a] == cs[a - 1]);
            assert(now[b] == cs[b - 1]);
            assert(cs[a - 1].0 < cs[b - 1].0);
        }
    }
    assert forall|j: int| 0 <= j < now.len() implies #[trigger] now[j].1 == day_hits(after, now[j].0 as int)
        && now[j].1 > 0 by {
        if j < k {
            assert(now[j] == cs[j]);
            assert(cs[j].1 == day_hits(ds, cs[j].0 as int));
        } else if j > k {
            assert(now[j] == cs[j - 1]);
            assert(cs[j - 1].1 == day_hits(ds, cs[j - 1].0 as int));
            if k < j - 1 {
                assert(cs[k].0 < cs[j - 1].0);
            }
        }
    }
    assert forall|e: int| #[trigger] day_hits(after, e) > 0 implies exists|j: int| 0 <= j < now.len() && now[j].0 == e by {
        if e == d {
            assert(now[k].0 == e);
        } else {
            assert(day_hits(ds, e) > 0);
            let j = choose|j: int| 0 <= j < cs.len() && cs[j].0 == e;
            if j < k {
                assert(now[j].0 == e);
            } else {
                assert(now[j + 1].0 == e);
            }
        }
    }
}

/// With strictly increasing days, the counts answer for every day.
pub(crate) proof fn lemma_tallied_counts(ds: Seq<Option<i64>>, cs: Seq<(i64, u64)>)
    requires
        tallied(ds, cs),
    ensures
        forall|d: int| day_count(cs, d) == day_hits(ds, d),
{
    assert forall|d: int| day_count(cs, d) == day_hits(ds, d) by {
        lemma_day_count_sorted(cs, d);
        if day_hits(ds, d) > 0 {
            let k = choose|k: int| 0 <= k < cs.len() && cs[k].0 == d;
            assert(cs[k].1 == day_hits(ds, cs[k].0 as int));
        } else {
            assert forall|k: int| 0 <= k < cs.len() implies #[trigger] cs[k].0 != d by {
                assert(cs[k].1 == day_hits(ds, cs[k].0 as int));
            }
        }
    }
}

impl Activity {
    /// Daily counts of the days in `days`; unknown days are left out.
    pub fn tally(days: &Vec<Option<i64>>) -> (r: Activity)
        ensures
            r.wf(),
            tallied(days@, r.counts@),
            forall|d: int| day_count(r.counts@, d) == day_hits(days@, d),
    {
        let ghost ds = days@;
        let mut cs: Vec<(i64, u64)> = Vec::new();
        let mut i: usize = 0;
        assert(ds.take(0) =~= Seq::<Option<i64>>::empty());
        while i < days.len()
            invariant
                i <= days.len(),
                ds == days@,
                tallied(ds.take(i as int), cs@),
                known_days(ds.take(i as int)) <= i,
            decreases days.len() - i,
        {
            let ghost before = ds.take(i as int);
            let ghost old_cs = cs@;
            assert(ds.take(i + 1) =~= before.push(ds[i as int]));
            proof {
                lemma_hits_push(before, ds[i as int]);
            }
            if let Some(d) = days[i] {
                let mut k: usize = 0;
                while k < cs.len() && cs[k].0 < d
                    invariant
                        k <= cs.len(),
                        cs@ == old_cs,
                        forall|j: int| 0 <= j < k ==> #[trigger] old_cs[j].0 < d,
                    decreases cs.len() - k,
                {
                    k = k + 1;
                }
                if k < cs.len() && cs[k].0 == d {
                    proof {
                        lemma_tally_bump(before, old_cs, k as int);
                        lemma_total_single(old_cs, k as int, old_cs.len() as int);
                    }
                    let c = cs[k].1;
                    assert(c <= i);
                    cs.set(k, (d, c + 1));
                    assert(cs@ =~= old_cs.update(k as int, (old_cs[k as int].0, (c + 1) as u64)));
                } else {
                    proof {
                        lemma_tally_insert(before, old_cs, k as int, d);
                    }
                    cs.insert(k, (d, 1));
                    assert(cs@ =~= old_cs.insert(k as int, (d, 1u64)));
                }
            } else {
                assert(tallied(ds.take(i + 1), cs@));
            }
            i = i + 1;
        }
        assert(ds.take(days.len() as int) =~= ds);
        proof {
            lemma_tallied_counts(ds, cs@);
        }
        Activity { counts: cs }
    }
}

proof fn lemma_total_single(cs: Seq<(i64, u64)>, k: int, n: int)
    requires
        0 <= k < n <= cs.len(),
    ensures
        range_total(cs, i64::MIN as int, i64::MAX as int, n) >= cs[k].1,
    decreases n,
{
    if n - 1 > k {
        lemma_total_single(cs, k, n - 1);
    } else {
        lemma_total_bounded(cs, i64::MIN as int, i64::MAX as int, n - 1);
    }
}

impl Activity {
    /// Daily counts of the listed records by their local calendar day;
    /// records whose day cannot be told are left out. The days come from
    /// the machine's zone: whatever they are, the counts tally them.
    pub fn of(entries: &Vec<Entry>, indices: &Vec<usize>) -> (r: Activity)
        requires
            forall|p: int| 0 <= p < indices.len() ==> #[trigger] indices@[p] < entries.len(),
        ensures
            r.wf(),
            exists|ds: Seq<Option<i64>>|
                ds.len() == indices.len() && (forall|p: int|
                    0 <= p < indices.len() ==> local_day_of(entries@[indices@[p] as int].ts, #[trigger] ds[p]))
                    && #[trigger] tallied(ds, r.counts@),
    {
        let mut days: Vec<Option<i64>> = Vec::new();
        let mut p: usize = 0;
        while p < indices.len()
            invariant
                p <= indices.len(),
                days@.len() == p,
                forall|q: int| 0 <= q < indices.len() ==> #[trigger] indices@[q] < entries.len(),
                forall|q: int| 0 <= q < p ==> local_day_of(entries@[indices@[q] as int].ts, #[trigger] days@[q]),
            decreases indices.len() - p,
        {
            days.push(local_date(entries[indices[p]].ts));
            p = p + 1;
        }
        Activity::tally(&days)
    }
}

} // verus!
