//! Layout of the printed tables: how many columns the process table has, and
//! where the rows of the Gantt chart break.

use vstd::prelude::*;
use crate::model::{IntervalModel, ProcessDef};
use crate::process::ProcessEntry;
use crate::scheduler::definitions;
use crate::timeline::{intervals, IntervalKind, TimelineInterval};

verus! {

/// Width of the cell of a context switch, in characters.
pub const SWITCH_WIDTH: usize = 5;

/// Width of the cell of a process that runs, in characters.
pub const EXECUTION_WIDTH: usize = 6;

/// Width of the cell of one interval.
pub open spec fn cell_width(interval: IntervalModel) -> nat {
    if interval.process is None {
        SWITCH_WIDTH as nat
    } else {
        EXECUTION_WIDTH as nat
    }
}

/// Width of the cells of the intervals from `from` up to `to`, side by side.
pub open spec fn row_width(timeline: Seq<IntervalModel>, from: int, to: int) -> nat
    decreases to - from,
{
    if to <= from {
        0
    } else {
        row_width(timeline, from, to - 1) + cell_width(timeline[to - 1])
    }
}

/// The intervals from `from` up to `to` make a row: as many intervals as
/// fit within `max_width`, and at least one.
pub open spec fn is_row(timeline: Seq<IntervalModel>, max_width: nat, from: int, to: int) -> bool {
    &&& 0 <= from < to <= timeline.len()
    &&& (row_width(timeline, from, to) <= max_width || to == from + 1)
    &&& (to < timeline.len() ==> row_width(timeline, from, to + 1) > max_width)
}

/// `rows` cuts the timeline into rows, each given by the index at which it
/// starts and the index before which it ends: the first starts at the first
/// interval, each other where the one before it ends, and the last ends with
/// the timeline.
pub open spec fn is_row_layout(
    timeline: Seq<IntervalModel>,
    max_width: nat,
    rows: Seq<(int, int)>,
) -> bool {
    &&& (rows.len() == 0 <==> timeline.len() == 0)
    &&& (rows.len() > 0 ==> rows[0].0 == 0 && rows.last().1 == timeline.len())
    &&& forall|r: int|
        0 <= r < rows.len() ==> is_row(timeline, max_width, (#[trigger] rows[r]).0, rows[r].1)
    &&& forall|a: int, b: int|
        0 <= a && b == a + 1 && b < rows.len() ==> (#[trigger] rows[a]).1 == (#[trigger] rows[b]).0
}

/// The rows in `rows` as pairs of unbounded integers.
pub open spec fn row_bounds(rows: Seq<(usize, usize)>) -> Seq<(int, int)> {
    Seq::new(rows.len(), |r: int| (rows[r].0 as int, rows[r].1 as int))
}

/// The number of columns that the table of the processes needs beside the
/// first two: one for each burst and each wait of the process that has the
/// most of them.
pub open spec fn is_column_count(defs: Seq<ProcessDef>, count: nat) -> bool {
    &&& forall|i: int|
        0 <= i < defs.len() ==> (#[trigger] defs[i]).cpu_bursts.len() + defs[i].io_waits.len()
            <= count
    &&& (count > 0 ==> exists|i: int|
        0 <= i < defs.len() && (#[trigger] defs[i]).cpu_bursts.len() + defs[i].io_waits.len()
            == count)
}

/// The rows of the Gantt chart for a terminal of `max_width` characters,
/// each given by the index at which it starts and the index before which it
/// ends.
pub fn chart_rows(timeline: &Vec<TimelineInterval>, max_width: usize) -> (rows: Vec<(usize, usize)>)
    ensures
        is_row_layout(intervals(timeline@), max_width as nat, row_bounds(rows@)),
{
    let ghost tl = intervals(timeline@);
    let mut rows: Vec<(usize, usize)> = Vec::new();
    let mut from: usize = 0;
    let mut width: usize = 0;
    let mut k: usize = 0;
    while k < timeline.len()
        invariant
            tl == intervals(timeline@),
            from <= k <= timeline.len(),
            k > 0 ==> from < k,
            width == row_width(tl, from as int, k as int),
            width <= max_width || k <= from + 1,
            width <= 6 * (k - from),
            rows.len() == 0 ==> from == 0,
            rows.len() > 0 ==> rows[0].0 == 0 && rows[rows.len() - 1].1 == from,
            forall|r: int|
                0 <= r < rows.len() ==> (#[trigger] rows[r]).1 < timeline.len() && is_row(
                    tl,
                    max_width as nat,
                    rows[r].0 as int,
                    rows[r].1 as int,
                ),
            forall|a: int, b: int|
                0 <= a && b == a + 1 && b < rows.len() ==> (#[trigger] rows[a]).1 == (
                #[trigger] rows[b]).0,
        decreases timeline.len() - k,
    {
        let cell: usize = match timeline[k].kind {
            IntervalKind::ContextSwitch => SWITCH_WIDTH,
            IntervalKind::Execution { .. } => EXECUTION_WIDTH,
        };
        assert(cell == cell_width(tl[k as int]));
        assert(row_width(tl, from as int, k + 1) == width + cell);
        if k > from && (width > max_width || cell > max_width - width) {
            let ghost before = rows@;
            assert(is_row(tl, max_width as nat, from as int, k as int));
            rows.push((from, k));
            proof {
                assert forall|r: int| 0 <= r < rows.len() implies (#[trigger] rows[r]).1
                    < timeline.len() && is_row(
                    tl,
                    max_width as nat,
                    rows[r].0 as int,
                    rows[r].1 as int,
                ) by {
                    if r < before.len() {
                        assert(rows[r] == before[r]);
                    }
                }
                assert forall|a: int, b: int| 0 <= a && b == a + 1 && b < rows.len() implies (
                #[trigger] rows[a]).1 == (#[trigger] rows[b]).0 by {
                    assert(rows[a] == before[a]);
                    if b < before.len() {
                        assert(rows[b] == before[b]);
                    }
                }
                assert(row_width(tl, k as int, k as int) == 0);
                assert(row_width(tl, k as int, k + 1) == cell);
            }
            from = k;
            width = 0;
        }
        width = width + cell;
        k = k + 1;
    }
    if timeline.len() > 0 {
        let ghost before = rows@;
        assert(is_row(tl, max_width as nat, from as int, timeline.len() as int));
        rows.push((from, timeline.len()));
        proof {
            let layout = row_bounds(rows@);
            assert forall|r: int| 0 <= r < layout.len() implies is_row(
                tl,
                max_width as nat,
                (#[trigger] layout[r]).0,
                layout[r].1,
            ) by {
                if r < before.len() {
                    assert(rows[r] == before[r]);
                }
            }
            assert forall|a: int, b: int| 0 <= a && b == a + 1 && b < layout.len() implies (
            #[trigger] layout[a]).1 == (#[trigger] layout[b]).0 by {
                assert(rows[a] == before[a]);
                if b < before.len() {
                    assert(rows[b] == before[b]);
                }
            }
            assert(layout[0].0 == 0) by {
                if before.len() > 0 {
                    assert(rows[0] == before[0]);
                }
            }
        }
    }
    rows
}

/// The number of columns that the table of the processes needs beside the
/// first two; the largest number that the machine holds if it needs more
/// than that.
pub fn table_columns(entries: &Vec<ProcessEntry>) -> (count: usize)
    ensures
        is_column_count(definitions(entries@), count as nat) || (count == usize::MAX && exists|
            i: int,
        |
            0 <= i < entries.len() && (#[trigger] entries[i])@.cpu_bursts.len()
                + entries[i]@.io_waits.len() > usize::MAX),
{
    let ghost defs = definitions(entries@);
    let mut count: usize = 0;
    let mut i: usize = 0;
    let ghost mut at: int = 0;
    while i < entries.len()
        invariant
            defs == definitions(entries@),
            i <= entries.len(),
            forall|j: int|
                0 <= j < i ==> (#[trigger] defs[j]).cpu_bursts.len() + defs[j].io_waits.len()
                    <= count,
            count > 0 ==> 0 <= at < i && defs[at].cpu_bursts.len() + defs[at].io_waits.len()
                == count,
        decreases entries.len() - i,
    {
        let entry = &entries[i];
        assert(defs[i as int] == entry@);
        let steps: usize = match entry.cpu_durations.len().checked_add(entry.io_durations.len()) {
            Some(steps) => steps,
            None => {
                return usize::MAX;
            },
        };
        if steps > count {
            count = steps;
            proof {
                at = i as int;
            }
        }
        i = i + 1;
    }
    count
}

} // verus!
