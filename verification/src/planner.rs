//! Cutting a file into one byte range per worker, each range ending right
//! after a line terminator or at the end of the file.
//!
//! The planner never reads the file. It says at which offset it needs to see
//! a few bytes, is handed those bytes, and decides; whoever holds the file
//! does the reading.

use crate::chunk::{first_newline, lemma_first_newline, lemma_first_newline_bounds, NEWLINE};
use vstd::prelude::*;

verus! {

/// How many bytes past an even share the planner looks for a line
/// terminator. A line that runs on for longer cannot be planned around.
pub const LOOKAHEAD: u64 = 30;

/// The bytes of a file from `start` up to, not including, `end`.
#[derive(Clone, Copy, Debug, PartialEq, Eq, Structural)]
pub struct ByteRange {
    pub start: u64,
    pub end: u64,
}

/// Why no plan could be made.
#[derive(Clone, Copy, Debug, PartialEq, Eq, Structural)]
pub enum PlanError {
    /// The bytes shown to the planner hold no line terminator.
    NoTerminatorFound,
}

/// What the planner asks for next.
#[derive(Clone, Copy, Debug, PartialEq, Eq, Structural)]
pub enum PlanStep {
    /// Show the planner the `len` bytes of the file that start at `offset`.
    Probe { offset: u64, len: u64 },
    /// Every worker has its range.
    Done,
}

/// Where a planner stands: the file's size, the size of an even share, how
/// many workers there are, the ranges handed out so far, and where the next
/// range starts.
pub ghost struct Plan {
    pub file_size: int,
    pub chunk_size: int,
    pub workers: int,
    pub start: int,
    pub ranges: Seq<ByteRange>,
}

/// The ranges follow one another without gap or overlap, from `from` to
/// `to`. No ranges at all span nothing.
pub open spec fn contiguous(ranges: Seq<ByteRange>, from: int, to: int) -> bool {
    if ranges.len() == 0 {
        from == to
    } else {
        &&& ranges[0].start == from
        &&& ranges.last().end == to
        &&& forall|i: int| 0 <= i < ranges.len() ==> (#[trigger] ranges[i]).start <= ranges[i].end
        &&& forall|i: int|
            0 <= i < ranges.len() - 1 ==> (#[trigger] ranges[i]).end == ranges[i + 1].start
    }
}

/// No line of `data` has bytes on both sides of `at`.
pub open spec fn line_boundary(data: Seq<u8>, at: int) -> bool {
    ||| at == 0
    ||| at == data.len()
    ||| 0 < at < data.len() && data[at - 1] == NEWLINE
}

/// Every range ends where no line of `data` is cut in two.
pub open spec fn line_aligned(data: Seq<u8>, ranges: Seq<ByteRange>) -> bool {
    forall|i: int| 0 <= i < ranges.len() ==> line_boundary(data, (#[trigger] ranges[i]).end as int)
}

/// The bytes of `data` that the ranges span, one range after the other.
pub open spec fn spans(data: Seq<u8>, ranges: Seq<ByteRange>) -> Seq<u8>
    decreases ranges.len(),
{
    if ranges.len() == 0 {
        Seq::empty()
    } else {
        spans(data, ranges.drop_last()) + data.subrange(
            ranges.last().start as int,
            ranges.last().end as int,
        )
    }
}

impl Plan {
    /// The plan before any range was handed out.
    pub open spec fn initial(file_size: int, workers: int) -> Plan {
        Plan {
            file_size,
            chunk_size: file_size / workers,
            workers,
            start: 0,
            ranges: Seq::empty(),
        }
    }

    /// Every worker has its range.
    pub open spec fn finished(self) -> bool {
        self.ranges.len() >= self.workers
    }

    /// Where the next range would end if shares were even.
    pub open spec fn naive_end(self) -> int {
        self.start + self.chunk_size
    }

    /// The next range needs a look at the file: it is not the last one, and
    /// an even share does not reach the end of the file.
    pub open spec fn needs_probe(self) -> bool {
        &&& self.ranges.len() + 1 < self.workers
        &&& self.naive_end() < self.file_size
    }

    /// How many bytes the planner wants to see at `naive_end`.
    pub open spec fn probe_len(self) -> int {
        if self.file_size - self.naive_end() < LOOKAHEAD {
            self.file_size - self.naive_end()
        } else {
            LOOKAHEAD as int
        }
    }

    /// The plan after the next range was made to end at `end`.
    pub open spec fn cut(self, end: int) -> Plan {
        Plan {
            start: end,
            ranges: self.ranges.push(ByteRange { start: self.start as u64, end: end as u64 }),
            ..self
        }
    }

    /// The plan after every range that needs no look at the file was handed
    /// out: each of them ends at the end of the file.
    pub open spec fn settle(self) -> Plan
        decreases self.workers - self.ranges.len(),
    {
        if self.finished() || self.needs_probe() {
            self
        } else {
            self.cut(self.file_size).settle()
        }
    }

    /// The plan after the planner saw `window` at `naive_end`: the range
    /// ends right after the first line terminator in the part of the window
    /// that it asked for, and there must be one.
    pub open spec fn snap(self, window: Seq<u8>) -> Result<Plan, PlanError> {
        let seen = self.seen(window);
        let at = first_newline(seen);
        if self.finished() {
            Ok(self)
        } else if at < seen.len() {
            Ok(self.cut(self.naive_end() + at + 1).settle())
        } else {
            Err(PlanError::NoTerminatorFound)
        }
    }

    /// The part of `window` that the planner looks at: no more bytes than it
    /// asked for.
    pub open spec fn seen(self, window: Seq<u8>) -> Seq<u8> {
        if window.len() > self.probe_len() {
            window.subrange(0, self.probe_len())
        } else {
            window
        }
    }

    /// The bytes of `data` that the planner asks for.
    pub open spec fn window_of(self, data: Seq<u8>) -> Seq<u8> {
        data.subrange(self.naive_end(), self.naive_end() + self.probe_len())
    }

    /// What the planner asks for next.
    pub open spec fn step(self) -> PlanStep {
        if self.finished() {
            PlanStep::Done
        } else {
            PlanStep::Probe { offset: self.naive_end() as u64, len: self.probe_len() as u64 }
        }
    }

    /// A plan as the planner keeps it: the ranges so far reach without gap
    /// from the start of the file to where the next one starts, and the
    /// planner either is done or waits for a look at the file.
    pub open spec fn wf(self) -> bool {
        &&& 0 <= self.chunk_size <= self.file_size <= u64::MAX
        &&& 1 <= self.workers
        &&& self.ranges.len() <= self.workers
        &&& 0 <= self.start <= self.file_size
        &&& contiguous(self.ranges, 0, self.start)
        &&& self.finished() || self.needs_probe()
        &&& self.finished() ==> self.start == self.file_size
    }

    /// The ranges so far cut no line of `data`, which is the file.
    pub open spec fn fits(self, data: Seq<u8>) -> bool {
        &&& self.file_size == data.len()
        &&& line_aligned(data, self.ranges)
    }

    /// The whole plan for a file that holds `data`: the planner is shown the
    /// bytes it asks for until it is done or finds no line terminator.
    pub open spec fn run(self, data: Seq<u8>) -> Result<Seq<ByteRange>, PlanError>
        decreases self.workers - self.ranges.len(),
        when self.wf()
    {
        if self.finished() {
            Ok(self.ranges)
        } else {
            match self.snap(self.window_of(data)) {
                Ok(next) => {
                    proof {
                        lemma_snap(self, self.window_of(data), data);
                    }
                    next.run(data)
                },
                Err(e) => Err(e),
            }
        }
    }
}

/// One more range, joined to the ranges before it, keeps them contiguous.
pub proof fn lemma_contiguous_push(ranges: Seq<ByteRange>, from: int, to: int, end: int)
    requires
        contiguous(ranges, from, to),
        0 <= from <= to <= end <= u64::MAX,
    ensures
        contiguous(ranges.push(ByteRange { start: to as u64, end: end as u64 }), from, end),
{
    let more = ranges.push(ByteRange { start: to as u64, end: end as u64 });
    assert forall|i: int| 0 <= i < more.len() - 1 implies (#[trigger] more[i]).end == more[i
        + 1].start by {
        if i < ranges.len() - 1 {
            assert(more[i] == ranges[i]);
            assert(more[i + 1] == ranges[i + 1]);
        }
    }
}

/// Cutting a plan at `end`, between the start of the next range and the end
/// of the file, and settling it gives a well-formed plan with at least one
/// more range; if `end` cuts no line of `data`, neither does any range of the
/// new plan. The range of the last worker is cut at the end of the file only.
pub proof fn lemma_cut_settle(plan: Plan, end: int, data: Seq<u8>)
    requires
        0 <= plan.chunk_size <= plan.file_size <= u64::MAX,
        1 <= plan.workers,
        plan.ranges.len() < plan.workers,
        0 <= plan.start <= end <= plan.file_size,
        contiguous(plan.ranges, 0, plan.start),
        plan.ranges.len() + 1 < plan.workers || end == plan.file_size,
    ensures
        plan.cut(end).settle().wf(),
        plan.cut(end).settle().ranges.len() > plan.ranges.len(),
        plan.cut(end).settle().workers == plan.workers,
        plan.cut(end).settle().file_size == plan.file_size,
        plan.cut(end).settle().chunk_size == plan.chunk_size,
        plan.fits(data) && line_boundary(data, end) ==> plan.cut(end).settle().fits(data),
    decreases plan.workers - plan.ranges.len(),
{
    let next = plan.cut(end);
    lemma_contiguous_push(plan.ranges, 0, plan.start, end);
    if plan.fits(data) && line_boundary(data, end) {
        assert forall|i: int| 0 <= i < next.ranges.len() implies line_boundary(
            data,
            (#[trigger] next.ranges[i]).end as int,
        ) by {
            if i < plan.ranges.len() {
                assert(next.ranges[i] == plan.ranges[i]);
            }
        }
    }
    if !(next.finished() || next.needs_probe()) {
        lemma_cut_settle(next, next.file_size, data);
    }
}

/// A look at the file takes a well-formed plan to a well-formed plan with
/// more ranges; and where the bytes looked at are those of `data`, which the
/// ranges so far cut no line of, neither do the ranges of the new plan.
pub proof fn lemma_snap(plan: Plan, window: Seq<u8>, data: Seq<u8>)
    requires
        plan.wf(),
        !plan.finished(),
    ensures
        plan.snap(window) matches Ok(next) ==> {
            &&& next.wf()
            &&& next.ranges.len() > plan.ranges.len()
            &&& next.workers == plan.workers
            &&& next.file_size == plan.file_size
            &&& next.chunk_size == plan.chunk_size
            &&& plan.fits(data) && plan.seen(window) == plan.seen(plan.window_of(data))
                ==> next.fits(data)
        },
{
    let seen = plan.seen(window);
    let at = first_newline(seen);
    lemma_first_newline_bounds(seen);
    if at < seen.len() {
        let end = plan.naive_end() + at + 1;
        if plan.fits(data) && seen == plan.seen(plan.window_of(data)) {
            assert(seen[at] == data[plan.naive_end() + at]);
            assert(line_boundary(data, end));
        }
        lemma_cut_settle(plan, end, data);
    }
}

/// Settling a plan that stands at the start of its next range gives a
/// well-formed plan, which cuts no line of `data` if the plan did not.
pub proof fn lemma_settle(plan: Plan, data: Seq<u8>)
    requires
        0 <= plan.chunk_size <= plan.file_size <= u64::MAX,
        1 <= plan.workers,
        plan.ranges.len() < plan.workers,
        0 <= plan.start <= plan.file_size,
        contiguous(plan.ranges, 0, plan.start),
    ensures
        plan.settle().wf(),
        plan.settle().workers == plan.workers,
        plan.settle().file_size == plan.file_size,
        plan.settle().chunk_size == plan.chunk_size,
        plan.fits(data) ==> plan.settle().fits(data),
{
    if !plan.needs_probe() {
        lemma_cut_settle(plan, plan.file_size, data);
    }
}

/// An even share is no larger than the file.
pub proof fn lemma_share(file_size: int, workers: int)
    requires
        0 <= file_size,
        1 <= workers,
    ensures
        0 <= file_size / workers <= file_size,
{
    vstd::arithmetic::div_mod::lemma_div_pos_is_pos(file_size, workers);
    vstd::arithmetic::div_mod::lemma_div_is_ordered_by_denominator(file_size, 1, workers);
}

/// The plan for a file that holds `data`, cut for `workers` workers.
pub open spec fn plan_for(data: Seq<u8>, workers: int) -> Result<Seq<ByteRange>, PlanError> {
    Plan::initial(data.len() as int, workers).settle().run(data)
}

/// Ranges that follow one another from the start of `data` span its first
/// bytes, each byte once.
pub proof fn lemma_spans(data: Seq<u8>, ranges: Seq<ByteRange>, to: int)
    requires
        contiguous(ranges, 0, to),
        0 <= to <= data.len(),
    ensures
        spans(data, ranges) == data.subrange(0, to),
    decreases ranges.len(),
{
    if ranges.len() == 0 {
        assert(spans(data, ranges) =~= data.subrange(0, to));
    } else {
        let front = ranges.drop_last();
        let last = ranges.last();
        assert(contiguous(front, 0, last.start as int)) by {
            if front.len() > 0 {
                assert(front[0] == ranges[0]);
                assert(front.last() == ranges[ranges.len() - 2]);
                assert forall|i: int| 0 <= i < front.len() - 1 implies (#[trigger] front[i]).end
                    == front[i + 1].start by {
                    assert(front[i] == ranges[i]);
                    assert(front[i + 1] == ranges[i + 1]);
                }
            }
        }
        lemma_spans(data, front, last.start as int);
        assert(data.subrange(0, last.start as int) + data.subrange(last.start as int, to)
            =~= data.subrange(0, to));
    }
}

/// Whatever the planner is shown of a file, a plan that it completes gives
/// every worker one range; the ranges follow one another from the first byte
/// of the file to its last, none of them ends inside a line, and their bytes
/// put together are the file.
pub proof fn lemma_run(plan: Plan, data: Seq<u8>)
    requires
        plan.wf(),
        plan.fits(data),
    ensures
        plan.run(data) matches Ok(ranges) ==> {
            &&& ranges.len() == plan.workers
            &&& contiguous(ranges, 0, data.len() as int)
            &&& line_aligned(data, ranges)
            &&& spans(data, ranges) == data
        },
    decreases plan.workers - plan.ranges.len(),
{
    if plan.finished() {
        lemma_spans(data, plan.ranges, data.len() as int);
        assert(data.subrange(0, data.len() as int) =~= data);
    } else {
        let window = plan.window_of(data);
        lemma_snap(plan, window, data);
        if let Ok(next) = plan.snap(window) {
            lemma_run(next, data);
        }
    }
}

/// The plan for a file: one range for every worker, the ranges contiguous
/// from the first byte to the last, no range ending inside a line, and the
/// bytes of the ranges put together being the file.
pub proof fn lemma_plan_for(data: Seq<u8>, workers: int)
    requires
        1 <= workers,
        data.len() <= u64::MAX,
    ensures
        plan_for(data, workers) matches Ok(ranges) ==> {
            &&& ranges.len() == workers
            &&& contiguous(ranges, 0, data.len() as int)
            &&& line_aligned(data, ranges)
            &&& spans(data, ranges) == data
        },
        workers == 1 ==> plan_for(data, workers) == Ok::<Seq<ByteRange>, PlanError>(
            seq![ByteRange { start: 0, end: data.len() as u64 }],
        ),
{
    let first = Plan::initial(data.len() as int, workers);
    lemma_share(data.len() as int, workers);
    lemma_settle(first, data);
    lemma_run(first.settle(), data);
    if workers == 1 {
        let only = first.cut(first.file_size);
        assert(only.settle() == only);
        assert(only.ranges =~= seq![ByteRange { start: 0, end: data.len() as u64 }]);
    }
}

/// The planner: decides where the range of each worker ends, from what it is
/// shown of the file.
pub struct ChunkPlanner {
    file_size: u64,
    chunk_size: u64,
    workers: usize,
    start: u64,
    ranges: Vec<ByteRange>,
}

impl View for ChunkPlanner {
    type V = Plan;

    closed spec fn view(&self) -> Plan {
        Plan {
            file_size: self.file_size as int,
            chunk_size: self.chunk_size as int,
            workers: self.workers as int,
            start: self.start as int,
            ranges: self.ranges@,
        }
    }
}

impl ChunkPlanner {
    /// Every planner holds a well-formed plan.
    #[verifier::type_invariant]
    pub closed spec fn wf(self) -> bool {
        self@.wf()
    }

    /// What `wf` says, for those who hold a planner only in a proof.
    pub proof fn lemma_wf(self)
        requires
            self.wf(),
        ensures
            self@.wf(),
    {
    }

    /// Hands out every range that needs no look at the file.
    fn settled(
        file_size: u64,
        chunk_size: u64,
        workers: usize,
        start: u64,
        ranges: Vec<ByteRange>,
    ) -> (planner: ChunkPlanner)
        requires
            chunk_size <= file_size,
            1 <= workers,
            ranges@.len() < workers,
            start <= file_size,
            contiguous(ranges@, 0, start as int),
        ensures
            planner@ == (Plan {
                file_size: file_size as int,
                chunk_size: chunk_size as int,
                workers: workers as int,
                start: start as int,
                ranges: ranges@,
            }).settle(),
            planner.wf(),
    {
        let ghost origin = Plan {
            file_size: file_size as int,
            chunk_size: chunk_size as int,
            workers: workers as int,
            start: start as int,
            ranges: ranges@,
        };
        let mut start = start;
        let mut ranges = ranges;
        proof {
            lemma_settle(origin, Seq::<u8>::empty());
        }
        while ranges.len() < workers && !(ranges.len() + 1 < workers && chunk_size < file_size
            - start)
            invariant
                chunk_size <= file_size,
                1 <= workers,
                ranges@.len() <= workers,
                start <= file_size,
                contiguous(ranges@, 0, start as int),
                ranges@.len() == workers ==> start == file_size,
                origin.settle() == (Plan {
                    file_size: file_size as int,
                    chunk_size: chunk_size as int,
                    workers: workers as int,
                    start: start as int,
                    ranges: ranges@,
                }).settle(),
            decreases workers - ranges.len(),
        {
            proof {
                lemma_contiguous_push(ranges@, 0, start as int, file_size as int);
            }
            ranges.push(ByteRange { start, end: file_size });
            start = file_size;
        }
        ChunkPlanner { file_size, chunk_size, workers, start, ranges }
    }

    /// A planner for a file of `file_size` bytes and `worker_count` workers.
    /// An even share is `file_size / worker_count` bytes.
    pub fn new(file_size: u64, worker_count: usize) -> (planner: ChunkPlanner)
        requires
            worker_count >= 1,
        ensures
            planner@ == Plan::initial(file_size as int, worker_count as int).settle(),
            planner.wf(),
    {
        proof {
            lemma_share(file_size as int, worker_count as int);
        }
        let chunk_size = file_size / (worker_count as u64);
        ChunkPlanner::settled(file_size, chunk_size, worker_count, 0, Vec::new())
    }

    /// What the planner asks for next.
    pub fn next_step(&self) -> (step: PlanStep)
        ensures
            step == self@.step(),
            self@.wf(),
    {
        proof {
            use_type_invariant(self);
        }
        if self.ranges.len() >= self.workers {
            PlanStep::Done
        } else {
            let offset = self.start + self.chunk_size;
            let rest = self.file_size - offset;
            PlanStep::Probe {
                offset,
                len: if rest < LOOKAHEAD {
                    rest
                } else {
                    LOOKAHEAD
                },
            }
        }
    }

    /// Shows the planner the bytes of the file that it asked for. The range
    /// in hand ends right after the first line terminator among them; the
    /// planner looks at no more bytes than it asked for.
    pub fn supply(self, window: &[u8]) -> (next: Result<ChunkPlanner, PlanError>)
        ensures
            match self@.snap(window@) {
                Ok(plan) => next is Ok && next->Ok_0@ == plan && next->Ok_0.wf(),
                Err(e) => next is Err && next->Err_0 == e,
            },
    {
        proof {
            use_type_invariant(&self);
        }
        if self.ranges.len() >= self.workers {
            return Ok(self);
        }
        let offset = self.start + self.chunk_size;
        let rest = self.file_size - offset;
        let asked = if rest < LOOKAHEAD {
            rest
        } else {
            LOOKAHEAD
        };
        let limit: usize = if window.len() as u64 > asked {
            asked as usize
        } else {
            window.len()
        };
        let ghost seen = self@.seen(window@);
        let mut at: usize = 0;
        while at < limit && window[at] != NEWLINE
            invariant
                at <= limit <= window@.len(),
                seen == window@.subrange(0, limit as int),
                forall|i: int| 0 <= i < at ==> seen[i] != NEWLINE,
            decreases limit - at,
        {
            at += 1;
        }
        proof {
            lemma_first_newline(seen, at as int);
        }
        if at >= limit {
            return Err(PlanError::NoTerminatorFound);
        }
        let end = offset + (at as u64) + 1;
        let ChunkPlanner { file_size, chunk_size, workers, start, mut ranges } = self;
        proof {
            lemma_contiguous_push(ranges@, 0, start as int, end as int);
        }
        ranges.push(ByteRange { start, end });
        Ok(ChunkPlanner::settled(file_size, chunk_size, workers, end, ranges))
    }

    /// The ranges handed out so far; all of them, once the planner is done.
    pub fn into_ranges(self) -> (ranges: Vec<ByteRange>)
        ensures
            ranges@ == self@.ranges,
            self@.wf(),
    {
        proof {
            use_type_invariant(&self);
        }
        self.ranges
    }
}

/// Plans a file that is held in memory: the planner is shown the bytes of
/// `data` that it asks for.
pub fn plan(data: &[u8], worker_count: usize) -> (ranges: Result<Vec<ByteRange>, PlanError>)
    requires
        worker_count >= 1,
    ensures
        match plan_for(data@, worker_count as int) {
            Ok(planned) => ranges is Ok && ranges->Ok_0@ == planned,
            Err(e) => ranges is Err && ranges->Err_0 == e,
        },
        ranges matches Ok(planned) ==> {
            &&& planned@.len() == worker_count
            &&& contiguous(planned@, 0, data@.len() as int)
            &&& line_aligned(data@, planned@)
            &&& spans(data@, planned@) == data@
        },
{
    let size = data.len();
    let mut planner = ChunkPlanner::new(size as u64, worker_count);
    proof {
        lemma_plan_for(data@, worker_count as int);
        lemma_share(data@.len() as int, worker_count as int);
        lemma_settle(Plan::initial(data@.len() as int, worker_count as int), data@);
    }
    loop
        invariant
            planner.wf(),
            planner@.wf(),
            size == data@.len(),
            planner@.file_size == size,
            planner@.workers == worker_count,
            planner@.run(data@) == plan_for(data@, worker_count as int),
        decreases planner@.workers - planner@.ranges.len(),
    {
        match planner.next_step() {
            PlanStep::Done => {
                proof {
                    lemma_plan_for(data@, worker_count as int);
                }
                return Ok(planner.into_ranges());
            },
            PlanStep::Probe { offset, len } => {
                let ghost before = planner@;
                assert(before.needs_probe());
                assert(offset == before.naive_end() && len == before.probe_len());
                assert(offset + len <= data@.len());
                let window = vstd::slice::slice_subrange(
                    data,
                    offset as usize,
                    (offset + len) as usize,
                );
                proof {
                    assert(window@ == before.window_of(data@));
                    lemma_snap(before, window@, data@);
                }
                match planner.supply(window) {
                    Ok(next) => {
                        planner = next;
                    },
                    Err(e) => {
                        return Err(e);
                    },
                }
            },
        }
    }
}

} // verus!
