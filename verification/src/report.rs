//! The lists of processes that a sample shows.

use crate::cluster;
use crate::groups;
use crate::groups::{endable_pids, Group, GroupView, FULL_LIMIT, PROC_LIMIT};
use crate::rank;
use crate::rank::{arranged, Ranked};
use crate::text;
use vstd::prelude::*;

verus! {

/// What a list of processes goes by.
#[derive(Debug, Clone, Copy, PartialEq, Eq, Structural)]
pub enum Measure {
    /// Processor time since the last sample.
    Cpu,
    /// Resident memory.
    Mem,
    /// Bytes read and written since the last sample.
    Io,
}

/// How much a group has by a measure.
pub open spec fn amount(measure: Measure, g: GroupView) -> nat {
    match measure {
        Measure::Cpu => g.ticks,
        Measure::Mem => g.mem,
        Measure::Io => g.read + g.write,
    }
}

/// A group and what it weighs.
pub struct Weighed<'a> {
    weight: u128,
    group: &'a Group,
}

/// The model of a [`Weighed`] group.
#[verifier::ext_equal]
pub struct WeighedView {
    pub weight: nat,
    pub group: GroupView,
}

impl<'a> View for Weighed<'a> {
    type V = WeighedView;

    closed spec fn view(&self) -> WeighedView {
        WeighedView { weight: self.weight as nat, group: self.group@ }
    }
}

impl<'a> Ranked for Weighed<'a> {
    open spec fn before(a: WeighedView, b: WeighedView) -> bool {
        a.weight > b.weight
    }

    proof fn before_is_strict(a: WeighedView, b: WeighedView) {
    }

    proof fn before_is_weak(a: WeighedView, b: WeighedView, c: WeighedView) {
    }

    fn goes_before(&self, other: &Self) -> (r: bool) {
        self.weight > other.weight
    }
}

/// The groups `gs`, each with what it weighs by `measure`.
pub open spec fn weighed(measure: Measure, gs: Seq<GroupView>) -> Seq<WeighedView> {
    gs.map_values(|g: GroupView| WeighedView { weight: amount(measure, g), group: g })
}

/// The groups of a weighed list.
pub open spec fn unweighed(ws: Seq<WeighedView>) -> Seq<GroupView> {
    ws.map_values(|w: WeighedView| w.group)
}

/// The groups `gs` from most to least by `measure`; those with as much as each
/// other as they stand in `gs`.
pub open spec fn ranked(measure: Measure, gs: Seq<GroupView>) -> Seq<GroupView> {
    unweighed(rank::arrange::<Weighed>(weighed(measure, gs)))
}

/// One line of a list of processes.
#[derive(Debug)]
pub struct ProcRow {
    pub name: String,
    pub pid: u32,
    pub count: u32,
    pub ticks: u128,
    pub mem: u128,
    pub read: u128,
    pub write: u128,
    pub pids: Vec<u32>,
}

/// The model of a [`ProcRow`].
#[verifier::ext_equal]
pub struct ProcRowView {
    pub name: Seq<char>,
    pub pid: u32,
    pub count: nat,
    pub ticks: nat,
    pub mem: nat,
    pub read: nat,
    pub write: nat,
    pub pids: Seq<u32>,
}

impl View for ProcRow {
    type V = ProcRowView;

    open spec fn view(&self) -> ProcRowView {
        ProcRowView {
            name: self.name@,
            pid: self.pid,
            count: self.count as nat,
            ticks: self.ticks as nat,
            mem: self.mem as nat,
            read: self.read as nat,
            write: self.write as nat,
            pids: self.pids@,
        }
    }
}

/// The line of a group.
pub open spec fn row(g: GroupView) -> ProcRowView {
    ProcRowView {
        name: g.name,
        pid: g.pid,
        count: g.count,
        ticks: g.ticks,
        mem: g.mem,
        read: g.read,
        write: g.write,
        pids: groups::endable(g.own, g.pids, g.count),
    }
}

/// The lines of the groups `gs`.
pub open spec fn rows(gs: Seq<GroupView>) -> Seq<ProcRowView> {
    gs.map_values(|g: GroupView| row(g))
}

/// The groups with anything at all by `measure`.
pub open spec fn has_some(measure: Measure) -> spec_fn(GroupView) -> bool {
    |g: GroupView| amount(measure, g) > 0
}

/// The groups at the beginning of `gs`, a few at most, as long as they have
/// anything by `measure`.
pub open spec fn top(measure: Measure, gs: Seq<GroupView>) -> Seq<GroupView> {
    let few = cluster::first(gs, PROC_LIMIT as int);
    few.take(text::span(few, has_some(measure)) as int)
}

/// The lists of processes of one sample.
#[derive(Debug)]
pub struct ProcessReport {
    pub cpu: Vec<ProcRow>,
    pub mem: Vec<ProcRow>,
    pub io: Vec<ProcRow>,
    /// How many groups there are; unknown where the processes cannot be listed.
    pub total: Option<usize>,
    /// The full list, where it was asked for.
    pub all: Option<Vec<ProcRow>>,
}

/// The model of a [`ProcessReport`].
pub struct ProcessReportView {
    pub cpu: Seq<ProcRowView>,
    pub mem: Seq<ProcRowView>,
    pub io: Seq<ProcRowView>,
    pub total: Option<nat>,
    pub all: Option<Seq<ProcRowView>>,
}

impl View for ProcessReport {
    type V = ProcessReportView;

    open spec fn view(&self) -> ProcessReportView {
        ProcessReportView {
            cpu: rank::views(self.cpu@),
            mem: rank::views(self.mem@),
            io: rank::views(self.io@),
            total: match self.total {
                Some(n) => Some(n as nat),
                None => None,
            },
            all: match self.all {
                Some(v) => Some(rank::views(v@)),
                None => None,
            },
        }
    }
}

/// The lists of the groups `gs`. Each ranking starts from the one before it.
pub open spec fn report_of(gs: Seq<GroupView>, full: bool) -> ProcessReportView {
    let by_cpu = ranked(Measure::Cpu, gs);
    let by_mem = ranked(Measure::Mem, by_cpu);
    let by_io = ranked(Measure::Io, by_mem);
    ProcessReportView {
        cpu: rows(top(Measure::Cpu, by_cpu)),
        mem: rows(top(Measure::Mem, by_mem)),
        io: rows(top(Measure::Io, by_io)),
        total: Some(gs.len()),
        all: if full {
            Some(rows(cluster::first(by_cpu, FULL_LIMIT as int)))
        } else {
            None
        },
    }
}

/// How much a group has by a measure.
fn amount_of(measure: Measure, g: &Group) -> (r: u128)
    requires
        g.read + g.write <= u128::MAX,
    ensures
        r == amount(measure, g@),
{
    match measure {
        Measure::Cpu => g.ticks,
        Measure::Mem => g.mem,
        Measure::Io => g.read + g.write,
    }
}

/// The groups `gs` from most to least by `measure`.
fn rank_groups<'a>(measure: Measure, gs: &Vec<&'a Group>) -> (r: Vec<&'a Group>)
    requires
        forall|i: int|
            0 <= i < gs@.len() ==> (#[trigger] gs@[i])@.read + gs@[i]@.write <= u128::MAX,
    ensures
        rank::views(r@) == ranked(measure, rank::views(gs@)),
        forall|i: int|
            0 <= i < r@.len() ==> (#[trigger] r@[i])@.read + r@[i]@.write <= u128::MAX,
{
    let mut items: Vec<Weighed<'a>> = Vec::new();
    let ghost ws = weighed(measure, rank::views(gs@));
    let mut i: usize = 0;
    while i < gs.len()
        invariant
            i <= gs@.len(),
            ws == weighed(measure, rank::views(gs@)),
            forall|i: int|
                0 <= i < gs@.len() ==> (#[trigger] gs@[i])@.read + gs@[i]@.write <= u128::MAX,
            rank::views(items@) == ws.take(i as int),
        decreases gs.len() - i,
    {
        let group: &'a Group = gs[i];
        assert(gs@[i as int]@.read + gs@[i as int]@.write <= u128::MAX);
        let ghost before = items@;
        items.push(Weighed { weight: amount_of(measure, group), group });
        i = i + 1;
        proof {
            assert(rank::views(gs@)[i - 1] == group@);
            assert(items@.last()@ == ws[i - 1]);
            assert(rank::views(items@) == rank::views(before).push(ws[i - 1]));
        }
    }
    assert(ws.take(ws.len() as int) == ws);
    let sorted: Vec<Weighed<'a>> = arranged(items);
    let ghost out_views = rank::arrange::<Weighed>(ws);
    let mut out: Vec<&'a Group> = Vec::new();
    let mut j: usize = 0;
    while j < sorted.len()
        invariant
            j <= sorted@.len(),
            rank::views(sorted@) == out_views,
            rank::views(out@) == unweighed(out_views).take(j as int),
        decreases sorted.len() - j,
    {
        let ghost before = out@;
        out.push(sorted[j].group);
        j = j + 1;
        proof {
            assert(out_views[j - 1] == sorted@[j - 1]@);
            assert(rank::views(out@) == rank::views(before).push(unweighed(out_views)[j - 1]));
        }
    }
    proof {
        assert(unweighed(out_views).take(j as int) == unweighed(out_views));
        assert forall|i: int| 0 <= i < out@.len() implies (#[trigger] out@[i])@.read
            + out@[i]@.write <= u128::MAX by {
            assert(rank::views(out@)[i] == out@[i]@);
            rank::lemma_arranged_came_in::<Weighed>(ws, i);
            let k = choose|k: int| 0 <= k < ws.len() && ws[k] == out_views[i];
            assert(gs@[k]@ == ws[k].group);
        }
    }
    out
}

/// A copy of the numbers `pids`.
fn copy_pids(pids: &[u32]) -> (r: Vec<u32>)
    ensures
        r@ == pids@,
{
    let mut out: Vec<u32> = Vec::new();
    let mut i: usize = 0;
    while i < pids.len()
        invariant
            i <= pids@.len(),
            out@ == pids@.take(i as int),
        decreases pids.len() - i,
    {
        out.push(pids[i]);
        i = i + 1;
        assert(pids@.take(i as int) == pids@.take(i - 1).push(pids@[i - 1]));
    }
    assert(pids@.take(i as int) == pids@);
    out
}

/// The line of a group.
fn row_of(g: &Group) -> (r: ProcRow)
    ensures
        r@ == row(g@),
{
    ProcRow {
        name: g.name.clone(),
        pid: g.pid,
        count: g.count,
        ticks: g.ticks,
        mem: g.mem,
        read: g.read,
        write: g.write,
        pids: copy_pids(endable_pids(g.own, g.pids.as_slice(), g.count)),
    }
}

/// The lines of the first `n` groups of `gs`.
fn rows_of(gs: &Vec<&Group>, n: usize) -> (r: Vec<ProcRow>)
    requires
        n <= gs@.len(),
    ensures
        rank::views(r@) == rows(rank::views(gs@).take(n as int)),
{
    let mut out: Vec<ProcRow> = Vec::new();
    let ghost all = rank::views(gs@);
    let mut i: usize = 0;
    assert(rank::views(out@) == rows(all.take(0)));
    while i < n
        invariant
            i <= n <= gs@.len(),
            all == rank::views(gs@),
            rank::views(out@) == rows(all.take(i as int)),
        decreases n - i,
    {
        let ghost before = out@;
        out.push(row_of(gs[i]));
        i = i + 1;
        proof {
            assert(all[i - 1] == gs@[i - 1]@);
            assert(all.take(i as int) == all.take(i - 1).push(all[i - 1]));
            assert(rows(all.take(i as int)) == rows(all.take(i - 1)).push(row(all[i - 1])));
            assert(rank::views(out@) == rank::views(before).push(row(all[i - 1])));
        }
    }
    out
}

/// The lines of the top groups of `gs` by `measure`.
fn top_rows(measure: Measure, gs: &Vec<&Group>) -> (r: Vec<ProcRow>)
    requires
        forall|i: int|
            0 <= i < gs@.len() ==> (#[trigger] gs@[i])@.read + gs@[i]@.write <= u128::MAX,
    ensures
        rank::views(r@) == rows(top(measure, rank::views(gs@))),
{
    let limit: usize = if gs.len() > PROC_LIMIT {
        PROC_LIMIT
    } else {
        gs.len()
    };
    let ghost all = rank::views(gs@);
    let ghost few = cluster::first(all, PROC_LIMIT as int);
    assert(few == all.take(limit as int));
    let mut n: usize = 0;
    while n < limit && amount_of(measure, gs[n]) > 0
        invariant
            n <= limit <= gs@.len(),
            few == all.take(limit as int),
            all == rank::views(gs@),
            forall|i: int|
                0 <= i < gs@.len() ==> (#[trigger] gs@[i])@.read + gs@[i]@.write <= u128::MAX,
            forall|k: int| 0 <= k < n ==> has_some(measure)(#[trigger] few[k]),
        decreases limit - n,
    {
        assert(few[n as int] == gs@[n as int]@);
        n = n + 1;
    }
    proof {
        if n < limit {
            assert(few[n as int] == gs@[n as int]@);
        }
        text::lemma_span(few, has_some(measure), n as int);
        assert(few.take(n as int) == all.take(n as int));
    }
    rows_of(gs, n)
}

/// References to the groups `gs`.
fn listed(gs: &Vec<Group>) -> (r: Vec<&Group>)
    ensures
        rank::views(r@) == rank::views(gs@),
        r@.len() == gs@.len(),
        forall|i: int| 0 <= i < gs@.len() ==> (#[trigger] r@[i])@ == gs@[i]@,
{
    let mut out: Vec<&Group> = Vec::new();
    let mut i: usize = 0;
    while i < gs.len()
        invariant
            i <= gs@.len(),
            out@.len() == i,
            forall|k: int| 0 <= k < i ==> (#[trigger] out@[k])@ == gs@[k]@,
        decreases gs.len() - i,
    {
        out.push(&gs[i]);
        i = i + 1;
    }
    assert(rank::views(out@) == rank::views(gs@));
    out
}

/// The lists of the groups `gs`.
pub fn make_report(gs: &Vec<Group>, full: bool) -> (r: ProcessReport)
    requires
        forall|i: int|
            0 <= i < gs@.len() ==> (#[trigger] gs@[i])@.read + gs@[i]@.write <= u128::MAX,
    ensures
        r@ == report_of(rank::views(gs@), full),
{
    let list: Vec<&Group> = listed(gs);
    let by_cpu: Vec<&Group> = rank_groups(Measure::Cpu, &list);
    let all: Option<Vec<ProcRow>> = if full {
        let n: usize = if by_cpu.len() > FULL_LIMIT {
            FULL_LIMIT
        } else {
            by_cpu.len()
        };
        assert(cluster::first(rank::views(by_cpu@), FULL_LIMIT as int) == rank::views(
            by_cpu@,
        ).take(n as int));
        Some(rows_of(&by_cpu, n))
    } else {
        None
    };
    let cpu: Vec<ProcRow> = top_rows(Measure::Cpu, &by_cpu);
    let by_mem: Vec<&Group> = rank_groups(Measure::Mem, &by_cpu);
    let mem: Vec<ProcRow> = top_rows(Measure::Mem, &by_mem);
    let by_io: Vec<&Group> = rank_groups(Measure::Io, &by_mem);
    let io: Vec<ProcRow> = top_rows(Measure::Io, &by_io);
    ProcessReport { cpu, mem, io, total: Some(gs.len()), all }
}

/// A ranking holds the groups that were ranked, from most to least.
pub proof fn ranking_keeps_groups(measure: Measure, gs: Seq<GroupView>)
    ensures
        ({
            let r = ranked(measure, gs);
            &&& r.len() == gs.len()
            &&& forall|g: GroupView| #[trigger] r.contains(g) <==> #[trigger] gs.contains(g)
            &&& forall|i: int, j: int|
                0 <= i < j < r.len() ==> amount(measure, #[trigger] r[i]) >= amount(
                    measure,
                    #[trigger] r[j],
                )
        }),
{
    broadcast use vstd::seq_lib::group_to_multiset_ensures;

    let ws = weighed(measure, gs);
    let arranged = rank::arrange::<Weighed>(ws);
    let r = ranked(measure, gs);
    rank::arrangement_keeps_items::<Weighed>(ws);
    rank::arrangement_is_in_order::<Weighed>(ws);
    assert forall|i: int| 0 <= i < r.len() implies (#[trigger] arranged[i]).weight == amount(
        measure,
        r[i],
    ) && gs.contains(r[i]) by {
        rank::lemma_arranged_came_in::<Weighed>(ws, i);
        let k = choose|k: int| 0 <= k < ws.len() && ws[k] == arranged[i];
        assert(gs[k] == r[i]);
    }
    assert forall|g: GroupView| gs.contains(g) implies r.contains(g) by {
        let k = choose|k: int| 0 <= k < gs.len() && gs[k] == g;
        assert(ws.contains(ws[k]));
        assert(arranged.to_multiset().count(ws[k]) > 0);
        assert(arranged.contains(ws[k]));
        let i = choose|i: int| 0 <= i < arranged.len() && arranged[i] == ws[k];
        assert(r[i] == g);
    }
    assert forall|i: int, j: int| 0 <= i < j < r.len() implies amount(measure, #[trigger] r[i])
        >= amount(measure, #[trigger] r[j]) by {
        assert(!Weighed::before(arranged[j], arranged[i]));
    }
}

/// Whether `list` names those of `gs` that have the most by `measure`, from most to
/// least: a few at most, none that has nothing, and none in place of one that has more.
pub open spec fn names_the_top(
    measure: Measure,
    list: Seq<GroupView>,
    gs: Seq<GroupView>,
) -> bool {
    &&& list.len() <= PROC_LIMIT
    &&& forall|i: int|
        0 <= i < list.len() ==> amount(measure, #[trigger] list[i]) > 0 && gs.contains(list[i])
    &&& forall|i: int, j: int|
        0 <= i < j < list.len() ==> amount(measure, #[trigger] list[i]) >= amount(
            measure,
            #[trigger] list[j],
        )
    &&& forall|g: GroupView| #[trigger]
        gs.contains(g) && amount(measure, g) > 0 ==> list.contains(g) || (list.len() == PROC_LIMIT
            && forall|i: int|
            0 <= i < list.len() ==> amount(measure, #[trigger] list[i]) >= amount(measure, g))
}

proof fn lemma_top(measure: Measure, gs: Seq<GroupView>)
    ensures
        names_the_top(measure, top(measure, ranked(measure, gs)), gs),
{
    let r = ranked(measure, gs);
    let few = cluster::first(r, PROC_LIMIT as int);
    let n = text::span(few, has_some(measure)) as int;
    let list = top(measure, r);
    ranking_keeps_groups(measure, gs);
    text::lemma_span_holds(few, has_some(measure));
    assert forall|i: int| 0 <= i < list.len() implies amount(measure, #[trigger] list[i]) > 0
        && gs.contains(list[i]) by {
        assert(has_some(measure)(few[i]));
        assert(r.contains(r[i]));
    }
    assert forall|g: GroupView| #[trigger]
        gs.contains(g) && amount(measure, g) > 0 implies list.contains(g) || (list.len()
        == PROC_LIMIT && forall|i: int|
        0 <= i < list.len() ==> amount(measure, #[trigger] list[i]) >= amount(measure, g)) by {
        assert(r.contains(g));
        let j = choose|j: int| 0 <= j < r.len() && r[j] == g;
        if j < n {
            assert(list[j] == g);
        } else if n < few.len() {
            assert(!has_some(measure)(few[n]));
            assert(few[n] == r[n]);
        }
    }
}

proof fn lemma_same_top(
    measure: Measure,
    list: Seq<GroupView>,
    a: Seq<GroupView>,
    b: Seq<GroupView>,
)
    requires
        names_the_top(measure, list, a),
        forall|g: GroupView| #[trigger] a.contains(g) <==> #[trigger] b.contains(g),
    ensures
        names_the_top(measure, list, b),
{
    assert forall|i: int| 0 <= i < list.len() implies amount(measure, #[trigger] list[i]) > 0
        && b.contains(list[i]) by {
        assert(a.contains(list[i]));
    }
    assert forall|g: GroupView| #[trigger]
        b.contains(g) && amount(measure, g) > 0 implies list.contains(g) || (list.len()
        == PROC_LIMIT && forall|i: int|
        0 <= i < list.len() ==> amount(measure, #[trigger] list[i]) >= amount(measure, g)) by {
        assert(a.contains(g));
    }
}

/// Each of the short lists of a report names the groups with the most processor time, the
/// most memory, and the most bytes read and written; the full list goes by processor time.
pub proof fn lists_name_the_top(gs: Seq<GroupView>, full: bool)
    ensures
        ({
            let by_cpu = ranked(Measure::Cpu, gs);
            let cpu = top(Measure::Cpu, by_cpu);
            let mem = top(Measure::Mem, ranked(Measure::Mem, by_cpu));
            let io = top(Measure::Io, ranked(Measure::Io, ranked(Measure::Mem, by_cpu)));
            let report = report_of(gs, full);
            &&& report.cpu == rows(cpu) && names_the_top(Measure::Cpu, cpu, gs)
            &&& report.mem == rows(mem) && names_the_top(Measure::Mem, mem, gs)
            &&& report.io == rows(io) && names_the_top(Measure::Io, io, gs)
            &&& report.all is Some <==> full
            &&& full ==> report.all->0.len() <= FULL_LIMIT && (gs.len() <= FULL_LIMIT
                ==> report.all->0.len() == gs.len())
        }),
{
    let by_cpu = ranked(Measure::Cpu, gs);
    let by_mem = ranked(Measure::Mem, by_cpu);
    ranking_keeps_groups(Measure::Cpu, gs);
    ranking_keeps_groups(Measure::Mem, by_cpu);
    lemma_top(Measure::Cpu, gs);
    lemma_top(Measure::Mem, by_cpu);
    lemma_top(Measure::Io, by_mem);
    let mem = top(Measure::Mem, by_mem);
    let io = top(Measure::Io, ranked(Measure::Io, by_mem));
    lemma_same_top(Measure::Mem, mem, by_cpu, gs);
    lemma_same_top(Measure::Io, io, by_mem, by_cpu);
    lemma_same_top(Measure::Io, io, by_cpu, gs);
}

/// Where no group has anything by a measure, its list is empty.
pub proof fn lists_of_nothing_are_empty(gs: Seq<GroupView>, full: bool)
    ensures
        (forall|k: int| 0 <= k < gs.len() ==> (#[trigger] gs[k]).ticks == 0) ==> report_of(
            gs,
            full,
        ).cpu.len() == 0,
        (forall|k: int| 0 <= k < gs.len() ==> (#[trigger] gs[k]).read + gs[k].write == 0)
            ==> report_of(gs, full).io.len() == 0,
{
    lists_name_the_top(gs, full);
    let by_cpu = ranked(Measure::Cpu, gs);
    let cpu = top(Measure::Cpu, by_cpu);
    let io = top(Measure::Io, ranked(Measure::Io, ranked(Measure::Mem, by_cpu)));
    if cpu.len() > 0 {
        assert(amount(Measure::Cpu, cpu[0]) > 0 && gs.contains(cpu[0]));
    }
    if io.len() > 0 {
        assert(amount(Measure::Io, io[0]) > 0 && gs.contains(io[0]));
    }
}

} // verus!
