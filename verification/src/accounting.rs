//! What the lists of processes say of two samples, in terms of the processes seen.

use crate::cluster;
use crate::groups;
use crate::groups::{GroupView, ObservationView};
use crate::procs;
use crate::report;
use crate::report::{Measure, ProcRowView};
use crate::stat;
use vstd::prelude::*;

verus! {

/// What the sample `before` saw of the process `pid`.
pub open spec fn seen_before(before: Seq<ObservationView>, pid: u32) -> Option<ObservationView> {
    if exists|i: int| 0 <= i < before.len() && (#[trigger] before[i]).pid == pid {
        Some(before[choose|i: int| 0 <= i < before.len() && (#[trigger] before[i]).pid == pid])
    } else {
        None
    }
}

/// `b - a`, or nothing where that is negative.
pub open spec fn more(a: int, b: int) -> nat {
    if a <= b {
        (b - a) as nat
    } else {
        0
    }
}

/// The clock ticks, in user and in kernel mode together, that the process `o` has spent
/// since the sample `before`.
pub open spec fn ticks_spent(before: Seq<ObservationView>) -> spec_fn(ObservationView) -> nat {
    |o: ObservationView|
        match seen_before(before, o.pid) {
            Some(a) => more(a.utime + a.stime, o.utime + o.stime),
            None => 0,
        }
}

/// The bytes that the process `o` has read since the sample `before`.
pub open spec fn bytes_read(before: Seq<ObservationView>) -> spec_fn(ObservationView) -> nat {
    |o: ObservationView|
        match seen_before(before, o.pid) {
            Some(a) => more(a.read_bytes as int, o.read_bytes as int),
            None => 0,
        }
}

/// The bytes that the process `o` has written since the sample `before`.
pub open spec fn bytes_written(before: Seq<ObservationView>) -> spec_fn(ObservationView) -> nat {
    |o: ObservationView|
        match seen_before(before, o.pid) {
            Some(a) => more(a.write_bytes as int, o.write_bytes as int),
            None => 0,
        }
}

/// The bytes of the resident pages of the process `o`.
pub open spec fn bytes_resident(page_size: nat) -> spec_fn(ObservationView) -> nat {
    |o: ObservationView| o.pages as nat * page_size
}

/// The processes of `obs` with this name, as they stand there.
pub open spec fn called(obs: Seq<ObservationView>, name: Seq<char>) -> Seq<ObservationView> {
    obs.filter(|o: ObservationView| o.name == name)
}

/// The groups of the sample `now`, `elapsed` nanoseconds after the sample `before`.
pub open spec fn groups_between(
    before: Seq<ObservationView>,
    elapsed: u64,
    page_size: nat,
    now: Seq<ObservationView>,
) -> Seq<GroupView> {
    groups::groups_of(
        groups::baseline(procs::counters_by_pid(before), elapsed > 0),
        page_size,
        now,
    )
}

/// A sample keeps the counters and the name of every process it saw, and of no other.
pub proof fn samples_are_kept(before: Seq<ObservationView>, pid: u32)
    requires
        procs::one_of_each(before),
    ensures
        match seen_before(before, pid) {
            Some(a) => {
                &&& a.pid == pid
                &&& before.contains(a)
                &&& procs::counters_by_pid(before).contains_key(pid)
                &&& procs::counters_by_pid(before)[pid].ticks == a.utime + a.stime
                &&& procs::counters_by_pid(before)[pid].read_bytes == a.read_bytes
                &&& procs::counters_by_pid(before)[pid].write_bytes == a.write_bytes
                &&& procs::names_by_pid(before).contains_key(pid)
                &&& procs::names_by_pid(before)[pid] == a.name
            },
            None => {
                &&& !procs::counters_by_pid(before).contains_key(pid)
                &&& !procs::names_by_pid(before).contains_key(pid)
            },
        },
{
    match seen_before(before, pid) {
        Some(a) => {
            let i = choose|i: int| 0 <= i < before.len() && (#[trigger] before[i]).pid == pid;
            procs::lemma_by_pid(before, i);
        },
        None => {
            lemma_unseen(before, pid);
        },
    }
}

proof fn lemma_unseen(before: Seq<ObservationView>, pid: u32)
    requires
        forall|i: int| 0 <= i < before.len() ==> (#[trigger] before[i]).pid != pid,
    ensures
        !procs::counters_by_pid(before).contains_key(pid),
        !procs::names_by_pid(before).contains_key(pid),
    decreases before.len(),
{
    if before.len() > 0 {
        let rest = before.drop_last();
        assert forall|i: int| 0 <= i < rest.len() implies (#[trigger] rest[i]).pid != pid by {
            assert(rest[i] == before[i]);
        }
        assert(before[before.len() - 1].pid != pid);
        lemma_unseen(rest, pid);
    }
}

/// The sum of equal weights is equal.
proof fn lemma_same_sums(
    s: Seq<ObservationView>,
    f: spec_fn(ObservationView) -> nat,
    g: spec_fn(ObservationView) -> nat,
)
    requires
        forall|o: ObservationView| #[trigger] f(o) == g(o),
    ensures
        cluster::sum(s, f) == cluster::sum(s, g),
    decreases s.len(),
{
    if s.len() > 0 {
        lemma_same_sums(s.drop_last(), f, g);
        assert(f(s.last()) == g(s.last()));
    }
}

/// A group is made of the processes of its name: it has spent, read and written what they
/// have since the sample before, if any time has passed, and else nothing; it holds the
/// memory that they hold; it goes by the first of them, lists the first 32, and is the
/// user's own when each of them is.
pub proof fn groups_hold_what_their_processes_used(
    before: Seq<ObservationView>,
    elapsed: u64,
    page_size: nat,
    now: Seq<ObservationView>,
    k: int,
)
    requires
        procs::one_of_each(before),
        0 <= k < groups_between(before, elapsed, page_size, now).len(),
    ensures
        ({
            let g = groups_between(before, elapsed, page_size, now)[k];
            let ms = called(now, g.name);
            &&& ms.len() > 0
            &&& g.count == ms.len()
            &&& g.pid == ms[0].pid
            &&& g.ticks == (if elapsed > 0 {
                cluster::sum(ms, ticks_spent(before))
            } else {
                0
            })
            &&& g.read == (if elapsed > 0 {
                cluster::sum(ms, bytes_read(before))
            } else {
                0
            })
            &&& g.write == (if elapsed > 0 {
                cluster::sum(ms, bytes_written(before))
            } else {
                0
            })
            &&& g.mem == cluster::sum(ms, bytes_resident(page_size))
            &&& g.pids.len() == (if ms.len() < 32 {
                ms.len() as int
            } else {
                32
            })
            &&& forall|i: int| 0 <= i < g.pids.len() ==> #[trigger] g.pids[i] == ms[i].pid
            &&& g.own <==> forall|i: int| 0 <= i < ms.len() ==> (#[trigger] ms[i]).own
        }),
{
    let base = groups::baseline(procs::counters_by_pid(before), elapsed > 0);
    let gs = groups_between(before, elapsed, page_size, now);
    let g = gs[k];
    let names = cluster::names_in(now, groups::name_of());
    cluster::names_are_those_of_items(now, groups::name_of());
    let by = cluster::goes_by(groups::name_of(), names[k]);
    let ms = now.filter(by);
    assert(g == groups::group_of(base, page_size, ms, names[k]));
    assert(by =~= (|o: ObservationView| o.name == g.name));
    assert(ms == called(now, g.name));
    assert forall|o: ObservationView| elapsed > 0 implies #[trigger] groups::ticks_since(base)(o)
        == ticks_spent(before)(o) && groups::read_since(base)(o) == bytes_read(before)(o)
        && groups::written_since(base)(o) == bytes_written(before)(o) by {
        samples_are_kept(before, o.pid);
    }
    if elapsed > 0 {
        lemma_same_sums(ms, groups::ticks_since(base), ticks_spent(before));
        assert forall|o: ObservationView| #[trigger]
            groups::read_since(base)(o) == bytes_read(before)(o) by {
            assert(groups::ticks_since(base)(o) == ticks_spent(before)(o));
        }
        assert forall|o: ObservationView| #[trigger]
            groups::written_since(base)(o) == bytes_written(before)(o) by {
            assert(groups::ticks_since(base)(o) == ticks_spent(before)(o));
        }
        lemma_same_sums(ms, groups::read_since(base), bytes_read(before));
        lemma_same_sums(ms, groups::written_since(base), bytes_written(before));
    } else {
        cluster::lemma_sum_of_nothing(ms, groups::ticks_since(base));
        cluster::lemma_sum_of_nothing(ms, groups::read_since(base));
        cluster::lemma_sum_of_nothing(ms, groups::written_since(base));
    }
    lemma_same_sums(ms, groups::resident_bytes(page_size), bytes_resident(page_size));
}

/// A process that alone goes by its name, seen in two samples with some time between, has
/// spent the ticks by which its user and its kernel time together have grown, and read and
/// written the bytes by which those counters have grown; a counter that fell counts as
/// nothing.
pub proof fn lone_process_is_charged_the_growth(
    before: Seq<ObservationView>,
    i: int,
    elapsed: u64,
    page_size: nat,
    now: Seq<ObservationView>,
    j: int,
)
    requires
        procs::one_of_each(before),
        elapsed > 0,
        0 <= i < before.len(),
        0 <= j < now.len(),
        before[i].pid == now[j].pid,
        forall|k: int| 0 <= k < now.len() && k != j ==> (#[trigger] now[k]).name != now[j].name,
    ensures
        ({
            let a = before[i];
            let b = now[j];
            let gs = groups_between(before, elapsed, page_size, now);
            exists|k: int|
                {
                    &&& 0 <= k < gs.len()
                    &&& (#[trigger] gs[k]).name == b.name
                    &&& gs[k].pid == b.pid
                    &&& gs[k].count == 1
                    &&& gs[k].pids == seq![b.pid]
                    &&& gs[k].own == b.own
                    &&& gs[k].mem == b.pages * page_size
                    &&& b.utime + b.stime >= a.utime + a.stime ==> gs[k].ticks == (b.utime
                        + b.stime) - (a.utime + a.stime)
                    &&& b.utime + b.stime < a.utime + a.stime ==> gs[k].ticks == 0
                    &&& b.read_bytes >= a.read_bytes ==> gs[k].read == b.read_bytes - a.read_bytes
                    &&& b.read_bytes < a.read_bytes ==> gs[k].read == 0
                    &&& b.write_bytes >= a.write_bytes ==> gs[k].write == b.write_bytes
                        - a.write_bytes
                    &&& b.write_bytes < a.write_bytes ==> gs[k].write == 0
                }
        }),
{
    let gs = groups_between(before, elapsed, page_size, now);
    let b = now[j];
    let base = groups::baseline(procs::counters_by_pid(before), elapsed > 0);
    groups::groups_account_for_every_process(base, page_size, now);
    let k = choose|k: int| 0 <= k < gs.len() && (#[trigger] gs[k]).name == now[j].name;
    groups_hold_what_their_processes_used(before, elapsed, page_size, now, k);
    let p = |o: ObservationView| o.name == gs[k].name;
    lemma_only_one(now, j, p);
    assert(called(now, gs[k].name) == seq![b]);
    reveal_with_fuel(cluster::sum, 2);
    assert(seq![b].drop_last() == Seq::<ObservationView>::empty());
    let m = choose|m: int| 0 <= m < before.len() && (#[trigger] before[m]).pid == b.pid;
    assert(before[m].pid == before[i].pid);
    assert(m == i);
    assert(seen_before(before, b.pid) == Some(before[i]));
    assert(gs[k].pids == seq![b.pid]);
    assert(gs[k].own == b.own) by {
        assert(seq![b][0].own == b.own);
    }
    assert(gs[k].name == b.name);
}

/// A filter that one item alone passes leaves that item.
proof fn lemma_only_one(s: Seq<ObservationView>, j: int, p: spec_fn(ObservationView) -> bool)
    requires
        0 <= j < s.len(),
        p(s[j]),
        forall|k: int| 0 <= k < s.len() && k != j ==> !p(#[trigger] s[k]),
    ensures
        s.filter(p) == seq![s[j]],
    decreases s.len(),
{
    let rest = s.drop_last();
    assert(rest.push(s.last()) == s);
    rest.lemma_filter_push(s.last(), p);
    if j == s.len() - 1 {
        assert forall|k: int| 0 <= k < rest.len() implies !p(#[trigger] rest[k]) by {
            assert(rest[k] == s[k]);
        }
        rest.lemma_all_neg_filter_empty(p);
        assert(rest.filter(p).push(s.last()) == seq![s[j]]);
    } else {
        assert forall|k: int| 0 <= k < rest.len() && k != j implies !p(#[trigger] rest[k]) by {
            assert(rest[k] == s[k]);
        }
        lemma_only_one(rest, j, p);
        assert(!p(s[s.len() - 1]));
    }
}

/// What a process is seen to have used is what its files say: the times and the pages of
/// its `stat`, the bytes of its `io` or none where that cannot be read, and the name it
/// went by before or else one made of its `comm` and its command line.
pub proof fn observations_say_what_the_files_say(
    known: Map<u32, Seq<char>>,
    pid: u32,
    s: stat::ProcStatView,
    io: Option<Seq<char>>,
    cmdline: Option<Seq<char>>,
    own: bool,
)
    ensures
        ({
            let o = procs::observed(known, pid, s, io, cmdline, own);
            &&& o.pid == pid
            &&& o.own == own
            &&& o.utime == s.utime
            &&& o.stime == s.stime
            &&& o.pages == s.pages
            &&& io is Some ==> o.read_bytes == stat::parsed_io(io->0).read && o.write_bytes
                == stat::parsed_io(io->0).write
            &&& io is None ==> o.read_bytes == 0 && o.write_bytes == 0
            &&& known.contains_key(pid) ==> o.name == known[pid]
            &&& !known.contains_key(pid) ==> o.name == crate::names::display(s.comm, cmdline)
        }),
{
}

/// Counters are compared over the time that has passed since the last look, as long as
/// that is more than none and less than five seconds.
pub proof fn counters_are_compared_for_five_seconds(time: u64, now: u64)
    ensures
        time < now < time + 5_000_000_000 ==> procs::window(Some(time), now) == now - time,
        !(time < now < time + 5_000_000_000) ==> procs::window(Some(time), now) == 0,
        procs::window(None, now) == 0,
{
}

/// Whether `r` is the line of the group `g`: it says of it what it has used, and lists its
/// processes for ending only when all of them are listed and the user's own.
pub open spec fn is_line_of(r: ProcRowView, g: GroupView) -> bool {
    &&& r.name == g.name
    &&& r.pid == g.pid
    &&& r.count == g.count
    &&& r.ticks == g.ticks
    &&& r.mem == g.mem
    &&& r.read == g.read
    &&& r.write == g.write
    &&& g.own && g.pids.len() == g.count ==> r.pids == g.pids
    &&& !(g.own && g.pids.len() == g.count) ==> r.pids.len() == 0
}

/// Whether `list` is a list of the groups `gs` by the weights that `weight` gives a line:
/// six lines at most, each of a group with some weight, from most to least, and no group
/// left out that weighs more than one that is listed, or anything while there is room.
pub open spec fn lists_the_most(
    list: Seq<ProcRowView>,
    gs: Seq<GroupView>,
    weight: spec_fn(ProcRowView) -> nat,
    weigh: spec_fn(GroupView) -> nat,
) -> bool {
    &&& list.len() <= 6
    &&& forall|i: int|
        0 <= i < list.len() ==> weight(#[trigger] list[i]) > 0 && exists|k: int|
            0 <= k < gs.len() && is_line_of(list[i], #[trigger] gs[k])
    &&& forall|i: int, j: int|
        0 <= i < j < list.len() ==> weight(#[trigger] list[i]) >= weight(#[trigger] list[j])
    &&& forall|k: int|
        0 <= k < gs.len() && weigh(#[trigger] gs[k]) > 0 ==> {
            ||| exists|i: int| 0 <= i < list.len() && is_line_of(#[trigger] list[i], gs[k])
            ||| list.len() == 6 && forall|i: int|
                0 <= i < list.len() ==> weight(#[trigger] list[i]) >= weigh(gs[k])
        }
}

proof fn lemma_lists_the_most(
    measure: Measure,
    top: Seq<GroupView>,
    gs: Seq<GroupView>,
    weight: spec_fn(ProcRowView) -> nat,
    weigh: spec_fn(GroupView) -> nat,
)
    requires
        report::names_the_top(measure, top, gs),
        forall|g: GroupView| #[trigger] weigh(g) == report::amount(measure, g),
        forall|g: GroupView| weight(#[trigger] report::row(g)) == weigh(g),
    ensures
        lists_the_most(report::rows(top), gs, weight, weigh),
{
    let list = report::rows(top);
    assert forall|i: int| 0 <= i < list.len() implies weight(#[trigger] list[i]) > 0 && exists|
        k: int,
    |
        0 <= k < gs.len() && is_line_of(list[i], #[trigger] gs[k]) by {
        assert(list[i] == report::row(top[i]));
        assert(weigh(top[i]) == report::amount(measure, top[i]));
        assert(gs.contains(top[i]));
        let k = choose|k: int| 0 <= k < gs.len() && gs[k] == top[i];
        assert(is_line_of(list[i], gs[k]));
    }
    assert forall|i: int, j: int| 0 <= i < j < list.len() implies weight(#[trigger] list[i])
        >= weight(#[trigger] list[j]) by {
        assert(list[i] == report::row(top[i]) && list[j] == report::row(top[j]));
        assert(weigh(top[i]) == report::amount(measure, top[i]));
        assert(weigh(top[j]) == report::amount(measure, top[j]));
    }
    assert forall|k: int| 0 <= k < gs.len() && weigh(#[trigger] gs[k]) > 0 implies {
        ||| exists|i: int| 0 <= i < list.len() && is_line_of(#[trigger] list[i], gs[k])
        ||| list.len() == 6 && forall|i: int|
            0 <= i < list.len() ==> weight(#[trigger] list[i]) >= weigh(gs[k])
    } by {
        let g = gs[k];
        assert(weigh(g) == report::amount(measure, g));
        assert(gs.contains(g));
        if top.contains(g) {
            let i = choose|i: int| 0 <= i < top.len() && top[i] == g;
            assert(list[i] == report::row(top[i]));
            assert(is_line_of(list[i], gs[k]));
        } else {
            assert forall|i: int| 0 <= i < list.len() implies weight(#[trigger] list[i])
                >= weigh(g) by {
                assert(list[i] == report::row(top[i]));
                assert(weigh(top[i]) == report::amount(measure, top[i]));
                assert(report::amount(measure, top[i]) >= report::amount(measure, g));
            }
        }
    }
}

/// The short lists of a report hold the groups with the most processor time, with the most
/// memory, and with the most bytes read and written together; how many groups there are is
/// told beside them.
pub proof fn reports_list_the_most(gs: Seq<GroupView>, full: bool)
    ensures
        ({
            let report = report::report_of(gs, full);
            &&& lists_the_most(
                report.cpu,
                gs,
                |r: ProcRowView| r.ticks,
                |g: GroupView| g.ticks,
            )
            &&& lists_the_most(report.mem, gs, |r: ProcRowView| r.mem, |g: GroupView| g.mem)
            &&& lists_the_most(
                report.io,
                gs,
                |r: ProcRowView| r.read + r.write,
                |g: GroupView| g.read + g.write,
            )
            &&& report.total == Some(gs.len())
        }),
{
    report::lists_name_the_top(gs, full);
    let by_cpu = report::ranked(Measure::Cpu, gs);
    let by_mem = report::ranked(Measure::Mem, by_cpu);
    let cpu = report::top(Measure::Cpu, by_cpu);
    let mem = report::top(Measure::Mem, by_mem);
    let io = report::top(Measure::Io, report::ranked(Measure::Io, by_mem));
    lemma_lists_the_most(
        Measure::Cpu,
        cpu,
        gs,
        |r: ProcRowView| r.ticks,
        |g: GroupView| g.ticks,
    );
    lemma_lists_the_most(Measure::Mem, mem, gs, |r: ProcRowView| r.mem, |g: GroupView| g.mem);
    lemma_lists_the_most(
        Measure::Io,
        io,
        gs,
        |r: ProcRowView| r.read + r.write,
        |g: GroupView| g.read + g.write,
    );
}

/// The full list, where it is asked for, has a line for every group, from most to least
/// processor time, up to four hundred of them; those that are left out have no more than
/// those that are listed. Where it is not asked for there is none.
pub proof fn full_list_goes_by_processor_time(gs: Seq<GroupView>)
    ensures
        report::report_of(gs, false).all is None,
        report::report_of(gs, true).all is Some,
        ({
            let all = report::report_of(gs, true).all->0;
            &&& all.len() == (if gs.len() < 400 {
                gs.len() as int
            } else {
                400
            })
            &&& forall|i: int|
                0 <= i < all.len() ==> exists|k: int|
                    0 <= k < gs.len() && is_line_of(#[trigger] all[i], #[trigger] gs[k])
            &&& forall|i: int, j: int|
                0 <= i < j < all.len() ==> (#[trigger] all[i]).ticks >= (#[trigger] all[j]).ticks
            &&& forall|k: int|
                0 <= k < gs.len() ==> {
                    ||| exists|i: int| 0 <= i < all.len() && is_line_of(#[trigger] all[i], #[trigger] gs[k])
                    ||| all.len() == 400 && forall|i: int|
                        0 <= i < all.len() ==> (#[trigger] all[i]).ticks >= (#[trigger] gs[k]).ticks
                }
        }),
{
    let r = report::ranked(Measure::Cpu, gs);
    let all = report::report_of(gs, true).all->0;
    report::ranking_keeps_groups(Measure::Cpu, gs);
    assert forall|i: int| 0 <= i < all.len() implies exists|k: int|
        0 <= k < gs.len() && is_line_of(#[trigger] all[i], #[trigger] gs[k]) by {
        assert(r.contains(r[i]));
        assert(gs.contains(r[i]));
        let k = choose|k: int| 0 <= k < gs.len() && gs[k] == r[i];
        assert(is_line_of(all[i], gs[k]));
    }
    assert forall|i: int, j: int| 0 <= i < j < all.len() implies (#[trigger] all[i]).ticks >= (
    #[trigger] all[j]).ticks by {
        assert(report::amount(Measure::Cpu, r[i]) >= report::amount(Measure::Cpu, r[j]));
    }
    assert forall|k: int| 0 <= k < gs.len() implies {
        ||| exists|i: int| 0 <= i < all.len() && is_line_of(#[trigger] all[i], #[trigger] gs[k])
        ||| all.len() == 400 && forall|i: int|
            0 <= i < all.len() ==> (#[trigger] all[i]).ticks >= (#[trigger] gs[k]).ticks
    } by {
        assert(gs.contains(gs[k]));
        assert(r.contains(gs[k]));
        let m = choose|m: int| 0 <= m < r.len() && r[m] == gs[k];
        if m < all.len() {
            assert(is_line_of(all[m], gs[k]));
        } else {
            assert forall|i: int| 0 <= i < all.len() implies (#[trigger] all[i]).ticks
                >= gs[k].ticks by {
                assert(report::amount(Measure::Cpu, r[i]) >= report::amount(Measure::Cpu, r[m]));
            }
        }
    }
}

/// Where the processes cannot be listed every list is empty, and how many there are is not
/// known.
pub proof fn nothing_is_told_of_what_cannot_be_listed()
    ensures
        ({
            let report = procs::no_report();
            &&& report.cpu.len() == 0
            &&& report.mem.len() == 0
            &&& report.io.len() == 0
            &&& report.total is None
            &&& report.all is None
        }),
{
}

/// Of a process that a sample saw more than once it keeps what it saw last.
pub proof fn last_sighting_is_kept(before: Seq<ObservationView>, i: int)
    requires
        0 <= i < before.len(),
        forall|j: int| i < j < before.len() ==> (#[trigger] before[j]).pid != before[i].pid,
    ensures
        ({
            let kept = procs::counters_by_pid(before);
            let names = procs::names_by_pid(before);
            let pid = before[i].pid;
            &&& kept.contains_key(pid)
            &&& kept[pid].ticks == before[i].utime + before[i].stime
            &&& kept[pid].read_bytes == before[i].read_bytes
            &&& kept[pid].write_bytes == before[i].write_bytes
            &&& names.contains_key(pid)
            &&& names[pid] == before[i].name
        }),
    decreases before.len(),
{
    let rest = before.drop_last();
    if i < rest.len() {
        assert(rest[i] == before[i]);
        assert forall|j: int| i < j < rest.len() implies (#[trigger] rest[j]).pid
            != rest[i].pid by {
            assert(rest[j] == before[j]);
        }
        assert(before[before.len() - 1].pid != before[i].pid);
        last_sighting_is_kept(rest, i);
    }
}

} // verus!
