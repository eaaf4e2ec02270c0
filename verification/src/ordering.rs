//! In which order things are listed that nothing else puts in order.

use crate::accounting;
use crate::clients;
use crate::clients::{GpuUser, GpuUserView, ShareView};
use crate::cluster;
use crate::devices;
use crate::devices::{Answer, DeviceView, GpuRecord};
use crate::groups;
use crate::groups::{GroupView, ObservationView};
use crate::rank;
use crate::rank::Ranked;
use crate::report;
use crate::report::{Measure, Weighed, WeighedView};
use crate::traffic;
use crate::traffic::FlowView;
use vstd::prelude::*;

verus! {

/// Whether `x` stands before `y` in `s`.
pub open spec fn stands_before<V>(s: Seq<V>, x: V, y: V) -> bool {
    exists|i: int, j: int| 0 <= i < j < s.len() && #[trigger] s[i] == x && #[trigger] s[j] == y
}

/// Whether every item of `s` is related to every later one.
pub open spec fn is_chain<V>(s: Seq<V>, rel: spec_fn(V, V) -> bool) -> bool {
    forall|i: int, j: int| 0 <= i < j < s.len() ==> rel(#[trigger] s[i], #[trigger] s[j])
}

proof fn lemma_filter_is_chain<V>(
    s: Seq<V>,
    p: spec_fn(V) -> bool,
    rel: spec_fn(V, V) -> bool,
)
    requires
        is_chain(s, rel),
    ensures
        is_chain(s.filter(p), rel),
    decreases s.len(),
{
    if s.len() == 0 {
        reveal(Seq::filter);
    } else {
        let rest = s.drop_last();
        let last = s.last();
        assert(is_chain(rest, rel)) by {
            assert forall|i: int, j: int| 0 <= i < j < rest.len() implies rel(
                #[trigger] rest[i],
                #[trigger] rest[j],
            ) by {
                assert(rel(s[i], s[j]));
            }
        }
        lemma_filter_is_chain(rest, p, rel);
        assert(rest.push(last) == s);
        rest.lemma_filter_push(last, p);
        let kept = rest.filter(p);
        if p(last) {
            let all = kept.push(last);
            assert forall|i: int, j: int| 0 <= i < j < all.len() implies rel(
                #[trigger] all[i],
                #[trigger] all[j],
            ) by {
                if j < kept.len() {
                    assert(rel(kept[i], kept[j]));
                } else {
                    assert(kept.contains(kept[i]));
                    rest.lemma_filter_contains_rev(p, kept[i]);
                    let k = choose|k: int| 0 <= k < rest.len() && rest[k] == kept[i];
                    assert(s[k] == kept[i] && s[s.len() - 1] == last);
                }
            }
        }
    }
}

proof fn lemma_filter_keeps_order<V>(s: Seq<V>, p: spec_fn(V) -> bool, i: int, j: int)
    requires
        0 <= i < j < s.len(),
        p(s[i]),
        p(s[j]),
    ensures
        stands_before(s.filter(p), s[i], s[j]),
    decreases s.len(),
{
    let rest = s.drop_last();
    let last = s.last();
    assert(rest.push(last) == s);
    rest.lemma_filter_push(last, p);
    let kept = rest.filter(p);
    let all = s.filter(p);
    if j < rest.len() {
        lemma_filter_keeps_order(rest, p, i, j);
        let (a, b) = choose|a: int, b: int|
            0 <= a < b < kept.len() && #[trigger] kept[a] == rest[i] && #[trigger] kept[b]
                == rest[j];
        assert(all[a] == s[i] && all[b] == s[j]);
    } else {
        broadcast use vstd::seq_lib::group_filter_ensures;

        assert(rest[i] == s[i]);
        assert(kept.contains(rest[i]));
        let a = choose|a: int| 0 <= a < kept.len() && kept[a] == rest[i];
        assert(all[a] == s[i] && all[kept.len() as int] == s[j]);
    }
}

/// Items of equal rank are arranged as they came: where every item is related to every
/// later one, so is every item of an arrangement to every later one of the same rank.
pub proof fn equal_ranks_stay_in_order<T: Ranked>(
    s: Seq<T::V>,
    rel: spec_fn(T::V, T::V) -> bool,
    i: int,
    j: int,
)
    requires
        is_chain(s, rel),
        0 <= i < j < rank::arrange::<T>(s).len(),
        !T::before(rank::arrange::<T>(s)[i], rank::arrange::<T>(s)[j]),
    ensures
        rel(rank::arrange::<T>(s)[i], rank::arrange::<T>(s)[j]),
{
    let out = rank::arrange::<T>(s);
    let p = rank::ties_with::<T>(out[i]);
    rank::arrangement_is_in_order::<T>(s);
    assert(!T::before(out[j], out[i]));
    T::before_is_strict(out[i], out[i]);
    rank::arrangement_is_stable::<T>(s, out[i]);
    lemma_filter_is_chain(s, p, rel);
    lemma_filter_keeps_order(out, p, i, j);
    let kept = s.filter(p);
    let (a, b) = choose|a: int, b: int|
        0 <= a < b < kept.len() && #[trigger] kept[a] == out[i] && #[trigger] kept[b] == out[j];
    assert(rel(kept[a], kept[b]));
}

proof fn lemma_stands<V>(s: Seq<V>)
    ensures
        is_chain(s, |x: V, y: V| stands_before(s, x, y)),
{
}

proof fn lemma_ranked(
    measure: Measure,
    gs: Seq<GroupView>,
    rel: spec_fn(GroupView, GroupView) -> bool,
    i: int,
    j: int,
)
    requires
        is_chain(gs, rel),
        0 <= i < j < report::ranked(measure, gs).len(),
        report::amount(measure, report::ranked(measure, gs)[i]) <= report::amount(
            measure,
            report::ranked(measure, gs)[j],
        ),
    ensures
        rel(report::ranked(measure, gs)[i], report::ranked(measure, gs)[j]),
{
    let ws = report::weighed(measure, gs);
    let out = rank::arrange::<Weighed>(ws);
    let by = |x: WeighedView, y: WeighedView| rel(x.group, y.group);
    assert forall|a: int, b: int| 0 <= a < b < ws.len() implies by(
        #[trigger] ws[a],
        #[trigger] ws[b],
    ) by {
        assert(rel(gs[a], gs[b]));
    }
    rank::lemma_arranged_came_in::<Weighed>(ws, i);
    rank::lemma_arranged_came_in::<Weighed>(ws, j);
    let a = choose|a: int| 0 <= a < ws.len() && ws[a] == out[i];
    let b = choose|b: int| 0 <= b < ws.len() && ws[b] == out[j];
    assert(out[i].weight == report::amount(measure, out[i].group));
    assert(out[j].weight == report::amount(measure, out[j].group));
    equal_ranks_stay_in_order::<Weighed>(ws, by, i, j);
}

/// Groups with the same processor time are listed as they came; of two groups with the same
/// memory the one with more processor time is listed first; and of two with the same bytes
/// read and written the one with more memory, or with as much and more processor time.
pub proof fn equal_groups_are_listed_in_order(gs: Seq<GroupView>, i: int, j: int)
    requires
        0 <= i < j,
    ensures
        ({
            let cpu = report::report_of(gs, true).cpu;
            j < cpu.len() && cpu[i].ticks == cpu[j].ticks ==> exists|a: int, b: int|
                0 <= a < b < gs.len() && accounting::is_line_of(cpu[i], #[trigger] gs[a])
                    && accounting::is_line_of(cpu[j], #[trigger] gs[b])
        }),
        ({
            let all = report::report_of(gs, true).all->0;
            j < all.len() && all[i].ticks == all[j].ticks ==> exists|a: int, b: int|
                0 <= a < b < gs.len() && accounting::is_line_of(all[i], #[trigger] gs[a])
                    && accounting::is_line_of(all[j], #[trigger] gs[b])
        }),
        ({
            let mem = report::report_of(gs, true).mem;
            j < mem.len() && mem[i].mem == mem[j].mem ==> mem[i].ticks >= mem[j].ticks
        }),
        ({
            let io = report::report_of(gs, true).io;
            j < io.len() && io[i].read + io[i].write == io[j].read + io[j].write ==> io[i].mem
                > io[j].mem || io[i].mem == io[j].mem && io[i].ticks >= io[j].ticks
        }),
{
    let by_cpu = report::ranked(Measure::Cpu, gs);
    let by_mem = report::ranked(Measure::Mem, by_cpu);
    let by_io = report::ranked(Measure::Io, by_mem);
    report::ranking_keeps_groups(Measure::Cpu, gs);
    report::ranking_keeps_groups(Measure::Mem, by_cpu);
    report::ranking_keeps_groups(Measure::Io, by_mem);
    let cpu = report::report_of(gs, true).cpu;
    let all = report::report_of(gs, true).all->0;
    let mem = report::report_of(gs, true).mem;
    let io = report::report_of(gs, true).io;
    let as_came = |x: GroupView, y: GroupView| stands_before(gs, x, y);
    lemma_stands(gs);
    if j < by_cpu.len() && by_cpu[i].ticks == by_cpu[j].ticks {
        lemma_ranked(Measure::Cpu, gs, as_came, i, j);
        let (a, b) = choose|a: int, b: int|
            0 <= a < b < gs.len() && #[trigger] gs[a] == by_cpu[i] && #[trigger] gs[b] == by_cpu[j];
        assert(gs[a] == by_cpu[i] && gs[b] == by_cpu[j]);
        lemma_top_is_first(Measure::Cpu, by_cpu);
        if j < cpu.len() {
            assert(accounting::is_line_of(cpu[i], gs[a]));
            assert(accounting::is_line_of(cpu[j], gs[b]));
        }
        if j < all.len() {
            assert(accounting::is_line_of(all[i], gs[a]));
            assert(accounting::is_line_of(all[j], gs[b]));
        }
    }
    lemma_top_is_first(Measure::Cpu, by_cpu);
    lemma_top_is_first(Measure::Mem, by_mem);
    lemma_top_is_first(Measure::Io, by_io);
    let more_time = |x: GroupView, y: GroupView| x.ticks >= y.ticks;
    assert forall|a: int, b: int| 0 <= a < b < by_cpu.len() implies more_time(
        #[trigger] by_cpu[a],
        #[trigger] by_cpu[b],
    ) by {
        assert(report::amount(Measure::Cpu, by_cpu[a]) >= report::amount(Measure::Cpu, by_cpu[b]));
    }
    if j < by_mem.len() && by_mem[i].mem == by_mem[j].mem {
        lemma_ranked(Measure::Mem, by_cpu, more_time, i, j);
    }
    let more = |x: GroupView, y: GroupView| x.mem > y.mem || x.mem == y.mem && x.ticks >= y.ticks;
    assert forall|a: int, b: int| 0 <= a < b < by_mem.len() implies more(
        #[trigger] by_mem[a],
        #[trigger] by_mem[b],
    ) by {
        assert(report::amount(Measure::Mem, by_mem[a]) >= report::amount(Measure::Mem, by_mem[b]));
        if by_mem[a].mem == by_mem[b].mem {
            lemma_ranked(Measure::Mem, by_cpu, more_time, a, b);
        }
    }
    if j < by_io.len() && by_io[i].read + by_io[i].write == by_io[j].read + by_io[j].write {
        lemma_ranked(Measure::Io, by_mem, more, i, j);
    }
}

/// The top of a list is its beginning.
proof fn lemma_top_is_first(measure: Measure, gs: Seq<GroupView>)
    ensures
        report::top(measure, gs).len() <= gs.len(),
        forall|i: int|
            0 <= i < report::top(measure, gs).len() ==> #[trigger] report::top(measure, gs)[i]
                == gs[i],
{
    let few = cluster::first(gs, groups::PROC_LIMIT as int);
    crate::text::lemma_span_holds(few, report::has_some(measure));
}

/// Names stand as they first occur: one stands before another exactly when something goes by
/// it before anything goes by the other.
pub proof fn names_stand_as_they_first_occur<V>(
    s: Seq<V>,
    name_of: spec_fn(V) -> Seq<char>,
    i: int,
    j: int,
)
    requires
        0 <= i < j < cluster::names_in(s, name_of).len(),
    ensures
        ({
            let all = cluster::names_in(s, name_of);
            exists|a: int|
                {
                    &&& 0 <= a < s.len()
                    &&& name_of(#[trigger] s[a]) == all[i]
                    &&& forall|b: int| 0 <= b <= a ==> name_of(#[trigger] s[b]) != all[j]
                }
        }),
    decreases s.len(),
{
    let rest = s.drop_last();
    let before = cluster::names_in(rest, name_of);
    let all = cluster::names_in(s, name_of);
    assert(forall|k: int| 0 <= k < rest.len() ==> #[trigger] rest[k] == s[k]);
    cluster::names_are_those_of_items(rest, name_of);
    if j < before.len() {
        names_stand_as_they_first_occur(rest, name_of, i, j);
        let a = choose|a: int|
            {
                &&& 0 <= a < rest.len()
                &&& name_of(#[trigger] rest[a]) == before[i]
                &&& forall|b: int| 0 <= b <= a ==> name_of(#[trigger] rest[b]) != before[j]
            };
        assert(name_of(s[a]) == all[i]);
        assert forall|b: int| 0 <= b <= a implies name_of(#[trigger] s[b]) != all[j] by {
            assert(rest[b] == s[b]);
        }
    } else {
        let ms = cluster::members(rest, name_of, before[i]);
        cluster::lemma_members(rest, name_of, before[i], 0);
        let a = choose|a: int| 0 <= a < rest.len() && rest[a] == ms[0];
        assert(name_of(s[a]) == all[i]);
        assert forall|b: int| 0 <= b <= a implies name_of(#[trigger] s[b]) != all[j] by {
            assert(before.contains(name_of(rest[b])));
        }
    }
}

/// Groups of processes stand as their names first occur.
pub proof fn groups_stand_as_they_first_occur(
    base: groups::Baseline,
    page_size: nat,
    obs: Seq<ObservationView>,
    i: int,
    j: int,
)
    requires
        0 <= i < j < groups::groups_of(base, page_size, obs).len(),
    ensures
        ({
            let gs = groups::groups_of(base, page_size, obs);
            exists|a: int|
                {
                    &&& 0 <= a < obs.len()
                    &&& (#[trigger] obs[a]).name == gs[i].name
                    &&& forall|b: int| 0 <= b <= a ==> (#[trigger] obs[b]).name != gs[j].name
                }
        }),
{
    let name_of = groups::name_of();
    let all = cluster::names_in(obs, name_of);
    names_stand_as_they_first_occur(obs, name_of, i, j);
    let a = choose|a: int|
        {
            &&& 0 <= a < obs.len()
            &&& name_of(#[trigger] obs[a]) == all[i]
            &&& forall|b: int| 0 <= b <= a ==> name_of(#[trigger] obs[b]) != all[j]
        };
    assert(obs[a].name == all[i]);
    assert forall|b: int| 0 <= b <= a implies (#[trigger] obs[b]).name != all[j] by {
        assert(name_of(obs[b]) != all[j]);
    }
}

/// Every flow and every share is in the group of its name, and each name has one group.
pub proof fn names_have_one_group_each(fs: Seq<FlowView>, ss: Seq<ShareView>, elapsed: nat)
    ensures
        ({
            let gs = traffic::nets_of(fs);
            &&& forall|i: int|
                0 <= i < fs.len() ==> exists|k: int|
                    0 <= k < gs.len() && (#[trigger] gs[k]).name == (#[trigger] fs[i]).name
            &&& forall|i: int, j: int|
                0 <= i < j < gs.len() ==> (#[trigger] gs[i]).name != (#[trigger] gs[j]).name
        }),
        ({
            let us = clients::users_of(ss, elapsed);
            &&& forall|i: int|
                0 <= i < ss.len() ==> exists|k: int|
                    0 <= k < us.len() && (#[trigger] us[k]).name == (#[trigger] ss[i]).name
            &&& forall|i: int, j: int|
                0 <= i < j < us.len() ==> (#[trigger] us[i]).name != (#[trigger] us[j]).name
        }),
{
    cluster::names_are_those_of_items(fs, traffic::flow_name());
    cluster::names_are_those_of_items(ss, clients::share_name());
    let gs = traffic::nets_of(fs);
    let us = clients::users_of(ss, elapsed);
    let flow_names = cluster::names_in(fs, traffic::flow_name());
    let share_names = cluster::names_in(ss, clients::share_name());
    assert forall|i: int| 0 <= i < fs.len() implies exists|k: int|
        0 <= k < gs.len() && (#[trigger] gs[k]).name == (#[trigger] fs[i]).name by {
        assert(flow_names.contains(traffic::flow_name()(fs[i])));
        let k = choose|k: int| 0 <= k < flow_names.len() && flow_names[k] == fs[i].name;
        assert(gs[k].name == fs[i].name);
    }
    assert forall|i: int, j: int| 0 <= i < j < gs.len() implies (#[trigger] gs[i]).name != (
    #[trigger] gs[j]).name by {
        assert(flow_names[i] != flow_names[j]);
    }
    assert forall|i: int| 0 <= i < ss.len() implies exists|k: int|
        0 <= k < us.len() && (#[trigger] us[k]).name == (#[trigger] ss[i]).name by {
        assert(share_names.contains(clients::share_name()(ss[i])));
        let k = choose|k: int| 0 <= k < share_names.len() && share_names[k] == ss[i].name;
        assert(us[k].name == ss[i].name);
    }
    assert forall|i: int, j: int| 0 <= i < j < us.len() implies (#[trigger] us[i]).name != (
    #[trigger] us[j]).name by {
        assert(share_names[i] != share_names[j]);
    }
}

/// GPU users that have been busy as long and hold as much are listed as they came.
pub proof fn equal_users_are_listed_in_order(us: Seq<GpuUserView>, i: int, j: int)
    requires
        0 <= i < j < clients::gpu_rows(us).len(),
        clients::gpu_rows(us)[i].busy == clients::gpu_rows(us)[j].busy,
        clients::gpu_rows(us)[i].vram == clients::gpu_rows(us)[j].vram,
    ensures
        stands_before(us, clients::gpu_rows(us)[i], clients::gpu_rows(us)[j]),
{
    let rel = |x: GpuUserView, y: GpuUserView| stands_before(us, x, y);
    lemma_stands(us);
    lemma_filter_is_chain(us, clients::uses_gpu(), rel);
    equal_ranks_stay_in_order::<GpuUser>(us.filter(clients::uses_gpu()), rel, i, j);
}

/// Cards that tell of the same memory are shown in the order of the devices.
pub proof fn equal_cards_are_shown_in_order(
    latest: Map<Seq<char>, GpuRecord>,
    ds: Seq<DeviceView>,
    answers: Seq<Answer>,
    i: int,
    j: int,
)
    requires
        ({
            let list = crate::cards::shown_list(latest, ds, answers);
            &&& 0 <= i < j < list.len()
            &&& crate::cards::memory_told(list[i]) == crate::cards::memory_told(list[j])
        }),
    ensures
        ({
            let list = crate::cards::shown_list(latest, ds, answers);
            stands_before(devices::all_shown(latest, ds, answers), list[i], list[j])
        }),
{
    let seen = devices::all_shown(latest, ds, answers);
    let rel = |x: devices::GpuRecordView, y: devices::GpuRecordView| stands_before(seen, x, y);
    lemma_stands(seen);
    equal_ranks_stay_in_order::<GpuRecord>(seen, rel, i, j);
}

} // verus!
