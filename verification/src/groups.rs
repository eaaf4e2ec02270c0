//! Processes that go by one name, taken together.

use crate::cluster;
use crate::rank;
use crate::stat;
use crate::text::same_str;
use std::collections::HashMap;
use vstd::prelude::*;
use vstd::slice::slice_subrange;

verus! {

/// How many processes a short list names.
pub const PROC_LIMIT: usize = 6;

/// How many processes a full list names.
pub const FULL_LIMIT: usize = 400;

/// A group is only offered for ending when every one of its pids fits.
pub const END_PID_LIMIT: usize = 32;

/// The pids the UI may signal: all of the group's, and only when they are all
/// the user's own and few enough to list in full.
pub open spec fn endable(own: bool, pids: Seq<u32>, count: nat) -> Seq<u32> {
    if own && count == pids.len() {
        pids
    } else {
        seq![]
    }
}

/// The pids the UI may signal: all of the group's, and only when they are all
/// the user's own and few enough to list in full.
pub fn endable_pids(own: bool, pids: &[u32], count: u32) -> (r: &[u32])
    ensures
        r@ == endable(own, pids@, count as nat),
{
    if own && count as usize == pids.len() {
        pids
    } else {
        slice_subrange(pids, 0, 0)
    }
}

/// What one process was seen to have used so far.
#[derive(Debug)]
pub struct Observation {
    pub pid: u32,
    pub name: String,
    /// It belongs to the user running the sampler.
    pub own: bool,
    pub utime: u64,
    pub stime: u64,
    pub pages: u64,
    pub read_bytes: u64,
    pub write_bytes: u64,
}

/// The model of an [`Observation`].
pub struct ObservationView {
    pub pid: u32,
    pub name: Seq<char>,
    pub own: bool,
    pub utime: u64,
    pub stime: u64,
    pub pages: u64,
    pub read_bytes: u64,
    pub write_bytes: u64,
}

impl View for Observation {
    type V = ObservationView;

    open spec fn view(&self) -> ObservationView {
        ObservationView {
            pid: self.pid,
            name: self.name@,
            own: self.own,
            utime: self.utime,
            stime: self.stime,
            pages: self.pages,
            read_bytes: self.read_bytes,
            write_bytes: self.write_bytes,
        }
    }
}

/// The counters of one process at the last sample.
#[derive(Debug, Clone, Copy, PartialEq, Eq, Structural)]
pub struct Counters {
    pub ticks: u128,
    pub read_bytes: u64,
    pub write_bytes: u64,
}

/// The counters by process at the last sample; none where no time has passed
/// since.
pub type Baseline = Map<u32, Counters>;

/// By how much a counter has grown; one that fell has been reset.
pub open spec fn growth(now: int, before: int) -> nat {
    if now > before {
        (now - before) as nat
    } else {
        0
    }
}

/// Clock ticks spent since the last sample; none by a process first seen now.
pub open spec fn ticks_since(base: Baseline) -> spec_fn(ObservationView) -> nat {
    |o: ObservationView|
        if base.contains_key(o.pid) {
            growth(o.utime + o.stime, base[o.pid].ticks as int)
        } else {
            0
        }
}

/// Bytes read since the last sample.
pub open spec fn read_since(base: Baseline) -> spec_fn(ObservationView) -> nat {
    |o: ObservationView|
        if base.contains_key(o.pid) {
            growth(o.read_bytes as int, base[o.pid].read_bytes as int)
        } else {
            0
        }
}

/// Bytes written since the last sample.
pub open spec fn written_since(base: Baseline) -> spec_fn(ObservationView) -> nat {
    |o: ObservationView|
        if base.contains_key(o.pid) {
            growth(o.write_bytes as int, base[o.pid].write_bytes as int)
        } else {
            0
        }
}

/// Resident bytes, in pages of `page_size` bytes.
pub open spec fn resident_bytes(page_size: nat) -> spec_fn(ObservationView) -> nat {
    |o: ObservationView| o.pages as nat * page_size
}

/// The processes that go by one name.
pub struct Group {
    pub name: String,
    pub pid: u32,
    pub ticks: u128,
    pub mem: u128,
    pub read: u128,
    pub write: u128,
    pub count: u32,
    pub pids: Vec<u32>,
    /// Every process of the group belongs to the user running the sampler.
    pub own: bool,
}

/// The model of a [`Group`].
#[verifier::ext_equal]
pub struct GroupView {
    pub name: Seq<char>,
    pub pid: u32,
    pub ticks: nat,
    pub mem: nat,
    pub read: nat,
    pub write: nat,
    pub count: nat,
    pub pids: Seq<u32>,
    pub own: bool,
}

impl View for Group {
    type V = GroupView;

    open spec fn view(&self) -> GroupView {
        GroupView {
            name: self.name@,
            pid: self.pid,
            ticks: self.ticks as nat,
            mem: self.mem as nat,
            read: self.read as nat,
            write: self.write as nat,
            count: self.count as nat,
            pids: self.pids@,
            own: self.own,
        }
    }
}

/// The numbers of the processes `obs`.
pub open spec fn pids_of(obs: Seq<ObservationView>) -> Seq<u32> {
    obs.map_values(|o: ObservationView| o.pid)
}

/// The processes `members`, which go by `name`, as a group.
pub open spec fn group_of(
    base: Baseline,
    page_size: nat,
    members: Seq<ObservationView>,
    name: Seq<char>,
) -> GroupView {
    GroupView {
        name,
        pid: members[0].pid,
        ticks: cluster::sum(members, ticks_since(base)),
        mem: cluster::sum(members, resident_bytes(page_size)),
        read: cluster::sum(members, read_since(base)),
        write: cluster::sum(members, written_since(base)),
        count: members.len(),
        pids: cluster::first(pids_of(members), END_PID_LIMIT as int),
        own: forall|i: int| 0 <= i < members.len() ==> (#[trigger] members[i]).own,
    }
}

/// The name of a process.
pub open spec fn name_of() -> spec_fn(ObservationView) -> Seq<char> {
    |o: ObservationView| o.name
}

/// What the processes that go by one name make.
pub open spec fn grouping(base: Baseline, page_size: nat) -> spec_fn(
    Seq<ObservationView>,
    Seq<char>,
) -> GroupView {
    |members: Seq<ObservationView>, name: Seq<char>| group_of(base, page_size, members, name)
}

/// The groups that the processes `obs` make, as their names first occur.
pub open spec fn groups_of(
    base: Baseline,
    page_size: nat,
    obs: Seq<ObservationView>,
) -> Seq<GroupView> {
    cluster::clusters(obs, name_of(), grouping(base, page_size))
}

/// `g` with the process `o` as one more member.
pub open spec fn with_member(
    base: Baseline,
    page_size: nat,
    g: GroupView,
    o: ObservationView,
) -> GroupView {
    GroupView {
        name: g.name,
        pid: g.pid,
        ticks: g.ticks + ticks_since(base)(o),
        mem: g.mem + resident_bytes(page_size)(o),
        read: g.read + read_since(base)(o),
        write: g.write + written_since(base)(o),
        count: g.count + 1,
        pids: if g.pids.len() < END_PID_LIMIT {
            g.pids.push(o.pid)
        } else {
            g.pids
        },
        own: g.own && o.own,
    }
}

/// One more process joins a group.
proof fn lemma_joins(
    base: Baseline,
    page_size: nat,
    members: Seq<ObservationView>,
    name: Seq<char>,
    o: ObservationView,
)
    requires
        members.len() > 0,
    ensures
        group_of(base, page_size, members.push(o), name) == with_member(
            base,
            page_size,
            group_of(base, page_size, members, name),
            o,
        ),
{
    let more = members.push(o);
    let a = group_of(base, page_size, more, name);
    let b = with_member(base, page_size, group_of(base, page_size, members, name), o);
    assert(more.drop_last() == members);
    assert(pids_of(more) == pids_of(members).push(o.pid));
    assert(a.pids == b.pids);
    if a.own {
        assert forall|i: int| 0 <= i < members.len() implies (#[trigger] members[i]).own by {
            assert(more[i] == members[i]);
        }
        assert(more[members.len() as int].own);
    }
    assert(a == b);
}

/// Whether the numbers of `g` are such as `n` processes can come to.
pub open spec fn within(g: GroupView, n: int) -> bool {
    &&& g.count <= n
    &&& g.ticks <= n * 0x2_0000_0000_0000_0000
    &&& g.mem <= n * 0x1_0000_0000_0000_0000_0000_0000
    &&& g.read <= n * 0x1_0000_0000_0000_0000
    &&& g.write <= n * 0x1_0000_0000_0000_0000
}

/// By how much a counter has grown.
fn grown(now: u128, before: u128) -> (r: u128)
    ensures
        r == growth(now as int, before as int),
{
    if now > before {
        now - before
    } else {
        0
    }
}

/// Where the group `name` stands in `groups`.
fn group_index(groups: &Vec<Group>, name: &str) -> (r: Option<usize>)
    ensures
        r is None ==> forall|k: int|
            0 <= k < groups@.len() ==> (#[trigger] groups@[k]).name@ != name@,
        r is Some ==> r->0 < groups@.len() && groups@[r->0 as int].name@ == name@,
{
    let mut i: usize = 0;
    while i < groups.len()
        invariant
            i <= groups@.len(),
            forall|k: int| 0 <= k < i ==> (#[trigger] groups@[k]).name@ != name@,
        decreases groups.len() - i,
    {
        if same_str(groups[i].name.as_str(), name) {
            return Some(i);
        }
        i = i + 1;
    }
    None
}

/// The counters that a sample is held against: those of the last one, if any time
/// has passed since.
pub open spec fn baseline(prev: Map<u32, Counters>, timed: bool) -> Baseline {
    if timed {
        prev
    } else {
        Map::empty()
    }
}

/// What the process `o` has used since the last sample: ticks, bytes read, bytes
/// written.
fn used(prev: &HashMap<u32, Counters>, timed: bool, o: &Observation) -> (r: (u128, u128, u128))
    ensures
        r.0 == ticks_since(baseline(prev@, timed))(o@),
        r.1 == read_since(baseline(prev@, timed))(o@),
        r.2 == written_since(baseline(prev@, timed))(o@),
        r.0 < 0x2_0000_0000_0000_0000,
        r.1 < 0x1_0000_0000_0000_0000,
        r.2 < 0x1_0000_0000_0000_0000,
{
    broadcast use vstd::std_specs::hash::group_hash_axioms;

    if !timed {
        return (0, 0, 0);
    }
    match prev.get(&o.pid) {
        Some(before) => (
            grown(o.utime as u128 + o.stime as u128, before.ticks),
            grown(o.read_bytes as u128, before.read_bytes as u128),
            grown(o.write_bytes as u128, before.write_bytes as u128),
        ),
        None => (0, 0, 0),
    }
}

/// The product of a number of pages and their size.
fn page_bytes(pages: u64, page_size: u32) -> (r: u128)
    ensures
        r == pages * page_size,
        r < 0x1_0000_0000_0000_0000_0000_0000,
{
    assert(0 <= pages * page_size <= u64::MAX * u32::MAX) by (nonlinear_arith)
        requires
            0 <= pages <= u64::MAX,
            0 <= page_size <= u32::MAX,
    ;
    pages as u128 * page_size as u128
}

/// The groups that the processes `obs` make.
pub fn gather(
    prev: &HashMap<u32, Counters>,
    timed: bool,
    page_size: u32,
    obs: &Vec<Observation>,
) -> (r: Vec<Group>)
    requires
        obs@.len() <= stat::PROCESS_SCAN_LIMIT,
    ensures
        rank::views(r@) == groups_of(
            baseline(prev@, timed),
            page_size as nat,
            rank::views(obs@),
        ),
        forall|k: int| 0 <= k < r@.len() ==> within((#[trigger] r@[k])@, obs@.len() as int),
{
    let ghost base = baseline(prev@, timed);
    let ghost size = page_size as nat;
    let ghost all = rank::views(obs@);
    let mut groups: Vec<Group> = Vec::new();
    let mut i: usize = 0;
    assert(rank::views(groups@) == groups_of(base, size, all.take(0)));
    while i < obs.len()
        invariant
            i <= obs@.len() <= stat::PROCESS_SCAN_LIMIT,
            base == baseline(prev@, timed),
            size == page_size as nat,
            all == rank::views(obs@),
            rank::views(groups@) == groups_of(base, size, all.take(i as int)),
            forall|k: int| 0 <= k < groups@.len() ==> within((#[trigger] groups@[k])@, i as int),
        decreases obs.len() - i,
    {
        let o: &Observation = &obs[i];
        let (ticks, read, write) = used(prev, timed, o);
        let mem: u128 = page_bytes(o.pages, page_size);
        let ghost seen = all.take(i as int);
        let ghost before = groups@;
        let ghost old_views = rank::views(before);
        proof {
            assert(all.take(i + 1) == seen.push(o@));
            assert(mem == resident_bytes(size)(o@));
            cluster::lemma_one_more(seen, name_of(), grouping(base, size), o@);
            cluster::names_are_those_of_items(seen, name_of());
        }
        match group_index(&groups, o.name.as_str()) {
            Some(k) => {
                let g: &mut Group = &mut groups[k];
                g.own = g.own && o.own;
                if g.pids.len() < END_PID_LIMIT {
                    g.pids.push(o.pid);
                }
                g.ticks = g.ticks + ticks;
                g.mem = g.mem + mem;
                g.read = g.read + read;
                g.write = g.write + write;
                g.count = g.count + 1;
                proof {
                    let now = groups_of(base, size, all.take(i + 1));
                    let names = cluster::names_in(seen, name_of());
                    let k = k as int;
                    let was = groups_of(base, size, seen);
                    assert(old_views[k] == before[k]@);
                    assert(old_views == was);
                    assert(was[k].name == names[k]);
                    assert(names.contains(names[k]));
                    lemma_joins(
                        base,
                        size,
                        cluster::members(seen, name_of(), names[k]),
                        names[k],
                        o@,
                    );
                    assert forall|j: int| 0 <= j < now.len() implies rank::views(groups@)[j]
                        == now[j] by {
                        assert(old_views[j] == before[j]@);
                        assert(was[j].name == names[j]);
                        if j == k {
                            assert(groups@[k]@ == with_member(base, size, old_views[k], o@));
                        } else {
                            assert(names[j] != names[k]);
                            assert(groups@[j] == before[j]);
                        }
                    }
                    assert(rank::views(groups@) == now);
                }
            },
            None => {
                let mut pids: Vec<u32> = Vec::new();
                pids.push(o.pid);
                groups.push(
                    Group {
                        name: o.name.clone(),
                        pid: o.pid,
                        ticks,
                        mem,
                        read,
                        write,
                        count: 1,
                        pids,
                        own: o.own,
                    },
                );
                proof {
                    let names = cluster::names_in(seen, name_of());
                    if names.contains(o@.name) {
                        let j = choose|j: int| 0 <= j < names.len() && names[j] == o@.name;
                        assert(old_views[j] == before[j]@);
                        assert(groups_of(base, size, seen)[j].name == names[j]);
                    }
                    let alone = seq![o@];
                    assert(alone.drop_last() == Seq::<ObservationView>::empty());
                    assert(pids_of(alone) == seq![o.pid]);
                    reveal_with_fuel(cluster::sum, 2);
                    let made = group_of(base, size, alone, o@.name);
                    assert(alone[0].own == made.own);
                    assert(groups@.last()@.pids == made.pids);
                    assert(groups@.last()@ == made);
                    assert(rank::views(groups@) == old_views.push(made));
                }
            },
        }
        i = i + 1;
    }
    assert(all.take(all.len() as int) == all);
    groups
}

/// How many processes a group has.
pub open spec fn size() -> spec_fn(GroupView) -> nat {
    |g: GroupView| g.count
}

/// The clock ticks of a group.
pub open spec fn ticks() -> spec_fn(GroupView) -> nat {
    |g: GroupView| g.ticks
}

/// The memory of a group.
pub open spec fn memory() -> spec_fn(GroupView) -> nat {
    |g: GroupView| g.mem
}

/// The bytes that a group has read.
pub open spec fn bytes_read() -> spec_fn(GroupView) -> nat {
    |g: GroupView| g.read
}

/// The bytes that a group has written.
pub open spec fn bytes_written() -> spec_fn(GroupView) -> nat {
    |g: GroupView| g.write
}

/// Every process is in the group of its name, and in no other: no two groups go by one
/// name, and over all groups the processes and all that they have used add up.
pub proof fn groups_account_for_every_process(
    base: Baseline,
    page_size: nat,
    obs: Seq<ObservationView>,
)
    ensures
        ({
            let gs = groups_of(base, page_size, obs);
            &&& forall|i: int|
                0 <= i < obs.len() ==> exists|k: int|
                    0 <= k < gs.len() && (#[trigger] gs[k]).name == (#[trigger] obs[i]).name
            &&& forall|j: int, k: int|
                0 <= j < k < gs.len() ==> (#[trigger] gs[j]).name != (#[trigger] gs[k]).name
            &&& cluster::sum(gs, size()) == obs.len()
            &&& cluster::sum(gs, ticks()) == cluster::sum(obs, ticks_since(base))
            &&& cluster::sum(gs, memory()) == cluster::sum(obs, resident_bytes(page_size))
            &&& cluster::sum(gs, bytes_read()) == cluster::sum(obs, read_since(base))
            &&& cluster::sum(gs, bytes_written()) == cluster::sum(obs, written_since(base))
        }),
{
    let gs = groups_of(base, page_size, obs);
    let names = cluster::names_in(obs, name_of());
    let make = grouping(base, page_size);
    cluster::names_are_those_of_items(obs, name_of());
    assert forall|k: int| 0 <= k < gs.len() implies (#[trigger] gs[k]).name == names[k] by {}
    assert forall|i: int| 0 <= i < obs.len() implies exists|k: int|
        0 <= k < gs.len() && (#[trigger] gs[k]).name == (#[trigger] obs[i]).name by {
        assert(names.contains(name_of()(obs[i])));
        let k = choose|k: int| 0 <= k < names.len() && names[k] == obs[i].name;
        assert(gs[k].name == obs[i].name);
    }
    assert forall|j: int, k: int| 0 <= j < k < gs.len() implies (#[trigger] gs[j]).name != (
    #[trigger] gs[k]).name by {
        assert(names[j] != names[k]);
    }
    assert forall|ms: Seq<ObservationView>, name: Seq<char>| size()(
        #[trigger] make(ms, name),
    ) == cluster::sum(ms, cluster::one()) by {
        cluster::lemma_sum_of_ones(ms);
    }
    cluster::clusters_add_up(obs, name_of(), make, cluster::one(), size());
    cluster::lemma_sum_of_ones(obs);
    cluster::clusters_add_up(obs, name_of(), make, ticks_since(base), ticks());
    cluster::clusters_add_up(obs, name_of(), make, resident_bytes(page_size), memory());
    cluster::clusters_add_up(obs, name_of(), make, read_since(base), bytes_read());
    cluster::clusters_add_up(obs, name_of(), make, written_since(base), bytes_written());
}

/// A group can be ended only as a whole: when all of its processes are the user's own and
/// few enough to list, these are its processes; else there are none.
pub proof fn only_whole_groups_can_be_ended(
    base: Baseline,
    page_size: nat,
    members: Seq<ObservationView>,
    name: Seq<char>,
)
    ensures
        ({
            let g = group_of(base, page_size, members, name);
            let own = forall|i: int| 0 <= i < members.len() ==> (#[trigger] members[i]).own;
            endable(g.own, g.pids, g.count) == (if own && members.len() <= END_PID_LIMIT {
                pids_of(members)
            } else {
                seq![]
            })
        }),
{
}

/// Whether none of the counters of `o` is higher than before; one that has none from
/// before is as good.
pub open spec fn has_not_grown(base: Baseline, o: ObservationView) -> bool {
    base.contains_key(o.pid) ==> {
        &&& o.utime + o.stime <= base[o.pid].ticks
        &&& o.read_bytes <= base[o.pid].read_bytes
        &&& o.write_bytes <= base[o.pid].write_bytes
    }
}

/// Processes whose counters have not grown, and those first seen, have used nothing, and
/// so have their groups.
pub proof fn unchanged_counters_show_no_use(
    base: Baseline,
    page_size: nat,
    obs: Seq<ObservationView>,
)
    requires
        forall|i: int| 0 <= i < obs.len() ==> has_not_grown(base, #[trigger] obs[i]),
    ensures
        forall|k: int|
            0 <= k < groups_of(base, page_size, obs).len() ==> ({
                let g = #[trigger] groups_of(base, page_size, obs)[k];
                g.ticks == 0 && g.read == 0 && g.write == 0
            }),
{
    let gs = groups_of(base, page_size, obs);
    let names = cluster::names_in(obs, name_of());
    assert forall|k: int| 0 <= k < gs.len() implies ({
        let g = #[trigger] gs[k];
        g.ticks == 0 && g.read == 0 && g.write == 0
    }) by {
        let ms = cluster::members(obs, name_of(), names[k]);
        assert(gs[k] == group_of(base, page_size, ms, names[k]));
        assert forall|i: int| 0 <= i < ms.len() implies has_not_grown(base, #[trigger] ms[i]) by {
            cluster::lemma_members(obs, name_of(), names[k], i);
            let j = choose|j: int| 0 <= j < obs.len() && obs[j] == ms[i];
            assert(has_not_grown(base, obs[j]));
        }
        cluster::lemma_sum_of_nothing(ms, ticks_since(base));
        cluster::lemma_sum_of_nothing(ms, read_since(base));
        cluster::lemma_sum_of_nothing(ms, written_since(base));
    }
}

} // verus!
