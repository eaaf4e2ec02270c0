//! Network traffic by process.

use crate::cluster;
use crate::groups;
use crate::groups::FULL_LIMIT;
use crate::names;
use crate::names::cgroup_label;
use crate::rank;
use crate::rank::{arranged, Ranked};
use crate::sockets;
use crate::sockets::{Sock, SockView, SocketTable};
use crate::table::TextMap;
use crate::text;
use crate::text::{
    after_prefix, before_suffix, chars_of, comes_before, same_str, string_of,
};
use std::collections::HashSet;
use vstd::prelude::*;

verus! {

/// The most open files of one process that are looked at.
pub const FD_SCAN_LIMIT: usize = 4096;

/// How many lines a short list of traffic has.
pub const CONNECTION_LIMIT: usize = 12;

/// A process and what its open files are links to.
#[derive(Debug)]
pub struct SocketHolder {
    pub pid: u32,
    pub name: String,
    /// One for each open file; none where the link cannot be read.
    pub targets: Vec<Option<String>>,
}

/// The model of a [`SocketHolder`].
pub struct HolderView {
    pub pid: u32,
    pub name: Seq<char>,
    pub targets: Seq<Option<Seq<char>>>,
}

impl View for SocketHolder {
    type V = HolderView;

    open spec fn view(&self) -> HolderView {
        HolderView {
            pid: self.pid,
            name: self.name@,
            targets: self.targets@.map_values(|t: Option<String>| text::viewed(t)),
        }
    }
}

/// The inode of the socket that a link leads to.
pub open spec fn socket_inode(target: Seq<char>) -> Option<Seq<char>> {
    match text::strip_prefix(target, "socket:["@) {
        Some(rest) => text::strip_suffix(rest, "]"@),
        None => None,
    }
}

/// A socket, by its inode, and a process that has it open.
#[verifier::ext_equal]
pub struct HoldingView {
    pub ino: Seq<char>,
    pub pid: u32,
    pub name: Seq<char>,
}

/// The sockets that the first `n` open files of `h` lead to.
pub open spec fn held_by(h: HolderView, n: nat) -> Seq<HoldingView>
    decreases n,
{
    if n == 0 {
        seq![]
    } else {
        let before = held_by(h, (n - 1) as nat);
        match h.targets[n - 1] {
            Some(target) => match socket_inode(target) {
                Some(ino) => before.push(HoldingView { ino, pid: h.pid, name: h.name }),
                None => before,
            },
            None => before,
        }
    }
}

/// How many of the open files of `h` are looked at.
pub open spec fn looked_at(h: HolderView) -> nat {
    if h.targets.len() > FD_SCAN_LIMIT {
        FD_SCAN_LIMIT as nat
    } else {
        h.targets.len()
    }
}

/// The sockets that the processes `hs` have open, process by process.
pub open spec fn holdings(hs: Seq<HolderView>) -> Seq<HoldingView>
    decreases hs.len(),
{
    if hs.len() == 0 {
        seq![]
    } else {
        holdings(hs.drop_last()) + held_by(hs.last(), looked_at(hs.last()))
    }
}

/// Who has the socket `ino`: the process found last to have it open.
pub open spec fn owner(held: Seq<HoldingView>, ino: Seq<char>) -> Option<HoldingView>
    decreases held.len(),
{
    if held.len() == 0 {
        None
    } else if held.last().ino == ino {
        Some(held.last())
    } else {
        owner(held.drop_last(), ino)
    }
}

/// Bytes sent and received by socket, at the last sample.
pub type SocketCounters = Map<Seq<char>, (u64, u64)>;

/// What went through one socket since the last sample.
#[verifier::ext_equal]
pub struct FlowView {
    pub name: Seq<char>,
    pub pid: u32,
    pub established: bool,
    pub rx: nat,
    pub tx: nat,
}

/// What went through the socket `s`: it goes by the name of its owner or, where none
/// is known, by that of its cgroup.
pub open spec fn flow(held: Seq<HoldingView>, base: SocketCounters, s: SockView) -> FlowView {
    let by = owner(held, s.ino);
    let known = base.contains_key(s.ino);
    FlowView {
        name: match by {
            Some(h) => h.name,
            None => names::label(s.cgroup),
        },
        pid: match by {
            Some(h) => h.pid,
            None => 0,
        },
        established: s.established,
        tx: if known {
            groups::growth(s.sent as int, base[s.ino].0 as int)
        } else {
            0
        },
        rx: if known {
            groups::growth(s.recv as int, base[s.ino].1 as int)
        } else {
            0
        },
    }
}

/// What went through the sockets `socks`.
pub open spec fn flows(
    held: Seq<HoldingView>,
    base: SocketCounters,
    socks: Seq<SockView>,
) -> Seq<FlowView> {
    socks.map_values(|s: SockView| flow(held, base, s))
}

/// The name that a flow goes by.
pub open spec fn flow_name() -> spec_fn(FlowView) -> Seq<char> {
    |f: FlowView| f.name
}

/// One for a connection that is established.
pub open spec fn connection() -> spec_fn(FlowView) -> nat {
    |f: FlowView|
        if f.established {
            1nat
        } else {
            0nat
        }
}

/// The bytes received.
pub open spec fn received() -> spec_fn(FlowView) -> nat {
    |f: FlowView| f.rx
}

/// The bytes sent.
pub open spec fn sent() -> spec_fn(FlowView) -> nat {
    |f: FlowView| f.tx
}

/// The traffic of the processes that go by one name.
#[verifier::ext_equal]
pub struct NetView {
    pub name: Seq<char>,
    pub pid: u32,
    pub pids: Set<u32>,
    pub connections: nat,
    pub rx: nat,
    pub tx: nat,
}

/// The numbers of the processes in `fs`.
pub open spec fn flow_pids(fs: Seq<FlowView>) -> Seq<u32> {
    fs.map_values(|f: FlowView| f.pid)
}

/// What the flows that go by one name make.
pub open spec fn net_grouping() -> spec_fn(Seq<FlowView>, Seq<char>) -> NetView {
    |fs: Seq<FlowView>, name: Seq<char>|
        NetView {
            name,
            pid: fs[0].pid,
            pids: flow_pids(fs).to_set(),
            connections: cluster::sum(fs, connection()),
            rx: cluster::sum(fs, received()),
            tx: cluster::sum(fs, sent()),
        }
}

/// The traffic of the flows `fs` by name, as the names first occur.
pub open spec fn nets_of(fs: Seq<FlowView>) -> Seq<NetView> {
    cluster::clusters(fs, flow_name(), net_grouping())
}

/// A group and all its traffic.
#[verifier::ext_equal]
pub struct NetLineView {
    pub traffic: nat,
    pub group: NetView,
}

/// The groups `gs`, each with all its traffic.
pub open spec fn net_lines(gs: Seq<NetView>) -> Seq<NetLineView> {
    gs.map_values(|g: NetView| NetLineView { traffic: g.rx + g.tx, group: g })
}

/// The groups with a connection or any traffic.
pub open spec fn is_active() -> spec_fn(NetLineView) -> bool {
    |l: NetLineView| l.group.connections > 0 || l.traffic > 0
}

/// The model of a [`NetRow`].
#[verifier::ext_equal]
pub struct NetRowView {
    pub name: Seq<char>,
    pub pid: u32,
    pub count: nat,
    pub connections: nat,
    pub rx: nat,
    pub tx: nat,
}

/// One line of a list of traffic.
#[derive(Debug)]
pub struct NetRow {
    pub name: String,
    pub pid: u32,
    /// How many processes.
    pub count: usize,
    pub connections: u32,
    /// Bytes received since the last sample.
    pub rx: u128,
    /// Bytes sent since the last sample.
    pub tx: u128,
}

impl View for NetRow {
    type V = NetRowView;

    open spec fn view(&self) -> NetRowView {
        NetRowView {
            name: self.name@,
            pid: self.pid,
            count: self.count as nat,
            connections: self.connections as nat,
            rx: self.rx as nat,
            tx: self.tx as nat,
        }
    }
}

/// The line of a group.
pub open spec fn net_row(l: NetLineView) -> NetRowView {
    NetRowView {
        name: l.group.name,
        pid: l.group.pid,
        count: l.group.pids.len(),
        connections: l.group.connections,
        rx: l.group.rx,
        tx: l.group.tx,
    }
}

/// The list of the groups `gs`: the active ones, from most to least traffic, then
/// from most to least connections, then by name.
pub open spec fn net_rows(gs: Seq<NetView>, full: bool) -> Seq<NetRowView> {
    let limit = if full {
        FULL_LIMIT as int
    } else {
        CONNECTION_LIMIT as int
    };
    cluster::first(
        rank::arrange::<NetLine>(net_lines(gs).filter(is_active())),
        limit,
    ).map_values(|l: NetLineView| net_row(l))
}

/// The traffic of the processes that go by one name.
pub struct NetGroup {
    name: String,
    pid: u32,
    pids: HashSet<u32>,
    connections: u32,
    rx: u128,
    tx: u128,
}

impl View for NetGroup {
    type V = NetView;

    closed spec fn view(&self) -> NetView {
        NetView {
            name: self.name@,
            pid: self.pid,
            pids: self.pids@,
            connections: self.connections as nat,
            rx: self.rx as nat,
            tx: self.tx as nat,
        }
    }
}

/// A group and all its traffic.
pub struct NetLine {
    traffic: u128,
    group: NetGroup,
}

impl View for NetLine {
    type V = NetLineView;

    closed spec fn view(&self) -> NetLineView {
        NetLineView { traffic: self.traffic as nat, group: self.group@ }
    }
}

impl Ranked for NetLine {
    open spec fn before(a: NetLineView, b: NetLineView) -> bool {
        ||| a.traffic > b.traffic
        ||| a.traffic == b.traffic && a.group.connections > b.group.connections
        ||| a.traffic == b.traffic && a.group.connections == b.group.connections && text::less(
            a.group.name,
            b.group.name,
        )
    }

    proof fn before_is_strict(a: NetLineView, b: NetLineView) {
        text::lemma_less_strict(a.group.name, b.group.name);
    }

    proof fn before_is_weak(a: NetLineView, b: NetLineView, c: NetLineView) {
        text::lemma_less_weak(a.group.name, b.group.name, c.group.name);
    }

    fn goes_before(&self, other: &Self) -> (r: bool) {
        self.traffic > other.traffic || (self.traffic == other.traffic && (self.group.connections
            > other.group.connections || (self.group.connections == other.group.connections
            && comes_before(self.group.name.as_str(), other.group.name.as_str()))))
    }
}

/// The inode of the socket that a link leads to.
pub fn parse_socket_inode(target: &str) -> (r: Option<String>)
    ensures
        text::viewed(r) == socket_inode(target@),
{
    let chars: Vec<char> = chars_of(target);
    match after_prefix(chars.as_slice(), "socket:[") {
        Some(rest) => match before_suffix(rest, "]") {
            Some(ino) => Some(string_of(ino)),
            None => None,
        },
        None => None,
    }
}

/// Whether a process with open files that lead to `targets` has one of `sockets`
/// open, so that its name is asked for.
pub fn holds_any(sockets: &SocketTable, targets: &Vec<Option<String>>) -> (r: bool)
    ensures
        r == exists|i: int, k: int|
            #![trigger targets@[i], sockets@[k]]
            0 <= i < targets@.len() && i < FD_SCAN_LIMIT && 0 <= k < sockets@.len()
                && targets@[i] is Some && socket_inode(targets@[i]->0@) == Some(sockets@[k].ino),
{
    let mut i: usize = 0;
    while i < targets.len() && i < FD_SCAN_LIMIT
        invariant
            i <= targets@.len(),
            i <= FD_SCAN_LIMIT,
            forall|j: int, k: int|
                #![trigger targets@[j], sockets@[k]]
                0 <= j < i && 0 <= k < sockets@.len() && targets@[j] is Some ==> socket_inode(
                    targets@[j]->0@,
                ) != Some(sockets@[k].ino),
        decreases targets.len() - i,
    {
        if let Some(target) = &targets[i] {
            if let Some(ino) = parse_socket_inode(target.as_str()) {
                if sockets.holds(ino.as_str()) {
                    return true;
                }
            }
        }
        i = i + 1;
    }
    false
}

/// A socket and a process that has it open.
struct Holding<'a> {
    ino: String,
    holder: &'a SocketHolder,
}

impl<'a> View for Holding<'a> {
    type V = HoldingView;

    closed spec fn view(&self) -> HoldingView {
        HoldingView { ino: self.ino@, pid: self.holder.pid, name: self.holder.name@ }
    }
}

/// The sockets that the processes `holders` have open.
fn list_holdings<'a>(holders: &'a Vec<SocketHolder>) -> (r: Vec<Holding<'a>>)
    ensures
        rank::views(r@) == holdings(rank::views(holders@)),
{
    let ghost hs = rank::views(holders@);
    let mut out: Vec<Holding<'a>> = Vec::new();
    let mut i: usize = 0;
    assert(rank::views(out@) == holdings(hs.take(0)));
    while i < holders.len()
        invariant
            i <= holders@.len(),
            hs == rank::views(holders@),
            rank::views(out@) == holdings(hs.take(i as int)),
        decreases holders.len() - i,
    {
        let holder: &'a SocketHolder = &holders[i];
        let ghost h = holder@;
        let ghost begun = rank::views(out@);
        let mut n: usize = 0;
        assert(hs[i as int] == h);
        assert(begun == begun + held_by(h, 0));
        while n < holder.targets.len() && n < FD_SCAN_LIMIT
            invariant
                n <= holder.targets@.len(),
                n <= FD_SCAN_LIMIT,
                h == holder@,
                rank::views(out@) == begun + held_by(h, n as nat),
            decreases holder.targets.len() - n,
        {
            let ghost before = out@;
            assert(h.targets[n as int] == text::viewed(holder.targets@[n as int]));
            if let Some(target) = &holder.targets[n] {
                if let Some(ino) = parse_socket_inode(target.as_str()) {
                    out.push(Holding { ino, holder });
                    assert(rank::views(out@) == rank::views(before).push(out@.last()@));
                }
            }
            n = n + 1;
            assert(rank::views(out@) == begun + held_by(h, n as nat));
        }
        assert(looked_at(h) == n);
        i = i + 1;
        assert(hs.take(i as int).drop_last() == hs.take(i - 1));
    }
    assert(hs.take(hs.len() as int) == hs);
    out
}

/// Who has the socket `ino`.
fn find_owner<'a, 'b>(held: &'b Vec<Holding<'a>>, ino: &str) -> (r: Option<&'b Holding<'a>>)
    ensures
        match r {
            Some(h) => owner(rank::views(held@), ino@) == Some(h@),
            None => owner(rank::views(held@), ino@) is None,
        },
{
    let ghost all = rank::views(held@);
    let mut n: usize = held.len();
    assert(all.take(n as int) == all);
    while n > 0
        invariant
            n <= held@.len(),
            all == rank::views(held@),
            owner(all.take(n as int), ino@) == owner(all, ino@),
        decreases n,
    {
        proof {
            assert(all.take(n as int).last() == held@[n - 1]@);
            assert(all.take(n as int).drop_last() == all.take(n - 1));
        }
        if same_str(held[n - 1].ino.as_str(), ino) {
            return Some(&held[n - 1]);
        }
        n = n - 1;
    }
    None
}

/// What went through one socket since the last sample.
struct Flow {
    name: String,
    pid: u32,
    established: bool,
    rx: u64,
    tx: u64,
}

impl View for Flow {
    type V = FlowView;

    closed spec fn view(&self) -> FlowView {
        FlowView {
            name: self.name@,
            pid: self.pid,
            established: self.established,
            rx: self.rx as nat,
            tx: self.tx as nat,
        }
    }
}

/// The counters that a sample of sockets is held against.
pub open spec fn socket_baseline(prev: SocketCounters, usable: bool) -> SocketCounters {
    if usable {
        prev
    } else {
        Map::empty()
    }
}

/// By how much a counter has grown.
fn grown(now: u64, before: u64) -> (r: u64)
    ensures
        r == groups::growth(now as int, before as int),
{
    if now > before {
        now - before
    } else {
        0
    }
}

/// What went through the socket `s` since the last sample.
fn flow_of(held: &Vec<Holding>, prev: &TextMap<(u64, u64)>, usable: bool, s: &Sock) -> (r: Flow)
    ensures
        r@ == flow(rank::views(held@), socket_baseline(prev@, usable), s@),
{
    let (name, pid): (String, u32) = match find_owner(held, s.ino.as_str()) {
        Some(h) => (h.holder.name.clone(), h.holder.pid),
        None => (cgroup_label(s.cgroup.as_str()), 0),
    };
    let mut rx: u64 = 0;
    let mut tx: u64 = 0;
    if usable {
        if let Some(before) = prev.get(s.ino.as_str()) {
            tx = grown(s.sent, before.0);
            rx = grown(s.recv, before.1);
        }
    }
    Flow { name, pid, established: s.established, rx, tx }
}

/// Whether the numbers of `g` are such as `n` sockets can come to.
spec fn net_within(g: NetView, n: int) -> bool {
    &&& g.connections <= n
    &&& g.rx <= n * 0x1_0000_0000_0000_0000
    &&& g.tx <= n * 0x1_0000_0000_0000_0000
    &&& g.pids.finite()
}

/// Where the group `name` stands in `gs`.
fn net_index(gs: &Vec<NetGroup>, name: &str) -> (r: Option<usize>)
    ensures
        r is None ==> forall|k: int|
            0 <= k < gs@.len() ==> (#[trigger] gs@[k]).name@ != name@,
        r is Some ==> r->0 < gs@.len() && gs@[r->0 as int].name@ == name@,
{
    let mut i: usize = 0;
    while i < gs.len()
        invariant
            i <= gs@.len(),
            forall|k: int| 0 <= k < i ==> (#[trigger] gs@[k]).name@ != name@,
        decreases gs.len() - i,
    {
        if same_str(gs[i].name.as_str(), name) {
            return Some(i);
        }
        i = i + 1;
    }
    None
}

/// One more flow joins a group.
proof fn lemma_flow_joins(fs: Seq<FlowView>, name: Seq<char>, f: FlowView)
    requires
        fs.len() > 0,
    ensures
        net_grouping()(fs.push(f), name) == (NetView {
            pids: net_grouping()(fs, name).pids.insert(f.pid),
            connections: net_grouping()(fs, name).connections + connection()(f),
            rx: net_grouping()(fs, name).rx + f.rx,
            tx: net_grouping()(fs, name).tx + f.tx,
            ..net_grouping()(fs, name)
        }),
{
    let more = fs.push(f);
    assert(more.drop_last() == fs);
    assert(flow_pids(more) == flow_pids(fs).push(f.pid));
    flow_pids(fs).lemma_push_to_set_commute(f.pid);
}

/// The traffic of the flows of `sockets`, by name.
fn gather_nets(
    held: &Vec<Holding>,
    prev: &TextMap<(u64, u64)>,
    usable: bool,
    sockets: &SocketTable,
) -> (r: Vec<NetGroup>)
    ensures
        rank::views(r@) == nets_of(
            flows(rank::views(held@), socket_baseline(prev@, usable), sockets@),
        ),
        forall|k: int|
            0 <= k < r@.len() ==> net_within(
                (#[trigger] r@[k])@,
                sockets::SOCKET_SCAN_LIMIT as int,
            ),
{
    broadcast use vstd::std_specs::hash::group_hash_axioms;

    let ghost fs = flows(rank::views(held@), socket_baseline(prev@, usable), sockets@);
    let n: usize = sockets.len();
    let mut out: Vec<NetGroup> = Vec::new();
    let mut i: usize = 0;
    assert(rank::views(out@) == nets_of(fs.take(0)));
    while i < n
        invariant
            i <= n <= sockets::SOCKET_SCAN_LIMIT,
            n == sockets@.len(),
            fs == flows(rank::views(held@), socket_baseline(prev@, usable), sockets@),
            rank::views(out@) == nets_of(fs.take(i as int)),
            forall|k: int| 0 <= k < out@.len() ==> net_within((#[trigger] out@[k])@, i as int),
        decreases n - i,
    {
        let f: Flow = flow_of(held, prev, usable, sockets.at(i));
        let ghost seen = fs.take(i as int);
        let ghost before = out@;
        let ghost old_views = rank::views(before);
        let ghost all_names = cluster::names_in(seen, flow_name());
        proof {
            assert(fs[i as int] == f@);
            assert(fs.take(i + 1) == seen.push(f@));
            cluster::lemma_one_more(seen, flow_name(), net_grouping(), f@);
            cluster::names_are_those_of_items(seen, flow_name());
        }
        let ghost fv = f@;
        match net_index(&out, f.name.as_str()) {
            Some(k) => {
                let g: &mut NetGroup = &mut out[k];
                g.pids.insert(f.pid);
                if f.established {
                    g.connections = g.connections + 1;
                }
                g.rx = g.rx + f.rx as u128;
                g.tx = g.tx + f.tx as u128;
                proof {
                    let now = nets_of(fs.take(i + 1));
                    let k = k as int;
                    let was = nets_of(seen);
                    assert(old_views[k] == before[k]@);
                    assert(was[k].name == all_names[k]);
                    assert(all_names.contains(all_names[k]));
                    lemma_flow_joins(
                        cluster::members(seen, flow_name(), all_names[k]),
                        all_names[k],
                        fv,
                    );
                    assert forall|j: int| 0 <= j < now.len() implies rank::views(out@)[j]
                        == now[j] by {
                        assert(old_views[j] == before[j]@);
                        assert(was[j].name == all_names[j]);
                        if j == k {
                            assert(out@[k]@.pids == now[k].pids);
                            assert(out@[k]@ == now[k]);
                        } else {
                            assert(all_names[j] != all_names[k]);
                            assert(out@[j] == before[j]);
                        }
                    }
                    assert(rank::views(out@) == now);
                }
            },
            None => {
                let mut pids: HashSet<u32> = HashSet::new();
                pids.insert(f.pid);
                out.push(
                    NetGroup {
                        name: f.name,
                        pid: f.pid,
                        pids,
                        connections: if f.established {
                            1
                        } else {
                            0
                        },
                        rx: f.rx as u128,
                        tx: f.tx as u128,
                    },
                );
                proof {
                    if all_names.contains(fv.name) {
                        let j = choose|j: int|
                            0 <= j < all_names.len() && all_names[j] == fv.name;
                        assert(old_views[j] == before[j]@);
                        assert(nets_of(seen)[j].name == all_names[j]);
                    }
                    let alone = seq![fv];
                    let made = net_grouping()(alone, fv.name);
                    reveal_with_fuel(cluster::sum, 2);
                    assert(alone.drop_last() == Seq::<FlowView>::empty());
                    assert(flow_pids(alone) == seq![fv.pid]);
                    assert(seq![fv.pid].to_set() == Set::<u32>::empty().insert(fv.pid)) by {
                        assert(seq![fv.pid][0] == fv.pid);
                        assert(seq![fv.pid].to_set() =~= Set::<u32>::empty().insert(fv.pid));
                    }
                    assert(out@.last()@ == made);
                    assert(rank::views(out@) == old_views.push(made));
                }
            },
        }
        i = i + 1;
    }
    assert(fs.take(fs.len() as int) == fs);
    out
}

/// The active groups of `gs`, each with all its traffic.
fn active_lines(gs: Vec<NetGroup>) -> (r: Vec<NetLine>)
    requires
        forall|k: int|
            0 <= k < gs@.len() ==> net_within(
                (#[trigger] gs@[k])@,
                sockets::SOCKET_SCAN_LIMIT as int,
            ),
    ensures
        rank::views(r@) == net_lines(rank::views(gs@)).filter(is_active()),
        forall|k: int| 0 <= k < r@.len() ==> (#[trigger] r@[k])@.group.pids.finite(),
{
    let ghost groups = gs@;
    let ghost ls = net_lines(rank::views(gs@));
    let mut out: Vec<NetLine> = Vec::new();
    proof {
        reveal(Seq::filter);
        assert(rank::views(out@) == ls.take(0).filter(is_active()));
    }
    for group in it: gs
        invariant
            it.seq() == groups,
            ls == net_lines(rank::views(groups)),
            forall|k: int|
                0 <= k < groups.len() ==> net_within(
                    (#[trigger] groups[k])@,
                    sockets::SOCKET_SCAN_LIMIT as int,
                ),
            rank::views(out@) == ls.take(it.index()).filter(is_active()),
            forall|k: int| 0 <= k < out@.len() ==> (#[trigger] out@[k])@.group.pids.finite(),
    {
        let ghost n = it.index();
        let ghost before = out@;
        proof {
            assert(groups[n] == group);
            assert(net_within(groups[n]@, sockets::SOCKET_SCAN_LIMIT as int));
            assert(ls.take(n + 1) == ls.take(n).push(ls[n]));
            ls.take(n).lemma_filter_push(ls[n], is_active());
        }
        let traffic: u128 = group.rx + group.tx;
        let line: NetLine = NetLine { traffic, group };
        assert(line@ == ls[n]);
        if line.group.connections > 0 || traffic > 0 {
            out.push(line);
            assert(rank::views(out@) == rank::views(before).push(ls[n]));
        }
    }
    assert(ls.take(ls.len() as int) == ls);
    out
}

/// The list of traffic of the processes `holders` and the other sockets of `sockets`.
pub fn traffic_rows(
    sockets: &SocketTable,
    holders: &Vec<SocketHolder>,
    prev: &TextMap<(u64, u64)>,
    usable: bool,
    full: bool,
) -> (r: Vec<NetRow>)
    ensures
        rank::views(r@) == net_rows(
            nets_of(
                flows(
                    holdings(rank::views(holders@)),
                    socket_baseline(prev@, usable),
                    sockets@,
                ),
            ),
            full,
        ),
{
    broadcast use vstd::std_specs::hash::group_hash_axioms;

    let held: Vec<Holding> = list_holdings(holders);
    let groups: Vec<NetGroup> = gather_nets(&held, prev, usable, sockets);
    let ghost gs = rank::views(groups@);
    let lines: Vec<NetLine> = active_lines(groups);
    let ghost ls = net_lines(gs).filter(is_active());
    let ghost came = lines@;
    let sorted: Vec<NetLine> = arranged(lines);
    let ghost shown = rank::arrange::<NetLine>(ls);
    let most: usize = if full {
        FULL_LIMIT
    } else {
        CONNECTION_LIMIT
    };
    let n: usize = if sorted.len() > most {
        most
    } else {
        sorted.len()
    };
    assert(cluster::first(shown, most as int) == shown.take(n as int));
    proof {
        assert forall|k: int| 0 <= k < sorted@.len() implies (
        #[trigger] sorted@[k])@.group.pids.finite() by {
            assert(rank::views(sorted@)[k] == sorted@[k]@);
            rank::lemma_arranged_came_in::<NetLine>(ls, k);
            let j = choose|j: int| 0 <= j < ls.len() && ls[j] == shown[k];
            assert(rank::views(came)[j] == came[j]@);
        }
    }
    let ghost rows = net_rows(gs, full);
    let mut out: Vec<NetRow> = Vec::new();
    let mut i: usize = 0;
    assert(rows == shown.take(n as int).map_values(|l: NetLineView| net_row(l)));
    while i < n
        invariant
            i <= n <= sorted@.len(),
            rank::views(sorted@) == shown,
            rows == shown.take(n as int).map_values(|l: NetLineView| net_row(l)),
            rank::views(out@) == rows.take(i as int),
            forall|k: int|
                0 <= k < sorted@.len() ==> (#[trigger] sorted@[k])@.group.pids.finite(),
        decreases n - i,
    {
        let g: &NetGroup = &sorted[i].group;
        let ghost before = out@;
        assert(sorted@[i as int]@.group.pids.finite());
        let row: NetRow = NetRow {
            name: g.name.clone(),
            pid: g.pid,
            count: g.pids.len(),
            connections: g.connections,
            rx: g.rx,
            tx: g.tx,
        };
        assert(shown[i as int] == sorted@[i as int]@);
        assert(row@ == rows[i as int]);
        out.push(row);
        i = i + 1;
        assert(rank::views(out@) == rank::views(before).push(rows[i - 1]));
    }
    assert(rows.take(n as int) == rows);
    out
}

/// Bytes sent and received by each of the sockets `socks`.
pub open spec fn socket_counters(socks: Seq<SockView>) -> SocketCounters
    decreases socks.len(),
{
    if socks.len() == 0 {
        Map::empty()
    } else {
        let s = socks.last();
        socket_counters(socks.drop_last()).insert(s.ino, (s.sent, s.recv))
    }
}

/// Bytes sent and received by each of the sockets.
pub fn counters_of(sockets: &SocketTable) -> (r: TextMap<(u64, u64)>)
    ensures
        r@ == socket_counters(sockets@),
{
    let mut out: TextMap<(u64, u64)> = TextMap::new();
    let n: usize = sockets.len();
    let mut i: usize = 0;
    assert(out@ == socket_counters(sockets@.take(0)));
    while i < n
        invariant
            i <= n,
            n == sockets@.len(),
            out@ == socket_counters(sockets@.take(i as int)),
        decreases n - i,
    {
        let s: &Sock = sockets.at(i);
        out.insert(s.ino.clone(), (s.sent, s.recv));
        i = i + 1;
        assert(sockets@.take(i as int).drop_last() == sockets@.take(i - 1));
    }
    assert(sockets@.take(n as int) == sockets@);
    out
}

/// The connections of a group.
pub open spec fn group_connections() -> spec_fn(NetView) -> nat {
    |g: NetView| g.connections
}

/// The bytes that a group has received.
pub open spec fn group_received() -> spec_fn(NetView) -> nat {
    |g: NetView| g.rx
}

/// The bytes that a group has sent.
pub open spec fn group_sent() -> spec_fn(NetView) -> nat {
    |g: NetView| g.tx
}

/// Over all groups the connections and the bytes of all sockets add up.
pub proof fn groups_account_for_every_socket(fs: Seq<FlowView>)
    ensures
        cluster::sum(nets_of(fs), group_connections()) == cluster::sum(fs, connection()),
        cluster::sum(nets_of(fs), group_received()) == cluster::sum(fs, received()),
        cluster::sum(nets_of(fs), group_sent()) == cluster::sum(fs, sent()),
{
    cluster::clusters_add_up(fs, flow_name(), net_grouping(), connection(), group_connections());
    cluster::clusters_add_up(fs, flow_name(), net_grouping(), received(), group_received());
    cluster::clusters_add_up(fs, flow_name(), net_grouping(), sent(), group_sent());
}

/// A socket of which nothing is known from before, or whose counters have not grown, has
/// sent and received nothing.
pub proof fn unchanged_sockets_have_no_traffic(
    held: Seq<HoldingView>,
    base: SocketCounters,
    s: SockView,
)
    requires
        base.contains_key(s.ino) ==> s.sent <= base[s.ino].0 && s.recv <= base[s.ino].1,
    ensures
        flow(held, base, s).rx == 0,
        flow(held, base, s).tx == 0,
{
}

/// A list of traffic names a limited number of groups, each with a connection or some
/// traffic, from most to least traffic and, among those with as much as each other, from
/// most to least connections.
pub proof fn traffic_list_is_ordered(gs: Seq<NetView>, full: bool)
    ensures
        ({
            let list = net_rows(gs, full);
            &&& list.len() <= (if full {
                FULL_LIMIT
            } else {
                CONNECTION_LIMIT
            })
            &&& forall|i: int|
                0 <= i < list.len() ==> (#[trigger] list[i]).connections > 0 || list[i].rx
                    + list[i].tx > 0
            &&& forall|i: int, j: int|
                0 <= i < j < list.len() ==> ({
                    let a = #[trigger] list[i];
                    let b = #[trigger] list[j];
                    a.rx + a.tx > b.rx + b.tx || (a.rx + a.tx == b.rx + b.tx && a.connections
                        >= b.connections)
                })
        }),
{
    broadcast use vstd::seq_lib::group_filter_ensures;

    let ls = net_lines(gs).filter(is_active());
    let all = rank::arrange::<NetLine>(ls);
    let list = net_rows(gs, full);
    rank::arrangement_is_in_order::<NetLine>(ls);
    assert forall|i: int| 0 <= i < all.len() implies is_active()(#[trigger] all[i]) && all[i].traffic
        == all[i].group.rx + all[i].group.tx by {
        rank::lemma_arranged_came_in::<NetLine>(ls, i);
        let k = choose|k: int| 0 <= k < ls.len() && ls[k] == all[i];
        assert(is_active()(ls[k]));
        net_lines(gs).lemma_filter_contains_rev(is_active(), ls[k]);
    }
    assert forall|i: int| 0 <= i < list.len() implies (#[trigger] list[i]).connections > 0
        || list[i].rx + list[i].tx > 0 by {
        assert(is_active()(all[i]));
    }
    assert forall|i: int, j: int| 0 <= i < j < list.len() implies ({
        let a = #[trigger] list[i];
        let b = #[trigger] list[j];
        a.rx + a.tx > b.rx + b.tx || (a.rx + a.tx == b.rx + b.tx && a.connections
            >= b.connections)
    }) by {
        assert(is_active()(all[i]) && is_active()(all[j]));
        assert(!NetLine::before(all[j], all[i]));
    }
}

} // verus!
