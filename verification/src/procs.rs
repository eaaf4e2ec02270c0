//! The sampler of processes: what each has used since it was last looked at.

use crate::clients;
use crate::clients::{list_clients, times_of, user_rows, Client, ClientTimes, GpuHolder, GpuUser};
use crate::groups;
use crate::groups::{gather, Counters, Group, Observation, ObservationView};
use crate::names;
use crate::names::{display_name, numbered, parse_comm, COMM_LIMIT};
use crate::rank;
use crate::report;
use crate::report::{make_report, ProcessReport, ProcessReportView};
use crate::sockets::SocketTable;
use crate::stat;
use crate::stat::{parse_io, IoBytes, ProcStat, PROCESS_SCAN_LIMIT};
use crate::table::TextMap;
use crate::text;
use crate::traffic;
use crate::traffic::{counters_of, traffic_rows, NetRow, SocketHolder};
use std::collections::HashMap;
use vstd::prelude::*;

verus! {

/// Nanoseconds after which counters of sockets and of GPU clients are too old to be
/// compared with: their numbers may have been recycled.
pub const STALE_AFTER: u64 = 5_000_000_000;

/// Nanoseconds from `time` to `now`; none from no time, or from a later one.
pub open spec fn since(time: Option<u64>, now: u64) -> u64 {
    match time {
        Some(t) => if now > t {
            (now - t) as u64
        } else {
            0
        },
        None => 0,
    }
}

/// Nanoseconds from `time` to `now`, where counters of the two can be compared; else 0.
pub open spec fn window(time: Option<u64>, now: u64) -> u64 {
    if since(time, now) < STALE_AFTER {
        since(time, now)
    } else {
        0
    }
}

/// What the sampler keeps from one sample to the next.
pub struct ProcessSampler {
    prev: HashMap<u32, Counters>,
    names: HashMap<u32, String>,
    threads: usize,
    clk_tck: i64,
    page_size: u32,
    sockets_prev: TextMap<(u64, u64)>,
    sockets_time: Option<u64>,
    gpu_prev: Vec<ClientTimes>,
    gpu_time: Option<u64>,
}

/// The model of a [`ProcessSampler`].
#[verifier::ext_equal]
pub struct SamplerView {
    /// The counters of each process at the last sample.
    pub prev: Map<u32, Counters>,
    /// The name of each process at the last sample.
    pub names: Map<u32, Seq<char>>,
    pub threads: usize,
    pub clk_tck: i64,
    pub page_size: u32,
    /// Bytes sent and received by each socket at the last look, and when that was.
    pub sockets_prev: traffic::SocketCounters,
    pub sockets_time: Option<u64>,
    /// The engines' times of each GPU client at the last look, and when that was.
    pub gpu_prev: clients::EngineTimes,
    pub gpu_time: Option<u64>,
}

/// The texts of a map of strings.
pub open spec fn text_values(m: Map<u32, String>) -> Map<u32, Seq<char>> {
    m.map_values(|s: String| s@)
}

impl View for ProcessSampler {
    type V = SamplerView;

    closed spec fn view(&self) -> SamplerView {
        SamplerView {
            prev: self.prev@,
            names: text_values(self.names@),
            threads: self.threads,
            clk_tck: self.clk_tck,
            page_size: self.page_size,
            sockets_prev: self.sockets_prev@,
            sockets_time: self.sockets_time,
            gpu_prev: clients::times_by_client(rank::views(self.gpu_prev@)),
            gpu_time: self.gpu_time,
        }
    }
}

/// The counters by process of the processes `obs`.
pub open spec fn counters_by_pid(obs: Seq<ObservationView>) -> Map<u32, Counters>
    decreases obs.len(),
{
    if obs.len() == 0 {
        Map::empty()
    } else {
        let o = obs.last();
        counters_by_pid(obs.drop_last()).insert(
            o.pid,
            Counters {
                ticks: (o.utime + o.stime) as u128,
                read_bytes: o.read_bytes,
                write_bytes: o.write_bytes,
            },
        )
    }
}

/// The names by process of the processes `obs`.
pub open spec fn names_by_pid(obs: Seq<ObservationView>) -> Map<u32, Seq<char>>
    decreases obs.len(),
{
    if obs.len() == 0 {
        Map::empty()
    } else {
        names_by_pid(obs.drop_last()).insert(obs.last().pid, obs.last().name)
    }
}

/// The report where the processes cannot be listed.
pub open spec fn no_report() -> ProcessReportView {
    ProcessReportView { cpu: seq![], mem: seq![], io: seq![], total: None, all: None }
}

/// What a process is seen to have used.
pub open spec fn observed(
    known: Map<u32, Seq<char>>,
    pid: u32,
    s: stat::ProcStatView,
    io: Option<Seq<char>>,
    cmdline: Option<Seq<char>>,
    own: bool,
) -> ObservationView {
    let bytes = match io {
        Some(io) => stat::parsed_io(io),
        None => IoBytes { read: 0, write: 0 },
    };
    ObservationView {
        pid,
        name: if known.contains_key(pid) {
            known[pid]
        } else {
            names::display(s.comm, cmdline)
        },
        own,
        utime: s.utime,
        stime: s.stime,
        pages: s.pages,
        read_bytes: bytes.read,
        write_bytes: bytes.write,
    }
}

/// GPU time and video memory by process.
#[derive(Debug)]
pub struct GpuUsage {
    /// Nanoseconds over which the time was counted; 0 where it could not be.
    pub window: u64,
    pub users: Vec<GpuUser>,
}

/// Network traffic by process.
#[derive(Debug)]
pub struct NetUsage {
    /// Nanoseconds over which the bytes were counted; 0 where they could not be.
    pub window: u64,
    pub rows: Vec<NetRow>,
}

/// Nanoseconds over which counters can be compared.
fn window_since(time: Option<u64>, now: u64) -> (r: u64)
    ensures
        r == window(time, now),
{
    let elapsed: u64 = match time {
        Some(t) => if now > t {
            now - t
        } else {
            0
        },
        None => 0,
    };
    if elapsed < STALE_AFTER {
        elapsed
    } else {
        0
    }
}

impl ProcessSampler {
    /// A sampler that has seen nothing yet. `clk_tck` and `page_size` are what the
    /// system says of its clock and its pages, 0 or less where it does not say;
    /// `threads` is how many can run at once.
    pub fn new(clk_tck: i64, page_size: u32, threads: Option<usize>) -> (r: Self)
        ensures
            r@ == (SamplerView {
                prev: Map::empty(),
                names: Map::empty(),
                threads: match threads {
                    Some(n) => n,
                    None => 1,
                },
                clk_tck: if clk_tck > 0 {
                    clk_tck
                } else {
                    100
                },
                page_size: if page_size > 0 {
                    page_size
                } else {
                    4096
                },
                sockets_prev: Map::empty(),
                sockets_time: None,
                gpu_prev: Map::empty(),
                gpu_time: None,
            }),
    {
        let r = ProcessSampler {
            prev: HashMap::new(),
            names: HashMap::new(),
            threads: match threads {
                Some(n) => n,
                None => 1,
            },
            clk_tck: if clk_tck > 0 {
                clk_tck
            } else {
                100
            },
            page_size: if page_size > 0 {
                page_size
            } else {
                4096
            },
            sockets_prev: TextMap::new(),
            sockets_time: None,
            gpu_prev: Vec::new(),
            gpu_time: None,
        };
        assert(text_values(r.names@) == Map::<u32, Seq<char>>::empty());
        r
    }

    /// How many threads can run at once.
    pub fn threads(&self) -> (r: usize)
        ensures
            r == self@.threads,
    {
        self.threads
    }

    /// Clock ticks in a second.
    pub fn clk_tck(&self) -> (r: i64)
        ensures
            r == self@.clk_tck,
    {
        self.clk_tck
    }

    /// Whether the name of the process `pid` was found at the last sample.
    pub fn knows(&self, pid: u32) -> (r: bool)
        ensures
            r == self@.names.contains_key(pid),
    {
        broadcast use vstd::std_specs::hash::group_hash_axioms;

        self.names.contains_key(&pid)
    }

    /// Whether the command line of the process `pid` has a say in its name.
    pub fn wants_cmdline(&self, pid: u32, comm: &str) -> (r: bool)
        ensures
            r == (!self@.names.contains_key(pid) && text::utf8(comm@).len() >= COMM_LIMIT),
    {
        !self.knows(pid) && comm.as_bytes().len() >= COMM_LIMIT
    }

    /// The name of the process `pid`: the one found at the last sample, or one made of
    /// what its files hold.
    pub fn process_name(&self, pid: u32, stat: Option<&str>, cmdline: Option<&str>) -> (r: String)
        requires
            !self@.names.contains_key(pid) && stat is Some && names::comm_of(stat->0@) is Some
                ==> names::comm_splits(names::comm_of(stat->0@)->0, text::viewed(cmdline)),
        ensures
            r@ == (if self@.names.contains_key(pid) {
                self@.names[pid]
            } else {
                names::named_process(pid, text::viewed(stat), text::viewed(cmdline))
            }),
    {
        broadcast use vstd::std_specs::hash::group_hash_axioms;

        if let Some(name) = self.names.get(&pid) {
            return name.clone();
        }
        match stat {
            Some(line) => match parse_comm(line) {
                Some(comm) => display_name(comm.as_str(), cmdline),
                None => numbered(pid),
            },
            None => numbered(pid),
        }
    }

    /// What the process `pid` is seen to have used so far. Names are stable per pid: one
    /// found at the last sample is kept.
    pub fn observe(
        &self,
        pid: u32,
        stat: &ProcStat,
        io: Option<&str>,
        cmdline: Option<&str>,
        own: bool,
    ) -> (r: Observation)
        requires
            !self@.names.contains_key(pid) ==> names::comm_splits(
                stat@.comm,
                text::viewed(cmdline),
            ),
        ensures
            r@ == observed(
                self@.names,
                pid,
                stat@,
                text::viewed(io),
                text::viewed(cmdline),
                own,
            ),
    {
        broadcast use vstd::std_specs::hash::group_hash_axioms;

        let bytes: IoBytes = match io {
            Some(text) => parse_io(text),
            None => IoBytes { read: 0, write: 0 },
        };
        let name: String = match self.names.get(&pid) {
            Some(name) => name.clone(),
            None => display_name(stat.comm.as_str(), cmdline),
        };
        Observation {
            pid,
            name,
            own,
            utime: stat.utime,
            stime: stat.stime,
            pages: stat.pages,
            read_bytes: bytes.read,
            write_bytes: bytes.write,
        }
    }

    /// The lists of processes, from what each is seen to have used: its part since the
    /// last sample, `elapsed` nanoseconds ago. Nothing is listed, and nothing kept, where
    /// the processes cannot be.
    pub fn sample(
        &mut self,
        observations: Option<Vec<Observation>>,
        elapsed: u64,
        full: bool,
    ) -> (r: ProcessReport)
        requires
            observations is Some ==> observations->0@.len() <= PROCESS_SCAN_LIMIT,
        ensures
            observations is None ==> r@ == no_report() && final(self)@ == old(self)@,
            observations is Some ==> ({
                let obs = rank::views(observations->0@);
                &&& r@ == report::report_of(
                    groups::groups_of(
                        groups::baseline(old(self)@.prev, elapsed > 0),
                        old(self)@.page_size as nat,
                        obs,
                    ),
                    full,
                )
                &&& final(self)@ == (SamplerView {
                    prev: counters_by_pid(obs),
                    names: names_by_pid(obs),
                    ..old(self)@
                })
            }),
    {
        broadcast use vstd::std_specs::hash::group_hash_axioms;

        let observations: Vec<Observation> = match observations {
            Some(observations) => observations,
            None => {
                let r = ProcessReport {
                    cpu: Vec::new(),
                    mem: Vec::new(),
                    io: Vec::new(),
                    total: None,
                    all: None,
                };
                proof {
                    assert(r@.cpu == no_report().cpu);
                    assert(r@.mem == no_report().mem);
                    assert(r@.io == no_report().io);
                }
                return r;
            },
        };
        let ghost obs = rank::views(observations@);
        let groups: Vec<Group> = gather(&self.prev, elapsed > 0, self.page_size, &observations);
        proof {
            assert forall|k: int| 0 <= k < groups@.len() implies (#[trigger] groups@[k])@.read
                + groups@[k]@.write <= u128::MAX by {
                assert(groups::within(groups@[k]@, observations@.len() as int));
            }
        }
        let report: ProcessReport = make_report(&groups, full);
        let mut current: HashMap<u32, Counters> = HashMap::new();
        let mut names: HashMap<u32, String> = HashMap::new();
        let ghost all = observations@;
        assert(text_values(names@) == names_by_pid(obs.take(0)));
        for o in it: observations
            invariant
                it.seq() == all,
                obs == rank::views(all),
                current@ == counters_by_pid(obs.take(it.index())),
                text_values(names@) == names_by_pid(obs.take(it.index())),
        {
            let ghost n = it.index();
            let ghost before = names@;
            let ghost name = o.name;
            let ghost pid = o.pid;
            proof {
                assert(obs[n] == o@);
                assert(obs.take(n + 1).drop_last() == obs.take(n));
            }
            current.insert(
                o.pid,
                Counters {
                    ticks: o.utime as u128 + o.stime as u128,
                    read_bytes: o.read_bytes,
                    write_bytes: o.write_bytes,
                },
            );
            names.insert(o.pid, o.name);
            assert(text_values(names@) == text_values(before).insert(pid, name@));
        }
        assert(obs.take(obs.len() as int) == obs);
        self.prev = current;
        self.names = names;
        report
    }

    /// Forgets the last sample.
    pub fn reset(&mut self)
        ensures
            final(self)@ == (SamplerView {
                prev: Map::empty(),
                names: Map::empty(),
                ..old(self)@
            }),
    {
        self.prev.clear();
        self.names.clear();
        assert(text_values(self.names@) == Map::<u32, Seq<char>>::empty());
    }

    /// GPU time and video memory per process, from the DRM clients behind each process's
    /// open `/dev/dri` files. `now` is the time in nanoseconds.
    pub fn gpu_usage(&mut self, holders: &Vec<GpuHolder>, now: u64) -> (r: GpuUsage)
        ensures
            ({
                let cs = clients::once_each(clients::all_clients(rank::views(holders@)));
                let w = window(old(self)@.gpu_time, now);
                &&& r.window == w
                &&& rank::views(r.users@) == clients::gpu_rows(
                    clients::users_of(
                        clients::shares(
                            clients::times_baseline(old(self)@.gpu_prev, w > 0),
                            w as nat,
                            cs,
                        ),
                        w as nat,
                    ),
                )
                &&& final(self)@ == (SamplerView {
                    gpu_prev: clients::engine_times(cs),
                    gpu_time: Some(now),
                    ..old(self)@
                })
            }),
    {
        let found: Vec<Client> = list_clients(holders);
        let window: u64 = window_since(self.gpu_time, now);
        let users: Vec<GpuUser> = user_rows(&self.gpu_prev, window > 0, window, &found);
        self.gpu_prev = times_of(found);
        self.gpu_time = Some(now);
        GpuUsage { window, users }
    }

    /// Network traffic per process: the growth of each socket's byte counters since the
    /// last look. `sockets` are those that `ss` lists, `holders` the processes that may be
    /// inspected, `now` the time in nanoseconds. Nothing is counted, and nothing kept,
    /// where there are no sockets or too many.
    pub fn network_usage(
        &mut self,
        sockets: Option<SocketTable>,
        holders: &Vec<SocketHolder>,
        now: u64,
        full: bool,
    ) -> (r: NetUsage)
        ensures
            sockets is None || sockets->0@.len() == 0 ==> ({
                &&& r.rows@.len() == 0
                &&& r.window == 0
                &&& final(self)@ == (SamplerView {
                    sockets_prev: Map::empty(),
                    sockets_time: None,
                    ..old(self)@
                })
            }),
            sockets is Some && sockets->0@.len() > 0 ==> ({
                let w = window(old(self)@.sockets_time, now);
                &&& r.window == w
                &&& rank::views(r.rows@) == traffic::net_rows(
                    traffic::nets_of(
                        traffic::flows(
                            traffic::holdings(rank::views(holders@)),
                            traffic::socket_baseline(old(self)@.sockets_prev, w > 0),
                            sockets->0@,
                        ),
                    ),
                    full,
                )
                &&& final(self)@ == (SamplerView {
                    sockets_prev: traffic::socket_counters(sockets->0@),
                    sockets_time: Some(now),
                    ..old(self)@
                })
            }),
    {
        if let Some(table) = sockets {
            if table.len() > 0 {
                let window: u64 = window_since(self.sockets_time, now);
                let rows: Vec<NetRow> = traffic_rows(
                    &table,
                    holders,
                    &self.sockets_prev,
                    window > 0,
                    full,
                );
                self.sockets_prev = counters_of(&table);
                self.sockets_time = Some(now);
                return NetUsage { window, rows };
            }
        }
        self.sockets_prev = TextMap::new();
        self.sockets_time = None;
        NetUsage { window: 0, rows: Vec::new() }
    }
}

/// Whether no two of `obs` are of one process.
pub open spec fn one_of_each(obs: Seq<ObservationView>) -> bool {
    forall|i: int, j: int|
        0 <= i < j < obs.len() ==> (#[trigger] obs[i]).pid != (#[trigger] obs[j]).pid
}

/// What a sample keeps of each process.
pub proof fn lemma_by_pid(obs: Seq<ObservationView>, i: int)
    requires
        one_of_each(obs),
        0 <= i < obs.len(),
    ensures
        counters_by_pid(obs).contains_key(obs[i].pid),
        counters_by_pid(obs)[obs[i].pid] == (Counters {
            ticks: (obs[i].utime + obs[i].stime) as u128,
            read_bytes: obs[i].read_bytes,
            write_bytes: obs[i].write_bytes,
        }),
        names_by_pid(obs).contains_key(obs[i].pid),
        names_by_pid(obs)[obs[i].pid] == obs[i].name,
    decreases obs.len(),
{
    let rest = obs.drop_last();
    if i < rest.len() {
        assert(rest[i] == obs[i]);
        assert(obs[i].pid != obs[obs.len() - 1].pid);
        assert forall|a: int, b: int| 0 <= a < b < rest.len() implies (#[trigger] rest[a]).pid != (
        #[trigger] rest[b]).pid by {
            assert(obs[a].pid != obs[b].pid);
        }
        lemma_by_pid(rest, i);
    }
}

/// The lists of a first sample, of one after a reset, and of one that comes in no time
/// show no use of the processor and no bytes read or written.
pub proof fn first_sample_shows_no_use(
    prev: Map<u32, Counters>,
    elapsed: u64,
    page_size: nat,
    obs: Seq<ObservationView>,
    full: bool,
)
    requires
        prev == Map::<u32, Counters>::empty() || elapsed == 0,
    ensures
        ({
            let base = groups::baseline(prev, elapsed > 0);
            let report = report::report_of(groups::groups_of(base, page_size, obs), full);
            report.cpu.len() == 0 && report.io.len() == 0
        }),
{
    let base = groups::baseline(prev, elapsed > 0);
    let gs = groups::groups_of(base, page_size, obs);
    groups::unchanged_counters_show_no_use(base, page_size, obs);
    report::lists_of_nothing_are_empty(gs, full);
}

/// Sampling processes again whose counters have not moved shows no use of the processor
/// and no bytes read or written.
pub proof fn repeated_sample_shows_no_use(
    elapsed: u64,
    page_size: nat,
    obs: Seq<ObservationView>,
    full: bool,
)
    requires
        one_of_each(obs),
    ensures
        ({
            let base = groups::baseline(counters_by_pid(obs), elapsed > 0);
            let report = report::report_of(groups::groups_of(base, page_size, obs), full);
            report.cpu.len() == 0 && report.io.len() == 0
        }),
{
    let base = groups::baseline(counters_by_pid(obs), elapsed > 0);
    let gs = groups::groups_of(base, page_size, obs);
    assert forall|i: int| 0 <= i < obs.len() implies groups::has_not_grown(
        base,
        #[trigger] obs[i],
    ) by {
        lemma_by_pid(obs, i);
    }
    groups::unchanged_counters_show_no_use(base, page_size, obs);
    report::lists_of_nothing_are_empty(gs, full);
}

/// A process keeps the name that it was found by, whatever its files say at the next
/// sample.
pub proof fn names_are_stable(
    obs: Seq<ObservationView>,
    i: int,
    s: stat::ProcStatView,
    io: Option<Seq<char>>,
    cmdline: Option<Seq<char>>,
    own: bool,
)
    requires
        one_of_each(obs),
        0 <= i < obs.len(),
    ensures
        observed(names_by_pid(obs), obs[i].pid, s, io, cmdline, own).name == obs[i].name,
{
    lemma_by_pid(obs, i);
}

/// Counters of sockets and of GPU clients are compared only with such as are some seconds
/// old at most: after a longer gap there is nothing to compare with, and nothing is
/// counted as used.
pub proof fn stale_counters_are_not_compared(
    time: u64,
    now: u64,
    sockets: traffic::SocketCounters,
    times: clients::EngineTimes,
)
    requires
        now - time >= STALE_AFTER,
    ensures
        window(Some(time), now) == 0,
        window(None, now) == 0,
        traffic::socket_baseline(sockets, window(Some(time), now) > 0) == Map::<
            Seq<char>,
            (u64, u64),
        >::empty(),
        clients::times_baseline(times, window(Some(time), now) > 0) == Map::<
            (Seq<char>, Seq<char>),
            Map<Seq<char>, u64>,
        >::empty(),
{
}

} // verus!
