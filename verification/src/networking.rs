//! What the list of traffic says of two looks at the sockets, in terms of their counters.

use crate::cluster;
use crate::names;
use crate::rank;
use crate::rank::Ranked;
use crate::sockets;
use crate::sockets::SockView;
use crate::text;
use crate::traffic;
use crate::traffic::{
    FlowView, HolderView, HoldingView, NetLine, NetLineView, NetRowView, NetView, SocketCounters,
};
use vstd::prelude::*;

verus! {

/// What an open file that is the socket `ino` is a link to.
pub open spec fn link(ino: Seq<char>) -> Seq<char> {
    "socket:["@ + ino + "]"@
}

/// Whether one of the first 4096 open files of `h` is the socket `ino`.
pub open spec fn has_open(h: HolderView, ino: Seq<char>) -> bool {
    exists|b: int| 0 <= b < h.targets.len() && b < 4096 && #[trigger] h.targets[b] == Some(link(ino))
}

/// Links to sockets, and no others, name an inode.
pub proof fn socket_links_name_their_inode(target: Seq<char>, ino: Seq<char>)
    ensures
        traffic::socket_inode(target) == Some(ino) <==> target == link(ino),
{
    reveal_strlit("socket:[");
    reveal_strlit("]");
    let p = "socket:["@;
    let e = "]"@;
    if target == link(ino) {
        assert(target.take(8) == p);
        let rest = target.skip(8);
        assert(rest.skip(rest.len() - 1) == e);
        assert(rest.take(rest.len() - 1) == ino);
    }
    if traffic::socket_inode(target) == Some(ino) {
        let rest = target.skip(8);
        assert(target == p + rest);
        assert(rest == rest.take(rest.len() - 1) + rest.skip(rest.len() - 1));
        assert(target == link(ino));
    }
}

/// Who has a socket is decided by the processes found last.
proof fn lemma_owner_together(a: Seq<HoldingView>, b: Seq<HoldingView>, ino: Seq<char>)
    ensures
        traffic::owner(a + b, ino) == (if traffic::owner(b, ino) is Some {
            traffic::owner(b, ino)
        } else {
            traffic::owner(a, ino)
        }),
    decreases b.len(),
{
    if b.len() == 0 {
        assert(a + b == a);
    } else {
        assert((a + b).last() == b.last());
        assert((a + b).drop_last() == a + b.drop_last());
        lemma_owner_together(a, b.drop_last(), ino);
    }
}

proof fn lemma_owner_of_one(h: HolderView, n: nat, ino: Seq<char>)
    requires
        n <= h.targets.len(),
        n <= 4096,
    ensures
        traffic::owner(traffic::held_by(h, n), ino) is Some <==> exists|b: int|
            0 <= b < n && #[trigger] h.targets[b] == Some(link(ino)),
        traffic::owner(traffic::held_by(h, n), ino) is Some ==> traffic::owner(
            traffic::held_by(h, n),
            ino,
        )->0.pid == h.pid && traffic::owner(traffic::held_by(h, n), ino)->0.name == h.name,
    decreases n,
{
    if n > 0 {
        let m = (n - 1) as nat;
        let before = traffic::held_by(h, m);
        lemma_owner_of_one(h, m, ino);
        match h.targets[n - 1] {
            Some(target) => {
                socket_links_name_their_inode(target, ino);
                match traffic::socket_inode(target) {
                    Some(other) => {
                        let e = HoldingView { ino: other, pid: h.pid, name: h.name };
                        assert(before.push(e).drop_last() == before);
                        if other == ino {
                            assert(h.targets[n - 1] == Some(link(ino)));
                        }
                    },
                    None => {},
                }
            },
            None => {},
        }
        if exists|b: int| 0 <= b < n && #[trigger] h.targets[b] == Some(link(ino)) {
            let b = choose|b: int| 0 <= b < n && #[trigger] h.targets[b] == Some(link(ino));
            if b == n - 1 {
                socket_links_name_their_inode(link(ino), ino);
            }
        }
    }
}

proof fn lemma_owner(hs: Seq<HolderView>, ino: Seq<char>)
    ensures
        (forall|a: int| 0 <= a < hs.len() ==> !has_open(#[trigger] hs[a], ino)) ==> traffic::owner(
            traffic::holdings(hs),
            ino,
        ) is None,
        forall|a: int|
            0 <= a < hs.len() && has_open(#[trigger] hs[a], ino) && (forall|c: int|
                a < c < hs.len() ==> !has_open(#[trigger] hs[c], ino)) ==> {
                &&& traffic::owner(traffic::holdings(hs), ino) is Some
                &&& traffic::owner(traffic::holdings(hs), ino)->0.pid == hs[a].pid
                &&& traffic::owner(traffic::holdings(hs), ino)->0.name == hs[a].name
            },
    decreases hs.len(),
{
    if hs.len() > 0 {
        let rest = hs.drop_last();
        let h = hs.last();
        let n = traffic::looked_at(h);
        lemma_owner(rest, ino);
        lemma_owner_together(traffic::holdings(rest), traffic::held_by(h, n), ino);
        lemma_owner_of_one(h, n, ino);
        assert(hs[hs.len() - 1] == h);
        assert(has_open(h, ino) <==> traffic::owner(traffic::held_by(h, n), ino) is Some) by {
            if has_open(h, ino) {
                let b = choose|b: int|
                    0 <= b < h.targets.len() && b < 4096 && #[trigger] h.targets[b] == Some(
                        link(ino),
                    );
                assert(b < n && h.targets[b] == Some(link(ino)));
            }
        }
        if forall|a: int| 0 <= a < hs.len() ==> !has_open(#[trigger] hs[a], ino) {
            assert forall|a: int| 0 <= a < rest.len() implies !has_open(#[trigger] rest[a], ino) by {
                assert(rest[a] == hs[a]);
            }
        }
        assert forall|a: int|
            0 <= a < hs.len() && has_open(#[trigger] hs[a], ino) && (forall|c: int|
                a < c < hs.len() ==> !has_open(#[trigger] hs[c], ino)) implies {
            &&& traffic::owner(traffic::holdings(hs), ino) is Some
            &&& traffic::owner(traffic::holdings(hs), ino)->0.pid == hs[a].pid
            &&& traffic::owner(traffic::holdings(hs), ino)->0.name == hs[a].name
        } by {
            if a < rest.len() {
                assert(rest[a] == hs[a]);
                assert(!has_open(hs[hs.len() - 1], ino));
                assert forall|c: int| a < c < rest.len() implies !has_open(
                    #[trigger] rest[c],
                    ino,
                ) by {
                    assert(rest[c] == hs[c]);
                }
            }
        }
    }
}

/// A socket goes by the name and the number of the last process that is found to have it
/// open or, where none is found, by the name of its cgroup and the number 0.
pub proof fn sockets_go_by_their_holder(
    hs: Seq<HolderView>,
    base: SocketCounters,
    s: SockView,
)
    ensures
        ({
            let f = traffic::flow(traffic::holdings(hs), base, s);
            &&& f.established == s.established
            &&& (forall|a: int| 0 <= a < hs.len() ==> !has_open(#[trigger] hs[a], s.ino)) ==> f.pid
                == 0 && f.name == names::label(s.cgroup)
            &&& forall|a: int|
                0 <= a < hs.len() && has_open(#[trigger] hs[a], s.ino) && (forall|c: int|
                    a < c < hs.len() ==> !has_open(#[trigger] hs[c], s.ino)) ==> f.pid == hs[a].pid
                    && f.name == hs[a].name
        }),
{
    lemma_owner(hs, s.ino);
}

/// What the look `before` found of the socket `ino`.
pub open spec fn found_before(before: Seq<SockView>, ino: Seq<char>) -> Option<SockView> {
    if exists|i: int| 0 <= i < before.len() && (#[trigger] before[i]).ino == ino {
        Some(before[choose|i: int| 0 <= i < before.len() && (#[trigger] before[i]).ino == ino])
    } else {
        None
    }
}

/// The bytes that a socket has received since the look `before`, by its counter.
pub open spec fn received_since(before: Seq<SockView>) -> spec_fn(SockView) -> nat {
    |s: SockView|
        match found_before(before, s.ino) {
            Some(b) => if s.recv >= b.recv {
                (s.recv - b.recv) as nat
            } else {
                0
            },
            None => 0,
        }
}

/// The bytes that a socket has sent since the look `before`, by its counter.
pub open spec fn sent_since(before: Seq<SockView>) -> spec_fn(SockView) -> nat {
    |s: SockView|
        match found_before(before, s.ino) {
            Some(b) => if s.sent >= b.sent {
                (s.sent - b.sent) as nat
            } else {
                0
            },
            None => 0,
        }
}

/// A look keeps both counters of every socket it found, and of no other.
pub proof fn looks_are_kept(before: Seq<SockView>, ino: Seq<char>)
    requires
        sockets::one_each(before),
    ensures
        match found_before(before, ino) {
            Some(b) => {
                &&& b.ino == ino
                &&& before.contains(b)
                &&& traffic::socket_counters(before).contains_key(ino)
                &&& traffic::socket_counters(before)[ino] == (b.sent, b.recv)
            },
            None => !traffic::socket_counters(before).contains_key(ino),
        },
    decreases before.len(),
{
    match found_before(before, ino) {
        Some(b) => {
            let i = choose|i: int| 0 <= i < before.len() && (#[trigger] before[i]).ino == ino;
            lemma_kept(before, i);
        },
        None => {
            lemma_not_kept(before, ino);
        },
    }
}

proof fn lemma_kept(before: Seq<SockView>, i: int)
    requires
        sockets::one_each(before),
        0 <= i < before.len(),
    ensures
        traffic::socket_counters(before).contains_key(before[i].ino),
        traffic::socket_counters(before)[before[i].ino] == (before[i].sent, before[i].recv),
    decreases before.len(),
{
    let rest = before.drop_last();
    if i < rest.len() {
        assert(rest[i] == before[i]);
        assert(before[i].ino != before[before.len() - 1].ino);
        assert forall|a: int, b: int| 0 <= a < b < rest.len() implies (#[trigger] rest[a]).ino != (
        #[trigger] rest[b]).ino by {
            assert(before[a].ino != before[b].ino);
        }
        lemma_kept(rest, i);
    }
}

proof fn lemma_not_kept(before: Seq<SockView>, ino: Seq<char>)
    requires
        forall|i: int| 0 <= i < before.len() ==> (#[trigger] before[i]).ino != ino,
    ensures
        !traffic::socket_counters(before).contains_key(ino),
    decreases before.len(),
{
    if before.len() > 0 {
        let rest = before.drop_last();
        assert forall|i: int| 0 <= i < rest.len() implies (#[trigger] rest[i]).ino != ino by {
            assert(rest[i] == before[i]);
        }
        assert(before[before.len() - 1].ino != ino);
        lemma_not_kept(rest, ino);
    }
}

/// What counts for a socket is the growth of its two counters since the last look, whoever
/// has it open, and nothing where that look did not find it, where a counter fell, or
/// where the look is too old.
pub proof fn traffic_is_the_growth_of_the_counters(
    held: Seq<HoldingView>,
    before: Seq<SockView>,
    usable: bool,
    s: SockView,
)
    requires
        sockets::one_each(before),
    ensures
        ({
            let base = traffic::socket_baseline(traffic::socket_counters(before), usable);
            let f = traffic::flow(held, base, s);
            &&& forall|i: int|
                0 <= i < before.len() && usable && (#[trigger] before[i]).ino == s.ino ==> {
                    &&& s.recv >= before[i].recv ==> f.rx == s.recv - before[i].recv
                    &&& s.recv < before[i].recv ==> f.rx == 0
                    &&& s.sent >= before[i].sent ==> f.tx == s.sent - before[i].sent
                    &&& s.sent < before[i].sent ==> f.tx == 0
                }
            &&& (!usable || forall|i: int|
                0 <= i < before.len() ==> (#[trigger] before[i]).ino != s.ino) ==> f.rx == 0 && f.tx
                == 0
        }),
{
    let base = traffic::socket_baseline(traffic::socket_counters(before), usable);
    assert forall|i: int| 0 <= i < before.len() && (#[trigger] before[i]).ino == s.ino implies
        traffic::socket_counters(before).contains_key(s.ino) && traffic::socket_counters(
        before,
    )[s.ino] == (before[i].sent, before[i].recv) by {
        lemma_kept(before, i);
    }
    if forall|i: int| 0 <= i < before.len() ==> (#[trigger] before[i]).ino != s.ino {
        lemma_not_kept(before, s.ino);
    }
}

proof fn lemma_mapped_sum(
    socks: Seq<SockView>,
    flow_of: spec_fn(SockView) -> FlowView,
    f: spec_fn(FlowView) -> nat,
    g: spec_fn(SockView) -> nat,
)
    requires
        forall|s: SockView| f(#[trigger] flow_of(s)) == g(s),
    ensures
        cluster::sum(socks.map_values(flow_of), f) == cluster::sum(socks, g),
    decreases socks.len(),
{
    if socks.len() > 0 {
        lemma_mapped_sum(socks.drop_last(), flow_of, f, g);
        assert(socks.map_values(flow_of).drop_last() == socks.drop_last().map_values(flow_of));
        assert(f(flow_of(socks.last())) == g(socks.last()));
    }
}

/// Over all groups the bytes received and sent add up to the growth of the sockets'
/// counters, and the connections to the number of sockets that are established.
pub proof fn all_traffic_is_accounted_for(
    hs: Seq<HolderView>,
    before: Seq<SockView>,
    socks: Seq<SockView>,
)
    requires
        sockets::one_each(before),
    ensures
        ({
            let base = traffic::socket_baseline(traffic::socket_counters(before), true);
            let gs = traffic::nets_of(traffic::flows(traffic::holdings(hs), base, socks));
            &&& cluster::sum(gs, |g: NetView| g.rx) == cluster::sum(socks, received_since(before))
            &&& cluster::sum(gs, |g: NetView| g.tx) == cluster::sum(socks, sent_since(before))
            &&& cluster::sum(gs, |g: NetView| g.connections) == cluster::sum(
                socks,
                |s: SockView|
                    if s.established {
                        1nat
                    } else {
                        0nat
                    },
            )
        }),
{
    let held = traffic::holdings(hs);
    let base = traffic::socket_baseline(traffic::socket_counters(before), true);
    let fs = traffic::flows(held, base, socks);
    let make = traffic::net_grouping();
    let name_of = traffic::flow_name();
    let to_flow = |s: SockView| traffic::flow(held, base, s);
    let up = |s: SockView|
        if s.established {
            1nat
        } else {
            0nat
        };
    assert forall|s: SockView| traffic::received()(#[trigger] to_flow(s)) == received_since(before)(
        s,
    ) && traffic::sent()(to_flow(s)) == sent_since(before)(s) by {
        looks_are_kept(before, s.ino);
    }
    lemma_mapped_sum(socks, to_flow, traffic::received(), received_since(before));
    lemma_mapped_sum(socks, to_flow, traffic::sent(), sent_since(before));
    lemma_mapped_sum(socks, to_flow, traffic::connection(), up);
    assert(fs =~= socks.map_values(to_flow));
    cluster::clusters_add_up(fs, name_of, make, traffic::received(), |g: NetView| g.rx);
    cluster::clusters_add_up(fs, name_of, make, traffic::sent(), |g: NetView| g.tx);
    cluster::clusters_add_up(fs, name_of, make, traffic::connection(), |g: NetView| g.connections);
}

/// A group is made of the flows of its name: it has received and sent what they have,
/// counts those that are established, goes by the process of the first, and knows every
/// process that is among them.
pub proof fn groups_hold_the_flows_of_their_name(fs: Seq<FlowView>, k: int)
    requires
        0 <= k < traffic::nets_of(fs).len(),
    ensures
        ({
            let g = traffic::nets_of(fs)[k];
            let ms = fs.filter(|f: FlowView| f.name == g.name);
            &&& ms.len() > 0
            &&& g.pid == ms[0].pid
            &&& g.rx == cluster::sum(ms, |f: FlowView| f.rx)
            &&& g.tx == cluster::sum(ms, |f: FlowView| f.tx)
            &&& g.connections == cluster::sum(
                ms,
                |f: FlowView|
                    if f.established {
                        1nat
                    } else {
                        0nat
                    },
            )
            &&& forall|pid: u32| #[trigger]
                g.pids.contains(pid) <==> exists|i: int|
                    0 <= i < ms.len() && (#[trigger] ms[i]).pid == pid
        }),
{
    let name_of = traffic::flow_name();
    let names = cluster::names_in(fs, name_of);
    cluster::names_are_those_of_items(fs, name_of);
    let g = traffic::nets_of(fs)[k];
    let by = cluster::goes_by(name_of, names[k]);
    let ms = fs.filter(by);
    assert(g == traffic::net_grouping()(ms, names[k]));
    assert(by =~= (|f: FlowView| f.name == g.name));
    assert(traffic::received() =~= (|f: FlowView| f.rx));
    assert(traffic::sent() =~= (|f: FlowView| f.tx));
    assert(traffic::connection() =~= (|f: FlowView|
        if f.established {
            1nat
        } else {
            0nat
        }));
    assert forall|pid: u32| #[trigger] g.pids.contains(pid) <==> exists|i: int|
        0 <= i < ms.len() && (#[trigger] ms[i]).pid == pid by {
        let ps = traffic::flow_pids(ms);
        if g.pids.contains(pid) {
            let i = choose|i: int| 0 <= i < ps.len() && ps[i] == pid;
            assert(ms[i].pid == pid);
        }
        if exists|i: int| 0 <= i < ms.len() && (#[trigger] ms[i]).pid == pid {
            let i = choose|i: int| 0 <= i < ms.len() && (#[trigger] ms[i]).pid == pid;
            assert(ps[i] == pid);
            assert(ps.contains(pid));
        }
    }
}

/// Whether `r` is the line of the group `g`.
pub open spec fn is_net_line(r: NetRowView, g: NetView) -> bool {
    &&& r.name == g.name
    &&& r.pid == g.pid
    &&& r.count == g.pids.len()
    &&& r.connections == g.connections
    &&& r.rx == g.rx
    &&& r.tx == g.tx
}

/// Whether `a` stands before `b` in a list of traffic, or with it: it has more traffic, or
/// as much and more connections, or as much of both and a name that does not come later.
pub open spec fn goes_first(a: NetRowView, b: NetRowView) -> bool {
    ||| a.rx + a.tx > b.rx + b.tx
    ||| a.rx + a.tx == b.rx + b.tx && a.connections > b.connections
    ||| a.rx + a.tx == b.rx + b.tx && a.connections == b.connections && !text::less(b.name, a.name)
}

/// The list of traffic has a line for each group with a connection or some traffic, from
/// most to least traffic, then connections, then by name, up to twelve of them, or four
/// hundred where all are asked for; those left out stand behind those that are listed.
pub proof fn traffic_list_holds_the_most(gs: Seq<NetView>, full: bool)
    ensures
        ({
            let list = traffic::net_rows(gs, full);
            let limit = if full {
                400int
            } else {
                12
            };
            &&& list.len() <= limit
            &&& forall|i: int|
                0 <= i < list.len() ==> {
                    &&& (#[trigger] list[i]).connections > 0 || list[i].rx > 0 || list[i].tx > 0
                    &&& exists|k: int| 0 <= k < gs.len() && is_net_line(list[i], #[trigger] gs[k])
                }
            &&& forall|i: int, j: int|
                0 <= i < j < list.len() ==> goes_first(#[trigger] list[i], #[trigger] list[j])
            &&& forall|k: int|
                0 <= k < gs.len() && ((#[trigger] gs[k]).connections > 0 || gs[k].rx > 0 || gs[k].tx
                    > 0) ==> {
                    ||| exists|i: int| 0 <= i < list.len() && is_net_line(#[trigger] list[i], gs[k])
                    ||| list.len() == limit && forall|i: int, r: NetRowView|
                        0 <= i < list.len() && is_net_line(r, gs[k]) ==> #[trigger] goes_first(
                            list[i],
                            r,
                        )
                }
        }),
{
    broadcast use vstd::seq_lib::group_filter_ensures;
    broadcast use vstd::seq_lib::group_to_multiset_ensures;

    let lines = traffic::net_lines(gs);
    let ls = lines.filter(traffic::is_active());
    let all = rank::arrange::<NetLine>(ls);
    let list = traffic::net_rows(gs, full);
    rank::arrangement_keeps_items::<NetLine>(ls);
    rank::arrangement_is_in_order::<NetLine>(ls);
    assert forall|i: int| 0 <= i < all.len() implies exists|k: int|
        0 <= k < gs.len() && (#[trigger] all[i]).group == #[trigger] gs[k] && all[i].traffic
            == gs[k].rx + gs[k].tx && traffic::is_active()(all[i]) by {
        rank::lemma_arranged_came_in::<NetLine>(ls, i);
        let m = choose|m: int| 0 <= m < ls.len() && ls[m] == all[i];
        assert(traffic::is_active()(ls[m]));
        lines.lemma_filter_contains_rev(traffic::is_active(), ls[m]);
        let k = choose|k: int| 0 <= k < lines.len() && lines[k] == ls[m];
        assert(all[i].group == gs[k]);
    }
    assert forall|i: int| 0 <= i < list.len() implies {
        &&& (#[trigger] list[i]).connections > 0 || list[i].rx > 0 || list[i].tx > 0
        &&& exists|k: int| 0 <= k < gs.len() && is_net_line(list[i], #[trigger] gs[k])
    } by {
        let k = choose|k: int|
            0 <= k < gs.len() && all[i].group == #[trigger] gs[k] && all[i].traffic == gs[k].rx
                + gs[k].tx && traffic::is_active()(all[i]);
        assert(all[i].group == gs[k]);
        assert(is_net_line(list[i], gs[k]));
    }
    assert forall|i: int, j: int| 0 <= i < j < list.len() implies goes_first(
        #[trigger] list[i],
        #[trigger] list[j],
    ) by {
        assert(all[i].group == all[i].group && all[j].group == all[j].group);
        assert(!NetLine::before(all[j], all[i]));
    }
    assert forall|k: int|
        0 <= k < gs.len() && ((#[trigger] gs[k]).connections > 0 || gs[k].rx > 0 || gs[k].tx
            > 0) implies {
        ||| exists|i: int| 0 <= i < list.len() && is_net_line(#[trigger] list[i], gs[k])
        ||| list.len() == (if full {
            400int
        } else {
            12
        }) && forall|i: int, r: NetRowView|
            0 <= i < list.len() && is_net_line(r, gs[k]) ==> #[trigger] goes_first(list[i], r)
    } by {
        let l = NetLineView { traffic: gs[k].rx + gs[k].tx, group: gs[k] };
        assert(lines[k] == l);
        assert(traffic::is_active()(lines[k]));
        assert(ls.contains(lines[k]));
        assert(all.to_multiset().count(l) > 0);
        assert(all.contains(l));
        let m = choose|m: int| 0 <= m < all.len() && all[m] == l;
        if m < list.len() {
            assert(is_net_line(list[m], gs[k]));
        } else {
            assert forall|i: int, r: NetRowView|
                0 <= i < list.len() && is_net_line(r, gs[k]) implies #[trigger] goes_first(
                list[i],
                r,
            ) by {
                assert(all[i].group == all[i].group);
                assert(!NetLine::before(all[m], all[i]));
            }
        }
    }
}

/// Every socket makes one flow, in its place.
pub proof fn sockets_make_a_flow_each(
    held: Seq<HoldingView>,
    base: SocketCounters,
    socks: Seq<SockView>,
    i: int,
)
    requires
        0 <= i < socks.len(),
    ensures
        traffic::flows(held, base, socks).len() == socks.len(),
        traffic::flows(held, base, socks)[i] == traffic::flow(held, base, socks[i]),
{
}

} // verus!
