//! What is told of the use of GPUs, in terms of the open files of the processes.

use crate::clients;
use crate::clients::{
    ClientView, EngineTimes, GpuHolderView, GpuUser, GpuUserView, ShareView,
};
use crate::cluster;
use crate::drm;
use crate::drm::DrmClientView;
use crate::names;
use crate::rank;
use crate::rank::Ranked;
use crate::reading;
use crate::text;
use vstd::prelude::*;

verus! {

proof fn lemma_filter_first(first: Seq<char>, rest: Seq<Seq<char>>)
    ensures
        (seq![first] + rest).filter(clients::names_something()) == (if first.len() > 0 && first
            != "."@ {
            seq![first] + rest.filter(clients::names_something())
        } else {
            rest.filter(clients::names_something())
        }),
{
    let p = clients::names_something();
    Seq::filter_distributes_over_add(seq![first], rest, p);
    reveal_with_fuel(Seq::filter, 2);
    assert(seq![first].drop_last() == Seq::<Seq<char>>::empty());
    assert(Seq::<Seq<char>>::empty().push(first) == seq![first]);
    assert(Seq::<Seq<char>>::empty() + rest.filter(p) == rest.filter(p));
}

/// The parts of a path that begins at the root and whose first part is `a`.
proof fn lemma_first_part(a: Seq<char>, rest: Seq<char>)
    requires
        a.len() > 0 && a != "."@ && names::lacks(a, '/'),
    ensures
        clients::path_parts(seq!['/'] + a) == seq![a],
        clients::path_parts(seq!['/'] + a.push('/') + rest) == seq![a] + clients::path_parts(rest),
{
    let none = Seq::<char>::empty();
    let p = clients::names_something();
    reading::fields_stand_between_separators(none, '/', a);
    reading::fields_stand_between_separators(a, '/', rest);
    let u = seq!['/'] + a;
    assert(u == none.push('/') + a);
    assert(text::split_on(u, '/') == seq![none] + seq![a]);
    lemma_filter_first(none, seq![a]);
    lemma_filter_first(a, seq![]);
    assert(seq![a] + Seq::<Seq<char>>::empty() == seq![a]);
    assert(Seq::<Seq<char>>::empty().filter(p).len() == 0) by {
        reveal(Seq::filter);
    }
    assert(seq![a] + Seq::<Seq<char>>::empty().filter(p) == seq![a]);
    let t = seq!['/'] + a.push('/') + rest;
    reading::fields_stand_between_separators(none, '/', a.push('/') + rest);
    assert(t == none.push('/') + (a.push('/') + rest));
    let more = text::split_on(rest, '/');
    assert(text::split_on(t, '/') == seq![none] + (seq![a] + more));
    lemma_filter_first(none, seq![a] + more);
    lemma_filter_first(a, more);
}

/// The parts of what follows a first part and its slash.
proof fn lemma_next_part(b: Seq<char>, rest: Seq<char>)
    requires
        b.len() > 0 && b != "."@ && names::lacks(b, '/'),
    ensures
        clients::path_parts(b) == seq![b],
        clients::path_parts(b.push('/') + rest) == seq![b] + clients::path_parts(rest),
{
    let p = clients::names_something();
    reading::fields_stand_between_separators(b, '/', rest);
    lemma_filter_first(b, seq![]);
    assert(seq![b] + Seq::<Seq<char>>::empty() == seq![b]);
    assert(Seq::<Seq<char>>::empty().filter(p).len() == 0) by {
        reveal(Seq::filter);
    }
    assert(seq![b] + Seq::<Seq<char>>::empty().filter(p) == seq![b]);
    lemma_filter_first(b, text::split_on(rest, '/'));
}

/// A path whose first two parts are `a` and `b` leads to a GPU exactly when these are `dev`
/// and `dri`, whatever follows them; one of a single part does not, nor does one that does
/// not begin at the root.
pub proof fn gpus_are_below_dev_dri(a: Seq<char>, b: Seq<char>, rest: Seq<char>, other: Seq<char>)
    requires
        a.len() > 0 && a != "."@ && names::lacks(a, '/'),
        b.len() > 0 && b != "."@ && names::lacks(b, '/'),
    ensures
        clients::is_dri(seq!['/'] + a.push('/') + b) <==> a == "dev"@ && b == "dri"@,
        clients::is_dri(seq!['/'] + a.push('/') + (b.push('/') + rest)) <==> a == "dev"@ && b
            == "dri"@,
        !clients::is_dri(seq!['/'] + a),
        other.len() == 0 || other[0] != '/' ==> !clients::is_dri(other),
{
    lemma_first_part(a, b);
    lemma_first_part(a, b.push('/') + rest);
    lemma_next_part(b, rest);
    let s = clients::path_parts(seq!['/'] + a.push('/') + b);
    assert(s == seq![a] + seq![b]);
    assert(s[0] == a && s[1] == b);
    let t = clients::path_parts(seq!['/'] + a.push('/') + (b.push('/') + rest));
    assert(t == seq![a] + (seq![b] + clients::path_parts(rest)));
    assert(t[0] == a && t[1] == b);
}

/// Whether `c` is the client that the process `h` has open as its file `j`: that is one of
/// its first 4096 files, it leads to a GPU, and what is told of it describes a client.
pub open spec fn is_behind(h: GpuHolderView, j: int, c: ClientView) -> bool {
    &&& 0 <= j < h.files.len()
    &&& j < 4096
    &&& h.files[j].target is Some && clients::is_dri(h.files[j].target->0)
    &&& h.files[j].fdinfo is Some && drm::drm_client(h.files[j].fdinfo->0) == Some(c.drm)
    &&& c.pid == h.pid
    &&& c.name == h.name
}

/// Whether the process `h` has the client `c` open.
pub open spec fn has_open(h: GpuHolderView, c: ClientView) -> bool {
    exists|j: int| is_behind(h, j, c)
}

/// Whether one of the processes `hs` has the client `c` open.
pub open spec fn is_open(hs: Seq<GpuHolderView>, c: ClientView) -> bool {
    exists|i: int| 0 <= i < hs.len() && has_open(#[trigger] hs[i], c)
}

proof fn lemma_clients_of(h: GpuHolderView, n: nat)
    requires
        n <= h.files.len(),
        n <= 4096,
    ensures
        forall|k: int|
            0 <= k < clients::clients_of(h, n).len() ==> has_open(
                h,
                #[trigger] clients::clients_of(h, n)[k],
            ),
        forall|j: int, c: ClientView|
            j < n && #[trigger] is_behind(h, j, c) ==> clients::clients_of(h, n).contains(c),
    decreases n,
{
    if n > 0 {
        let before = clients::clients_of(h, (n - 1) as nat);
        let now = clients::clients_of(h, n);
        lemma_clients_of(h, (n - 1) as nat);
        assert forall|k: int| 0 <= k < now.len() implies has_open(h, #[trigger] now[k]) by {
            if k < before.len() {
                assert(now[k] == before[k]);
            } else {
                assert(is_behind(h, n - 1, now[k]));
            }
        }
        assert forall|j: int, c: ClientView| j < n && #[trigger] is_behind(h, j, c) implies now.contains(
            c,
        ) by {
            if j < n - 1 {
                assert(before.contains(c));
                let k = choose|k: int| 0 <= k < before.len() && before[k] == c;
                assert(now[k] == c);
            } else {
                assert(clients::client_behind(h.files[j]) == Some(c.drm));
                assert(now[now.len() - 1] == c);
            }
        }
    }
}

/// The clients that are found are those behind open files that lead to a GPU, and no
/// others; those of the first processes stand before those of the others.
pub proof fn clients_are_behind_open_files(hs: Seq<GpuHolderView>, more: Seq<GpuHolderView>)
    ensures
        clients::all_clients(hs + more) == clients::all_clients(hs) + clients::all_clients(more),
        forall|c: ClientView| #[trigger]
            clients::all_clients(hs).contains(c) <==> #[trigger] is_open(hs, c),
    decreases hs.len() + more.len(),
{
    if more.len() > 0 {
        clients_are_behind_open_files(hs, more.drop_last());
        assert((hs + more).drop_last() == hs + more.drop_last());
        assert((hs + more).last() == more.last());
        assert(clients::all_clients(hs + more) == clients::all_clients(hs) + clients::all_clients(
            more,
        ));
    } else {
        assert(hs + more == hs);
        assert(clients::all_clients(hs) + clients::all_clients(more) == clients::all_clients(hs));
        if hs.len() > 0 {
            let rest = hs.drop_last();
            let h = hs.last();
            let n = clients::files_looked_at(h);
            let before = clients::all_clients(rest);
            let all = clients::all_clients(hs);
            clients_are_behind_open_files(rest, more);
            lemma_clients_of(h, n);
            let own = clients::clients_of(h, n);
            assert(hs[hs.len() - 1] == h);
            assert forall|c: ClientView| #[trigger] all.contains(c) implies is_open(hs, c) by {
                let k = choose|k: int| 0 <= k < all.len() && all[k] == c;
                if k < before.len() {
                    assert(before[k] == c);
                    assert(before.contains(c));
                    assert(is_open(rest, c));
                    let i = choose|i: int| 0 <= i < rest.len() && has_open(#[trigger] rest[i], c);
                    assert(has_open(hs[i], c));
                } else {
                    assert(own[k - before.len()] == c);
                    assert(has_open(hs[hs.len() - 1], c));
                }
            }
            assert forall|c: ClientView| #[trigger] is_open(hs, c) implies all.contains(c) by {
                let i = choose|i: int| 0 <= i < hs.len() && has_open(#[trigger] hs[i], c);
                if i < rest.len() {
                    assert(has_open(rest[i], c));
                    assert(is_open(rest, c));
                    assert(before.contains(c));
                    let k = choose|k: int| 0 <= k < before.len() && before[k] == c;
                    assert(all[k] == c);
                } else {
                    let j = choose|j: int| is_behind(h, j, c);
                    assert(own.contains(c));
                    let k = choose|k: int| 0 <= k < own.len() && own[k] == c;
                    assert(all[before.len() + k] == c);
                }
            }
        }
    }
}

/// Whether `a` and `b` are one client: one device, one identifier.
pub open spec fn is_same(a: DrmClientView, b: DrmClientView) -> bool {
    a.pdev == b.pdev && a.client == b.client
}

/// Whether the client at `i` is the first of its kind to be found.
pub open spec fn is_new(cs: Seq<ClientView>, i: int) -> bool {
    &&& 0 <= i < cs.len()
    &&& forall|j: int| 0 <= j < i ==> !is_same((#[trigger] cs[j]).drm, cs[i].drm)
}

/// Of several findings of one client the first counts, and no other.
pub proof fn first_findings_count(cs: Seq<ClientView>)
    ensures
        forall|i: int| #[trigger] is_new(cs, i) ==> clients::once_each(cs).contains(cs[i]),
        forall|k: int|
            0 <= k < clients::once_each(cs).len() ==> exists|i: int| #[trigger]
                is_new(cs, i) && #[trigger] clients::once_each(cs)[k] == cs[i],
        forall|k: int, m: int|
            0 <= k < m < clients::once_each(cs).len() ==> !is_same(
                (#[trigger] clients::once_each(cs)[k]).drm,
                (#[trigger] clients::once_each(cs)[m]).drm,
            ),
    decreases cs.len(),
{
    clients::shared_clients_count_once(cs);
    let once = clients::once_each(cs);
    assert forall|k: int, m: int| 0 <= k < m < once.len() implies !is_same(
        (#[trigger] once[k]).drm,
        (#[trigger] once[m]).drm,
    ) by {
        assert(clients::client_key(once[k].drm) != clients::client_key(once[m].drm));
    }
    if cs.len() > 0 {
        let rest = cs.drop_last();
        let c = cs.last();
        let before = clients::once_each(rest);
        first_findings_count(rest);
        clients::lemma_once_each(rest, c);
        assert(rest.push(c) == cs);
        assert forall|i: int| #[trigger] is_new(cs, i) implies once.contains(cs[i]) by {
            if i < rest.len() {
                assert(is_new(rest, i)) by {
                    assert forall|j: int| 0 <= j < i implies !is_same(
                        (#[trigger] rest[j]).drm,
                        rest[i].drm,
                    ) by {
                        assert(rest[j] == cs[j]);
                    }
                }
                let k = choose|k: int| 0 <= k < before.len() && before[k] == rest[i];
                assert(once[k] == cs[i]);
            } else {
                if clients::has_key(before, clients::client_key(c.drm)) {
                    let k = choose|k: int|
                        0 <= k < before.len() && clients::client_key((#[trigger] before[k]).drm)
                            == clients::client_key(c.drm);
                    let j = choose|j: int| #[trigger] is_new(rest, j) && before[k] == rest[j];
                    assert(cs[j] == rest[j]);
                    assert(is_same(cs[j].drm, cs[i].drm));
                }
                assert(once[before.len() as int] == c);
            }
        }
        assert forall|k: int| 0 <= k < once.len() implies exists|i: int| #[trigger]
            is_new(cs, i) && #[trigger] once[k] == cs[i] by {
            if k < before.len() {
                assert(once[k] == before[k]);
                let i = choose|i: int| #[trigger] is_new(rest, i) && before[k] == rest[i];
                assert(is_new(cs, i)) by {
                    assert forall|j: int| 0 <= j < i implies !is_same(
                        (#[trigger] cs[j]).drm,
                        cs[i].drm,
                    ) by {
                        assert(rest[j] == cs[j]);
                    }
                }
                assert(once[k] == cs[i]);
            } else {
                let i = cs.len() - 1;
                assert(is_new(cs, i)) by {
                    assert forall|j: int| 0 <= j < i implies !is_same(
                        (#[trigger] cs[j]).drm,
                        cs[i].drm,
                    ) by {
                        assert(cs[j] == rest[j]);
                        clients::lemma_keys_found(rest, j);
                    }
                }
                assert(once[k] == cs[i]);
            }
        }
    }
}

/// A look keeps the times of the engines of every client it saw, and of no other.
pub proof fn looks_keep_the_engines(cs: Seq<ClientView>, pdev: Seq<char>, client: Seq<char>)
    requires
        forall|i: int, j: int|
            0 <= i < j < cs.len() ==> !is_same((#[trigger] cs[i]).drm, (#[trigger] cs[j]).drm),
    ensures
        forall|i: int|
            0 <= i < cs.len() && (#[trigger] cs[i]).drm.pdev == pdev && cs[i].drm.client == client
                ==> clients::engine_times(cs).contains_key((pdev, client)) && clients::engine_times(
                cs,
            )[(pdev, client)] == cs[i].drm.engines,
        (forall|i: int|
            0 <= i < cs.len() ==> (#[trigger] cs[i]).drm.pdev != pdev || cs[i].drm.client != client)
            ==> !clients::engine_times(cs).contains_key((pdev, client)),
    decreases cs.len(),
{
    if cs.len() > 0 {
        let rest = cs.drop_last();
        assert forall|i: int, j: int| 0 <= i < j < rest.len() implies !is_same(
            (#[trigger] rest[i]).drm,
            (#[trigger] rest[j]).drm,
        ) by {
            assert(rest[i] == cs[i] && rest[j] == cs[j]);
        }
        looks_keep_the_engines(rest, pdev, client);
        let last = cs[cs.len() - 1];
        assert(last == cs.last());
        assert(forall|i: int| 0 <= i < rest.len() ==> #[trigger] rest[i] == cs[i]);
        assert forall|i: int|
            0 <= i < cs.len() && (#[trigger] cs[i]).drm.pdev == pdev && cs[i].drm.client
                == client implies clients::engine_times(cs).contains_key((pdev, client))
            && clients::engine_times(cs)[(pdev, client)] == cs[i].drm.engines by {
            if i < rest.len() {
                assert(rest[i].drm.pdev == pdev);
                assert(!is_same(cs[i].drm, last.drm));
            }
        }
    }
}

/// The times of the last look are gone by where they are not too old, and else none are.
pub proof fn old_times_are_not_gone_by(prev: EngineTimes, key: (Seq<char>, Seq<char>))
    ensures
        clients::times_baseline(prev, true) == prev,
        !clients::times_baseline(prev, false).contains_key(key),
{
}

/// `n`, but no more than `limit`.
pub open spec fn capped(n: int, limit: nat) -> int {
    if n < limit {
        n
    } else {
        limit as int
    }
}

/// What a client has used is told with its process, its memory and its GPU. A client that
/// was known before has been busy as long as the engine that worked longest since, but no
/// longer than has passed; one that was not has not been busy.
pub proof fn clients_are_as_busy_as_their_busiest_engine(
    base: EngineTimes,
    elapsed: nat,
    c: ClientView,
)
    requires
        c.drm.engines.dom().finite(),
    ensures
        ({
            let used = clients::share(base, elapsed, c);
            let key = (c.drm.pdev, c.drm.client);
            let now = c.drm.engines;
            let was = base[key];
            &&& used.pid == c.pid
            &&& used.name == c.name
            &&& used.vram == c.drm.vram
            &&& used.pdev == c.drm.pdev
            &&& !base.contains_key(key) ==> used.busy == 0
            &&& base.contains_key(key) ==> {
                &&& forall|e: Seq<char>| #[trigger]
                    now.contains_key(e) && was.contains_key(e) ==> used.busy >= capped(
                        now[e] - was[e],
                        elapsed,
                    )
                &&& used.busy == 0 || exists|e: Seq<char>| #[trigger]
                    now.contains_key(e) && was.contains_key(e) && used.busy == capped(
                        now[e] - was[e],
                        elapsed,
                    )
            }
        }),
{
    let key = (c.drm.pdev, c.drm.client);
    let now = c.drm.engines;
    let was = base[key];
    clients::busiest_engine_counts(now, was);
    let most = clients::busiest(now, was);
    let used = clients::share(base, elapsed, c);
    if base.contains_key(key) {
        assert forall|e: Seq<char>| #[trigger]
            now.contains_key(e) && was.contains_key(e) implies used.busy >= capped(
            now[e] - was[e],
            elapsed,
        ) by {}
        if used.busy > 0 {
            let e = choose|e: Seq<char>| #[trigger]
                now.contains_key(e) && was.contains_key(e) && crate::groups::growth(
                    now[e] as int,
                    was[e] as int,
                ) == most;
            assert(now.contains_key(e) && used.busy == capped(now[e] - was[e], elapsed));
        }
    }
}

/// The video memory that the shares `ss` have on the GPU `pdev`.
pub open spec fn memory_on(ss: Seq<ShareView>, pdev: Seq<char>) -> nat {
    cluster::sum(ss.filter(|s: ShareView| s.pdev == pdev), |s: ShareView| s.vram)
}

/// A user is made of the shares of its name: it has been busy as long as they have together,
/// but no longer than has passed, holds the memory that they hold, goes by the process of
/// the first, and is told with the first GPU on which they hold the most.
pub proof fn users_hold_the_shares_of_their_name(ss: Seq<ShareView>, elapsed: nat, k: int)
    requires
        0 <= k < clients::users_of(ss, elapsed).len(),
    ensures
        ({
            let u = clients::users_of(ss, elapsed)[k];
            let ms = ss.filter(|s: ShareView| s.name == u.name);
            &&& ms.len() > 0
            &&& u.pid == ms[0].pid
            &&& u.busy == capped(cluster::sum(ms, |s: ShareView| s.busy) as int, elapsed)
            &&& u.vram == cluster::sum(ms, |s: ShareView| s.vram)
            &&& exists|i: int|
                {
                    &&& 0 <= i < ms.len()
                    &&& u.id == (#[trigger] ms[i]).pdev
                    &&& forall|j: int|
                        0 <= j < ms.len() ==> memory_on(ms, (#[trigger] ms[j]).pdev) <= memory_on(
                            ms,
                            u.id,
                        )
                    &&& forall|j: int|
                        0 <= j < i ==> memory_on(ms, (#[trigger] ms[j]).pdev) < memory_on(ms, u.id)
                }
        }),
{
    let name_of = clients::share_name();
    let all = cluster::names_in(ss, name_of);
    cluster::names_are_those_of_items(ss, name_of);
    let u = clients::users_of(ss, elapsed)[k];
    let by = cluster::goes_by(name_of, all[k]);
    let ms = ss.filter(by);
    assert(u == clients::gpu_grouping(elapsed)(ms, all[k]));
    assert(by =~= (|s: ShareView| s.name == u.name));
    assert(clients::busy_time() =~= (|s: ShareView| s.busy));
    assert(clients::video_memory() =~= (|s: ShareView| s.vram));
    clients::main_gpu_holds_the_most(ms);
    assert forall|pdev: Seq<char>| #[trigger] memory_on(ms, pdev) == clients::held_on(ms, pdev) by {
        assert(clients::is_on(pdev) =~= (|s: ShareView| s.pdev == pdev));
    }
    let i = clients::fullest(ms, ms.len());
    assert(u.id == ms[i].pdev);
    assert forall|j: int| 0 <= j < ms.len() implies memory_on(ms, (#[trigger] ms[j]).pdev)
        <= memory_on(ms, u.id) by {
        assert(memory_on(ms, ms[j].pdev) == clients::held_on(ms, ms[j].pdev));
        assert(memory_on(ms, u.id) == clients::held_on(ms, u.id));
    }
    assert forall|j: int| 0 <= j < i implies memory_on(ms, (#[trigger] ms[j]).pdev) < memory_on(
        ms,
        u.id,
    ) by {
        assert(memory_on(ms, ms[j].pdev) == clients::held_on(ms, ms[j].pdev));
        assert(memory_on(ms, u.id) == clients::held_on(ms, u.id));
    }
}

/// Whether `a` stands before `b` in the list of GPU users, or with it: it has been busy for
/// longer, or as long and holds no less memory.
pub open spec fn leads(a: GpuUserView, b: GpuUserView) -> bool {
    a.busy > b.busy || a.busy == b.busy && a.vram >= b.vram
}

/// The list of GPU users has each that has been busy or holds memory, from the busiest on
/// and then from most to least memory, up to eight; those left out stand behind those that
/// are listed.
pub proof fn gpu_list_holds_the_busiest(us: Seq<GpuUserView>)
    ensures
        ({
            let list = clients::gpu_rows(us);
            &&& list.len() <= 8
            &&& forall|i: int|
                0 <= i < list.len() ==> us.contains(#[trigger] list[i]) && (list[i].busy > 0
                    || list[i].vram > 0)
            &&& forall|i: int, j: int|
                0 <= i < j < list.len() ==> leads(#[trigger] list[i], #[trigger] list[j])
            &&& forall|k: int|
                0 <= k < us.len() && ((#[trigger] us[k]).busy > 0 || us[k].vram > 0) ==> {
                    ||| list.contains(us[k])
                    ||| list.len() == 8 && forall|i: int|
                        0 <= i < list.len() ==> leads(#[trigger] list[i], us[k])
                }
        }),
{
    broadcast use vstd::seq_lib::group_filter_ensures;
    broadcast use vstd::seq_lib::group_to_multiset_ensures;

    let p = clients::uses_gpu();
    let kept = us.filter(p);
    let all = rank::arrange::<GpuUser>(kept);
    let list = clients::gpu_rows(us);
    rank::arrangement_keeps_items::<GpuUser>(kept);
    rank::arrangement_is_in_order::<GpuUser>(kept);
    assert forall|i: int| 0 <= i < list.len() implies us.contains(#[trigger] list[i]) && (
    list[i].busy > 0 || list[i].vram > 0) by {
        rank::lemma_arranged_came_in::<GpuUser>(kept, i);
        let k = choose|k: int| 0 <= k < kept.len() && kept[k] == all[i];
        assert(p(kept[k]));
        us.lemma_filter_contains_rev(p, kept[k]);
    }
    assert forall|i: int, j: int| 0 <= i < j < list.len() implies leads(
        #[trigger] list[i],
        #[trigger] list[j],
    ) by {
        assert(!GpuUser::before(all[j], all[i]));
    }
    assert forall|k: int|
        0 <= k < us.len() && ((#[trigger] us[k]).busy > 0 || us[k].vram > 0) implies {
        ||| list.contains(us[k])
        ||| list.len() == 8 && forall|i: int|
            0 <= i < list.len() ==> leads(#[trigger] list[i], us[k])
    } by {
        assert(p(us[k]));
        assert(kept.contains(us[k]));
        assert(all.to_multiset().count(us[k]) > 0);
        assert(all.contains(us[k]));
        let m = choose|m: int| 0 <= m < all.len() && all[m] == us[k];
        if m < list.len() {
            assert(list[m] == us[k]);
        } else {
            assert forall|i: int| 0 <= i < list.len() implies leads(#[trigger] list[i], us[k]) by {
                assert(!GpuUser::before(all[m], all[i]));
            }
        }
    }
}

/// Every client has one share, in its place.
pub proof fn clients_have_a_share_each(
    base: EngineTimes,
    elapsed: nat,
    cs: Seq<ClientView>,
    i: int,
)
    requires
        0 <= i < cs.len(),
    ensures
        clients::shares(base, elapsed, cs).len() == cs.len(),
        clients::shares(base, elapsed, cs)[i] == clients::share(base, elapsed, cs[i]),
{
}

/// Parts of a path that are empty, or a dot, lead nowhere else.
pub proof fn dots_and_doubled_slashes_do_not_count(rest: Seq<char>)
    ensures
        clients::is_dri(seq!['/', '/'] + rest) == clients::is_dri(seq!['/'] + rest),
        clients::is_dri(seq!['/', '.', '/'] + rest) == clients::is_dri(seq!['/'] + rest),
{
    let none = Seq::<char>::empty();
    let dot = seq!['.'];
    reveal_strlit(".");
    assert("."@ == dot);
    let parts = text::split_on(rest, '/');
    let one = seq!['/'] + rest;
    let two = seq!['/', '/'] + rest;
    let dotted = seq!['/', '.', '/'] + rest;
    assert(one == none.push('/') + rest);
    assert(two == none.push('/') + (none.push('/') + rest));
    assert(dotted == none.push('/') + (dot.push('/') + rest));
    reading::fields_stand_between_separators(none, '/', rest);
    reading::fields_stand_between_separators(none, '/', none.push('/') + rest);
    reading::fields_stand_between_separators(none, '/', dot.push('/') + rest);
    reading::fields_stand_between_separators(dot, '/', rest);
    lemma_filter_first(none, parts);
    lemma_filter_first(none, seq![none] + parts);
    lemma_filter_first(none, seq![dot] + parts);
    lemma_filter_first(dot, parts);
    assert(clients::path_parts(two) == clients::path_parts(one));
    assert(clients::path_parts(dotted) == clients::path_parts(one));
}

} // verus!
