//! That a GPU client counts once, however many files it is open through.

use crate::clients;
use crate::clients::{ClientView, EngineTimes, GpuHolderView, GpuUserView, OpenFileView, ShareView};
use crate::cluster;
use crate::traffic::FD_SCAN_LIMIT;
use vstd::prelude::*;

verus! {

/// The process `h` with one more open file, the `j`-th.
pub open spec fn with_file(h: GpuHolderView, j: int, f: OpenFileView) -> GpuHolderView {
    GpuHolderView { files: h.files.insert(j, f), ..h }
}

/// The processes `hs`, the `p`-th of which has one more open file.
pub open spec fn with_file_of(
    hs: Seq<GpuHolderView>,
    p: int,
    j: int,
    f: OpenFileView,
) -> Seq<GpuHolderView> {
    hs.update(p, with_file(hs[p], j, f))
}

/// The clients of the processes `hs` that count.
pub open spec fn counted(hs: Seq<GpuHolderView>) -> Seq<ClientView> {
    clients::once_each(clients::all_clients(hs))
}

/// The list of GPU users of the processes `hs`.
pub open spec fn rows(base: EngineTimes, elapsed: nat, hs: Seq<GpuHolderView>) -> Seq<GpuUserView> {
    clients::gpu_rows(clients::users_of(clients::shares(base, elapsed, counted(hs)), elapsed))
}

/// A client whose key was found before does not count.
proof fn lemma_skip_known(u: Seq<ClientView>, c: ClientView, w: Seq<ClientView>)
    requires
        clients::has_key(u, clients::client_key(c.drm)),
    ensures
        clients::once_each(u.push(c) + w) == clients::once_each(u + w),
    decreases w.len(),
{
    if w.len() == 0 {
        assert(u.push(c) + w == u.push(c));
        assert(u + w == u);
        let key = clients::client_key(c.drm);
        let k = choose|k: int|
            0 <= k < u.len() && clients::client_key((#[trigger] u[k]).drm) == key;
        clients::lemma_keys_found(u, k);
        clients::lemma_once_each(u, c);
    } else {
        let rest = w.drop_last();
        lemma_skip_known(u, c, rest);
        assert(u.push(c) + w == (u.push(c) + rest).push(w.last()));
        assert(u + w == (u + rest).push(w.last()));
        clients::lemma_once_each(u.push(c) + rest, w.last());
        clients::lemma_once_each(u + rest, w.last());
    }
}

/// The files before the new one are as they were.
proof fn lemma_clients_before(h: GpuHolderView, j: int, f: OpenFileView, m: nat)
    requires
        m <= j <= h.files.len(),
    ensures
        clients::clients_of(with_file(h, j, f), m) == clients::clients_of(h, m),
    decreases m,
{
    if m > 0 {
        lemma_clients_before(h, j, f, (m - 1) as nat);
        assert(with_file(h, j, f).files[m - 1] == h.files[m - 1]);
    }
}

/// The clients behind the files from `m` to `n`.
proof fn lemma_clients_between(h: GpuHolderView, m: nat, n: nat) -> (w: Seq<ClientView>)
    requires
        m <= n <= h.files.len(),
    ensures
        clients::clients_of(h, n) == clients::clients_of(h, m) + w,
        forall|i: int|
            0 <= i < w.len() ==> (#[trigger] w[i]).pid == h.pid && w[i].name == h.name && exists|
                a: int,
            |
                m <= a < n && #[trigger] clients::client_behind(h.files[a]) == Some(w[i].drm),
    decreases n,
{
    if n == m {
        assert(clients::clients_of(h, m) == clients::clients_of(h, m) + Seq::<ClientView>::empty());
        Seq::empty()
    } else {
        let before = lemma_clients_between(h, m, (n - 1) as nat);
        let file = clients::client_behind(h.files[n - 1]);
        match file {
            Some(drm) => {
                let w = before.push(ClientView { pid: h.pid, name: h.name, drm });
                assert(clients::clients_of(h, n) == clients::clients_of(h, m) + w);
                assert forall|i: int| 0 <= i < w.len() implies (#[trigger] w[i]).pid == h.pid
                    && w[i].name == h.name && exists|a: int|
                    m <= a < n && #[trigger] clients::client_behind(h.files[a]) == Some(
                        w[i].drm,
                    ) by {
                    if i < before.len() {
                        assert(w[i] == before[i]);
                    } else {
                        assert(clients::client_behind(h.files[n - 1]) == Some(w[i].drm));
                    }
                }
                w
            },
            None => before,
        }
    }
}

/// The files behind the new one are as they were.
proof fn lemma_clients_behind(
    h: GpuHolderView,
    j: int,
    f: OpenFileView,
    c: ClientView,
    n: nat,
    w: Seq<ClientView>,
)
    requires
        0 <= j <= n <= h.files.len(),
        c.pid == h.pid && c.name == h.name,
        clients::client_behind(f) == Some(c.drm),
        clients::clients_of(h, n) == clients::clients_of(h, j as nat) + w,
    ensures
        clients::clients_of(with_file(h, j, f), n + 1) == clients::clients_of(h, j as nat).push(c)
            + w,
    decreases n,
{
    let more = with_file(h, j, f);
    let u = clients::clients_of(h, j as nat);
    if n == j {
        lemma_clients_before(h, j, f, n);
        assert(more.files[j] == f);
        assert(w.len() == 0) by {
            assert((u + w).len() == u.len());
        }
        assert(u.push(c) + w == u.push(c));
        assert(clients::clients_of(more, n + 1) == u.push(c));
    } else {
        let before = lemma_clients_between(h, j as nat, (n - 1) as nat);
        lemma_clients_behind(h, j, f, c, (n - 1) as nat, before);
        assert(more.files[n as int] == h.files[n - 1]);
        match clients::client_behind(h.files[n - 1]) {
            Some(drm) => {
                let last = ClientView { pid: h.pid, name: h.name, drm };
                assert(u + w == u + before.push(last)) by {
                    assert((u + before).push(last) == u + before.push(last));
                }
                assert(w == before.push(last)) by {
                    assert((u + w).skip(u.len() as int) == w);
                    assert((u + before.push(last)).skip(u.len() as int) == before.push(last));
                }
                assert((u.push(c) + before).push(last) == u.push(c) + w);
            },
            None => {
                assert(w == before) by {
                    assert((u + w).skip(u.len() as int) == w);
                    assert((u + before).skip(u.len() as int) == before);
                }
            },
        }
    }
}

/// All clients, as the new file parts them: those before it, those of the same process
/// behind it, and the rest.
proof fn lemma_all_clients(
    hs: Seq<GpuHolderView>,
    p: int,
    j: int,
    f: OpenFileView,
    c: ClientView,
    w: Seq<ClientView>,
    m: int,
) -> (rest: Seq<ClientView>)
    requires
        0 <= p < m <= hs.len(),
        0 <= j <= hs[p].files.len() < FD_SCAN_LIMIT,
        c.pid == hs[p].pid && c.name == hs[p].name,
        clients::client_behind(f) == Some(c.drm),
        clients::clients_of(hs[p], hs[p].files.len()) == clients::clients_of(hs[p], j as nat) + w,
    ensures
        ({
            let u = clients::all_clients(hs.take(p)) + clients::clients_of(hs[p], j as nat);
            &&& clients::all_clients(hs.take(m)) == u + w + rest
            &&& clients::all_clients(with_file_of(hs, p, j, f).take(m)) == u.push(c) + w + rest
        }),
    decreases m,
{
    let more = with_file_of(hs, p, j, f);
    let h = hs[p];
    let before = clients::all_clients(hs.take(p));
    let own = clients::clients_of(h, j as nat);
    let u = before + own;
    assert(hs.take(m).last() == hs[m - 1]);
    assert(hs.take(m).drop_last() == hs.take(m - 1));
    assert(more.take(m).drop_last() == more.take(m - 1));
    if m == p + 1 {
        assert(more.take(m - 1) == hs.take(p));
        assert(more.take(m).last() == with_file(h, j, f));
        lemma_clients_behind(h, j, f, c, h.files.len(), w);
        assert(before + (own + w) == u + w + Seq::<ClientView>::empty());
        assert(before + (own.push(c) + w) == u.push(c) + w + Seq::<ClientView>::empty());
        Seq::empty()
    } else {
        let rest = lemma_all_clients(hs, p, j, f, c, w, m - 1);
        let last = clients::clients_of(hs[m - 1], clients::files_looked_at(hs[m - 1]));
        assert(more.take(m).last() == hs[m - 1]);
        assert((u + w + rest) + last == u + w + (rest + last));
        assert((u.push(c) + w + rest) + last == u.push(c) + w + (rest + last));
        rest + last
    }
}

/// A further file of a client that a process has open through an earlier one changes
/// nothing, whatever figures it gives: the same clients count, so that the rows, and what
/// is kept for the next sample, are the same.
pub proof fn further_file_changes_nothing(
    base: EngineTimes,
    elapsed: nat,
    hs: Seq<GpuHolderView>,
    p: int,
    k: int,
    j: int,
    f: OpenFileView,
)
    requires
        0 <= p < hs.len(),
        0 <= k < j <= hs[p].files.len() < FD_SCAN_LIMIT,
        clients::client_behind(hs[p].files[k]) is Some,
        clients::client_behind(f) is Some,
        clients::client_key(clients::client_behind(f)->0) == clients::client_key(
            clients::client_behind(hs[p].files[k])->0,
        ),
    ensures
        counted(with_file_of(hs, p, j, f)) == counted(hs),
        rows(base, elapsed, with_file_of(hs, p, j, f)) == rows(base, elapsed, hs),
{
    let h = hs[p];
    let drm = clients::client_behind(f)->0;
    let c = ClientView { pid: h.pid, name: h.name, drm };
    let known = ClientView { pid: h.pid, name: h.name, drm: clients::client_behind(h.files[k])->0 };
    let own = clients::clients_of(h, j as nat);
    let u = clients::all_clients(hs.take(p)) + own;
    let to_known = clients::clients_of(h, k as nat);
    let between = lemma_clients_between(h, (k + 1) as nat, j as nat);
    assert(own == to_known.push(known) + between);
    let at = clients::all_clients(hs.take(p)).len() + to_known.len();
    assert(u[at as int] == known);
    assert(clients::has_key(u, clients::client_key(drm)));
    let w = lemma_clients_between(h, j as nat, h.files.len());
    let rest = lemma_all_clients(hs, p, j, f, c, w, hs.len() as int);
    assert(hs.take(hs.len() as int) == hs);
    let more = with_file_of(hs, p, j, f);
    assert(more.take(hs.len() as int) == more);
    assert(u + w + rest == u + (w + rest));
    assert(u.push(c) + w + rest == u.push(c) + (w + rest));
    lemma_skip_known(u, c, w + rest);
}

/// Whether one GPU alone holds the most of the video memory of `ss`.
pub open spec fn has_one_main_gpu(ss: Seq<ShareView>) -> bool {
    forall|j: int|
        0 <= j < ss.len() ==> (#[trigger] ss[j]).pdev == clients::main_gpu(ss) || clients::held_on(
            ss,
            ss[j].pdev,
        ) < clients::held_on(ss, clients::main_gpu(ss))
}

/// What the processes that go by `name` have used through the clients `cs`.
pub open spec fn shares_by(
    base: EngineTimes,
    elapsed: nat,
    cs: Seq<ClientView>,
    name: Seq<char>,
) -> Seq<ShareView> {
    cluster::members(clients::shares(base, elapsed, cs), clients::share_name(), name)
}

/// Whether the clients `a` and `b` make the same users, and leave the same times behind.
pub open spec fn come_to_the_same(
    base: EngineTimes,
    elapsed: nat,
    a: Seq<ClientView>,
    b: Seq<ClientView>,
) -> bool {
    &&& clients::users_of(clients::shares(base, elapsed, a), elapsed) == clients::users_of(
        clients::shares(base, elapsed, b),
        elapsed,
    )
    &&& clients::engine_times(a) == clients::engine_times(b)
}

/// Whether a key is found does not depend on the order.
proof fn lemma_has_key_swapped(
    a: Seq<ClientView>,
    x: ClientView,
    y: ClientView,
    b: Seq<ClientView>,
    key: (Seq<char>, Seq<char>),
)
    requires
        clients::has_key(a + seq![x, y] + b, key),
    ensures
        clients::has_key(a + seq![y, x] + b, key),
{
    let s = a + seq![x, y] + b;
    let t = a + seq![y, x] + b;
    let k = choose|k: int| 0 <= k < s.len() && clients::client_key((#[trigger] s[k]).drm) == key;
    let n = a.len() as int;
    let i = if k == n {
        n + 1
    } else if k == n + 1 {
        n
    } else {
        k
    };
    assert(t[i] == s[k]);
}

/// Whether a key is found among a list and one more.
proof fn lemma_has_key_push(a: Seq<ClientView>, x: ClientView, key: (Seq<char>, Seq<char>))
    ensures
        clients::has_key(a.push(x), key) == (clients::has_key(a, key) || clients::client_key(x.drm)
            == key),
{
    let more = a.push(x);
    if clients::has_key(more, key) {
        let k = choose|k: int|
            0 <= k < more.len() && clients::client_key((#[trigger] more[k]).drm) == key;
        if k < a.len() {
            assert(clients::client_key(a[k].drm) == key);
        }
    }
    if clients::has_key(a, key) {
        let k = choose|k: int|
            0 <= k < a.len() && clients::client_key((#[trigger] a[k]).drm) == key;
        assert(clients::client_key(more[k].drm) == key);
    }
    if clients::client_key(x.drm) == key {
        assert(clients::client_key(more[a.len() as int].drm) == key);
    }
}

/// Two clients that are found in the other order count the same, or stand in the other
/// order among those that count.
proof fn lemma_once_swapped(
    a: Seq<ClientView>,
    x: ClientView,
    y: ClientView,
    b: Seq<ClientView>,
) -> (r: (bool, Seq<ClientView>, Seq<ClientView>))
    requires
        clients::client_key(x.drm) != clients::client_key(y.drm),
    ensures
        r.0 ==> clients::once_each(a + seq![x, y] + b) == clients::once_each(a + seq![y, x] + b),
        !r.0 ==> clients::once_each(a + seq![x, y] + b) == r.1 + seq![x, y] + r.2,
        !r.0 ==> clients::once_each(a + seq![y, x] + b) == r.1 + seq![y, x] + r.2,
    decreases b.len(),
{
    if b.len() == 0 {
        let once = clients::once_each(a);
        let kx = clients::client_key(x.drm);
        let ky = clients::client_key(y.drm);
        assert(a + seq![x, y] + b == a.push(x).push(y));
        assert(a + seq![y, x] + b == a.push(y).push(x));
        clients::lemma_once_each(a, x);
        clients::lemma_once_each(a, y);
        clients::lemma_once_each(a.push(x), y);
        clients::lemma_once_each(a.push(y), x);
        lemma_has_key_push(once, x, ky);
        lemma_has_key_push(once, y, kx);
        if clients::has_key(once, kx) || clients::has_key(once, ky) {
            (true, Seq::empty(), Seq::empty())
        } else {
            assert(once.push(x).push(y) == once + seq![x, y] + Seq::<ClientView>::empty());
            assert(once.push(y).push(x) == once + seq![y, x] + Seq::<ClientView>::empty());
            (false, once, Seq::empty())
        }
    } else {
        let z = b.last();
        let kz = clients::client_key(z.drm);
        let rest = b.drop_last();
        let (same, p, t) = lemma_once_swapped(a, x, y, rest);
        assert(a + seq![x, y] + b == (a + seq![x, y] + rest).push(z));
        assert(a + seq![y, x] + b == (a + seq![y, x] + rest).push(z));
        clients::lemma_once_each(a + seq![x, y] + rest, z);
        clients::lemma_once_each(a + seq![y, x] + rest, z);
        if same {
            (true, Seq::empty(), Seq::empty())
        } else if clients::has_key(p + seq![x, y] + t, kz) {
            lemma_has_key_swapped(p, x, y, t, kz);
            (false, p, t)
        } else {
            if clients::has_key(p + seq![y, x] + t, kz) {
                lemma_has_key_swapped(p, y, x, t, kz);
            }
            assert((p + seq![x, y] + t).push(z) == p + seq![x, y] + t.push(z));
            assert((p + seq![y, x] + t).push(z) == p + seq![y, x] + t.push(z));
            (false, p, t.push(z))
        }
    }
}

/// The names in a longer list depend on the names in its beginning.
proof fn lemma_names_go_on(a: Seq<ShareView>, b: Seq<ShareView>, t: Seq<ShareView>)
    requires
        cluster::names_in(a, clients::share_name()) == cluster::names_in(b, clients::share_name()),
    ensures
        cluster::names_in(a + t, clients::share_name()) == cluster::names_in(
            b + t,
            clients::share_name(),
        ),
    decreases t.len(),
{
    if t.len() == 0 {
        assert(a + t == a && b + t == b);
    } else {
        lemma_names_go_on(a, b, t.drop_last());
        assert((a + t).drop_last() == a + t.drop_last());
        assert((b + t).drop_last() == b + t.drop_last());
    }
}

/// Two shares of one name bring in that name, in either order.
proof fn lemma_names_swapped(p: Seq<ShareView>, x: ShareView, y: ShareView, t: Seq<ShareView>)
    requires
        x.name == y.name,
    ensures
        cluster::names_in(p + seq![x, y] + t, clients::share_name()) == cluster::names_in(
            p + seq![y, x] + t,
            clients::share_name(),
        ),
{
    let name_of = clients::share_name();
    let names = cluster::names_in(p, name_of);
    assert forall|v: ShareView, w: ShareView| v.name == x.name && w.name == x.name implies
        #[trigger] cluster::names_in(p.push(v).push(w), name_of) == (if names.contains(x.name) {
        names
    } else {
        names.push(x.name)
    }) by {
        assert(p.push(v).push(w).drop_last() == p.push(v));
        assert(p.push(v).drop_last() == p);
        reveal_with_fuel(cluster::names_in, 3);
        if !names.contains(x.name) {
            assert(names.push(x.name)[names.len() as int] == x.name);
        }
    }
    assert(p + seq![x, y] == p.push(x).push(y));
    assert(p + seq![y, x] == p.push(y).push(x));
    assert(cluster::names_in(p.push(x).push(y), name_of) == cluster::names_in(
        p.push(y).push(x),
        name_of,
    ));
    lemma_names_go_on(p + seq![x, y], p + seq![y, x], t);
}

/// A filter passes over a list part by part.
proof fn lemma_filter_parts(
    p: Seq<ShareView>,
    x: ShareView,
    y: ShareView,
    t: Seq<ShareView>,
    pred: spec_fn(ShareView) -> bool,
)
    ensures
        (p + seq![x, y] + t).filter(pred) == p.filter(pred) + seq![x, y].filter(pred) + t.filter(
            pred,
        ),
        seq![x, y].filter(pred) == (if pred(x) && pred(y) {
            seq![x, y]
        } else if pred(x) {
            seq![x]
        } else if pred(y) {
            seq![y]
        } else {
            Seq::empty()
        }),
{
    Seq::filter_distributes_over_add(p + seq![x, y], t, pred);
    Seq::filter_distributes_over_add(p, seq![x, y], pred);
    reveal_with_fuel(Seq::filter, 3);
    assert(seq![x, y].drop_last() == seq![x]);
    assert(seq![x].drop_last() == Seq::<ShareView>::empty());
    assert(seq![x].push(y) == seq![x, y]);
    assert(Seq::<ShareView>::empty().push(x) == seq![x]);
    assert(Seq::<ShareView>::empty().push(y) == seq![y]);
}

/// Sums do not depend on the order.
proof fn lemma_sum_swapped(
    p: Seq<ShareView>,
    x: ShareView,
    y: ShareView,
    t: Seq<ShareView>,
    f: spec_fn(ShareView) -> nat,
)
    ensures
        cluster::sum(p + seq![x, y] + t, f) == cluster::sum(p + seq![y, x] + t, f),
{
    cluster::lemma_sum_together(p + seq![x, y], t, f);
    cluster::lemma_sum_together(p, seq![x, y], f);
    cluster::lemma_sum_together(p + seq![y, x], t, f);
    cluster::lemma_sum_together(p, seq![y, x], f);
    reveal_with_fuel(cluster::sum, 3);
    assert(seq![x, y].drop_last() == seq![x]);
    assert(seq![y, x].drop_last() == seq![y]);
    assert(seq![x].drop_last() == Seq::<ShareView>::empty());
    assert(seq![y].drop_last() == Seq::<ShareView>::empty());
}

/// What a GPU holds does not depend on the order.
proof fn lemma_held_swapped(
    p: Seq<ShareView>,
    x: ShareView,
    y: ShareView,
    t: Seq<ShareView>,
    pdev: Seq<char>,
)
    ensures
        clients::held_on(p + seq![x, y] + t, pdev) == clients::held_on(p + seq![y, x] + t, pdev),
{
    let on = clients::is_on(pdev);
    lemma_filter_parts(p, x, y, t, on);
    lemma_filter_parts(p, y, x, t, on);
    if on(x) && on(y) {
        lemma_sum_swapped(p.filter(on), x, y, t.filter(on), clients::video_memory());
    }
}

/// A GPU that alone holds the most does so in any order.
proof fn lemma_main_gpu_swapped(p: Seq<ShareView>, x: ShareView, y: ShareView, t: Seq<ShareView>)
    requires
        has_one_main_gpu(p + seq![x, y] + t),
    ensures
        has_one_main_gpu(p + seq![y, x] + t),
        clients::main_gpu(p + seq![y, x] + t) == clients::main_gpu(p + seq![x, y] + t),
{
    let s = p + seq![x, y] + t;
    let r = p + seq![y, x] + t;
    let n = p.len() as int;
    let g = clients::main_gpu(s);
    clients::main_gpu_holds_the_most(s);
    clients::main_gpu_holds_the_most(r);
    let i = clients::fullest(s, s.len());
    let k = clients::fullest(r, r.len());
    // each stands in the other list as well
    let there = if i == n {
        n + 1
    } else if i == n + 1 {
        n
    } else {
        i
    };
    assert(r[there] == s[i]);
    let here = if k == n {
        n + 1
    } else if k == n + 1 {
        n
    } else {
        k
    };
    assert(s[here] == r[k]);
    lemma_held_swapped(p, x, y, t, g);
    lemma_held_swapped(p, x, y, t, r[k].pdev);
    assert(clients::held_on(r, r[there].pdev) <= clients::held_on(r, r[k].pdev));
    assert(s[here].pdev == g || clients::held_on(s, s[here].pdev) < clients::held_on(s, g));
    assert(clients::main_gpu(r) == g);
    assert forall|j: int| 0 <= j < r.len() implies (#[trigger] r[j]).pdev == clients::main_gpu(r)
        || clients::held_on(r, r[j].pdev) < clients::held_on(r, clients::main_gpu(r)) by {
        let m = if j == n {
            n + 1
        } else if j == n + 1 {
            n
        } else {
            j
        };
        assert(s[m] == r[j]);
        lemma_held_swapped(p, x, y, t, r[j].pdev);
    }
}

/// Two shares of one process make the same users in either order, as long as one GPU
/// alone holds the most for the name they go by.
proof fn lemma_users_swapped(
    p: Seq<ShareView>,
    x: ShareView,
    y: ShareView,
    t: Seq<ShareView>,
    elapsed: nat,
)
    requires
        x.name == y.name && x.pid == y.pid,
        has_one_main_gpu(
            cluster::members(p + seq![x, y] + t, clients::share_name(), x.name),
        ),
    ensures
        clients::users_of(p + seq![x, y] + t, elapsed) == clients::users_of(
            p + seq![y, x] + t,
            elapsed,
        ),
        has_one_main_gpu(
            cluster::members(p + seq![y, x] + t, clients::share_name(), x.name),
        ),
{
    let name_of = clients::share_name();
    let s = p + seq![x, y] + t;
    let r = p + seq![y, x] + t;
    let make = clients::gpu_grouping(elapsed);
    lemma_names_swapped(p, x, y, t);
    let names = cluster::names_in(s, name_of);
    assert forall|name: Seq<char>| #[trigger] make(cluster::members(s, name_of, name), name)
        == make(cluster::members(r, name_of, name), name) by {
        let by = cluster::goes_by(name_of, name);
        lemma_filter_parts(p, x, y, t, by);
        lemma_filter_parts(p, y, x, t, by);
        if name == x.name {
            let pn = p.filter(by);
            let tn = t.filter(by);
            lemma_main_gpu_swapped(pn, x, y, tn);
            lemma_sum_swapped(pn, x, y, tn, clients::busy_time());
            lemma_sum_swapped(pn, x, y, tn, clients::video_memory());
            let a = pn + seq![x, y] + tn;
            let b = pn + seq![y, x] + tn;
            assert(a[0].pid == b[0].pid) by {
                if pn.len() > 0 {
                    assert(a[0] == pn[0] && b[0] == pn[0]);
                }
            }
        }
    }
    assert(clients::users_of(s, elapsed) == clients::users_of(r, elapsed)) by {
        assert forall|k: int| 0 <= k < names.len() implies #[trigger] clients::users_of(
            s,
            elapsed,
        )[k] == clients::users_of(r, elapsed)[k] by {
            assert(make(cluster::members(s, name_of, names[k]), names[k]) == make(
                cluster::members(r, name_of, names[k]),
                names[k],
            ));
        }
    }
    let by = cluster::goes_by(name_of, x.name);
    lemma_filter_parts(p, x, y, t, by);
    lemma_filter_parts(p, y, x, t, by);
    lemma_main_gpu_swapped(p.filter(by), x, y, t.filter(by));
}

/// The times that are left behind depend on those of the beginning.
proof fn lemma_times_go_on(a: Seq<ClientView>, b: Seq<ClientView>, t: Seq<ClientView>)
    requires
        clients::engine_times(a) == clients::engine_times(b),
    ensures
        clients::engine_times(a + t) == clients::engine_times(b + t),
    decreases t.len(),
{
    if t.len() == 0 {
        assert(a + t == a && b + t == b);
    } else {
        lemma_times_go_on(a, b, t.drop_last());
        assert((a + t).drop_last() == a + t.drop_last());
        assert((b + t).drop_last() == b + t.drop_last());
    }
}

/// Two clients of one process come to the same in either order.
proof fn lemma_clients_swapped(
    base: EngineTimes,
    elapsed: nat,
    p: Seq<ClientView>,
    x: ClientView,
    y: ClientView,
    t: Seq<ClientView>,
)
    requires
        x.name == y.name && x.pid == y.pid,
        clients::client_key(x.drm) != clients::client_key(y.drm),
        has_one_main_gpu(shares_by(base, elapsed, p + seq![x, y] + t, x.name)),
    ensures
        come_to_the_same(base, elapsed, p + seq![x, y] + t, p + seq![y, x] + t),
        has_one_main_gpu(shares_by(base, elapsed, p + seq![y, x] + t, x.name)),
{
    let ps = clients::shares(base, elapsed, p);
    let ts = clients::shares(base, elapsed, t);
    let sx = clients::share(base, elapsed, x);
    let sy = clients::share(base, elapsed, y);
    assert(clients::shares(base, elapsed, p + seq![x, y] + t) == ps + seq![sx, sy] + ts);
    assert(clients::shares(base, elapsed, p + seq![y, x] + t) == ps + seq![sy, sx] + ts);
    lemma_users_swapped(ps, sx, sy, ts, elapsed);
    let a = p.push(x).push(y);
    let b = p.push(y).push(x);
    assert(a.drop_last() == p.push(x) && p.push(x).drop_last() == p);
    assert(b.drop_last() == p.push(y) && p.push(y).drop_last() == p);
    assert(clients::engine_times(a) == clients::engine_times(b)) by {
        reveal_with_fuel(clients::engine_times, 3);
    }
    assert(p + seq![x, y] == a && p + seq![y, x] == b);
    lemma_times_go_on(a, b, t);
}

/// A client that is found before others of its process comes to the same.
proof fn lemma_found_earlier(
    base: EngineTimes,
    elapsed: nat,
    a: Seq<ClientView>,
    v: Seq<ClientView>,
    c: ClientView,
    b: Seq<ClientView>,
)
    requires
        forall|i: int|
            0 <= i < v.len() ==> (#[trigger] v[i]).name == c.name && v[i].pid == c.pid
                && clients::client_key(v[i].drm) != clients::client_key(c.drm),
        has_one_main_gpu(
            shares_by(base, elapsed, clients::once_each(a + v + seq![c] + b), c.name),
        ),
    ensures
        come_to_the_same(
            base,
            elapsed,
            clients::once_each(a + v + seq![c] + b),
            clients::once_each(a + seq![c] + v + b),
        ),
    decreases v.len(),
{
    if v.len() == 0 {
        assert(a + v + seq![c] + b == a + seq![c] + v + b);
    } else {
        let x = v.last();
        let rest = v.drop_last();
        let front = a + rest;
        assert(a + v + seq![c] + b == front + seq![x, c] + b);
        assert(front + seq![c, x] + b == a + rest + seq![c] + (seq![x] + b));
        assert(a + seq![c] + rest + (seq![x] + b) == a + seq![c] + v + b);
        let (same, p, t) = lemma_once_swapped(front, x, c, b);
        if !same {
            lemma_clients_swapped(base, elapsed, p, x, c, t);
        }
        lemma_found_earlier(base, elapsed, a, rest, c, seq![x] + b);
    }
}

/// A file of a client that a process has open through a later one, with the same figures,
/// changes nothing either, as long as one GPU alone holds the most of the video memory of
/// the processes that go by its name: where two hold as much, the first that is found is
/// named, and that may be another one now.
pub proof fn earlier_file_changes_nothing(
    base: EngineTimes,
    elapsed: nat,
    hs: Seq<GpuHolderView>,
    p: int,
    j: int,
    k: int,
    f: OpenFileView,
)
    requires
        0 <= p < hs.len(),
        0 <= j <= k < hs[p].files.len() < FD_SCAN_LIMIT,
        clients::client_behind(f) is Some,
        clients::client_behind(f) == clients::client_behind(hs[p].files[k]),
        forall|i: int|
            j <= i < k && (#[trigger] clients::client_behind(hs[p].files[i])) is Some
                ==> clients::client_key(clients::client_behind(hs[p].files[i])->0)
                != clients::client_key(clients::client_behind(f)->0),
        has_one_main_gpu(shares_by(base, elapsed, counted(hs), hs[p].name)),
    ensures
        come_to_the_same(base, elapsed, counted(hs), counted(with_file_of(hs, p, j, f))),
        rows(base, elapsed, with_file_of(hs, p, j, f)) == rows(base, elapsed, hs),
{
    let h = hs[p];
    let drm = clients::client_behind(f)->0;
    let c = ClientView { pid: h.pid, name: h.name, drm };
    let own = clients::clients_of(h, j as nat);
    let u = clients::all_clients(hs.take(p)) + own;
    let v = lemma_clients_between(h, j as nat, k as nat);
    let behind = lemma_clients_between(h, (k + 1) as nat, h.files.len());
    let w = v + seq![c] + behind;
    assert(clients::clients_of(h, (k + 1) as nat) == (own + v).push(c));
    assert((own + v).push(c) + behind == own + w);
    let rest = lemma_all_clients(hs, p, j, f, c, w, hs.len() as int);
    assert(hs.take(hs.len() as int) == hs);
    let more = with_file_of(hs, p, j, f);
    assert(more.take(hs.len() as int) == more);
    let b = behind + rest;
    assert(u + w + rest == u + v + seq![c] + b);
    let known = u + seq![c] + v;
    assert(u.push(c) + w + rest == known.push(c) + b);
    assert(known[u.len() as int] == c);
    assert(clients::has_key(known, clients::client_key(drm)));
    lemma_skip_known(known, c, b);
    assert forall|i: int| 0 <= i < v.len() implies (#[trigger] v[i]).name == c.name && v[i].pid
        == c.pid && clients::client_key(v[i].drm) != clients::client_key(c.drm) by {
        let a = choose|a: int|
            j <= a < k && #[trigger] clients::client_behind(h.files[a]) == Some(v[i].drm);
        assert(clients::client_behind(hs[p].files[a]) is Some);
    }
    lemma_found_earlier(base, elapsed, u, v, c, b);
}

} // verus!
