//! GPU time and video memory by process, from the DRM clients behind open files.

use crate::cluster;
use crate::drm;
use crate::drm::{parse_drm_fdinfo, DrmClient, DrmClientView};
use crate::groups;
use crate::rank;
use crate::rank::{arranged, Ranked};
use crate::table::TextMap;
use crate::text;
use crate::text::{chars_of, is_text, same_str, split};
use crate::traffic::FD_SCAN_LIMIT;
use vstd::prelude::*;

verus! {

/// How many processes the list of GPU users names.
pub const GPU_PROC_LIMIT: usize = 8;

/// An open file of a process.
#[derive(Debug)]
pub struct OpenFile {
    /// What the file is a link to, where that can be read.
    pub target: Option<String>,
    /// What `/proc/<pid>/fdinfo/<fd>` holds, where that was asked for and can be read.
    pub fdinfo: Option<String>,
}

/// The model of an [`OpenFile`].
pub struct OpenFileView {
    pub target: Option<Seq<char>>,
    pub fdinfo: Option<Seq<char>>,
}

impl View for OpenFile {
    type V = OpenFileView;

    open spec fn view(&self) -> OpenFileView {
        OpenFileView { target: text::viewed(self.target), fdinfo: text::viewed(self.fdinfo) }
    }
}

/// A process and its open files.
#[derive(Debug)]
pub struct GpuHolder {
    pub pid: u32,
    pub name: String,
    pub files: Vec<OpenFile>,
}

/// The model of a [`GpuHolder`].
pub struct GpuHolderView {
    pub pid: u32,
    pub name: Seq<char>,
    pub files: Seq<OpenFileView>,
}

impl View for GpuHolder {
    type V = GpuHolderView;

    open spec fn view(&self) -> GpuHolderView {
        GpuHolderView { pid: self.pid, name: self.name@, files: rank::views(self.files@) }
    }
}

/// The parts of a path that name something.
pub open spec fn names_something() -> spec_fn(Seq<char>) -> bool {
    |part: Seq<char>| part.len() > 0 && part != "."@
}

/// The parts of a path.
pub open spec fn path_parts(path: Seq<char>) -> Seq<Seq<char>> {
    text::split_on(path, '/').filter(names_something())
}

/// Whether a link leads to `/dev/dri` or below it.
pub open spec fn is_dri(target: Seq<char>) -> bool {
    let parts = path_parts(target);
    &&& target.len() > 0
    &&& target[0] == '/'
    &&& parts.len() >= 2
    &&& parts[0] == "dev"@
    &&& parts[1] == "dri"@
}

/// A DRM client and a process that has it open.
#[verifier::ext_equal]
pub struct ClientView {
    pub pid: u32,
    pub name: Seq<char>,
    pub drm: DrmClientView,
}

/// The client behind an open file.
pub open spec fn client_behind(file: OpenFileView) -> Option<DrmClientView> {
    if file.target is Some && is_dri(file.target->0) && file.fdinfo is Some {
        drm::drm_client(file.fdinfo->0)
    } else {
        None
    }
}

/// The clients behind the first `n` open files of `h`.
pub open spec fn clients_of(h: GpuHolderView, n: nat) -> Seq<ClientView>
    decreases n,
{
    if n == 0 {
        seq![]
    } else {
        let before = clients_of(h, (n - 1) as nat);
        match client_behind(h.files[n - 1]) {
            Some(drm) => before.push(ClientView { pid: h.pid, name: h.name, drm }),
            None => before,
        }
    }
}

/// How many of the open files of `h` are looked at.
pub open spec fn files_looked_at(h: GpuHolderView) -> nat {
    if h.files.len() > FD_SCAN_LIMIT {
        FD_SCAN_LIMIT as nat
    } else {
        h.files.len()
    }
}

/// The clients that the processes `hs` have open, process by process.
pub open spec fn all_clients(hs: Seq<GpuHolderView>) -> Seq<ClientView>
    decreases hs.len(),
{
    if hs.len() == 0 {
        seq![]
    } else {
        all_clients(hs.drop_last()) + clients_of(hs.last(), files_looked_at(hs.last()))
    }
}

/// What a client is known by: its device and its identifier.
pub open spec fn client_key(c: DrmClientView) -> (Seq<char>, Seq<char>) {
    (c.pdev, c.client)
}

/// Every client known by another key.
pub open spec fn has_other_key(key: (Seq<char>, Seq<char>)) -> spec_fn(ClientView) -> bool {
    |c: ClientView| client_key(c.drm) != key
}

/// The clients `cs`, each once, as it was first found: a client shared through dup()
/// or fork() counts once.
pub open spec fn once_each(cs: Seq<ClientView>) -> Seq<ClientView>
    decreases cs.len(),
{
    if cs.len() == 0 {
        seq![]
    } else {
        let before = once_each(cs.drop_last());
        let c = cs.last();
        if text::span(before, has_other_key(client_key(c.drm))) < before.len() {
            before
        } else {
            before.push(c)
        }
    }
}

/// The time of each engine by client, at the last sample.
pub type EngineTimes = Map<(Seq<char>, Seq<char>), Map<Seq<char>, u64>>;

/// Whether `n` is the most that any engine has worked: none has worked more and, if
/// it is more than nothing, one has worked as much.
pub open spec fn is_busiest(now: Map<Seq<char>, u64>, before: Map<Seq<char>, u64>, n: nat) -> bool {
    &&& forall|e: Seq<char>| #[trigger]
        now.contains_key(e) && before.contains_key(e) ==> groups::growth(
            now[e] as int,
            before[e] as int,
        ) <= n
    &&& n == 0 || exists|e: Seq<char>| #[trigger]
        now.contains_key(e) && before.contains_key(e) && groups::growth(
            now[e] as int,
            before[e] as int,
        ) == n
}

/// The most nanoseconds that any engine has worked since the last sample.
pub open spec fn busiest(now: Map<Seq<char>, u64>, before: Map<Seq<char>, u64>) -> nat {
    choose|n: nat| is_busiest(now, before, n)
}

/// At most `limit` of `n`.
pub open spec fn at_most(n: nat, limit: nat) -> nat {
    if n > limit {
        limit
    } else {
        n
    }
}

/// What one client has used.
#[verifier::ext_equal]
pub struct ShareView {
    pub name: Seq<char>,
    pub pid: u32,
    pub busy: nat,
    pub vram: nat,
    pub pdev: Seq<char>,
}

/// What the client `c` has used: nothing of the time where it or the last sample is new.
pub open spec fn share(base: EngineTimes, elapsed: nat, c: ClientView) -> ShareView {
    let key = client_key(c.drm);
    ShareView {
        name: c.name,
        pid: c.pid,
        busy: if base.contains_key(key) {
            at_most(busiest(c.drm.engines, base[key]), elapsed)
        } else {
            0
        },
        vram: c.drm.vram as nat,
        pdev: c.drm.pdev,
    }
}

/// What the clients `cs` have used.
pub open spec fn shares(base: EngineTimes, elapsed: nat, cs: Seq<ClientView>) -> Seq<ShareView> {
    cs.map_values(|c: ClientView| share(base, elapsed, c))
}

/// The name that a share goes by.
pub open spec fn share_name() -> spec_fn(ShareView) -> Seq<char> {
    |s: ShareView| s.name
}

/// The time of a share.
pub open spec fn busy_time() -> spec_fn(ShareView) -> nat {
    |s: ShareView| s.busy
}

/// The video memory of a share.
pub open spec fn video_memory() -> spec_fn(ShareView) -> nat {
    |s: ShareView| s.vram
}

/// The shares on the GPU `pdev`.
pub open spec fn is_on(pdev: Seq<char>) -> spec_fn(ShareView) -> bool {
    |s: ShareView| s.pdev == pdev
}

/// The video memory that the shares `ss` have on the GPU `pdev`.
pub open spec fn held_on(ss: Seq<ShareView>, pdev: Seq<char>) -> nat {
    cluster::sum(ss.filter(is_on(pdev)), video_memory())
}

/// Which of the first `n` of `ss` is on the GPU that holds the most of the video memory of
/// `ss`, the first of them if several are.
pub open spec fn fullest(ss: Seq<ShareView>, n: nat) -> int
    decreases n,
{
    if n <= 1 {
        0
    } else {
        let m = fullest(ss, (n - 1) as nat);
        if held_on(ss, ss[n - 1].pdev) > held_on(ss, ss[m].pdev) {
            n - 1
        } else {
            m
        }
    }
}

/// The GPU that holds the most of the video memory of `ss`, the first of them if several
/// do.
pub open spec fn main_gpu(ss: Seq<ShareView>) -> Seq<char> {
    ss[fullest(ss, ss.len())].pdev
}

/// What the processes that go by one name have used.
#[verifier::ext_equal]
pub struct GpuUserView {
    pub name: Seq<char>,
    pub pid: u32,
    /// Nanoseconds of the busiest engines, no more than have passed.
    pub busy: nat,
    pub vram: nat,
    /// The GPU holding most of the processes' video memory.
    pub id: Seq<char>,
}

/// What the shares that go by one name make.
pub open spec fn gpu_grouping(elapsed: nat) -> spec_fn(Seq<ShareView>, Seq<char>) -> GpuUserView {
    |ss: Seq<ShareView>, name: Seq<char>|
        GpuUserView {
            name,
            pid: ss[0].pid,
            busy: at_most(cluster::sum(ss, busy_time()), elapsed),
            vram: cluster::sum(ss, video_memory()),
            id: main_gpu(ss),
        }
}

/// The users that the shares `ss` make, as their names first occur.
pub open spec fn users_of(ss: Seq<ShareView>, elapsed: nat) -> Seq<GpuUserView> {
    cluster::clusters(ss, share_name(), gpu_grouping(elapsed))
}

/// The users with any time or memory.
pub open spec fn uses_gpu() -> spec_fn(GpuUserView) -> bool {
    |u: GpuUserView| u.busy > 0 || u.vram > 0
}

/// The list of the users `us`: from most to least time, then from most to least memory.
pub open spec fn gpu_rows(us: Seq<GpuUserView>) -> Seq<GpuUserView> {
    cluster::first(rank::arrange::<GpuUser>(us.filter(uses_gpu())), GPU_PROC_LIMIT as int)
}

/// What the processes that go by one name have used of the GPUs.
#[derive(Debug)]
pub struct GpuUser {
    pub name: String,
    pub pid: u32,
    /// Nanoseconds of the busiest engines since the last sample, no more than have
    /// passed.
    pub busy: u64,
    pub vram: u128,
    /// The GPU holding most of the processes' video memory.
    pub id: String,
}

impl View for GpuUser {
    type V = GpuUserView;

    open spec fn view(&self) -> GpuUserView {
        GpuUserView {
            name: self.name@,
            pid: self.pid,
            busy: self.busy as nat,
            vram: self.vram as nat,
            id: self.id@,
        }
    }
}

impl Ranked for GpuUser {
    open spec fn before(a: GpuUserView, b: GpuUserView) -> bool {
        a.busy > b.busy || (a.busy == b.busy && a.vram > b.vram)
    }

    proof fn before_is_strict(a: GpuUserView, b: GpuUserView) {
    }

    proof fn before_is_weak(a: GpuUserView, b: GpuUserView, c: GpuUserView) {
    }

    fn goes_before(&self, other: &Self) -> (r: bool) {
        self.busy > other.busy || (self.busy == other.busy && self.vram > other.vram)
    }
}

/// Only one number is the most that any engine has worked.
proof fn lemma_busiest(now: Map<Seq<char>, u64>, before: Map<Seq<char>, u64>, n: nat)
    requires
        is_busiest(now, before, n),
    ensures
        busiest(now, before) == n,
{
    let m = busiest(now, before);
    assert(is_busiest(now, before, m));
}

/// Whether a link leads to `/dev/dri` or below it.
pub fn leads_to_dri(target: &str) -> (r: bool)
    ensures
        r == is_dri(target@),
{
    let chars: Vec<char> = chars_of(target);
    if chars.len() == 0 || chars[0] != '/' {
        return false;
    }
    let parts: Vec<Vec<char>> = split(chars.as_slice(), '/');
    let ghost all = text::split_on(target@, '/');
    let ghost p = names_something();
    let mut found: Vec<usize> = Vec::new();
    let mut i: usize = 0;
    proof {
        reveal(Seq::filter);
    }
    while i < parts.len()
        invariant
            i <= parts@.len(),
            all == text::texts(parts@),
            p == names_something(),
            found@.len() == all.take(i as int).filter(p).len(),
            forall|k: int|
                0 <= k < found@.len() ==> (#[trigger] found@[k]) < all.len() && all.take(
                    i as int,
                ).filter(p)[k] == all[found@[k] as int],
        decreases parts.len() - i,
    {
        let part: &[char] = parts[i].as_slice();
        proof {
            assert(part@ == all[i as int]);
            assert(all.take(i + 1) == all.take(i as int).push(all[i as int]));
            all.take(i as int).lemma_filter_push(all[i as int], p);
        }
        if part.len() > 0 && !is_text(part, ".") {
            found.push(i);
        }
        i = i + 1;
    }
    assert(all.take(all.len() as int) == all);
    assert(path_parts(target@) == all.filter(p));
    if found.len() < 2 {
        return false;
    }
    let a: usize = found[0];
    let b: usize = found[1];
    assert(parts@[a as int]@ == path_parts(target@)[0]);
    assert(parts@[b as int]@ == path_parts(target@)[1]);
    is_text(parts[a].as_slice(), "dev") && is_text(parts[b].as_slice(), "dri")
}

/// The client behind an open file.
fn read_client(file: &OpenFile) -> (r: Option<DrmClient>)
    ensures
        text::viewed(r) == client_behind(file@),
{
    match (&file.target, &file.fdinfo) {
        (Some(target), Some(fdinfo)) => {
            if leads_to_dri(target.as_str()) {
                parse_drm_fdinfo(fdinfo.as_str())
            } else {
                None
            }
        },
        _ => None,
    }
}

/// A DRM client and a process that has it open.
pub struct Client {
    pid: u32,
    name: String,
    drm: DrmClient,
}

impl View for Client {
    type V = ClientView;

    closed spec fn view(&self) -> ClientView {
        ClientView { pid: self.pid, name: self.name@, drm: self.drm@ }
    }
}

/// Where the client known by `pdev` and `client` stands in `cs`, or their number.
fn client_index(cs: &Vec<Client>, pdev: &str, client: &str) -> (r: usize)
    ensures
        r == text::span(rank::views(cs@), has_other_key((pdev@, client@))),
        r <= cs@.len(),
{
    let ghost all = rank::views(cs@);
    let ghost p = has_other_key((pdev@, client@));
    let mut i: usize = 0;
    while i < cs.len() && !(same_str(cs[i].drm.pdev.as_str(), pdev) && same_str(
        cs[i].drm.client.as_str(),
        client,
    ))
        invariant
            i <= cs@.len(),
            all == rank::views(cs@),
            p == has_other_key((pdev@, client@)),
            forall|k: int| 0 <= k < i ==> p(#[trigger] all[k]),
        decreases cs.len() - i,
    {
        assert(all[i as int] == cs@[i as int]@);
        i = i + 1;
    }
    proof {
        assert(i < cs@.len() ==> all[i as int] == cs@[i as int]@);
        text::lemma_span(all, p, i as int);
    }
    i
}

/// The clients of the processes `holders`, each once.
pub fn list_clients(holders: &Vec<GpuHolder>) -> (r: Vec<Client>)
    ensures
        rank::views(r@) == once_each(all_clients(rank::views(holders@))),
{
    let ghost hs = rank::views(holders@);
    let ghost mut found = Seq::<ClientView>::empty();
    let mut out: Vec<Client> = Vec::new();
    let mut i: usize = 0;
    assert(rank::views(out@) == once_each(found));
    while i < holders.len()
        invariant
            i <= holders@.len(),
            hs == rank::views(holders@),
            found == all_clients(hs.take(i as int)),
            rank::views(out@) == once_each(found),
        decreases holders.len() - i,
    {
        let holder: &GpuHolder = &holders[i];
        let ghost h = holder@;
        let ghost begun = found;
        let mut n: usize = 0;
        assert(hs[i as int] == h);
        assert(begun == begun + clients_of(h, 0));
        while n < holder.files.len() && n < FD_SCAN_LIMIT
            invariant
                n <= holder.files@.len(),
                n <= FD_SCAN_LIMIT,
                h == holder@,
                found == begun + clients_of(h, n as nat),
                rank::views(out@) == once_each(found),
            decreases holder.files.len() - n,
        {
            let file: &OpenFile = &holder.files[n];
            let ghost before = out@;
            let ghost were = found;
            assert(h.files[n as int] == file@);
            n = n + 1;
            if let Some(drm) = read_client(file) {
                let ghost c = ClientView { pid: h.pid, name: h.name, drm: drm@ };
                proof {
                    found = found.push(c);
                    assert(found == begun + clients_of(h, n as nat));
                    assert(found.drop_last() == were);
                }
                if client_index(&out, drm.pdev.as_str(), drm.client.as_str()) == out.len() {
                    out.push(Client { pid: holder.pid, name: holder.name.clone(), drm });
                    assert(rank::views(out@) == rank::views(before).push(c));
                }
            }
        }
        assert(files_looked_at(h) == n);
        i = i + 1;
        assert(hs.take(i as int).drop_last() == hs.take(i - 1));
    }
    assert(hs.take(hs.len() as int) == hs);
    out
}

/// Whether any of the first open files of a process is a DRM client, so that its name
/// is asked for.
pub fn has_client(files: &Vec<OpenFile>) -> (r: bool)
    ensures
        r == exists|i: int|
            0 <= i < files@.len() && i < FD_SCAN_LIMIT && client_behind((#[trigger] files@[i])@)
                is Some,
{
    let mut i: usize = 0;
    while i < files.len() && i < FD_SCAN_LIMIT
        invariant
            i <= files@.len(),
            i <= FD_SCAN_LIMIT,
            forall|k: int| 0 <= k < i ==> client_behind((#[trigger] files@[k])@) is None,
        decreases files.len() - i,
    {
        if read_client(&files[i]).is_some() {
            return true;
        }
        i = i + 1;
    }
    false
}

/// The time of each engine of one client, at the last sample.
pub struct ClientTimes {
    pdev: String,
    client: String,
    engines: TextMap<u64>,
}

/// The model of [`ClientTimes`].
pub struct ClientTimesView {
    pub key: (Seq<char>, Seq<char>),
    pub engines: Map<Seq<char>, u64>,
}

impl View for ClientTimes {
    type V = ClientTimesView;

    closed spec fn view(&self) -> ClientTimesView {
        ClientTimesView { key: (self.pdev@, self.client@), engines: self.engines@ }
    }
}

/// The time of each engine by client.
pub open spec fn times_by_client(ts: Seq<ClientTimesView>) -> EngineTimes
    decreases ts.len(),
{
    if ts.len() == 0 {
        Map::empty()
    } else {
        times_by_client(ts.drop_last()).insert(ts.last().key, ts.last().engines)
    }
}

/// The time of each engine by client, of the clients `cs`.
pub open spec fn engine_times(cs: Seq<ClientView>) -> EngineTimes
    decreases cs.len(),
{
    if cs.len() == 0 {
        Map::empty()
    } else {
        engine_times(cs.drop_last()).insert(client_key(cs.last().drm), cs.last().drm.engines)
    }
}

/// The times of the client known by `pdev` and `client`, at the last sample.
fn find_times<'a>(ts: &'a Vec<ClientTimes>, pdev: &str, client: &str) -> (r: Option<
    &'a ClientTimes,
>)
    ensures
        r is Some <==> times_by_client(rank::views(ts@)).contains_key((pdev@, client@)),
        r is Some ==> r->0@.engines == times_by_client(rank::views(ts@))[(pdev@, client@)],
{
    let ghost all = rank::views(ts@);
    let ghost key = (pdev@, client@);
    let mut n: usize = ts.len();
    assert(all.take(n as int) == all);
    while n > 0
        invariant
            n <= ts@.len(),
            all == rank::views(ts@),
            key == (pdev@, client@),
            times_by_client(all.take(n as int)).contains_key(key) == times_by_client(
                all,
            ).contains_key(key),
            times_by_client(all).contains_key(key) ==> times_by_client(all.take(n as int))[key]
                == times_by_client(all)[key],
        decreases n,
    {
        proof {
            assert(all.take(n as int).last() == ts@[n - 1]@);
            assert(all.take(n as int).drop_last() == all.take(n - 1));
        }
        if same_str(ts[n - 1].pdev.as_str(), pdev) && same_str(ts[n - 1].client.as_str(), client) {
            return Some(&ts[n - 1]);
        }
        n = n - 1;
    }
    None
}

/// The most nanoseconds that any engine has worked since the last sample.
fn busiest_of(now: &TextMap<u64>, before: &TextMap<u64>) -> (r: u64)
    ensures
        r == busiest(now@, before@),
{
    let n: usize = now.len();
    let mut most: u64 = 0;
    let mut i: usize = 0;
    while i < n
        invariant
            i <= n == now.keys().len(),
            most == 0 || exists|e: Seq<char>| #[trigger]
                now@.contains_key(e) && before@.contains_key(e) && groups::growth(
                    now@[e] as int,
                    before@[e] as int,
                ) == most,
            forall|k: int|
                0 <= k < i && before@.contains_key(#[trigger] now.keys()[k]) ==> groups::growth(
                    now@[now.keys()[k]] as int,
                    before@[now.keys()[k]] as int,
                ) <= most,
        decreases n - i,
    {
        let (engine, ns) = now.entry(i);
        assert(now@.contains_key(engine@));
        if let Some(was) = before.get(engine) {
            if *ns > *was && *ns - *was > most {
                most = *ns - *was;
            }
        }
        i = i + 1;
    }
    proof {
        assert forall|e: Seq<char>| #[trigger]
            now@.contains_key(e) && before@.contains_key(e) implies groups::growth(
            now@[e] as int,
            before@[e] as int,
        ) <= most by {
            let k = choose|k: int| 0 <= k < now.keys().len() && #[trigger] now.keys()[k] == e;
            assert(now.keys()[k] == e);
        }
        lemma_busiest(now@, before@, most as nat);
    }
    most
}

/// What one client has used.
struct Share {
    name: String,
    pid: u32,
    busy: u64,
    vram: u64,
    pdev: String,
}

impl View for Share {
    type V = ShareView;

    closed spec fn view(&self) -> ShareView {
        ShareView {
            name: self.name@,
            pid: self.pid,
            busy: self.busy as nat,
            vram: self.vram as nat,
            pdev: self.pdev@,
        }
    }
}

/// The times that a sample of clients is held against.
pub open spec fn times_baseline(prev: EngineTimes, usable: bool) -> EngineTimes {
    if usable {
        prev
    } else {
        Map::empty()
    }
}

/// What the client `c` has used.
fn share_of(prev: &Vec<ClientTimes>, usable: bool, elapsed: u64, c: &Client) -> (r: Share)
    ensures
        r@ == share(
            times_baseline(times_by_client(rank::views(prev@)), usable),
            elapsed as nat,
            c@,
        ),
        r.busy <= elapsed,
{
    let mut busy: u64 = 0;
    if usable {
        if let Some(before) = find_times(prev, c.drm.pdev.as_str(), c.drm.client.as_str()) {
            busy = busiest_of(&c.drm.engines, &before.engines);
            if busy > elapsed {
                busy = elapsed;
            }
        }
    }
    Share { name: c.name.clone(), pid: c.pid, busy, vram: c.drm.vram, pdev: c.drm.pdev.clone() }
}

/// What the clients `cs` have used.
fn shares_of(prev: &Vec<ClientTimes>, usable: bool, elapsed: u64, cs: &Vec<Client>) -> (r: Vec<
    Share,
>)
    ensures
        rank::views(r@) == shares(
            times_baseline(times_by_client(rank::views(prev@)), usable),
            elapsed as nat,
            rank::views(cs@),
        ),
        forall|i: int| 0 <= i < r@.len() ==> (#[trigger] r@[i]).busy <= elapsed,
{
    let ghost ss = shares(
        times_baseline(times_by_client(rank::views(prev@)), usable),
        elapsed as nat,
        rank::views(cs@),
    );
    let mut out: Vec<Share> = Vec::new();
    let mut i: usize = 0;
    assert(rank::views(out@) == ss.take(0));
    while i < cs.len()
        invariant
            i <= cs@.len(),
            ss == shares(
                times_baseline(times_by_client(rank::views(prev@)), usable),
                elapsed as nat,
                rank::views(cs@),
            ),
            rank::views(out@) == ss.take(i as int),
            forall|k: int| 0 <= k < out@.len() ==> (#[trigger] out@[k]).busy <= elapsed,
        decreases cs.len() - i,
    {
        let ghost before = out@;
        let s: Share = share_of(prev, usable, elapsed, &cs[i]);
        let ghost added = s@;
        assert(rank::views(cs@)[i as int] == cs@[i as int]@);
        assert(ss[i as int] == added);
        out.push(s);
        i = i + 1;
        assert(rank::views(out@) == rank::views(before).push(added));
        assert(ss.take(i as int) == ss.take(i - 1).push(added));
    }
    assert(ss.take(ss.len() as int) == ss);
    out
}

/// Where the user `name` stands in `us`.
fn user_index(us: &Vec<GpuUser>, name: &str) -> (r: Option<usize>)
    ensures
        r is None ==> forall|k: int| 0 <= k < us@.len() ==> (#[trigger] us@[k]).name@ != name@,
        r is Some ==> r->0 < us@.len() && us@[r->0 as int].name@ == name@,
{
    let mut i: usize = 0;
    while i < us.len()
        invariant
            i <= us@.len(),
            forall|k: int| 0 <= k < i ==> (#[trigger] us@[k]).name@ != name@,
        decreases us.len() - i,
    {
        if same_str(us[i].name.as_str(), name) {
            return Some(i);
        }
        i = i + 1;
    }
    None
}

proof fn lemma_fullest(ss: Seq<ShareView>, n: nat)
    requires
        0 < n <= ss.len(),
    ensures
        0 <= fullest(ss, n) < n,
        forall|j: int|
            0 <= j < n ==> held_on(ss, (#[trigger] ss[j]).pdev) <= held_on(
                ss,
                ss[fullest(ss, n)].pdev,
            ),
        forall|j: int|
            0 <= j < fullest(ss, n) ==> held_on(ss, (#[trigger] ss[j]).pdev) < held_on(
                ss,
                ss[fullest(ss, n)].pdev,
            ),
    decreases n,
{
    if n > 1 {
        lemma_fullest(ss, (n - 1) as nat);
    }
}

/// The GPU that is named for some shares holds no less of their video memory than any
/// other that one of them is on, and more than those that come before it.
pub proof fn main_gpu_holds_the_most(ss: Seq<ShareView>)
    requires
        ss.len() > 0,
    ensures
        ({
            let i = fullest(ss, ss.len());
            &&& 0 <= i < ss.len()
            &&& main_gpu(ss) == ss[i].pdev
            &&& forall|j: int|
                0 <= j < ss.len() ==> held_on(ss, (#[trigger] ss[j]).pdev) <= held_on(
                    ss,
                    main_gpu(ss),
                )
            &&& forall|j: int|
                0 <= j < i ==> held_on(ss, (#[trigger] ss[j]).pdev) < held_on(ss, main_gpu(ss))
        }),
{
    lemma_fullest(ss, ss.len());
}

/// What the shares that go by one name add up to; the GPU is that of the first.
spec fn totals(elapsed: nat) -> spec_fn(Seq<ShareView>, Seq<char>) -> GpuUserView {
    |ss: Seq<ShareView>, name: Seq<char>|
        GpuUserView { id: ss[0].pdev, ..gpu_grouping(elapsed)(ss, name) }
}

/// One more share joins a user's.
proof fn lemma_share_joins(elapsed: nat, ss: Seq<ShareView>, name: Seq<char>, s: ShareView)
    requires
        ss.len() > 0,
    ensures
        ({
            let before = totals(elapsed)(ss, name);
            let now = totals(elapsed)(ss.push(s), name);
            now == GpuUserView {
                busy: at_most(before.busy + s.busy, elapsed),
                vram: before.vram + s.vram,
                ..before
            }
        }),
{
    assert(ss.push(s).drop_last() == ss);
}

/// Whether the numbers of `u` are such as `n` clients can come to.
spec fn user_within(u: GpuUserView, elapsed: int, n: int) -> bool {
    &&& u.busy <= elapsed
    &&& u.vram <= n * 0xffff_ffff_ffff_ffff
}

/// What the shares `all` add up to, by process.
fn gather_users(elapsed: u64, all: &Vec<Share>) -> (r: Vec<GpuUser>)
    requires
        elapsed < 0x8000_0000_0000_0000,
        forall|i: int| 0 <= i < all@.len() ==> (#[trigger] all@[i]).busy <= elapsed,
    ensures
        rank::views(r@) == cluster::clusters(
            rank::views(all@),
            share_name(),
            totals(elapsed as nat),
        ),
{
    let ghost ss = rank::views(all@);
    let ghost make = totals(elapsed as nat);
    let mut out: Vec<GpuUser> = Vec::new();
    let mut i: usize = 0;
    assert(rank::views(out@) == cluster::clusters(ss.take(0), share_name(), make));
    while i < all.len()
        invariant
            i <= all@.len(),
            elapsed < 0x8000_0000_0000_0000,
            forall|k: int| 0 <= k < all@.len() ==> (#[trigger] all@[k]).busy <= elapsed,
            ss == rank::views(all@),
            make == totals(elapsed as nat),
            rank::views(out@) == cluster::clusters(ss.take(i as int), share_name(), make),
            forall|k: int|
                0 <= k < out@.len() ==> user_within(
                    (#[trigger] out@[k])@,
                    elapsed as int,
                    i as int,
                ),
        decreases all.len() - i,
    {
        let s: &Share = &all[i];
        let ghost seen = ss.take(i as int);
        let ghost before = out@;
        let ghost old_views = rank::views(before);
        let ghost all_names = cluster::names_in(seen, share_name());
        let ghost sv = s@;
        let ghost now = cluster::clusters(ss.take(i + 1), share_name(), make);
        let ghost was = cluster::clusters(seen, share_name(), make);
        proof {
            assert(ss[i as int] == sv);
            assert(ss.take(i + 1) == seen.push(sv));
            cluster::lemma_one_more(seen, share_name(), make, sv);
            cluster::names_are_those_of_items(seen, share_name());
        }
        match user_index(&out, s.name.as_str()) {
            Some(k) => {
                let ghost ms = cluster::members(seen, share_name(), sv.name);
                proof {
                    assert(old_views[k as int] == before[k as int]@);
                    assert(was[k as int].name == all_names[k as int]);
                    assert(all_names.contains(all_names[k as int]));
                    lemma_share_joins(elapsed as nat, ms, sv.name, sv);
                    assert(user_within(before[k as int]@, elapsed as int, i as int));
                }
                let u: &mut GpuUser = &mut out[k];
                let busy: u64 = u.busy + s.busy;
                u.busy = if busy > elapsed {
                    elapsed
                } else {
                    busy
                };
                u.vram = u.vram + s.vram as u128;
                proof {
                    assert forall|j: int| 0 <= j < now.len() implies rank::views(out@)[j]
                        == now[j] by {
                        assert(old_views[j] == before[j]@);
                        assert(was[j].name == all_names[j]);
                        if j == k {
                            assert(out@[j]@ == now[j]);
                        } else {
                            assert(all_names[j] != all_names[k as int]);
                            assert(out@[j] == before[j]);
                        }
                    }
                    assert(rank::views(out@) == now);
                    assert forall|j: int| 0 <= j < out@.len() implies user_within(
                        (#[trigger] out@[j])@,
                        elapsed as int,
                        i + 1,
                    ) by {
                        assert(user_within(before[j]@, elapsed as int, i as int));
                        if j != k {
                            assert(out@[j] == before[j]);
                        }
                    }
                }
            },
            None => {
                out.push(
                    GpuUser {
                        name: s.name.clone(),
                        pid: s.pid,
                        busy: s.busy,
                        vram: s.vram as u128,
                        id: s.pdev.clone(),
                    },
                );
                proof {
                    if all_names.contains(sv.name) {
                        let j = choose|j: int|
                            0 <= j < all_names.len() && all_names[j] == sv.name;
                        assert(old_views[j] == before[j]@);
                        assert(was[j].name == all_names[j]);
                    }
                    let alone = seq![sv];
                    let made = make(alone, sv.name);
                    reveal_with_fuel(cluster::sum, 2);
                    assert(alone.drop_last() == Seq::<ShareView>::empty());
                    assert(out@.last()@ == made);
                    assert(rank::views(out@) == old_views.push(made));
                    assert forall|j: int| 0 <= j < out@.len() implies user_within(
                        (#[trigger] out@[j])@,
                        elapsed as int,
                        i + 1,
                    ) by {
                        if j < before.len() {
                            assert(out@[j] == before[j]);
                            assert(user_within(before[j]@, elapsed as int, i as int));
                        }
                    }
                }
            },
        }
        i = i + 1;
    }
    assert(ss.take(ss.len() as int) == ss);
    out
}

/// The shares that go by `name`.
fn shares_by<'a>(all: &'a Vec<Share>, name: &str) -> (r: Vec<&'a Share>)
    ensures
        rank::views(r@) == cluster::members(rank::views(all@), share_name(), name@),
{
    let ghost ss = rank::views(all@);
    let ghost p = cluster::goes_by(share_name(), name@);
    let mut out: Vec<&'a Share> = Vec::new();
    let mut i: usize = 0;
    proof {
        reveal(Seq::filter);
        assert(rank::views(out@) == ss.take(0).filter(p));
    }
    while i < all.len()
        invariant
            i <= all@.len(),
            ss == rank::views(all@),
            p == cluster::goes_by(share_name(), name@),
            rank::views(out@) == ss.take(i as int).filter(p),
        decreases all.len() - i,
    {
        let ghost before = out@;
        proof {
            assert(ss[i as int] == all@[i as int]@);
            assert(ss.take(i + 1) == ss.take(i as int).push(ss[i as int]));
            ss.take(i as int).lemma_filter_push(ss[i as int], p);
        }
        if same_str(all[i].name.as_str(), name) {
            out.push(&all[i]);
            assert(rank::views(out@) == rank::views(before).push(ss[i as int]));
        }
        i = i + 1;
    }
    assert(ss.take(ss.len() as int) == ss);
    out
}

/// The video memory that the shares `mine` have on the GPU `pdev`.
fn memory_on(mine: &Vec<&Share>, pdev: &str) -> (r: u128)
    ensures
        r == held_on(rank::views(mine@), pdev@),
{
    let ghost ss = rank::views(mine@);
    let ghost p = is_on(pdev@);
    let mut total: u128 = 0;
    let mut i: usize = 0;
    proof {
        reveal(Seq::filter);
        assert(ss.take(0).filter(p) == Seq::<ShareView>::empty());
    }
    while i < mine.len()
        invariant
            i <= mine@.len(),
            ss == rank::views(mine@),
            p == is_on(pdev@),
            total == cluster::sum(ss.take(i as int).filter(p), video_memory()),
            total <= i * 0xffff_ffff_ffff_ffff,
        decreases mine.len() - i,
    {
        let ghost so_far = ss.take(i as int);
        proof {
            assert(ss[i as int] == mine@[i as int]@);
            assert(ss.take(i + 1) == so_far.push(ss[i as int]));
            so_far.lemma_filter_push(ss[i as int], p);
            assert(so_far.filter(p).push(ss[i as int]).drop_last() == so_far.filter(p));
        }
        if same_str(mine[i].pdev.as_str(), pdev) {
            total = total + mine[i].vram as u128;
        }
        i = i + 1;
    }
    assert(ss.take(ss.len() as int) == ss);
    total
}

/// The GPU that holds the most of the video memory of the shares `mine`.
fn find_main_gpu(mine: &Vec<&Share>) -> (r: String)
    requires
        mine@.len() > 0,
    ensures
        r@ == main_gpu(rank::views(mine@)),
{
    let ghost ss = rank::views(mine@);
    let mut best: usize = 0;
    assert(ss[0] == mine@[0]@);
    let mut most: u128 = memory_on(mine, mine[0].pdev.as_str());
    let mut n: usize = 1;
    while n < mine.len()
        invariant
            1 <= n <= mine@.len(),
            ss == rank::views(mine@),
            best < mine@.len(),
            best == fullest(ss, n as nat),
            most == held_on(ss, ss[best as int].pdev),
        decreases mine.len() - n,
    {
        assert(ss[n as int] == mine@[n as int]@);
        let held: u128 = memory_on(mine, mine[n].pdev.as_str());
        if held > most {
            most = held;
            best = n;
        }
        n = n + 1;
    }
    assert(ss[best as int] == mine@[best as int]@);
    mine[best].pdev.clone()
}

/// The users `us` of the shares `all`, each with the GPU that holds the most of its video
/// memory.
fn with_main_gpus(elapsed: u64, all: &Vec<Share>, us: Vec<GpuUser>) -> (r: Vec<GpuUser>)
    requires
        rank::views(us@) == cluster::clusters(
            rank::views(all@),
            share_name(),
            totals(elapsed as nat),
        ),
    ensures
        rank::views(r@) == users_of(rank::views(all@), elapsed as nat),
{
    let ghost ss = rank::views(all@);
    let ghost given = us@;
    let ghost names = cluster::names_in(ss, share_name());
    let ghost want = users_of(ss, elapsed as nat);
    let mut out: Vec<GpuUser> = Vec::new();
    proof {
        cluster::names_are_those_of_items(ss, share_name());
        assert(rank::views(out@) == want.take(0));
        assert(rank::views(given).len() == given.len());
    }
    for u in it: us
        invariant
            it.seq() == given,
            given.len() == names.len() == want.len(),
            ss == rank::views(all@),
            names == cluster::names_in(ss, share_name()),
            want == users_of(ss, elapsed as nat),
            rank::views(given) == cluster::clusters(ss, share_name(), totals(elapsed as nat)),
            forall|k: int|
                0 <= k < names.len() ==> cluster::members(
                    ss,
                    share_name(),
                    #[trigger] names[k],
                ).len() > 0,
            rank::views(out@) == want.take(it.index()),
    {
        let ghost k = it.index();
        let ghost before = out@;
        proof {
            assert(rank::views(given)[k] == u@);
            assert(u@.name == names[k]);
            assert(cluster::members(ss, share_name(), names[k]).len() > 0);
        }
        let mine: Vec<&Share> = shares_by(all, u.name.as_str());
        assert(rank::views(mine@).len() == mine@.len());
        let mut u: GpuUser = u;
        u.id = find_main_gpu(&mine);
        assert(u@ == want[k]);
        out.push(u);
        assert(rank::views(out@) == rank::views(before).push(want[k]));
        assert(want.take(k + 1) == want.take(k).push(want[k]));
    }
    assert(want.take(want.len() as int) == want);
    out
}

/// The list of GPU users of the clients `cs`.
pub fn user_rows(
    prev: &Vec<ClientTimes>,
    usable: bool,
    elapsed: u64,
    cs: &Vec<Client>,
) -> (r: Vec<GpuUser>)
    requires
        elapsed < 0x8000_0000_0000_0000,
    ensures
        rank::views(r@) == gpu_rows(
            users_of(
                shares(
                    times_baseline(times_by_client(rank::views(prev@)), usable),
                    elapsed as nat,
                    rank::views(cs@),
                ),
                elapsed as nat,
            ),
        ),
{
    let all: Vec<Share> = shares_of(prev, usable, elapsed, cs);
    let found: Vec<GpuUser> = with_main_gpus(elapsed, &all, gather_users(elapsed, &all));
    let ghost given = found@;
    let ghost us = rank::views(given);
    let mut users: Vec<GpuUser> = Vec::new();
    proof {
        reveal(Seq::filter);
        assert(rank::views(users@) == us.take(0).filter(uses_gpu()));
    }
    for user in it: found
        invariant
            it.seq() == given,
            us == rank::views(given),
            rank::views(users@) == us.take(it.index()).filter(uses_gpu()),
    {
        let ghost n = it.index();
        let ghost before = users@;
        proof {
            assert(us[n] == user@);
            assert(us.take(n + 1) == us.take(n).push(us[n]));
            us.take(n).lemma_filter_push(us[n], uses_gpu());
        }
        if user.busy > 0 || user.vram > 0 {
            users.push(user);
            assert(rank::views(users@) == rank::views(before).push(us[n]));
        }
    }
    assert(us.take(us.len() as int) == us);
    let mut sorted: Vec<GpuUser> = arranged(users);
    let ghost all = sorted@;
    if sorted.len() > GPU_PROC_LIMIT {
        sorted.truncate(GPU_PROC_LIMIT);
        assert(rank::views(sorted@) == rank::views(all).take(GPU_PROC_LIMIT as int));
    }
    sorted
}

/// The time of each engine by client, of the clients `cs`.
pub fn times_of(cs: Vec<Client>) -> (r: Vec<ClientTimes>)
    ensures
        times_by_client(rank::views(r@)) == engine_times(rank::views(cs@)),
{
    let ghost all = cs@;
    let ghost views = rank::views(cs@);
    let mut out: Vec<ClientTimes> = Vec::new();
    assert(times_by_client(rank::views(out@)) == engine_times(views.take(0)));
    for c in it: cs
        invariant
            it.seq() == all,
            views == rank::views(all),
            times_by_client(rank::views(out@)) == engine_times(views.take(it.index())),
    {
        let ghost n = it.index();
        let ghost before = out@;
        assert(views[n] == c@);
        let drm: DrmClient = c.drm;
        out.push(ClientTimes { pdev: drm.pdev, client: drm.client, engines: drm.engines });
        proof {
            assert(views.take(n + 1).drop_last() == views.take(n));
            assert(rank::views(out@).drop_last() == rank::views(before));
        }
    }
    assert(views.take(views.len() as int) == views);
    out
}

/// Whether one of `cs` is known by `key`.
pub open spec fn has_key(cs: Seq<ClientView>, key: (Seq<char>, Seq<char>)) -> bool {
    exists|k: int| 0 <= k < cs.len() && client_key((#[trigger] cs[k]).drm) == key
}

/// Whether no two of `cs` are known by one key.
pub open spec fn keys_differ(cs: Seq<ClientView>) -> bool {
    forall|i: int, j: int|
        0 <= i < j < cs.len() ==> client_key((#[trigger] cs[i]).drm) != client_key(
            (#[trigger] cs[j]).drm,
        )
}

/// A client counts where its key has not been found before.
pub proof fn lemma_once_each(cs: Seq<ClientView>, c: ClientView)
    ensures
        once_each(cs.push(c)) == (if has_key(once_each(cs), client_key(c.drm)) {
            once_each(cs)
        } else {
            once_each(cs).push(c)
        }),
{
    let before = once_each(cs);
    let p = has_other_key(client_key(c.drm));
    let n = text::span(before, p) as int;
    assert(cs.push(c).drop_last() == cs);
    text::lemma_span_holds(before, p);
    if n < before.len() {
        assert(client_key(before[n].drm) == client_key(c.drm));
    } else if has_key(before, client_key(c.drm)) {
        let k = choose|k: int|
            0 <= k < before.len() && client_key((#[trigger] before[k]).drm) == client_key(c.drm);
        assert(p(before[k]));
    }
}

proof fn lemma_keys_differ(cs: Seq<ClientView>)
    ensures
        keys_differ(once_each(cs)),
    decreases cs.len(),
{
    if cs.len() > 0 {
        let c = cs.last();
        let before = once_each(cs.drop_last());
        lemma_keys_differ(cs.drop_last());
        lemma_once_each(cs.drop_last(), c);
        assert(cs.drop_last().push(c) == cs);
        if !has_key(before, client_key(c.drm)) {
            assert forall|i: int| 0 <= i < before.len() implies client_key(
                (#[trigger] before[i]).drm,
            ) != client_key(c.drm) by {}
        }
    }
}

/// Each client that was found has the key of one that counts.
pub proof fn lemma_keys_found(cs: Seq<ClientView>, i: int)
    requires
        0 <= i < cs.len(),
    ensures
        has_key(once_each(cs), client_key(cs[i].drm)),
    decreases cs.len(),
{
    let c = cs.last();
    let before = once_each(cs.drop_last());
    lemma_once_each(cs.drop_last(), c);
    assert(cs.drop_last().push(c) == cs);
    let once = once_each(cs);
    let key = client_key(cs[i].drm);
    if i < cs.len() - 1 {
        lemma_keys_found(cs.drop_last(), i);
        let k = choose|k: int| 0 <= k < before.len() && client_key((#[trigger] before[k]).drm) == key;
        assert(once[k] == before[k]);
    } else if !has_key(before, key) {
        assert(once[before.len() as int] == c);
    }
}

/// A client that several processes share, or one has open several times, counts once: no
/// two of those that count have one key, and each client that was found has the key of
/// one that counts.
pub proof fn shared_clients_count_once(cs: Seq<ClientView>)
    ensures
        keys_differ(once_each(cs)),
        forall|i: int|
            0 <= i < cs.len() ==> has_key(once_each(cs), client_key((#[trigger] cs[i]).drm)),
{
    lemma_keys_differ(cs);
    assert forall|i: int| 0 <= i < cs.len() implies has_key(
        once_each(cs),
        client_key((#[trigger] cs[i]).drm),
    ) by {
        lemma_keys_found(cs, i);
    }
}

/// The list of GPU users names a limited number, none that has used more time than has
/// passed, each with some time or memory, from most to least time and, among those with
/// as much as each other, from most to least memory.
pub proof fn gpu_list_is_ordered(ss: Seq<ShareView>, elapsed: nat)
    ensures
        ({
            let list = gpu_rows(users_of(ss, elapsed));
            &&& list.len() <= GPU_PROC_LIMIT
            &&& forall|i: int|
                0 <= i < list.len() ==> (#[trigger] list[i]).busy <= elapsed && (list[i].busy > 0
                    || list[i].vram > 0)
            &&& forall|i: int, j: int|
                0 <= i < j < list.len() ==> ({
                    let a = #[trigger] list[i];
                    let b = #[trigger] list[j];
                    a.busy > b.busy || (a.busy == b.busy && a.vram >= b.vram)
                })
        }),
{
    broadcast use vstd::seq_lib::group_filter_ensures;

    let us = users_of(ss, elapsed);
    let kept = us.filter(uses_gpu());
    let all = rank::arrange::<GpuUser>(kept);
    let list = gpu_rows(us);
    rank::arrangement_is_in_order::<GpuUser>(kept);
    assert forall|i: int| 0 <= i < all.len() implies (#[trigger] all[i]).busy <= elapsed && (
    all[i].busy > 0 || all[i].vram > 0) by {
        rank::lemma_arranged_came_in::<GpuUser>(kept, i);
        let k = choose|k: int| 0 <= k < kept.len() && kept[k] == all[i];
        assert(uses_gpu()(kept[k]));
        us.lemma_filter_contains_rev(uses_gpu(), kept[k]);
        let m = choose|m: int| 0 <= m < us.len() && us[m] == kept[k];
        assert(us[m].busy <= elapsed);
    }
    assert forall|i: int, j: int| 0 <= i < j < list.len() implies ({
        let a = #[trigger] list[i];
        let b = #[trigger] list[j];
        a.busy > b.busy || (a.busy == b.busy && a.vram >= b.vram)
    }) by {
        assert(!GpuUser::before(all[j], all[i]));
    }
}

/// The video memory of a user.
pub open spec fn user_memory() -> spec_fn(GpuUserView) -> nat {
    |u: GpuUserView| u.vram
}

/// Over all users the video memory of all clients adds up.
pub proof fn users_account_for_all_memory(ss: Seq<ShareView>, elapsed: nat)
    ensures
        cluster::sum(users_of(ss, elapsed), user_memory()) == cluster::sum(ss, video_memory()),
{
    cluster::clusters_add_up(
        ss,
        share_name(),
        gpu_grouping(elapsed),
        video_memory(),
        user_memory(),
    );
}

/// A client of which nothing is known from before has used no time, whatever it says.
pub proof fn new_clients_have_used_no_time(base: EngineTimes, elapsed: nat, c: ClientView)
    requires
        !base.contains_key(client_key(c.drm)),
    ensures
        share(base, elapsed, c).busy == 0,
{
}

/// The time that counts for a client is that of its busiest engine: no engine has worked
/// longer since the last sample, and one has worked as long if any has worked at all.
pub proof fn busiest_engine_counts(now: Map<Seq<char>, u64>, before: Map<Seq<char>, u64>)
    requires
        now.dom().finite(),
    ensures
        is_busiest(now, before, busiest(now, before)),
    decreases now.dom().len(),
{
    if now.dom().len() == 0 {
        assert(now.dom() == Set::<Seq<char>>::empty());
        assert(is_busiest(now, before, 0));
    } else {
        let e = now.dom().choose();
        let rest = now.remove(e);
        let most = busiest(rest, before);
        busiest_engine_counts(rest, before);
        let worked = if before.contains_key(e) {
            groups::growth(now[e] as int, before[e] as int)
        } else {
            0
        };
        assert forall|f: Seq<char>| #[trigger]
            now.contains_key(f) && before.contains_key(f) implies groups::growth(
            now[f] as int,
            before[f] as int,
        ) <= (if worked > most {
            worked
        } else {
            most
        }) by {
            if f != e {
                assert(rest.contains_key(f) && rest[f] == now[f]);
            }
        }
        if worked > most {
            assert(now.contains_key(e) && before.contains_key(e));
            assert(is_busiest(now, before, worked));
        } else {
            if most > 0 {
                let f = choose|f: Seq<char>| #[trigger]
                    rest.contains_key(f) && before.contains_key(f) && groups::growth(
                        rest[f] as int,
                        before[f] as int,
                    ) == most;
                assert(now.contains_key(f));
            }
            assert(is_busiest(now, before, most));
        }
    }
}

} // verus!
