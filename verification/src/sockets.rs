//! The TCP sockets that `ss -tineH` lists.

use crate::text;
use crate::text::{
    after_prefix, begins, chars_of, parse_u64, same_str, split_lines, split_words,
    string_of,
};
use vstd::prelude::*;

verus! {

/// The most sockets that are told apart; a machine with more is not sampled.
pub const SOCKET_SCAN_LIMIT: usize = 16_384;

/// One socket.
#[derive(Debug)]
pub struct Sock {
    pub ino: String,
    pub cgroup: String,
    pub established: bool,
    pub sent: u64,
    pub recv: u64,
}

/// The model of a [`Sock`].
#[verifier::ext_equal]
pub struct SockView {
    pub ino: Seq<char>,
    pub cgroup: Seq<char>,
    pub established: bool,
    pub sent: u64,
    pub recv: u64,
}

impl View for Sock {
    type V = SockView;

    open spec fn view(&self) -> SockView {
        SockView {
            ino: self.ino@,
            cgroup: self.cgroup@,
            established: self.established,
            sent: self.sent,
            recv: self.recv,
        }
    }
}

/// Whether a line tells more of the socket before it.
pub open spec fn continues(line: Seq<char>) -> bool {
    line.len() > 0 && (line[0] == ' ' || line[0] == '\t')
}

/// What follows `prefix` in the last of the words `ws` that begins with it.
pub open spec fn last_token(ws: Seq<Seq<char>>, prefix: Seq<char>) -> Option<Seq<char>>
    decreases ws.len(),
{
    if ws.len() == 0 {
        None
    } else {
        match text::strip_prefix(ws.last(), prefix) {
            Some(value) => Some(value),
            None => last_token(ws.drop_last(), prefix),
        }
    }
}

/// The text of a token, empty where there is none.
pub open spec fn token_text(token: Option<Seq<char>>) -> Seq<char> {
    match token {
        Some(value) => value,
        None => seq![],
    }
}

/// The counter that a token writes: 0 where it is no number, `before` where there
/// is no token.
pub open spec fn token_counter(token: Option<Seq<char>>, before: u64) -> u64 {
    match token {
        Some(value) => match text::number(value, u64::MAX as int) {
            Some(n) => n as u64,
            None => 0,
        },
        None => before,
    }
}

/// The socket that a line begins to tell of, if it names an inode.
pub open spec fn begun(line: Seq<char>) -> Option<SockView> {
    let ws = text::words(line);
    let ino = token_text(last_token(ws, "ino:"@));
    if ino.len() > 0 {
        Some(
            SockView {
                ino,
                cgroup: token_text(last_token(ws, "cgroup:"@)),
                established: text::starts_with(line, "ESTAB"@),
                sent: 0,
                recv: 0,
            },
        )
    } else {
        None
    }
}

/// The socket `sock` with the counters that a further line gives.
pub open spec fn counted(sock: SockView, line: Seq<char>) -> SockView {
    let ws = text::words(line);
    SockView {
        sent: token_counter(last_token(ws, "bytes_sent:"@), sock.sent),
        recv: token_counter(last_token(ws, "bytes_received:"@), sock.recv),
        ..sock
    }
}

/// The sockets told of so far: those done with, and the one that the next line may
/// tell more of.
pub struct Told {
    pub done: Seq<SockView>,
    pub open: Option<SockView>,
}

/// All sockets told of, the open one last.
pub open spec fn all_told(t: Told) -> Seq<SockView> {
    match t.open {
        Some(sock) => t.done.push(sock),
        None => t.done,
    }
}

/// What the lines `ls` tell.
pub open spec fn told(ls: Seq<Seq<char>>) -> Told
    decreases ls.len(),
{
    if ls.len() == 0 {
        Told { done: seq![], open: None }
    } else {
        let before = told(ls.drop_last());
        let line = ls.last();
        if continues(line) {
            Told {
                done: before.done,
                open: match before.open {
                    Some(sock) => Some(counted(sock, line)),
                    None => None,
                },
            }
        } else {
            Told { done: all_told(before), open: begun(line) }
        }
    }
}

/// Every socket but the one with the inode `ino`.
pub open spec fn has_other_ino(ino: Seq<char>) -> spec_fn(SockView) -> bool {
    |s: SockView| s.ino != ino
}

/// The sockets `records` by inode: each inode stands where it was first told of, with
/// what was told of it last.
pub open spec fn latest(records: Seq<SockView>) -> Seq<SockView>
    decreases records.len(),
{
    if records.len() == 0 {
        seq![]
    } else {
        let before = latest(records.drop_last());
        let sock = records.last();
        let i = text::span(before, has_other_ino(sock.ino)) as int;
        if i < before.len() {
            before.update(i, sock)
        } else {
            before.push(sock)
        }
    }
}

/// Whether `records` tell of more sockets than can be told apart: the table was full
/// before the last of them.
pub open spec fn too_many(records: Seq<SockView>) -> bool {
    records.len() > 0 && latest(records.drop_last()).len() >= SOCKET_SCAN_LIMIT
}

/// The sockets that the output `out` of `ss` lists, unless there are too many.
pub open spec fn socket_table(out: Seq<char>) -> Option<Seq<SockView>> {
    let records = all_told(told(text::lines(out)));
    if too_many(records) {
        None
    } else {
        Some(latest(records))
    }
}

/// Whether no inode stands twice in `socks`.
pub open spec fn one_each(socks: Seq<SockView>) -> bool {
    forall|i: int, j: int|
        0 <= i < j < socks.len() ==> (#[trigger] socks[i]).ino != (#[trigger] socks[j]).ino
}

/// Sockets by inode, no inode twice.
#[derive(Debug)]
pub struct SocketTable {
    sockets: Vec<Sock>,
}

impl View for SocketTable {
    type V = Seq<SockView>;

    closed spec fn view(&self) -> Seq<SockView> {
        crate::rank::views(self.sockets@)
    }
}

/// A table of sockets holds each inode once.
pub proof fn latest_has_one_each(records: Seq<SockView>)
    ensures
        one_each(latest(records)),
        latest(records).len() <= records.len(),
    decreases records.len(),
{
    if records.len() > 0 {
        let before = latest(records.drop_last());
        let sock = records.last();
        let p = has_other_ino(sock.ino);
        latest_has_one_each(records.drop_last());
        text::lemma_span_holds(before, p);
        let n = text::span(before, p) as int;
        let now = latest(records);
        assert forall|i: int, j: int| 0 <= i < j < now.len() implies (#[trigger] now[i]).ino != (
        #[trigger] now[j]).ino by {
            if n < before.len() {
                assert(before[n].ino == sock.ino);
                assert(before[i].ino != before[j].ino);
            } else if j == n {
                assert(p(before[i]));
            } else {
                assert(before[i].ino != before[j].ino);
            }
        }
    }
}

proof fn lemma_latest_grows(records: Seq<SockView>, n: int)
    requires
        0 <= n <= records.len(),
    ensures
        latest(records.take(n)).len() <= latest(records).len(),
    decreases records.len(),
{
    if n < records.len() {
        lemma_latest_grows(records.drop_last(), n);
        assert(records.drop_last().take(n) == records.take(n));
    } else {
        assert(records.take(n) == records);
    }
}

impl SocketTable {
    #[verifier::type_invariant]
    spec fn valid(self) -> bool {
        &&& self.sockets@.len() <= SOCKET_SCAN_LIMIT
        &&& one_each(crate::rank::views(self.sockets@))
    }

    /// How many sockets the table holds, never more than can be told apart.
    pub fn len(&self) -> (r: usize)
        ensures
            r == self@.len(),
            r <= SOCKET_SCAN_LIMIT,
            one_each(self@),
    {
        proof {
            use_type_invariant(self);
        }
        self.sockets.len()
    }

    /// The socket at `i`.
    pub fn at(&self, i: usize) -> (r: &Sock)
        requires
            i < self@.len(),
        ensures
            r@ == self@[i as int],
    {
        &self.sockets[i]
    }

    /// Whether the table holds a socket with the inode `ino`.
    pub fn holds(&self, ino: &str) -> (r: bool)
        ensures
            r == exists|i: int| 0 <= i < self@.len() && (#[trigger] self@[i]).ino == ino@,
    {
        let mut i: usize = 0;
        while i < self.sockets.len()
            invariant
                i <= self.sockets@.len(),
                forall|k: int| 0 <= k < i ==> (#[trigger] self@[k]).ino != ino@,
            decreases self.sockets.len() - i,
        {
            assert(self@[i as int] == self.sockets@[i as int]@);
            if same_str(self.sockets[i].ino.as_str(), ino) {
                return true;
            }
            i = i + 1;
        }
        false
    }
}

/// What follows `prefix` in the last word of `ws` that begins with it.
fn find_token(ws: &Vec<Vec<char>>, prefix: &str) -> (r: Option<String>)
    ensures
        text::viewed(r) == last_token(text::texts(ws@), prefix@),
{
    let ghost all = text::texts(ws@);
    let mut n: usize = ws.len();
    assert(all.take(n as int) == all);
    while n > 0
        invariant
            n <= ws@.len(),
            all == text::texts(ws@),
            last_token(all.take(n as int), prefix@) == last_token(all, prefix@),
        decreases n,
    {
        proof {
            assert(all.take(n as int).last() == ws@[n - 1]@);
            assert(all.take(n as int).drop_last() == all.take(n - 1));
        }
        if let Some(value) = after_prefix(ws[n - 1].as_slice(), prefix) {
            return Some(string_of(value));
        }
        n = n - 1;
    }
    None
}

/// The text of a token, empty where there is none.
fn text_of_token(token: Option<String>) -> (r: String)
    ensures
        r@ == token_text(text::viewed(token)),
{
    match token {
        Some(value) => value,
        None => String::new(),
    }
}

/// The counter that a token writes.
fn counter_of_token(token: Option<String>, before: u64) -> (r: u64)
    ensures
        r == token_counter(text::viewed(token), before),
{
    match token {
        Some(value) => match parse_u64(chars_of(value.as_str()).as_slice()) {
            Some(n) => n,
            None => 0,
        },
        None => before,
    }
}

/// The socket that a line begins to tell of.
fn begin_socket(line: &[char]) -> (r: Option<Sock>)
    ensures
        text::viewed(r) == begun(line@),
{
    let ws: Vec<Vec<char>> = split_words(line);
    let ino: String = text_of_token(find_token(&ws, "ino:"));
    if ino.as_str().is_empty() {
        return None;
    }
    let cgroup: String = text_of_token(find_token(&ws, "cgroup:"));
    Some(Sock { ino, cgroup, established: begins(line, "ESTAB"), sent: 0, recv: 0 })
}

/// The sockets that the lines of `out` tell of, one after the other.
fn read_records(out: &str) -> (r: Vec<Sock>)
    ensures
        crate::rank::views(r@) == all_told(told(text::lines(out@))),
{
    let lines: Vec<Vec<char>> = split_lines(chars_of(out).as_slice());
    let ghost ls = text::lines(out@);
    let mut done: Vec<Sock> = Vec::new();
    let mut open: Option<Sock> = None;
    let mut i: usize = 0;
    assert(crate::rank::views(done@) == told(ls.take(0)).done);
    while i < lines.len()
        invariant
            i <= lines@.len(),
            ls == text::texts(lines@),
            crate::rank::views(done@) == told(ls.take(i as int)).done,
            text::viewed(open) == told(ls.take(i as int)).open,
        decreases lines.len() - i,
    {
        let line: &[char] = lines[i].as_slice();
        proof {
            assert(line@ == ls[i as int]);
            assert(ls.take(i + 1).drop_last() == ls.take(i as int));
        }
        let ghost before = done@;
        if line.len() > 0 && (line[0] == ' ' || line[0] == '\t') {
            if let Some(sock) = open {
                let ws: Vec<Vec<char>> = split_words(line);
                let sent: u64 = counter_of_token(find_token(&ws, "bytes_sent:"), sock.sent);
                let recv: u64 = counter_of_token(find_token(&ws, "bytes_received:"), sock.recv);
                open = Some(Sock { sent, recv, ..sock });
            }
        } else {
            if let Some(sock) = open {
                done.push(sock);
                assert(crate::rank::views(done@) == crate::rank::views(before).push(sock@));
            }
            open = begin_socket(line);
        }
        i = i + 1;
    }
    assert(ls.take(ls.len() as int) == ls);
    let ghost before = done@;
    if let Some(sock) = open {
        done.push(sock);
        assert(crate::rank::views(done@) == crate::rank::views(before).push(sock@));
    }
    done
}

/// Where the socket with the inode `ino` stands in `socks`, or their number.
fn ino_index(socks: &Vec<Sock>, ino: &str) -> (r: usize)
    ensures
        r == text::span(crate::rank::views(socks@), has_other_ino(ino@)),
        r <= socks@.len(),
{
    let ghost all = crate::rank::views(socks@);
    let mut i: usize = 0;
    while i < socks.len() && !same_str(socks[i].ino.as_str(), ino)
        invariant
            i <= socks@.len(),
            all == crate::rank::views(socks@),
            forall|k: int| 0 <= k < i ==> has_other_ino(ino@)(#[trigger] all[k]),
        decreases socks.len() - i,
    {
        assert(all[i as int] == socks@[i as int]@);
        i = i + 1;
    }
    proof {
        assert(i < socks@.len() ==> all[i as int] == socks@[i as int]@);
        text::lemma_span(all, has_other_ino(ino@), i as int);
    }
    i
}

/// The sockets that the output `out` of `ss` lists, unless there are too many.
pub fn parse_sockets(out: &str) -> (r: Option<SocketTable>)
    ensures
        text::viewed(r) == socket_table(out@),
{
    let records: Vec<Sock> = read_records(out);
    let ghost recs = records@;
    let ghost all = crate::rank::views(records@);
    let mut table: Vec<Sock> = Vec::new();
    assert(crate::rank::views(table@) == latest(all.take(0)));
    for sock in it: records
        invariant
            it.seq() == recs,
            all == crate::rank::views(recs),
            all == all_told(told(text::lines(out@))),
            crate::rank::views(table@) == latest(all.take(it.index())),
            table@.len() <= SOCKET_SCAN_LIMIT,
            it.index() > 0 ==> latest(all.take(it.index() - 1)).len() < SOCKET_SCAN_LIMIT,
    {
        let ghost n = it.index();
        let ghost before = table@;
        proof {
            assert(all[n] == sock@);
            assert(all.take(n + 1).drop_last() == all.take(n));
        }
        if table.len() >= SOCKET_SCAN_LIMIT {
            proof {
                lemma_latest_grows(all.drop_last(), n);
                assert(all.drop_last().take(n) == all.take(n));
            }
            return None;
        }
        let i: usize = ino_index(&table, sock.ino.as_str());
        if i < table.len() {
            table.set(i, sock);
            assert(crate::rank::views(table@) == crate::rank::views(before).update(
                i as int,
                sock@,
            ));
        } else {
            table.push(sock);
            assert(crate::rank::views(table@) == crate::rank::views(before).push(sock@));
        }
    }
    proof {
        assert(all.take(all.len() as int) == all);
        assert(all.len() > 0 ==> all.drop_last() == all.take(all.len() - 1));
        latest_has_one_each(all);
    }
    Some(SocketTable { sockets: table })
}

/// A table never holds more sockets than the limit allows.
pub proof fn tables_are_limited(out: Seq<char>)
    ensures
        socket_table(out) is Some ==> socket_table(out)->0.len() <= SOCKET_SCAN_LIMIT,
{
    let records = all_told(told(text::lines(out)));
    if records.len() > 0 {
        assert(latest(records).len() <= latest(records.drop_last()).len() + 1);
    }
}

} // verus!
