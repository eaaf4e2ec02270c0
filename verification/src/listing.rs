//! What is made of the list of sockets, in terms of its lines.

use crate::files;
use crate::reading;
use crate::sockets;
use crate::sockets::{SockView, Told};
use crate::text;
use vstd::prelude::*;

verus! {

/// Whether the last of the words `ws` that begins with `prefix` goes on with `value`.
pub open spec fn says(ws: Seq<Seq<char>>, prefix: Seq<char>, value: Seq<char>) -> bool {
    exists|i: int|
        {
            &&& 0 <= i < ws.len()
            &&& #[trigger] ws[i] == prefix + value
            &&& forall|j: int| i < j < ws.len() ==> !text::starts_with(#[trigger] ws[j], prefix)
        }
}

/// Whether none of the words `ws` begins with `prefix`.
pub open spec fn is_silent(ws: Seq<Seq<char>>, prefix: Seq<char>) -> bool {
    forall|j: int| 0 <= j < ws.len() ==> !text::starts_with(#[trigger] ws[j], prefix)
}

proof fn lemma_token(ws: Seq<Seq<char>>, prefix: Seq<char>)
    ensures
        sockets::last_token(ws, prefix) is None <==> is_silent(ws, prefix),
        forall|value: Seq<char>| #[trigger]
            says(ws, prefix, value) ==> sockets::last_token(ws, prefix) == Some(value),
    decreases ws.len(),
{
    if ws.len() > 0 {
        let rest = ws.drop_last();
        let last = ws.last();
        lemma_token(rest, prefix);
        assert(forall|j: int| 0 <= j < rest.len() ==> #[trigger] rest[j] == ws[j]);
        assert(ws[ws.len() - 1] == last);
        assert forall|value: Seq<char>| #[trigger] says(ws, prefix, value) implies sockets::last_token(
            ws,
            prefix,
        ) == Some(value) by {
            let i = choose|i: int|
                {
                    &&& 0 <= i < ws.len()
                    &&& #[trigger] ws[i] == prefix + value
                    &&& forall|j: int|
                        i < j < ws.len() ==> !text::starts_with(#[trigger] ws[j], prefix)
                };
            reading::ends_are_taken_off(last, prefix, value);
            if i < rest.len() {
                assert(rest[i] == prefix + value);
                assert(!text::starts_with(ws[ws.len() - 1], prefix));
                assert(says(rest, prefix, value));
            }
        }
        if is_silent(rest, prefix) && !text::starts_with(last, prefix) {
            assert forall|j: int| 0 <= j < ws.len() implies !text::starts_with(
                #[trigger] ws[j],
                prefix,
            ) by {
                if j < rest.len() {
                    assert(rest[j] == ws[j]);
                }
            }
        }
        if is_silent(ws, prefix) {
            assert(!text::starts_with(ws[ws.len() - 1], prefix));
        }
    }
}

/// A line begins to tell of a socket exactly when it names an inode. The socket has that
/// inode, the control group that the line names or else none, is established when the line
/// begins so, and has no traffic yet.
pub proof fn lines_begin_sockets(line: Seq<char>, ino: Seq<char>, cgroup: Seq<char>)
    ensures
        ({
            let ws = text::words(line);
            let begun = sockets::begun(line);
            &&& is_silent(ws, "ino:"@) ==> begun is None
            &&& says(ws, "ino:"@, ino) ==> {
                &&& begun is Some <==> ino.len() > 0
                &&& begun matches Some(s) ==> {
                    &&& s.ino == ino
                    &&& says(ws, "cgroup:"@, cgroup) ==> s.cgroup == cgroup
                    &&& is_silent(ws, "cgroup:"@) ==> s.cgroup.len() == 0
                    &&& s.established <==> text::starts_with(line, "ESTAB"@)
                    &&& s.sent == 0
                    &&& s.recv == 0
                }
            }
        }),
{
    lemma_token(text::words(line), "ino:"@);
    lemma_token(text::words(line), "cgroup:"@);
}

/// A further line sets the bytes sent and the bytes received of its socket to what it says,
/// zero where that is no number; what it does not say stays, and so does all else.
pub proof fn further_lines_set_the_counters(s: SockView, line: Seq<char>, value: Seq<char>)
    ensures
        ({
            let ws = text::words(line);
            let after = sockets::counted(s, line);
            &&& says(ws, "bytes_sent:"@, value) ==> after.sent == files::number_or_zero(value)
            &&& is_silent(ws, "bytes_sent:"@) ==> after.sent == s.sent
            &&& says(ws, "bytes_received:"@, value) ==> after.recv == files::number_or_zero(value)
            &&& is_silent(ws, "bytes_received:"@) ==> after.recv == s.recv
            &&& after.ino == s.ino
            &&& after.cgroup == s.cgroup
            &&& after.established == s.established
        }),
{
    lemma_token(text::words(line), "bytes_sent:"@);
    lemma_token(text::words(line), "bytes_received:"@);
}

/// The sockets that the lines `ls` tell of.
pub open spec fn sockets_of(ls: Seq<Seq<char>>) -> Seq<SockView> {
    sockets::all_told(sockets::told(ls))
}

/// Whether the line is indented, and so goes on with what the one before it began.
pub open spec fn is_indented(line: Seq<char>) -> bool {
    line.len() > 0 && (line[0] == ' ' || line[0] == '\t')
}

proof fn lemma_told(a: Seq<Seq<char>>, b: Seq<Seq<char>>)
    requires
        b.len() > 0,
        !is_indented(b[0]),
    ensures
        sockets::told(a + b).done == sockets_of(a) + sockets::told(b).done,
        sockets::told(a + b).open == sockets::told(b).open,
    decreases b.len(),
{
    let rest = b.drop_last();
    assert((a + b).drop_last() == a + rest);
    assert((a + b).last() == b.last());
    if rest.len() > 0 {
        assert(rest[0] == b[0]);
        lemma_told(a, rest);
        if let Some(s) = sockets::told(rest).open {
            assert((sockets_of(a) + sockets::told(rest).done).push(s) == sockets_of(a)
                + sockets::told(rest).done.push(s));
        }
        assert(sockets::told(a + b).done == sockets_of(a) + sockets::told(b).done);
    } else {
        assert(b.last() == b[0]);
        assert(a + rest == a);
        assert(sockets::told(rest).done.len() == 0);
        assert(sockets_of(rest) == Seq::<SockView>::empty());
        assert(sockets::told(b).done == Seq::<SockView>::empty());
        assert(sockets::told(a + b).done == sockets_of(a) + sockets::told(b).done);
    }
}

/// A line that is not indented begins anew: what it and those after it tell of comes behind
/// what those before it tell of.
pub proof fn new_lines_begin_anew(a: Seq<Seq<char>>, b: Seq<Seq<char>>)
    requires
        b.len() > 0,
        !is_indented(b[0]),
    ensures
        sockets_of(a + b) == sockets_of(a) + sockets_of(b),
{
    lemma_told(a, b);
    if let Some(s) = sockets::told(b).open {
        assert((sockets_of(a) + sockets::told(b).done).push(s) == sockets_of(a) + sockets::told(
            b,
        ).done.push(s));
    }
}

/// One line that is not indented and the indented ones behind it tell of one socket, if it
/// names an inode, and else of none; each of them sets the counters in turn. Indented lines
/// alone tell of none.
pub proof fn indented_lines_go_on(first: Seq<char>, more: Seq<Seq<char>>, line: Seq<char>)
    requires
        !is_indented(first),
        forall|i: int| 0 <= i < more.len() ==> is_indented(#[trigger] more[i]),
        is_indented(line),
    ensures
        ({
            let block = seq![first] + more;
            &&& sockets_of(seq![first]) == (match sockets::begun(first) {
                Some(s) => seq![s],
                None => Seq::<SockView>::empty(),
            })
            &&& sockets_of(block).len() == sockets_of(seq![first]).len()
            &&& sockets_of(block).len() == 1 ==> sockets_of(block.push(line)) == seq![
                sockets::counted(sockets_of(block)[0], line),
            ]
            &&& sockets_of(block).len() == 0 ==> sockets_of(block.push(line)).len() == 0
            &&& sockets_of(more).len() == 0
        }),
    decreases more.len(),
{
    let block = seq![first] + more;
    assert(seq![first].drop_last().len() == 0);
    assert(sockets::told(seq![first].drop_last()) == (Told { done: seq![], open: None }));
    assert(seq![first].last() == first);
    assert(sockets::told(seq![first]).done == Seq::<SockView>::empty());
    if more.len() > 0 {
        let rest = more.drop_last();
        assert(forall|i: int| 0 <= i < rest.len() ==> #[trigger] rest[i] == more[i]);
        assert(more.last() == more[more.len() - 1]);
        indented_lines_go_on(first, rest, more.last());
        assert(block == (seq![first] + rest).push(more.last()));
    } else {
        assert(block == seq![first]);
    }
    lemma_block(first, more);
    assert(block.push(line).drop_last() == block);
}

proof fn lemma_block(first: Seq<char>, more: Seq<Seq<char>>)
    requires
        !is_indented(first),
        forall|i: int| 0 <= i < more.len() ==> is_indented(#[trigger] more[i]),
    ensures
        sockets::told(seq![first] + more).done.len() == 0,
        sockets::told(seq![first] + more).open is Some <==> sockets::begun(first) is Some,
    decreases more.len(),
{
    let block = seq![first] + more;
    if more.len() > 0 {
        let rest = more.drop_last();
        assert(forall|i: int| 0 <= i < rest.len() ==> #[trigger] rest[i] == more[i]);
        assert(more.last() == more[more.len() - 1]);
        lemma_block(first, rest);
        assert(block.drop_last() == seq![first] + rest);
        assert(block.last() == more.last());
    } else {
        assert(block == seq![first]);
        assert(block.drop_last().len() == 0);
        assert(sockets_of(block.drop_last()).len() == 0);
        assert(block.last() == first);
    }
}

/// Whether `s` is what is told last of its inode.
pub open spec fn is_told_last(records: Seq<SockView>, s: SockView) -> bool {
    exists|i: int|
        {
            &&& 0 <= i < records.len()
            &&& #[trigger] records[i] == s
            &&& forall|j: int| i < j < records.len() ==> (#[trigger] records[j]).ino != s.ino
        }
}

/// The table of sockets holds of each inode what was told of it last, and nothing else; one
/// more record leaves every inode at its place, and adds at most itself at the end.
pub proof fn last_records_count(records: Seq<SockView>, more: SockView)
    ensures
        forall|s: SockView| #[trigger]
            sockets::latest(records).contains(s) <==> is_told_last(records, s),
        ({
            let before = sockets::latest(records);
            let after = sockets::latest(records.push(more));
            &&& before.len() <= after.len() <= before.len() + 1
            &&& forall|i: int|
                0 <= i < before.len() ==> (#[trigger] before[i]).ino == (#[trigger] after[i]).ino
            &&& after.len() > before.len() ==> after[before.len() as int] == more
        }),
    decreases records.len(),
{
    let after = sockets::latest(records.push(more));
    let before = sockets::latest(records);
    assert(records.push(more).drop_last() == records);
    text::lemma_span_holds(before, sockets::has_other_ino(more.ino));
    let n = text::span(before, sockets::has_other_ino(more.ino)) as int;
    if n < before.len() {
        assert(!sockets::has_other_ino(more.ino)(before[n]));
    }
    if records.len() > 0 {
        let rest = records.drop_last();
        let last = records.last();
        last_records_count(rest, last);
        assert(rest.push(last) == records);
        lemma_told_last(rest, last);
    }
}

proof fn lemma_told_last(rest: Seq<SockView>, last: SockView)
    requires
        forall|s: SockView| #[trigger]
            sockets::latest(rest).contains(s) <==> is_told_last(rest, s),
    ensures
        forall|s: SockView| #[trigger]
            sockets::latest(rest.push(last)).contains(s) <==> is_told_last(rest.push(last), s),
{
    let records = rest.push(last);
    let before = sockets::latest(rest);
    let now = sockets::latest(records);
    let p = sockets::has_other_ino(last.ino);
    let n = text::span(before, p) as int;
    assert(records.drop_last() == rest);
    text::lemma_span_holds(before, p);
    sockets::latest_has_one_each(rest);
    if n < before.len() {
        assert(!p(before[n]));
        assert(now[n] == last);
    } else {
        assert(now[before.len() as int] == last);
    }
    assert(records[rest.len() as int] == last);
    assert forall|s: SockView| #[trigger] now.contains(s) implies is_told_last(records, s) by {
        let k = choose|k: int| 0 <= k < now.len() && now[k] == s;
        if k == n {
            assert(s == last);
            assert(is_told_last(records, s));
        } else {
            assert(before[k] == s);
            assert(before.contains(s));
            let i = choose|i: int|
                {
                    &&& 0 <= i < rest.len()
                    &&& #[trigger] rest[i] == s
                    &&& forall|j: int| i < j < rest.len() ==> (#[trigger] rest[j]).ino != s.ino
                };
            if n < before.len() {
                assert(before[k].ino != before[n].ino);
            } else {
                assert(p(before[k]));
            }
            assert(records[i] == s);
            assert forall|j: int| i < j < records.len() implies (#[trigger] records[j]).ino
                != s.ino by {
                if j < rest.len() {
                    assert(records[j] == rest[j]);
                }
            }
        }
    }
    assert forall|s: SockView| is_told_last(records, s) implies #[trigger] now.contains(s) by {
        let i = choose|i: int|
            {
                &&& 0 <= i < records.len()
                &&& #[trigger] records[i] == s
                &&& forall|j: int| i < j < records.len() ==> (#[trigger] records[j]).ino != s.ino
            };
        if i < rest.len() {
            assert(rest[i] == s);
            assert forall|j: int| i < j < rest.len() implies (#[trigger] rest[j]).ino != s.ino by {
                assert(records[j] == rest[j]);
            }
            assert(is_told_last(rest, s));
            assert(before.contains(s));
            assert(records[rest.len() as int].ino != s.ino);
            let k = choose|k: int| 0 <= k < before.len() && before[k] == s;
            assert(now[k] == s);
        }
    }
}

/// The list is read line by line. Where something is told after 16384 sockets are known it
/// is given up, and else each is told of.
pub proof fn lists_of_too_many_are_given_up(out: Seq<char>)
    ensures
        ({
            let records = sockets_of(text::lines(out));
            let full = records.len() > 0 && sockets::latest(records.drop_last()).len() >= 16384;
            &&& full ==> sockets::socket_table(out) is None
            &&& !full ==> sockets::socket_table(out) == Some(sockets::latest(records))
        }),
{
}

} // verus!
