//! What the files of a process under `/proc/<pid>` hold.

use crate::names;
use crate::text;
use crate::text::{
    after_prefix, chars_of, find_char, find_last_char, is_text, parse_u32, parse_u64, split_lines,
    split_words, string_of, trimmed,
};
use vstd::prelude::*;
use vstd::slice::slice_subrange;

verus! {

/// The most processes that one walk of `/proc` looks at.
pub const PROCESS_SCAN_LIMIT: usize = 16_384;

/// The most bytes that a file of a process is read with.
pub const PROC_FILE_LIMIT: usize = 65_536;

/// The bytes of a file, unless there are more than the limit allows. Of a longer file it
/// is enough to have read one byte more than that.
pub fn within_limit(bytes: Vec<u8>) -> (r: Option<Vec<u8>>)
    ensures
        r == (if bytes@.len() <= PROC_FILE_LIMIT {
            Some(bytes)
        } else {
            None
        }),
{
    if bytes.len() <= PROC_FILE_LIMIT {
        Some(bytes)
    } else {
        None
    }
}

/// What to do with an entry of `/proc`.
#[derive(Debug, Clone, Copy, PartialEq, Eq, Structural)]
pub enum ScanStep {
    /// It is no process.
    Skip,
    /// It is the process with this number.
    Take(u32),
    /// Enough processes have been looked at.
    Stop,
}

/// What to do with the entry `file_name` of `/proc` when `scanned` processes have
/// been looked at.
pub open spec fn scan_step(file_name: Seq<char>, scanned: int) -> ScanStep {
    match text::number(file_name, u32::MAX as int) {
        None => ScanStep::Skip,
        Some(pid) => if scanned >= PROCESS_SCAN_LIMIT {
            ScanStep::Stop
        } else {
            ScanStep::Take(pid as u32)
        },
    }
}

/// What to do with the next entry of `/proc`.
pub fn next_step(file_name: &str, scanned: usize) -> (r: ScanStep)
    ensures
        r == scan_step(file_name@, scanned as int),
{
    match parse_u32(chars_of(file_name).as_slice()) {
        None => ScanStep::Skip,
        Some(pid) => if scanned >= PROCESS_SCAN_LIMIT {
            ScanStep::Stop
        } else {
            ScanStep::Take(pid)
        },
    }
}

/// What a sample takes from `/proc/<pid>/stat`.
#[derive(Debug)]
pub struct ProcStat {
    pub comm: String,
    /// Clock ticks spent in user mode.
    pub utime: u64,
    /// Clock ticks spent in kernel mode.
    pub stime: u64,
    /// Resident pages.
    pub pages: u64,
}

/// The model of a [`ProcStat`].
pub struct ProcStatView {
    pub comm: Seq<char>,
    pub utime: u64,
    pub stime: u64,
    pub pages: u64,
}

impl View for ProcStat {
    type V = ProcStatView;

    open spec fn view(&self) -> ProcStatView {
        ProcStatView {
            comm: self.comm@,
            utime: self.utime,
            stime: self.stime,
            pages: self.pages,
        }
    }
}

/// Whether `stat` holds an opening and a closing parenthesis.
pub open spec fn has_comm(stat: Seq<char>) -> bool {
    text::find(stat, '(') < stat.len() && text::find_last(stat, ')') >= 0
}

/// Whether `stat` falls into a `comm` and fields, where it holds parentheses: they
/// stand in their order, and one character of one byte parts the last from the fields.
pub open spec fn stat_splits(stat: Seq<char>) -> bool {
    let close = text::find_last(stat, ')');
    has_comm(stat) ==> {
        &&& text::find(stat, '(') < close
        &&& close + 1 < stat.len()
        &&& stat[close + 1] < '\u{80}'
    }
}

/// The fields that follow the `comm` in `stat`.
pub open spec fn stat_fields(stat: Seq<char>) -> Seq<Seq<char>> {
    text::words(stat.skip(text::find_last(stat, ')') + 2))
}

/// The number that `s` writes, or 0.
pub open spec fn counter(s: Seq<char>) -> u64 {
    match text::number(s, u64::MAX as int) {
        Some(n) => n as u64,
        None => 0,
    }
}

/// What `stat` says of a process that is alive: user time and system time are the
/// fields 14 and 15 of the line, the resident pages are field 24.
pub open spec fn parsed_stat(stat: Seq<char>) -> Option<ProcStatView> {
    let fields = stat_fields(stat);
    if has_comm(stat) && fields.len() >= 22 && fields[0] != "Z"@ {
        Some(
            ProcStatView {
                comm: names::comm_of(stat)->0,
                utime: counter(fields[11]),
                stime: counter(fields[12]),
                pages: counter(fields[21]),
            },
        )
    } else {
        None
    }
}

/// Whether [`parse_stat`] can be asked of `stat`.
pub fn can_parse_stat(stat: &str) -> (r: bool)
    ensures
        r == stat_splits(stat@),
{
    let chars: Vec<char> = chars_of(stat);
    let open: usize = find_char(chars.as_slice(), '(');
    match find_last_char(chars.as_slice(), ')') {
        None => true,
        Some(close) => open == chars.len() || (open < close && close < chars.len() - 1
            && chars[close + 1] < '\u{80}'),
    }
}

/// The number that `s` writes, or 0.
fn parse_counter(s: &[char]) -> (r: u64)
    ensures
        r == counter(s@),
{
    match parse_u64(s) {
        Some(n) => n,
        None => 0,
    }
}

/// What a line of `/proc/<pid>/stat` says, of a process that is no zombie.
pub fn parse_stat(stat: &str) -> (r: Option<ProcStat>)
    requires
        stat_splits(stat@),
    ensures
        text::viewed(r) == parsed_stat(stat@),
{
    let chars: Vec<char> = chars_of(stat);
    let close: usize = match find_last_char(chars.as_slice(), ')') {
        Some(close) => close,
        None => return None,
    };
    let open: usize = find_char(chars.as_slice(), '(');
    if open == chars.len() {
        return None;
    }
    let rest: &[char] = slice_subrange(chars.as_slice(), close + 2, chars.len());
    assert(rest@ == stat@.skip(close + 2));
    let fields: Vec<Vec<char>> = split_words(rest);
    let ghost fs = stat_fields(stat@);
    assert(fields@.len() == fs.len());
    if fields.len() < 22 {
        return None;
    }
    assert(fields@[0]@ == fs[0] && fields@[11]@ == fs[11] && fields@[12]@ == fs[12]
        && fields@[21]@ == fs[21]);
    if is_text(fields[0].as_slice(), "Z") {
        return None;
    }
    let comm: String = string_of(slice_subrange(chars.as_slice(), open + 1, close));
    let utime: u64 = parse_counter(fields[11].as_slice());
    let stime: u64 = parse_counter(fields[12].as_slice());
    let pages: u64 = parse_counter(fields[21].as_slice());
    Some(ProcStat { comm, utime, stime, pages })
}

/// Bytes that a process has read from and written to storage.
#[derive(Debug, Clone, Copy, PartialEq, Eq, Structural)]
pub struct IoBytes {
    pub read: u64,
    pub write: u64,
}

/// Every line that does not begin with `prefix`.
pub open spec fn begins_otherwise(prefix: Seq<char>) -> spec_fn(Seq<char>) -> bool {
    |l: Seq<char>| !text::starts_with(l, prefix)
}

/// The first of the lines `ls` that begins with `prefix`, or their number.
pub open spec fn first_with(ls: Seq<Seq<char>>, prefix: Seq<char>) -> nat {
    text::span(ls, begins_otherwise(prefix))
}

/// The counter that the last of the lines `ls` that begins with `prefix` gives, or 0.
pub open spec fn last_counter(ls: Seq<Seq<char>>, prefix: Seq<char>) -> u64
    decreases ls.len(),
{
    if ls.len() == 0 {
        0
    } else {
        match text::strip_prefix(ls.last(), prefix) {
            Some(value) => counter(text::trim(value)),
            None => last_counter(ls.drop_last(), prefix),
        }
    }
}

/// What `/proc/<pid>/io` says: nothing after the bytes written is read.
pub open spec fn parsed_io(io: Seq<char>) -> IoBytes {
    let ls = text::lines(io);
    let end = first_with(ls, "write_bytes:"@) as int;
    IoBytes {
        read: last_counter(ls.take(end), "read_bytes:"@),
        write: if end < ls.len() {
            counter(text::trim(ls[end].skip("write_bytes:"@.len() as int)))
        } else {
            0
        },
    }
}

/// What `/proc/<pid>/io` says of a process's reads and writes.
pub fn parse_io(io: &str) -> (r: IoBytes)
    ensures
        r == parsed_io(io@),
{
    let lines: Vec<Vec<char>> = split_lines(chars_of(io).as_slice());
    let ghost ls = text::lines(io@);
    let ghost other = begins_otherwise("write_bytes:"@);
    let mut read: u64 = 0;
    let mut i: usize = 0;
    while i < lines.len()
        invariant
            i <= lines@.len(),
            text::texts(lines@) == ls,
            ls == text::lines(io@),
            other == begins_otherwise("write_bytes:"@),
            read == last_counter(ls.take(i as int), "read_bytes:"@),
            forall|j: int| 0 <= j < i ==> other(#[trigger] ls[j]),
        decreases lines.len() - i,
    {
        let line: &[char] = lines[i].as_slice();
        proof {
            assert(line@ == ls[i as int]);
            assert(ls.take(i + 1).drop_last() == ls.take(i as int));
            reveal_strlit("write_bytes:");
            reveal_strlit("read_bytes:");
        }
        if let Some(value) = after_prefix(line, "read_bytes:") {
            proof {
                assert(line@.take(11)[0] == line@[0]);
                assert(line@.len() >= 12 ==> line@.take(12)[0] == line@[0]);
            }
            read = parse_counter(trimmed(value));
        } else if let Some(value) = after_prefix(line, "write_bytes:") {
            let write: u64 = parse_counter(trimmed(value));
            proof {
                text::lemma_span(ls, other, i as int);
            }
            return IoBytes { read, write };
        }
        i = i + 1;
    }
    proof {
        text::lemma_span(ls, other, i as int);
        assert(ls.take(i as int) == ls);
    }
    IoBytes { read, write: 0 }
}

} // verus!
