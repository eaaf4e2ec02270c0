//! What is made of the files of a process, in terms of what stands in them.

use crate::drm;
use crate::drm::Field;
use crate::names;
use crate::reading;
use crate::stat;
use crate::stat::ScanStep;
use crate::text;
use vstd::prelude::*;

verus! {

/// The number that `s` writes, and zero where it writes none of 64 bits.
pub open spec fn number_or_zero(s: Seq<char>) -> u64 {
    match text::number(s, 0xffff_ffff_ffff_ffff) {
        Some(n) => n as u64,
        None => 0,
    }
}

/// A line that holds a colon is a field: what stands before its first one, and what stands
/// after it, both without the white space around them. A line without one is none.
pub proof fn fields_are_parted_by_a_colon(key: Seq<char>, value: Seq<char>)
    requires
        names::lacks(key, ':'),
    ensures
        drm::field(key.push(':') + value) == Some((text::trim(key), text::trim(value))),
        drm::field(key) is None,
{
    reading::first_separator_is_found(key, ':', value);
    let line = key.push(':') + value;
    assert(line.take(key.len() as int) == key);
    assert(line.skip(key.len() as int + 1) == value);
}

/// The fields of lines are those of the first of them and then those of the others, each
/// line giving one or none.
pub proof fn lines_give_their_fields_in_order(a: Seq<Seq<char>>, b: Seq<Seq<char>>)
    ensures
        drm::fields(a + b) == drm::fields(a) + drm::fields(b),
        a.len() == 1 ==> drm::fields(a) == (match drm::field(a[0]) {
            Some(f) => seq![f],
            None => Seq::<Field>::empty(),
        }),
    decreases b.len(),
{
    if a.len() == 1 {
        assert(a.drop_last().len() == 0);
        assert(drm::fields(a.drop_last()) == Seq::<Field>::empty());
    }
    if b.len() == 0 {
        assert(a + b == a);
        assert(drm::fields(a) + drm::fields(b) == drm::fields(a));
    } else {
        lines_give_their_fields_in_order(a, b.drop_last());
        assert((a + b).drop_last() == a + b.drop_last());
        assert((a + b).last() == b.last());
        if let Some(f) = drm::field(b.last()) {
            assert((drm::fields(a) + drm::fields(b.drop_last())).push(f) == drm::fields(a)
                + drm::fields(b.drop_last()).push(f));
        }
    }
}

/// Whether the field at `i` is the last of `fs` with the key `key`.
pub open spec fn is_last(fs: Seq<Field>, key: Seq<char>, i: int) -> bool {
    &&& 0 <= i < fs.len()
    &&& fs[i].0 == key
    &&& forall|j: int| i < j < fs.len() ==> (#[trigger] fs[j]).0 != key
}

/// Whether no field of `fs` has the key `key`.
pub open spec fn is_unsaid(fs: Seq<Field>, key: Seq<char>) -> bool {
    forall|j: int| 0 <= j < fs.len() ==> (#[trigger] fs[j]).0 != key
}

proof fn lemma_last_value(fs: Seq<Field>, key: Seq<char>)
    ensures
        drm::last_value(fs, key) is None <==> is_unsaid(fs, key),
        forall|i: int| #[trigger]
            is_last(fs, key, i) ==> drm::last_value(fs, key) == Some(fs[i].1),
    decreases fs.len(),
{
    if fs.len() > 0 {
        let rest = fs.drop_last();
        lemma_last_value(rest, key);
        assert forall|i: int| #[trigger] is_last(fs, key, i) implies drm::last_value(fs, key)
            == Some(fs[i].1) by {
            if i < rest.len() {
                assert(fs[fs.len() - 1].0 != key);
                assert(rest[i] == fs[i]);
                assert forall|j: int| i < j < rest.len() implies (#[trigger] rest[j]).0 != key by {
                    assert(rest[j] == fs[j]);
                }
                assert(is_last(rest, key, i));
            }
        }
        if fs.last().0 == key {
            assert(fs[fs.len() - 1].0 == key);
        } else if is_unsaid(rest, key) {
            assert forall|j: int| 0 <= j < fs.len() implies (#[trigger] fs[j]).0 != key by {
                if j < rest.len() {
                    assert(rest[j] == fs[j]);
                }
            }
        } else {
            let j = choose|j: int| 0 <= j < rest.len() && (#[trigger] rest[j]).0 == key;
            assert(fs[j].0 == key);
        }
    }
}

/// A client of a GPU is told of where a device and an identifier are given, the last of
/// each, and neither is empty. It has them with no more than 256 characters of each.
pub proof fn clients_have_a_device_and_an_identifier(contents: Seq<char>, d: int, c: int)
    ensures
        ({
            let fs = drm::fields(text::lines(contents));
            let told = drm::drm_client(contents);
            &&& is_unsaid(fs, "drm-pdev"@) || is_unsaid(fs, "drm-client-id"@) ==> told is None
            &&& is_last(fs, "drm-pdev"@, d) && is_last(fs, "drm-client-id"@, c) ==> {
                &&& told is Some <==> fs[d].1.len() > 0 && fs[c].1.len() > 0
                &&& told matches Some(client) ==> {
                    &&& fs[d].1.len() <= 256 ==> client.pdev == fs[d].1
                    &&& fs[d].1.len() > 256 ==> client.pdev == fs[d].1.take(256)
                    &&& fs[c].1.len() <= 256 ==> client.client == fs[c].1
                    &&& fs[c].1.len() > 256 ==> client.client == fs[c].1.take(256)
                }
            }
        }),
{
    let fs = drm::fields(text::lines(contents));
    lemma_last_value(fs, "drm-pdev"@);
    lemma_last_value(fs, "drm-client-id"@);
}

/// A size is a number, of bytes where no unit follows it or one that is not known, and else
/// of the powers of 1024 that the unit means. The largest 64-bit number stands for what is
/// more than that, and what does not begin with a number is no size.
pub proof fn sizes_have_units(value: Seq<char>, n: nat)
    ensures
        ({
            let ws = text::words(value);
            let bytes = |b: nat| if b <= 0xffff_ffff_ffff_ffff {
                b as u64
            } else {
                0xffff_ffff_ffff_ffffu64
            };
            &&& ws.len() == 0 ==> drm::size(value) is None
            &&& ws.len() > 0 && text::number(ws[0], 0xffff_ffff_ffff_ffff) is None ==> drm::size(
                value,
            ) is None
            &&& ws.len() > 0 && text::number(ws[0], 0xffff_ffff_ffff_ffff) == Some(n) ==> {
                &&& ws.len() == 1 ==> drm::size(value) == Some(bytes(n))
                &&& ws.len() > 1 && ws[1] == "KiB"@ ==> drm::size(value) == Some(bytes(n * 1024))
                &&& ws.len() > 1 && ws[1] == "MiB"@ ==> drm::size(value) == Some(
                    bytes(n * 1024 * 1024),
                )
                &&& ws.len() > 1 && ws[1] == "GiB"@ ==> drm::size(value) == Some(
                    bytes(n * 1024 * 1024 * 1024),
                )
                &&& ws.len() > 1 && ws[1] != "KiB"@ && ws[1] != "MiB"@ && ws[1] != "GiB"@
                    ==> drm::size(value) == Some(bytes(n))
            }
        }),
{
    reveal_strlit("KiB");
    reveal_strlit("MiB");
    reveal_strlit("GiB");
    assert("KiB"@[0] == 'K' && "MiB"@[0] == 'M' && "GiB"@[0] == 'G');
    let ws = text::words(value);
    let unit = if ws.len() > 1 {
        drm::unit_bytes(ws[1])
    } else {
        1
    };
    assert(unit == 1 ==> n * unit == n) by (nonlinear_arith);
    assert(unit == 0x400 ==> n * unit == n * 1024) by (nonlinear_arith);
    assert(unit == 0x10_0000 ==> n * unit == n * 1024 * 1024) by (nonlinear_arith);
    assert(unit == 0x4000_0000 ==> n * unit == n * 1024 * 1024 * 1024) by (nonlinear_arith);
}

/// Whether the field `f` gives the video memory in use, resident or not.
pub open spec fn gives_total(f: Field) -> bool {
    (f.0 == "drm-memory-vram"@ || f.0 == "drm-total-vram"@) && drm::size(f.1) is Some
}

proof fn lemma_first_total(fs: Seq<Field>, i: int)
    ensures
        (forall|j: int| 0 <= j < fs.len() ==> !gives_total(#[trigger] fs[j])) ==> drm::first_total(
            fs,
        ) is None,
        0 <= i < fs.len() && gives_total(fs[i]) && (forall|j: int|
            0 <= j < i ==> !gives_total(#[trigger] fs[j])) ==> drm::first_total(fs) == drm::size(
            fs[i].1,
        ),
    decreases fs.len(),
{
    if fs.len() > 0 {
        let rest = fs.drop_last();
        lemma_first_total(rest, i);
        assert(forall|j: int| 0 <= j < rest.len() ==> #[trigger] rest[j] == fs[j]);
        if forall|j: int| 0 <= j < fs.len() ==> !gives_total(#[trigger] fs[j]) {
            assert(!gives_total(fs[fs.len() - 1]));
        }
        if i == fs.len() - 1 && (forall|j: int| 0 <= j < i ==> !gives_total(#[trigger] fs[j])) {
            assert(drm::first_total(rest) is None);
        }
    }
}

/// The memory of a client is what the last field on resident memory says; where there is
/// none, or it says no size, what the first says that gives the memory in all; and none
/// where none does.
pub proof fn resident_memory_goes_first(contents: Seq<char>, r: int, t: int)
    requires
        drm::drm_client(contents) is Some,
    ensures
        ({
            let fs = drm::fields(text::lines(contents));
            let vram = drm::drm_client(contents)->0.vram;
            let silent = is_unsaid(fs, "drm-resident-vram"@) || is_last(fs, "drm-resident-vram"@, r)
                && drm::size(fs[r].1) is None;
            &&& is_last(fs, "drm-resident-vram"@, r) && drm::size(fs[r].1) is Some ==> Some(vram)
                == drm::size(fs[r].1)
            &&& silent && 0 <= t < fs.len() && gives_total(fs[t]) && (forall|j: int|
                0 <= j < t ==> !gives_total(#[trigger] fs[j])) ==> Some(vram) == drm::size(fs[t].1)
            &&& silent && (forall|j: int| 0 <= j < fs.len() ==> !gives_total(#[trigger] fs[j]))
                ==> vram == 0
        }),
{
    let fs = drm::fields(text::lines(contents));
    lemma_last_value(fs, "drm-resident-vram"@);
    lemma_first_total(fs, t);
}

/// Whether the field `f` gives the time of the engine `engine`.
pub open spec fn gives_time(f: Field, engine: Seq<char>) -> bool {
    &&& f.0 == "drm-engine-"@ + engine
    &&& text::words(f.1).len() > 0
    &&& text::number(text::words(f.1)[0], 0xffff_ffff_ffff_ffff) is Some
}

proof fn lemma_engines(fs: Seq<Field>, engine: Seq<char>)
    ensures
        ({
            let es = drm::engines(fs);
            &&& text::starts_with(engine, "capacity-"@) ==> !es.contains_key(engine)
            &&& (forall|j: int| 0 <= j < fs.len() ==> !gives_time(#[trigger] fs[j], engine))
                ==> !es.contains_key(engine)
            &&& !text::starts_with(engine, "capacity-"@) ==> forall|i: int|
                0 <= i < fs.len() && gives_time(#[trigger] fs[i], engine) && (forall|j: int|
                    i < j < fs.len() ==> !gives_time(#[trigger] fs[j], engine)) ==> {
                    &&& es.contains_key(engine)
                    &&& es[engine] == text::number(
                        text::words(fs[i].1)[0],
                        0xffff_ffff_ffff_ffff,
                    )->0
                }
        }),
    decreases fs.len(),
{
    if fs.len() > 0 {
        let rest = fs.drop_last();
        let f = fs.last();
        lemma_engines(rest, engine);
        assert(forall|j: int| 0 <= j < rest.len() ==> #[trigger] rest[j] == fs[j]);
        assert(fs[fs.len() - 1] == f);
        reading::ends_are_taken_off(f.0, "drm-engine-"@, engine);
        let es = drm::engines(fs);
        if !text::starts_with(engine, "capacity-"@) {
            assert forall|i: int|
                0 <= i < fs.len() && gives_time(#[trigger] fs[i], engine) && (forall|j: int|
                    i < j < fs.len() ==> !gives_time(#[trigger] fs[j], engine)) implies {
                &&& es.contains_key(engine)
                &&& es[engine] == text::number(text::words(fs[i].1)[0], 0xffff_ffff_ffff_ffff)->0
            } by {
                if i < rest.len() {
                    assert(gives_time(rest[i], engine));
                    assert forall|j: int| i < j < rest.len() implies !gives_time(
                        #[trigger] rest[j],
                        engine,
                    ) by {
                        assert(rest[j] == fs[j]);
                    }
                    assert(!gives_time(fs[fs.len() - 1], engine));
                    assert(es.contains_key(engine) && es[engine] == drm::engines(rest)[engine]);
                }
            }
        }
    }
}

/// The time of an engine is the number that the last field gives that gives it as one; an
/// engine that no field gives so has none, and a capacity is no engine.
pub proof fn engines_have_the_time_said_last(contents: Seq<char>, engine: Seq<char>, i: int)
    requires
        drm::drm_client(contents) is Some,
    ensures
        ({
            let fs = drm::fields(text::lines(contents));
            let engines = drm::drm_client(contents)->0.engines;
            &&& text::starts_with(engine, "capacity-"@) ==> !engines.contains_key(engine)
            &&& (forall|j: int| 0 <= j < fs.len() ==> !gives_time(#[trigger] fs[j], engine))
                ==> !engines.contains_key(engine)
            &&& !text::starts_with(engine, "capacity-"@) && 0 <= i < fs.len() && gives_time(
                fs[i],
                engine,
            ) && (forall|j: int| i < j < fs.len() ==> !gives_time(#[trigger] fs[j], engine)) ==> {
                &&& engines.contains_key(engine)
                &&& engines[engine] == text::number(
                    text::words(fs[i].1)[0],
                    0xffff_ffff_ffff_ffff,
                )->0
            }
        }),
{
    lemma_engines(drm::fields(text::lines(contents)), engine);
}

/// The name in a status line stands between its first opening and its last closing
/// parenthesis, whatever it holds.
pub proof fn names_stand_between_parentheses(before: Seq<char>, comm: Seq<char>, after: Seq<char>)
    requires
        names::lacks(before, '('),
        names::lacks(after, ')'),
    ensures
        names::comm_of(before.push('(') + comm.push(')') + after) == Some(comm),
        text::find(before.push('(') + comm.push(')') + after, '(') == before.len(),
        text::find_last(before.push('(') + comm.push(')') + after, ')') == before.len() + 1
            + comm.len(),
{
    let line = before.push('(') + comm.push(')') + after;
    assert(line == before.push('(') + (comm.push(')') + after));
    reading::first_separator_is_found(before, '(', comm.push(')') + after);
    assert(line == (before.push('(') + comm).push(')') + after);
    reading::last_separator_is_found(before.push('(') + comm, ')', after);
    assert(line.subrange(before.len() as int + 1, before.len() + 1 + comm.len() as int) == comm);
}

/// A status line says the name, and among the fields behind it that the process is a
/// zombie, of which nothing is told, or its user time, its system time and its resident
/// pages, as the twelfth, the thirteenth and the twenty-second of them. With fewer nothing
/// is told.
pub proof fn status_lines_have_their_fields(
    before: Seq<char>,
    comm: Seq<char>,
    part: char,
    after: Seq<char>,
)
    requires
        names::lacks(before, '('),
        names::lacks(after, ')'),
        part != ')',
    ensures
        ({
            let line = before.push('(') + comm.push(')') + (seq![part] + after);
            let fields = text::words(after);
            let told = stat::parsed_stat(line);
            &&& told is None <==> fields.len() < 22 || fields[0] == "Z"@
            &&& told matches Some(s) ==> {
                &&& s.comm == comm
                &&& s.utime == number_or_zero(fields[11])
                &&& s.stime == number_or_zero(fields[12])
                &&& s.pages == number_or_zero(fields[21])
            }
        }),
{
    let rest = seq![part] + after;
    assert(names::lacks(rest, ')'));
    names_stand_between_parentheses(before, comm, rest);
    let line = before.push('(') + comm.push(')') + rest;
    assert(line.skip(before.len() + comm.len() as int + 3) == after);
}

/// A status line without both parentheses says nothing.
pub proof fn status_lines_need_parentheses(line: Seq<char>)
    requires
        names::lacks(line, '(') || names::lacks(line, ')'),
    ensures
        stat::parsed_stat(line) is None,
        names::comm_of(line) is None,
{
    text::lemma_span_holds(line, text::other_than('('));
    if names::lacks(line, '(') {
        reading::first_separator_is_found(line, '(', seq![]);
        reading::last_separator_is_in(line, ')');
    } else {
        reading::last_separator_is_found(seq![], ')', line);
    }
}

/// Where the lines `ls` first begin with `prefix`, or how many there are.
pub open spec fn is_first_line(ls: Seq<Seq<char>>, prefix: Seq<char>, k: int) -> bool {
    &&& 0 <= k <= ls.len()
    &&& k < ls.len() ==> text::starts_with(ls[k], prefix)
    &&& forall|j: int| 0 <= j < k ==> !text::starts_with(#[trigger] ls[j], prefix)
}

proof fn lemma_last_counter(ls: Seq<Seq<char>>, prefix: Seq<char>, r: int)
    ensures
        (forall|j: int| 0 <= j < ls.len() ==> !text::starts_with(#[trigger] ls[j], prefix))
            ==> stat::last_counter(ls, prefix) == 0,
        0 <= r < ls.len() && text::starts_with(ls[r], prefix) && (forall|j: int|
            r < j < ls.len() ==> !text::starts_with(#[trigger] ls[j], prefix))
            ==> stat::last_counter(ls, prefix) == number_or_zero(
            text::trim(ls[r].skip(prefix.len() as int)),
        ),
    decreases ls.len(),
{
    if ls.len() > 0 {
        let rest = ls.drop_last();
        lemma_last_counter(rest, prefix, r);
        assert(forall|j: int| 0 <= j < rest.len() ==> #[trigger] rest[j] == ls[j]);
        assert(ls[ls.len() - 1] == ls.last());
    }
}

/// The bytes read are what the last line on them says before the first line on the bytes
/// written, and those written what that line says; a line that is missing, or that says no
/// number, counts as zero.
pub proof fn storage_lines_are_read(io: Seq<char>, r: int, w: int)
    requires
        is_first_line(text::lines(io), "write_bytes:"@, w),
    ensures
        ({
            let ls = text::lines(io);
            let told = stat::parsed_io(io);
            &&& w < ls.len() ==> told.write == number_or_zero(text::trim(ls[w].skip(12)))
            &&& w == ls.len() ==> told.write == 0
            &&& 0 <= r < w && text::starts_with(ls[r], "read_bytes:"@) && (forall|j: int|
                r < j < w ==> !text::starts_with(#[trigger] ls[j], "read_bytes:"@)) ==> told.read
                == number_or_zero(text::trim(ls[r].skip(11)))
            &&& (forall|j: int| 0 <= j < w ==> !text::starts_with(#[trigger] ls[j], "read_bytes:"@))
                ==> told.read == 0
        }),
{
    let ls = text::lines(io);
    reveal_strlit("write_bytes:");
    reveal_strlit("read_bytes:");
    let p = stat::begins_otherwise("write_bytes:"@);
    assert forall|j: int| 0 <= j < w implies p(#[trigger] ls[j]) by {}
    text::lemma_span(ls, p, w);
    let head = ls.take(w);
    assert(forall|j: int| 0 <= j < w ==> #[trigger] head[j] == ls[j]);
    lemma_last_counter(head, "read_bytes:"@, r);
}

/// An entry whose name is a number is the process with that number, of which at most 16384
/// are looked at; no other entry is a process.
pub proof fn numbered_entries_are_processes(name: Seq<char>, pid: u32, scanned: int)
    ensures
        scanned < 16384 ==> stat::scan_step(text::decimal(pid as nat), scanned) == ScanStep::Take(
            pid,
        ),
        scanned >= 16384 ==> stat::scan_step(text::decimal(pid as nat), scanned) == ScanStep::Stop,
        text::number(name, 0xffff_ffff) is None ==> stat::scan_step(name, scanned)
            == ScanStep::Skip,
{
    reading::written_numbers_are_read_back(pid as nat, u32::MAX as int);
}

/// The program of a command line is its first argument, without the directories.
pub proof fn programs_are_called_without_directories(
    dir: Seq<char>,
    base: Seq<char>,
    rest: Seq<char>,
)
    requires
        names::lacks(dir, '\0'),
        names::lacks(base, '\0'),
        names::lacks(base, '/'),
    ensures
        names::program_name(base) == base,
        names::program_name(base.push('\0') + rest) == base,
        names::program_name(dir.push('/') + base) == base,
        names::program_name((dir.push('/') + base).push('\0') + rest) == base,
{
    let path = dir.push('/') + base;
    assert(names::lacks(path, '\0'));
    reading::first_separator_is_found(base, '\0', rest);
    reading::first_separator_is_found(path, '\0', rest);
    assert(base.take(base.len() as int) == base);
    assert(path.take(path.len() as int) == path);
    assert((base.push('\0') + rest).take(base.len() as int) == base);
    assert((path.push('\0') + rest).take(path.len() as int) == path);
    reading::last_separator_is_found(dir, '/', base);
}

/// A process is called by the name that the kernel has of it, unless that has fifteen bytes
/// or more and may be cut, and its program has a name that begins with the same eight bytes
/// or is longer: then by that. Of either not more than 256 characters are kept.
pub proof fn cut_names_are_completed(comm: Seq<char>, cmdline: Option<Seq<char>>)
    ensures
        ({
            let shown = names::display(comm, cmdline);
            let bytes = text::utf8(comm);
            let base = names::program_name(cmdline->0);
            let other = text::utf8(base);
            let fits = other.len() > bytes.len() || other.len() >= 8 && other.take(8) == bytes.take(
                8,
            );
            &&& bytes.len() < 15 ==> shown == comm
            &&& bytes.len() >= 15 && (cmdline is None || base.len() == 0 || !fits) ==> {
                &&& comm.len() <= 256 ==> shown == comm
                &&& comm.len() > 256 ==> shown == comm.take(256)
            }
            &&& bytes.len() >= 15 && cmdline is Some && base.len() > 0 && fits ==> {
                &&& base.len() <= 256 ==> shown == base
                &&& base.len() > 256 ==> shown == base.take(256)
            }
        }),
{
}

/// A process whose status line is missing or names nothing is called by its number, and any
/// other as its name and its command line say.
pub proof fn nameless_processes_are_numbered(
    pid: u32,
    stat: Option<Seq<char>>,
    cmdline: Option<Seq<char>>,
)
    ensures
        stat is None || names::comm_of(stat->0) is None ==> names::named_process(pid, stat, cmdline)
            == "pid "@ + text::decimal(pid as nat),
        stat matches Some(line) ==> (names::comm_of(line) matches Some(comm)
            ==> names::named_process(pid, stat, cmdline) == names::display(comm, cmdline)),
{
}

/// A status line can be read when its last closing parenthesis stands behind its first
/// opening one and one character of ASCII follows it; and when it lacks one of them.
pub proof fn status_lines_can_be_read(before: Seq<char>, comm: Seq<char>, after: Seq<char>)
    requires
        names::lacks(before, '('),
        names::lacks(after, ')'),
    ensures
        stat::stat_splits(before.push('(') + comm.push(')') + after) <==> after.len() > 0
            && after[0] < '\u{80}',
        stat::stat_splits(after),
        stat::stat_splits(before),
{
    names_stand_between_parentheses(before, comm, after);
    let line = before.push('(') + comm.push(')') + after;
    let close = before.len() + 1 + comm.len() as int;
    if after.len() > 0 {
        assert(line[close + 1] == after[0]);
    }
    reading::last_separator_is_found(seq![], ')', after);
    reading::first_separator_is_found(before, '(', seq![]);
}

/// A status line whose closing parentheses all stand before its first opening one cannot be
/// read.
pub proof fn turned_parentheses_cannot_be_read(before: Seq<char>, after: Seq<char>)
    requires
        names::lacks(before, '('),
        names::lacks(after, ')'),
        !names::lacks(before, ')'),
    ensures
        !stat::stat_splits(before.push('(') + after),
{
    let line = before.push('(') + after;
    reading::first_separator_is_found(before, '(', after);
    let k = choose|k: int| 0 <= k < before.len() && #[trigger] before[k] == ')';
    assert(line[k] == ')');
    reading::last_separator_is_in(line, ')');
    let n = text::find_last(line, ')');
    assert(n < before.len()) by {
        if n >= 0 && n >= before.len() {
            assert(line[n] == ')');
        }
    }
    lemma_is_found(line, ')', k);
}

proof fn lemma_is_found(s: Seq<char>, c: char, k: int)
    requires
        0 <= k < s.len(),
        s[k] == c,
    ensures
        text::find_last(s, c) >= k,
    decreases s.len(),
{
    let n = text::find(s, c) as int;
    text::lemma_span_holds(s, text::other_than(c));
    assert(n <= k) by {
        if n > k {
            assert(text::other_than(c)(s[k]));
        }
    }
    let rest = s.skip(n + 1);
    if n < k {
        assert(rest[k - n - 1] == c);
        lemma_is_found(rest, c, k - n - 1);
    } else {
        reading::last_separator_is_in(rest, c);
    }
}

/// A name can be shown unless it is one that may be cut, a program is there to compare it
/// with, and its first eight bytes do not end with a character.
pub proof fn names_can_be_shown(comm: Seq<char>, cmdline: Option<Seq<char>>)
    ensures
        names::comm_splits(comm, cmdline) <==> ({
            ||| text::utf8(comm).len() < 15
            ||| cmdline is None
            ||| names::program_name(cmdline->0).len() == 0
            ||| vstd::utf8::is_char_boundary(text::utf8(comm), 8)
        }),
{
}

/// A file of a process is read whole up to 64 kibibytes, and every limit has its number.
pub proof fn files_have_a_limit()
    ensures
        stat::PROC_FILE_LIMIT == 64 * 1024,
        stat::PROCESS_SCAN_LIMIT == 16 * 1024,
        names::COMM_LIMIT == 15,
        text::EXTERNAL_TEXT_LIMIT == 256,
{
}

} // verus!
