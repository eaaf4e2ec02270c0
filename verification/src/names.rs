//! Readable names for processes and for sockets.

use crate::text;
use crate::text::{
    after_prefix, append, bounded_text, chars_of, decimal_of, find_char, find_last_char, joined,
    replaced, split, string_of, tail_after, without_ends, EXTERNAL_TEXT_LIMIT,
};
use vstd::prelude::*;
use vstd::slice::slice_subrange;

verus! {

/// The length in bytes at which the kernel may have cut a process's `comm`.
pub const COMM_LIMIT: usize = 15;

/// How many bytes of a cut `comm` the executable's name has to begin with.
pub const COMM_MATCH: usize = 8;

/// The file name of the program that a command line runs: its first argument
/// without the directories.
pub open spec fn program_name(cmdline: Seq<char>) -> Seq<char> {
    text::after_last(cmdline.take(text::find(cmdline, '\0') as int), '/')
}

/// Whether the program name `base` stands for the cut name `comm`: it begins
/// with the same bytes, or is longer.
pub open spec fn stands_for(base: Seq<char>, comm: Seq<char>) -> bool {
    let b = text::utf8(base);
    let c = text::utf8(comm);
    ||| b.len() >= COMM_MATCH && b.take(COMM_MATCH as int) == c.take(COMM_MATCH as int)
    ||| b.len() > c.len()
}

/// Whether the name of the process with this `comm` and command line depends on
/// the first bytes of `comm`.
pub open spec fn compares_comm(comm: Seq<char>, cmdline: Option<Seq<char>>) -> bool {
    &&& text::utf8(comm).len() >= COMM_LIMIT
    &&& cmdline is Some
    &&& program_name(cmdline->0).len() > 0
}

/// Whether those bytes can be told apart from the rest of `comm`: no character
/// is cut in two.
pub open spec fn comm_splits(comm: Seq<char>, cmdline: Option<Seq<char>>) -> bool {
    compares_comm(comm, cmdline) ==> vstd::utf8::is_char_boundary(
        text::utf8(comm),
        COMM_MATCH as int,
    )
}

/// A readable name for a process: its `comm`, or the name of its program where
/// `comm` looks cut.
pub open spec fn display(comm: Seq<char>, cmdline: Option<Seq<char>>) -> Seq<char> {
    if text::utf8(comm).len() < COMM_LIMIT {
        comm
    } else if compares_comm(comm, cmdline) && stands_for(program_name(cmdline->0), comm) {
        text::bounded(program_name(cmdline->0), EXTERNAL_TEXT_LIMIT as int)
    } else {
        text::bounded(comm, EXTERNAL_TEXT_LIMIT as int)
    }
}

/// The `comm` in a line of `/proc/<pid>/stat`: what stands between the first
/// opening and the last closing parenthesis.
pub open spec fn comm_of(stat: Seq<char>) -> Option<Seq<char>> {
    let open = text::find(stat, '(') as int;
    let close = text::find_last(stat, ')');
    if open < close {
        Some(stat.subrange(open + 1, close))
    } else {
        None
    }
}

/// The name of the process `pid`, from what its files hold.
pub open spec fn named_process(
    pid: u32,
    stat: Option<Seq<char>>,
    cmdline: Option<Seq<char>>,
) -> Seq<char> {
    if stat is Some && comm_of(stat->0) is Some {
        display(comm_of(stat->0)->0, cmdline)
    } else {
        "pid "@ + text::decimal(pid as nat)
    }
}

/// `unit` without the endings that say what kind of unit it is.
pub open spec fn unit_stem(unit: Seq<char>) -> Seq<char> {
    let a = text::strip_all(unit, ".scope"@);
    let b = text::strip_all(a, ".service"@);
    let c = text::strip_all(b, ".mount"@);
    text::strip_all(c, ".slice"@)
}

/// A unit's stem as a label.
pub open spec fn plain_label(stem: Seq<char>) -> Seq<char> {
    if stem.len() == 0 {
        "other"@
    } else {
        text::bounded(stem, EXTERNAL_TEXT_LIMIT as int)
    }
}

/// The label of a cgroup: `app-<launcher>-<name>-<id>.scope` is called `name`,
/// `<name>.service` is called `name`.
pub open spec fn label(cgroup: Seq<char>) -> Seq<char> {
    let unit = text::replace(text::after_last(cgroup, '/'), "\\x2d"@, seq!['-']);
    let stem = unit_stem(unit);
    if unit.len() == 0 {
        "other"@
    } else {
        match text::strip_prefix(stem, "app-"@) {
            Some(rest) => {
                let parts = text::split_on(rest, '-');
                if parts.len() >= 3 {
                    text::bounded(
                        text::join(parts.subrange(1, parts.len() - 1), '-'),
                        EXTERNAL_TEXT_LIMIT as int,
                    )
                } else if parts.len() == 2 {
                    text::bounded(parts[1], EXTERNAL_TEXT_LIMIT as int)
                } else {
                    plain_label(stem)
                }
            },
            None => plain_label(stem),
        }
    }
}

/// Whether the program name `base` stands for the cut name `comm`.
fn base_stands_for(base: &str, comm: &str) -> (r: bool)
    requires
        text::utf8(comm@).len() >= COMM_LIMIT,
    ensures
        r == stands_for(base@, comm@),
{
    let b: &[u8] = base.as_bytes();
    let c: &[u8] = comm.as_bytes();
    if b.len() > c.len() {
        return true;
    }
    if b.len() < COMM_MATCH {
        return false;
    }
    let mut i: usize = 0;
    while i < COMM_MATCH
        invariant
            i <= COMM_MATCH <= b@.len() <= c@.len(),
            b@ == text::utf8(base@),
            c@ == text::utf8(comm@),
            b@.take(i as int) == c@.take(i as int),
        decreases COMM_MATCH - i,
    {
        if b[i] != c[i] {
            assert(b@.take(COMM_MATCH as int)[i as int] != c@.take(COMM_MATCH as int)[i as int]);
            return false;
        }
        i = i + 1;
        assert(b@.take(i as int) == b@.take(i - 1).push(b@[i - 1]));
        assert(c@.take(i as int) == c@.take(i - 1).push(c@[i - 1]));
    }
    true
}

/// A readable name for a process: the kernel's 15-character comm, or the
/// executable's basename when comm looks truncated. `cmdline` is what
/// `/proc/<pid>/cmdline` holds, where it can be read.
pub fn display_name(comm: &str, cmdline: Option<&str>) -> (r: String)
    requires
        comm_splits(comm@, text::viewed(cmdline)),
    ensures
        r@ == display(comm@, text::viewed(cmdline)),
{
    if comm.as_bytes().len() < COMM_LIMIT {
        return comm.to_owned();
    }
    let name: Vec<char> = chars_of(comm);
    if let Some(line) = cmdline {
        let chars: Vec<char> = chars_of(line);
        let end: usize = find_char(chars.as_slice(), '\0');
        let first: &[char] = slice_subrange(chars.as_slice(), 0, end);
        assert(first@ == line@.take(end as int));
        let base: &[char] = tail_after(first, '/');
        if base.len() > 0 && base_stands_for(string_of(base).as_str(), comm) {
            return bounded_text(base, EXTERNAL_TEXT_LIMIT);
        }
    }
    bounded_text(name.as_slice(), EXTERNAL_TEXT_LIMIT)
}

/// Whether [`display_name`] can be asked for the name: it would not have to cut
/// a character of `comm` in two.
pub fn can_display(comm: &str, cmdline: Option<&str>) -> (r: bool)
    ensures
        r == comm_splits(comm@, text::viewed(cmdline)),
{
    if comm.as_bytes().len() < COMM_LIMIT {
        return true;
    }
    match cmdline {
        Some(line) => {
            let chars: Vec<char> = chars_of(line);
            let end: usize = find_char(chars.as_slice(), '\0');
            let first: &[char] = slice_subrange(chars.as_slice(), 0, end);
            assert(first@ == line@.take(end as int));
            let base: &[char] = tail_after(first, '/');
            base.len() == 0 || comm.is_char_boundary(COMM_MATCH)
        },
        None => true,
    }
}

/// The `comm` in a line of `/proc/<pid>/stat`.
pub fn parse_comm(stat: &str) -> (r: Option<String>)
    ensures
        text::viewed(r) == comm_of(stat@),
{
    let chars: Vec<char> = chars_of(stat);
    let open: usize = find_char(chars.as_slice(), '(');
    match find_last_char(chars.as_slice(), ')') {
        Some(close) => {
            if open < close {
                Some(string_of(slice_subrange(chars.as_slice(), open + 1, close)))
            } else {
                None
            }
        },
        None => None,
    }
}

/// The name of a process of which only the number is known.
pub fn numbered(pid: u32) -> (r: String)
    ensures
        r@ == "pid "@ + text::decimal(pid as nat),
{
    let mut name: Vec<char> = chars_of("pid ");
    append(&mut name, decimal_of(pid).as_slice());
    string_of(name.as_slice())
}

/// `unit` without the endings that say what kind of unit it is.
fn stem_of(unit: &[char]) -> (r: &[char])
    ensures
        r@ == unit_stem(unit@),
{
    without_ends(
        without_ends(without_ends(without_ends(unit, ".scope"), ".service"), ".mount"),
        ".slice",
    )
}

/// Human label for a socket whose owner we cannot inspect, from its cgroup:
/// app-<launcher>-<name>-<id>.scope -> name, <name>.service -> name.
pub fn cgroup_label(cgroup: &str) -> (r: String)
    ensures
        r@ == label(cgroup@),
{
    let chars: Vec<char> = chars_of(cgroup);
    let unit: Vec<char> = replaced(tail_after(chars.as_slice(), '/'), "\\x2d", '-');
    if unit.len() == 0 {
        return "other".to_owned();
    }
    let stem: &[char] = stem_of(unit.as_slice());
    if let Some(rest) = after_prefix(stem, "app-") {
        let parts: Vec<Vec<char>> = split(rest, '-');
        let ghost ps = text::split_on(rest@, '-');
        assert(parts@.len() == ps.len());
        if parts.len() >= 3 {
            let inner: &[Vec<char>] = slice_subrange(parts.as_slice(), 1, parts.len() - 1);
            assert(text::texts(inner@) == ps.subrange(1, ps.len() - 1));
            return bounded_text(joined(inner, '-').as_slice(), EXTERNAL_TEXT_LIMIT);
        }
        if parts.len() == 2 {
            assert(parts@[1]@ == ps[1]);
            return bounded_text(parts[1].as_slice(), EXTERNAL_TEXT_LIMIT);
        }
    }
    if stem.len() == 0 {
        "other".to_owned()
    } else {
        bounded_text(stem, EXTERNAL_TEXT_LIMIT)
    }
}

/// Names and labels are not longer than texts from outside may be.
pub proof fn names_are_short(comm: Seq<char>, cmdline: Option<Seq<char>>, cgroup: Seq<char>)
    ensures
        display(comm, cmdline).len() <= EXTERNAL_TEXT_LIMIT,
        label(cgroup).len() <= EXTERNAL_TEXT_LIMIT,
{
    lemma_bytes_for_each(comm);
    reveal_strlit("other");
}

/// Every character takes a byte at least.
proof fn lemma_bytes_for_each(s: Seq<char>)
    ensures
        text::utf8(s).len() >= s.len(),
    decreases s.len(),
{
    if s.len() > 0 {
        lemma_bytes_for_each(s.drop_first());
    }
}

/// Whether `c` does not occur in `s`.
pub open spec fn lacks(s: Seq<char>, c: char) -> bool {
    forall|i: int| 0 <= i < s.len() ==> #[trigger] s[i] != c
}

/// A text without the first character of what is replaced stays as it is.
proof fn lemma_nothing_replaced(s: Seq<char>, from: Seq<char>, to: Seq<char>)
    requires
        from.len() > 0,
        lacks(s, from[0]),
    ensures
        text::replace(s, from, to) == s,
    decreases s.len(),
{
    if s.len() > 0 {
        assert(s.take(from.len() as int)[0] == s[0] || from.len() > s.len());
        let rest = s.skip(1);
        assert forall|i: int| 0 <= i < rest.len() implies #[trigger] rest[i] != from[0] by {
            assert(rest[i] == s[i + 1]);
        }
        lemma_nothing_replaced(rest, from, to);
        assert(seq![s[0]] + rest == s);
    }
}

/// What follows the last slash of a path is its last part.
proof fn lemma_last_part(path: Seq<char>, unit: Seq<char>)
    requires
        lacks(unit, '/'),
    ensures
        text::after_last(path + seq!['/'] + unit, '/') == unit,
    decreases path.len(),
{
    let s = path + seq!['/'] + unit;
    let p = text::other_than('/');
    let i = text::find(s, '/') as int;
    text::lemma_span_holds(s, p);
    assert(s[path.len() as int] == '/');
    assert(i <= path.len()) by {
        if i > path.len() {
            assert(p(s[path.len() as int]));
        }
    }
    if i < path.len() {
        let rest = path.skip(i + 1);
        assert(s.skip(i + 1) == rest + seq!['/'] + unit);
        lemma_last_part(rest, unit);
    } else {
        assert(s.skip(i + 1) == unit);
        text::lemma_span(unit, p, unit.len() as int);
        reveal_with_fuel(text::after_last, 2);
    }
}

/// An end that is put to a text is stripped from it.
proof fn lemma_end_stripped(s: Seq<char>, end: Seq<char>)
    requires
        end.len() > 0,
        !text::ends_with(s, end),
    ensures
        text::strip_all(s, end) == s,
        text::strip_all(s + end, end) == s,
{
    let whole = s + end;
    assert(whole.skip(whole.len() - end.len()) == end);
    assert(whole.take(whole.len() - end.len()) == s);
}

/// Whether no ending that says what kind a unit is stands at the end of `s`.
pub open spec fn is_stem(s: Seq<char>) -> bool {
    &&& !text::ends_with(s, ".scope"@)
    &&& !text::ends_with(s, ".service"@)
    &&& !text::ends_with(s, ".mount"@)
    &&& !text::ends_with(s, ".slice"@)
}

/// The unit of an application that a launcher started, without its ending.
pub open spec fn app_stem(launcher: Seq<char>, name: Seq<char>, id: Seq<char>) -> Seq<char> {
    "app-"@ + (launcher + seq!['-'] + name + seq!['-'] + id)
}

/// The cgroup `app-<launcher>-<name>-<id>.scope` is called `name`.
pub proof fn app_scopes_are_called_by_name(
    path: Seq<char>,
    launcher: Seq<char>,
    name: Seq<char>,
    id: Seq<char>,
)
    requires
        lacks(launcher, '-') && lacks(id, '-'),
        is_stem(app_stem(launcher, name, id)),
        lacks(app_stem(launcher, name, id), '/'),
        lacks(app_stem(launcher, name, id), '\\'),
    ensures
        label(path + seq!['/'] + (app_stem(launcher, name, id) + ".scope"@)) == text::bounded(
            name,
            EXTERNAL_TEXT_LIMIT as int,
        ),
{
    let stem = app_stem(launcher, name, id);
    let unit = stem + ".scope"@;
    reveal_strlit(".scope");
    reveal_strlit(".service");
    reveal_strlit(".mount");
    reveal_strlit(".slice");
    reveal_strlit("app-");
    reveal_strlit("\\x2d");
    assert(lacks(unit, '/') && lacks(unit, '\\')) by {
        assert(lacks(".scope"@, '/') && lacks(".scope"@, '\\'));
        assert(forall|i: int|
            0 <= i < unit.len() ==> #[trigger] unit[i] == (if i < stem.len() {
                stem[i]
            } else {
                ".scope"@[i - stem.len()]
            }));
    }
    lemma_last_part(path, unit);
    lemma_nothing_replaced(unit, "\\x2d"@, seq!['-']);
    lemma_end_stripped(stem, ".scope"@);
    lemma_end_stripped(stem, ".service"@);
    lemma_end_stripped(stem, ".mount"@);
    lemma_end_stripped(stem, ".slice"@);
    assert(unit_stem(unit) == stem);
    let rest = launcher + seq!['-'] + name + seq!['-'] + id;
    assert(stem.take(4) == "app-"@);
    assert(stem.skip(4) == rest);
    let parts = text::split_on(rest, '-');
    let pieces = text::split_on(name, '-');
    lemma_pieces_join(name);
    lemma_split_last(launcher + seq!['-'] + name, id);
    lemma_split_first(launcher, name);
    assert(parts == (seq![launcher] + pieces).push(id));
    assert(parts.subrange(1, parts.len() - 1) == pieces);
}

/// What follows the last dash is a piece of its own.
proof fn lemma_split_last(s: Seq<char>, last: Seq<char>)
    requires
        lacks(last, '-'),
    ensures
        text::split_on(s + seq!['-'] + last, '-') == text::split_on(s, '-').push(last),
    decreases s.len(),
{
    let all = s + seq!['-'] + last;
    let p = text::other_than('-');
    let i = text::find(s, '-') as int;
    text::lemma_span_holds(s, p);
    assert(forall|k: int| 0 <= k < s.len() ==> #[trigger] all[k] == s[k]);
    text::lemma_span(all, p, i);
    assert(all.take(i) == s.take(i));
    if i < s.len() {
        let rest = s.skip(i + 1);
        assert(all.skip(i + 1) == rest + seq!['-'] + last);
        lemma_split_last(rest, last);
        assert(text::split_on(all, '-') == text::split_on(s, '-').push(last));
    } else {
        assert(all.skip(i + 1) == last);
        assert(s.take(i) == s);
        text::lemma_span(last, p, last.len() as int);
        reveal_with_fuel(text::split_on, 2);
        assert(text::split_on(last, '-') == seq![last]);
        assert(text::split_on(all, '-') == seq![s].push(last));
    }
}

/// What stands before the first dash is a piece of its own.
proof fn lemma_split_first(first: Seq<char>, s: Seq<char>)
    requires
        lacks(first, '-'),
    ensures
        text::split_on(first + seq!['-'] + s, '-') == seq![first] + text::split_on(s, '-'),
{
    let all = first + seq!['-'] + s;
    assert(forall|k: int| 0 <= k < first.len() ==> #[trigger] all[k] == first[k]);
    text::lemma_span(all, text::other_than('-'), first.len() as int);
    assert(all.take(first.len() as int) == first);
    assert(all.skip(first.len() as int + 1) == s);
}

/// One more piece before the others is joined by one more dash.
proof fn lemma_join_first(a: Seq<char>, ps: Seq<Seq<char>>)
    requires
        ps.len() > 0,
    ensures
        text::join(seq![a] + ps, '-') == a + seq!['-'] + text::join(ps, '-'),
    decreases ps.len(),
{
    let all = seq![a] + ps;
    assert(all.drop_last() == seq![a] + ps.drop_last());
    if ps.len() > 1 {
        lemma_join_first(a, ps.drop_last());
    } else {
        assert(all.drop_last() == seq![a]);
        reveal_with_fuel(text::join, 2);
    }
    assert(text::join(all, '-') == a + seq!['-'] + text::join(ps, '-'));
}

/// The pieces of a text make the text again.
proof fn lemma_pieces_join(s: Seq<char>)
    ensures
        text::split_on(s, '-').len() > 0,
        text::join(text::split_on(s, '-'), '-') == s,
    decreases s.len(),
{
    let i = text::find(s, '-') as int;
    text::lemma_span_holds(s, text::other_than('-'));
    if i < s.len() {
        let rest = s.skip(i + 1);
        let pieces = text::split_on(s, '-');
        lemma_pieces_join(rest);
        assert(pieces == seq![s.take(i)] + text::split_on(rest, '-'));
        lemma_join_first(s.take(i), text::split_on(rest, '-'));
        assert(s.take(i) + seq!['-'] + rest == s);
    }
}

/// The cgroup `<name>.service` is called `name`, unless that looks like an application's.
pub proof fn services_are_called_by_name(path: Seq<char>, name: Seq<char>)
    requires
        name.len() > 0,
        is_stem(name),
        !text::starts_with(name, "app-"@),
        lacks(name, '/') && lacks(name, '\\'),
    ensures
        label(path + seq!['/'] + (name + ".service"@)) == text::bounded(
            name,
            EXTERNAL_TEXT_LIMIT as int,
        ),
{
    let unit = name + ".service"@;
    reveal_strlit(".scope");
    reveal_strlit(".service");
    reveal_strlit(".mount");
    reveal_strlit(".slice");
    reveal_strlit("\\x2d");
    assert(lacks(unit, '/') && lacks(unit, '\\')) by {
        assert(lacks(".service"@, '/') && lacks(".service"@, '\\'));
        assert(forall|i: int|
            0 <= i < unit.len() ==> #[trigger] unit[i] == (if i < name.len() {
                name[i]
            } else {
                ".service"@[i - name.len()]
            }));
    }
    lemma_last_part(path, unit);
    lemma_nothing_replaced(unit, "\\x2d"@, seq!['-']);
    assert(!text::ends_with(unit, ".scope"@)) by {
        if text::ends_with(unit, ".scope"@) {
            assert(unit.skip(unit.len() - 6)[0] == '.');
            assert(unit[unit.len() - 6] == ".service"@[2]);
        }
    }
    lemma_end_stripped(unit, ".scope"@);
    lemma_end_stripped(name, ".service"@);
    lemma_end_stripped(name, ".mount"@);
    lemma_end_stripped(name, ".slice"@);
    assert(unit_stem(unit) == name);
}

} // verus!
