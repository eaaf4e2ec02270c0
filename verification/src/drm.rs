//! What the kernel tells of a process's use of a GPU, in `/proc/<pid>/fdinfo/<fd>`.

use crate::table::TextMap;
use crate::text;
use crate::text::{
    after_prefix, begins, bounded_text, chars_of, find_char, is_text, parse_u64, same_str,
    split_lines, split_words, string_of, trimmed, EXTERNAL_TEXT_LIMIT,
};
use vstd::prelude::*;
use vstd::slice::slice_subrange;

verus! {

/// One DRM client as the kernel describes it in `/proc/<pid>/fdinfo/<fd>`.
#[derive(Debug)]
pub struct DrmClient {
    pub pdev: String,
    pub client: String,
    /// Nanoseconds each engine (gfx, compute, dec, enc...) has spent on this client.
    pub engines: TextMap<u64>,
    pub vram: u64,
}

/// The model of a [`DrmClient`].
#[verifier::ext_equal]
pub struct DrmClientView {
    pub pdev: Seq<char>,
    pub client: Seq<char>,
    pub engines: Map<Seq<char>, u64>,
    pub vram: u64,
}

impl View for DrmClient {
    type V = DrmClientView;

    open spec fn view(&self) -> DrmClientView {
        DrmClientView {
            pdev: self.pdev@,
            client: self.client@,
            engines: self.engines@,
            vram: self.vram,
        }
    }
}

/// Two clients are equal when all that is known of them is.
impl PartialEq for DrmClient {
    fn eq(&self, other: &Self) -> (r: bool) {
        same_str(self.pdev.as_str(), other.pdev.as_str()) && same_str(
            self.client.as_str(),
            other.client.as_str(),
        ) && self.engines == other.engines && self.vram == other.vram
    }
}

impl vstd::std_specs::cmp::PartialEqSpecImpl for DrmClient {
    open spec fn obeys_eq_spec() -> bool {
        true
    }

    open spec fn eq_spec(&self, other: &Self) -> bool {
        self@ == other@
    }
}

/// A key and its value.
pub type Field = (Seq<char>, Seq<char>);

/// The key and the value of a line: what stands before and after its first colon.
pub open spec fn field(line: Seq<char>) -> Option<Field> {
    let i = text::find(line, ':') as int;
    if i < line.len() {
        Some((text::trim(line.take(i)), text::trim(line.skip(i + 1))))
    } else {
        None
    }
}

/// The fields that the lines `ls` hold, in their order.
pub open spec fn fields(ls: Seq<Seq<char>>) -> Seq<Field>
    decreases ls.len(),
{
    if ls.len() == 0 {
        seq![]
    } else {
        match field(ls.last()) {
            Some(f) => fields(ls.drop_last()).push(f),
            None => fields(ls.drop_last()),
        }
    }
}

/// The value of the last field with the key `key`.
pub open spec fn last_value(fs: Seq<Field>, key: Seq<char>) -> Option<Seq<char>>
    decreases fs.len(),
{
    if fs.len() == 0 {
        None
    } else if fs.last().0 == key {
        Some(fs.last().1)
    } else {
        last_value(fs.drop_last(), key)
    }
}

/// The number of bytes in a unit of size.
pub open spec fn unit_bytes(unit: Seq<char>) -> nat {
    if unit == "KiB"@ {
        0x400
    } else if unit == "MiB"@ {
        0x10_0000
    } else if unit == "GiB"@ {
        0x4000_0000
    } else {
        1
    }
}

/// The size in bytes that a value such as `12 KiB` writes, or the largest
/// 64-bit number where it is more than that.
pub open spec fn size(value: Seq<char>) -> Option<u64> {
    let ws = text::words(value);
    if ws.len() == 0 {
        None
    } else {
        match text::number(ws[0], u64::MAX as int) {
            None => None,
            Some(n) => {
                let bytes = n * (if ws.len() > 1 {
                    unit_bytes(ws[1])
                } else {
                    1
                });
                Some(
                    if bytes <= u64::MAX {
                        bytes as u64
                    } else {
                        u64::MAX
                    },
                )
            },
        }
    }
}

/// Whether `key` gives the video memory in use, whether or not resident.
pub open spec fn is_total_key(key: Seq<char>) -> bool {
    key == "drm-memory-vram"@ || key == "drm-total-vram"@
}

/// The first size that a field with such a key writes.
pub open spec fn first_total(fs: Seq<Field>) -> Option<u64>
    decreases fs.len(),
{
    if fs.len() == 0 {
        None
    } else if first_total(fs.drop_last()) is Some {
        first_total(fs.drop_last())
    } else if is_total_key(fs.last().0) {
        size(fs.last().1)
    } else {
        None
    }
}

/// The size that the last field with the key `drm-resident-vram` writes.
pub open spec fn resident(fs: Seq<Field>) -> Option<u64> {
    match last_value(fs, "drm-resident-vram"@) {
        Some(value) => size(value),
        None => None,
    }
}

/// The engine whose time a field with the key `key` gives.
pub open spec fn engine_of(key: Seq<char>) -> Option<Seq<char>> {
    match text::strip_prefix(key, "drm-engine-"@) {
        Some(engine) => if text::starts_with(engine, "capacity-"@) {
            None
        } else {
            Some(engine)
        },
        None => None,
    }
}

/// The number that the first word of `value` writes.
pub open spec fn leading_number(value: Seq<char>) -> Option<nat> {
    let ws = text::words(value);
    if ws.len() == 0 {
        None
    } else {
        text::number(ws[0], u64::MAX as int)
    }
}

/// The time of each engine, by the last field that gives it as a number.
pub open spec fn engines(fs: Seq<Field>) -> Map<Seq<char>, u64>
    decreases fs.len(),
{
    if fs.len() == 0 {
        Map::empty()
    } else {
        let before = engines(fs.drop_last());
        match (engine_of(fs.last().0), leading_number(fs.last().1)) {
            (Some(engine), Some(ns)) => before.insert(engine, ns as u64),
            _ => before,
        }
    }
}

/// The text of the last field with the key `key`, cut to the usual limit.
pub open spec fn named(fs: Seq<Field>, key: Seq<char>) -> Seq<char> {
    match last_value(fs, key) {
        Some(value) => text::bounded(value, EXTERNAL_TEXT_LIMIT as int),
        None => seq![],
    }
}

/// The client that `text` describes: one with a device and an identifier.
pub open spec fn drm_client(text: Seq<char>) -> Option<DrmClientView> {
    let fs = fields(text::lines(text));
    let client = DrmClientView {
        pdev: named(fs, "drm-pdev"@),
        client: named(fs, "drm-client-id"@),
        engines: engines(fs),
        vram: match (resident(fs), first_total(fs)) {
            (Some(bytes), _) => bytes,
            (None, Some(bytes)) => bytes,
            (None, None) => 0,
        },
    };
    if client.pdev.len() > 0 && client.client.len() > 0 {
        Some(client)
    } else {
        None
    }
}

/// The keys differ from each other, and only the engines' keys begin with `drm-engine-`.
proof fn lemma_keys()
    ensures
        "drm-pdev"@.len() == 8,
        "drm-client-id"@.len() == 13,
        "drm-resident-vram"@.len() == 17,
        "drm-memory-vram"@.len() == 15,
        "drm-total-vram"@.len() == 14,
        engine_of("drm-pdev"@) is None,
        engine_of("drm-client-id"@) is None,
        engine_of("drm-resident-vram"@) is None,
        engine_of("drm-memory-vram"@) is None,
        engine_of("drm-total-vram"@) is None,
{
    reveal_strlit("drm-pdev");
    reveal_strlit("drm-client-id");
    reveal_strlit("drm-resident-vram");
    reveal_strlit("drm-memory-vram");
    reveal_strlit("drm-total-vram");
    reveal_strlit("drm-engine-");
    assert("drm-client-id"@.take(11)[4] != "drm-engine-"@[4]);
    assert("drm-resident-vram"@.take(11)[4] != "drm-engine-"@[4]);
    assert("drm-memory-vram"@.take(11)[4] != "drm-engine-"@[4]);
    assert("drm-total-vram"@.take(11)[4] != "drm-engine-"@[4]);
}

/// The size in bytes that `value` writes.
fn parse_size(value: &[char]) -> (r: Option<u64>)
    ensures
        r == size(value@),
{
    let fields: Vec<Vec<char>> = split_words(value);
    let ghost ws = text::words(value@);
    assert(fields@.len() == ws.len());
    if fields.len() == 0 {
        return None;
    }
    assert(fields@[0]@ == ws[0]);
    let number: u64 = match parse_u64(fields[0].as_slice()) {
        Some(n) => n,
        None => return None,
    };
    let mut unit: u64 = 1;
    if fields.len() > 1 {
        assert(fields@[1]@ == ws[1]);
        let name: &[char] = fields[1].as_slice();
        if is_text(name, "KiB") {
            unit = 0x400;
        } else if is_text(name, "MiB") {
            unit = 0x10_0000;
        } else if is_text(name, "GiB") {
            unit = 0x4000_0000;
        }
    }
    let bytes: u128 = widening_product(number, unit);
    assert(bytes == number * unit);
    if bytes <= u64::MAX as u128 {
        Some(bytes as u64)
    } else {
        Some(u64::MAX)
    }
}

/// The product of two numbers, in twice their width.
pub fn widening_product(a: u64, b: u64) -> (r: u128)
    ensures
        r == a * b,
{
    assert(0 <= a * b <= u64::MAX * u64::MAX) by (nonlinear_arith)
        requires
            0 <= a <= u64::MAX,
            0 <= b <= u64::MAX,
    ;
    a as u128 * b as u128
}

/// The number that the first word of `value` writes.
fn parse_leading_number(value: &[char]) -> (r: Option<u64>)
    ensures
        r == (match leading_number(value@) {
            Some(n) => Some(n as u64),
            None => None,
        }),
{
    let fields: Vec<Vec<char>> = split_words(value);
    let ghost ws = text::words(value@);
    assert(fields@.len() == ws.len());
    if fields.len() == 0 {
        return None;
    }
    assert(fields@[0]@ == ws[0]);
    parse_u64(fields[0].as_slice())
}

/// The standard `drm-*` keys, shared by amdgpu, i915 and xe.
pub fn parse_drm_fdinfo(text: &str) -> (r: Option<DrmClient>)
    ensures
        text::viewed(r) == drm_client(text@),
{
    let lines: Vec<Vec<char>> = split_lines(chars_of(text).as_slice());
    let ghost ls = text::lines(text@);
    let mut pdev: String = String::new();
    let mut client: String = String::new();
    let mut engines_seen: TextMap<u64> = TextMap::new();
    let mut resident_size: Option<u64> = None;
    let mut total_size: Option<u64> = None;
    let mut i: usize = 0;
    let ghost mut fs = fields(ls.take(0));
    while i < lines.len()
        invariant
            i <= lines@.len(),
            text::texts(lines@) == ls,
            fs == fields(ls.take(i as int)),
            pdev@ == named(fs, "drm-pdev"@),
            client@ == named(fs, "drm-client-id"@),
            engines_seen@ == engines(fs),
            resident_size == resident(fs),
            total_size == first_total(fs),
        decreases lines.len() - i,
    {
        let line: &[char] = lines[i].as_slice();
        let ghost before = fs;
        proof {
            assert(line@ == ls[i as int]);
            assert(ls.take(i + 1).drop_last() == ls.take(i as int));
            fs = fields(ls.take(i + 1));
        }
        i = i + 1;
        let colon: usize = find_char(line, ':');
        if colon == line.len() {
            continue ;
        }
        let head: &[char] = slice_subrange(line, 0, colon);
        let tail: &[char] = slice_subrange(line, colon + 1, line.len());
        assert(head@ == line@.take(colon as int));
        assert(tail@ == line@.skip(colon + 1));
        let key: &[char] = trimmed(head);
        let value: &[char] = trimmed(tail);
        proof {
            assert(fs == before.push((key@, value@)));
            assert(fs.drop_last() == before);
            lemma_keys();
        }
        if is_text(key, "drm-pdev") {
            pdev = bounded_text(value, EXTERNAL_TEXT_LIMIT);
        } else if is_text(key, "drm-client-id") {
            client = bounded_text(value, EXTERNAL_TEXT_LIMIT);
        } else if is_text(key, "drm-resident-vram") {
            resident_size = parse_size(value);
        } else if is_text(key, "drm-memory-vram") || is_text(key, "drm-total-vram") {
            if total_size.is_none() {
                total_size = parse_size(value);
            }
        } else if let Some(engine) = after_prefix(key, "drm-engine-") {
            if !begins(engine, "capacity-") {
                if let Some(ns) = parse_leading_number(value) {
                    engines_seen.insert(string_of(engine), ns);
                }
            }
        }
    }
    assert(ls.take(ls.len() as int) == ls);
    if pdev.as_str().is_empty() || client.as_str().is_empty() {
        return None;
    }
    let vram: u64 = match (resident_size, total_size) {
        (Some(bytes), _) => bytes,
        (None, Some(bytes)) => bytes,
        (None, None) => 0,
    };
    Some(DrmClient { pdev, client, engines: engines_seen, vram })
}

} // verus!
