//! The graphics cards of the machine and what can be asked of them.

use crate::text;
use crate::text::{
    after_prefix, append, bounded_text, chars_of, find_last_char, same_str, split, split_lines,
    string_of, trimmed, EXTERNAL_TEXT_LIMIT,
};
use vstd::prelude::*;
use vstd::slice::slice_subrange;

verus! {

/// What `str::to_lowercase` makes of a text.
pub uninterp spec fn lowercase_text(s: Seq<char>) -> Seq<char>;

/// The small letter of an ASCII capital; any other character as it is.
pub open spec fn ascii_lower(c: char) -> char {
    if 'A' <= c <= 'Z' {
        ((c as u32 + 32) as u32) as char
    } else {
        c
    }
}

/// `s` with small letters in place of the ASCII capitals.
pub open spec fn ascii_lowered(s: Seq<char>) -> Seq<char> {
    s.map_values(|c: char| ascii_lower(c))
}

/// `str::to_lowercase` gives the lowercase equivalent of a text by the Unicode tables,
/// which depends on the text alone. Of an ASCII text it changes the capitals, to the
/// small letters, and nothing else.
pub assume_specification[ str::to_lowercase ](s: &str) -> (lowered: String)
    ensures
        lowered@ == lowercase_text(s@),
        vstd::utf8::is_ascii_chars(s@) ==> lowered@ == ascii_lowered(s@),
;

/// Who made a card.
#[derive(Debug, Clone, Copy, PartialEq, Eq, Structural)]
pub enum Kind {
    Nvidia,
    Amd,
    Intel,
}

impl Kind {
    /// The maker, as the output names it.
    pub open spec fn vendor_text(self) -> Seq<char> {
        match self {
            Kind::Nvidia => "nvidia"@,
            Kind::Amd => "amd"@,
            Kind::Intel => "intel"@,
        }
    }

    /// What to call a card of which no name is known.
    pub open spec fn fallback_text(self) -> Seq<char> {
        match self {
            Kind::Nvidia => "NVIDIA"@,
            Kind::Amd => "AMD"@,
            Kind::Intel => "Intel"@,
        }
    }

    /// The maker, as the output names it.
    pub fn vendor(self) -> (r: &'static str)
        ensures
            r@ == self.vendor_text(),
    {
        match self {
            Kind::Nvidia => "nvidia",
            Kind::Amd => "amd",
            Kind::Intel => "intel",
        }
    }

    /// What to call a card of which no name is known.
    pub fn fallback_name(self) -> (r: &'static str)
        ensures
            r@ == self.fallback_text(),
    {
        match self {
            Kind::Nvidia => "NVIDIA",
            Kind::Amd => "AMD",
            Kind::Intel => "Intel",
        }
    }
}

/// The maker with the PCI vendor number `lowered`, written in small letters.
pub open spec fn kind_with_number(lowered: Seq<char>) -> Option<Kind> {
    if lowered == "0x1002"@ {
        Some(Kind::Amd)
    } else if lowered == "0x8086"@ {
        Some(Kind::Intel)
    } else if lowered == "0x10de"@ {
        Some(Kind::Nvidia)
    } else {
        None
    }
}

/// The maker with the PCI vendor number `lowered`, written in small letters.
pub fn kind_of_number(lowered: &str) -> (r: Option<Kind>)
    ensures
        r == kind_with_number(lowered@),
{
    if same_str(lowered, "0x1002") {
        Some(Kind::Amd)
    } else if same_str(lowered, "0x8086") {
        Some(Kind::Intel)
    } else if same_str(lowered, "0x10de") {
        Some(Kind::Nvidia)
    } else {
        None
    }
}

/// What a card's `vendor` file holds; nothing where it cannot be read.
pub open spec fn vendor_number(vendor: Option<Seq<char>>) -> Seq<char> {
    match vendor {
        Some(v) => v,
        None => seq![],
    }
}

/// The maker of a card whose `vendor` file holds `vendor`.
pub fn kind_of_vendor(vendor: Option<&str>) -> (r: Option<Kind>)
    ensures
        r == kind_with_number(lowercase_text(vendor_number(text::viewed(vendor)))),
        vstd::utf8::is_ascii_chars(vendor_number(text::viewed(vendor))) ==> r == kind_with_number(
            ascii_lowered(vendor_number(text::viewed(vendor))),
        ),
{
    let number: String = match vendor {
        Some(v) => v.to_lowercase(),
        None => {
            proof {
                reveal_strlit("");
            }
            assert(""@ == Seq::<char>::empty());
            "".to_lowercase()
        },
    };
    kind_of_number(number.as_str())
}

/// The last four bytes of `domain`, or all of them.
pub open spec fn last_four(domain: Seq<char>) -> Seq<char> {
    let bytes = text::utf8(domain);
    if bytes.len() > 4 {
        vstd::utf8::decode_utf8(bytes.subrange(bytes.len() - 4, bytes.len() as int))
    } else {
        domain
    }
}

/// `s` with zeros before it, so that it is four characters long at least.
pub open spec fn zero_padded(s: Seq<char>) -> Seq<char> {
    if s.len() < 4 {
        Seq::new((4 - s.len()) as nat, |i: int| '0') + s
    } else {
        s
    }
}

/// Whether the domain of the bus id `lowered` can be cut to four bytes: no character is
/// cut in two.
pub open spec fn bus_id_splits(lowered: Seq<char>) -> bool {
    let parts = text::split_on(lowered, ':');
    let bytes = text::utf8(parts[0]);
    parts.len() == 3 && bytes.len() > 4 ==> vstd::utf8::is_char_boundary(bytes, bytes.len() - 4)
}

/// The bus id `lowered`, written in small letters, in the form that sysfs has: a domain
/// of four digits, a bus, and a device with its function. Empty where it has not three
/// parts.
pub open spec fn bus_id(lowered: Seq<char>) -> Seq<char> {
    let parts = text::split_on(lowered, ':');
    if parts.len() == 3 {
        zero_padded(last_four(parts[0])) + seq![':'] + parts[1] + seq![':'] + parts[2]
    } else {
        seq![]
    }
}

/// Whether [`normalize_lowered`] can be asked of `lowered`.
pub fn can_normalize(lowered: &str) -> (r: bool)
    ensures
        r == bus_id_splits(lowered@),
{
    let parts: Vec<Vec<char>> = split(chars_of(lowered).as_slice(), ':');
    let ghost ps = text::split_on(lowered@, ':');
    assert(parts@.len() == ps.len());
    if parts.len() != 3 {
        return true;
    }
    assert(parts@[0]@ == ps[0]);
    let domain: String = string_of(parts[0].as_slice());
    let n: usize = domain.as_str().as_bytes().len();
    n <= 4 || domain.as_str().is_char_boundary(n - 4)
}

/// The bus id `lowered`, written in small letters, in the form that sysfs has.
pub fn normalize_lowered(lowered: &str) -> (r: String)
    requires
        bus_id_splits(lowered@),
    ensures
        r@ == bus_id(lowered@),
{
    let parts: Vec<Vec<char>> = split(chars_of(lowered).as_slice(), ':');
    let ghost ps = text::split_on(lowered@, ':');
    assert(parts@.len() == ps.len());
    if parts.len() != 3 {
        return String::new();
    }
    assert(parts@[0]@ == ps[0] && parts@[1]@ == ps[1] && parts@[2]@ == ps[2]);
    let domain: String = string_of(parts[0].as_slice());
    let n: usize = domain.as_str().as_bytes().len();
    let tail: Vec<char> = if n > 4 {
        let (_, end) = domain.as_str().split_at(n - 4);
        proof {
            vstd::utf8::encode_utf8_decode_utf8(end@);
        }
        chars_of(end)
    } else {
        chars_of(domain.as_str())
    };
    assert(tail@ == last_four(ps[0]));
    let mut out: Vec<char> = Vec::new();
    let mut width: usize = tail.len();
    while width < 4
        invariant
            tail@.len() <= width,
            tail@.len() <= 4 ==> width <= 4,
            tail@.len() > 4 ==> width == tail@.len(),
            out@ == Seq::new((width - tail@.len()) as nat, |i: int| '0'),
        decreases 4 - width,
    {
        out.push('0');
        width = width + 1;
        assert(out@ == Seq::new((width - tail@.len()) as nat, |i: int| '0'));
    }
    append(&mut out, tail.as_slice());
    assert(out@ == zero_padded(last_four(ps[0])));
    out.push(':');
    append(&mut out, parts[1].as_slice());
    out.push(':');
    append(&mut out, parts[2].as_slice());
    assert(out@ == bus_id(lowered@));
    string_of(out.as_slice())
}

/// `value` without the white space around it, in small letters.
pub open spec fn lowered_id(value: Seq<char>) -> Seq<char> {
    lowercase_text(text::trim(value))
}

/// `value` without the white space around it, in small letters.
fn lower_id(value: &str) -> (r: String)
    ensures
        r@ == lowered_id(value@),
        vstd::utf8::is_ascii_chars(text::trim(value@)) ==> r@ == ascii_lowered(text::trim(value@)),
{
    let chars: Vec<char> = chars_of(value);
    string_of(trimmed(chars.as_slice())).as_str().to_lowercase()
}

/// `00000000:01:00.0` (nvidia-smi) and `0000:01:00.0` (sysfs) compare equal.
pub fn normalize_bus_id(value: &str) -> (r: String)
    requires
        bus_id_splits(lowered_id(value@)),
    ensures
        r@ == bus_id(lowered_id(value@)),
        vstd::utf8::is_ascii_chars(text::trim(value@)) ==> r@ == bus_id(
            ascii_lowered(text::trim(value@)),
        ),
{
    normalize_lowered(lower_id(value).as_str())
}

/// The bus id `value` in the form that sysfs has, where it can be cut to it.
pub fn checked_bus_id(value: &str) -> (r: Option<String>)
    ensures
        text::viewed(r) == (if bus_id_splits(lowered_id(value@)) {
            Some(bus_id(lowered_id(value@)))
        } else {
            None
        }),
        vstd::utf8::is_ascii_chars(text::trim(value@)) ==> text::viewed(r) == Some(
            bus_id(ascii_lowered(text::trim(value@))),
        ),
{
    let lowered: String = lower_id(value);
    proof {
        if vstd::utf8::is_ascii_chars(text::trim(value@)) {
            lemma_ascii_splits(text::trim(value@));
        }
    }
    if can_normalize(lowered.as_str()) {
        Some(normalize_bus_id(value))
    } else {
        None
    }
}

/// What a device can be asked this tick: hot-unplugged cards are dropped and
/// runtime-suspended ones are reported without touching their sensors.
#[derive(Debug, Clone, Copy, PartialEq, Eq, Structural)]
pub enum State {
    Active,
    Asleep,
    Gone,
}

/// The state of a device with this power status.
pub open spec fn state_with_status(runtime_status: Option<Seq<char>>) -> State {
    if runtime_status == Some("suspended"@) {
        State::Asleep
    } else {
        State::Active
    }
}

/// The state of a device with this power status: only a suspended one is asleep.
pub fn power_state(runtime_status: Option<&str>) -> (r: State)
    ensures
        r == state_with_status(text::viewed(runtime_status)),
{
    match runtime_status {
        Some(status) => if same_str(status, "suspended") {
            State::Asleep
        } else {
            State::Active
        },
        None => State::Active,
    }
}

/// The state of a device: one without a `vendor` file is gone.
pub fn device_state(has_vendor: bool, runtime_status: Option<&str>) -> (r: State)
    ensures
        r == (if has_vendor {
            state_with_status(text::viewed(runtime_status))
        } else {
            State::Gone
        }),
{
    if has_vendor {
        power_state(runtime_status)
    } else {
        State::Gone
    }
}

/// Whether an entry of `/sys/class/drm` is a card: `card` and a number.
pub open spec fn is_card_name(name: Seq<char>) -> bool {
    match text::strip_prefix(name, "card"@) {
        Some(number) => number.len() > 0 && text::all_digits(number),
        None => false,
    }
}

/// Whether an entry of `/sys/class/drm` is a card.
pub fn is_card(name: &str) -> (r: bool)
    ensures
        r == is_card_name(name@),
{
    let chars: Vec<char> = chars_of(name);
    match after_prefix(chars.as_slice(), "card") {
        Some(number) => {
            let mut i: usize = 0;
            while i < number.len()
                invariant
                    i <= number@.len(),
                    text::strip_prefix(name@, "card"@) == Some(number@),
                    forall|k: int| 0 <= k < i ==> text::is_digit(#[trigger] number@[k]),
                decreases number.len() - i,
            {
                if !('0' <= number[i] && number[i] <= '9') {
                    assert(!text::is_digit(number@[i as int]));
                    return false;
                }
                i = i + 1;
            }
            number.len() > 0
        },
        None => false,
    }
}

/// Every line with fewer than three quoted fields.
pub open spec fn lacks_device() -> spec_fn(Seq<char>) -> bool {
    |line: Seq<char>| text::split_on(line, '"').len() < 6
}

/// What a device is sold as: what stands between the last brackets of its name, or all
/// of the name.
pub open spec fn trade_name(name: Seq<char>) -> Seq<char> {
    let open = text::find_last(name, '[');
    let close = text::find_last(name, ']');
    if 0 <= open < close {
        text::bounded(name.subrange(open + 1, close), EXTERNAL_TEXT_LIMIT as int)
    } else {
        text::bounded(name, EXTERNAL_TEXT_LIMIT as int)
    }
}

/// The name of the device that `lspci -mm` tells of: the third quoted field of the first
/// line that has one.
pub open spec fn listed_name(out: Seq<char>) -> Seq<char> {
    let ls = text::lines(out);
    let i = text::span(ls, lacks_device()) as int;
    if i < ls.len() {
        trade_name(text::split_on(ls[i], '"')[5])
    } else {
        seq![]
    }
}

/// What a device is sold as.
fn parse_trade_name(name: &[char]) -> (r: String)
    ensures
        r@ == trade_name(name@),
{
    match (find_last_char(name, '['), find_last_char(name, ']')) {
        (Some(open), Some(close)) => if open < close {
            bounded_text(slice_subrange(name, open + 1, close), EXTERNAL_TEXT_LIMIT)
        } else {
            bounded_text(name, EXTERNAL_TEXT_LIMIT)
        },
        _ => bounded_text(name, EXTERNAL_TEXT_LIMIT),
    }
}

/// The name of the device that the output `out` of `lspci -mm` tells of.
pub fn pci_name(out: &str) -> (r: String)
    ensures
        r@ == listed_name(out@),
{
    let lines: Vec<Vec<char>> = split_lines(chars_of(out).as_slice());
    let ghost ls = text::lines(out@);
    let mut i: usize = 0;
    while i < lines.len()
        invariant
            i <= lines@.len(),
            ls == text::texts(lines@),
            ls == text::lines(out@),
            forall|k: int| 0 <= k < i ==> lacks_device()(#[trigger] ls[k]),
        decreases lines.len() - i,
    {
        // lspci -mm quotes: slot "class" "vendor" "device" ...
        let pieces: Vec<Vec<char>> = split(lines[i].as_slice(), '"');
        let ghost ps = text::split_on(ls[i as int], '"');
        assert(lines@[i as int]@ == ls[i as int]);
        assert(pieces@.len() == ps.len());
        if pieces.len() >= 6 {
            proof {
                text::lemma_span(ls, lacks_device(), i as int);
                assert(pieces@[5]@ == ps[5]);
            }
            return parse_trade_name(pieces[5].as_slice());
        }
        i = i + 1;
    }
    proof {
        text::lemma_span(ls, lacks_device(), i as int);
    }
    String::new()
}

/// An ASCII text can be cut anywhere.
proof fn lemma_ascii_splits(s: Seq<char>)
    requires
        vstd::utf8::is_ascii_chars(s),
    ensures
        bus_id_splits(ascii_lowered(s)),
{
    let lowered = ascii_lowered(s);
    let parts = text::split_on(lowered, ':');
    assert(vstd::utf8::is_ascii_chars(lowered));
    text::lemma_span_holds(lowered, text::other_than(':'));
    let domain = parts[0];
    assert(domain == lowered.take(text::find(lowered, ':') as int) || domain == lowered);
    assert(vstd::utf8::is_ascii_chars(domain));
    vstd::utf8::is_ascii_chars_encode_utf8(domain);
    if domain.len() > 4 {
        lemma_last_four(domain);
    }
}

/// The text of a bus id of three parts.
pub open spec fn id_of(domain: Seq<char>, bus: Seq<char>, device: Seq<char>) -> Seq<char> {
    domain + seq![':'] + bus + seq![':'] + device
}

/// Whether `part` can be one of the parts of a bus id: no colon is in it.
pub open spec fn is_part(part: Seq<char>) -> bool {
    forall|i: int| 0 <= i < part.len() ==> #[trigger] part[i] != ':'
}

proof fn lemma_id_splits(domain: Seq<char>, bus: Seq<char>, device: Seq<char>)
    requires
        is_part(domain),
        is_part(bus),
        is_part(device),
    ensures
        text::split_on(id_of(domain, bus, device), ':') == seq![domain, bus, device],
{
    let id = id_of(domain, bus, device);
    let rest = bus + seq![':'] + device;
    let p = text::other_than(':');
    assert(forall|i: int| 0 <= i < domain.len() ==> #[trigger] id[i] == domain[i]);
    text::lemma_span(id, p, domain.len() as int);
    assert(id.take(domain.len() as int) == domain);
    assert(id.skip(domain.len() as int + 1) == rest);
    assert(forall|i: int| 0 <= i < bus.len() ==> #[trigger] rest[i] == bus[i]);
    text::lemma_span(rest, p, bus.len() as int);
    assert(rest.take(bus.len() as int) == bus);
    assert(rest.skip(bus.len() as int + 1) == device);
    text::lemma_span(device, p, device.len() as int);
    reveal_with_fuel(text::split_on, 3);
    assert(text::split_on(device, ':') == seq![device]);
    assert(text::split_on(rest, ':') == seq![bus] + seq![device]);
    assert(text::split_on(id, ':') == seq![domain] + (seq![bus] + seq![device]));
}

/// The last four bytes of an ASCII text are its last four characters.
proof fn lemma_last_four(s: Seq<char>)
    requires
        vstd::utf8::is_ascii_chars(s),
        s.len() > 4,
    ensures
        text::utf8(s).len() == s.len(),
        vstd::utf8::is_char_boundary(text::utf8(s), s.len() - 4),
        last_four(s) == s.subrange(s.len() - 4, s.len() as int),
{
    let bytes = text::utf8(s);
    let n = s.len() as int;
    let tail = s.subrange(n - 4, n);
    assert(vstd::utf8::is_ascii_chars(tail));
    vstd::utf8::is_ascii_chars_encode_utf8(s);
    vstd::utf8::is_ascii_chars_encode_utf8(tail);
    vstd::utf8::encode_utf8_valid_utf8(s);
    assert(bytes.subrange(n - 4, n) == text::utf8(tail)) by {
        assert forall|i: int| 0 <= i < 4 implies bytes.subrange(n - 4, n)[i] == #[trigger] text::utf8(
            tail,
        )[i] by {
            assert(tail[i] as u8 == text::utf8(tail)[i]);
            assert(s[n - 4 + i] as u8 == bytes[n - 4 + i]);
        }
    }
    vstd::utf8::encode_utf8_decode_utf8(tail);
    assert(s[n - 4] as u8 == bytes[n - 4]);
    assert(bytes[n - 4] < 128);
    vstd::utf8::is_char_boundary_iff_not_is_continuation_byte(bytes, n - 4);
}

/// Bus ids of one device compare equal whatever stands before the last four digits of
/// their domain, as the longer one of nvidia-smi and that of sysfs do, and each of them
/// comes out as the latter.
pub proof fn long_domains_compare_equal(
    before: Seq<char>,
    domain: Seq<char>,
    bus: Seq<char>,
    device: Seq<char>,
)
    requires
        vstd::utf8::is_ascii_chars(before),
        vstd::utf8::is_ascii_chars(domain),
        domain.len() == 4,
        is_part(before),
        is_part(domain),
        is_part(bus),
        is_part(device),
    ensures
        bus_id_splits(id_of(before + domain, bus, device)),
        bus_id(id_of(before + domain, bus, device)) == id_of(domain, bus, device),
        bus_id(id_of(domain, bus, device)) == id_of(domain, bus, device),
{
    let long = before + domain;
    lemma_id_splits(long, bus, device);
    lemma_id_splits(domain, bus, device);
    assert(vstd::utf8::is_ascii_chars(long)) by {
        assert forall|i: int| 0 <= i < long.len() implies '\0' <= #[trigger] long[i]
            <= '\u{7f}' by {
            if i < before.len() {
                assert(long[i] == before[i]);
            } else {
                assert(long[i] == domain[i - before.len()]);
            }
        }
    }
    vstd::utf8::is_ascii_chars_encode_utf8(domain);
    if before.len() > 0 {
        lemma_last_four(long);
        assert(long.subrange(long.len() - 4, long.len() as int) == domain);
    } else {
        assert(long == domain);
    }
}

/// An id of an ASCII domain that was brought into the form of sysfs stays as it is.
pub proof fn normalizing_twice_changes_nothing(
    domain: Seq<char>,
    bus: Seq<char>,
    device: Seq<char>,
)
    requires
        vstd::utf8::is_ascii_chars(domain),
        is_part(domain),
        is_part(bus),
        is_part(device),
    ensures
        ({
            let once = bus_id(id_of(domain, bus, device));
            bus_id_splits(once) && bus_id(once) == once
        }),
{
    let four = zero_padded(last_four(domain));
    lemma_id_splits(domain, bus, device);
    vstd::utf8::is_ascii_chars_encode_utf8(domain);
    if domain.len() > 4 {
        lemma_last_four(domain);
    }
    assert(bus_id(id_of(domain, bus, device)) == id_of(four, bus, device));
    assert(four.len() == 4 && is_part(four) && vstd::utf8::is_ascii_chars(four));
    long_domains_compare_equal(seq![], four, bus, device);
    assert(Seq::<char>::empty() + four == four);
}

} // verus!
