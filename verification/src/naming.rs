//! What things are called, in terms of the text that their names are taken from.

use crate::gpu;
use crate::hwmon;
use crate::names;
use crate::reading;
use crate::text;
use vstd::prelude::*;

verus! {

/// A device is sold as what stands between the last brackets of its name, and as the whole
/// of it where it has none; of that not more than 256 characters are kept.
pub proof fn brackets_hold_the_trade_name(before: Seq<char>, inner: Seq<char>, after: Seq<char>)
    requires
        names::lacks(inner, '[') && names::lacks(inner, ']'),
        names::lacks(after, '[') && names::lacks(after, ']'),
    ensures
        ({
            let sold = gpu::trade_name(before.push('[') + inner.push(']') + after);
            &&& inner.len() <= 256 ==> sold == inner
            &&& inner.len() > 256 ==> sold == inner.take(256)
            &&& inner.len() <= 256 ==> gpu::trade_name(inner) == inner
            &&& inner.len() > 256 ==> gpu::trade_name(inner) == inner.take(256)
        }),
{
    let name = before.push('[') + inner.push(']') + after;
    let tail = inner.push(']') + after;
    assert(names::lacks(tail, '[')) by {
        assert forall|i: int| 0 <= i < tail.len() implies #[trigger] tail[i] != '[' by {
            if i < inner.len() {
                assert(tail[i] == inner[i]);
            } else if i > inner.len() {
                assert(tail[i] == after[i - inner.len() - 1]);
            }
        }
    }
    assert(name == before.push('[') + tail);
    reading::last_separator_is_found(before, '[', tail);
    let head = before.push('[') + inner;
    assert(name == head.push(']') + after);
    reading::last_separator_is_found(head, ']', after);
    assert(name.subrange(before.len() as int + 1, head.len() as int) == inner);
    reading::last_separator_is_found(before, '[', inner);
}

/// Brackets that do not stand around anything are a part of the name.
pub proof fn lone_brackets_are_kept(before: Seq<char>, after: Seq<char>)
    requires
        before.len() + after.len() < 256,
        names::lacks(before, '[') && names::lacks(after, ']'),
    ensures
        names::lacks(after, '[') ==> names::lacks(before, ']') ==> gpu::trade_name(
            before.push('[') + after,
        ) == before.push('[') + after,
        names::lacks(after, '[') ==> gpu::trade_name(before.push(']') + after) == before.push(']')
            + after,
{
    if names::lacks(after, '[') {
        if names::lacks(before, ']') {
            let name = before.push('[') + after;
            assert(names::lacks(name, ']'));
            reading::last_separator_is_found(seq![], ']', name);
        }
        let name = before.push(']') + after;
        assert(names::lacks(name, '['));
        reading::last_separator_is_found(seq![], '[', name);
    }
}

/// A line that quotes a class, a vendor and a device.
pub open spec fn quoting_line(
    slot: Seq<char>,
    class: Seq<char>,
    vendor: Seq<char>,
    device: Seq<char>,
    rest: Seq<char>,
) -> Seq<char> {
    slot.push('"') + (class.push('"') + (seq![' '].push('"') + (vendor.push('"') + (seq![' '].push(
        '"',
    ) + (device.push('"') + rest)))))
}

/// A device that is listed is called by the third field that its line quotes.
pub proof fn third_quoted_field_is_the_device(
    out: Seq<char>,
    k: int,
    slot: Seq<char>,
    class: Seq<char>,
    vendor: Seq<char>,
    device: Seq<char>,
    rest: Seq<char>,
)
    requires
        names::lacks(slot, '"'),
        names::lacks(class, '"'),
        names::lacks(vendor, '"'),
        names::lacks(device, '"'),
        0 <= k < text::lines(out).len(),
        text::lines(out)[k] == quoting_line(slot, class, vendor, device, rest),
        forall|j: int| 0 <= j < k ==> text::split_on(#[trigger] text::lines(out)[j], '"').len() < 6,
    ensures
        gpu::listed_name(out) == gpu::trade_name(device),
{
    let space = seq![' '];
    assert(names::lacks(space, '"'));
    reading::fields_stand_between_separators(device, '"', rest);
    let d = device.push('"') + rest;
    reading::fields_stand_between_separators(space, '"', d);
    let c = space.push('"') + d;
    reading::fields_stand_between_separators(vendor, '"', c);
    let v = vendor.push('"') + c;
    reading::fields_stand_between_separators(space, '"', v);
    let b = space.push('"') + v;
    reading::fields_stand_between_separators(class, '"', b);
    let l = class.push('"') + b;
    reading::fields_stand_between_separators(slot, '"', l);
    let line = slot.push('"') + l;
    assert(line == quoting_line(slot, class, vendor, device, rest));
    lemma_has_piece(rest, '"');
    let parts = text::split_on(line, '"');
    assert(parts[5] == device);
    assert(parts.len() >= 6);
    let ls = text::lines(out);
    assert forall|j: int| 0 <= j < k implies gpu::lacks_device()(#[trigger] ls[j]) by {}
    assert(!gpu::lacks_device()(ls[k]));
    text::lemma_span(ls, gpu::lacks_device(), k);
}

proof fn lemma_has_piece(s: Seq<char>, c: char)
    ensures
        text::split_on(s, c).len() > 0,
{
}

/// Where no line quotes three fields no device is listed.
pub proof fn unlisted_devices_are_nameless(out: Seq<char>)
    requires
        forall|j: int|
            0 <= j < text::lines(out).len() ==> text::split_on(
                #[trigger] text::lines(out)[j],
                '"',
            ).len() < 6,
    ensures
        gpu::listed_name(out).len() == 0,
{
    let ls = text::lines(out);
    assert forall|j: int| 0 <= j < ls.len() implies gpu::lacks_device()(#[trigger] ls[j]) by {}
    text::lemma_span(ls, gpu::lacks_device(), ls.len() as int);
}

/// A bus id of three parts keeps its bus and its device, and gets zeros before a domain of
/// fewer than four characters; one of more or of fewer parts is none.
pub proof fn short_domains_are_filled_up(domain: Seq<char>, bus: Seq<char>, device: Seq<char>)
    requires
        names::lacks(domain, ':'),
        names::lacks(bus, ':'),
        names::lacks(device, ':'),
        domain.len() <= 4,
        vstd::utf8::is_ascii_chars(domain),
    ensures
        ({
            let id = gpu::bus_id(domain.push(':') + (bus.push(':') + device));
            let tail = seq![':'] + bus + seq![':'] + device;
            &&& domain.len() == 4 ==> id == domain + tail
            &&& domain.len() == 3 ==> id == seq!['0'] + domain + tail
            &&& domain.len() == 2 ==> id == seq!['0', '0'] + domain + tail
            &&& domain.len() == 1 ==> id == seq!['0', '0', '0'] + domain + tail
            &&& domain.len() == 0 ==> id == seq!['0', '0', '0', '0'] + tail
        }),
        gpu::bus_id(domain).len() == 0,
        gpu::bus_id(domain.push(':') + bus).len() == 0,
{
    reading::fields_stand_between_separators(domain, ':', bus.push(':') + device);
    reading::fields_stand_between_separators(domain, ':', bus);
    reading::fields_stand_between_separators(bus, ':', device);
    reading::fields_stand_between_separators(device, ':', seq![]);
    vstd::utf8::is_ascii_chars_encode_utf8(domain);
    let lowered = domain.push(':') + (bus.push(':') + device);
    let parts = text::split_on(lowered, ':');
    assert(parts == seq![domain] + (seq![bus] + seq![device]));
    assert(parts[0] == domain && parts[1] == bus && parts[2] == device);
    let tail = seq![':'] + bus + seq![':'] + device;
    let id = gpu::bus_id(lowered);
    assert(id == gpu::zero_padded(domain) + tail);
    if domain.len() == 0 {
        assert(gpu::zero_padded(domain) == seq!['0', '0', '0', '0']);
    } else if domain.len() == 1 {
        assert(gpu::zero_padded(domain) == seq!['0', '0', '0'] + domain);
    } else if domain.len() == 2 {
        assert(gpu::zero_padded(domain) == seq!['0', '0'] + domain);
    } else if domain.len() == 3 {
        assert(gpu::zero_padded(domain) == seq!['0'] + domain);
    }
}

/// A file is a reading of the sensor that its name goes on to tell, if that begins with the
/// kind; the name of a reading has an end that is not a part of the sensor's.
pub proof fn readings_are_of_their_sensor(kind: Seq<char>, number: Seq<char>, form: Seq<char>)
    ensures
        hwmon::sensor_of(kind + number + form, kind, form) == Some(kind + number),
        forall|name: Seq<char>|
            hwmon::sensor_of(name, kind, form) matches Some(sensor) ==> name == sensor + form
                && #[trigger] text::starts_with(name, kind),
        forall|name: Seq<char>| #[trigger]
            hwmon::is_reading(name, kind, form) <==> hwmon::sensor_of(name, kind, form) is Some,
{
    let name = kind + number + form;
    assert(name == kind + (number + form));
    reading::ends_are_taken_off(name, kind, number + form);
    reading::ends_are_taken_off(name, form, kind + number);
    assert forall|n: Seq<char>| hwmon::sensor_of(n, kind, form) matches Some(sensor) ==> n == sensor
        + form && #[trigger] text::starts_with(n, kind) by {
        reading::ends_are_taken_off(n, form, seq![]);
    }
}

/// A line of `nvidia-smi` has the name, the load, the memory in use and in all, the
/// temperature, the power, the clock rate and the highest, the fan and the bus id of a
/// card, in this order; one with fewer fields says nothing.
pub proof fn nvidia_lines_have_their_order(fields: Seq<Seq<char>>)
    requires
        fields.len() > 0,
        forall|i: int| 0 <= i < fields.len() ==> names::lacks(#[trigger] fields[i], ','),
    ensures
        ({
            let told = hwmon::nvidia_line(text::join(fields, ','));
            &&& told is Some <==> fields.len() >= 10
            &&& told matches Some(line) ==> {
                let name = text::trim(fields[0]);
                &&& name.len() <= 256 ==> line.name == name
                &&& name.len() > 256 ==> line.name == name.take(256)
                &&& line.util == text::trim(fields[1])
                &&& line.mem_used == text::trim(fields[2])
                &&& line.mem_total == text::trim(fields[3])
                &&& line.temp == text::trim(fields[4])
                &&& line.power == text::trim(fields[5])
                &&& line.mhz == text::trim(fields[6])
                &&& line.max_mhz == text::trim(fields[7])
                &&& line.fan == text::trim(fields[8])
                &&& gpu::bus_id_splits(gpu::lowered_id(text::trim(fields[9]))) ==> line.id == Some(
                    gpu::bus_id(gpu::lowered_id(text::trim(fields[9]))),
                )
                &&& !gpu::bus_id_splits(gpu::lowered_id(text::trim(fields[9]))) ==> line.id is None
            }
        }),
{
    reading::joined_fields_are_split(fields, ',');
}

/// One of the endings that say what kind a unit is.
pub open spec fn is_ending(end: Seq<char>) -> bool {
    end == ".scope"@ || end == ".service"@ || end == ".mount"@ || end == ".slice"@
}

proof fn lemma_endings()
    ensures
        ".scope"@ == seq!['.', 's', 'c', 'o', 'p', 'e'],
        ".service"@ == seq!['.', 's', 'e', 'r', 'v', 'i', 'c', 'e'],
        ".mount"@ == seq!['.', 'm', 'o', 'u', 'n', 't'],
        ".slice"@ == seq!['.', 's', 'l', 'i', 'c', 'e'],
{
    reveal_strlit(".scope");
    reveal_strlit(".service");
    reveal_strlit(".mount");
    reveal_strlit(".slice");
    assert(".scope"@ =~= seq!['.', 's', 'c', 'o', 'p', 'e']);
    assert(".service"@ =~= seq!['.', 's', 'e', 'r', 'v', 'i', 'c', 'e']);
    assert(".mount"@ =~= seq!['.', 'm', 'o', 'u', 'n', 't']);
    assert(".slice"@ =~= seq!['.', 's', 'l', 'i', 'c', 'e']);
}

/// Different endings are not taken for each other.
proof fn lemma_other_ending(stem: Seq<char>, end: Seq<char>, other: Seq<char>)
    requires
        is_ending(end),
        is_ending(other),
        end != other,
    ensures
        !text::ends_with(stem + end, other),
{
    lemma_endings();
    let s = stem + end;
    if text::ends_with(s, other) {
        let n = s.len() as int;
        let m = other.len() as int;
        assert(forall|i: int| 0 <= i < m ==> s.skip(n - m)[i] == #[trigger] other[i]);
        assert(s[n - 1] == other[m - 1]);
        assert(s[n - 2] == other[m - 2]);
        assert(s[n - 3] == other[m - 3]);
        assert(s[n - 4] == other[m - 4]);
        assert(s[n - 1] == end[end.len() - 1]);
        assert(s[n - 2] == end[end.len() - 2]);
        assert(s[n - 3] == end[end.len() - 3]);
        assert(s[n - 4] == end[end.len() - 4]);
        assert(other[m - 5] == s[n - 5] && s[n - 5] == end[end.len() - 5]);
        assert(other[m - 6] == s[n - 6] && s[n - 6] == end[end.len() - 6]);
    }
}

/// The ending of a unit is taken off, and what is left is its stem.
pub proof fn units_have_one_stem(stem: Seq<char>, end: Seq<char>)
    requires
        names::is_stem(stem),
        is_ending(end),
    ensures
        names::unit_stem(stem + end) == stem,
        names::unit_stem(stem) == stem,
{
    lemma_endings();
    if end != ".scope"@ {
        lemma_other_ending(stem, end, ".scope"@);
    }
    if end != ".service"@ {
        lemma_other_ending(stem, end, ".service"@);
    }
    if end != ".mount"@ {
        lemma_other_ending(stem, end, ".mount"@);
    }
    if end != ".slice"@ {
        lemma_other_ending(stem, end, ".slice"@);
    }
    reading::all_ends_are_taken_off(stem, ".scope"@);
    reading::all_ends_are_taken_off(stem, ".service"@);
    reading::all_ends_are_taken_off(stem, ".mount"@);
    reading::all_ends_are_taken_off(stem, ".slice"@);
    reading::all_ends_are_taken_off(stem + end, ".scope"@);
    reading::all_ends_are_taken_off(stem + end, ".service"@);
    reading::all_ends_are_taken_off(stem + end, ".mount"@);
    reading::all_ends_are_taken_off(stem + end, ".slice"@);
}

proof fn lemma_unit(path: Seq<char>, unit: Seq<char>)
    requires
        names::lacks(unit, '/'),
        names::lacks(unit, '\\'),
    ensures
        text::replace(text::after_last(path.push('/') + unit, '/'), "\\x2d"@, seq!['-']) == unit,
{
    reveal_strlit("\\x2d");
    reading::last_separator_is_found(path, '/', unit);
    assert forall|i: int| 0 <= i < unit.len() implies !text::starts_with(
        #[trigger] unit.skip(i),
        "\\x2d"@,
    ) by {
        if text::starts_with(unit.skip(i), "\\x2d"@) {
            assert(unit.skip(i).take(4)[0] == unit[i]);
            assert("\\x2d"@[0] == '\\');
        }
    }
    reading::replacing_nothing_changes_nothing(unit, "\\x2d"@, seq!['-']);
}

/// A unit is called by its stem, whatever its ending is, unless that begins as an
/// application's does; one without a stem, and a path without a unit, are called "other".
pub proof fn units_are_called_by_their_stem(path: Seq<char>, stem: Seq<char>, end: Seq<char>)
    requires
        is_ending(end),
        names::is_stem(stem),
        names::lacks(stem, '/') && names::lacks(stem, '\\'),
        !text::starts_with(stem, "app-"@),
    ensures
        ({
            let called = names::label(path.push('/') + (stem + end));
            &&& 0 < stem.len() <= 256 ==> called == stem
            &&& stem.len() > 256 ==> called == stem.take(256)
            &&& stem.len() == 0 ==> called == "other"@
        }),
        names::label(path.push('/')) == "other"@,
{
    lemma_endings();
    let unit = stem + end;
    assert(names::lacks(unit, '/') && names::lacks(unit, '\\'));
    lemma_unit(path, unit);
    units_have_one_stem(stem, end);
    let none = Seq::<char>::empty();
    assert(path.push('/') + none == path.push('/'));
    lemma_unit(path, none);
}

/// An application's unit of two parts is called by the second, and one of a single part by
/// all of its stem.
pub proof fn short_applications_are_called_by_their_last_part(
    path: Seq<char>,
    first: Seq<char>,
    second: Seq<char>,
    end: Seq<char>,
)
    requires
        is_ending(end),
        names::lacks(first, '-') && names::lacks(second, '-'),
        names::lacks(first, '/') && names::lacks(first, '\\'),
        names::lacks(second, '/') && names::lacks(second, '\\'),
        second.len() <= 256,
        first.len() < 250,
    ensures
        names::is_stem("app-"@ + (first.push('-') + second)) ==> names::label(
            path.push('/') + ("app-"@ + (first.push('-') + second) + end),
        ) == second,
        names::is_stem("app-"@ + first) ==> names::label(path.push('/') + ("app-"@ + first + end))
            == "app-"@ + first,
{
    lemma_endings();
    reveal_strlit("app-");
    reading::fields_stand_between_separators(first, '-', second);
    reading::fields_stand_between_separators(second, '-', seq![]);
    let rest = first.push('-') + second;
    let two = "app-"@ + rest;
    let one = "app-"@ + first;
    reading::ends_are_taken_off(two, "app-"@, rest);
    reading::ends_are_taken_off(one, "app-"@, first);
    let parts = text::split_on(rest, '-');
    assert(parts == seq![first] + seq![second]);
    assert(parts[1] == second);
    assert(names::lacks("app-"@, '/') && names::lacks("app-"@, '\\'));
    assert(names::lacks(two + end, '/') && names::lacks(two + end, '\\'));
    assert(names::lacks(one + end, '/') && names::lacks(one + end, '\\'));
    lemma_unit(path, two + end);
    lemma_unit(path, one + end);
    if names::is_stem(two) {
        units_have_one_stem(two, end);
    }
    if names::is_stem(one) {
        units_have_one_stem(one, end);
    }
}

proof fn lemma_replace_behind(head: Seq<char>, s: Seq<char>)
    requires
        names::lacks(head, '\\'),
    ensures
        text::replace(head + s, "\\x2d"@, seq!['-']) == head + text::replace(
            s,
            "\\x2d"@,
            seq!['-'],
        ),
    decreases head.len(),
{
    reveal_strlit("\\x2d");
    let whole = head + s;
    if head.len() == 0 {
        assert(whole == s);
        assert(head + text::replace(s, "\\x2d"@, seq!['-']) == text::replace(
            s,
            "\\x2d"@,
            seq!['-'],
        ));
    } else {
        let rest = head.skip(1);
        assert(whole[0] == head[0]);
        if text::starts_with(whole, "\\x2d"@) {
            assert(whole.take(4)[0] == whole[0]);
        }
        assert(whole.skip(1) == rest + s);
        lemma_replace_behind(rest, s);
        assert(seq![whole[0]] + (rest + text::replace(s, "\\x2d"@, seq!['-'])) == head
            + text::replace(s, "\\x2d"@, seq!['-']));
    }
}

/// A dash that is written as an escape is a dash.
pub proof fn escaped_dashes_are_dashes(path: Seq<char>, a: Seq<char>, b: Seq<char>)
    requires
        names::lacks(a, '/') && names::lacks(a, '\\'),
        names::lacks(b, '/'),
    ensures
        names::label(path.push('/') + (a + "\\x2d"@ + b)) == names::label(
            path.push('/') + (a.push('-') + b),
        ),
{
    reveal_strlit("\\x2d");
    let escaped = a + "\\x2d"@ + b;
    let plain = a.push('-') + b;
    assert(names::lacks(escaped, '/')) by {
        assert(names::lacks("\\x2d"@, '/'));
    }
    assert(names::lacks(plain, '/'));
    reading::last_separator_is_found(path, '/', escaped);
    reading::last_separator_is_found(path, '/', plain);
    lemma_replace_behind(a.push('-'), b);
    lemma_replace_behind(a, "\\x2d"@ + b);
    assert(escaped == a + ("\\x2d"@ + b));
    let tail = "\\x2d"@ + b;
    assert(tail.take(4) == "\\x2d"@);
    assert(tail.skip(4) == b);
    assert(a + (seq!['-'] + text::replace(b, "\\x2d"@, seq!['-'])) == a.push('-') + text::replace(
        b,
        "\\x2d"@,
        seq!['-'],
    ));
}

/// A bus id can be brought into its form unless it has three parts and the last four bytes
/// of a longer domain begin within a character.
pub proof fn bus_ids_can_be_cut(domain: Seq<char>, bus: Seq<char>, device: Seq<char>)
    requires
        names::lacks(domain, ':'),
        names::lacks(bus, ':'),
        names::lacks(device, ':'),
    ensures
        gpu::bus_id_splits(domain.push(':') + (bus.push(':') + device)) <==> ({
            let bytes = text::utf8(domain);
            bytes.len() <= 4 || vstd::utf8::is_char_boundary(bytes, bytes.len() - 4)
        }),
        gpu::bus_id_splits(domain),
        gpu::bus_id_splits(domain.push(':') + bus),
{
    reading::fields_stand_between_separators(domain, ':', bus.push(':') + device);
    reading::fields_stand_between_separators(domain, ':', bus);
    reading::fields_stand_between_separators(bus, ':', device);
    reading::fields_stand_between_separators(device, ':', seq![]);
    let parts = text::split_on(domain.push(':') + (bus.push(':') + device), ':');
    assert(parts == seq![domain] + (seq![bus] + seq![device]));
    assert(parts[0] == domain);
}

/// A card whose `vendor` file cannot be read is taken for one whose file is empty, and an id
/// is compared in small letters and without the white space around it.
pub proof fn missing_vendors_are_empty(number: Seq<char>, value: Seq<char>)
    ensures
        gpu::vendor_number(None).len() == 0,
        gpu::vendor_number(Some(number)) == number,
        gpu::lowered_id(value) == gpu::lowercase_text(text::trim(value)),
{
}

} // verus!
