//! What is shown of graphics cards, in terms of what was read of them.

use crate::devices;
use crate::devices::{
    Answer, Bits, CardScanView, Details, DeviceView, GpuRecord, GpuRecordView, Readings,
};
use crate::gpu;
use crate::gpu::{Kind, State};
use crate::hwmon;
use crate::hwmon::{ChannelView, Sensor};
use crate::rank;
use crate::rank::Ranked;
use crate::text;
use vstd::prelude::*;

verus! {

/// What is shown of the cards `ds` that gave the answers `answers`, in its order.
pub open spec fn shown_list(
    latest: Map<Seq<char>, GpuRecord>,
    ds: Seq<DeviceView>,
    answers: Seq<Answer>,
) -> Seq<GpuRecordView> {
    rank::arrange::<GpuRecord>(devices::all_shown(latest, ds, answers))
}

/// What is shown of a card that is there is in the list.
proof fn lemma_shown_is_listed(
    latest: Map<Seq<char>, GpuRecord>,
    ds: Seq<DeviceView>,
    answers: Seq<Answer>,
    i: int,
)
    requires
        0 <= i < ds.len(),
        devices::shown(latest, ds[i], answers[i]) is Some,
    ensures
        devices::all_shown(latest, ds, answers).contains(
            devices::shown(latest, ds[i], answers[i])->0,
        ),
    decreases ds.len(),
{
    let rest = ds.drop_last();
    let all = devices::all_shown(latest, ds, answers);
    let x = devices::shown(latest, ds[i], answers[i])->0;
    if i < rest.len() {
        lemma_shown_is_listed(latest, rest, answers, i);
        let before = devices::all_shown(latest, rest, answers);
        let k = choose|k: int| 0 <= k < before.len() && before[k] == x;
        assert(all[k] == x);
    } else {
        assert(all[all.len() - 1] == x);
    }
}

proof fn lemma_listed(
    latest: Map<Seq<char>, GpuRecord>,
    ds: Seq<DeviceView>,
    answers: Seq<Answer>,
    i: int,
)
    requires
        0 <= i < ds.len(),
        devices::shown(latest, ds[i], answers[i]) is Some,
    ensures
        shown_list(latest, ds, answers).contains(devices::shown(latest, ds[i], answers[i])->0),
{
    broadcast use vstd::seq_lib::group_to_multiset_ensures;

    let all = devices::all_shown(latest, ds, answers);
    let x = devices::shown(latest, ds[i], answers[i])->0;
    lemma_shown_is_listed(latest, ds, answers, i);
    rank::arrangement_keeps_items::<GpuRecord>(all);
    assert(all.to_multiset().count(x) > 0);
    assert(shown_list(latest, ds, answers).to_multiset().count(x) > 0);
}

/// Whether `r` is a record of the card `d`: it has its slot, its name or, where that is
/// empty, its maker's, and says who its maker is.
pub open spec fn is_record_of(r: GpuRecordView, d: DeviceView) -> bool {
    &&& r.id == d.id
    &&& d.name.len() > 0 ==> r.name == d.name
    &&& d.name.len() == 0 ==> r.name == (match d.kind {
        Kind::Nvidia => "NVIDIA"@,
        Kind::Amd => "AMD"@,
        Kind::Intel => "Intel"@,
    })
    &&& r.vendor == (match d.kind {
        Kind::Nvidia => "nvidia"@,
        Kind::Amd => "amd"@,
        Kind::Intel => "intel"@,
    })
}

/// What is shown of a card by AMD or Intel that is awake has each reading as it was
/// answered, and no fan; it is shown whatever `nvidia-smi` said.
pub proof fn readings_are_shown_as_they_were_answered(
    latest: Map<Seq<char>, GpuRecord>,
    d: DeviceView,
    readings: Readings,
)
    requires
        d.kind == Kind::Amd || d.kind == Kind::Intel,
    ensures
        ({
            let shown = devices::shown(latest, d, Answer::Active(readings));
            &&& shown == Some(devices::device_sample(latest, d, readings))
            &&& is_record_of(shown->0, d)
            &&& shown->0.details matches Details::Live(told) && {
                &&& told.util == readings.util
                &&& told.mem_used == readings.mem_used
                &&& told.mem_total == readings.mem_total
                &&& told.temp == readings.temp
                &&& told.power == readings.power
                &&& told.mhz == readings.mhz
                &&& told.max_mhz == readings.max_mhz
                &&& told.fan is None
            }
        }),
{
}

/// A card by AMD or Intel that is awake is shown with each reading as it was read, and
/// without a fan.
pub proof fn awake_cards_show_their_readings(
    latest: Map<Seq<char>, GpuRecord>,
    ds: Seq<DeviceView>,
    answers: Seq<Answer>,
    i: int,
    readings: Readings,
)
    requires
        answers.len() == ds.len(),
        0 <= i < ds.len(),
        ds[i].kind == Kind::Amd || ds[i].kind == Kind::Intel,
        answers[i] == Answer::Active(readings),
    ensures
        ({
            let list = shown_list(latest, ds, answers);
            exists|k: int|
                {
                    &&& 0 <= k < list.len()
                    &&& is_record_of(#[trigger] list[k], ds[i])
                    &&& list[k].details matches Details::Live(shown) && {
                        &&& shown.util == readings.util
                        &&& shown.mem_used == readings.mem_used
                        &&& shown.mem_total == readings.mem_total
                        &&& shown.temp == readings.temp
                        &&& shown.power == readings.power
                        &&& shown.mhz == readings.mhz
                        &&& shown.max_mhz == readings.max_mhz
                        &&& shown.fan is None
                    }
                }
        }),
{
    lemma_listed(latest, ds, answers, i);
    let list = shown_list(latest, ds, answers);
    let x = devices::shown(latest, ds[i], answers[i])->0;
    let k = choose|k: int| 0 <= k < list.len() && list[k] == x;
    assert(is_record_of(list[k], ds[i]));
}

/// A card by NVIDIA that is awake is shown as `nvidia-smi` last told of its slot or, as
/// long as that has said nothing, without any figure.
pub proof fn nvidia_cards_show_what_was_said(
    latest: Map<Seq<char>, GpuRecord>,
    ds: Seq<DeviceView>,
    answers: Seq<Answer>,
    i: int,
    readings: Readings,
)
    requires
        answers.len() == ds.len(),
        0 <= i < ds.len(),
        ds[i].kind == Kind::Nvidia,
        answers[i] == Answer::Active(readings),
    ensures
        ({
            let list = shown_list(latest, ds, answers);
            &&& latest.contains_key(ds[i].id) ==> list.contains(latest[ds[i].id]@)
            &&& !latest.contains_key(ds[i].id) ==> exists|k: int|
                0 <= k < list.len() && is_record_of(#[trigger] list[k], ds[i]) && list[k].details
                    == Details::Waiting
        }),
{
    lemma_listed(latest, ds, answers, i);
    let list = shown_list(latest, ds, answers);
    let x = devices::shown(latest, ds[i], answers[i])->0;
    let k = choose|k: int| 0 <= k < list.len() && list[k] == x;
    if !latest.contains_key(ds[i].id) {
        assert(is_record_of(list[k], ds[i]) && list[k].details == Details::Waiting);
    }
}

/// A card that is asleep is shown with the memory that is known of it, and one that is
/// gone is not shown: there are as many records as cards that are not gone. A card that
/// is gone is looked for at once.
pub proof fn sleeping_and_gone_cards(
    s: devices::GpuSamplerView,
    latest: Map<Seq<char>, GpuRecord>,
    answers: Seq<Answer>,
)
    requires
        answers.len() == s.devices.len(),
    ensures
        ({
            let list = shown_list(latest, s.devices, answers);
            let after = devices::sampled(s, latest, answers);
            &&& forall|i: int|
                0 <= i < answers.len() && #[trigger] answers[i] == Answer::Asleep ==> exists|k: int|
                    0 <= k < list.len() && is_record_of(#[trigger] list[k], s.devices[i])
                        && list[k].details == Details::Asleep(s.devices[i].mem_total)
            &&& list.len() == answers.filter(|a: Answer| a != Answer::Gone).len()
            &&& (exists|i: int| 0 <= i < answers.len() && #[trigger] answers[i] == Answer::Gone)
                ==> after.last_scan is None
            &&& (forall|i: int| 0 <= i < answers.len() ==> #[trigger] answers[i] != Answer::Gone)
                ==> after.last_scan == s.last_scan
            &&& after.signature == s.signature && after.streaming == s.streaming
        }),
{
    let ds = s.devices;
    let list = shown_list(latest, ds, answers);
    assert forall|i: int| 0 <= i < answers.len() && #[trigger] answers[i]
        == Answer::Asleep implies exists|k: int|
        0 <= k < list.len() && is_record_of(#[trigger] list[k], ds[i]) && list[k].details
            == Details::Asleep(ds[i].mem_total) by {
        lemma_listed(latest, ds, answers, i);
        let x = devices::shown(latest, ds[i], answers[i])->0;
        let k = choose|k: int| 0 <= k < list.len() && list[k] == x;
        assert(is_record_of(list[k], ds[i]));
    }
    rank::arrangement_keeps_items::<GpuRecord>(devices::all_shown(latest, ds, answers));
    lemma_as_many(latest, ds, answers, ds.len() as int);
    assert(ds.take(ds.len() as int) == ds);
    assert(answers.take(ds.len() as int) == answers);
    if exists|i: int| 0 <= i < answers.len() && #[trigger] answers[i] == Answer::Gone {
        let i = choose|i: int| 0 <= i < answers.len() && #[trigger] answers[i] == Answer::Gone;
        assert(answers.contains(answers[i]));
    }
}

proof fn lemma_as_many(
    latest: Map<Seq<char>, GpuRecord>,
    ds: Seq<DeviceView>,
    answers: Seq<Answer>,
    n: int,
)
    requires
        answers.len() == ds.len(),
        0 <= n <= ds.len(),
    ensures
        devices::all_shown(latest, ds.take(n), answers).len() == answers.take(n).filter(
            |a: Answer| a != Answer::Gone,
        ).len(),
    decreases n,
{
    let p = |a: Answer| a != Answer::Gone;
    if n > 0 {
        lemma_as_many(latest, ds, answers, n - 1);
        assert(ds.take(n).drop_last() == ds.take(n - 1));
        assert(answers.take(n) == answers.take(n - 1).push(answers[n - 1]));
        answers.take(n - 1).lemma_filter_push(answers[n - 1], p);
    } else {
        reveal(Seq::filter);
    }
}

/// A card is remembered by the memory it tells of, whatever it was known by before, and
/// nothing else of it changes.
pub proof fn cards_are_remembered_by_their_memory(
    latest: Map<Seq<char>, GpuRecord>,
    ds: Seq<DeviceView>,
    answers: Seq<Answer>,
    i: int,
)
    requires
        answers.len() == ds.len(),
        0 <= i < ds.len(),
    ensures
        ({
            let after = devices::after_answers(latest, ds, answers);
            &&& after.len() == ds.len()
            &&& after[i] == (DeviceView { mem_total: after[i].mem_total, ..ds[i] })
            &&& (answers[i] == Answer::Asleep || answers[i] == Answer::Gone) ==> after[i] == ds[i]
            &&& answers[i] matches Answer::Active(r) ==> {
                &&& ds[i].kind != Kind::Nvidia && r.mem_total is Some ==> after[i].mem_total
                    == r.mem_total
                &&& ds[i].kind != Kind::Nvidia && r.mem_total is None ==> after[i] == ds[i]
                &&& ds[i].kind == Kind::Nvidia && !latest.contains_key(ds[i].id) ==> after[i]
                    == ds[i]
                &&& ds[i].kind == Kind::Nvidia && latest.contains_key(ds[i].id) ==> {
                    let told = match latest[ds[i].id]@.details {
                        Details::Live(said) => said.mem_total,
                        Details::Asleep(total) => total,
                        Details::Waiting => None,
                    };
                    &&& told is Some ==> after[i].mem_total == told
                    &&& told is None ==> after[i] == ds[i]
                }
            }
        }),
{
}

/// The memory that a record tells of; one that tells of none counts as having zero.
pub open spec fn memory_told(r: GpuRecordView) -> Bits {
    match r.details {
        Details::Live(readings) => match readings.mem_total {
            Some(total) => total,
            None => 0,
        },
        Details::Asleep(Some(total)) => total,
        Details::Asleep(None) => 0,
        Details::Waiting => 0,
    }
}

/// Whether the number with the bits `a` is no smaller than that with the bits `b`: the
/// first bit is the sign, and the others grow with the magnitude.
pub open spec fn no_smaller(a: Bits, b: Bits) -> bool {
    let sign: u64 = 0x8000_0000_0000_0000;
    if a < sign && b < sign {
        a >= b
    } else if a >= sign && b >= sign {
        a <= b
    } else {
        a < sign
    }
}

/// No card is shown before one that tells of more memory.
pub proof fn cards_are_shown_by_memory(
    latest: Map<Seq<char>, GpuRecord>,
    ds: Seq<DeviceView>,
    answers: Seq<Answer>,
    i: int,
    j: int,
)
    requires
        0 <= i < j < shown_list(latest, ds, answers).len(),
    ensures
        no_smaller(
            memory_told(shown_list(latest, ds, answers)[i]),
            memory_told(shown_list(latest, ds, answers)[j]),
        ),
{
    let seen = devices::all_shown(latest, ds, answers);
    let out = shown_list(latest, ds, answers);
    rank::arrangement_is_in_order::<GpuRecord>(seen);
    assert(!GpuRecord::before(out[j], out[i]));
}

/// How many of the first `i` cards are of a known maker.
pub open spec fn known_before(kinds: Seq<Option<Kind>>, i: int) -> nat {
    kinds.take(i).filter(|k: Option<Kind>| k is Some).len()
}

/// The devices are the first eight cards of a known maker, in the order they were found:
/// each has the maker, the directory and the slot of its card, the first entry of its
/// `hwmon` directory, and its name up to 256 characters.
pub proof fn devices_are_the_known_cards(
    previous: Seq<DeviceView>,
    cs: Seq<CardScanView>,
    kinds: Seq<Option<Kind>>,
)
    requires
        kinds.len() == cs.len(),
    ensures
        ({
            let ds = devices::devices_from(previous, cs, kinds);
            let known = known_before(kinds, cs.len() as int);
            &&& ds.len() == (if known < 8 {
                known
            } else {
                8
            })
            &&& forall|i: int|
                0 <= i < cs.len() && (#[trigger] kinds[i]) is Some && known_before(kinds, i) < 8
                    ==> {
                    let d = ds[known_before(kinds, i) as int];
                    &&& d.kind == kinds[i]->0
                    &&& d.card == cs[i].device
                    &&& d.id == cs[i].id
                    &&& cs[i].name.len() <= 256 ==> d.name == cs[i].name
                    &&& cs[i].name.len() > 256 ==> d.name == cs[i].name.take(256)
                    &&& cs[i].hwmon.len() == 0 ==> d.hwmon is None
                    &&& cs[i].hwmon.len() > 0 ==> d.hwmon == Some(
                        cs[i].device + "/hwmon/"@ + cs[i].hwmon[0],
                    )
                }
        }),
{
    lemma_known_cards(previous, cs, kinds, cs.len() as int);
    assert(cs.take(cs.len() as int) == cs);
}

/// A device has the memory that the first one with its slot was known to have, and none
/// where none was.
pub proof fn devices_keep_the_memory_of_their_slot(
    previous: Seq<DeviceView>,
    cs: Seq<CardScanView>,
    kinds: Seq<Option<Kind>>,
    m: int,
    k: int,
)
    requires
        0 <= m < devices::devices_from(previous, cs, kinds).len(),
    ensures
        ({
            let d = devices::devices_from(previous, cs, kinds)[m];
            &&& (forall|j: int| 0 <= j < previous.len() ==> (#[trigger] previous[j]).id != d.id)
                ==> d.mem_total is None
            &&& 0 <= k < previous.len() && previous[k].id == d.id && (forall|j: int|
                0 <= j < k ==> (#[trigger] previous[j]).id != d.id) ==> d.mem_total
                == previous[k].mem_total
        }),
    decreases cs.len(),
{
    let before = devices::devices_from(previous, cs.drop_last(), kinds);
    if m < before.len() {
        devices_keep_the_memory_of_their_slot(previous, cs.drop_last(), kinds, m, k);
    } else {
        let d = devices::devices_from(previous, cs, kinds)[m];
        let p = devices::has_other_id(d.id);
        if forall|j: int| 0 <= j < previous.len() ==> (#[trigger] previous[j]).id != d.id {
            text::lemma_span(previous, p, previous.len() as int);
        }
        if 0 <= k < previous.len() && previous[k].id == d.id && (forall|j: int|
            0 <= j < k ==> (#[trigger] previous[j]).id != d.id) {
            text::lemma_span(previous, p, k);
        }
    }
}

proof fn lemma_known_cards(
    previous: Seq<DeviceView>,
    cs: Seq<CardScanView>,
    kinds: Seq<Option<Kind>>,
    n: int,
)
    requires
        kinds.len() == cs.len(),
        0 <= n <= cs.len(),
    ensures
        ({
            let ds = devices::devices_from(previous, cs.take(n), kinds);
            &&& ds.len() == (if known_before(kinds, n) < 8 {
                known_before(kinds, n)
            } else {
                8
            })
            &&& forall|i: int|
                0 <= i < n && (#[trigger] kinds[i]) is Some && known_before(kinds, i) < 8
                    ==> known_before(kinds, i) < ds.len() && ds[known_before(kinds, i) as int]
                    == devices::device_from(previous, cs[i], kinds[i]->0)
        }),
    decreases n,
{
    let p = |k: Option<Kind>| k is Some;
    if n > 0 {
        lemma_known_cards(previous, cs, kinds, n - 1);
        let before = devices::devices_from(previous, cs.take(n - 1), kinds);
        assert(cs.take(n).drop_last() == cs.take(n - 1));
        assert(cs.take(n).last() == cs[n - 1]);
        assert(kinds.take(n) == kinds.take(n - 1).push(kinds[n - 1]));
        kinds.take(n - 1).lemma_filter_push(kinds[n - 1], p);
    } else {
        reveal(Seq::filter);
    }
}

/// A card by NVIDIA is noticed wherever it stands, and the others are told from it.
pub proof fn nvidia_cards_are_noticed(ds: Seq<DeviceView>)
    ensures
        forall|i: int|
            0 <= i < ds.len() && (#[trigger] ds[i]).kind == Kind::Nvidia ==> devices::any_nvidia(ds),
        (forall|i: int|
            0 <= i < ds.len() ==> (#[trigger] ds[i]).kind == Kind::Amd || ds[i].kind == Kind::Intel)
            ==> !devices::any_nvidia(ds) && ds.filter(devices::is_not_nvidia()) == ds,
        forall|i: int|
            0 <= i < ds.filter(devices::is_not_nvidia()).len() ==> (#[trigger] ds.filter(
                devices::is_not_nvidia(),
            )[i]).kind != Kind::Nvidia,
        forall|i: int|
            0 <= i < ds.len() && (#[trigger] ds[i]).kind != Kind::Nvidia ==> ds.filter(
                devices::is_not_nvidia(),
            ).contains(ds[i]),
{
    broadcast use vstd::seq_lib::group_filter_ensures;

    let p = devices::is_not_nvidia();
    assert forall|i: int| 0 <= i < ds.filter(p).len() implies (#[trigger] ds.filter(p)[i]).kind
        != Kind::Nvidia by {
        assert(p(ds.filter(p)[i]));
    }
    if forall|i: int|
        0 <= i < ds.len() ==> (#[trigger] ds[i]).kind == Kind::Amd || ds[i].kind == Kind::Intel {
        assert forall|i: int| 0 <= i < ds.len() implies p(#[trigger] ds[i]) by {}
        lemma_all_pass(ds, p);
    }
}

proof fn lemma_all_pass(ds: Seq<DeviceView>, p: spec_fn(DeviceView) -> bool)
    requires
        forall|i: int| 0 <= i < ds.len() ==> p(#[trigger] ds[i]),
    ensures
        ds.filter(p) == ds,
    decreases ds.len(),
{
    if ds.len() > 0 {
        let rest = ds.drop_last();
        assert forall|i: int| 0 <= i < rest.len() implies p(#[trigger] rest[i]) by {
            assert(rest[i] == ds[i]);
        }
        lemma_all_pass(rest, p);
        rest.lemma_filter_push(ds.last(), p);
        assert(rest.push(ds.last()) == ds);
        assert(p(ds[ds.len() - 1]));
    } else {
        reveal(Seq::filter);
    }
}

/// Cards are looked for at once, and then again when five seconds have passed.
pub proof fn cards_are_looked_for_every_five_seconds(at: u64, now: u64)
    ensures
        devices::is_scan_due(None, now),
        devices::is_scan_due(Some(at), now) <==> now >= at + 5_000_000_000,
{
}

/// The cards are found to be others exactly when their slots are.
pub proof fn other_slots_make_another_signature(a: Seq<Seq<char>>, b: Seq<Seq<char>>)
    ensures
        devices::sorted_slots(a) == devices::sorted_slots(b) <==> a.to_multiset()
            == b.to_multiset(),
{
    rank::arrangement_keeps_items::<devices::SlotName>(a);
    rank::arrangement_keeps_items::<devices::SlotName>(b);
    if a.to_multiset() == b.to_multiset() {
        devices::order_of_slots_does_not_matter(a, b);
    }
}

/// A look for cards changes when they were last looked for and the slots that are known,
/// taking the cards that were found changes the devices, and so does dropping those by
/// NVIDIA, which leaves the others in their order; nothing else changes.
pub proof fn samplers_change_what_they_are_told(
    s: devices::GpuSamplerView,
    now: u64,
    slots: Seq<Seq<char>>,
    cs: Seq<CardScanView>,
)
    ensures
        ({
            let after = devices::refreshed(s, now, slots);
            &&& after.last_scan == Some(now)
            &&& after.signature.to_multiset() == slots.to_multiset()
            &&& after.devices == s.devices
            &&& after.streaming == s.streaming
        }),
        ({
            let after = devices::detected(s, cs);
            let kinds = devices::scanned_kinds(cs);
            &&& kinds.len() == cs.len()
            &&& after.devices == devices::devices_from(s.devices, cs, kinds)
            &&& after.last_scan == s.last_scan
            &&& after.signature == s.signature
            &&& after.streaming == s.streaming
        }),
        ({
            let after = devices::without_nvidia(s);
            &&& after.devices == s.devices.filter(|d: DeviceView| d.kind != Kind::Nvidia)
            &&& after.last_scan == s.last_scan
            &&& after.signature == s.signature
            &&& after.streaming == s.streaming
        }),
{
    rank::arrangement_keeps_items::<devices::SlotName>(slots);
    assert(devices::is_not_nvidia() =~= (|d: DeviceView| d.kind != Kind::Nvidia));
}

/// The maker of a card is the one whose number its `vendor` file holds, in capital or in
/// small letters.
pub proof fn makers_are_read_from_the_vendor_file(cs: Seq<CardScanView>, i: int, number: Seq<char>)
    requires
        0 <= i < cs.len(),
        cs[i].vendor == Some(number),
    ensures
        ({
            let kind = devices::scanned_kinds(cs)[i];
            let lowered = gpu::lowercase_text(number);
            &&& kind == Some(Kind::Amd) <==> lowered == "0x1002"@
            &&& kind == Some(Kind::Intel) <==> lowered == "0x8086"@
            &&& kind == Some(Kind::Nvidia) <==> lowered == "0x10de"@
        }),
{
    makers_have_their_numbers(gpu::lowercase_text(number));
}

/// Each of three PCI numbers means a maker, and no other text does.
pub proof fn makers_have_their_numbers(number: Seq<char>)
    ensures
        gpu::kind_with_number(number) == Some(Kind::Amd) <==> number == "0x1002"@,
        gpu::kind_with_number(number) == Some(Kind::Intel) <==> number == "0x8086"@,
        gpu::kind_with_number(number) == Some(Kind::Nvidia) <==> number == "0x10de"@,
{
    reveal_strlit("0x1002");
    reveal_strlit("0x8086");
    reveal_strlit("0x10de");
    assert("0x1002"@[2] == '1' && "0x8086"@[2] == '8');
    assert("0x1002"@[4] == '0' && "0x10de"@[4] == 'd');
}

/// A device whose status is "suspended" is asleep, and no other is.
pub proof fn suspended_devices_are_asleep(status: Option<Seq<char>>)
    ensures
        gpu::state_with_status(status) == State::Asleep <==> status == Some("suspended"@),
        gpu::state_with_status(status) == State::Active <==> status != Some("suspended"@),
{
}

/// A card is called `card` and a number, and nothing else is a card.
pub proof fn cards_are_numbered(name: Seq<char>)
    ensures
        gpu::is_card_name(name) <==> exists|number: Seq<char>|
            number.len() > 0 && (forall|i: int|
                0 <= i < number.len() ==> '0' <= #[trigger] number[i] <= '9') && name == "card"@
                + number,
{
    reveal_strlit("card");
    let p = "card"@;
    if gpu::is_card_name(name) {
        let number = name.skip(4);
        assert forall|i: int| 0 <= i < number.len() implies '0' <= #[trigger] number[i] <= '9' by {
            assert(text::is_digit(number[i]));
        }
        assert(name == p + number);
    }
    if exists|number: Seq<char>|
        number.len() > 0 && (forall|i: int|
            0 <= i < number.len() ==> '0' <= #[trigger] number[i] <= '9') && name == "card"@
            + number {
        let number = choose|number: Seq<char>|
            number.len() > 0 && (forall|i: int|
                0 <= i < number.len() ==> '0' <= #[trigger] number[i] <= '9') && name == "card"@
                + number;
        assert(name.take(4) == p);
        assert(name.skip(4) == number);
    }
}

/// The file that is picked is the first reading of a preferred sensor or, where there is
/// none, the first reading.
pub proof fn preferred_sensors_are_picked(
    names: Seq<Seq<char>>,
    preferred: Seq<bool>,
    prefix: Seq<char>,
    suffix: Seq<char>,
)
    requires
        preferred.len() == names.len(),
    ensures
        ({
            let k = hwmon::pick(names, preferred, prefix, suffix) as int;
            let fits = |i: int|
                text::starts_with(names[i], prefix) && text::ends_with(names[i], suffix);
            &&& k <= names.len()
            &&& k < names.len() ==> fits(k)
            &&& k == names.len() ==> forall|i: int| 0 <= i < names.len() ==> !(#[trigger] fits(i))
            &&& k < names.len() && preferred[k] ==> forall|i: int|
                0 <= i < k && #[trigger] fits(i) ==> !preferred[i]
            &&& k < names.len() && !preferred[k] ==> forall|i: int|
                0 <= i < names.len() && #[trigger] fits(i) ==> !preferred[i] && k <= i
        }),
{
    let all = Seq::new(names.len(), |i: int| i);
    let p = |i: int| !hwmon::is_preferred(names, preferred, prefix, suffix, i);
    let q = hwmon::is_no_reading(prefix, suffix);
    let fits = |i: int| text::starts_with(names[i], prefix) && text::ends_with(names[i], suffix);
    let k = hwmon::pick(names, preferred, prefix, suffix) as int;
    text::lemma_span_holds(all, p);
    text::lemma_span_holds(names, q);
    let first = text::span(all, p) as int;
    if first < names.len() {
        assert(all[first] == first);
        assert(!p(all[first]));
        assert forall|i: int| 0 <= i < k && #[trigger] fits(i) implies !preferred[i] by {
            assert(p(all[i]));
        }
    } else {
        assert forall|i: int| 0 <= i < names.len() && #[trigger] fits(i) implies !preferred[i] && k
            <= i by {
            assert(p(all[i]));
            if i < k {
                assert(q(names[i]));
            }
        }
        if k == names.len() {
            assert forall|i: int| 0 <= i < names.len() implies !(#[trigger] fits(i)) by {
                assert(q(names[i]));
            }
        } else {
            assert(!q(names[k]));
        }
    }
}

/// A reading is looked for in an `_input` file before an `_average` file, of the sensors of
/// its kind, those with the labels of a whole card being preferred.
pub proof fn readings_have_their_files(cs: Seq<ChannelView>, sensor: Sensor)
    ensures
        ({
            let prefix = match sensor {
                Sensor::Temperature => "temp"@,
                Sensor::Power => "power"@,
                Sensor::Clock => "freq"@,
            };
            let labels = match sensor {
                Sensor::Temperature => seq!["edge"@, "junction"@],
                Sensor::Power => seq!["ppt"@, "power"@],
                Sensor::Clock => seq!["sclk"@],
            };
            let names = Seq::new(cs.len(), |i: int| cs[i].name);
            let preferred = Seq::new(
                cs.len(),
                |i: int|
                    labels.contains(
                        gpu::lowercase_text(
                            if cs[i].label is Some {
                                cs[i].label->0
                            } else {
                                seq![]
                            },
                        ),
                    ),
            );
            let input = hwmon::pick(names, preferred, prefix, "_input"@) as int;
            let average = hwmon::pick(names, preferred, prefix, "_average"@) as int;
            let files = hwmon::candidates(cs, sensor.prefix(), sensor.labels());
            &&& input < cs.len() && average < cs.len() ==> files == seq![names[input], names[average]]
            &&& input < cs.len() && average >= cs.len() ==> files == seq![names[input]]
            &&& input >= cs.len() && average < cs.len() ==> files == seq![names[average]]
            &&& input >= cs.len() && average >= cs.len() ==> files.len() == 0
        }),
{
    let labels = sensor.labels();
    let names = Seq::new(cs.len(), |i: int| cs[i].name);
    let preferred = Seq::new(
        cs.len(),
        |i: int|
            labels.contains(
                gpu::lowercase_text(
                    if cs[i].label is Some {
                        cs[i].label->0
                    } else {
                        seq![]
                    },
                ),
            ),
    );
    assert(hwmon::channel_names(cs) =~= names);
    assert(hwmon::labelled(cs, labels) =~= preferred);
}

} // verus!
