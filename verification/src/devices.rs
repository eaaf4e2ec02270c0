//! The sampler of graphics cards: which there are, and what is shown of each.

use crate::gpu;
use crate::gpu::{kind_of_vendor, Kind};
use crate::rank;
use crate::rank::{arranged, Ranked};
use crate::table::TextMap;
use crate::text;
use crate::text::{
    append, bounded_text, chars_of, comes_before, same_str, string_of, EXTERNAL_TEXT_LIMIT,
};
use vstd::prelude::*;

verus! {

/// The most graphics cards that are sampled.
pub const GPU_LIMIT: usize = 8;

/// Nanoseconds after which the cards are looked for again.
pub const GPU_RESCAN: u64 = 5_000_000_000;

/// A reading, as the bits of a double-precision number.
pub type Bits = u64;

/// Where the number with the bits `bits` stands in the total order of numbers: the
/// positive ones by their bits, and the negative ones before them, the other way round.
pub open spec fn order_of(bits: Bits) -> int {
    if bits < 0x8000_0000_0000_0000 {
        bits as int
    } else {
        -1 - (bits - 0x8000_0000_0000_0000)
    }
}

/// Where the number with the bits `bits` stands in the total order of numbers.
pub fn order_key(bits: Bits) -> (r: i128)
    ensures
        r == order_of(bits),
{
    if bits < 0x8000_0000_0000_0000 {
        bits as i128
    } else {
        -1 - (bits - 0x8000_0000_0000_0000) as i128
    }
}

/// What was read of a card; none where it could not be.
#[derive(Debug, Clone, Copy, PartialEq, Eq, Structural)]
pub struct Readings {
    pub util: Option<Bits>,
    pub mem_used: Option<Bits>,
    pub mem_total: Option<Bits>,
    pub temp: Option<Bits>,
    pub power: Option<Bits>,
    pub mhz: Option<Bits>,
    pub max_mhz: Option<Bits>,
    pub fan: Option<Bits>,
}

/// How much is known of a card this tick.
#[derive(Debug, Clone, Copy, PartialEq, Eq, Structural)]
pub enum Details {
    /// Nothing yet.
    Waiting,
    /// It is asleep; its memory is what it last said.
    Asleep(Option<Bits>),
    /// What was read of it.
    Live(Readings),
}

/// What is shown of a card.
#[derive(Debug)]
pub struct GpuRecord {
    pub id: String,
    pub name: String,
    pub vendor: String,
    pub details: Details,
}

/// The model of a [`GpuRecord`].
#[verifier::ext_equal]
pub struct GpuRecordView {
    pub id: Seq<char>,
    pub name: Seq<char>,
    pub vendor: Seq<char>,
    pub details: Details,
}

impl View for GpuRecord {
    type V = GpuRecordView;

    open spec fn view(&self) -> GpuRecordView {
        GpuRecordView {
            id: self.id@,
            name: self.name@,
            vendor: self.vendor@,
            details: self.details,
        }
    }
}

/// The memory that `details` tell of.
pub open spec fn mem_total(details: Details) -> Option<Bits> {
    match details {
        Details::Waiting => None,
        Details::Asleep(total) => total,
        Details::Live(readings) => readings.mem_total,
    }
}

/// The memory that `details` tell of.
pub fn memory_of(details: &Details) -> (r: Option<Bits>)
    ensures
        r == mem_total(*details),
{
    match details {
        Details::Waiting => None,
        Details::Asleep(total) => *total,
        Details::Live(readings) => readings.mem_total,
    }
}

/// Where a card stands by its memory; one that tells of none stands with those that
/// have zero.
pub open spec fn mem_order(r: GpuRecordView) -> int {
    match mem_total(r.details) {
        Some(bits) => order_of(bits),
        None => order_of(0),
    }
}

impl Ranked for GpuRecord {
    open spec fn before(a: GpuRecordView, b: GpuRecordView) -> bool {
        mem_order(a) > mem_order(b)
    }

    proof fn before_is_strict(a: GpuRecordView, b: GpuRecordView) {
    }

    proof fn before_is_weak(a: GpuRecordView, b: GpuRecordView, c: GpuRecordView) {
    }

    fn goes_before(&self, other: &Self) -> (r: bool) {
        let a: i128 = match memory_of(&self.details) {
            Some(bits) => order_key(bits),
            None => order_key(0),
        };
        let b: i128 = match memory_of(&other.details) {
            Some(bits) => order_key(bits),
            None => order_key(0),
        };
        a > b
    }
}

/// A card.
#[derive(Debug)]
pub struct Device {
    pub kind: Kind,
    /// Its directory in sysfs.
    pub card: String,
    /// The directory of its sensors.
    pub hwmon: Option<String>,
    pub name: String,
    /// Its PCI slot.
    pub id: String,
    /// The memory that it last told of.
    pub mem_total: Option<Bits>,
}

/// The model of a [`Device`].
#[verifier::ext_equal]
pub struct DeviceView {
    pub kind: Kind,
    pub card: Seq<char>,
    pub hwmon: Option<Seq<char>>,
    pub name: Seq<char>,
    pub id: Seq<char>,
    pub mem_total: Option<Bits>,
}

impl View for Device {
    type V = DeviceView;

    open spec fn view(&self) -> DeviceView {
        DeviceView {
            kind: self.kind,
            card: self.card@,
            hwmon: text::viewed(self.hwmon),
            name: self.name@,
            id: self.id@,
            mem_total: self.mem_total,
        }
    }
}

/// What a card is called: by its name or, where it has none, by its maker's.
pub open spec fn device_label(d: DeviceView) -> Seq<char> {
    if d.name.len() == 0 {
        d.kind.fallback_text()
    } else {
        d.name
    }
}

impl Device {
    /// What the card is called.
    pub fn label(&self) -> (r: &str)
        ensures
            r@ == device_label(self@),
    {
        if self.name.as_str().is_empty() {
            self.kind.fallback_name()
        } else {
            self.name.as_str()
        }
    }
}

/// What a look at `/sys/class/drm` finds of one card.
#[derive(Debug)]
pub struct CardScan {
    /// Its directory.
    pub device: String,
    /// Its PCI slot.
    pub id: String,
    /// What its `vendor` file holds.
    pub vendor: Option<String>,
    /// The entries of its `hwmon` directory.
    pub hwmon: Vec<String>,
    /// The name that `lspci` gives it.
    pub name: String,
}

/// The model of a [`CardScan`].
pub struct CardScanView {
    pub device: Seq<char>,
    pub id: Seq<char>,
    pub vendor: Option<Seq<char>>,
    pub hwmon: Seq<Seq<char>>,
    pub name: Seq<char>,
}

impl View for CardScan {
    type V = CardScanView;

    open spec fn view(&self) -> CardScanView {
        CardScanView {
            device: self.device@,
            id: self.id@,
            vendor: text::viewed(self.vendor),
            hwmon: text::strings(self.hwmon@),
            name: self.name@,
        }
    }
}

/// Every device with another id.
pub open spec fn has_other_id(id: Seq<char>) -> spec_fn(DeviceView) -> bool {
    |d: DeviceView| d.id != id
}

/// The memory that the device `id` was known to have.
pub open spec fn remembered(previous: Seq<DeviceView>, id: Seq<char>) -> Option<Bits> {
    let i = text::span(previous, has_other_id(id)) as int;
    if i < previous.len() {
        previous[i].mem_total
    } else {
        None
    }
}

/// The maker of the card that was found.
pub open spec fn scanned_kind(c: CardScanView) -> Option<Kind> {
    gpu::kind_with_number(gpu::lowercase_text(gpu::vendor_number(c.vendor)))
}

/// The device that a card of a known maker is.
pub open spec fn device_from(previous: Seq<DeviceView>, c: CardScanView, kind: Kind) -> DeviceView {
    DeviceView {
        kind,
        card: c.device,
        hwmon: if c.hwmon.len() > 0 {
            Some(c.device + "/hwmon/"@ + c.hwmon[0])
        } else {
            None
        },
        name: text::bounded(c.name, EXTERNAL_TEXT_LIMIT as int),
        id: c.id,
        mem_total: remembered(previous, c.id),
    }
}

/// The devices that the cards `cs` are, of makers `kinds`: those whose maker is known,
/// a few at most.
pub open spec fn devices_from(
    previous: Seq<DeviceView>,
    cs: Seq<CardScanView>,
    kinds: Seq<Option<Kind>>,
) -> Seq<DeviceView>
    decreases cs.len(),
{
    if cs.len() == 0 {
        seq![]
    } else {
        let before = devices_from(previous, cs.drop_last(), kinds);
        match kinds[cs.len() - 1] {
            Some(kind) => if before.len() < GPU_LIMIT {
                before.push(device_from(previous, cs.last(), kind))
            } else {
                before
            },
            None => before,
        }
    }
}

/// The makers of the cards `cs`.
pub open spec fn scanned_kinds(cs: Seq<CardScanView>) -> Seq<Option<Kind>> {
    cs.map_values(|c: CardScanView| scanned_kind(c))
}

/// Whether one of `ds` is of the maker NVIDIA.
pub open spec fn any_nvidia(ds: Seq<DeviceView>) -> bool {
    exists|i: int| 0 <= i < ds.len() && (#[trigger] ds[i]).kind == Kind::Nvidia
}

/// What is to be done about `nvidia-smi` when the cards have changed. It enumerates its
/// GPUs when it starts, so it restarts with them.
#[derive(Debug, Clone, Copy, PartialEq, Eq, Structural)]
pub struct NvidiaPlan {
    /// Stop it, and forget what it said.
    pub stop: bool,
    /// Start it.
    pub start: bool,
}

/// Every device of another maker than NVIDIA.
pub open spec fn is_not_nvidia() -> spec_fn(DeviceView) -> bool {
    |d: DeviceView| d.kind != Kind::Nvidia
}

/// The text of a slot, in the order of texts.
pub struct SlotName {
    slot: String,
}

impl View for SlotName {
    type V = Seq<char>;

    closed spec fn view(&self) -> Seq<char> {
        self.slot@
    }
}

impl Ranked for SlotName {
    open spec fn before(a: Seq<char>, b: Seq<char>) -> bool {
        text::less(a, b)
    }

    proof fn before_is_strict(a: Seq<char>, b: Seq<char>) {
        text::lemma_less_strict(a, b);
    }

    proof fn before_is_weak(a: Seq<char>, b: Seq<char>, c: Seq<char>) {
        text::lemma_less_weak(a, b, c);
    }

    fn goes_before(&self, other: &Self) -> (r: bool) {
        comes_before(self.slot.as_str(), other.slot.as_str())
    }
}

/// What a card answered this tick.
#[derive(Debug, Clone, Copy, PartialEq, Eq, Structural)]
pub enum Answer {
    /// It is gone.
    Gone,
    /// It is asleep, and was not asked.
    Asleep,
    /// What was read of it; of one by NVIDIA that does not count, but what `nvidia-smi`
    /// says.
    Active(Readings),
}

/// What `nvidia-smi` last said, by slot.
pub type Latest = TextMap<GpuRecord>;

/// What is shown of the card `d`, with these details.
pub open spec fn record(d: DeviceView, details: Details) -> GpuRecordView {
    GpuRecordView { id: d.id, name: device_label(d), vendor: d.kind.vendor_text(), details }
}

/// What is shown of the card `d`, which is awake: of one by NVIDIA, what `nvidia-smi`
/// last said. No other card tells of its fan.
pub open spec fn device_sample(
    latest: Map<Seq<char>, GpuRecord>,
    d: DeviceView,
    readings: Readings,
) -> GpuRecordView {
    if d.kind != Kind::Nvidia {
        record(d, Details::Live(Readings { fan: None, ..readings }))
    } else if latest.contains_key(d.id) {
        latest[d.id]@
    } else {
        record(d, Details::Waiting)
    }
}

/// What is shown of the card `d` that gave the answer `a`; nothing of one that is gone.
pub open spec fn shown(
    latest: Map<Seq<char>, GpuRecord>,
    d: DeviceView,
    a: Answer,
) -> Option<GpuRecordView> {
    match a {
        Answer::Gone => None,
        Answer::Asleep => Some(record(d, Details::Asleep(d.mem_total))),
        Answer::Active(readings) => Some(device_sample(latest, d, readings)),
    }
}

/// The card `d` after the answer `a`: one that told of its memory is remembered by it.
pub open spec fn after_answer(
    latest: Map<Seq<char>, GpuRecord>,
    d: DeviceView,
    a: Answer,
) -> DeviceView {
    match a {
        Answer::Active(readings) => match mem_total(device_sample(latest, d, readings).details) {
            Some(total) => DeviceView { mem_total: Some(total), ..d },
            None => d,
        },
        _ => d,
    }
}

/// What is shown of the cards `ds` that gave the answers `answers`.
pub open spec fn all_shown(
    latest: Map<Seq<char>, GpuRecord>,
    ds: Seq<DeviceView>,
    answers: Seq<Answer>,
) -> Seq<GpuRecordView>
    decreases ds.len(),
{
    if ds.len() == 0 {
        seq![]
    } else {
        let n = ds.len() - 1;
        match shown(latest, ds[n], answers[n]) {
            Some(r) => all_shown(latest, ds.drop_last(), answers).push(r),
            None => all_shown(latest, ds.drop_last(), answers),
        }
    }
}

/// The cards `ds` after the answers `answers`.
pub open spec fn after_answers(
    latest: Map<Seq<char>, GpuRecord>,
    ds: Seq<DeviceView>,
    answers: Seq<Answer>,
) -> Seq<DeviceView> {
    Seq::new(ds.len(), |i: int| after_answer(latest, ds[i], answers[i]))
}

impl GpuRecord {
    /// The same record once more.
    fn duplicate(&self) -> (r: GpuRecord)
        ensures
            r@ == self@,
    {
        GpuRecord {
            id: self.id.clone(),
            name: self.name.clone(),
            vendor: self.vendor.clone(),
            details: self.details,
        }
    }
}

/// What a line of `nvidia-smi` shows of the card with the slot `id`, its numbers read.
pub fn nvidia_record(id: String, name: String, readings: Readings) -> (r: GpuRecord)
    ensures
        r@ == (GpuRecordView {
            id: id@,
            name: name@,
            vendor: Kind::Nvidia.vendor_text(),
            details: Details::Live(readings),
        }),
{
    GpuRecord {
        id,
        name,
        vendor: Kind::Nvidia.vendor().to_owned(),
        details: Details::Live(readings),
    }
}

impl Device {
    /// What is shown of the card, with these details.
    fn record(&self, details: Details) -> (r: GpuRecord)
        ensures
            r@ == record(self@, details),
    {
        GpuRecord {
            id: self.id.clone(),
            name: self.label().to_owned(),
            vendor: self.kind.vendor().to_owned(),
            details,
        }
    }

    /// What is shown of the card, which is awake.
    pub fn sample(&self, latest: &Latest, readings: Readings) -> (r: GpuRecord)
        ensures
            r@ == device_sample(latest@, self@, readings),
    {
        if self.kind != Kind::Nvidia {
            self.record(Details::Live(Readings { fan: None, ..readings }))
        } else {
            match latest.get(self.id.as_str()) {
                Some(said) => said.duplicate(),
                None => self.record(Details::Waiting),
            }
        }
    }
}

/// The memory that the device `id` was known to have.
fn recall(previous: &Vec<Device>, id: &str) -> (r: Option<Bits>)
    ensures
        r == remembered(rank::views(previous@), id@),
{
    let ghost ps = rank::views(previous@);
    let mut i: usize = 0;
    while i < previous.len()
        invariant
            i <= previous@.len(),
            ps == rank::views(previous@),
            forall|k: int| 0 <= k < i ==> has_other_id(id@)(#[trigger] ps[k]),
        decreases previous.len() - i,
    {
        assert(ps[i as int] == previous@[i as int]@);
        if same_str(previous[i].id.as_str(), id) {
            proof {
                text::lemma_span(ps, has_other_id(id@), i as int);
            }
            return previous[i].mem_total;
        }
        i = i + 1;
    }
    proof {
        text::lemma_span(ps, has_other_id(id@), i as int);
    }
    None
}

/// The device that a card of a known maker is.
fn device_of(previous: &Vec<Device>, card: CardScan, kind: Kind) -> (r: Device)
    ensures
        r@ == device_from(rank::views(previous@), card@, kind),
{
    let hwmon: Option<String> = if card.hwmon.len() > 0 {
        assert(card@.hwmon[0] == card.hwmon@[0]@);
        let mut path: Vec<char> = chars_of(card.device.as_str());
        append(&mut path, chars_of("/hwmon/").as_slice());
        append(&mut path, chars_of(card.hwmon[0].as_str()).as_slice());
        Some(string_of(path.as_slice()))
    } else {
        None
    };
    let mem_total: Option<Bits> = recall(previous, card.id.as_str());
    Device {
        kind,
        card: card.device,
        hwmon,
        name: bounded_text(chars_of(card.name.as_str()).as_slice(), EXTERNAL_TEXT_LIMIT),
        id: card.id,
        mem_total,
    }
}

/// The devices that the cards are, of makers `kinds`: those whose maker is known, a few
/// at most. What is known of a card's memory is carried over from `previous`.
pub fn recognize(
    previous: &Vec<Device>,
    cards: Vec<CardScan>,
    kinds: &Vec<Option<Kind>>,
) -> (r: Vec<Device>)
    requires
        kinds@.len() == cards@.len(),
    ensures
        rank::views(r@) == devices_from(
            rank::views(previous@),
            rank::views(cards@),
            kinds@,
        ),
{
    let ghost ps = rank::views(previous@);
    let ghost cs = rank::views(cards@);
    let ghost all = cards@;
    let mut out: Vec<Device> = Vec::new();
    let mut n: usize = 0;
    assert(kinds.len() == all.len());
    assert(rank::views(out@) == devices_from(ps, cs.take(0), kinds@));
    for card in it: cards
        invariant
            it.seq() == all,
            n == it.index(),
            kinds.len() == all.len(),
            ps == rank::views(previous@),
            cs == rank::views(all),
            rank::views(out@) == devices_from(ps, cs.take(it.index()), kinds@),
    {
        proof {
            assert(cs[n as int] == card@);
            assert(cs.take(n + 1).drop_last() == cs.take(n as int));
            assert(cs.take(n + 1).last() == card@);
        }
        assert(rank::views(out@).len() == out@.len());
        if let Some(kind) = kinds[n] {
            if out.len() < GPU_LIMIT {
                let ghost before = out@;
                let device: Device = device_of(previous, card, kind);
                let ghost added = device@;
                out.push(device);
                assert(rank::views(out@) == rank::views(before).push(added));
            }
        }
        n = n + 1;
    }
    assert(cs.take(cs.len() as int) == cs);
    out
}

/// The makers of the cards.
fn kinds_of(cards: &Vec<CardScan>) -> (r: Vec<Option<Kind>>)
    ensures
        r@ == scanned_kinds(rank::views(cards@)),
{
    let ghost cs = rank::views(cards@);
    let mut out: Vec<Option<Kind>> = Vec::new();
    let mut i: usize = 0;
    while i < cards.len()
        invariant
            i <= cards@.len(),
            cs == rank::views(cards@),
            out@ == scanned_kinds(cs).take(i as int),
        decreases cards.len() - i,
    {
        assert(cs[i as int] == cards@[i as int]@);
        let vendor: Option<&str> = match &cards[i].vendor {
            Some(v) => Some(v.as_str()),
            None => None,
        };
        out.push(kind_of_vendor(vendor));
        i = i + 1;
        assert(out@ == scanned_kinds(cs).take(i as int));
    }
    assert(scanned_kinds(cs).take(i as int) == scanned_kinds(cs));
    out
}

/// Whether one of `devices` is of the maker NVIDIA.
fn has_nvidia(devices: &Vec<Device>) -> (r: bool)
    ensures
        r == any_nvidia(rank::views(devices@)),
{
    let ghost ds = rank::views(devices@);
    let mut i: usize = 0;
    while i < devices.len()
        invariant
            i <= devices@.len(),
            ds == rank::views(devices@),
            forall|k: int| 0 <= k < i ==> (#[trigger] ds[k]).kind != Kind::Nvidia,
        decreases devices.len() - i,
    {
        assert(ds[i as int] == devices@[i as int]@);
        if devices[i].kind == Kind::Nvidia {
            return true;
        }
        i = i + 1;
    }
    false
}

/// Slots in the order of texts.
pub open spec fn sorted_slots(slots: Seq<Seq<char>>) -> Seq<Seq<char>> {
    rank::arrange::<SlotName>(slots)
}

/// `slots` in the order of texts.
fn sort_slots(slots: Vec<String>) -> (r: Vec<String>)
    ensures
        text::strings(r@) == sorted_slots(text::strings(slots@)),
{
    let ghost ss = text::strings(slots@);
    let ghost all = slots@;
    let mut names: Vec<SlotName> = Vec::new();
    assert(rank::views(names@) == ss.take(0));
    for slot in it: slots
        invariant
            it.seq() == all,
            ss == text::strings(all),
            rank::views(names@) == ss.take(it.index()),
    {
        let ghost before = names@;
        let name: SlotName = SlotName { slot };
        let ghost added = name@;
        assert(ss[it.index()] == added);
        names.push(name);
        assert(rank::views(names@) == rank::views(before).push(added));
        assert(ss.take(it.index() + 1) == ss.take(it.index()).push(added));
    }
    assert(ss.take(ss.len() as int) == ss);
    let names: Vec<SlotName> = arranged(names);
    let ghost sorted = names@;
    let mut out: Vec<String> = Vec::new();
    for name in it: names
        invariant
            it.seq() == sorted,
            out@.len() == it.index(),
            forall|k: int| 0 <= k < it.index() ==> (#[trigger] out@[k])@ == sorted[k]@,
    {
        out.push(name.slot);
    }
    assert(text::strings(out@) == rank::views(sorted));
    out
}

/// Whether `a` and `b` hold the same texts.
fn same_texts(a: &Vec<String>, b: &Vec<String>) -> (r: bool)
    ensures
        r == (text::strings(a@) == text::strings(b@)),
{
    let ghost xs = text::strings(a@);
    let ghost ys = text::strings(b@);
    if a.len() != b.len() {
        assert(xs.len() != ys.len());
        return false;
    }
    let mut i: usize = 0;
    while i < a.len()
        invariant
            i <= a@.len(),
            a@.len() == b@.len(),
            xs == text::strings(a@),
            ys == text::strings(b@),
            forall|k: int| 0 <= k < i ==> #[trigger] xs[k] == ys[k],
        decreases a.len() - i,
    {
        assert(xs[i as int] == a@[i as int]@ && ys[i as int] == b@[i as int]@);
        if !same_str(a[i].as_str(), b[i].as_str()) {
            return false;
        }
        i = i + 1;
    }
    assert(xs == ys);
    true
}

/// The sampler of graphics cards.
#[derive(Debug)]
pub struct GpuSampler {
    devices: Vec<Device>,
    /// PCI slots of every DRM card at the last scan; a change means hotplug.
    signature: Vec<String>,
    last_scan: Option<u64>,
    /// Whether `nvidia-smi` runs.
    streaming: bool,
}

/// The model of a [`GpuSampler`].
#[verifier::ext_equal]
pub struct GpuSamplerView {
    pub devices: Seq<DeviceView>,
    pub signature: Seq<Seq<char>>,
    /// When the cards were last looked for, in nanoseconds.
    pub last_scan: Option<u64>,
    pub streaming: bool,
}

impl View for GpuSampler {
    type V = GpuSamplerView;

    closed spec fn view(&self) -> GpuSamplerView {
        GpuSamplerView {
            devices: rank::views(self.devices@),
            signature: text::strings(self.signature@),
            last_scan: self.last_scan,
            streaming: self.streaming,
        }
    }
}

/// Whether it is time to look for cards, `now` being the time in nanoseconds: when that
/// was not done yet, or some seconds ago.
pub open spec fn is_scan_due(last_scan: Option<u64>, now: u64) -> bool {
    match last_scan {
        Some(at) => now - at >= GPU_RESCAN,
        None => true,
    }
}

/// The sampler `s` after a look for cards that found `slots`.
pub open spec fn refreshed(s: GpuSamplerView, now: u64, slots: Seq<Seq<char>>) -> GpuSamplerView {
    GpuSamplerView { last_scan: Some(now), signature: sorted_slots(slots), ..s }
}

/// The sampler `s` with the cards `cs` in place of the ones before.
pub open spec fn detected(s: GpuSamplerView, cs: Seq<CardScanView>) -> GpuSamplerView {
    GpuSamplerView { devices: devices_from(s.devices, cs, scanned_kinds(cs)), ..s }
}

/// The sampler `s` without the cards that only `nvidia-smi` tells of.
pub open spec fn without_nvidia(s: GpuSamplerView) -> GpuSamplerView {
    GpuSamplerView { devices: s.devices.filter(is_not_nvidia()), ..s }
}

/// The sampler `s` after a sample in which its cards gave the answers `answers`.
pub open spec fn sampled(
    s: GpuSamplerView,
    latest: Map<Seq<char>, GpuRecord>,
    answers: Seq<Answer>,
) -> GpuSamplerView {
    GpuSamplerView {
        devices: after_answers(latest, s.devices, answers),
        last_scan: if answers.contains(Answer::Gone) {
            None
        } else {
            s.last_scan
        },
        ..s
    }
}

impl GpuSampler {
    /// A sampler that has not looked for cards yet.
    pub fn new() -> (r: Self)
        ensures
            r@ == (GpuSamplerView {
                devices: seq![],
                signature: seq![],
                last_scan: None,
                streaming: false,
            }),
    {
        let r = GpuSampler {
            devices: Vec::new(),
            signature: Vec::new(),
            last_scan: None,
            streaming: false,
        };
        assert(r@.devices == Seq::<DeviceView>::empty());
        assert(r@.signature == Seq::<Seq<char>>::empty());
        r
    }

    /// The cards.
    pub fn devices(&self) -> (r: &Vec<Device>)
        ensures
            rank::views(r@) == self@.devices,
    {
        &self.devices
    }

    /// Whether it is time to look for cards.
    pub fn scan_due(&self, now: u64) -> (r: bool)
        ensures
            r == is_scan_due(self@.last_scan, now),
    {
        match self.last_scan {
            Some(at) => now >= at && now - at >= GPU_RESCAN,
            None => true,
        }
    }

    /// Takes note of the slots that a look for cards found, and says whether the cards
    /// must be detected again: when other cards are there than before, as when an eGPU
    /// came or went, or when one of the devices is gone.
    pub fn refresh(&mut self, now: u64, slots: Vec<String>, gone: bool) -> (r: bool)
        ensures
            r == (sorted_slots(text::strings(slots@)) != old(self)@.signature || gone),
            final(self)@ == refreshed(old(self)@, now, text::strings(slots@)),
    {
        let found: Vec<String> = sort_slots(slots);
        let changed: bool = !same_texts(&found, &self.signature);
        self.last_scan = Some(now);
        self.signature = found;
        changed || gone
    }

    /// Takes the cards that were found in place of the ones before, and says what is to
    /// be done about `nvidia-smi`.
    pub fn detect(&mut self, cards: Vec<CardScan>) -> (r: NvidiaPlan)
        ensures
            final(self)@ == detected(old(self)@, rank::views(cards@)),
            r.stop == (any_nvidia(old(self)@.devices) || any_nvidia(final(self)@.devices)),
            r.start == any_nvidia(final(self)@.devices),
    {
        let had_nvidia: bool = has_nvidia(&self.devices);
        let kinds: Vec<Option<Kind>> = kinds_of(&cards);
        self.devices = recognize(&self.devices, cards, &kinds);
        let nvidia: bool = has_nvidia(&self.devices);
        NvidiaPlan { stop: had_nvidia || nvidia, start: nvidia }
    }

    /// `nvidia-smi` runs now.
    pub fn started(&mut self)
        ensures
            final(self)@ == (GpuSamplerView { streaming: true, ..old(self)@ }),
    {
        self.streaming = true;
    }

    /// `nvidia-smi` cannot be run: the cards that only it tells of are dropped.
    pub fn drop_nvidia(&mut self)
        ensures
            final(self)@ == without_nvidia(old(self)@),
    {
        let mut devices: Vec<Device> = Vec::new();
        std::mem::swap(&mut devices, &mut self.devices);
        let ghost all = devices@;
        let ghost ds = rank::views(all);
        let mut out: Vec<Device> = Vec::new();
        proof {
            reveal(Seq::filter);
            assert(rank::views(out@) == ds.take(0).filter(is_not_nvidia()));
        }
        for device in it: devices
            invariant
                it.seq() == all,
                ds == rank::views(all),
                rank::views(out@) == ds.take(it.index()).filter(is_not_nvidia()),
        {
            let ghost n = it.index();
            let ghost before = out@;
            let ghost kept = device@;
            proof {
                reveal(Seq::filter);
                assert(ds[n] == kept);
                assert(ds.take(n + 1).drop_last() == ds.take(n));
                assert(ds.take(n + 1).last() == kept);
            }
            if device.kind != Kind::Nvidia {
                out.push(device);
                assert(rank::views(out@) == rank::views(before).push(kept));
            }
        }
        assert(ds.take(ds.len() as int) == ds);
        self.devices = out;
    }

    /// Every GPU, the one with the most memory first: that one is the default readout.
    /// `answers` are those of the devices, in their order. Where one is gone, it is time
    /// to look for cards again.
    pub fn sample(&mut self, latest: &Latest, answers: &Vec<Answer>) -> (r: Vec<GpuRecord>)
        requires
            answers@.len() == old(self)@.devices.len(),
        ensures
            rank::views(r@) == rank::arrange::<GpuRecord>(
                all_shown(latest@, old(self)@.devices, answers@),
            ),
            final(self)@ == sampled(old(self)@, latest@, answers@),
    {
        let ghost ds = self@.devices;
        let mut devices: Vec<Device> = Vec::new();
        std::mem::swap(&mut devices, &mut self.devices);
        let ghost all = devices@;
        let mut last_scan: Option<u64> = self.last_scan;
        let ghost scanned = last_scan;
        let mut out: Vec<GpuRecord> = Vec::new();
        let mut kept: Vec<Device> = Vec::new();
        let mut n: usize = 0;
        assert(answers.len() == ds.len());
        assert(rank::views(out@) == all_shown(latest@, ds.take(0), answers@));
        for device in it: devices
            invariant
                it.seq() == all,
                n == it.index(),
                ds == rank::views(all),
                answers.len() == ds.len(),
                kept@.len() == n,
                forall|k: int|
                    0 <= k < n ==> (#[trigger] kept@[k])@ == after_answer(
                        latest@,
                        ds[k],
                        answers@[k],
                    ),
                rank::views(out@) == all_shown(latest@, ds.take(n as int), answers@),
                last_scan == (if answers@.take(n as int).contains(Answer::Gone) {
                    None
                } else {
                    scanned
                }),
        {
            let ghost before = out@;
            let ghost d = device@;
            let mut device: Device = device;
            proof {
                assert(ds[n as int] == d);
                assert(ds.take(n + 1).drop_last() == ds.take(n as int));
                assert(ds.take(n + 1).last() == d);
                assert(answers@.take(n + 1) == answers@.take(n as int).push(answers@[n as int]));
                vstd::seq_lib::lemma_seq_contains_after_push(
                    answers@.take(n as int),
                    answers@[n as int],
                    Answer::Gone,
                );
            }
            match answers[n] {
                Answer::Gone => {
                    last_scan = None;
                },
                Answer::Asleep => {
                    let r: GpuRecord = device.record(Details::Asleep(device.mem_total));
                    let ghost added = r@;
                    out.push(r);
                    assert(rank::views(out@) == rank::views(before).push(added));
                },
                Answer::Active(readings) => {
                    let r: GpuRecord = device.sample(latest, readings);
                    let ghost added = r@;
                    if let Some(total) = memory_of(&r.details) {
                        device.mem_total = Some(total);
                    }
                    out.push(r);
                    assert(rank::views(out@) == rank::views(before).push(added));
                },
            }
            assert(device@ == after_answer(latest@, d, answers@[n as int]));
            kept.push(device);
            n = n + 1;
        }
        proof {
            assert(ds.take(ds.len() as int) == ds);
            assert(answers@.take(n as int) == answers@);
            assert(rank::views(kept@) == after_answers(latest@, ds, answers@));
        }
        self.devices = kept;
        self.last_scan = last_scan;
        arranged(out)
    }

    /// `nvidia-smi` is to run no more. Says whether it ran.
    pub fn stop(&mut self) -> (r: bool)
        ensures
            r == old(self)@.streaming,
            final(self)@ == (GpuSamplerView { streaming: false, ..old(self)@ }),
    {
        let ran: bool = self.streaming;
        self.streaming = false;
        ran
    }
}

/// The first card that is shown has at least as much memory as any other, and none is
/// shown that was not there.
pub proof fn most_memory_comes_first(
    latest: Map<Seq<char>, GpuRecord>,
    ds: Seq<DeviceView>,
    answers: Seq<Answer>,
)
    ensures
        ({
            let seen = all_shown(latest, ds, answers);
            let out = rank::arrange::<GpuRecord>(seen);
            &&& out.len() == seen.len()
            &&& forall|i: int| 0 <= i < out.len() ==> mem_order(out[0]) >= mem_order(#[trigger] out[i])
            &&& forall|i: int| 0 <= i < out.len() ==> seen.contains(#[trigger] out[i])
        }),
{
    let seen = all_shown(latest, ds, answers);
    let out = rank::arrange::<GpuRecord>(seen);
    rank::arrangement_keeps_items::<GpuRecord>(seen);
    rank::arrangement_is_in_order::<GpuRecord>(seen);
    assert forall|i: int| 0 <= i < out.len() implies mem_order(out[0]) >= mem_order(
        #[trigger] out[i],
    ) by {
        if i > 0 {
            assert(!GpuRecord::before(out[i], out[0]));
        }
    }
    assert forall|i: int| 0 <= i < out.len() implies seen.contains(#[trigger] out[i]) by {
        rank::lemma_arranged_came_in::<GpuRecord>(seen, i);
    }
}

/// Every card is shown but those that are gone.
pub proof fn every_card_is_shown(
    latest: Map<Seq<char>, GpuRecord>,
    ds: Seq<DeviceView>,
    answers: Seq<Answer>,
)
    requires
        answers.len() == ds.len(),
    ensures
        all_shown(latest, ds, answers).len() <= ds.len(),
        !answers.contains(Answer::Gone) ==> all_shown(latest, ds, answers) == Seq::new(
            ds.len(),
            |i: int| shown(latest, ds[i], answers[i])->0,
        ),
{
    lemma_shown(latest, ds, answers, ds.len() as int);
    assert(ds.take(ds.len() as int) == ds);
}

proof fn lemma_shown(
    latest: Map<Seq<char>, GpuRecord>,
    ds: Seq<DeviceView>,
    answers: Seq<Answer>,
    n: int,
)
    requires
        answers.len() == ds.len(),
        0 <= n <= ds.len(),
    ensures
        all_shown(latest, ds.take(n), answers).len() <= n,
        !answers.contains(Answer::Gone) ==> all_shown(latest, ds.take(n), answers) == Seq::new(
            n as nat,
            |i: int| shown(latest, ds[i], answers[i])->0,
        ),
    decreases n,
{
    if n > 0 {
        lemma_shown(latest, ds, answers, n - 1);
        assert(ds.take(n).drop_last() == ds.take(n - 1));
        assert(answers.contains(answers[n - 1]));
        if !answers.contains(Answer::Gone) {
            assert(all_shown(latest, ds.take(n), answers) == Seq::new(
                n as nat,
                |i: int| shown(latest, ds[i], answers[i])->0,
            ));
        }
    }
}

/// A call on a sampler.
pub enum Step {
    /// It sampled its cards.
    Sampled(Map<Seq<char>, GpuRecord>, Seq<Answer>),
    /// It took note of the slots that were found.
    Refreshed(u64, Seq<Seq<char>>),
    /// It took the cards that were found.
    Detected(Seq<CardScanView>),
    /// It dropped the cards that only `nvidia-smi` tells of.
    DroppedNvidia,
    /// `nvidia-smi` was started, or stopped.
    Streams(bool),
}

/// The sampler `s` after `step`.
pub open spec fn stepped(s: GpuSamplerView, step: Step) -> GpuSamplerView {
    match step {
        Step::Sampled(latest, answers) => sampled(s, latest, answers),
        Step::Refreshed(now, slots) => refreshed(s, now, slots),
        Step::Detected(cs) => detected(s, cs),
        Step::DroppedNvidia => without_nvidia(s),
        Step::Streams(streaming) => GpuSamplerView { streaming, ..s },
    }
}

/// The sampler `s` after the steps `steps`.
pub open spec fn after_steps(s: GpuSamplerView, steps: Seq<Step>) -> GpuSamplerView
    decreases steps.len(),
{
    if steps.len() == 0 {
        s
    } else {
        stepped(after_steps(s, steps.drop_last()), steps.last())
    }
}

/// Whether one of `ds`, and only one, has the slot `id`.
pub open spec fn has_one(ds: Seq<DeviceView>, id: Seq<char>) -> bool {
    &&& exists|i: int| 0 <= i < ds.len() && (#[trigger] ds[i]).id == id
    &&& forall|i: int, j: int|
        0 <= i < ds.len() && 0 <= j < ds.len() && (#[trigger] ds[i]).id == id && (
        #[trigger] ds[j]).id == id ==> i == j
}

/// The memory that the card `d` tells of with the answer `a`.
pub open spec fn told_memory(
    latest: Map<Seq<char>, GpuRecord>,
    d: DeviceView,
    a: Answer,
) -> Option<Bits> {
    match a {
        Answer::Active(readings) => mem_total(device_sample(latest, d, readings).details),
        _ => None,
    }
}

/// Whether `step` leaves the card with the slot `id` among the devices of `s`, and that
/// card tells of no memory in it.
pub open spec fn leaves_alone(s: GpuSamplerView, step: Step, id: Seq<char>) -> bool {
    &&& has_one(stepped(s, step).devices, id)
    &&& step matches Step::Sampled(latest, answers) ==> answers.len() == s.devices.len()
        && forall|i: int|
        0 <= i < s.devices.len() && (#[trigger] s.devices[i]).id == id ==> told_memory(
            latest,
            s.devices[i],
            answers[i],
        ) is None
}

/// Whether each of `steps`, from `s` on, does so.
pub open spec fn all_leave_alone(s: GpuSamplerView, steps: Seq<Step>, id: Seq<char>) -> bool
    decreases steps.len(),
{
    steps.len() > 0 ==> {
        &&& all_leave_alone(s, steps.drop_last(), id)
        &&& leaves_alone(after_steps(s, steps.drop_last()), steps.last(), id)
    }
}

/// The only card of a slot is what is remembered of it.
proof fn lemma_remembered(ds: Seq<DeviceView>, id: Seq<char>, i: int)
    requires
        has_one(ds, id),
        0 <= i < ds.len(),
        ds[i].id == id,
    ensures
        remembered(ds, id) == ds[i].mem_total,
{
    assert forall|k: int| 0 <= k < i implies has_other_id(id)(#[trigger] ds[k]) by {
        if ds[k].id == id {
            assert(k == i);
        }
    }
    text::lemma_span(ds, has_other_id(id), i);
}

/// What is known of the memory of the cards that are found is what was remembered.
proof fn lemma_found_remembered(
    previous: Seq<DeviceView>,
    cs: Seq<CardScanView>,
    kinds: Seq<Option<Kind>>,
    i: int,
)
    requires
        0 <= i < devices_from(previous, cs, kinds).len(),
    ensures
        ({
            let d = devices_from(previous, cs, kinds)[i];
            d.mem_total == remembered(previous, d.id)
        }),
    decreases cs.len(),
{
    let before = devices_from(previous, cs.drop_last(), kinds);
    if i < before.len() {
        lemma_found_remembered(previous, cs.drop_last(), kinds, i);
    }
}

proof fn lemma_step_keeps_memory(s: GpuSamplerView, step: Step, id: Seq<char>)
    requires
        has_one(s.devices, id),
        leaves_alone(s, step, id),
    ensures
        remembered(stepped(s, step).devices, id) == remembered(s.devices, id),
{
    let now = stepped(s, step).devices;
    let i = choose|i: int| 0 <= i < now.len() && (#[trigger] now[i]).id == id;
    lemma_remembered(now, id, i);
    match step {
        Step::Sampled(latest, answers) => {
            assert(now[i] == after_answer(latest, s.devices[i], answers[i]));
            assert(s.devices[i].id == id);
            lemma_remembered(s.devices, id, i);
        },
        Step::Detected(cs) => {
            lemma_found_remembered(s.devices, cs, scanned_kinds(cs), i);
        },
        Step::DroppedNvidia => {
            assert(s.devices.filter(is_not_nvidia()).contains(now[i]));
            s.devices.lemma_filter_contains_rev(is_not_nvidia(), now[i]);
            let k = choose|k: int| 0 <= k < s.devices.len() && s.devices[k] == now[i];
            lemma_remembered(s.devices, id, k);
        },
        _ => {},
    }
}

proof fn lemma_steps_keep_memory(s: GpuSamplerView, steps: Seq<Step>, id: Seq<char>)
    requires
        has_one(s.devices, id),
        all_leave_alone(s, steps, id),
    ensures
        has_one(after_steps(s, steps).devices, id),
        remembered(after_steps(s, steps).devices, id) == remembered(s.devices, id),
    decreases steps.len(),
{
    if steps.len() > 0 {
        lemma_steps_keep_memory(s, steps.drop_last(), id);
        lemma_step_keeps_memory(after_steps(s, steps.drop_last()), steps.last(), id);
    }
}

/// A card that told of its memory in a sample shows that memory when it is asleep, and
/// ranks by it as before, whatever the sampler did in between: it may have sampled, looked
/// for cards and taken new ones any number of times, as long as the card was always among
/// them, alone in its slot, and told of no other memory.
pub proof fn sleeping_card_keeps_its_memory(
    s: GpuSamplerView,
    latest: Map<Seq<char>, GpuRecord>,
    answers: Seq<Answer>,
    i: int,
    steps: Seq<Step>,
    later: Map<Seq<char>, GpuRecord>,
)
    requires
        answers.len() == s.devices.len(),
        0 <= i < s.devices.len(),
        has_one(s.devices, s.devices[i].id),
        told_memory(latest, s.devices[i], answers[i]) is Some,
        all_leave_alone(sampled(s, latest, answers), steps, s.devices[i].id),
    ensures
        ({
            let id = s.devices[i].id;
            let total = told_memory(latest, s.devices[i], answers[i]);
            let ds = after_steps(sampled(s, latest, answers), steps).devices;
            &&& has_one(ds, id)
            &&& forall|k: int|
                0 <= k < ds.len() && (#[trigger] ds[k]).id == id ==> {
                    let r = record(ds[k], Details::Asleep(total));
                    &&& shown(later, ds[k], Answer::Asleep) == Some(r)
                    &&& mem_order(r) == mem_order(shown(latest, s.devices[i], answers[i])->0)
                }
        }),
{
    let id = s.devices[i].id;
    let first = sampled(s, latest, answers);
    let ds = after_steps(first, steps).devices;
    assert forall|k: int| 0 <= k < s.devices.len() implies (#[trigger] first.devices[k]).id
        == s.devices[k].id by {}
    assert(first.devices[i].id == id);
    assert(has_one(first.devices, id)) by {
        assert forall|a: int, b: int|
            0 <= a < first.devices.len() && 0 <= b < first.devices.len() && (
            #[trigger] first.devices[a]).id == id && (#[trigger] first.devices[b]).id
                == id implies a == b by {
            assert(s.devices[a].id == id && s.devices[b].id == id);
        }
    }
    lemma_remembered(first.devices, id, i);
    lemma_steps_keep_memory(first, steps, id);
    assert forall|k: int| 0 <= k < ds.len() && (#[trigger] ds[k]).id == id implies {
        let r = record(ds[k], Details::Asleep(told_memory(latest, s.devices[i], answers[i])));
        &&& shown(later, ds[k], Answer::Asleep) == Some(r)
        &&& mem_order(r) == mem_order(shown(latest, s.devices[i], answers[i])->0)
    } by {
        lemma_remembered(ds, id, k);
    }
}

/// No more cards are sampled than the limit allows.
pub proof fn cards_are_limited(
    previous: Seq<DeviceView>,
    cs: Seq<CardScanView>,
    kinds: Seq<Option<Kind>>,
)
    ensures
        devices_from(previous, cs, kinds).len() <= GPU_LIMIT,
    decreases cs.len(),
{
    if cs.len() > 0 {
        cards_are_limited(previous, cs.drop_last(), kinds);
    }
}

/// The same slots make the same signature, in whatever order they were found.
pub proof fn order_of_slots_does_not_matter(a: Seq<Seq<char>>, b: Seq<Seq<char>>)
    requires
        a.to_multiset() == b.to_multiset(),
    ensures
        sorted_slots(a) == sorted_slots(b),
{
    let leq = |x: Seq<char>, y: Seq<char>| !text::less(y, x);
    let x = sorted_slots(a);
    let y = sorted_slots(b);
    rank::arrangement_keeps_items::<SlotName>(a);
    rank::arrangement_keeps_items::<SlotName>(b);
    rank::arrangement_is_in_order::<SlotName>(a);
    rank::arrangement_is_in_order::<SlotName>(b);
    assert forall|i: int, j: int| 0 <= i < j < x.len() implies #[trigger] leq(x[i], x[j]) by {
        assert(!SlotName::before(x[j], x[i]));
    }
    assert forall|i: int, j: int| 0 <= i < j < y.len() implies #[trigger] leq(y[i], y[j]) by {
        assert(!SlotName::before(y[j], y[i]));
    }
    assert forall|s: Seq<char>| #[trigger] leq(s, s) by {
        text::lemma_less_strict(s, s);
    }
    assert forall|s: Seq<char>, t: Seq<char>| #[trigger] leq(s, t) && #[trigger] leq(t, s) implies s
        == t by {
        text::lemma_less_total(s, t);
    }
    assert forall|s: Seq<char>, t: Seq<char>, u: Seq<char>| #[trigger]
        leq(s, t) && #[trigger] leq(t, u) implies leq(s, u) by {
        text::lemma_less_weak(u, s, t);
    }
    assert forall|s: Seq<char>, t: Seq<char>| #[trigger] leq(s, t) || #[trigger] leq(t, s) by {
        text::lemma_less_strict(s, t);
    }
    vstd::seq_lib::lemma_sorted_unique(x, y, leq);
}

/// Every card is called something.
pub proof fn cards_are_never_nameless(d: DeviceView)
    ensures
        device_label(d).len() > 0,
{
    reveal_strlit("NVIDIA");
    reveal_strlit("AMD");
    reveal_strlit("Intel");
}

} // verus!
