//! The sensors of a card, and the readings of the cards that report by themselves.

use crate::devices::Bits;
use crate::gpu;
use crate::gpu::checked_bus_id;
use crate::rank;
use crate::text;
use crate::text::{
    before_suffix, begins, bounded_text, chars_of, ends, same_str, split, string_of, trimmed,
    EXTERNAL_TEXT_LIMIT,
};
use vstd::prelude::*;

verus! {

/// A file of a `hwmon` directory, and what the label file of its sensor holds.
#[derive(Debug)]
pub struct Channel {
    pub name: String,
    pub label: Option<String>,
}

/// The model of a [`Channel`].
pub struct ChannelView {
    pub name: Seq<char>,
    pub label: Option<Seq<char>>,
}

impl View for Channel {
    type V = ChannelView;

    open spec fn view(&self) -> ChannelView {
        ChannelView { name: self.name@, label: text::viewed(self.label) }
    }
}

/// Whether the file `name` is a reading of the kind `prefix` and the form `suffix`.
pub open spec fn is_reading(name: Seq<char>, prefix: Seq<char>, suffix: Seq<char>) -> bool {
    text::starts_with(name, prefix) && text::ends_with(name, suffix)
}

/// The sensor that the file `name` is a reading of, such as `temp1`.
pub open spec fn sensor_of(name: Seq<char>, prefix: Seq<char>, suffix: Seq<char>) -> Option<
    Seq<char>,
> {
    if text::starts_with(name, prefix) {
        text::strip_suffix(name, suffix)
    } else {
        None
    }
}

/// The sensor that the file `name` is a reading of. Its label is in the file with
/// `_label` behind that.
pub fn sensor_key(name: &str, prefix: &str, suffix: &str) -> (r: Option<String>)
    ensures
        text::viewed(r) == sensor_of(name@, prefix@, suffix@),
{
    let chars: Vec<char> = chars_of(name);
    if begins(chars.as_slice(), prefix) {
        match before_suffix(chars.as_slice(), suffix) {
            Some(key) => Some(string_of(key)),
            None => None,
        }
    } else {
        None
    }
}

/// The files that are no such reading.
pub open spec fn is_no_reading(prefix: Seq<char>, suffix: Seq<char>) -> spec_fn(Seq<char>) -> bool {
    |name: Seq<char>| !is_reading(name, prefix, suffix)
}

/// Whether the file at `i` is such a reading, of a sensor that is preferred.
pub open spec fn is_preferred(
    names: Seq<Seq<char>>,
    preferred: Seq<bool>,
    prefix: Seq<char>,
    suffix: Seq<char>,
    i: int,
) -> bool {
    0 <= i < names.len() && is_reading(names[i], prefix, suffix) && preferred[i]
}

/// Which of the files `names` to read: the first reading of a preferred sensor or, where
/// no sensor is preferred, the first reading; their number where there is none.
pub open spec fn pick(
    names: Seq<Seq<char>>,
    preferred: Seq<bool>,
    prefix: Seq<char>,
    suffix: Seq<char>,
) -> nat {
    let all = Seq::new(names.len(), |i: int| i);
    let first = text::span(
        all,
        |i: int| !is_preferred(names, preferred, prefix, suffix, i),
    );
    if first < names.len() {
        first
    } else {
        text::span(names, is_no_reading(prefix, suffix))
    }
}

/// Which of the files `names` to read.
pub fn pick_channel(
    names: &Vec<String>,
    preferred: &Vec<bool>,
    prefix: &str,
    suffix: &str,
) -> (r: usize)
    requires
        preferred@.len() == names@.len(),
    ensures
        r == pick(text::strings(names@), preferred@, prefix@, suffix@),
        r <= names@.len(),
{
    let ghost ns = text::strings(names@);
    let ghost all = Seq::new(ns.len(), |i: int| i);
    let ghost p = |i: int| !is_preferred(ns, preferred@, prefix@, suffix@, i);
    let ghost q = is_no_reading(prefix@, suffix@);
    let mut chosen: usize = names.len();
    let mut i: usize = 0;
    while i < names.len()
        invariant
            i <= names@.len(),
            preferred@.len() == names@.len(),
            ns == text::strings(names@),
            all == Seq::new(ns.len(), |i: int| i),
            p == (|i: int| !is_preferred(ns, preferred@, prefix@, suffix@, i)),
            q == is_no_reading(prefix@, suffix@),
            chosen < i || chosen == names@.len(),
            forall|k: int| 0 <= k < i ==> p(#[trigger] all[k]),
            forall|k: int| 0 <= k < i && k < chosen ==> q(#[trigger] ns[k]),
            chosen < names@.len() ==> !q(ns[chosen as int]),
        decreases names.len() - i,
    {
        assert(ns[i as int] == names@[i as int]@);
        assert(all[i as int] == i);
        let name: Vec<char> = chars_of(names[i].as_str());
        if begins(name.as_slice(), prefix) && ends(name.as_slice(), suffix) {
            if preferred[i] {
                proof {
                    text::lemma_span(all, p, i as int);
                }
                return i;
            }
            if chosen == names.len() {
                chosen = i;
            }
        }
        i = i + 1;
    }
    proof {
        text::lemma_span(all, p, i as int);
        text::lemma_span(ns, q, chosen as int);
    }
    chosen
}

/// Whether a sensor with the label `label` is one of `labels`, written in small letters.
pub open spec fn has_label(label: Option<Seq<char>>, labels: Seq<Seq<char>>) -> bool {
    labels.contains(
        gpu::lowercase_text(
            match label {
                Some(l) => l,
                None => seq![],
            },
        ),
    )
}

/// The texts of a list.
pub open spec fn label_texts(labels: Seq<&str>) -> Seq<Seq<char>> {
    labels.map_values(|l: &str| l@)
}

/// The names of the files `cs`.
pub open spec fn channel_names(cs: Seq<ChannelView>) -> Seq<Seq<char>> {
    cs.map_values(|c: ChannelView| c.name)
}

/// Which of the files `cs` have one of `labels`.
pub open spec fn labelled(cs: Seq<ChannelView>, labels: Seq<Seq<char>>) -> Seq<bool> {
    cs.map_values(|c: ChannelView| has_label(c.label, labels))
}

/// Whether `lowered` is one of `labels`.
pub fn is_listed(lowered: &str, labels: &[&str]) -> (r: bool)
    ensures
        r == label_texts(labels@).contains(lowered@),
{
    let ghost ls = label_texts(labels@);
    let mut i: usize = 0;
    while i < labels.len()
        invariant
            i <= labels@.len(),
            ls == label_texts(labels@),
            forall|k: int| 0 <= k < i ==> #[trigger] ls[k] != lowered@,
        decreases labels.len() - i,
    {
        assert(ls[i as int] == labels@[i as int]@);
        if same_str(labels[i], lowered) {
            return true;
        }
        i = i + 1;
    }
    false
}

/// Whether a sensor with the label `label` is one of `labels`.
fn label_matches(label: &Option<String>, labels: &[&str]) -> (r: bool)
    ensures
        r == has_label(text::viewed(*label), label_texts(labels@)),
{
    let lowered: String = match label {
        Some(l) => l.as_str().to_lowercase(),
        None => {
            proof {
                reveal_strlit("");
            }
            assert(""@ == Seq::<char>::empty());
            "".to_lowercase()
        },
    };
    is_listed(lowered.as_str(), labels)
}

/// The file to read for a sensor of the kind `prefix`, in the form `suffix`: one whose
/// label is among `labels`, if there is one.
pub open spec fn channel(
    cs: Seq<ChannelView>,
    prefix: Seq<char>,
    suffix: Seq<char>,
    labels: Seq<Seq<char>>,
) -> Option<Seq<char>> {
    let i = pick(channel_names(cs), labelled(cs, labels), prefix, suffix) as int;
    if i < cs.len() {
        Some(cs[i].name)
    } else {
        None
    }
}

/// The file to read for a sensor of the kind `prefix`, in the form `suffix`.
pub fn hwmon_channel(cs: &Vec<Channel>, prefix: &str, suffix: &str, labels: &[&str]) -> (r: Option<
    String,
>)
    ensures
        text::viewed(r) == channel(rank::views(cs@), prefix@, suffix@, label_texts(labels@)),
{
    let ghost views = rank::views(cs@);
    let mut names: Vec<String> = Vec::new();
    let mut preferred: Vec<bool> = Vec::new();
    let mut i: usize = 0;
    while i < cs.len()
        invariant
            i <= cs@.len(),
            views == rank::views(cs@),
            text::strings(names@) == channel_names(views).take(i as int),
            preferred@ == labelled(views, label_texts(labels@)).take(i as int),
            names@.len() == i,
        decreases cs.len() - i,
    {
        let ghost before = names@;
        let ghost name = cs@[i as int].name;
        assert(views[i as int] == cs@[i as int]@);
        names.push(cs[i].name.clone());
        preferred.push(label_matches(&cs[i].label, labels));
        i = i + 1;
        assert(text::strings(names@) == text::strings(before).push(name@));
    }
    assert(channel_names(views).take(i as int) == channel_names(views));
    assert(labelled(views, label_texts(labels@)).take(i as int) == labelled(
        views,
        label_texts(labels@),
    ));
    let k: usize = pick_channel(&names, &preferred, prefix, suffix);
    if k < cs.len() {
        Some(cs[k].name.clone())
    } else {
        None
    }
}

/// The files that may hold a reading of the kind `prefix`, the first that can be read
/// counting: discrete AMD cards report power as `power1_average` only.
pub open spec fn candidates(
    cs: Seq<ChannelView>,
    prefix: Seq<char>,
    labels: Seq<Seq<char>>,
) -> Seq<Seq<char>> {
    let input = channel(cs, prefix, "_input"@, labels);
    let average = channel(cs, prefix, "_average"@, labels);
    match (input, average) {
        (Some(a), Some(b)) => seq![a, b],
        (Some(a), None) => seq![a],
        (None, Some(b)) => seq![b],
        (None, None) => seq![],
    }
}

/// The files that may hold a reading of the kind `prefix`, in the order in which they
/// are tried.
pub fn hwmon_value(cs: &Vec<Channel>, prefix: &str, labels: &[&str]) -> (r: Vec<String>)
    ensures
        text::strings(r@) == candidates(rank::views(cs@), prefix@, label_texts(labels@)),
{
    let mut out: Vec<String> = Vec::new();
    if let Some(name) = hwmon_channel(cs, prefix, "_input", labels) {
        out.push(name);
    }
    if let Some(name) = hwmon_channel(cs, prefix, "_average", labels) {
        out.push(name);
    }
    assert(text::strings(out@) == candidates(rank::views(cs@), prefix@, label_texts(labels@)));
    out
}

/// A sensor of a card.
#[derive(Debug, Clone, Copy, PartialEq, Eq, Structural)]
pub enum Sensor {
    Temperature,
    Power,
    Clock,
}

impl Sensor {
    /// What the names of its files begin with.
    pub open spec fn prefix(self) -> Seq<char> {
        match self {
            Sensor::Temperature => "temp"@,
            Sensor::Power => "power"@,
            Sensor::Clock => "freq"@,
        }
    }

    /// The labels of the channels that are preferred.
    pub open spec fn labels(self) -> Seq<Seq<char>> {
        match self {
            Sensor::Temperature => seq!["edge"@, "junction"@],
            Sensor::Power => seq!["ppt"@, "power"@],
            Sensor::Clock => seq!["sclk"@],
        }
    }
}

/// The files that may hold the reading of `sensor`, in the order in which they are tried.
pub fn sensor_files(cs: &Vec<Channel>, sensor: Sensor) -> (r: Vec<String>)
    ensures
        text::strings(r@) == candidates(rank::views(cs@), sensor.prefix(), sensor.labels()),
{
    match sensor {
        Sensor::Temperature => {
            let labels: [&str; 2] = ["edge", "junction"];
            assert(label_texts(labels@) == sensor.labels());
            hwmon_value(cs, "temp", labels.as_slice())
        },
        Sensor::Power => {
            let labels: [&str; 2] = ["ppt", "power"];
            assert(label_texts(labels@) == sensor.labels());
            hwmon_value(cs, "power", labels.as_slice())
        },
        Sensor::Clock => {
            let labels: [&str; 1] = ["sclk"];
            assert(label_texts(labels@) == sensor.labels());
            hwmon_value(cs, "freq", labels.as_slice())
        },
    }
}

/// The first of three readings that is known, such as a card's clock rate from its sensor
/// or from one of two files of its driver.
pub fn first_known(a: Option<Bits>, b: Option<Bits>, c: Option<Bits>) -> (r: Option<Bits>)
    ensures
        r == (if a is Some {
            a
        } else if b is Some {
            b
        } else {
            c
        }),
{
    if a.is_some() {
        a
    } else if b.is_some() {
        b
    } else {
        c
    }
}

/// A line of `nvidia-smi`, field by field. The numbers are left as they are written.
#[derive(Debug)]
pub struct NvidiaLine {
    /// The card's bus id, where it can be brought into the form that sysfs has.
    pub id: Option<String>,
    pub name: String,
    pub util: String,
    pub mem_used: String,
    pub mem_total: String,
    pub temp: String,
    pub power: String,
    pub mhz: String,
    pub max_mhz: String,
    pub fan: String,
}

/// The model of a [`NvidiaLine`].
#[verifier::ext_equal]
pub struct NvidiaLineView {
    pub id: Option<Seq<char>>,
    pub name: Seq<char>,
    pub util: Seq<char>,
    pub mem_used: Seq<char>,
    pub mem_total: Seq<char>,
    pub temp: Seq<char>,
    pub power: Seq<char>,
    pub mhz: Seq<char>,
    pub max_mhz: Seq<char>,
    pub fan: Seq<char>,
}

impl View for NvidiaLine {
    type V = NvidiaLineView;

    open spec fn view(&self) -> NvidiaLineView {
        NvidiaLineView {
            id: text::viewed(self.id),
            name: self.name@,
            util: self.util@,
            mem_used: self.mem_used@,
            mem_total: self.mem_total@,
            temp: self.temp@,
            power: self.power@,
            mhz: self.mhz@,
            max_mhz: self.max_mhz@,
            fan: self.fan@,
        }
    }
}

/// The field at `i` of a line of comma-separated fields.
pub open spec fn csv_field(line: Seq<char>, i: int) -> Seq<char> {
    text::trim(text::split_on(line, ',')[i])
}

/// What a line of `nvidia-smi` says, if it has all the fields.
pub open spec fn nvidia_line(line: Seq<char>) -> Option<NvidiaLineView> {
    if text::split_on(line, ',').len() < 10 {
        None
    } else {
        let id = gpu::lowered_id(csv_field(line, 9));
        Some(
            NvidiaLineView {
                id: if gpu::bus_id_splits(id) {
                    Some(gpu::bus_id(id))
                } else {
                    None
                },
                name: text::bounded(csv_field(line, 0), EXTERNAL_TEXT_LIMIT as int),
                util: csv_field(line, 1),
                mem_used: csv_field(line, 2),
                mem_total: csv_field(line, 3),
                temp: csv_field(line, 4),
                power: csv_field(line, 5),
                mhz: csv_field(line, 6),
                max_mhz: csv_field(line, 7),
                fan: csv_field(line, 8),
            },
        )
    }
}

/// The field at `i`, without the white space around it.
fn field_at(parts: &Vec<Vec<char>>, i: usize) -> (r: String)
    requires
        i < parts@.len(),
    ensures
        r@ == text::trim(text::texts(parts@)[i as int]),
{
    assert(text::texts(parts@)[i as int] == parts@[i as int]@);
    string_of(trimmed(parts[i].as_slice()))
}

/// What a line of `nvidia-smi` says, if it has all the fields.
pub fn parse_nvidia_line(line: &str) -> (r: Option<NvidiaLine>)
    ensures
        text::viewed(r) == nvidia_line(line@),
{
    let parts: Vec<Vec<char>> = split(chars_of(line).as_slice(), ',');
    let ghost ps = text::split_on(line@, ',');
    assert(parts@.len() == ps.len());
    if parts.len() < 10 {
        return None;
    }
    assert(parts@[0]@ == ps[0]);
    Some(
        NvidiaLine {
            id: checked_bus_id(field_at(&parts, 9).as_str()),
            name: bounded_text(trimmed(parts[0].as_slice()), EXTERNAL_TEXT_LIMIT),
            util: field_at(&parts, 1),
            mem_used: field_at(&parts, 2),
            mem_total: field_at(&parts, 3),
            temp: field_at(&parts, 4),
            power: field_at(&parts, 5),
            mhz: field_at(&parts, 6),
            max_mhz: field_at(&parts, 7),
            fan: field_at(&parts, 8),
        },
    )
}

} // verus!
