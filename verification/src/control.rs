//! What the sampler is told to do: its arguments, the lines on its standard input, and
//! when each part of a sample is due.

use crate::devices;
use crate::devices::{order_key, Bits};
use crate::text;
use crate::text::{chars_of, is_text, same_str, split_words, string_of};
use vstd::prelude::*;

verus! {

/// The bits of 0.1, the shortest interval in seconds.
pub const SHORTEST_INTERVAL: Bits = 0x3fb9_9999_9999_999a;

/// The bits of 30.0, the longest interval in seconds.
pub const LONGEST_INTERVAL: Bits = 0x403e_0000_0000_0000;

/// The bits of 1.0, the interval in seconds when none is given.
pub const USUAL_INTERVAL: Bits = 0x3ff0_0000_0000_0000;

/// The bits of infinity. What has larger ones, the sign aside, is no number.
pub const INFINITY: Bits = 0x7ff0_0000_0000_0000;

/// Nanoseconds after which the slow parts of a sample are due again.
pub const SLOW_AFTER: u64 = 1_000_000_000;

/// The fewest nanoseconds that a tick counts as.
pub const SHORTEST_TICK: u64 = 20_000_000;

/// The fewest nanoseconds between two looks at the processes.
pub const SHORTEST_LOOK: u64 = 50_000_000;

/// Whether these are the bits of a number.
pub open spec fn is_number(bits: Bits) -> bool {
    let magnitude = if bits < 0x8000_0000_0000_0000 {
        bits as int
    } else {
        bits - 0x8000_0000_0000_0000
    };
    magnitude <= INFINITY
}

/// Whether these are the bits of a number.
pub fn means_number(bits: Bits) -> (r: bool)
    ensures
        r == is_number(bits),
{
    let magnitude: u64 = if bits < 0x8000_0000_0000_0000 {
        bits
    } else {
        bits - 0x8000_0000_0000_0000
    };
    magnitude <= INFINITY
}

/// The interval nearest to `seconds` that is neither too short nor too long. Of what is
/// no number none is nearest: that is left as it is, and asks for no interval.
pub open spec fn clamped(seconds: Bits) -> Bits {
    if !is_number(seconds) {
        seconds
    } else if devices::order_of(seconds) < devices::order_of(SHORTEST_INTERVAL) {
        SHORTEST_INTERVAL
    } else if devices::order_of(seconds) > devices::order_of(LONGEST_INTERVAL) {
        LONGEST_INTERVAL
    } else {
        seconds
    }
}

/// The interval nearest to `seconds` that is neither too short nor too long.
pub fn clamp_interval(seconds: Bits) -> (r: Bits)
    ensures
        r == clamped(seconds),
{
    if !means_number(seconds) {
        seconds
    } else if order_key(seconds) < order_key(SHORTEST_INTERVAL) {
        SHORTEST_INTERVAL
    } else if order_key(seconds) > order_key(LONGEST_INTERVAL) {
        LONGEST_INTERVAL
    } else {
        seconds
    }
}

/// A control line.
#[derive(Debug, PartialEq)]
pub enum Command {
    /// How much is told of processes: nothing, the top ones, or every one.
    Detail(u8),
    /// The page that the panel shows.
    Focus(String),
    /// A new interval: the seconds, as they were written.
    Interval(String),
    /// Look for the public IP address.
    PublicIp,
    /// Exit.
    Quit,
}

/// The model of a [`Command`].
pub enum CommandView {
    Detail(u8),
    Focus(Seq<char>),
    Interval(Seq<char>),
    PublicIp,
    Quit,
}

impl View for Command {
    type V = CommandView;

    open spec fn view(&self) -> CommandView {
        match self {
            Command::Detail(level) => CommandView::Detail(*level),
            Command::Focus(page) => CommandView::Focus(page@),
            Command::Interval(seconds) => CommandView::Interval(seconds@),
            Command::PublicIp => CommandView::PublicIp,
            Command::Quit => CommandView::Quit,
        }
    }
}

/// The level of detail that a word asks for.
pub open spec fn level_of(word: Seq<char>) -> u8 {
    if word == "2"@ || word == "full"@ || word == "all"@ {
        2
    } else if word == "1"@ || word == "true"@ || word == "on"@ {
        1
    } else {
        0
    }
}

/// What a control line asks for, if anything.
pub open spec fn command(line: Seq<char>) -> Option<CommandView> {
    let words = text::words(line);
    if words.len() > 1 && words[0] == "detail"@ {
        Some(CommandView::Detail(level_of(words[1])))
    } else if words.len() > 1 && words[0] == "focus"@ {
        Some(CommandView::Focus(words[1]))
    } else if words.len() > 1 && words[0] == "interval"@ {
        Some(CommandView::Interval(words[1]))
    } else if words.len() > 0 && words[0] == "pubip"@ {
        Some(CommandView::PublicIp)
    } else if words.len() > 0 && words[0] == "quit"@ {
        Some(CommandView::Quit)
    } else {
        None
    }
}

/// The level of detail that a word asks for.
fn parse_level(word: &[char]) -> (r: u8)
    ensures
        r == level_of(word@),
{
    if is_text(word, "2") || is_text(word, "full") || is_text(word, "all") {
        2
    } else if is_text(word, "1") || is_text(word, "true") || is_text(word, "on") {
        1
    } else {
        0
    }
}

/// What a control line asks for, if anything.
pub fn parse_command(line: &str) -> (r: Option<Command>)
    ensures
        text::viewed(r) == command(line@),
{
    let words: Vec<Vec<char>> = split_words(chars_of(line).as_slice());
    let ghost ws = text::words(line@);
    assert(words@.len() == ws.len());
    if words.len() == 0 {
        return None;
    }
    assert(words@[0]@ == ws[0]);
    let first: &[char] = words[0].as_slice();
    if words.len() > 1 {
        assert(words@[1]@ == ws[1]);
        if is_text(first, "detail") {
            return Some(Command::Detail(parse_level(words[1].as_slice())));
        }
        if is_text(first, "focus") {
            return Some(Command::Focus(string_of(words[1].as_slice())));
        }
        if is_text(first, "interval") {
            return Some(Command::Interval(string_of(words[1].as_slice())));
        }
    }
    if is_text(first, "pubip") {
        Some(Command::PublicIp)
    } else if is_text(first, "quit") {
        Some(Command::Quit)
    } else {
        None
    }
}

/// What the sampler was last told.
#[derive(Debug)]
pub struct Control {
    pub interval: Bits,
    pub detail: u8,
    pub focus: String,
    pub public_ip_requested: bool,
    pub stop: bool,
}

/// The model of a [`Control`].
#[verifier::ext_equal]
pub struct ControlView {
    pub interval: Bits,
    pub detail: u8,
    pub focus: Seq<char>,
    pub public_ip_requested: bool,
    pub stop: bool,
}

impl View for Control {
    type V = ControlView;

    open spec fn view(&self) -> ControlView {
        ControlView {
            interval: self.interval,
            detail: self.detail,
            focus: self.focus@,
            public_ip_requested: self.public_ip_requested,
            stop: self.stop,
        }
    }
}

/// The state `c` after `command`; `seconds` is the number that the word of an interval
/// means, if it means one.
pub open spec fn obeyed(
    c: ControlView,
    command: CommandView,
    seconds: Option<Bits>,
) -> ControlView {
    match command {
        CommandView::Detail(level) => ControlView { detail: level, ..c },
        CommandView::Focus(page) => ControlView { focus: page, ..c },
        CommandView::Interval(_) => match seconds {
            Some(s) => if is_number(s) {
                ControlView { interval: clamped(s), ..c }
            } else {
                c
            },
            None => c,
        },
        CommandView::PublicIp => ControlView { public_ip_requested: true, ..c },
        CommandView::Quit => ControlView { stop: true, ..c },
    }
}

/// What the next tick goes by.
#[derive(Debug)]
pub struct Orders {
    pub interval: Bits,
    pub detail: u8,
    pub focus: String,
    /// Whether the public IP address is to be looked for.
    pub public_ip: bool,
    pub stop: bool,
}

impl Control {
    /// Does what `command` asks for; `seconds` is the number that the word of an interval
    /// means, if it means one.
    pub fn obey(&mut self, command: Command, seconds: Option<Bits>)
        ensures
            final(self)@ == obeyed(old(self)@, command@, seconds),
    {
        match command {
            Command::Detail(level) => {
                self.detail = level;
            },
            Command::Focus(page) => {
                self.focus = page;
            },
            Command::Interval(_) => {
                if let Some(s) = seconds {
                    if means_number(s) {
                        self.interval = clamp_interval(s);
                    }
                }
            },
            Command::PublicIp => {
                self.public_ip_requested = true;
            },
            Command::Quit => {
                self.stop = true;
            },
        }
    }

    /// What the next tick goes by. A request for the public IP address is handed out once.
    pub fn orders(&mut self) -> (r: Orders)
        ensures
            r.interval == old(self)@.interval,
            r.detail == old(self)@.detail,
            r.focus@ == old(self)@.focus,
            r.public_ip == old(self)@.public_ip_requested,
            r.stop == old(self)@.stop,
            final(self)@ == (ControlView { public_ip_requested: false, ..old(self)@ }),
    {
        let wanted: bool = self.public_ip_requested;
        self.public_ip_requested = false;
        Orders {
            interval: self.interval,
            detail: self.detail,
            focus: self.focus.clone(),
            public_ip: wanted,
            stop: self.stop,
        }
    }
}

/// What the arguments of the program ask for.
#[derive(Debug)]
pub struct Options {
    /// Only tell the version.
    pub version: bool,
    /// The seconds of an interval, as they were written.
    pub interval: Option<String>,
    /// Exit after one sample.
    pub once: bool,
    pub detail: u8,
    pub focus: String,
}

/// The model of [`Options`].
#[verifier::ext_equal]
pub struct OptionsView {
    pub version: bool,
    pub interval: Option<Seq<char>>,
    pub once: bool,
    pub detail: u8,
    pub focus: Seq<char>,
}

impl View for Options {
    type V = OptionsView;

    open spec fn view(&self) -> OptionsView {
        OptionsView {
            version: self.version,
            interval: text::viewed(self.interval),
            once: self.once,
            detail: self.detail,
            focus: self.focus@,
        }
    }
}

/// Every text but `t`.
pub open spec fn is_not(t: Seq<char>) -> spec_fn(Seq<char>) -> bool {
    |s: Seq<char>| s != t
}

/// The argument after the first `flag`, if there is one.
pub open spec fn argument(args: Seq<Seq<char>>, flag: Seq<char>) -> Option<Seq<char>> {
    let i = text::span(args, is_not(flag)) as int;
    if i + 1 < args.len() {
        Some(args[i + 1])
    } else {
        None
    }
}

/// What the arguments `args` ask for.
pub open spec fn options(args: Seq<Seq<char>>) -> OptionsView {
    OptionsView {
        version: args.contains("--version"@) || args.contains("-V"@),
        interval: argument(args, "--interval"@),
        once: args.contains("--once"@),
        detail: if args.contains("--full"@) {
            2
        } else if args.contains("--detail"@) {
            1
        } else {
            0
        },
        focus: match argument(args, "--focus"@) {
            Some(page) => page,
            None => seq![],
        },
    }
}

/// Where `flag` first stands in `args`, or how many there are.
fn find_flag(args: &Vec<String>, flag: &str) -> (i: usize)
    ensures
        i <= args@.len(),
        i == text::span(text::strings(args@), is_not(flag@)),
        (i < args@.len()) == text::strings(args@).contains(flag@),
{
    let ghost ss = text::strings(args@);
    let mut i: usize = 0;
    while i < args.len() && !same_str(args[i].as_str(), flag)
        invariant
            i <= args@.len(),
            ss == text::strings(args@),
            forall|k: int| 0 <= k < i ==> is_not(flag@)(#[trigger] ss[k]),
        decreases args.len() - i,
    {
        assert(ss[i as int] == args@[i as int]@);
        i = i + 1;
    }
    proof {
        assert(i < args@.len() ==> ss[i as int] == flag@);
        text::lemma_span(ss, is_not(flag@), i as int);
    }
    i
}

/// Whether `flag` is one of `args`.
fn has_flag(args: &Vec<String>, flag: &str) -> (r: bool)
    ensures
        r == text::strings(args@).contains(flag@),
{
    find_flag(args, flag) < args.len()
}

/// The argument after the first `flag`, if there is one.
fn find_argument(args: &Vec<String>, flag: &str) -> (r: Option<String>)
    ensures
        text::viewed(r) == argument(text::strings(args@), flag@),
{
    let i: usize = find_flag(args, flag);
    if i < args.len() && i + 1 < args.len() {
        assert(text::strings(args@)[i + 1] == args@[i + 1]@);
        Some(args[i + 1].clone())
    } else {
        None
    }
}

/// What the arguments `args` ask for, the name of the program not being one of them.
pub fn parse_args(args: &Vec<String>) -> (r: Options)
    ensures
        r@ == options(text::strings(args@)),
{
    let detail: u8 = if has_flag(args, "--full") {
        2
    } else if has_flag(args, "--detail") {
        1
    } else {
        0
    };
    let focus: String = match find_argument(args, "--focus") {
        Some(page) => page,
        None => String::new(),
    };
    Options {
        version: has_flag(args, "--version") || has_flag(args, "-V"),
        interval: find_argument(args, "--interval"),
        once: has_flag(args, "--once"),
        detail,
        focus,
    }
}

/// The interval that the sampler starts with: the one that was asked for, if that is a
/// number.
pub open spec fn first_interval(seconds: Option<Bits>) -> Bits {
    match seconds {
        Some(s) => if is_number(s) {
            clamped(s)
        } else {
            USUAL_INTERVAL
        },
        None => USUAL_INTERVAL,
    }
}

impl Options {
    /// The state that the sampler starts in; `seconds` is the number that the word of the
    /// interval means, if it means one.
    pub fn control(&self, seconds: Option<Bits>) -> (r: Control)
        ensures
            r@ == (ControlView {
                interval: first_interval(seconds),
                detail: self@.detail,
                focus: self@.focus,
                public_ip_requested: false,
                stop: false,
            }),
    {
        Control {
            interval: match seconds {
                Some(s) => if means_number(s) {
                    clamp_interval(s)
                } else {
                    USUAL_INTERVAL
                },
                None => USUAL_INTERVAL,
            },
            detail: self.detail,
            focus: self.focus.clone(),
            public_ip_requested: false,
            stop: false,
        }
    }
}

/// When the parts of a sample were last taken, in nanoseconds.
#[derive(Debug, Clone, Copy, PartialEq, Eq, Structural)]
pub struct Pace {
    pub last: u64,
    pub last_slow: Option<u64>,
    pub last_procs: Option<u64>,
}

/// What a slow tick does.
#[derive(Debug, Clone, Copy, PartialEq, Eq, Structural)]
pub struct SlowPlan {
    /// Look at the processes, the last look being so many nanoseconds ago; else forget
    /// what is known of them.
    pub procs: Option<u64>,
    /// Tell of every process.
    pub full: bool,
    /// Tell of the traffic by process.
    pub traffic: bool,
}

/// What a tick does.
#[derive(Debug, Clone, Copy, PartialEq, Eq, Structural)]
pub struct TickPlan {
    /// Nanoseconds that the tick counts as.
    pub elapsed: u64,
    pub slow: Option<SlowPlan>,
}

/// Nanoseconds from `from` to `to`; none where that is earlier.
pub open spec fn time_between(from: u64, to: u64) -> u64 {
    if to > from {
        (to - from) as u64
    } else {
        0
    }
}

/// `a`, or `b` where that is more.
pub open spec fn at_least(a: u64, b: u64) -> u64 {
    if a < b {
        b
    } else {
        a
    }
}

/// Whether the slow parts are due at the time `now`.
pub open spec fn is_slow_due(p: Pace, now: u64) -> bool {
    match p.last_slow {
        Some(t) => time_between(t, now) >= SLOW_AFTER,
        None => true,
    }
}

/// What the tick at the time `now` does. The cheap counters follow the interval;
/// everything that walks many files is sampled at most once a second.
pub open spec fn plan(p: Pace, now: u64, detail: u8, focus: Seq<char>) -> TickPlan {
    let elapsed = at_least(time_between(p.last, now), SHORTEST_TICK);
    TickPlan {
        elapsed,
        slow: if is_slow_due(p, now) {
            Some(
                SlowPlan {
                    procs: if detail > 0 {
                        Some(
                            match p.last_procs {
                                Some(t) => at_least(time_between(t, now), SHORTEST_LOOK),
                                None => elapsed,
                            },
                        )
                    } else {
                        None
                    },
                    full: detail >= 2,
                    traffic: detail > 0 && focus == "network"@,
                },
            )
        } else {
            None
        },
    }
}

/// The pace after the tick at the time `now`.
pub open spec fn paced(p: Pace, now: u64, detail: u8) -> Pace {
    if is_slow_due(p, now) {
        Pace {
            last: now,
            last_slow: Some(now),
            last_procs: if detail > 0 {
                Some(now)
            } else {
                None
            },
        }
    } else {
        Pace { last: now, ..p }
    }
}

/// Nanoseconds from `from` to `to`; none where that is earlier.
fn between(from: u64, to: u64) -> (r: u64)
    ensures
        r == time_between(from, to),
{
    if to > from {
        to - from
    } else {
        0
    }
}

/// `a`, or `b` where that is more.
fn no_less(a: u64, b: u64) -> (r: u64)
    ensures
        r == at_least(a, b),
{
    if a < b {
        b
    } else {
        a
    }
}

impl Pace {
    /// The pace of a sampler that starts at the time `now`.
    pub fn new(now: u64) -> (r: Pace)
        ensures
            r == (Pace { last: now, last_slow: None, last_procs: None }),
    {
        Pace { last: now, last_slow: None, last_procs: None }
    }

    /// What the tick at the time `now` does.
    pub fn tick(&mut self, now: u64, detail: u8, focus: &str) -> (r: TickPlan)
        ensures
            r == plan(*old(self), now, detail, focus@),
            *final(self) == paced(*old(self), now, detail),
    {
        let elapsed: u64 = no_less(between(self.last, now), SHORTEST_TICK);
        self.last = now;
        let due: bool = match self.last_slow {
            Some(t) => between(t, now) >= SLOW_AFTER,
            None => true,
        };
        if !due {
            return TickPlan { elapsed, slow: None };
        }
        let procs: Option<u64> = if detail > 0 {
            let since: u64 = match self.last_procs {
                Some(t) => no_less(between(t, now), SHORTEST_LOOK),
                None => elapsed,
            };
            self.last_procs = Some(now);
            Some(since)
        } else {
            self.last_procs = None;
            None
        };
        self.last_slow = Some(now);
        TickPlan {
            elapsed,
            slow: Some(
                SlowPlan {
                    procs,
                    full: detail >= 2,
                    traffic: detail > 0 && same_str(focus, "network"),
                },
            ),
        }
    }
}

/// Whether an interval is neither shorter than a tenth of a second nor longer than half a
/// minute.
pub open spec fn in_bounds(interval: Bits) -> bool {
    devices::order_of(SHORTEST_INTERVAL) <= devices::order_of(interval) <= devices::order_of(
        LONGEST_INTERVAL,
    )
}

/// A number that was asked for becomes an interval in bounds, and one in bounds is taken
/// as it is.
pub proof fn interval_is_the_nearest_in_bounds(seconds: Bits)
    requires
        is_number(seconds),
    ensures
        in_bounds(clamped(seconds)),
        in_bounds(seconds) ==> clamped(seconds) == seconds,
        devices::order_of(seconds) < devices::order_of(SHORTEST_INTERVAL) ==> clamped(seconds)
            == SHORTEST_INTERVAL,
        devices::order_of(seconds) > devices::order_of(LONGEST_INTERVAL) ==> clamped(seconds)
            == LONGEST_INTERVAL,
{
}

/// Whatever the arguments and the commands ask for, the interval is in bounds, at the
/// start and after every command.
pub proof fn interval_stays_in_bounds(
    seconds: Option<Bits>,
    c: ControlView,
    command: CommandView,
)
    requires
        in_bounds(c.interval),
    ensures
        in_bounds(first_interval(seconds)),
        in_bounds(obeyed(c, command, seconds).interval),
        (seconds is None || !is_number(seconds->0)) ==> obeyed(c, command, seconds).interval
            == c.interval,
{
}

/// The state `c` after control lines, each with the number that its second word means, if
/// it means one. A line that asks for nothing changes nothing.
pub open spec fn after_lines(c: ControlView, lines: Seq<(Seq<char>, Option<Bits>)>) -> ControlView
    decreases lines.len(),
{
    if lines.len() == 0 {
        c
    } else {
        let before = after_lines(c, lines.drop_last());
        match command(lines.last().0) {
            Some(asked) => obeyed(before, asked, lines.last().1),
            None => before,
        }
    }
}

/// The interval is in bounds after any control lines, whatever they hold.
pub proof fn interval_stays_in_bounds_through_lines(
    c: ControlView,
    lines: Seq<(Seq<char>, Option<Bits>)>,
)
    requires
        in_bounds(c.interval),
    ensures
        in_bounds(after_lines(c, lines).interval),
    decreases lines.len(),
{
    if lines.len() > 0 {
        interval_stays_in_bounds_through_lines(c, lines.drop_last());
        if let Some(asked) = command(lines.last().0) {
            interval_stays_in_bounds(lines.last().1, after_lines(c, lines.drop_last()), asked);
        }
    }
}

/// Once told to stop, the sampler stays told.
pub proof fn stopping_is_final(c: ControlView, command: CommandView, seconds: Option<Bits>)
    requires
        c.stop,
    ensures
        obeyed(c, command, seconds).stop,
{
}

/// After a slow tick no tick is slow before its time has passed, whatever the interval
/// and whatever ticks come between.
pub proof fn slow_ticks_are_apart(p: Pace, ticks: Seq<(u64, u8)>, now: u64)
    requires
        p.last_slow is Some,
        forall|i: int|
            0 <= i < ticks.len() ==> time_between(p.last_slow->0, (#[trigger] ticks[i]).0)
                < SLOW_AFTER,
        time_between(p.last_slow->0, now) < SLOW_AFTER,
    ensures
        !is_slow_due(paced_through(p, ticks), now),
        paced_through(p, ticks).last_slow == p.last_slow,
    decreases ticks.len(),
{
    if ticks.len() > 0 {
        let rest = ticks.drop_last();
        assert forall|i: int| 0 <= i < rest.len() implies time_between(
            p.last_slow->0,
            (#[trigger] rest[i]).0,
        ) < SLOW_AFTER by {
            assert(rest[i] == ticks[i]);
        }
        slow_ticks_are_apart(p, rest, ticks.last().0);
    }
}

/// The pace after the ticks `ticks`, each with its time and its level of detail.
pub open spec fn paced_through(p: Pace, ticks: Seq<(u64, u8)>) -> Pace
    decreases ticks.len(),
{
    if ticks.len() == 0 {
        p
    } else {
        paced(paced_through(p, ticks.drop_last()), ticks.last().0, ticks.last().1)
    }
}

/// Without detail nothing is told of processes, and traffic is told only of the page that
/// shows it.
pub proof fn processes_need_detail(p: Pace, now: u64, detail: u8, focus: Seq<char>)
    ensures
        ({
            let slow = plan(p, now, detail, focus).slow;
            &&& slow is Some && detail == 0 ==> slow->0.procs is None && !slow->0.full
                && !slow->0.traffic
            &&& slow is Some && slow->0.traffic ==> slow->0.procs is Some && focus == "network"@
        }),
{
}

} // verus!
