//! When a sampler does what, in terms of the clock and of what it was told.

use crate::cards;
use crate::control;
use crate::control::{CommandView, ControlView, Pace};
use crate::devices::Bits;
use crate::output;
use crate::output::{JsonView, NumberView};
use crate::text;
use vstd::prelude::*;

verus! {

/// On a slow tick the traffic is told of if and only if there is any detail and the page
/// shown is that of the network; processes are looked at if and only if there is any
/// detail; and every one is told of if and only if the detail is full.
pub proof fn slow_ticks_tell_what_was_asked_for(p: Pace, now: u64, detail: u8, focus: Seq<char>)
    requires
        control::plan(p, now, detail, focus).slow is Some,
    ensures
        ({
            let slow = control::plan(p, now, detail, focus).slow->0;
            &&& slow.traffic <==> detail >= 1 && focus == "network"@
            &&& slow.procs is Some <==> detail >= 1
            &&& slow.full <==> detail >= 2
        }),
{
}

/// The first tick is slow, and after a slow one those from a second later on are. A tick
/// that is not slow leaves what is remembered of the slow one and of the processes.
pub proof fn ticks_are_slow_once_a_second(p: Pace, now: u64, detail: u8, focus: Seq<char>)
    ensures
        ({
            let slow = control::plan(p, now, detail, focus).slow is Some;
            let after = control::paced(p, now, detail);
            &&& p.last_slow is None ==> slow
            &&& p.last_slow matches Some(t) ==> (slow <==> now - t >= 1_000_000_000)
            &&& after.last == now
            &&& slow ==> after.last_slow == Some(now)
            &&& slow && detail >= 1 ==> after.last_procs == Some(now)
            &&& slow && detail == 0 ==> after.last_procs is None
            &&& !slow ==> after.last_slow == p.last_slow && after.last_procs == p.last_procs
        }),
{
}

/// A tick counts as the time since the one before it, but never as less than twenty
/// milliseconds; a look at the processes as the time since the look before it, but never
/// as less than fifty, and where there was none as the time of the tick.
pub proof fn ticks_count_as_the_time_between(p: Pace, now: u64, detail: u8, focus: Seq<char>)
    ensures
        ({
            let plan = control::plan(p, now, detail, focus);
            &&& now - p.last >= 20_000_000 ==> plan.elapsed == now - p.last
            &&& now - p.last < 20_000_000 ==> plan.elapsed == 20_000_000
            &&& plan.slow matches Some(slow) ==> (slow.procs matches Some(since) ==> {
                &&& p.last_procs is None ==> since == plan.elapsed
                &&& p.last_procs matches Some(t) ==> {
                    &&& now - t >= 50_000_000 ==> since == now - t
                    &&& now - t < 50_000_000 ==> since == 50_000_000
                }
            })
        }),
{
}

/// Whether `seconds` are the bits of a number: the exponent is not full or, of infinity,
/// no other bit is set but the sign.
pub open spec fn means_seconds(seconds: Bits) -> bool {
    seconds <= 0x7ff0_0000_0000_0000 || 0x8000_0000_0000_0000 <= seconds
        <= 0xfff0_0000_0000_0000
}

/// Whether the interval `after` is what is made of asking for `seconds`: that many where
/// they are from a tenth to thirty, and the nearer of these two where they are not.
pub open spec fn is_nearest(after: Bits, seconds: Bits) -> bool {
    let tenth = 0x3fb9_9999_9999_999au64;
    let thirty = 0x403e_0000_0000_0000u64;
    &&& !cards::no_smaller(seconds, tenth) ==> after == tenth
    &&& !cards::no_smaller(thirty, seconds) ==> after == thirty
    &&& cards::no_smaller(seconds, tenth) && cards::no_smaller(thirty, seconds) ==> after
        == seconds
}

/// Each command changes the one thing that it names, to what it says, and nothing else.
pub proof fn commands_change_what_they_name(
    c: ControlView,
    level: u8,
    page: Seq<char>,
    word: Seq<char>,
    seconds: Option<Bits>,
)
    ensures
        ({
            let after = control::obeyed(c, CommandView::Detail(level), seconds);
            &&& after.detail == level
            &&& after == (ControlView { detail: after.detail, ..c })
        }),
        ({
            let after = control::obeyed(c, CommandView::Focus(page), seconds);
            &&& after.focus == page
            &&& after == (ControlView { focus: after.focus, ..c })
        }),
        ({
            let after = control::obeyed(c, CommandView::Interval(word), seconds);
            &&& seconds is None ==> after == c
            &&& seconds matches Some(s) ==> !means_seconds(s) ==> after == c
            &&& seconds matches Some(s) ==> means_seconds(s) ==> is_nearest(after.interval, s)
            &&& after == (ControlView { interval: after.interval, ..c })
        }),
        ({
            let after = control::obeyed(c, CommandView::PublicIp, seconds);
            &&& after.public_ip_requested
            &&& after == (ControlView { public_ip_requested: after.public_ip_requested, ..c })
        }),
        ({
            let after = control::obeyed(c, CommandView::Quit, seconds);
            &&& after.stop
            &&& after == (ControlView { stop: after.stop, ..c })
        }),
{
}

/// The sampler starts with the interval that it was asked for, brought within bounds, and
/// with one of a second where it was asked for none or for what is no number.
pub proof fn first_interval_is_the_one_asked_for(seconds: Option<Bits>)
    ensures
        seconds is None ==> control::first_interval(seconds) == 0x3ff0_0000_0000_0000,
        seconds matches Some(s) ==> !means_seconds(s) ==> control::first_interval(seconds)
            == 0x3ff0_0000_0000_0000,
        seconds matches Some(s) ==> means_seconds(s) ==> is_nearest(
            control::first_interval(seconds),
            s,
        ),
{
}

/// Asking for something in bounds gives just that, and what comes out can be asked for
/// again without a change: an interval is as good as the word for it.
pub proof fn asking_twice_changes_nothing(seconds: Bits)
    requires
        means_seconds(seconds),
    ensures
        means_seconds(control::clamped(seconds)),
        control::clamped(control::clamped(seconds)) == control::clamped(seconds),
        cards::no_smaller(control::clamped(seconds), 0x3fb9_9999_9999_999a),
        cards::no_smaller(0x403e_0000_0000_0000, control::clamped(seconds)),
{
}

/// The first word of a line says what it is about, the second what is asked for. A level
/// of detail is full for "2", "full" and "all", some for "1", "true" and "on", and none
/// for any other word.
pub proof fn lines_ask_for_what_their_words_say(line: Seq<char>, page: Seq<char>)
    ensures
        ({
            let words = text::words(line);
            let asked = control::command(line);
            let two = words.len() >= 2;
            let full = seq!["2"@, "full"@, "all"@];
            let some = seq!["1"@, "true"@, "on"@];
            &&& asked == Some(CommandView::Detail(2)) <==> two && words[0] == "detail"@
                && full.contains(words[1])
            &&& asked == Some(CommandView::Detail(1)) <==> two && words[0] == "detail"@
                && some.contains(words[1])
            &&& asked == Some(CommandView::Detail(0)) <==> two && words[0] == "detail"@
                && !full.contains(words[1]) && !some.contains(words[1])
            &&& asked == Some(CommandView::Focus(page)) <==> two && words[0] == "focus"@ && words[1]
                == page
            &&& asked == Some(CommandView::Interval(page)) <==> two && words[0] == "interval"@
                && words[1] == page
            &&& asked == Some(CommandView::PublicIp) <==> words.len() >= 1 && words[0] == "pubip"@
            &&& asked == Some(CommandView::Quit) <==> words.len() >= 1 && words[0] == "quit"@
            &&& words.len() == 0 ==> asked is None
        }),
{
    reveal_strlit("detail");
    reveal_strlit("focus");
    reveal_strlit("interval");
    reveal_strlit("pubip");
    reveal_strlit("quit");
    reveal_strlit("2");
    reveal_strlit("full");
    reveal_strlit("all");
    reveal_strlit("1");
    reveal_strlit("true");
    reveal_strlit("on");
    assert("detail"@.len() == 6 && "focus"@.len() == 5 && "interval"@.len() == 8 && "pubip"@.len()
        == 5 && "quit"@.len() == 4);
    assert("focus"@[0] == 'f' && "pubip"@[0] == 'p');
    assert("2"@[0] == '2' && "full"@[0] == 'f' && "all"@[0] == 'a');
    assert("1"@[0] == '1' && "true"@[0] == 't' && "on"@[0] == 'o');
    let full = seq!["2"@, "full"@, "all"@];
    let some = seq!["1"@, "true"@, "on"@];
    assert(full[0] == "2"@ && full[1] == "full"@ && full[2] == "all"@);
    assert(some[0] == "1"@ && some[1] == "true"@ && some[2] == "on"@);
}

/// The value of a flag is the argument behind the first place where it stands; a flag that
/// nothing follows, or that is not there, has none.
pub proof fn flags_have_the_value_behind_them(
    before: Seq<Seq<char>>,
    flag: Seq<char>,
    value: Seq<char>,
    after: Seq<Seq<char>>,
)
    requires
        !before.contains(flag),
    ensures
        control::argument(before + seq![flag, value] + after, flag) == Some(value),
        control::argument(before.push(flag), flag) is None,
        control::argument(before, flag) is None,
{
    let n = before.len() as int;
    let p = control::is_not(flag);
    let args = before + seq![flag, value] + after;
    assert forall|i: int| 0 <= i < n implies p(#[trigger] before[i]) by {
        assert(before.contains(before[i]));
    }
    assert forall|i: int| 0 <= i < n implies p(#[trigger] args[i]) by {
        assert(args[i] == before[i]);
    }
    assert(args[n] == flag && args[n + 1] == value);
    text::lemma_span(args, p, n);
    let alone = before.push(flag);
    assert forall|i: int| 0 <= i < n implies p(#[trigger] alone[i]) by {
        assert(alone[i] == before[i]);
    }
    text::lemma_span(alone, p, n);
    text::lemma_span(before, p, n);
}

/// The arguments ask for the version with either of its flags, for one sample, for full
/// detail, for some where not for full, for an interval and for a page.
pub proof fn arguments_ask_for_what_they_name(args: Seq<Seq<char>>)
    ensures
        ({
            let asked = control::options(args);
            let given = |flag: Seq<char>| exists|i: int| 0 <= i < args.len() && args[i] == flag;
            &&& asked.version <==> given("--version"@) || given("-V"@)
            &&& asked.once <==> given("--once"@)
            &&& asked.detail == 2 <==> given("--full"@)
            &&& asked.detail == 1 <==> given("--detail"@) && !given("--full"@)
            &&& asked.detail == 0 <==> !given("--detail"@) && !given("--full"@)
            &&& asked.interval == control::argument(args, "--interval"@)
            &&& control::argument(args, "--focus"@) matches Some(page) ==> asked.focus == page
            &&& control::argument(args, "--focus"@) is None ==> asked.focus.len() == 0
        }),
{
}

/// The record that stands for a sample that is too long tells its number, its time, the
/// time it counts as and the interval, and why there is no more to it.
pub proof fn error_records_tell_the_limit(
    seq: u64,
    now: JsonView,
    elapsed: JsonView,
    interval: JsonView,
)
    ensures
        ({
            let record = output::error_record(seq, now, elapsed, interval);
            let m = record->Object_0;
            &&& record is Object
            &&& m.dom() == set!["seq"@, "t"@, "elapsed"@, "interval"@, "errors"@]
            &&& m["seq"@] == JsonView::Number(NumberView::Whole(seq))
            &&& m["t"@] == now
            &&& m["elapsed"@] == elapsed
            &&& m["interval"@] == interval
            &&& m["errors"@] == JsonView::List(
                seq![JsonView::Text("sample exceeded 524288-byte output limit"@)],
            )
        }),
{
    reveal_strlit("seq");
    reveal_strlit("t");
    reveal_strlit("elapsed");
    reveal_strlit("interval");
    reveal_strlit("errors");
    reveal_strlit("sample exceeded ");
    reveal_strlit("-byte output limit");
    reveal_strlit("sample exceeded 524288-byte output limit");
    assert("seq"@.len() == 3 && "t"@.len() == 1 && "elapsed"@.len() == 7 && "interval"@.len() == 8
        && "errors"@.len() == 6);
    reveal_with_fuel(text::decimal, 7);
    assert(text::decimal(524288) == seq!['5', '2', '4', '2', '8', '8']);
    assert(output::too_long() == "sample exceeded 524288-byte output limit"@);
}

/// A line has room for half a mebibyte.
pub proof fn lines_have_half_a_mebibyte(line: Seq<char>)
    ensures
        output::is_short(line) <==> text::utf8(line).len() <= 512 * 1024,
{
}

/// A time or an interval that is known stands in a record as its number, and one that is
/// not as nothing.
pub proof fn unknown_numbers_are_null(n: serde_json::Number)
    ensures
        output::number_or_null(None) == JsonView::Null,
        output::number_or_null(Some(n)) == JsonView::Number(output::number(n)),
{
}

} // verus!
