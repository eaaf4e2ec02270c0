//! Control lines, arguments, and the pace of sampling.

use omastats_sampler::control::{
    clamp_interval, means_number, parse_args, parse_command, Command, Control, Pace, SlowPlan, TickPlan,
    LONGEST_INTERVAL, SHORTEST_INTERVAL, SHORTEST_LOOK, SHORTEST_TICK, SLOW_AFTER, USUAL_INTERVAL,
};

fn args(words: &[&str]) -> Vec<String> {
    words.iter().map(|w| w.to_string()).collect()
}

#[test]
fn intervals_are_clamped_as_numbers_are() {
    assert_eq!(f64::from_bits(SHORTEST_INTERVAL), 0.1);
    assert_eq!(f64::from_bits(LONGEST_INTERVAL), 30.0);
    assert_eq!(f64::from_bits(USUAL_INTERVAL), 1.0);
    let numbers = [
        0.0, -0.0, 0.05, 0.1, 0.10000000000000002, 0.5, 1.0, 29.99, 30.0, 30.1, 1e9, -1.0, -1e300,
        f64::INFINITY, f64::NEG_INFINITY,
    ];
    for n in numbers {
        assert_eq!(f64::from_bits(clamp_interval(n.to_bits())), n.clamp(0.1, 30.0));
    }
    assert!(f64::from_bits(clamp_interval(f64::NAN.to_bits())).is_nan());
    assert!(means_number(f64::INFINITY.to_bits()) && means_number((-1.5f64).to_bits()));
    assert!(!means_number(f64::NAN.to_bits()) && !means_number((-f64::NAN).to_bits()));
}

#[test]
fn an_interval_that_is_no_number_is_not_taken() {
    let nan = Some(f64::NAN.to_bits());
    let mut c = control();
    c.obey(Command::Interval("0".to_string()), Some(0f64.to_bits()));
    assert_eq!(f64::from_bits(c.interval), 0.1);
    c.obey(Command::Interval("nan".to_string()), nan);
    assert_eq!(f64::from_bits(c.interval), 0.1);
    let o = parse_args(&args(&["--interval", "nan"]));
    assert_eq!(f64::from_bits(o.control(nan).interval), 1.0);
}

#[test]
fn control_lines_are_understood() {
    assert_eq!(parse_command("detail 2"), Some(Command::Detail(2)));
    assert_eq!(parse_command("detail full"), Some(Command::Detail(2)));
    assert_eq!(parse_command("detail all"), Some(Command::Detail(2)));
    assert_eq!(parse_command("  detail\ton  extra"), Some(Command::Detail(1)));
    assert_eq!(parse_command("detail 1"), Some(Command::Detail(1)));
    assert_eq!(parse_command("detail true"), Some(Command::Detail(1)));
    assert_eq!(parse_command("detail 0"), Some(Command::Detail(0)));
    assert_eq!(parse_command("detail whatever"), Some(Command::Detail(0)));
    assert_eq!(parse_command("focus network"), Some(Command::Focus("network".to_string())));
    assert_eq!(parse_command("interval 0.5"), Some(Command::Interval("0.5".to_string())));
    assert_eq!(parse_command("pubip"), Some(Command::PublicIp));
    assert_eq!(parse_command("quit now"), Some(Command::Quit));
}

#[test]
fn other_lines_are_ignored() {
    for line in ["", "   ", "detail", "focus", "interval", "Quit", "nonsense 1"] {
        assert_eq!(parse_command(line), None);
    }
}

fn control() -> Control {
    parse_args(&vec![]).control(None)
}

#[test]
fn commands_change_what_they_name_and_nothing_else() {
    let mut c = control();
    c.obey(Command::Detail(2), None);
    c.obey(Command::Focus("network".to_string()), None);
    c.obey(Command::Interval("99".to_string()), Some(99f64.to_bits()));
    assert_eq!((c.detail, c.focus.as_str(), f64::from_bits(c.interval)), (2, "network", 30.0));
    c.obey(Command::Interval("soon".to_string()), None);
    assert_eq!(f64::from_bits(c.interval), 30.0);
    assert!(!c.stop && !c.public_ip_requested);
    c.obey(Command::Quit, None);
    c.obey(Command::Detail(0), None);
    assert!(c.stop);
}

#[test]
fn a_request_for_the_public_address_is_handed_out_once() {
    let mut c = control();
    c.obey(Command::PublicIp, None);
    assert!(c.orders().public_ip);
    let again = c.orders();
    assert!(!again.public_ip);
    assert_eq!((again.detail, again.focus.as_str(), again.stop), (0, "", false));
    assert_eq!(f64::from_bits(again.interval), 1.0);
}

#[test]
fn arguments_are_understood() {
    let o = parse_args(&args(&["--interval", "0.2", "--focus", "disks", "--once", "--detail"]));
    assert_eq!(o.interval.as_deref(), Some("0.2"));
    assert_eq!((o.version, o.once, o.detail, o.focus.as_str()), (false, true, 1, "disks"));
    let c = o.control(Some(0.05f64.to_bits()));
    assert_eq!((f64::from_bits(c.interval), c.detail, c.focus.as_str()), (0.1, 1, "disks"));
    let o = parse_args(&args(&["--detail", "--full", "-V"]));
    assert_eq!((o.version, o.once, o.detail), (true, false, 2));
    assert!(parse_args(&args(&["x", "--version"])).version);
}

#[test]
fn flags_without_their_value_are_as_good_as_absent() {
    let o = parse_args(&args(&["--focus", "--interval"]));
    assert_eq!(o.focus, "--interval");
    assert_eq!(o.interval, None);
    assert_eq!(parse_args(&args(&["--focus"])).focus, "");
    // the first of two counts
    let o = parse_args(&args(&["--focus", "a", "--focus", "b"]));
    assert_eq!(o.focus, "a");
}

#[test]
fn slow_parts_are_sampled_at_most_once_a_second() {
    assert_eq!(SLOW_AFTER, 1_000_000_000);
    let mut pace = Pace::new(0);
    let first = pace.tick(100_000_000, 1, "cpu");
    assert_eq!(
        first,
        TickPlan {
            elapsed: 100_000_000,
            slow: Some(SlowPlan { procs: Some(100_000_000), full: false, traffic: false }),
        }
    );
    // a tick every tenth of a second, whatever is asked for
    for i in 1..10 {
        let t = 100_000_000 + i * 100_000_000;
        assert_eq!(pace.tick(t, 2, "network").slow, None);
    }
    let next = pace.tick(100_000_000 + SLOW_AFTER + 50_000_000, 2, "network");
    assert_eq!(
        next.slow,
        Some(SlowPlan { procs: Some(SLOW_AFTER + 50_000_000), full: true, traffic: true })
    );
}

#[test]
fn slow_parts_are_due_at_the_very_moment() {
    let mut pace = Pace { last: 0, last_slow: Some(1000), last_procs: None };
    assert_eq!(pace.tick(1000 + SLOW_AFTER - 1, 0, "").slow, None);
    let due = pace.tick(1000 + SLOW_AFTER, 0, "network").slow.unwrap();
    assert_eq!(due, SlowPlan { procs: None, full: false, traffic: false });
}

#[test]
fn times_are_never_too_short() {
    let mut pace = Pace::new(500);
    let plan = pace.tick(500, 1, "");
    assert_eq!(plan.elapsed, SHORTEST_TICK);
    assert_eq!(plan.slow.unwrap().procs, Some(SHORTEST_TICK));
    // time that goes backwards counts as none
    assert_eq!(pace.tick(10, 1, "").elapsed, SHORTEST_TICK);
    let mut pace = Pace { last: 0, last_slow: None, last_procs: Some(990) };
    assert_eq!(pace.tick(1000, 1, "").slow.unwrap().procs, Some(SHORTEST_LOOK));
}

#[test]
fn without_detail_the_processes_are_forgotten() {
    let mut pace = Pace { last: 0, last_slow: None, last_procs: Some(7) };
    assert_eq!(pace.tick(1000, 0, "network").slow.unwrap().procs, None);
    assert_eq!(pace.last_procs, None);
    let later = pace.tick(1000 + 2 * SLOW_AFTER, 1, "");
    assert_eq!(later.slow.unwrap().procs, Some(2 * SLOW_AFTER));
}
