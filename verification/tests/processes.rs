//! Processes: their names, their files, and the lists of a sample.

use omastats_sampler::groups::{endable_pids, Observation, END_PID_LIMIT, FULL_LIMIT, PROC_LIMIT};
use omastats_sampler::names::{can_display, cgroup_label, display_name, numbered, parse_comm};
use omastats_sampler::procs::ProcessSampler;
use omastats_sampler::report::{ProcRow, ProcessReport};
use omastats_sampler::stat::{
    can_parse_stat, next_step, parse_io, parse_stat, within_limit, IoBytes, ProcStat, ScanStep,
    PROCESS_SCAN_LIMIT, PROC_FILE_LIMIT,
};

#[test]
fn only_complete_groups_of_own_processes_can_be_ended() {
    assert_eq!(endable_pids(true, &[10, 11], 2), &[10, 11]);
    assert!(endable_pids(false, &[10, 11], 2).is_empty());
    // More processes than were listed: ending some of them would mislead.
    assert!(endable_pids(true, &[10, 11], 40).is_empty());
}

#[test]
fn short_names_are_kept() {
    assert_eq!(display_name("bash", Some("/usr/bin/zsh\0-l")), "bash");
    assert_eq!(display_name("", None), "");
}

#[test]
fn cut_names_are_completed_from_the_command_line() {
    let comm = "gnome-keyring-d";
    assert_eq!(comm.len(), 15);
    let cmdline = "/usr/bin/gnome-keyring-daemon\0--start";
    assert_eq!(display_name(comm, Some(cmdline)), "gnome-keyring-daemon");
    assert_eq!(display_name(comm, None), comm);
    assert_eq!(display_name(comm, Some("")), comm);
    assert_eq!(display_name(comm, Some("/usr/bin/")), comm);
    // another program, no longer than the name: the name is kept
    assert_eq!(display_name(comm, Some("python3")), comm);
    // a longer one counts whatever it begins with
    assert_eq!(display_name(comm, Some("a-very-long-program-name")), "a-very-long-program-name");
    // as does one that begins alike
    assert_eq!(display_name(comm, Some("gnome-kex")), "gnome-kex");
}

#[test]
fn long_names_are_bounded() {
    let cmdline = "x".repeat(300);
    assert_eq!(display_name("fifteen-letters", Some(&cmdline)).len(), 256);
    let comm = "y".repeat(300);
    assert_eq!(display_name(&comm, None).len(), 256);
}

#[test]
fn names_that_would_be_cut_inside_a_character_are_found_out() {
    assert!(can_display("1234567\u{e9}123456", None));
    assert!(!can_display("1234567\u{e9}123456", Some("program")));
    assert!(can_display("123456\u{e9}1234567", Some("program")));
    assert!(can_display("\u{e9}", Some("program")));
}

#[test]
fn cgroups_have_readable_labels() {
    let scope = "/user.slice/app.slice/app-Hyprland-firefox-1234.scope";
    assert_eq!(cgroup_label(scope), "firefox");
    assert_eq!(cgroup_label("/system.slice/sshd.service"), "sshd");
    assert_eq!(cgroup_label("app-gnome-org.foo\\x2dbar-12.scope"), "org.foo-bar");
    assert_eq!(cgroup_label("app-launcher-name.service"), "name");
    assert_eq!(cgroup_label("app-only.scope"), "app-only");
    assert_eq!(cgroup_label("/"), "other");
    assert_eq!(cgroup_label(""), "other");
    assert_eq!(cgroup_label(".scope"), "other");
    assert_eq!(cgroup_label("x.slice.slice"), "x");
    assert_eq!(cgroup_label(&"z".repeat(300)).len(), 256);
}

#[test]
fn entries_of_proc_are_told_apart() {
    assert_eq!(next_step("1234", 0), ScanStep::Take(1234));
    assert_eq!(next_step("self", 0), ScanStep::Skip);
    assert_eq!(next_step("4294967296", 0), ScanStep::Skip);
    assert_eq!(next_step("4294967295", PROCESS_SCAN_LIMIT - 1), ScanStep::Take(4294967295));
    assert_eq!(next_step("1", PROCESS_SCAN_LIMIT), ScanStep::Stop);
    assert_eq!(next_step("self", PROCESS_SCAN_LIMIT), ScanStep::Skip);
}

const STAT: &str = "42 (tmux: (server)) S 1 42 42 0 -1 4194560 1 2 3 4 150 50 5 6 20 0 1 0 99 \
                    1000 7 18446744073709551615 1 1";

#[test]
fn stat_lines_are_read() {
    assert!(can_parse_stat(STAT));
    let s = parse_stat(STAT).expect("a live process");
    assert_eq!(s.comm, "tmux: (server)");
    assert_eq!((s.utime, s.stime, s.pages), (150, 50, 7));
    assert_eq!(parse_comm(STAT), Some("tmux: (server)".to_string()));
}

#[test]
fn zombies_and_short_lines_are_passed_over() {
    assert!(parse_stat(&STAT.replace(") S", ") Z")).is_none());
    assert!(parse_stat("42 (x) S 1 2 3").is_none());
    assert!(parse_stat("no parentheses").is_none());
    assert_eq!(parse_comm("no parentheses"), None);
    assert_eq!(parse_comm(")("), None);
    // a number that is none counts as nothing
    let s = parse_stat(&STAT.replace(" 150 50 ", " x 50 ")).unwrap();
    assert_eq!((s.utime, s.stime), (0, 50));
}

#[test]
fn lines_that_do_not_fall_apart_are_found_out() {
    assert!(!can_parse_stat(") ("));
    assert!(!can_parse_stat("1 (x)"));
    assert!(!can_parse_stat("1 (x)\u{e9} S"));
    assert!(can_parse_stat("1 (x) "));
    assert!(can_parse_stat("nothing"));
}

#[test]
fn files_that_are_too_long_are_passed_over() {
    assert_eq!(PROC_FILE_LIMIT, 64 * 1024);
    assert_eq!(within_limit(b"abc".to_vec()), Some(b"abc".to_vec()));
    let longest = vec![7u8; PROC_FILE_LIMIT];
    assert_eq!(within_limit(longest.clone()), Some(longest));
    assert_eq!(within_limit(vec![7u8; PROC_FILE_LIMIT + 1]), None);
}

#[test]
fn io_counters_are_read() {
    let io = "rchar: 5\nwchar: 6\nread_bytes: 4096\nwrite_bytes: 8192\ncancelled_write_bytes: 1\n";
    assert_eq!(parse_io(io), IoBytes { read: 4096, write: 8192 });
    // nothing after the bytes written is looked at
    let io = "write_bytes: 1\nread_bytes: 2\n";
    assert_eq!(parse_io(io), IoBytes { read: 0, write: 1 });
    assert_eq!(parse_io("read_bytes: x"), IoBytes { read: 0, write: 0 });
    assert_eq!(parse_io(""), IoBytes { read: 0, write: 0 });
}

fn seen(pid: u32, name: &str, ticks: u64, pages: u64, read: u64, write: u64) -> Observation {
    Observation {
        pid,
        name: name.to_string(),
        own: true,
        utime: ticks,
        stime: 0,
        pages,
        read_bytes: read,
        write_bytes: write,
    }
}

fn sampler() -> ProcessSampler {
    ProcessSampler::new(100, 4096, Some(4))
}

fn names(rows: &[ProcRow]) -> Vec<&str> {
    rows.iter().map(|r| r.name.as_str()).collect()
}

fn two(sampler: &mut ProcessSampler, a: Vec<Observation>, b: Vec<Observation>) -> ProcessReport {
    sampler.sample(Some(a), 1_000_000_000, false);
    sampler.sample(Some(b), 1_000_000_000, true)
}

#[test]
fn samplers_fall_back_on_usual_values() {
    let s = ProcessSampler::new(0, 0, None);
    assert_eq!((s.threads(), s.clk_tck()), (1, 100));
    let mut s = ProcessSampler::new(-1, 0, None);
    let report = s.sample(Some(vec![seen(1, "a", 0, 2, 0, 0)]), 1, false);
    assert_eq!(report.mem[0].mem, 2 * 4096);
}

#[test]
fn processes_are_taken_together_by_name() {
    let mut s = sampler();
    let before = vec![
        seen(1, "a", 10, 1, 100, 200),
        seen(2, "b", 20, 5, 0, 0),
        seen(3, "a", 30, 2, 0, 50),
    ];
    let after = vec![
        seen(1, "a", 15, 1, 160, 200),
        seen(2, "b", 21, 5, 0, 0),
        seen(3, "a", 32, 2, 0, 70),
        seen(4, "c", 99, 0, 9, 9),
    ];
    let r = two(&mut s, before, after);
    assert_eq!(r.total, Some(3));
    assert_eq!(names(&r.cpu), vec!["a", "b"]);
    assert_eq!(names(&r.mem), vec!["b", "a"]);
    assert_eq!(names(&r.io), vec!["a"]);
    let a = &r.cpu[0];
    assert_eq!((a.pid, a.count, a.ticks, a.mem), (1, 2, 7, 3 * 4096));
    assert_eq!((a.read, a.write), (60, 20));
    assert_eq!(a.pids, vec![1, 3]);
    let all = r.all.unwrap();
    assert_eq!(names(&all), vec!["a", "b", "c"]);
    assert_eq!((all[2].ticks, all[2].read), (0, 0));
    // over all groups everything adds up
    assert_eq!(all.iter().map(|g| g.count).sum::<u32>(), 4);
    assert_eq!(all.iter().map(|g| g.mem).sum::<u128>(), 8 * 4096);
}

#[test]
fn a_first_sample_shows_memory_only() {
    let mut s = sampler();
    let r = s.sample(Some(vec![seen(1, "a", 10, 1, 5, 5)]), 1_000_000_000, false);
    assert!(r.cpu.is_empty() && r.io.is_empty() && r.all.is_none());
    assert_eq!(names(&r.mem), vec!["a"]);
}

#[test]
fn a_reset_makes_the_next_sample_a_first_one() {
    let mut s = sampler();
    s.sample(Some(vec![seen(1, "a", 10, 1, 5, 5)]), 1, false);
    assert!(s.knows(1));
    s.reset();
    assert!(!s.knows(1));
    let r = s.sample(Some(vec![seen(1, "a", 20, 1, 9, 9)]), 1, false);
    assert!(r.cpu.is_empty() && r.io.is_empty());
}

#[test]
fn counters_that_do_not_move_or_fall_show_no_use() {
    let mut s = sampler();
    let before = vec![seen(1, "a", 10, 1, 5, 5), seen(2, "b", 10, 1, 5, 5)];
    let after = vec![seen(1, "a", 10, 1, 5, 5), seen(2, "b", 3, 1, 0, 2)];
    let r = two(&mut s, before, after);
    assert!(r.cpu.is_empty() && r.io.is_empty());
    // no time has passed: nothing is compared
    let r = s.sample(Some(vec![seen(1, "a", 99, 1, 99, 99)]), 0, false);
    assert!(r.cpu.is_empty() && r.io.is_empty());
}

#[test]
fn only_whole_groups_of_own_processes_are_offered() {
    let mut s = sampler();
    let limit = END_PID_LIMIT as u32;
    let mut obs: Vec<Observation> = (1..=limit).map(|p| seen(p, "few", 0, 1, 0, 0)).collect();
    obs.extend((100..=100 + limit).map(|p| seen(p, "many", 0, 1, 0, 0)));
    let mut foreign = seen(500, "mixed", 0, 1, 0, 0);
    foreign.own = false;
    obs.push(foreign);
    obs.push(seen(501, "mixed", 0, 1, 0, 0));
    let r = s.sample(Some(obs), 1, true);
    for row in r.all.unwrap() {
        match row.name.as_str() {
            "few" => assert_eq!(row.pids, (1..=limit).collect::<Vec<u32>>()),
            _ => assert!(row.pids.is_empty()),
        }
    }
}

#[test]
fn lists_are_short_ordered_and_stable() {
    let mut s = sampler();
    let before: Vec<Observation> =
        (0..10).map(|p| seen(p, &format!("p{p}"), 0, 1, 0, 0)).collect();
    // the same use by threes, so that ties keep the order in which they came
    let after: Vec<Observation> = (0..10)
        .map(|p| seen(p, &format!("p{p}"), (p / 3) as u64, 1, 0, (p / 3) as u64))
        .collect();
    let r = two(&mut s, before, after);
    assert_eq!(r.cpu.len(), PROC_LIMIT);
    assert_eq!(names(&r.cpu), vec!["p9", "p6", "p7", "p8", "p3", "p4"]);
    // equal memory: as they rank by processor time
    assert_eq!(names(&r.mem), vec!["p9", "p6", "p7", "p8", "p3", "p4"]);
    assert_eq!(names(&r.io), names(&r.cpu));
    assert_eq!(r.all.unwrap().len(), 10);
}

#[test]
fn full_lists_are_limited() {
    let mut s = sampler();
    let obs: Vec<Observation> =
        (0..FULL_LIMIT as u32 + 5).map(|p| seen(p, &format!("p{p}"), 0, 0, 0, 0)).collect();
    let r = s.sample(Some(obs), 1, true);
    assert_eq!(r.total, Some(FULL_LIMIT + 5));
    assert_eq!(r.all.unwrap().len(), FULL_LIMIT);
    assert!(r.mem.is_empty());
}

#[test]
fn processes_that_cannot_be_listed_leave_nothing() {
    let mut s = sampler();
    s.sample(Some(vec![seen(1, "a", 10, 1, 5, 5)]), 1, false);
    let r = s.sample(None, 1, true);
    assert!(r.cpu.is_empty() && r.mem.is_empty() && r.io.is_empty());
    assert!(r.total.is_none() && r.all.is_none());
    assert!(s.knows(1));
}

#[test]
fn names_are_stable_by_process() {
    let mut s = sampler();
    s.sample(Some(vec![seen(7, "first", 1, 1, 0, 0)]), 1, false);
    let stat = ProcStat { comm: "later".to_string(), utime: 3, stime: 4, pages: 5 };
    let o = s.observe(7, &stat, Some("read_bytes: 8\nwrite_bytes: 9\n"), None, false);
    assert_eq!(o.name, "first");
    assert_eq!((o.utime, o.stime, o.pages, o.read_bytes, o.write_bytes), (3, 4, 5, 8, 9));
    assert!(!o.own);
    let o = s.observe(8, &stat, None, None, true);
    assert_eq!((o.name.as_str(), o.read_bytes), ("later", 0));
    assert_eq!(s.process_name(7, Some("7 (x) S"), None), "first");
    assert_eq!(s.process_name(8, Some("8 (x) S"), None), "x");
    assert_eq!(s.process_name(9, None, None), "pid 9");
    assert_eq!(s.process_name(9, Some("9 x"), None), numbered(9));
    assert_eq!(numbered(4294967295), "pid 4294967295");
}

#[test]
fn command_lines_are_read_for_new_and_cut_names_only() {
    let mut s = sampler();
    assert!(s.wants_cmdline(1, "fifteen-letters"));
    assert!(!s.wants_cmdline(1, "short"));
    s.sample(Some(vec![seen(1, "a", 0, 0, 0, 0)]), 1, false);
    assert!(!s.wants_cmdline(1, "fifteen-letters"));
}
