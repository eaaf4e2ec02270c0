//! Sockets and GPU clients by process.

use omastats_sampler::clients::{has_client, leads_to_dri, GpuHolder, OpenFile, GPU_PROC_LIMIT};
use omastats_sampler::drm::parse_drm_fdinfo;
use omastats_sampler::procs::{ProcessSampler, STALE_AFTER};
use omastats_sampler::sockets::{parse_sockets, SocketTable, SOCKET_SCAN_LIMIT};
use omastats_sampler::table::TextMap;
use omastats_sampler::traffic::{holds_any, parse_socket_inode, SocketHolder, CONNECTION_LIMIT};

#[test]
fn drm_fdinfo_yields_engines_and_video_memory() {
    let text = "pos:\t0\nflags:\t02100002\ndrm-driver:\tamdgpu\ndrm-client-id:\t8\n\
        drm-pdev:\t0000:03:00.0\ndrm-total-vram:\t12 KiB\ndrm-resident-vram:\t3 MiB\n\
        drm-engine-gfx:\t1500 ns\ndrm-engine-dec:\t20 ns\ndrm-engine-capacity-gfx:\t1\n";
    let client = parse_drm_fdinfo(text).expect("a DRM client");
    assert_eq!(client.pdev, "0000:03:00.0");
    assert_eq!(client.client, "8");
    assert_eq!(client.vram, 3 << 20);
    assert_eq!(client.engines.get("gfx"), Some(&1500));
    assert_eq!(client.engines.get("dec"), Some(&20));
    assert_eq!(client.engines.len(), 2);
    assert_eq!(parse_drm_fdinfo("pos:\t0\nflags:\t02\n"), None);
}

fn fdinfo(client: &str, rest: &str) -> String {
    format!("drm-pdev: 0000:03:00.0\ndrm-client-id: {client}\n{rest}")
}

#[test]
fn video_memory_is_read_in_every_unit() {
    let vram = |rest: &str| parse_drm_fdinfo(&fdinfo("1", rest)).unwrap().vram;
    assert_eq!(vram("drm-memory-vram: 2 GiB"), 2 << 30);
    assert_eq!(vram("drm-total-vram: 5"), 5);
    assert_eq!(vram("drm-total-vram: 5 KiB\ndrm-memory-vram: 9 KiB"), 5 << 10);
    assert_eq!(vram("drm-resident-vram: x\ndrm-total-vram: 7"), 7);
    assert_eq!(vram("drm-resident-vram: 1\ndrm-resident-vram: 2"), 2);
    assert_eq!(vram("drm-resident-vram: 18446744073709551615 GiB"), u64::MAX);
    assert_eq!(vram(""), 0);
}

#[test]
fn engines_without_a_number_are_passed_over() {
    let client = parse_drm_fdinfo(&fdinfo("1", "drm-engine-a: x ns\ndrm-engine-b: 4 ns\nodd"));
    let client = client.unwrap();
    assert_eq!(client.engines.len(), 1);
    assert_eq!(client.engines.get("b"), Some(&4));
    assert!(parse_drm_fdinfo("drm-pdev: x\n").is_none());
    assert!(parse_drm_fdinfo("drm-client-id: x\n").is_none());
}

#[test]
fn tables_keep_the_last_value_of_a_text() {
    let mut t: TextMap<u32> = TextMap::new();
    t.insert("a".to_string(), 1);
    t.insert("b".to_string(), 2);
    t.insert("a".to_string(), 3);
    assert_eq!(t.len(), 2);
    assert_eq!(t.get("a"), Some(&3));
    assert_eq!(t.get("c"), None);
    assert_eq!(t.entry(1), ("b", &2));
}

#[test]
fn links_to_the_gpu_are_told_from_others() {
    assert!(leads_to_dri("/dev/dri/renderD128"));
    assert!(leads_to_dri("/dev/dri"));
    assert!(leads_to_dri("//dev/./dri/card0"));
    assert!(!leads_to_dri("/dev/drive"));
    assert!(!leads_to_dri("dev/dri/card0"));
    assert!(!leads_to_dri("/x/dev/dri/card0"));
    assert!(!leads_to_dri(""));
}

fn file(target: &str, info: Option<String>) -> OpenFile {
    OpenFile { target: Some(target.to_string()), fdinfo: info }
}

fn busy(client: &str, gfx: u64, vram: u64) -> OpenFile {
    let rest = format!("drm-engine-gfx: {gfx} ns\ndrm-engine-dec: 1 ns\ndrm-total-vram: {vram}");
    file("/dev/dri/renderD128", Some(fdinfo(client, &rest)))
}

fn holder(pid: u32, name: &str, files: Vec<OpenFile>) -> GpuHolder {
    GpuHolder { pid, name: name.to_string(), files }
}

fn sampler() -> ProcessSampler {
    ProcessSampler::new(100, 4096, Some(1))
}

#[test]
fn gpu_time_is_that_of_the_busiest_engine() {
    let mut s = sampler();
    let first = s.gpu_usage(&vec![holder(1, "game", vec![busy("8", 1000, 50)])], 10);
    assert_eq!(first.window, 0);
    assert_eq!((first.users[0].busy, first.users[0].vram), (0, 50));
    let next = s.gpu_usage(&vec![holder(1, "game", vec![busy("8", 1600, 60)])], 1010);
    assert_eq!(next.window, 1000);
    let user = &next.users[0];
    assert_eq!((user.pid, user.busy, user.vram), (1, 600, 60));
    assert_eq!((user.name.as_str(), user.id.as_str()), ("game", "0000:03:00.0"));
}

#[test]
fn shared_clients_are_counted_once() {
    let mut s = sampler();
    let shared = || {
        vec![
            holder(1, "a", vec![busy("8", 0, 100), busy("8", 0, 100)]),
            holder(2, "b", vec![busy("8", 0, 100), busy("9", 0, 7)]),
        ]
    };
    let usage = s.gpu_usage(&shared(), 0);
    let shown: Vec<(&str, u128)> =
        usage.users.iter().map(|u| (u.name.as_str(), u.vram)).collect();
    assert_eq!(shown, vec![("a", 100), ("b", 7)]);
}

#[test]
fn nobody_has_used_more_gpu_time_than_has_passed() {
    let mut s = sampler();
    let files = |ns: u64| vec![busy("1", ns, 0), busy("2", ns, 0)];
    s.gpu_usage(&vec![holder(1, "a", files(0))], 0);
    let usage = s.gpu_usage(&vec![holder(1, "a", files(800))], 1000);
    assert_eq!(usage.users[0].busy, 1000);
    // counters that fall are taken for new ones
    let usage = s.gpu_usage(&vec![holder(1, "a", files(5))], 2000);
    assert!(usage.users.is_empty());
}

#[test]
fn old_counters_are_not_compared_with() {
    let mut s = sampler();
    s.gpu_usage(&vec![holder(1, "a", vec![busy("1", 0, 1)])], 0);
    let usage = s.gpu_usage(&vec![holder(1, "a", vec![busy("1", 900, 1)])], STALE_AFTER);
    assert_eq!((usage.window, usage.users[0].busy), (0, 0));
    let usage =
        s.gpu_usage(&vec![holder(1, "a", vec![busy("1", 950, 1)])], 2 * STALE_AFTER - 1);
    assert_eq!((usage.window, usage.users[0].busy), (STALE_AFTER - 1, 50));
}

#[test]
fn gpu_users_are_listed_by_time_then_memory() {
    let mut s = sampler();
    let users = |ns: u64| {
        (0..12u32)
            .map(|p| {
                let time = if p == 3 { ns } else { 0 };
                holder(p, &format!("p{p}"), vec![busy(&format!("{p}"), time, p as u64)])
            })
            .collect::<Vec<GpuHolder>>()
    };
    s.gpu_usage(&users(0), 0);
    let usage = s.gpu_usage(&users(10), 100);
    let names: Vec<&str> = usage.users.iter().map(|u| u.name.as_str()).collect();
    assert_eq!(names.len(), GPU_PROC_LIMIT);
    assert_eq!(names, vec!["p3", "p11", "p10", "p9", "p8", "p7", "p6", "p5"]);
}

#[test]
fn the_gpu_with_the_most_memory_stands_for_a_user() {
    let mut s = sampler();
    let other = |vram: u64| {
        let text = format!("drm-pdev: other\ndrm-client-id: 1\ndrm-total-vram: {vram}");
        file("/dev/dri/card1", Some(text))
    };
    let usage = s.gpu_usage(&vec![holder(1, "a", vec![busy("1", 0, 5), other(6)])], 0);
    assert_eq!((usage.users[0].id.as_str(), usage.users[0].vram), ("other", 11));
    let usage = s.gpu_usage(&vec![holder(1, "a", vec![busy("1", 0, 5), other(5)])], 0);
    assert_eq!(usage.users[0].id, "0000:03:00.0");
}

#[test]
fn the_gpu_is_chosen_by_all_the_memory_on_it() {
    let mut s = sampler();
    let on = |pdev: &str, client: u32, vram: u64| {
        let text =
            format!("drm-pdev: {pdev}\ndrm-client-id: {client}\ndrm-total-vram: {vram} MiB");
        file("/dev/dri/card1", Some(text))
    };
    let files = vec![on("A", 1, 5), on("B", 2, 8), on("A", 3, 5)];
    let usage = s.gpu_usage(&vec![holder(1, "a", files)], 0);
    assert_eq!((usage.users[0].id.as_str(), usage.users[0].vram), ("A", 18 << 20));
    // with as much on each the first one counts
    let files = vec![on("B", 1, 10), on("A", 2, 5), on("A", 3, 5)];
    let usage = s.gpu_usage(&vec![holder(1, "a", files)], 0);
    assert_eq!(usage.users[0].id, "B");
}

#[test]
fn one_more_file_of_a_client_changes_nothing() {
    let rows = |files: Vec<OpenFile>| {
        let mut s = sampler();
        s.gpu_usage(&vec![holder(1, "a", vec![busy("1", 0, 0), busy("2", 0, 0)])], 0);
        let usage = s.gpu_usage(&vec![holder(1, "a", files)], 1000);
        let rows: Vec<(u32, u64, u128, String)> =
            usage.users.iter().map(|u| (u.pid, u.busy, u.vram, u.id.clone())).collect();
        rows
    };
    let once = rows(vec![busy("1", 40, 5), busy("2", 60, 6)]);
    assert_eq!(once, vec![(1, 100, 11, "0000:03:00.0".to_string())]);
    assert_eq!(rows(vec![busy("1", 40, 5), busy("2", 60, 6), busy("1", 40, 5)]), once);
    assert_eq!(rows(vec![busy("2", 60, 6), busy("1", 40, 5), busy("2", 60, 6)]), once);
}

#[test]
fn clients_are_equal_by_what_they_hold() {
    let client = |rest: &str| parse_drm_fdinfo(&fdinfo("1", rest)).unwrap();
    let a = client("drm-engine-x: 1 ns\ndrm-engine-y: 2 ns");
    assert_eq!(a, client("drm-engine-y: 2 ns\ndrm-engine-x: 1 ns"));
    assert!(a != client("drm-engine-y: 2 ns\ndrm-engine-x: 3 ns"));
    assert!(a != client("drm-engine-y: 2 ns"));
    assert!(a != client("drm-engine-y: 2 ns\ndrm-engine-z: 1 ns"));
    assert!(a != client("drm-engine-x: 1 ns\ndrm-engine-y: 2 ns\ndrm-total-vram: 1"));
}

#[test]
fn files_without_a_client_do_not_count() {
    assert!(has_client(&vec![busy("1", 0, 0)]));
    assert!(!has_client(&vec![
        file("/dev/null", Some(fdinfo("1", ""))),
        file("/dev/dri/card0", None),
        file("/dev/dri/card0", Some("pos: 0".to_string())),
        OpenFile { target: None, fdinfo: Some(fdinfo("1", "")) },
    ]));
}

const SS: &str = "ESTAB 0 0 10.0.0.1:1 10.0.0.2:443 uid:1000 ino:11 sk:1 cgroup:/a.service <->\n\
    \t cubic bytes_sent:100 bytes_acked:90 bytes_received:2000 segs_out:3\n\
    LISTEN 0 0 0.0.0.0:22 0.0.0.0:* ino:12 sk:2 cgroup:/system.slice/sshd.service <->\n\
    \t cubic cwnd:10\n\
    TIME-WAIT 0 0 10.0.0.1:3 10.0.0.2:443 sk:3\n\
    \t bytes_sent:7777\n";

fn table(out: &str) -> SocketTable {
    parse_sockets(out).expect("few enough sockets")
}

#[test]
fn sockets_are_read_from_ss() {
    let t = table(SS);
    assert_eq!(t.len(), 2);
    let s = t.at(0);
    assert_eq!((s.ino.as_str(), s.cgroup.as_str()), ("11", "/a.service"));
    assert_eq!((s.established, s.sent, s.recv), (true, 100, 2000));
    // what follows a socket without an inode belongs to none
    let s = t.at(1);
    assert_eq!((s.ino.as_str(), s.established, s.sent, s.recv), ("12", false, 0, 0));
    assert!(t.holds("12") && !t.holds("13"));
}

#[test]
fn the_last_line_of_an_inode_counts() {
    let t = table("ESTAB ino:5\n\t bytes_sent:1\nLISTEN ino:5\n\t bytes_sent:2 bytes_received:x\n");
    assert_eq!(t.len(), 1);
    assert_eq!((t.at(0).established, t.at(0).sent, t.at(0).recv), (false, 2, 0));
    assert_eq!(table("").len(), 0);
}

#[test]
fn socket_links_name_their_inode() {
    assert_eq!(parse_socket_inode("socket:[42]"), Some("42".to_string()));
    assert_eq!(parse_socket_inode("socket:[42"), None);
    assert_eq!(parse_socket_inode("pipe:[42]"), None);
}

fn holding(pid: u32, name: &str, inodes: &[&str]) -> SocketHolder {
    let mut targets: Vec<Option<String>> =
        inodes.iter().map(|i| Some(format!("socket:[{i}]"))).collect();
    targets.push(None);
    targets.push(Some("/dev/null".to_string()));
    SocketHolder { pid, name: name.to_string(), targets }
}

#[test]
fn holders_of_listed_sockets_are_found() {
    let t = table(SS);
    assert!(holds_any(&t, &holding(1, "a", &["9", "11"]).targets));
    assert!(!holds_any(&t, &holding(1, "a", &["9"]).targets));
    assert!(!holds_any(&t, &vec![]));
}

#[test]
fn traffic_is_the_growth_of_the_counters() {
    let mut s = sampler();
    let holders = vec![holding(7, "firefox", &["11"])];
    let first = s.network_usage(Some(table(SS)), &holders, 1_000, false);
    assert_eq!(first.window, 0);
    assert_eq!(first.rows.len(), 1);
    let row = &first.rows[0];
    assert_eq!((row.name.as_str(), row.pid, row.count), ("firefox", 7, 1));
    assert_eq!((row.connections, row.rx, row.tx), (1, 0, 0));
    let more = SS.replace("bytes_sent:100", "bytes_sent:150").replace(":2000", ":2600");
    let next = s.network_usage(Some(table(&more)), &holders, 3_000, false);
    assert_eq!(next.window, 2_000);
    assert_eq!((next.rows[0].rx, next.rows[0].tx), (600, 50));
    // the same counters again: no traffic
    let again = s.network_usage(Some(table(&more)), &holders, 4_000, false);
    assert_eq!((again.rows[0].rx, again.rows[0].tx), (0, 0));
}

#[test]
fn sockets_of_unknown_owners_go_by_their_cgroup() {
    let mut s = sampler();
    let usage = s.network_usage(Some(table(SS)), &vec![], 0, false);
    assert_eq!((usage.rows[0].name.as_str(), usage.rows[0].pid), ("a", 0));
}

#[test]
fn no_sockets_or_too_many_forget_the_counters() {
    let mut s = sampler();
    s.network_usage(Some(table(SS)), &vec![], 0, false);
    let gone = s.network_usage(None, &vec![], 10, false);
    assert!(gone.rows.is_empty() && gone.window == 0);
    let more = SS.replace("bytes_sent:100", "bytes_sent:999");
    let next = s.network_usage(Some(table(&more)), &vec![], 20, false);
    assert_eq!((next.window, next.rows[0].tx), (0, 0));
    let empty = s.network_usage(Some(table("")), &vec![], 30, false);
    assert!(empty.rows.is_empty());
    let next = s.network_usage(Some(table(SS)), &vec![], 40, false);
    assert_eq!(next.window, 0);
}

#[test]
fn traffic_is_listed_by_bytes_then_connections_then_name() {
    let lines = |sent: &[(u32, u64, bool)]| {
        sent.iter()
            .map(|(i, bytes, up)| {
                let state = if *up { "ESTAB" } else { "CLOSE" };
                format!("{state} ino:{i} cgroup:/s{i}.service\n\t bytes_sent:{bytes}\n")
            })
            .collect::<String>()
    };
    let mut s = sampler();
    s.network_usage(Some(table(&lines(&[(1, 0, true), (2, 0, true), (3, 0, false)]))), &vec![], 0, true);
    let now = lines(&[(2, 5, true), (1, 5, true), (3, 6, false), (4, 9, false)]);
    let usage = s.network_usage(Some(table(&now)), &vec![], 10, true);
    let names: Vec<&str> = usage.rows.iter().map(|r| r.name.as_str()).collect();
    // the fourth is new and not connected: nothing is known of it
    assert_eq!(names, vec!["s3", "s1", "s2"]);
}

#[test]
fn short_lists_of_traffic_are_limited() {
    let out: String = (0..20).map(|i| format!("ESTAB ino:{i} cgroup:/s{i:02}.service\n")).collect();
    let mut s = sampler();
    let usage = s.network_usage(Some(table(&out)), &vec![], 0, false);
    assert_eq!(usage.rows.len(), CONNECTION_LIMIT);
    assert_eq!(usage.rows[11].name, "s11");
    let usage = s.network_usage(Some(table(&out)), &vec![], 0, true);
    assert_eq!(usage.rows.len(), 20);
}

#[test]
fn processes_of_one_name_are_counted_each_once() {
    let out = "ESTAB ino:1\nESTAB ino:2\nESTAB ino:3\n";
    let holders = vec![holding(1, "x", &["1", "2"]), holding(2, "x", &["3"])];
    let usage = sampler().network_usage(Some(table(out)), &holders, 0, false);
    assert_eq!(usage.rows.len(), 1);
    assert_eq!((usage.rows[0].count, usage.rows[0].connections), (2, 3));
}

#[test]
fn too_many_sockets_are_not_told_apart() {
    let mut out: String = (0..SOCKET_SCAN_LIMIT).map(|i| format!("ESTAB ino:{i}\n")).collect();
    assert_eq!(parse_sockets(&out).map(|t| t.len()), Some(SOCKET_SCAN_LIMIT));
    out.push_str("ESTAB ino:0\n");
    assert!(parse_sockets(&out).is_none());
}
