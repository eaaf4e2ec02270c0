//! Graphics cards: bus ids, power states, names, sensors, and the sampler.

use omastats_sampler::devices::{
    nvidia_record, order_key, Answer, CardScan, Details, GpuRecord, GpuSampler, Latest, Readings,
    GPU_LIMIT, GPU_RESCAN,
};
use omastats_sampler::gpu::{
    can_normalize, checked_bus_id, device_state, is_card, kind_of_vendor, normalize_bus_id,
    normalize_lowered, pci_name, power_state, Kind, State,
};
use omastats_sampler::hwmon::{
    first_known, hwmon_channel, hwmon_value, is_listed, parse_nvidia_line, pick_channel, sensor_files,
    sensor_key, Channel, Sensor,
};

#[test]
fn bus_ids_normalize_to_the_sysfs_form() {
    assert_eq!(normalize_bus_id("00000000:01:00.0"), "0000:01:00.0");
    assert_eq!(normalize_bus_id(" 0000:C8:00.0 "), "0000:c8:00.0");
    assert_eq!(normalize_bus_id("garbage"), "");
}

#[test]
fn only_suspended_devices_are_asleep() {
    assert_eq!(power_state(Some("suspended")), State::Asleep);
    assert_eq!(power_state(Some("active")), State::Active);
    assert_eq!(power_state(Some("unsupported")), State::Active);
    assert_eq!(power_state(None), State::Active);
}

#[test]
fn short_domains_are_padded_and_long_ones_cut() {
    assert_eq!(normalize_bus_id("1:02:00.0"), "0001:02:00.0");
    assert_eq!(normalize_bus_id(":02:00.0"), "0000:02:00.0");
    assert_eq!(normalize_bus_id("abcd0001:02:00.0"), "0001:02:00.0");
    assert_eq!(normalize_bus_id("a:b"), "");
    assert_eq!(normalize_bus_id("0:1:2:3"), "");
    assert_eq!(normalize_lowered("00000000:01:00.0"), "0000:01:00.0");
}

#[test]
fn normalizing_an_id_again_changes_nothing() {
    for id in ["00000000:01:00.0", "1:02:00.0", "0000:c8:00.0"] {
        let once = normalize_bus_id(id);
        assert_eq!(normalize_bus_id(&once), once);
    }
}

#[test]
fn domains_that_would_be_cut_inside_a_character_are_refused() {
    assert!(can_normalize("0000:01:00.0"));
    assert!(!can_normalize("x\u{e9}123:01:00.0"));
    assert_eq!(checked_bus_id("x\u{e9}123:01:00.0"), None);
    assert_eq!(checked_bus_id("00000000:01:00.0"), Some("0000:01:00.0".to_string()));
    // not three parts: nothing is cut
    assert_eq!(checked_bus_id("x\u{e9}123"), Some(String::new()));
}

#[test]
fn bus_ids_are_lowered_beyond_ascii() {
    assert_eq!(normalize_bus_id("0000:\u{c4}B:00.0"), "0000:\u{e4}b:00.0");
}

#[test]
fn devices_without_a_vendor_file_are_gone() {
    assert_eq!(device_state(false, Some("suspended")), State::Gone);
    assert_eq!(device_state(true, Some("suspended")), State::Asleep);
    assert_eq!(device_state(true, None), State::Active);
}

#[test]
fn makers_are_known_by_their_number() {
    assert_eq!(kind_of_vendor(Some("0x1002")), Some(Kind::Amd));
    assert_eq!(kind_of_vendor(Some("0X10DE")), Some(Kind::Nvidia));
    assert_eq!(kind_of_vendor(Some("0x8086")), Some(Kind::Intel));
    assert_eq!(kind_of_vendor(Some("0x1af4")), None);
    assert_eq!(kind_of_vendor(None), None);
    assert_eq!(Kind::Amd.vendor(), "amd");
    assert_eq!(Kind::Intel.fallback_name(), "Intel");
}

#[test]
fn cards_are_told_from_connectors() {
    assert!(is_card("card0"));
    assert!(is_card("card12"));
    assert!(!is_card("card"));
    assert!(!is_card("card0-HDMI-A-1"));
    assert!(!is_card("renderD128"));
}

#[test]
fn lspci_names_come_from_the_brackets() {
    let out = "01:00.0 \"VGA compatible controller\" \"NVIDIA Corporation\" \
               \"AD104 [GeForce RTX 4070]\" -ra1 \"x\" \"y\"\n";
    assert_eq!(pci_name(out), "GeForce RTX 4070");
    assert_eq!(pci_name("00:02.0 \"VGA\" \"Intel\" \"Iris\"\n"), "Iris");
    assert_eq!(pci_name("00:02.0 \"VGA\" \"Intel\" \"]odd[\"\n"), "]odd[");
    assert_eq!(pci_name("no quotes\n"), "");
    assert_eq!(pci_name(""), "");
    let long = format!("a \"b\" \"c\" \"{}\"", "n".repeat(300));
    assert_eq!(pci_name(&long).len(), 256);
}

fn channel(name: &str, label: Option<&str>) -> Channel {
    Channel { name: name.to_string(), label: label.map(|l| l.to_string()) }
}

#[test]
fn labelled_sensors_are_preferred() {
    let cs = vec![
        channel("name", None),
        channel("temp1_input", Some("mem")),
        channel("temp2_input", Some("Edge")),
        channel("temp3_input", Some("junction")),
    ];
    assert_eq!(
        hwmon_channel(&cs, "temp", "_input", &["edge", "junction"]),
        Some("temp2_input".to_string())
    );
    assert_eq!(
        hwmon_channel(&cs, "temp", "_input", &["sclk"]),
        Some("temp1_input".to_string())
    );
    assert_eq!(hwmon_channel(&cs, "power", "_input", &["ppt"]), None);
}

#[test]
fn averages_are_tried_after_inputs() {
    let cs = vec![
        channel("power1_average", Some("PPT")),
        channel("power2_input", None),
    ];
    assert_eq!(
        hwmon_value(&cs, "power", &["ppt", "power"]),
        vec!["power2_input".to_string(), "power1_average".to_string()]
    );
    assert!(hwmon_value(&cs, "freq", &["sclk"]).is_empty());
}

#[test]
fn sensors_are_picked_by_name_and_preference() {
    let names: Vec<String> = ["fan1_input", "temp1_input", "temp2_input"]
        .iter()
        .map(|n| n.to_string())
        .collect();
    assert_eq!(pick_channel(&names, &vec![true, false, true], "temp", "_input"), 2);
    assert_eq!(pick_channel(&names, &vec![true, false, false], "temp", "_input"), 1);
    assert_eq!(pick_channel(&names, &vec![true, true, true], "power", "_input"), 3);
    assert!(is_listed("edge", &["junction", "edge"]));
    assert!(!is_listed("", &["edge"]));
    assert_eq!(sensor_key("temp1_input", "temp", "_input"), Some("temp1".to_string()));
    assert_eq!(sensor_key("temp1_max", "temp", "_input"), None);
}

#[test]
fn each_sensor_has_its_files_and_labels() {
    let cs = vec![
        channel("freq1_input", Some("mclk")),
        channel("freq2_input", Some("SCLK")),
        channel("power1_average", None),
        channel("power2_average", Some("PPT")),
        channel("temp1_input", Some("mem")),
        channel("temp2_input", Some("junction")),
    ];
    assert_eq!(sensor_files(&cs, Sensor::Clock), vec!["freq2_input".to_string()]);
    assert_eq!(sensor_files(&cs, Sensor::Power), vec!["power2_average".to_string()]);
    assert_eq!(sensor_files(&cs, Sensor::Temperature), vec!["temp2_input".to_string()]);
    assert!(sensor_files(&vec![], Sensor::Power).is_empty());
}

#[test]
fn only_nvidia_cards_tell_of_their_fan() {
    let mut sampler = GpuSampler::new();
    sampler.detect(vec![card("x", "0x1002", ""), card("n", "0x10de", "")]);
    let turning = Readings { fan: Some(50f64.to_bits()), ..with_memory(1e9) };
    let mut latest = Latest::new();
    latest.insert(
        "n".to_string(),
        nvidia_record("n".to_string(), "GeForce".to_string(), turning),
    );
    let shown = sampler.sample(&latest, &vec![Answer::Active(turning), Answer::Active(nothing())]);
    assert_eq!(shown[0].details, Details::Live(with_memory(1e9)));
    assert_eq!(shown[1].details, Details::Live(turning));
}

#[test]
fn the_first_known_reading_counts() {
    assert_eq!(first_known(Some(1), Some(2), Some(3)), Some(1));
    assert_eq!(first_known(None, Some(2), Some(3)), Some(2));
    assert_eq!(first_known(None, None, Some(3)), Some(3));
    assert_eq!(first_known(None, None, None), None);
}

#[test]
fn nvidia_lines_are_read_field_by_field() {
    let line = "NVIDIA GeForce RTX 4070, 12, 1024, 12282, 41, 30.5, 210, 3105, [N/A], 00000000:01:00.0";
    let parsed = parse_nvidia_line(line).expect("ten fields");
    assert_eq!(parsed.id, Some("0000:01:00.0".to_string()));
    assert_eq!(parsed.name, "NVIDIA GeForce RTX 4070");
    assert_eq!(parsed.util, "12");
    assert_eq!(parsed.mem_used, "1024");
    assert_eq!(parsed.mem_total, "12282");
    assert_eq!(parsed.temp, "41");
    assert_eq!(parsed.power, "30.5");
    assert_eq!(parsed.mhz, "210");
    assert_eq!(parsed.max_mhz, "3105");
    assert_eq!(parsed.fan, "[N/A]");
    assert!(parse_nvidia_line("a,b,c").is_none());
    assert!(parse_nvidia_line("").is_none());
}

fn nothing() -> Readings {
    Readings {
        util: None,
        mem_used: None,
        mem_total: None,
        temp: None,
        power: None,
        mhz: None,
        max_mhz: None,
        fan: None,
    }
}

fn with_memory(total: f64) -> Readings {
    Readings { mem_total: Some(total.to_bits()), ..nothing() }
}

fn card(slot: &str, vendor: &str, name: &str) -> CardScan {
    CardScan {
        device: format!("/sys/class/drm/{slot}/device"),
        id: slot.to_string(),
        vendor: Some(vendor.to_string()),
        hwmon: vec!["hwmon3".to_string(), "hwmon4".to_string()],
        name: name.to_string(),
    }
}

fn ids(records: &[GpuRecord]) -> Vec<&str> {
    records.iter().map(|r| r.id.as_str()).collect()
}

#[test]
fn bits_are_ordered_as_numbers_are() {
    let numbers = [f64::NEG_INFINITY, -2.5, -0.0, 0.0, 1e-300, 0.1, 8e9, f64::INFINITY];
    for pair in numbers.windows(2) {
        assert!(order_key(pair[0].to_bits()) < order_key(pair[1].to_bits()));
    }
}

#[test]
fn the_card_with_the_most_memory_comes_first() {
    let mut sampler = GpuSampler::new();
    let plan = sampler.detect(vec![
        card("0000:00:02.0", "0x8086", ""),
        card("0000:03:00.0", "0x1002", "Radeon RX 7900"),
        card("0000:05:00.0", "0x1af4", "virtio"),
    ]);
    assert!(!plan.stop && !plan.start);
    assert_eq!(sampler.devices().len(), 2);
    assert_eq!(
        sampler.devices()[1].hwmon.as_deref(),
        Some("/sys/class/drm/0000:03:00.0/device/hwmon/hwmon3")
    );
    let latest = Latest::new();
    let answers = vec![Answer::Active(nothing()), Answer::Active(with_memory(24e9))];
    let shown = sampler.sample(&latest, &answers);
    assert_eq!(ids(&shown), vec!["0000:03:00.0", "0000:00:02.0"]);
    assert_eq!(shown[0].name, "Radeon RX 7900");
    assert_eq!(shown[0].vendor, "amd");
    assert_eq!(shown[0].details, Details::Live(with_memory(24e9)));
    assert_eq!(shown[1].name, "Intel");
}

#[test]
fn cards_of_equal_memory_keep_their_order() {
    let mut sampler = GpuSampler::new();
    sampler.detect(vec![card("b", "0x1002", ""), card("a", "0x1002", ""), card("c", "0x8086", "")]);
    let answers = vec![Answer::Active(with_memory(1.0)); 3];
    let shown = sampler.sample(&Latest::new(), &answers);
    assert_eq!(ids(&shown), vec!["b", "a", "c"]);
}

#[test]
fn a_sleeping_card_keeps_its_memory() {
    let mut sampler = GpuSampler::new();
    sampler.detect(vec![card("x", "0x1002", "")]);
    let latest = Latest::new();
    sampler.sample(&latest, &vec![Answer::Active(with_memory(8e9))]);
    let shown = sampler.sample(&latest, &vec![Answer::Asleep]);
    assert_eq!(shown[0].details, Details::Asleep(Some(8e9f64.to_bits())));
    // found again, it is still remembered
    sampler.detect(vec![card("y", "0x1002", ""), card("x", "0x1002", "")]);
    let shown = sampler.sample(&latest, &vec![Answer::Asleep, Answer::Asleep]);
    assert_eq!(ids(&shown), vec!["x", "y"]);
    assert_eq!(shown[1].details, Details::Asleep(None));
}

#[test]
fn memory_is_kept_through_any_run_of_calls() {
    let mut sampler = GpuSampler::new();
    sampler.refresh(0, vec!["x".to_string()], false);
    sampler.detect(vec![card("x", "0x1002", ""), card("y", "0x8086", "")]);
    let latest = Latest::new();
    sampler.sample(&latest, &vec![Answer::Active(with_memory(8e9)), Answer::Active(with_memory(1e9))]);
    sampler.sample(&latest, &vec![Answer::Asleep, Answer::Asleep]);
    sampler.refresh(1, vec!["x".to_string()], true);
    sampler.detect(vec![card("z", "0x10de", ""), card("y", "0x8086", ""), card("x", "0x1002", "")]);
    sampler.drop_nvidia();
    sampler.sample(&latest, &vec![Answer::Gone, Answer::Active(nothing())]);
    sampler.detect(vec![card("y", "0x8086", ""), card("x", "0x1002", "")]);
    let shown = sampler.sample(&latest, &vec![Answer::Asleep, Answer::Asleep]);
    assert_eq!(ids(&shown), vec!["x", "y"]);
    assert_eq!(shown[0].details, Details::Asleep(Some(8e9f64.to_bits())));
    assert_eq!(shown[1].details, Details::Asleep(Some(1e9f64.to_bits())));
}

#[test]
fn a_card_that_is_gone_calls_for_a_new_scan() {
    let mut sampler = GpuSampler::new();
    assert!(sampler.scan_due(0));
    assert!(sampler.refresh(10, vec!["x".to_string()], false));
    sampler.detect(vec![card("x", "0x1002", "")]);
    assert!(!sampler.scan_due(10 + GPU_RESCAN - 1));
    assert!(sampler.scan_due(10 + GPU_RESCAN));
    assert!(!sampler.scan_due(0));
    let shown = sampler.sample(&Latest::new(), &vec![Answer::Gone]);
    assert!(shown.is_empty());
    assert!(sampler.scan_due(11));
}

#[test]
fn the_order_of_slots_does_not_matter() {
    let mut sampler = GpuSampler::new();
    let slots = |names: &[&str]| names.iter().map(|n| n.to_string()).collect::<Vec<String>>();
    assert!(!sampler.refresh(0, slots(&[]), false));
    assert!(sampler.refresh(1, slots(&["b", "a"]), false));
    assert!(!sampler.refresh(2, slots(&["a", "b"]), false));
    assert!(sampler.refresh(3, slots(&["a", "b"]), true));
    assert!(sampler.refresh(4, slots(&["a"]), false));
    assert!(sampler.refresh(5, slots(&["a", "a"]), false));
}

#[test]
fn nvidia_cards_show_what_nvidia_smi_says() {
    let mut sampler = GpuSampler::new();
    let plan = sampler.detect(vec![card("n", "0x10de", "RTX"), card("x", "0x1002", "")]);
    assert!(plan.stop && plan.start);
    assert!(!sampler.stop());
    sampler.started();
    let mut latest = Latest::new();
    let answers = vec![Answer::Active(nothing()), Answer::Active(nothing())];
    let shown = sampler.sample(&latest, &answers);
    assert_eq!(ids(&shown), vec!["n", "x"]);
    assert_eq!(shown[0].details, Details::Waiting);
    assert_eq!(shown[0].name, "RTX");
    latest.insert(
        "n".to_string(),
        nvidia_record("n".to_string(), "GeForce".to_string(), with_memory(2e9)),
    );
    let shown = sampler.sample(&latest, &answers);
    assert_eq!(shown[0].name, "GeForce");
    assert_eq!(shown[0].vendor, "nvidia");
    assert_eq!(shown[0].details, Details::Live(with_memory(2e9)));
    assert!(sampler.stop());
    assert!(!sampler.stop());
}

#[test]
fn nvidia_cards_are_dropped_without_nvidia_smi() {
    let mut sampler = GpuSampler::new();
    sampler.detect(vec![card("n", "0x10de", ""), card("x", "0x1002", ""), card("m", "0x10de", "")]);
    sampler.drop_nvidia();
    assert_eq!(sampler.devices().len(), 1);
    assert_eq!(sampler.devices()[0].id, "x");
    // the next detection stops a stream only if there was one to stop
    let plan = sampler.detect(vec![card("x", "0x1002", "")]);
    assert!(!plan.stop && !plan.start);
    sampler.detect(vec![card("n", "0x10de", "")]);
    let plan = sampler.detect(vec![]);
    assert!(plan.stop && !plan.start);
}

#[test]
fn no_more_cards_are_sampled_than_the_limit() {
    let mut sampler = GpuSampler::new();
    let cards = (0..GPU_LIMIT + 3).map(|i| card(&format!("{i}"), "0x1002", "")).collect();
    sampler.detect(cards);
    assert_eq!(sampler.devices().len(), GPU_LIMIT);
    assert_eq!(sampler.devices()[7].id, "7");
}
