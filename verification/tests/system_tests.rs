use shiitake_server::system::{
    cpu_cores_from_text, hostname_from_etc_text, hostname_from_rt_ini_text, make_summary,
    os_from_image_text, os_from_release_text, total_memory_from_text, uuid_from_machine_id_text,
    uuid_from_serial_text,
};
use shiitake_server::types::{hex_to_timespec, timespec_to_hex, DiskUsageEntry, NetworkUsageEntry};

#[test]
fn test_hex_int() {
    let timespec_mock: (i64, i64) = (123456, 789);
    let hex = timespec_to_hex(timespec_mock.0, timespec_mock.1);
    println!("{}", hex);
    let timespeck_modck2 = hex_to_timespec(&hex).unwrap();
    assert_eq!(timespec_mock.0, timespeck_modck2.0);
    assert_eq!(timespec_mock.1, timespeck_modck2.1);
}

#[test]
fn timespec_hex_exact() {
    assert_eq!(timespec_to_hex(255, 16), "ff:10");
    assert_eq!(hex_to_timespec("ff:10"), Some((255, 16)));
    assert_eq!(hex_to_timespec("ff:10:junk"), Some((255, 16)));
    assert_eq!(hex_to_timespec("nocolon"), None);
    assert_eq!(hex_to_timespec("xy:10"), None);
    assert_eq!(hex_to_timespec("10:"), None);
}

#[test]
fn hostname_texts() {
    assert_eq!(hostname_from_etc_text("mybox\n\n"), "mybox");
    assert_eq!(hostname_from_etc_text("mybox"), "mybox");
    assert_eq!(
        hostname_from_rt_ini_text("other=1\nhost_name=\"dev9\"\n"),
        Some("dev9".to_string())
    );
    assert_eq!(hostname_from_rt_ini_text("nothing\n"), None);
}

#[test]
fn os_texts() {
    assert_eq!(
        os_from_release_text("NAME=x\nPRETTY_NAME=\"Debian 12\"\n"),
        Some("Debian 12".to_string())
    );
    assert_eq!(os_from_release_text("NAME=x\n"), None);
    assert_eq!(
        os_from_image_text("[ImageMetadata]\nIMAGEVERSION = \"2024.1\"\n"),
        Some("2024.1".to_string())
    );
}

#[test]
fn uuid_texts() {
    assert_eq!(
        uuid_from_machine_id_text("0123456789abcdef0123456789abcdef\n"),
        Some(0x0123456789abcdef0123456789abcdefu128)
    );
    assert_eq!(uuid_from_machine_id_text("not hex\n"), None);
    let serials = "Serial=0000000000000002\nSerial=0000000000000003\n";
    assert_eq!(uuid_from_serial_text(serials), Some(5));
    assert_eq!(uuid_from_serial_text("no serial here\n"), None);
}

#[test]
fn cpu_cores_counting() {
    let text = "processor : 0\nvendor : x\nprocessor : 1\n";
    assert_eq!(cpu_cores_from_text(text), 2);
    assert_eq!(cpu_cores_from_text("nothing\n"), 0);
}

#[test]
fn total_memory_scaling() {
    assert_eq!(total_memory_from_text("MemTotal: 16 kB\n"), Some(16000));
    assert_eq!(total_memory_from_text("MemTotal: 2 MB\n"), Some(2000000));
    assert_eq!(total_memory_from_text("MemTotal: 7\n"), Some(7));
    assert_eq!(total_memory_from_text("NothingHere: 7\n"), None);
}

#[test]
fn summary_defaults() {
    let s = make_summary(None, None, None, None, None, "1.2.3".to_string(), "4.5".to_string());
    assert_eq!(s.hostname, "Unknown");
    assert_eq!(s.os, "Unknown");
    assert_eq!(s.uuid, 0);
    assert_eq!(s.cpu_cores, 0);
    assert_eq!(s.total_memory, 0);
    assert_eq!(s.shiitake_version, "1.2.3");
    assert_eq!(s.webpage_version, "4.5");
}

#[test]
fn summary_filled() {
    let s = make_summary(
        Some("h".to_string()),
        Some("o".to_string()),
        Some(9),
        Some(4),
        Some(1024),
        "v".to_string(),
        "w".to_string(),
    );
    assert_eq!(s.hostname, "h");
    assert_eq!(s.os, "o");
    assert_eq!(s.uuid, 9);
    assert_eq!(s.cpu_cores, 4);
    assert_eq!(s.total_memory, 1024);
    let n = NetworkUsageEntry { interface: "eth0".to_string(), rx: 1, tx: 2 };
    let d = DiskUsageEntry { mount_point: "/".to_string(), total: 10, used: 3 };
    assert_eq!(n.rx + n.tx, 3);
    assert_eq!(d.total - d.used, 7);
}
