use shiitake_server::ini::{read_ini_field, write_ini, Ini, IniError, IniTypes};
use shiitake_server::rio_interface::{
    boolc, serial_from_text, write_dhcp, write_static_ip, RioData, UpdateValue,
};

const SERIAL_TEXT: &str = "Name=thing\nSerial=000000000306ADDC\nOther=1\n";

const RT_INI: &str = "[systemsettings]\nNoFPGAApp.enabled = false\nConsoleOut.enabled = true\nNoApp.enabled = \"True\"\nSafeMode.enabled = \"False\"\nhost_name = \"dev\"\nComment = \"14\"\n\n";

const IMAGE_META: &str = "[ImageMetadata]\nIMAGEVERSION = \"2024.1\"\n";

fn rio() -> RioData {
    RioData::new(SERIAL_TEXT, RT_INI, IMAGE_META).unwrap()
}

#[test]
fn test_get_serial() {
    assert_eq!(serial_from_text(SERIAL_TEXT), "306ADDC".to_string());
}

#[test]
fn serial_default_when_absent() {
    assert_eq!(serial_from_text("nothing here\n"), "".to_string());
}

#[test]
fn serial_last_line_wins() {
    let text = "Serial=1111111111111111\nSerial=0000000000000002\n";
    assert_eq!(serial_from_text(text), "2".to_string());
}

#[test]
fn read_ini_field_paths() {
    let v = read_ini_field(IMAGE_META, "ImageMetadata", "IMAGEVERSION").unwrap();
    assert_eq!(v, IniTypes::Text("2024.1".to_string()));
    assert_eq!(
        read_ini_field(IMAGE_META, "Missing", "IMAGEVERSION"),
        Err(IniError::MissingSection)
    );
    assert_eq!(
        read_ini_field(IMAGE_META, "ImageMetadata", "Missing"),
        Err(IniError::MissingKey)
    );
}

#[test]
fn snapshot_reads_every_field() {
    let r = rio();
    let s = r.to_snapshot().unwrap();
    assert_eq!(s.serial, "306ADDC");
    assert_eq!(s.image_version, "2024.1");
    assert!(!s.no_fpga_app);
    assert!(s.console_out);
    assert!(s.no_app);
    assert!(!s.safe_mode);
    assert_eq!(s.host_name, "dev");
    assert_eq!(s.comment, "A");
}

#[test]
fn snapshot_type_mismatch() {
    let bad = RT_INI.replace("ConsoleOut.enabled = true", "ConsoleOut.enabled = \"x\"");
    let r = RioData::new(SERIAL_TEXT, &bad, IMAGE_META).unwrap();
    assert!(matches!(r.to_snapshot(), Err(IniError::TypeMismatch)));
}

#[test]
fn snapshot_missing_key() {
    let bad = RT_INI.replace("host_name = \"dev\"\n", "");
    let r = RioData::new(SERIAL_TEXT, &bad, IMAGE_META).unwrap();
    assert!(matches!(r.to_snapshot(), Err(IniError::MissingKey)));
}

#[test]
fn snapshot_codec_error() {
    let bad = RT_INI.replace("Comment = \"14\"", "Comment = \"1\"");
    let r = RioData::new(SERIAL_TEXT, &bad, IMAGE_META).unwrap();
    assert!(matches!(r.to_snapshot(), Err(IniError::Codec)));
}

#[test]
fn update_batch_applies_every_field() {
    let mut r = rio();
    let updates = vec![
        ("no_fpga_app".to_string(), UpdateValue::Bool(true)),
        ("console_out".to_string(), UpdateValue::Bool(false)),
        ("no_app".to_string(), UpdateValue::Bool(false)),
        ("safe_mode".to_string(), UpdateValue::Bool(true)),
        ("host_name".to_string(), UpdateValue::Text("box7".to_string())),
        ("comment".to_string(), UpdateValue::Text("hi there".to_string())),
    ];
    let plan = r.plan_updates(&updates).unwrap();
    assert_eq!(plan.hostname, Some("box7".to_string()));
    r.commit_plan(&plan);
    let s = r.to_snapshot().unwrap();
    assert!(s.no_fpga_app);
    assert!(!s.console_out);
    assert!(!s.no_app);
    assert!(s.safe_mode);
    assert_eq!(s.host_name, "box7");
    assert_eq!(s.comment, "hi there");
}

#[test]
fn update_batch_is_atomic() {
    let mut r = rio();
    let before = r.to_snapshot().unwrap();
    let updates = vec![
        ("no_fpga_app".to_string(), UpdateValue::Bool(true)),
        ("bogus_field".to_string(), UpdateValue::Bool(true)),
        ("console_out".to_string(), UpdateValue::Bool(false)),
    ];
    assert!(matches!(r.plan_updates(&updates), Err(IniError::BadRequest)));
    let after = r.to_snapshot().unwrap();
    assert_eq!(before.no_fpga_app, after.no_fpga_app);
    assert_eq!(before.console_out, after.console_out);
    assert_eq!(before.no_app, after.no_app);
    assert_eq!(before.safe_mode, after.safe_mode);
    assert_eq!(before.host_name, after.host_name);
    assert_eq!(before.comment, after.comment);
    // the same holds of what would be persisted
    assert_eq!(write_ini(&r.rt_ini), write_ini(&rio().rt_ini));
}

#[test]
fn update_rejects_wrong_kind() {
    let r = rio();
    let updates = vec![("no_fpga_app".to_string(), UpdateValue::Text("true".to_string()))];
    assert!(matches!(r.plan_updates(&updates), Err(IniError::BadRequest)));
    let updates = vec![("host_name".to_string(), UpdateValue::Bool(true))];
    assert!(matches!(r.plan_updates(&updates), Err(IniError::BadRequest)));
    let updates = vec![("comment".to_string(), UpdateValue::Other)];
    assert!(matches!(r.plan_updates(&updates), Err(IniError::BadRequest)));
}

#[test]
fn host_name_side_effect_ordering() {
    // the side effect's caller plans first; while the side effect has not
    // succeeded, nothing commits, and the store shows no trace of the batch
    let mut r = rio();
    let updates = vec![("host_name".to_string(), UpdateValue::Text("elsewhere".to_string()))];
    let plan = r.plan_updates(&updates).unwrap();
    assert_eq!(plan.hostname, Some("elsewhere".to_string()));
    let s = r.to_snapshot().unwrap();
    assert_eq!(s.host_name, "dev");
    // only after the side effect succeeds does the caller commit
    r.commit_plan(&plan);
    assert_eq!(r.to_snapshot().unwrap().host_name, "elsewhere");
}

#[test]
fn boolc_text() {
    assert_eq!(boolc(true), "True");
    assert_eq!(boolc(false), "False");
}

#[test]
fn static_ip_section_is_rebuilt() {
    let mut ini = read_ini_helper();
    write_static_ip(
        &mut ini,
        "10.0.0.5".to_string(),
        "10.0.0.1".to_string(),
        "1.1.1.1".to_string(),
    );
    let e = ini.get("eth0").unwrap();
    assert_eq!(e.get("dhcpenabled").unwrap(), &IniTypes::Text("0".to_string()));
    assert_eq!(e.get("IP_Address").unwrap(), &IniTypes::Text("10.0.0.5".to_string()));
    assert_eq!(e.get("Gateway").unwrap(), &IniTypes::Text("10.0.0.1".to_string()));
    assert_eq!(e.get("DNS_Address").unwrap(), &IniTypes::Text("1.1.1.1".to_string()));
    assert_eq!(e.get("Subnet_Mask").unwrap(), &IniTypes::Text("255.255.255.0".to_string()));
    assert_eq!(e.get("Mode").unwrap(), &IniTypes::Text("TCPIP".to_string()));
    // the old section's stray key is gone: the write is no merge
    assert!(e.get("stray").is_none());
}

#[test]
fn dhcp_section_is_rebuilt() {
    let mut ini = read_ini_helper();
    write_dhcp(&mut ini, "10.0.0.9".to_string());
    let e = ini.get("eth0").unwrap();
    assert_eq!(e.get("dhcpenabled").unwrap(), &IniTypes::Text("1".to_string()));
    assert_eq!(e.get("linklocalenabled").unwrap(), &IniTypes::Text("1".to_string()));
    assert_eq!(e.get("dhcpipaddr").unwrap(), &IniTypes::Text("10.0.0.9".to_string()));
    assert!(e.get("IP_Address").is_none());
}

fn read_ini_helper() -> Ini {
    shiitake_server::ini::read_ini("[eth0]\nstray = 1\n").unwrap()
}
