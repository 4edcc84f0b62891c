use shiitake_server::ini::{read_ini, write_ini, Ini, IniError, IniSection, IniTypes};

const EXAMPLE: &str = "[Default]\nPort = 80\nSSLEnabled = false\n\n[Hosts]\nDefault = \"Default Host\"\n";

#[test]
fn test_read_ini() {
    let ini = read_ini(EXAMPLE).unwrap();
    assert_eq!(
        ini.get("Default").unwrap().get("Port").unwrap(),
        &IniTypes::Integer(80)
    );
    assert_eq!(
        ini.get("Default").unwrap().get("SSLEnabled").unwrap(),
        &IniTypes::Boolean(false)
    );
    assert_eq!(
        ini.get("Hosts").unwrap().get("Default").unwrap(),
        &IniTypes::Text("Default Host".to_string())
    );
}

#[test]
fn type_inference_examples() {
    let text = "[S]\na = 123\nb = \"123\"\nc = 1.5\nd = true\ne = false\nf = hello\ng = 1e-3\nh = nan\n";
    let ini = read_ini(text).unwrap();
    let s = ini.get("S").unwrap();
    assert_eq!(s.get("a").unwrap(), &IniTypes::Integer(123));
    assert_eq!(s.get("b").unwrap(), &IniTypes::Text("123".to_string()));
    assert_eq!(s.get("c").unwrap(), &IniTypes::Float("1.5".to_string()));
    assert_eq!(s.get("d").unwrap(), &IniTypes::Boolean(true));
    assert_eq!(s.get("e").unwrap(), &IniTypes::Boolean(false));
    assert_eq!(s.get("f").unwrap(), &IniTypes::Text("hello".to_string()));
    assert_eq!(s.get("g").unwrap(), &IniTypes::Float("1e-3".to_string()));
    assert_eq!(s.get("h").unwrap(), &IniTypes::Float("nan".to_string()));
}

#[test]
fn quoted_value_keeps_spaces() {
    let ini = read_ini("[S]\nk = \"a b  c\"\n").unwrap();
    assert_eq!(
        ini.get("S").unwrap().get("k").unwrap(),
        &IniTypes::Text("a b  c".to_string())
    );
}

#[test]
fn set_missing_key_fails() {
    let mut ini = read_ini(EXAMPLE).unwrap();
    let r = ini.set_key("Default", "NoSuchKey", IniTypes::Text("x".to_string()));
    assert_eq!(r, Err(IniError::MissingKey));
    // and the store is unchanged
    assert!(ini.get("Default").unwrap().get("NoSuchKey").is_none());
}

#[test]
fn set_existing_key_overwrites() {
    let mut ini = read_ini(EXAMPLE).unwrap();
    ini.set_key("Default", "Port", IniTypes::Integer(8080)).unwrap();
    assert_eq!(
        ini.get("Default").unwrap().get("Port").unwrap(),
        &IniTypes::Integer(8080)
    );
}

#[test]
fn duplicate_section_fails() {
    let mut ini = read_ini(EXAMPLE).unwrap();
    let r = ini.set(IniSection::new("Default"));
    assert_eq!(r, Err(IniError::DuplicateSection));
}

#[test]
fn key_before_section_fails() {
    assert!(matches!(read_ini("a = 1\n"), Err(IniError::NoCurrentSection)));
}

#[test]
fn ignored_lines() {
    let ini = read_ini("; comment\n\n[S]\nstray text\nk = 1\nx == 2\n").unwrap();
    let s = ini.get("S").unwrap();
    assert_eq!(s.get("k").unwrap(), &IniTypes::Integer(1));
    assert!(s.get("x").is_none());
}

#[test]
fn last_section_occurrence_wins() {
    let ini = read_ini("[A]\nk = 1\n[A]\n").unwrap();
    assert!(ini.get("A").unwrap().get("k").is_none());
}

#[test]
fn serialize_parse_round_trip() {
    let ini = read_ini(EXAMPLE).unwrap();
    let text = write_ini(&ini);
    let again = read_ini(&text).unwrap();
    assert_eq!(
        again.get("Default").unwrap().get("Port").unwrap(),
        &IniTypes::Integer(80)
    );
    assert_eq!(
        again.get("Default").unwrap().get("SSLEnabled").unwrap(),
        &IniTypes::Boolean(false)
    );
    assert_eq!(
        again.get("Hosts").unwrap().get("Default").unwrap(),
        &IniTypes::Text("Default Host".to_string())
    );
}

#[test]
fn round_trip_all_variants() {
    let mut ini = Ini::new();
    let mut s = IniSection::new("All");
    s.create_and_set("t", IniTypes::Text("plain text with spaces".to_string()));
    s.create_and_set("i", IniTypes::Integer(-42));
    s.create_and_set("f", IniTypes::Float("2.75e1".to_string()));
    s.create_and_set("b", IniTypes::Boolean(true));
    ini.create_and_set(s);
    let text = write_ini(&ini);
    let again = read_ini(&text).unwrap();
    let a = again.get("All").unwrap();
    assert_eq!(
        a.get("t").unwrap(),
        &IniTypes::Text("plain text with spaces".to_string())
    );
    assert_eq!(a.get("i").unwrap(), &IniTypes::Integer(-42));
    assert_eq!(a.get("f").unwrap(), &IniTypes::Float("2.75e1".to_string()));
    assert_eq!(a.get("b").unwrap(), &IniTypes::Boolean(true));
}

#[test]
fn value_accessors() {
    assert_eq!(IniTypes::Integer(5).to_integer(), Some(5));
    assert_eq!(IniTypes::Integer(5).to_boolean(), None);
    assert_eq!(IniTypes::Boolean(true).to_boolean(), Some(true));
    assert_eq!(
        IniTypes::Text("x".to_string()).to_string(),
        Some("x".to_string())
    );
    assert_eq!(
        IniTypes::Float("1.5".to_string()).to_float(),
        Some("1.5".to_string())
    );
    assert_eq!(
        IniTypes::Text("TRUE".to_string()).to_boolean_from_string(),
        Some(true)
    );
    assert_eq!(
        IniTypes::Text("False".to_string()).to_boolean_from_string(),
        Some(false)
    );
    assert_eq!(
        IniTypes::Text("yes".to_string()).to_boolean_from_string(),
        None
    );
    assert_eq!(IniTypes::Boolean(true).to_boolean_from_string(), None);
    assert!(IniTypes::Integer(1).types_match(&IniTypes::Integer(9)));
    assert!(!IniTypes::Integer(1).types_match(&IniTypes::Boolean(true)));
}
