use wsl_dns_agent::wslconf::{parse_ini, IniDoc};

#[test]
fn parses_sections_entries_and_comments() {
    let doc = parse_ini(
        "# leading comment\n\
         [network]\n\
         generateResolvConf = true\n\
         ; another comment\n\
         \n\
         [boot]\n\
         systemd=true\n",
    )
    .unwrap();
    assert_eq!(doc.sections.len(), 2);
    assert_eq!(doc.sections[0].name, "network");
    assert_eq!(
        doc.get("network", "generateResolvConf").as_deref(),
        Some("true")
    );
    assert_eq!(doc.get("boot", "systemd").as_deref(), Some("true"));
    assert_eq!(doc.get("network", "systemd"), None);
    assert_eq!(doc.get("user", "default"), None);
}

#[test]
fn keys_and_values_are_trimmed() {
    let doc = parse_ini("[s]\n  key with spaces  =  value here  \n").unwrap();
    assert_eq!(doc.get("s", "key with spaces").as_deref(), Some("value here"));
}

#[test]
fn later_assignments_override_earlier_ones() {
    let doc = parse_ini("[s]\nk=a\nk=b\n[s]\nother=1\n").unwrap();
    assert_eq!(doc.get("s", "k").as_deref(), Some("b"));
    assert_eq!(doc.get("s", "other").as_deref(), Some("1"));
}

#[test]
fn malformed_lines_fail_parsing() {
    // No '=' on a non-section line.
    assert!(parse_ini("[s]\nnot an entry\n").is_none());
    // Unclosed section header.
    assert!(parse_ini("[s\nk=v\n").is_none());
    // Empty key.
    assert!(parse_ini("[s]\n=v\n").is_none());
    // Entry before any section.
    assert!(parse_ini("k=v\n[s]\n").is_none());
}

#[test]
fn empty_text_parses_to_empty_document() {
    let doc = parse_ini("").unwrap();
    assert!(doc.sections.is_empty());
}

#[test]
fn set_updates_an_existing_key_in_place() {
    let mut doc = parse_ini("[network]\ngenerateResolvConf=true\nother=x\n").unwrap();
    doc.set("network", "generateResolvConf", "false");
    assert_eq!(
        doc.get("network", "generateResolvConf").as_deref(),
        Some("false")
    );
    assert_eq!(doc.get("network", "other").as_deref(), Some("x"));
    assert_eq!(
        doc.to_text(),
        "[network]\ngenerateResolvConf=false\nother=x\n"
    );
}

#[test]
fn set_appends_key_and_section_when_absent() {
    let mut doc = IniDoc::new();
    doc.set("network", "generateResolvConf", "false");
    assert_eq!(doc.to_text(), "[network]\ngenerateResolvConf=false\n");
    doc.set("network", "hostname", "guest");
    assert_eq!(
        doc.to_text(),
        "[network]\ngenerateResolvConf=false\nhostname=guest\n"
    );
    doc.set("boot", "systemd", "true");
    assert_eq!(
        doc.to_text(),
        "[network]\ngenerateResolvConf=false\nhostname=guest\n[boot]\nsystemd=true\n"
    );
}

#[test]
fn serialized_text_parses_back_to_the_same_settings() {
    let mut doc = IniDoc::new();
    doc.set("network", "generateResolvConf", "false");
    doc.set("boot", "systemd", "true");
    let reparsed = parse_ini(&doc.to_text()).unwrap();
    assert_eq!(
        reparsed.get("network", "generateResolvConf").as_deref(),
        Some("false")
    );
    assert_eq!(reparsed.get("boot", "systemd").as_deref(), Some("true"));
}
