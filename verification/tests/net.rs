use gtether::net::driver::{
    select, DriverOptions, OptionError, OptionKey, PatternError, TestNetDriverClientServer, ValueKind,
};
use gtether::net::message::{derive_message_body, derive_message_repliable};

fn options(pairs: &[(&str, &str)]) -> Result<TestNetDriverClientServer, OptionError> {
    let mut options = DriverOptions::new();
    for (key, value) in pairs {
        options = options.set(OptionKey::find(key)?, value.to_string())?;
    }
    options.finish()
}

#[test]
fn test_driver_defaults() {
    let generator = options(&[("name", "udp"), ("stack_factory", "Factory")]).unwrap();
    assert_eq!(generator.test_name, "udp");
    assert_eq!(generator.stack_factory, "Factory");
    assert_eq!(generator.timeout, "0.1");
    assert_eq!(generator.test_attr, "test");
    let tests = generator.gen_core_tests().unwrap();
    let names: Vec<&str> = tests.iter().map(|t| t.test_name.as_str()).collect();
    assert_eq!(
        names,
        vec![
            "test_udp_connect",
            "test_udp_listen_already_bound",
            "test_udp_connect_cancelled",
            "test_udp_connect_after_close",
        ]
    );
    assert_eq!(tests[1].method_name, "test_listen_already_bound");
    assert_eq!(generator.gen_send_tests().unwrap().len(), 7);
    assert_eq!(generator.gen_send_to_tests().unwrap().len(), 8);
    assert_eq!(generator.gen_broadcast_tests().unwrap().len(), 4);
}

#[test]
fn test_driver_patterns() {
    let generator = options(&[
        ("name", "udp"),
        ("stack_factory", "Factory"),
        ("include", "^send_(closed|recv)"),
        ("exclude", "dst$"),
        ("timeout", "2.5"),
        ("test_attr", "test_log"),
    ])
    .unwrap();
    let tests = generator.gen_send_tests().unwrap();
    let names: Vec<&str> = tests.iter().map(|t| t.method_name.as_str()).collect();
    assert_eq!(
        names,
        vec!["test_send_closed_src", "test_send_closed_partial", "test_send_recv", "test_send_recv_many"]
    );
    assert!(generator.gen_core_tests().unwrap().is_empty());
    assert_eq!(generator.timeout, "2.5");
    assert_eq!(generator.test_attr, "test_log");
}

#[test]
fn test_driver_option_errors() {
    let text = |pairs: &[(&str, &str)]| options(pairs).err().unwrap().to_text();
    assert_eq!(text(&[]), "'name' is required");
    assert_eq!(text(&[("name", "udp")]), "'stack_factory' is required");
    assert_eq!(text(&[("nam", "udp")]), "Unknown key: nam");
    let wrong = "regex parse error:\n    (\n    ^\nerror: unclosed group";
    assert_eq!(text(&[("include", "(")]), format!("Failed to compile 'include' regex: {wrong}"));
    assert_eq!(text(&[("exclude", "(")]), format!("Failed to compile 'exclude' regex: {wrong}"));
    let large = "Compiled regex exceeds size limit of 10485760 bytes.";
    assert_eq!(text(&[("include", "\\w{5000}")]), format!("Failed to compile 'include' regex: {large}"));
    assert_eq!(text(&[("exclude", "\\w{5000}")]), format!("Failed to compile 'exclude' regex: {large}"));
}

#[test]
fn test_driver_accepts_by_outcome() {
    let value = || "x".to_string();
    let refusal = || Some(PatternError::Limit("too large".to_string()));
    let accept = |key, refusal| DriverOptions::new().accept(key, value(), refusal);
    assert_eq!(accept(OptionKey::Include, None).unwrap().include_pattern, Some(value()));
    assert_eq!(accept(OptionKey::Exclude, None).unwrap().exclude_pattern, Some(value()));
    assert_eq!(accept(OptionKey::Name, refusal()).unwrap().name, Some(value()));
    assert!(matches!(accept(OptionKey::Include, refusal()), Err(OptionError::BadInclude(t)) if t == "too large"));
    assert!(matches!(accept(OptionKey::Exclude, refusal()), Err(OptionError::BadExclude(t)) if t == "too large"));
}

#[test]
fn test_driver_tests_by_outcome() {
    let generator = options(&[("name", "udp"), ("stack_factory", "Factory")]).unwrap();
    let wrong = |text: &str| Err(PatternError::Syntax(text.to_string()));
    let test = generator.test_for("send", Ok(Some(true)), Ok(None)).unwrap().unwrap();
    assert_eq!(test.test_name, "test_udp_send");
    assert_eq!(test.method_name, "test_send");
    assert!(generator.test_for("send", Ok(None), Ok(Some(true))).unwrap().is_none());
    assert_eq!(generator.test_for("send", wrong("a"), wrong("b")).err(), Some(PatternError::Syntax("a".to_string())));
    assert_eq!(generator.test_for("send", Ok(None), wrong("b")).err(), Some(PatternError::Syntax("b".to_string())));
}

#[test]
fn test_driver_refuses_patterns_that_were_not_set() {
    let mut generator = options(&[("name", "udp"), ("stack_factory", "Factory")]).unwrap();
    generator.include_pattern = Some("(".to_string());
    generator.exclude_pattern = Some("\\w{5000}".to_string());
    assert!(matches!(generator.gen_core_tests(), Err(PatternError::Syntax(_))));
    assert!(generator.gen_tests_from_suite(&vec![]).unwrap().is_empty());
    generator.include_pattern = None;
    assert!(matches!(generator.gen_broadcast_tests(), Err(PatternError::Limit(_))));
}

#[test]
fn test_driver_value_kinds() {
    let kind = |key: &str| OptionKey::find(key).unwrap().value_kind();
    assert_eq!(kind("name"), ValueKind::Ident);
    assert_eq!(kind("stack_factory"), ValueKind::Ident);
    assert_eq!(kind("test_attr"), ValueKind::Ident);
    assert_eq!(kind("timeout"), ValueKind::Float);
    assert_eq!(kind("include"), ValueKind::Text);
    assert_eq!(kind("exclude"), ValueKind::Text);
}

#[test]
fn test_driver_selection() {
    assert!(select(None, None));
    assert!(select(Some(true), Some(false)));
    assert!(!select(Some(false), None));
    assert!(!select(Some(true), Some(true)));
    assert!(!select(None, Some(true)));
}

#[test]
fn test_message_attributes() {
    let path = |text: &str| text.split("::").map(|s| s.to_string()).collect::<Vec<String>>();
    let paths = vec![
        path("derive"),
        path("message_flag"),
        path("message_reply"),
        path("x::message_flag"),
        path("message_flag"),
        path("message_reply"),
    ];
    let plan = derive_message_body(&paths);
    assert_eq!(plan.flags, vec![1, 4]);
    assert_eq!(plan.reply, Some(2));
    assert_eq!(derive_message_repliable(&paths), Ok(2));
    let none = vec![path("derive")];
    assert!(derive_message_body(&none).flags.is_empty());
    assert_eq!(derive_message_repliable(&none), Err("'message_reply' attribute is required".to_string()));
}
