use sysctl_config::SysctlConfig;

#[test]
fn parse_line_trims_whitespace() {
    let mut config = SysctlConfig::new();
    config.parse_line("  key = value  ");
    assert_eq!(config.len(), 1);
    assert_eq!(config.get("key").map(String::as_str), Some("value"));
}

#[test]
fn parse_line_preserves_inner_whitespace() {
    let mut config = SysctlConfig::new();
    config.parse_line("k =  a b  c ");
    assert_eq!(config.get("k").map(String::as_str), Some("a b  c"));
}

#[test]
fn comment_lines_are_skipped() {
    let mut config = SysctlConfig::new();
    config.parse_line("# a = b");
    config.parse_line("; x = 1");
    config.parse_line("  #c=d");
    config.parse_line("\t;e=f");
    assert_eq!(config.len(), 0);
    assert!(config.get("a").is_none());
    assert!(config.get("x").is_none());
    assert!(config.get("c").is_none());
}

#[test]
fn splits_on_first_equals_only() {
    let mut config = SysctlConfig::new();
    config.parse_line("a=b=c");
    assert_eq!(config.len(), 1);
    assert_eq!(config.get("a").map(String::as_str), Some("b=c"));
}

#[test]
fn later_duplicate_key_overwrites() {
    let mut config = SysctlConfig::new();
    config.load("x=1\ny=9\nx=2");
    assert_eq!(config.len(), 2);
    assert_eq!(config.get("x").map(String::as_str), Some("2"));
    assert_eq!(config.get("y").map(String::as_str), Some("9"));
}

#[test]
fn empty_text_loads_empty_configuration() {
    let mut config = SysctlConfig::new();
    config.load("");
    assert_eq!(config.len(), 0);
}

#[test]
fn blank_and_malformed_lines_are_skipped() {
    let mut config = SysctlConfig::new();
    config.load("\n   \nno_separator\n=value_without_key\n  \t \n");
    assert_eq!(config.len(), 0);
}

#[test]
fn empty_value_is_kept() {
    let mut config = SysctlConfig::new();
    config.parse_line("k =");
    assert_eq!(config.get("k").map(String::as_str), Some(""));
}

#[test]
fn final_line_without_newline_is_parsed() {
    let mut config = SysctlConfig::new();
    config.load("a = 1\nb = 2");
    assert_eq!(config.len(), 2);
    assert_eq!(config.get("b").map(String::as_str), Some("2"));
}

#[test]
fn carriage_returns_are_trimmed() {
    let mut config = SysctlConfig::new();
    config.load("a = 1\r\nb = 2\r\n");
    assert_eq!(config.get("a").map(String::as_str), Some("1"));
    assert_eq!(config.get("b").map(String::as_str), Some("2"));
}

#[test]
fn entries_reports_every_pair_once() {
    let mut config = SysctlConfig::new();
    config.load("a = 1\nb = 2\na = 3");
    let entries = config.entries();
    assert_eq!(entries.len(), 2);
    assert!(entries.iter().any(|(k, v)| k == "a" && v == "3"));
    assert!(entries.iter().any(|(k, v)| k == "b" && v == "2"));
}
