use dns_benchmark::config::DomainConfig;
use dns_benchmark::domains::{
    assemble_domains, domain_file_lines, ensure_trailing_dot, format_is_printf_safe, formatted_domains, load_domains, DomainError,
};

fn config(file: Option<&str>, format: Option<&str>, fixed: Option<&str>, repeat: u8) -> DomainConfig {
    DomainConfig {
        file: file.map(|s| s.to_string()),
        format: format.map(|s| s.to_string()),
        fixed: fixed.map(|s| s.to_string()),
        repeat,
    }
}

fn strings(items: &[&str]) -> Vec<String> {
    items.iter().map(|s| s.to_string()).collect()
}

fn read(items: &[&str]) -> Vec<Result<String, String>> {
    items.iter().map(|s| Ok(s.to_string())).collect()
}

#[test]
fn default_repeat_is_one() {
    assert_eq!(DomainConfig::default_repeat(), 1);
}

#[test]
fn trailing_dot_is_added_once() {
    let mut a = String::from("example.com");
    ensure_trailing_dot(&mut a);
    assert_eq!(a, "example.com.");
    ensure_trailing_dot(&mut a);
    assert_eq!(a, "example.com.");
    let mut empty = String::new();
    ensure_trailing_dot(&mut empty);
    assert_eq!(empty, ".");
}

#[test]
fn fixed_domain_is_repeated() {
    let c = config(None, None, Some("example.org"), 3);
    let d = load_domains(&c, None).unwrap();
    assert_eq!(d, strings(&["example.org.", "example.org.", "example.org."]));
}

#[test]
fn formatted_domains_use_prefix_and_counter() {
    let v = formatted_domains(&String::from("%08x-%d.example.com"), 0xbeef, 3).unwrap();
    assert_eq!(v, strings(&["0000beef-0.example.com", "0000beef-1.example.com", "0000beef-2.example.com"]));
}

#[test]
fn format_errors_are_reported() {
    // A format without a conversion gets too many arguments.
    let c = config(None, Some("plain.example.com"), None, 2);
    assert!(matches!(load_domains(&c, None), Err(DomainError::Format(_))));
    assert!(formatted_domains(&String::from("%d"), 7, 1).is_err());
}

#[test]
fn zero_repeat_formats_nothing() {
    let c = config(None, Some("plain.example.com"), Some("fixed.example"), 0);
    assert_eq!(load_domains(&c, None).unwrap(), Vec::<String>::new());
}

#[test]
fn load_domains_orders_the_parts() {
    let c = config(Some("list.csv"), Some("%x.%d.test"), Some("fixed.test."), 2);
    let lines = read(&["domain", "a.test", "b.test.", "c.test"]);
    let d = load_domains(&c, Some(Ok(lines))).unwrap();
    assert_eq!(d.len(), 7);
    assert_eq!(&d[0], "fixed.test.");
    assert_eq!(&d[1], "fixed.test.");
    // The generated domains share one random prefix and count from 0.
    let p0: Vec<&str> = d[2].split('.').collect();
    let p1: Vec<&str> = d[3].split('.').collect();
    assert_eq!(p0[0], p1[0]);
    assert_eq!(&p0[1..], &["0", "test", ""]);
    assert_eq!(&p1[1..], &["1", "test", ""]);
    // The file's lines follow, without the header, in some order.
    let mut rest: Vec<String> = d[4..].to_vec();
    rest.sort();
    assert_eq!(rest, strings(&["a.test.", "b.test.", "c.test."]));
}

#[test]
fn file_with_only_a_header_gives_nothing() {
    let c = config(Some("list.csv"), None, None, 1);
    assert_eq!(load_domains(&c, Some(Ok(read(&["domain"])))).unwrap(), Vec::<String>::new());
    assert_eq!(load_domains(&c, Some(Ok(Vec::new()))).unwrap(), Vec::<String>::new());
}

#[test]
fn header_is_dropped_even_when_unreadable() {
    let lines = vec![Err("bad header".to_string()), Ok("a.test".to_string()), Ok("b.test".to_string())];
    assert_eq!(domain_file_lines(&lines).unwrap(), strings(&["a.test", "b.test"]));
}

#[test]
fn first_unreadable_line_after_header_fails() {
    let lines = vec![
        Ok("domain".to_string()),
        Ok("a.test".to_string()),
        Err("stream did not contain valid UTF-8".to_string()),
        Err("later".to_string()),
    ];
    assert_eq!(domain_file_lines(&lines), Err("stream did not contain valid UTF-8".to_string()));
    let c = config(Some("list.csv"), None, None, 1);
    match load_domains(&c, Some(Ok(lines))) {
        Err(DomainError::File(m)) => assert_eq!(m, "stream did not contain valid UTF-8"),
        other => panic!("unexpected: {:?}", other),
    }
}

#[test]
fn widths_beyond_i32_are_refused() {
    assert!(format_is_printf_safe(&String::from("%999999999d.test")));
    assert!(format_is_printf_safe(&String::from("%2147483647d.test")));
    assert!(!format_is_printf_safe(&String::from("%2147483648d.test")));
    assert!(!format_is_printf_safe(&String::from("%.99999999999d.test")));
    assert!(!format_is_printf_safe(&String::from("%x.%-+012345678901u")));
    // Digits in plain text, a leading zero flag, and numbers after a
    // malformed conversion are not read as widths.
    assert!(format_is_printf_safe(&String::from("%u-%u.1234567890.example")));
    assert!(format_is_printf_safe(&String::from("%01234567890d")));
    assert!(format_is_printf_safe(&String::from("%w99999999999d")));
    assert!(format_is_printf_safe(&String::from("%%99999999999")));
    assert!(format_is_printf_safe(&String::from("")));
    let c = config(None, Some("%2147483648d.%d"), None, 1);
    assert!(matches!(load_domains(&c, None), Err(DomainError::FormatNumberTooLarge)));
    let none = config(None, Some("%2147483648d.%d"), None, 0);
    assert_eq!(load_domains(&none, None).unwrap(), Vec::<String>::new());
}

#[test]
fn long_digit_runs_in_text_are_kept() {
    let c = config(None, Some("%x-%u.1234567890.example"), None, 2);
    let d = load_domains(&c, None).unwrap();
    assert_eq!(d.len(), 2);
    assert!(d[0].ends_with("-0.1234567890.example."));
    assert!(d[1].ends_with("-1.1234567890.example."));
}

#[test]
fn format_error_comes_before_file_error() {
    let c = config(Some("missing.csv"), Some("plain.example.com"), None, 1);
    assert!(matches!(load_domains(&c, Some(Err("gone".to_string()))), Err(DomainError::Format(_))));
}

#[test]
fn file_errors_are_passed_on() {
    let c = config(Some("missing.csv"), None, Some("x.test"), 1);
    match load_domains(&c, Some(Err(String::from("Could not open file missing.csv")))) {
        Err(DomainError::File(m)) => assert_eq!(m, "Could not open file missing.csv"),
        other => panic!("unexpected: {:?}", other),
    }
}

#[test]
fn assemble_keeps_the_given_order() {
    let c = config(None, None, Some("f"), 1);
    let d = assemble_domains(&c, strings(&["g1", "g2."]), strings(&["z", "y"]));
    assert_eq!(d, strings(&["f.", "g1.", "g2.", "z.", "y."]));
}
