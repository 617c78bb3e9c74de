use scope::codec::{format_record, parse_line};
use scope::errors::ScopeError;

#[test]
fn parse_address_only() {
    let rec = parse_line("1.2.3.4", false).unwrap();
    assert_eq!(rec.address, "1.2.3.4");
    assert!(rec.names.is_empty());
    assert_eq!(rec.comment, "");
    assert!(!rec.live);
}

#[test]
fn parse_with_names() {
    let rec = parse_line("1.2.3.4,alpha,beta", true).unwrap();
    assert_eq!(rec.address, "1.2.3.4");
    assert_eq!(rec.names, vec!["alpha".to_string(), "beta".to_string()]);
    assert_eq!(rec.comment, "");
    assert!(rec.live);
}

#[test]
fn parse_with_comment() {
    let rec = parse_line("1.2.3.4,web#prod server", false).unwrap();
    assert_eq!(rec.address, "1.2.3.4");
    // the name keeps the hash suffix verbatim: a known limitation
    assert_eq!(rec.names, vec!["web#prod server".to_string()]);
    assert_eq!(rec.comment, "prod server");
}

#[test]
fn parse_comment_splits_on_last_hash() {
    let rec = parse_line("1.2.3.4,a#b#c", false).unwrap();
    assert_eq!(rec.comment, "c");
}

#[test]
fn parse_rejects_invalid_addresses() {
    assert!(matches!(
        parse_line("nonsense", false),
        Err(ScopeError::InvalidAddress)
    ));
    assert!(matches!(parse_line("", false), Err(ScopeError::InvalidAddress)));
    assert!(matches!(
        parse_line("300.1.2.3,x", false),
        Err(ScopeError::InvalidAddress)
    ));
    assert!(matches!(
        parse_line("   ", true),
        Err(ScopeError::InvalidAddress)
    ));
}

#[test]
fn format_address_only() {
    let rec = parse_line("10.0.0.1", false).unwrap();
    assert_eq!(format_record(&rec), "10.0.0.1");
}

#[test]
fn format_with_names() {
    let rec = parse_line("10.0.0.1,host1,host2", false).unwrap();
    assert_eq!(format_record(&rec), "10.0.0.1,host1,host2");
}

#[test]
fn format_parse_round_trip_without_comment() {
    for line in ["1.2.3.4", "10.0.0.1,host1,host2", "::1,name", "1.2.3.4,"] {
        let rec = parse_line(line, false).unwrap();
        assert_eq!(format_record(&rec), line);
    }
}

#[test]
fn display_line_ip_only() {
    let rec = parse_line("10.0.0.1,host1", false).unwrap();
    assert_eq!(rec.display_line(true), "10.0.0.1");
    assert_eq!(rec.display_line(false), "10.0.0.1,host1");
}

#[test]
fn error_messages() {
    assert_eq!(ScopeError::InvalidAddress.message(), "failed to parse IP address");
    assert_eq!(ScopeError::NotImplemented.message(), "not yet implemented");
}
