use blocklist_sync::normalize::{filter_domain, finish_domain, prepare_line};

fn norm(line: &str) -> Option<String> {
    filter_domain(line)
}

#[test]
fn wildcard_mixed_case_line() {
    assert_eq!(norm("*.Example.COM"), Some("example.com".to_string()));
}

#[test]
fn hosts_file_line() {
    assert_eq!(norm("0.0.0.0 example.com"), Some("example.com".to_string()));
    assert_eq!(norm("127.0.0.1\t  ads.example.org"), Some("ads.example.org".to_string()));
}

#[test]
fn adblock_anchor_line() {
    assert_eq!(norm("||example.com^"), Some("example.com".to_string()));
    assert_eq!(norm("@@||ads.example.com^$third-party"), Some("ads.example.com".to_string()));
    assert_eq!(norm("@@|tracker.example.net"), Some("tracker.example.net".to_string()));
}

#[test]
fn rejects_empty_and_comment_lines() {
    assert_eq!(norm(""), None);
    assert_eq!(norm("   \t "), None);
    assert_eq!(norm("# a comment"), None);
    assert_eq!(norm("  ! adblock comment"), None);
    assert_eq!(norm("/ads[0-9]+/"), None);
}

#[test]
fn rejects_ipv4_literals() {
    assert_eq!(norm("1.2.3.4"), None);
    assert_eq!(norm("192.168.10.254"), None);
    assert_eq!(finish_domain("10.0.0.1"), None);
}

#[test]
fn www_before_an_ipv4_literal_is_rejected() {
    assert_eq!(norm("www.1.2.3.4"), None);
    assert_eq!(norm("www.www.10.0.0.1"), None);
    assert_eq!(finish_domain("www.1.2.3.4"), None);
    assert_eq!(finish_domain("www.1.2.3.4.5"), Some("1.2.3.4.5".to_string()));
}

#[test]
fn rejects_what_is_no_domain() {
    assert_eq!(norm("-bad.example.com"), None);
    assert_eq!(norm("bad-.example.com"), None);
    assert_eq!(norm("a..b"), None);
    assert_eq!(norm("example.com."), None);
    assert_eq!(norm("exa mple.com"), None);
}

#[test]
fn canonical_domains_are_fixed_points() {
    for d in ["example.com", "a-b.example.com", "x1.y2.example.org", "localhost", "123.example.com", "1password.com", "xn--mnchen-3ya.de"] {
        let once = norm(d).expect("canonical domain kept");
        assert_eq!(once, d);
        assert_eq!(norm(&once), Some(once.clone()));
    }
}

#[test]
fn output_normalizes_to_itself() {
    for line in ["*.Example.COM", "0.0.0.0 example.com", "||ads.example.com^", "www.Shop.example.net"] {
        let once = norm(line).expect("domain");
        assert_eq!(norm(&once), Some(once.clone()));
    }
}

#[test]
fn leading_www_labels_are_dropped() {
    assert_eq!(norm("www.example.com"), Some("example.com".to_string()));
    assert_eq!(norm("www.www.example.com"), Some("example.com".to_string()));
    assert_eq!(finish_domain("www.www.example.com"), Some("example.com".to_string()));
}

#[test]
fn annotations_and_returns_are_cut() {
    assert_eq!(norm("example.com # tracker\r"), Some("example.com".to_string()));
    assert_eq!(norm("ads.example.com$script,domain=x.org"), Some("ads.example.com".to_string()));
    assert_eq!(norm(".example.com\r"), Some("example.com".to_string()));
}

#[test]
fn uppercase_is_lowered() {
    assert_eq!(norm("ADS.EXAMPLE.COM"), Some("ads.example.com".to_string()));
}

#[test]
fn unicode_names_become_punycode() {
    assert_eq!(norm("münchen.de"), Some("xn--mnchen-3ya.de".to_string()));
    assert_eq!(norm("BÜCHER.example"), Some("xn--bcher-kva.example".to_string()));
}

#[test]
fn prepare_line_steps() {
    assert_eq!(prepare_line("*.*.example.com^$third-party"), "example.com");
    assert_eq!(prepare_line("0.0.0.0   example.com"), "example.com");
    assert_eq!(prepare_line("::1 localhost"), "localhost");
    assert_eq!(prepare_line("*example.com"), "example.com");
    assert_eq!(prepare_line("..example.com"), "example.com");
    assert_eq!(prepare_line("a\rb.com"), "ab.com");
    assert_eq!(prepare_line("deadbeef.com"), "deadbeef.com");
}

#[test]
fn finish_domain_grammar() {
    assert_eq!(finish_domain("a.b-c.d"), Some("a.b-c.d".to_string()));
    assert_eq!(finish_domain("a"), Some("a".to_string()));
    assert_eq!(finish_domain(""), None);
    assert_eq!(finish_domain("a_b.com"), None);
    assert_eq!(finish_domain("1.2.3"), Some("1.2.3".to_string()));
    assert_eq!(finish_domain("1.2.3.4.5"), Some("1.2.3.4.5".to_string()));
    assert_eq!(finish_domain("1234.2.3.4"), Some("1234.2.3.4".to_string()));
}
