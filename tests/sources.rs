use blocklist_sync::sources::{domains_from_texts, source_entries, split_lines};

fn strings(items: &[&str]) -> Vec<String> {
    items.iter().map(|s| s.to_string()).collect()
}

#[test]
fn lines_like_str_lines() {
    for text in ["", "a", "a\n", "a\nb", "a\r\nb\r\n", "\n", "\n\n", "a\r", "x\r\r\ny", "é\nü\n"] {
        let expected: Vec<String> = text.lines().map(|l| l.to_string()).collect();
        assert_eq!(split_lines(text), expected, "text {:?}", text);
    }
}

#[test]
fn source_entries_skip_comments() {
    let text = "# sources\nhttps://a.example/list.txt\n\n#https://old.example\nhttps://b.example/hosts\n";
    assert_eq!(
        source_entries(text),
        strings(&["https://a.example/list.txt", "", "https://b.example/hosts"])
    );
}

#[test]
fn domains_of_texts_are_normalized_and_collapsed() {
    let texts = strings(&[
        "# hosts\n0.0.0.0 ads.example.com\n0.0.0.0 example.com\r\n",
        "||tracker.test.org^\n! comment\nwww.shop.net\n1.2.3.4\n",
    ]);
    assert_eq!(
        domains_from_texts(&texts, false),
        strings(&["example.com", "shop.net", "tracker.test.org"])
    );
    assert_eq!(
        domains_from_texts(&texts, true),
        strings(&["ads.example.com", "example.com", "shop.net", "tracker.test.org"])
    );
}

#[test]
fn no_texts_no_domains() {
    assert!(domains_from_texts(&Vec::new(), false).is_empty());
    assert!(domains_from_texts(&strings(&["", "\n\n# only comments\n"]), true).is_empty());
}
