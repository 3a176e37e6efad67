use email_graph::email::{keep_non_empty, parse_record, parse_recipients, EmailRecord};
use email_graph::ranking::{identify_top_recipients, identify_top_senders};
use email_graph::summary::summarize_degrees;

fn entries(items: &[(&str, usize)]) -> Vec<(String, usize)> {
    items.iter().map(|(n, d)| (n.to_string(), *d)).collect()
}

fn record(sender: &str, recipients: &str) -> EmailRecord {
    EmailRecord {
        index: 0,
        date: "2001-05-14".to_string(),
        sender: sender.to_string(),
        recipient1: recipients.to_string(),
        subject: "s".to_string(),
        text: "t".to_string(),
    }
}

#[test]
fn recipients_are_split_trimmed_and_lowercased() {
    assert_eq!(
        parse_recipients(" Alice@Example.COM, bob@example.com ,,  "),
        vec!["alice@example.com".to_string(), "bob@example.com".to_string()]
    );
    assert_eq!(parse_recipients(""), Vec::<String>::new());
    assert_eq!(parse_recipients("\tCAROL@x.org\n"), vec!["carol@x.org".to_string()]);
}

#[test]
fn empty_entries_are_dropped() {
    let kept = keep_non_empty(vec!["".to_string(), "a".to_string(), "".to_string(), "b".to_string()]);
    assert_eq!(kept, vec!["a".to_string(), "b".to_string()]);
}

#[test]
fn records_without_sender_or_recipients_are_skipped() {
    assert!(parse_record(&record("", "bob@example.com")).is_none());
    assert!(parse_record(&record("alice@example.com", " , ,")).is_none());
    let parsed = parse_record(&record("alice@example.com", "Bob@Example.com, carol@example.com")).unwrap();
    assert_eq!(parsed.from, "alice@example.com");
    assert_eq!(parsed.to, vec!["bob@example.com".to_string(), "carol@example.com".to_string()]);
}

#[test]
fn top_senders_by_out_degree() {
    let degrees = entries(&[("a", 1), ("b", 3), ("c", 2), ("d", 3), ("e", 0)]);
    assert_eq!(identify_top_senders(&degrees, 3), entries(&[("b", 3), ("d", 3), ("c", 2)]));
    assert_eq!(identify_top_senders(&degrees, 0), Vec::<(String, usize)>::new());
    assert_eq!(
        identify_top_senders(&degrees, 10),
        entries(&[("b", 3), ("d", 3), ("c", 2), ("a", 1), ("e", 0)])
    );
}

#[test]
fn top_recipients_by_in_degree() {
    let degrees = entries(&[("x", 2), ("y", 5), ("z", 2)]);
    assert_eq!(identify_top_recipients(&degrees, 2), entries(&[("y", 5), ("x", 2)]));
    assert_eq!(identify_top_recipients(&Vec::new(), 4), Vec::<(String, usize)>::new());
}

#[test]
fn degree_summary_values() {
    let s = summarize_degrees(&entries(&[("a", 3), ("b", 1), ("c", 3), ("d", 0)]));
    assert_eq!(s.total_nodes, 4);
    assert_eq!(s.total_degree, 7);
    assert_eq!(s.max_degree, 3);
    assert_eq!(s.min_degree, 0);
    let e = summarize_degrees(&Vec::new());
    assert_eq!((e.total_nodes, e.total_degree, e.max_degree, e.min_degree), (0, 0, 0, 0));
    let big = summarize_degrees(&entries(&[("a", usize::MAX), ("b", usize::MAX)]));
    assert_eq!(big.total_degree, 2 * (usize::MAX as u128));
}
