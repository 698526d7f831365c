use repoblame::blame::{parse_email, record_line, tracked_file};
use repoblame::stats::RepoStats;

#[test]
fn email_in_angle_brackets() {
    assert_eq!(parse_email("author-mail <a@b.com>"), Some("a@b.com".to_string()));
}

#[test]
fn email_without_angle_brackets() {
    assert_eq!(parse_email("author-mail a@b.com"), Some("a@b.com".to_string()));
}

#[test]
fn line_without_marker_gives_nothing() {
    assert_eq!(parse_email("author Alice"), None);
    assert_eq!(parse_email("summary mail <a@b.com>"), None);
    assert_eq!(parse_email("author-mai <a@b.com>"), None);
    assert_eq!(parse_email(""), None);
    assert_eq!(parse_email("\tlet x = 1;"), None);
}

#[test]
fn line_that_only_mentions_the_marker_gives_nothing() {
    assert_eq!(parse_email("summary fix author-mail parsing"), None);
    assert_eq!(parse_email("committer author-mail <c@d.org>"), None);
    assert_eq!(parse_email("xauthor-mail <c@d.org>"), None);
    assert_eq!(parse_email(" author-mail <c@d.org>"), None);
    assert_eq!(parse_email("\tauthor-mail <c@d.org>"), None);
    assert_eq!(parse_email("<c@d.org> author-mail"), None);
}

#[test]
fn whitespace_must_follow_the_marker() {
    assert_eq!(parse_email("author-mail"), None);
    assert_eq!(parse_email("author-mailx <c@d.org>"), None);
    assert_eq!(parse_email("author-mail<c@d.org>"), None);
    assert_eq!(parse_email("author-mail-x <c@d.org>"), None);
    assert_eq!(parse_email("author-mail\t<c@d.org>"), Some("c@d.org".to_string()));
}

#[test]
fn line_without_a_usable_token_gives_nothing() {
    assert_eq!(parse_email("author-mail <>"), None);
    assert_eq!(parse_email("author-mail "), None);
    assert_eq!(parse_email("author-mail  \t "), None);
    assert_eq!(parse_email("author-mail <"), None);
    assert_eq!(parse_email("author-mail ><><"), None);
    assert_eq!(parse_email("author-mail a@b.com <>"), None);
}

#[test]
fn last_token_is_taken() {
    assert_eq!(parse_email("author-mail <a@b.com> <c@d.org>"), Some("c@d.org".to_string()));
    assert_eq!(parse_email("author-mail Alice Example <a@b.com>"), Some("a@b.com".to_string()));
    assert_eq!(parse_email("author-mail author-mail"), Some("author-mail".to_string()));
}

#[test]
fn whitespace_splits_the_line() {
    assert_eq!(parse_email("author-mail\t<a@b.com>"), Some("a@b.com".to_string()));
    assert_eq!(parse_email("author-mail   <a@b.com>"), Some("a@b.com".to_string()));
    assert_eq!(parse_email("author-mail <a@b.com>  "), Some("a@b.com".to_string()));
    assert_eq!(parse_email("author-mail <a@b.com>\r\n"), Some("a@b.com".to_string()));
    assert_eq!(parse_email("author-mail\u{a0}<a@b.com>\u{3000}"), Some("a@b.com".to_string()));
}

#[test]
fn all_brackets_at_both_ends_are_stripped() {
    assert_eq!(parse_email("author-mail <<a@b.com>>"), Some("a@b.com".to_string()));
    assert_eq!(parse_email("author-mail ><a@b.com<>"), Some("a@b.com".to_string()));
    assert_eq!(parse_email("author-mail a<b>c"), Some("a<b>c".to_string()));
    assert_eq!(parse_email("author-mail <a@b.com"), Some("a@b.com".to_string()));
    assert_eq!(parse_email("author-mail a@b.com>"), Some("a@b.com".to_string()));
}

#[test]
fn email_may_hold_any_characters() {
    assert_eq!(
        parse_email("author-mail <j\u{fc}rgen@b\u{e4}r.de>"),
        Some("j\u{fc}rgen@b\u{e4}r.de".to_string())
    );
}

#[test]
fn tracked_file_drops_the_line_feed() {
    assert_eq!(tracked_file("src/main.rs\n"), Some("src/main.rs".to_string()));
    assert_eq!(tracked_file("\n"), Some(String::new()));
    assert_eq!(tracked_file("gr\u{fc}n.txt\n"), Some("gr\u{fc}n.txt".to_string()));
    assert_eq!(tracked_file(""), None);
}

#[test]
fn tracked_file_keeps_a_line_without_line_feed() {
    assert_eq!(tracked_file("a.rs"), Some("a.rs".to_string()));
    assert_eq!(tracked_file("a"), Some("a".to_string()));
    assert_eq!(tracked_file("gr\u{fc}n"), Some("gr\u{fc}n".to_string()));
    assert_eq!(tracked_file("a.rs\r\n"), Some("a.rs\r".to_string()));
    assert_eq!(tracked_file("a.rs\n\n"), Some("a.rs\n".to_string()));
    assert_eq!(tracked_file("a.rs\r"), Some("a.rs\r".to_string()));
}

#[test]
fn record_line_counts_the_author_mail_line_only() {
    let mut stats = RepoStats::new();
    let record: [&[u8]; 9] = [
        b"0123456789abcdef0123456789abcdef01234567 1 1 2",
        b"author Alice",
        b"author-mail <alice@x>",
        b"author-time 1700000000",
        b"committer-mail <carol@x>",
        b"summary touch author-mail handling",
        b"summary author-mail",
        b"filename src/main.rs",
        b"\tauthor-mail <bob@x>",
    ];
    for line in record {
        record_line(&mut stats, line, Some("rs"));
    }
    assert_eq!(stats.total_lines.0, 1);
    assert_eq!(stats.author_stats.len(), 1);
    assert_eq!(stats.author_stats[0].0.email, "alice@x");
    assert_eq!(stats.author_stats[0].1.lines.0, 1);
    record_line(&mut stats, b"author-mail <alice@x>", None);
    assert_eq!(stats.total_lines.0, 2);
    assert_eq!(stats.author_stats[0].1.lines.0, 2);
    assert_eq!(stats.author_stats[0].1.file_types[1].0 .0, "Unknown");
    record_line(&mut stats, b"author-mail <>", None);
    assert_eq!(stats.total_lines.0, 2);
    assert_eq!(stats.author_stats.len(), 1);
}

#[test]
fn record_line_reads_the_bytes_as_utf8() {
    let mut stats = RepoStats::new();
    record_line(&mut stats, "author-mail <j\u{fc}rgen@x>".as_bytes(), Some("rs"));
    record_line(&mut stats, b"author-mail <j\xfcrgen@x>", Some("rs"));
    record_line(&mut stats, b"author-mail \xc3\x28", Some("rs"));
    record_line(&mut stats, b"author-mai\xff <a@b>", Some("rs"));
    record_line(&mut stats, b"\xffauthor-mail <a@b>", Some("rs"));
    let emails: Vec<&str> = stats.author_stats.iter().map(|entry| entry.0.email.as_str()).collect();
    assert_eq!(emails, vec!["j\u{fc}rgen@x", "j\u{fffd}rgen@x", "\u{fffd}("]);
    assert_eq!(stats.total_lines.0, 3);
}

#[test]
fn whitespace_is_what_unicode_calls_white_space() {
    for code in 0..=0x10ffff_u32 {
        if let Some(c) = char::from_u32(code) {
            let follows = parse_email(&format!("author-mail{}x", c)) == Some("x".to_string());
            assert_eq!(follows, c.is_whitespace(), "U+{:04X}", code);
            let splits = parse_email(&format!("author-mail a{}x", c)) == Some("x".to_string());
            assert_eq!(splits, c.is_whitespace(), "U+{:04X}", code);
        }
    }
}
