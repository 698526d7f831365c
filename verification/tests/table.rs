use repoblame::stats::{FileType, NumberOfLines, RepoStats};
use repoblame::table::{calculate_percentage, file_type_summary, table_rows, TableDisplay, TableRow};

fn scenario() -> RepoStats {
    let mut stats = RepoStats::new();
    for _ in 0..5 {
        stats.increment_lines("alice@x", Some("rs"));
    }
    for _ in 0..3 {
        stats.increment_lines("bob@x", Some("go"));
    }
    for _ in 0..2 {
        stats.increment_lines("alice@x", Some("go"));
    }
    stats
}

#[test]
fn percentage_of_the_scenario() {
    assert_eq!(calculate_percentage(7, 10), 70);
    assert_eq!(calculate_percentage(3, 10), 30);
    assert_eq!(calculate_percentage(5, 7), 71);
    assert_eq!(calculate_percentage(2, 7), 29);
    assert_eq!(calculate_percentage(3, 3), 100);
}

#[test]
fn percentage_rounds_half_up() {
    assert_eq!(calculate_percentage(0, 1), 0);
    assert_eq!(calculate_percentage(1, 3), 33);
    assert_eq!(calculate_percentage(2, 3), 67);
    assert_eq!(calculate_percentage(1, 200), 1);
    assert_eq!(calculate_percentage(1, 201), 0);
    assert_eq!(calculate_percentage(1, 8), 13);
    assert_eq!(calculate_percentage(3, 8), 38);
    assert_eq!(calculate_percentage(199, 200), 100);
    assert_eq!(calculate_percentage(197, 200), 99);
    assert_eq!(calculate_percentage(u32::MAX, u32::MAX), 100);
    assert_eq!(calculate_percentage(u32::MAX - 1, u32::MAX), 100);
    assert_eq!(calculate_percentage(1, u32::MAX), 0);
}

#[test]
fn percentage_above_255_is_255() {
    assert_eq!(calculate_percentage(2, 1), 200);
    assert_eq!(calculate_percentage(51, 20), 255);
    assert_eq!(calculate_percentage(3, 1), 255);
    assert_eq!(calculate_percentage(u32::MAX, 1), 255);
}

#[test]
fn row_shows_lines_with_commas_and_percentage() {
    let row = TableRow::new(3, "alice@x", 1234567, 56, "rs: 1 (100%)");
    assert_eq!(row.number, 3);
    assert_eq!(row.author_email, "alice@x");
    assert_eq!(row.lines, "1,234,567 (56%)");
    assert_eq!(row.lines_by_file_type, "rs: 1 (100%)");
}

#[test]
fn commas_stand_before_each_group_of_three_digits() {
    assert_eq!(TableRow::new(1, "", 0, 0, "").lines, "0 (0%)");
    assert_eq!(TableRow::new(1, "", 999, 9, "").lines, "999 (9%)");
    assert_eq!(TableRow::new(1, "", 1000, 10, "").lines, "1,000 (10%)");
    assert_eq!(TableRow::new(1, "", 100200, 100, "").lines, "100,200 (100%)");
    assert_eq!(TableRow::new(1, "", 1000000, 255, "").lines, "1,000,000 (255%)");
    assert_eq!(TableRow::new(1, "", u32::MAX, 1, "").lines, "4,294,967,295 (1%)");
}

#[test]
fn summary_lists_the_first_five_file_types() {
    let names: Vec<FileType> =
        ["rs", "go", "md", "toml", "c", "h"].iter().map(|name| FileType(name.to_string())).collect();
    let counts: Vec<NumberOfLines> =
        [1500, 300, 100, 60, 30, 10].iter().map(|count| NumberOfLines(*count)).collect();
    let listed: Vec<(&FileType, &NumberOfLines)> = names.iter().zip(counts.iter()).collect();
    assert_eq!(
        file_type_summary(&listed, 2000),
        "rs: 1,500 (75%)\ngo: 300 (15%)\nmd: 100 (5%)\ntoml: 60 (3%)\nc: 30 (2%)"
    );
    assert_eq!(file_type_summary(&listed[..2].to_vec(), 1800), "rs: 1,500 (83%)\ngo: 300 (17%)");
    assert_eq!(file_type_summary(&listed[..1].to_vec(), 1500), "rs: 1,500 (100%)");
    assert_eq!(file_type_summary(&Vec::new(), 0), "");
    assert_eq!(file_type_summary(&listed[..1].to_vec(), 0), "rs: 1,500 (0%)");
}

#[test]
fn rows_of_the_scenario() {
    let stats = scenario();
    let ranked = stats.sorted_authors();
    let by_author = stats.sorted_file_types_by_author();
    let rows = table_rows(&stats, &ranked, &by_author);
    assert_eq!(rows.len(), 2);
    assert_eq!(rows[0].number, 1);
    assert_eq!(rows[0].author_email, "alice@x");
    assert_eq!(rows[0].lines, "7 (70%)");
    assert_eq!(rows[0].lines_by_file_type, "rs: 5 (71%)\ngo: 2 (29%)");
    assert_eq!(rows[1].number, 2);
    assert_eq!(rows[1].author_email, "bob@x");
    assert_eq!(rows[1].lines, "3 (30%)");
    assert_eq!(rows[1].lines_by_file_type, "go: 3 (100%)");
}

#[test]
fn rows_of_an_empty_repository() {
    let stats = RepoStats::new();
    let rows = table_rows(&stats, &stats.sorted_authors(), &stats.sorted_file_types_by_author());
    assert!(rows.is_empty());
}

#[test]
fn rows_look_the_author_up_in_the_listing() {
    let stats = scenario();
    let ranked = stats.sorted_authors();
    let mut by_author = stats.sorted_file_types_by_author();
    by_author.reverse();
    let rows = table_rows(&stats, &ranked, &by_author);
    assert_eq!(rows[0].lines_by_file_type, "rs: 5 (71%)\ngo: 2 (29%)");
    assert_eq!(rows[1].lines_by_file_type, "go: 3 (100%)");
}

#[test]
fn report_of_the_scenario() {
    let stats = scenario();
    let display = TableDisplay::new(
        "/home/alice/repo",
        &stats,
        &stats.sorted_authors(),
        &stats.sorted_file_types_by_author(),
    );
    let text = display.to_text();
    assert_eq!(text, display.table);
    assert!(text.contains("Repository path: /home/alice/repo"));
    assert!(text.contains("Total number of lines blamed: 10"));
    assert!(text.contains("Author email"));
    assert!(text.contains("alice@x"));
    assert!(text.contains("7 (70%)"));
    assert!(text.contains("rs: 5 (71%)"));
    assert!(text.contains("go: 3 (100%)"));
    let expected = [
        "┌───────────────────┬───────────────────┬────────────────────────────────┬─────────────────────────┐",
        "│ Repository path: /home/alice/repo                                                                │",
        "├───────────────────┼───────────────────┼────────────────────────────────┼─────────────────────────┤",
        "│ #                 │ Author email      │ Total LoC (Percentage of repo) │ Top 5 file types by LoC │",
        "├───────────────────┼───────────────────┼────────────────────────────────┼─────────────────────────┤",
        "│ 1                 │ alice@x           │ 7 (70%)                        │ rs: 5 (71%)             │",
        "│                   │                   │                                │ go: 2 (29%)             │",
        "├───────────────────┼───────────────────┼────────────────────────────────┼─────────────────────────┤",
        "│ 2                 │ bob@x             │ 3 (30%)                        │ go: 3 (100%)            │",
        "├───────────────────┼───────────────────┼────────────────────────────────┼─────────────────────────┤",
        "│ Total number of lines blamed: 10                                                                 │",
        "└───────────────────┴───────────────────┴────────────────────────────────┴─────────────────────────┘",
    ];
    assert_eq!(text, expected.join("\n"));
}

#[test]
fn report_of_an_empty_repository() {
    let stats = RepoStats::new();
    let display = TableDisplay::new(
        "/tmp/empty",
        &stats,
        &stats.sorted_authors(),
        &stats.sorted_file_types_by_author(),
    );
    let text = display.to_text();
    let lines: Vec<&str> = text.lines().collect();
    assert_eq!(lines.len(), 7);
    assert!(lines[1].starts_with("│ Repository path: /tmp/empty "));
    assert!(lines[3].contains("│ Author email"));
    assert!(lines[5].starts_with("│ Total number of lines blamed: 0 "));
    for line in lines {
        assert_eq!(line.chars().count(), 100);
    }
}

#[test]
fn report_is_wrapped_to_its_width() {
    let mut stats = RepoStats::new();
    let email = "a-very-long-name-of-an-author-who-writes-a-lot@a-very-long-domain-name.example.org";
    for extension in ["rs", "go", "md", "toml", "c", "h", "py"] {
        stats.increment_lines(email, Some(extension));
    }
    let display = TableDisplay::new(
        "/home/alice/repo",
        &stats,
        &stats.sorted_authors(),
        &stats.sorted_file_types_by_author(),
    );
    let text = display.to_text();
    for line in text.lines() {
        assert_eq!(line.chars().count(), 100);
    }
    assert!(text.contains("c: 1 (14%)"));
    assert!(text.contains("py: 1 (14%)"));
    assert!(!text.contains("rs: 1"));
    assert!(!text.contains("toml: 1"));
}
