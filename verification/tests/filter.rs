use repoblame::filter::{is_binary, is_excluded};

fn none() -> Vec<String> {
    Vec::new()
}

#[test]
fn text_is_not_excluded() {
    assert!(!is_excluded(true, Some(b"fn main() {}\n"), &none(), Some("rs")));
    assert!(!is_excluded(true, Some(b""), &none(), None));
}

#[test]
fn zero_byte_makes_content_binary() {
    assert!(is_excluded(true, Some(b"\x7fELF\x00\x01"), &none(), None));
    assert!(is_excluded(true, Some(b"abc\x00"), &none(), Some("bin")));
}

#[test]
fn zero_byte_counts_among_the_first_1024_only() {
    let mut content = vec![b'a'; 1024];
    content.push(0);
    assert!(!is_excluded(true, Some(&content), &none(), None));
    content[1023] = 0;
    assert!(is_excluded(true, Some(&content), &none(), None));
}

#[test]
fn pdf_and_png_are_binary() {
    assert!(is_excluded(true, Some(b"%PDF-1.7\n"), &none(), Some("pdf")));
    assert!(is_excluded(true, Some(b"\x89PNG\r\n"), &none(), Some("png")));
    assert!(!is_excluded(true, Some(b"%PD"), &none(), Some("pdf")));
}

#[test]
fn byte_order_mark_makes_content_text() {
    assert!(!is_excluded(true, Some(b"\xef\xbb\xbfa\x00b"), &none(), None));
    assert!(!is_excluded(true, Some(b"\xff\xfea\x00b\x00"), &none(), None));
    assert!(!is_excluded(true, Some(b"\xfe\xff\x00a\x00b"), &none(), None));
    assert!(!is_excluded(true, Some(b"\xff\xfe\x00\x00a\x00\x00\x00"), &none(), None));
    assert!(!is_excluded(true, Some(b"\x00\x00\xfe\xff\x00\x00\x00a"), &none(), None));
}

#[test]
fn binary_files_stay_when_not_excluded() {
    assert!(!is_excluded(false, Some(b"abc\x00"), &none(), Some("bin")));
}

#[test]
fn unread_file_is_not_excluded_as_binary() {
    assert!(!is_excluded(true, None, &none(), Some("bin")));
}

#[test]
fn listed_extension_is_excluded() {
    let listed = vec!["md".to_string(), "txt".to_string()];
    assert!(is_excluded(false, None, &listed, Some("md")));
    assert!(is_excluded(true, Some(b"text"), &listed, Some("txt")));
    assert!(!is_excluded(false, None, &listed, Some("rs")));
    assert!(!is_excluded(false, None, &listed, Some("MD")));
    assert!(!is_excluded(false, None, &listed, None));
}

#[test]
fn file_without_extension_is_looked_up_as_empty() {
    let listed = vec!["md".to_string(), String::new()];
    assert!(is_excluded(false, None, &listed, None));
    assert!(is_excluded(false, None, &listed, Some("")));
}

#[test]
fn is_binary_on_given_content() {
    assert!(!is_binary(b""));
    assert!(!is_binary(b"plain text"));
    assert!(is_binary(b"\x00"));
    assert!(is_binary(b"%PDF"));
    assert!(is_binary(b"\x89PNG"));
    assert!(!is_binary(b"\x89PN"));
    assert!(!is_binary(b"\xef\xbb\xbf%PDF\x00"));
    assert!(!is_binary(b"\xfe\xff\x00"));
    assert!(is_binary(b"\xfe\x00"));
    assert!(is_binary(b"\xef\xbb\x00"));
}

#[test]
fn is_binary_agrees_with_content_inspector() {
    let prefixes: [&[u8]; 12] = [
        b"",
        b"\xef\xbb\xbf",
        b"\xef\xbb",
        b"\x00\x00\xfe\xff",
        b"\x00\x00\xfe",
        b"\xff\xfe\x00\x00",
        b"\xfe\xff",
        b"\xff\xfe",
        b"\xff",
        b"%PDF",
        b"\x89PNG",
        b"%PD",
    ];
    let mut seed: u32 = 12345;
    let mut compared = 0;
    for prefix in prefixes {
        for length in [0usize, 1, 2, 3, 5, 100, 1020, 1021, 1023, 1024, 1025, 1030, 3000] {
            for zero_at in [None, Some(0usize), Some(1), Some(4), Some(1019), Some(1023), Some(1024), Some(2000)] {
                let mut content = prefix.to_vec();
                for _ in 0..length {
                    seed = seed.wrapping_mul(1664525).wrapping_add(1013904223);
                    content.push(1 + ((seed >> 24) % 255) as u8);
                }
                if let Some(at) = zero_at {
                    if at < content.len() {
                        content[at] = 0;
                    }
                }
                assert_eq!(
                    is_binary(&content),
                    content_inspector::inspect(&content).is_binary(),
                    "{:?}",
                    &content[..content.len().min(8)]
                );
                compared += 1;
            }
        }
    }
    assert_eq!(compared, 12 * 13 * 8);
}
