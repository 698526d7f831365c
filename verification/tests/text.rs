use repoblame::ranking::{rank_order, text_before};
use repoblame::text::{chars_of, decimal_text, grouped_text};
use thousands::Separable;

fn chars(text: &str) -> Vec<char> {
    text.chars().collect()
}

#[test]
fn chars_of_gives_each_character() {
    assert_eq!(chars_of(""), Vec::<char>::new());
    assert_eq!(chars_of("a@b"), vec!['a', '@', 'b']);
    assert_eq!(chars_of("gr\u{fc}n"), vec!['g', 'r', '\u{fc}', 'n']);
}

#[test]
fn decimal_text_has_no_leading_zeros() {
    assert_eq!(decimal_text(0), "0");
    assert_eq!(decimal_text(7), "7");
    assert_eq!(decimal_text(10), "10");
    assert_eq!(decimal_text(100), "100");
    assert_eq!(decimal_text(1234567890), "1234567890");
    assert_eq!(decimal_text(u32::MAX), "4294967295");
}

#[test]
fn text_before_is_lexicographic() {
    assert!(text_before(&chars(""), &chars("a")));
    assert!(!text_before(&chars("a"), &chars("")));
    assert!(!text_before(&chars(""), &chars("")));
    assert!(!text_before(&chars("abc"), &chars("abc")));
    assert!(text_before(&chars("ab"), &chars("abc")));
    assert!(!text_before(&chars("abc"), &chars("ab")));
    assert!(text_before(&chars("abc"), &chars("abd")));
    assert!(text_before(&chars("Z"), &chars("a")));
    assert!(text_before(&chars("z"), &chars("\u{e4}")));
    assert!(!text_before(&chars("b"), &chars("abc")));
}

#[test]
fn rank_order_puts_high_counts_first_and_breaks_ties_by_name() {
    let counts = vec![1, 5, 3, 5, 1];
    let names = vec![chars("e"), chars("d"), chars("c"), chars("b"), chars("a")];
    assert_eq!(rank_order(&counts, &names), vec![3, 1, 2, 4, 0]);
    assert_eq!(rank_order(&Vec::new(), &Vec::new()), Vec::<usize>::new());
}

#[test]
fn grouped_text_puts_commas_before_groups_of_three() {
    assert_eq!(grouped_text(0), "0");
    assert_eq!(grouped_text(12), "12");
    assert_eq!(grouped_text(999), "999");
    assert_eq!(grouped_text(1000), "1,000");
    assert_eq!(grouped_text(1001), "1,001");
    assert_eq!(grouped_text(12345), "12,345");
    assert_eq!(grouped_text(100000), "100,000");
    assert_eq!(grouped_text(1020300), "1,020,300");
    assert_eq!(grouped_text(u32::MAX), "4,294,967,295");
}

#[test]
fn grouped_text_agrees_with_thousands() {
    let mut values: Vec<u32> = (0..20000).collect();
    let mut power: u32 = 1;
    for _ in 0..9 {
        power *= 10;
        values.extend([power - 1, power, power + 1, power * 4 + 7]);
    }
    let mut seed: u32 = 2024;
    for _ in 0..20000 {
        seed = seed.wrapping_mul(1664525).wrapping_add(1013904223);
        values.push(seed);
    }
    values.push(u32::MAX);
    for value in values {
        assert_eq!(grouped_text(value), value.separate_with_commas());
        assert_eq!(decimal_text(value), value.to_string());
    }
}
