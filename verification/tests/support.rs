use lanparse::table::Table;
use lanparse::text::{
    chars_eq, chars_of, find_char, is_whitespace, push_all, push_decimal, push_joined, push_str,
    slice_vec, split_char, split_once_char, split_whitespace, starts_with, to_usize, to_vec,
    trim_chars,
};

fn cs(s: &str) -> Vec<char> {
    s.chars().collect()
}

fn st(v: &[char]) -> String {
    v.iter().collect()
}

#[test]
fn table_insert_get_and_replace() {
    let mut t: Table<Vec<u8>> = Table::new();
    assert!(t.get("a").is_none());
    t.insert(String::from("a"), vec![1]);
    t.insert(String::from("b"), vec![2]);
    assert_eq!(t.get("a"), Some(&vec![1]));
    t.insert(String::from("a"), vec![3]);
    assert_eq!(t.get("a"), Some(&vec![3]));
    assert_eq!(t.entries.len(), 2);
    assert_eq!(t.position("b"), Some(1));
    assert_eq!(t.position("c"), None);
}

#[test]
fn table_push_into_appends() {
    let mut t: Table<Vec<u8>> = Table::new();
    t.insert(String::from("k"), Vec::new());
    t.push_into("k", 4);
    t.push_into("k", 5);
    assert_eq!(t.get("k"), Some(&vec![4, 5]));
}

#[test]
fn whitespace_and_trimming() {
    assert!(is_whitespace(' ') && is_whitespace('\t') && is_whitespace('\n') && is_whitespace('\u{3000}'));
    assert!(!is_whitespace('a'));
    assert_eq!(st(&trim_chars(&cs("  a b \t"))), "a b");
    assert_eq!(st(&trim_chars(&cs("   "))), "");
    let ws: Vec<String> = split_whitespace(&cs("  a  bc\td ")).iter().map(|w| st(w)).collect();
    assert_eq!(ws, vec!["a", "bc", "d"]);
    assert!(split_whitespace(&cs(" \n ")).is_empty());
}

#[test]
fn splitting() {
    let parts: Vec<String> = split_char(&cs("a,,b,"), ',').iter().map(|w| st(w)).collect();
    assert_eq!(parts, vec!["a", "", "b", ""]);
    let one: Vec<String> = split_char(&cs(""), ',').iter().map(|w| st(w)).collect();
    assert_eq!(one, vec![""]);
    let (a, b) = split_once_char(&cs("k=v=w"), '=').unwrap();
    assert_eq!((st(&a), st(&b)), (String::from("k"), String::from("v=w")));
    assert!(split_once_char(&cs("kv"), '=').is_none());
    assert_eq!(find_char(&cs("abcb"), 'b'), Some(1));
    assert_eq!(find_char(&cs("abc"), 'z'), None);
}

#[test]
fn numbers() {
    assert_eq!(to_usize(&cs("0")), Some(0));
    assert_eq!(to_usize(&cs("042")), Some(42));
    assert_eq!(to_usize(&cs("+7")), Some(7));
    assert_eq!(to_usize(&cs("")), None);
    assert_eq!(to_usize(&cs("-1")), None);
    assert_eq!(to_usize(&cs("1a")), None);
    assert_eq!(to_usize(&cs("99999999999999999999999")), None);
    let mut out = Vec::new();
    push_decimal(&mut out, 0);
    push_decimal(&mut out, 305);
    assert_eq!(st(&out), "0305");
}

#[test]
fn comparing_and_copying() {
    assert!(starts_with(&cs("PART x"), &cs("PART")));
    assert!(!starts_with(&cs("PAR"), &cs("PART")));
    assert!(chars_eq(&cs("ab"), &cs("ab")));
    assert!(!chars_eq(&cs("ab"), &cs("abc")));
    assert_eq!(st(&slice_vec(&cs("hello"), 1, 3)), "el");
    assert_eq!(to_vec(&cs("xy")), cs("xy"));
    assert_eq!(chars_of("한글"), vec!['한', '글']);
}

#[test]
fn pushing() {
    let mut out = cs("a");
    push_str(&mut out, "bc");
    push_all(&mut out, &cs("d"));
    assert_eq!(st(&out), "abcd");
    let items = vec![cs("x"), cs("y"), cs("z")];
    let mut j = Vec::new();
    push_joined(&mut j, &items, ", ");
    assert_eq!(st(&j), "x, y, z");
    let mut e = Vec::new();
    push_joined(&mut e, &Vec::new(), ", ");
    assert!(e.is_empty());
}
