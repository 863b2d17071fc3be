use lanparse::lan::dictionary::{
    add_dictionaryrc, content_lines_of, dictionary_fits, dictrc_to_dict, load_dictionary,
    load_dictionaryrc, search_dict, try_search_dict, Dictionary, DictionaryRc, Voca, VocaRc,
};
use lanparse::lan::lanparser::{ShortWordPart, TemplateNode};
use lanparse::lan::parse::fit_rules::Expectation;
use lanparse::lan::parse::syntree::SyntaxTreeNode;
use lanparse::table::Table;

const DICT: &str = "
# nouns
PART noun
Dog 3sg
dogs 3pl
Big_Cat 3sg animal

PART verb
runs 3sg
run 3pl
";

fn texts(d: &Dictionary, cat: &str) -> Vec<String> {
    d.get(cat).unwrap().iter().map(|v| v.text.iter().collect()).collect()
}

#[test]
fn voca_from_reads_word_and_attributes() {
    let v = Voca::from("Big_Cat 3sg  animal");
    assert_eq!(v.text, vec!['b', 'i', 'g', ' ', 'c', 'a', 't']);
    assert_eq!(v.argv, vec![String::from("3sg"), String::from("animal")]);
    let w = Voca::from("  a ");
    assert_eq!(w.text, vec!['a']);
    assert!(w.argv.is_empty());
    let r = VocaRc::from("Run 3pl");
    assert_eq!(r.text, vec!['r', 'u', 'n']);
    assert_eq!(r.argv.len(), 1);
    assert_eq!(r.argv[0].as_str(), "3pl");
}

#[test]
fn load_dictionary_groups_words_by_category() {
    let d = load_dictionary(DICT);
    assert_eq!(d.entries.len(), 2);
    assert_eq!(texts(&d, "noun"), vec!["dog", "dogs", "big cat"]);
    assert_eq!(texts(&d, "verb"), vec!["runs", "run"]);
    assert_eq!(d.get("noun").unwrap()[2].argv, vec![String::from("3sg"), String::from("animal")]);
    assert!(d.get("adj").is_none());
}

#[test]
fn a_repeated_category_starts_over() {
    let d = load_dictionary("PART a\nx\nPART b\ny\nPART a\nz\n");
    assert_eq!(texts(&d, "a"), vec!["z"]);
    assert_eq!(texts(&d, "b"), vec!["y"]);
}

#[test]
fn empty_dictionary_text() {
    let d = load_dictionary("\n# nothing\n   \n");
    assert!(d.entries.is_empty());
}

#[test]
fn shared_dictionary_converts_to_the_same_words() {
    let rc: DictionaryRc = load_dictionaryrc(DICT);
    let d = dictrc_to_dict(&rc);
    let plain = load_dictionary(DICT);
    for cat in ["noun", "verb"] {
        assert_eq!(texts(&d, cat), texts(&plain, cat));
        let a: Vec<Vec<String>> = d.get(cat).unwrap().iter().map(|v| v.argv.clone()).collect();
        let b: Vec<Vec<String>> = plain.get(cat).unwrap().iter().map(|v| v.argv.clone()).collect();
        assert_eq!(a, b);
    }
}

#[test]
fn adding_a_dictionary_keeps_other_categories() {
    let mut rc = load_dictionaryrc(DICT);
    add_dictionaryrc(&mut rc, "PART adj\nbig\nPART verb\nsleeps\n");
    let d = dictrc_to_dict(&rc);
    assert_eq!(texts(&d, "noun"), vec!["dog", "dogs", "big cat"]);
    assert_eq!(texts(&d, "verb"), vec!["sleeps"]);
    assert_eq!(texts(&d, "adj"), vec!["big"]);
}

#[test]
fn words_before_a_category_go_to_the_unnamed_one() {
    let mut rc = load_dictionaryrc("PARTx\nx\n");
    assert!(dictionary_fits(&rc, "y\n"));
    add_dictionaryrc(&mut rc, "y\n");
    let d = dictrc_to_dict(&rc);
    assert_eq!(texts(&d, ""), vec!["x", "y"]);
}

#[test]
fn dictionary_fits_checks_categories() {
    let empty: Table<Vec<VocaRc>> = Table::new();
    assert!(dictionary_fits(&empty, DICT));
    assert!(dictionary_fits(&empty, ""));
    assert!(!dictionary_fits(&empty, "word\n"));
    assert!(!dictionary_fits(&empty, "PART\n"));
    assert!(!dictionary_fits(&empty, "PARTé\n"));
    let rc = load_dictionaryrc(DICT);
    assert!(dictionary_fits(&rc, "PART x\nfoo\n"));
}

#[test]
fn content_lines_are_trimmed_and_filtered() {
    let ls = content_lines_of("  a b \n#c\n\n d\r\n");
    let ls: Vec<String> = ls.iter().map(|l| l.iter().collect()).collect();
    assert_eq!(ls, vec!["a b", "d"]);
}

fn chars(s: &str) -> Vec<char> {
    s.chars().collect()
}

#[test]
fn search_finds_words_at_the_position() {
    let d = load_dictionary(DICT);
    let rule: Vec<TemplateNode> = Vec::new();
    let e = Expectation::from("s", &rule, SyntaxTreeNode::new_category("s"), 0);
    let s = chars("xx dogs run");
    let p = ShortWordPart::from("noun");
    let found = search_dict(&d, &p, &s, 3, &e, &Vec::new());
    let t: Vec<String> = found.iter().map(|v| v.text.iter().collect()).collect();
    assert_eq!(t, vec!["dog", "dogs"]);
    let none = search_dict(&d, &p, &s, 0, &e, &Vec::new());
    assert!(none.is_empty());
    let at_end = search_dict(&d, &p, &s, s.len(), &e, &Vec::new());
    assert!(at_end.is_empty());
}

#[test]
fn search_applies_conditions() {
    let d = load_dictionary(DICT);
    let rule: Vec<TemplateNode> = Vec::new();
    let attrs = vec![String::from("3pl")];
    let mut e = Expectation::from("s", &rule, SyntaxTreeNode::new_category("s"), 0);
    let s = chars("dogs run");
    let pl = ShortWordPart::from_conditional("noun", "#0=3pl");
    let found = search_dict(&d, &pl, &s, 0, &e, &Vec::new());
    assert_eq!(found.len(), 1);
    assert_eq!(found[0].text, chars("dogs"));
    let not_pl = ShortWordPart::from_conditional("noun", "#0!=3pl");
    let found2 = search_dict(&d, &not_pl, &s, 0, &e, &Vec::new());
    assert_eq!(found2.len(), 1);
    assert_eq!(found2[0].text, chars("dog"));
    let by_param = ShortWordPart::from_conditional("verb", "#0=:1");
    let args = vec![String::from("x"), String::from("3pl")];
    let found3 = search_dict(&d, &by_param, &s, 5, &e, &args);
    assert_eq!(found3.len(), 1);
    assert_eq!(found3[0].text, chars("run"));
    let missing_param = ShortWordPart::from_conditional("verb", "#1=:4");
    let found4 = search_dict(&d, &missing_param, &s, 5, &e, &args);
    assert_eq!(found4.len(), 1);
    e.register_attr(&attrs);
    let agree = ShortWordPart::from_conditional("verb", "#0=@0:0");
    let found5 = search_dict(&d, &agree, &s, 5, &e, &Vec::new());
    assert_eq!(found5.len(), 1);
    assert_eq!(found5[0].text, chars("run"));
}

#[test]
fn try_search_reports_what_cannot_be_searched() {
    let d = load_dictionary(DICT);
    let s = chars("dogs");
    assert!(try_search_dict(&d, &ShortWordPart::from("adj"), &s, 0, &Vec::new(), &Vec::new()).is_none());
    let agree = ShortWordPart::from_conditional("noun", "#0=@2:0");
    assert!(try_search_dict(&d, &agree, &s, 0, &Vec::new(), &Vec::new()).is_none());
    let found = try_search_dict(&d, &ShortWordPart::from("noun"), &s, 0, &Vec::new(), &Vec::new()).unwrap();
    assert_eq!(found.len(), 2);
}
