use lanparse::lan::dictionary::load_dictionary;
use lanparse::lan::lanparser::ParamedPart;
use lanparse::lan::parse::fit_rules::{fit_rules, parsingrule_tostr};
use lanparse::lan::parse::{parse, ParseCache};
use lanparse::lan::{LanError, Parser};
use lanparse::lanparser::{parse as read_grammar, parse_rules};

const DICT: &str = "PART det\nthe\na\nPART noun\ndog\ncat\nPART verb\nruns\nsees\n";
const GRAMMAR: &str = "PART main\nRULE s $NP *verb\nEND\nPART NP\nRULE np ?*det *noun\nEND\n";

fn char_vec(s: &str) -> Vec<char> {
    s.chars().collect()
}

fn grammar_lines(src: &str) -> Vec<&str> {
    src.lines().map(|l| l.trim()).filter(|l| !l.is_empty()).collect()
}

#[test]
fn rule_text_concatenates_node_texts() {
    let nodes = parse_rules(&["*det", "?$NP", "x-y"]).unwrap();
    assert_eq!(parsingrule_tostr(&nodes), "*det[]$NPx-y");
    assert_eq!(parsingrule_tostr(&[]), "");
}

#[test]
fn fit_rules_matches_a_rule() {
    let dict = load_dictionary(DICT);
    let rules = read_grammar(&grammar_lines(GRAMMAR)).unwrap();
    let nodes = parse_rules(&["*det", "*noun"]).unwrap();
    let s = char_vec("the dog runs");
    let mut cache = ParseCache::new(&s);
    let (t, n) = fit_rules(&s, "r", &nodes, &rules, &dict, &Vec::new(), &mut cache, 8).unwrap();
    assert_eq!(n, 7);
    assert_eq!(t.collect_verbose(" "), "r[ the dog ]");
    let (t2, n2) = fit_rules(&s, "r", &nodes, &rules, &dict, &Vec::new(), &mut cache, 8).unwrap();
    assert_eq!((t2.collect_verbose(" "), n2), (String::from("r[ the dog ]"), 7));
    let nodes2 = parse_rules(&["*noun"]).unwrap();
    assert!(fit_rules(&s, "r", &nodes2, &rules, &dict, &Vec::new(), &mut cache, 8).is_none());
}

#[test]
fn part_references_need_depth() {
    let dict = load_dictionary(DICT);
    let rules = read_grammar(&grammar_lines(GRAMMAR)).unwrap();
    let nodes = parse_rules(&["$NP", "*verb"]).unwrap();
    let s = char_vec("a cat sees");
    let mut cache = ParseCache::new(&s);
    assert!(fit_rules(&s, "r", &nodes, &rules, &dict, &Vec::new(), &mut cache, 0).is_none());
    let mut fresh = ParseCache::new(&s);
    let (t, n) = fit_rules(&s, "r", &nodes, &rules, &dict, &Vec::new(), &mut fresh, 3).unwrap();
    assert_eq!(n, 10);
    assert_eq!(t.collect_verbose(" "), "r[ np[ a cat ] sees ]");
}

#[test]
fn parse_takes_the_best_rule_of_a_part() {
    let dict = load_dictionary(DICT);
    let rules = read_grammar(&grammar_lines(GRAMMAR)).unwrap();
    let r = ParamedPart { name: String::from("NP"), args: Vec::new() };
    let s = char_vec("the cat sees");
    let mut cache = ParseCache::new(&s);
    let (t, n) = parse(&s, r.build(&rules), &rules, &dict, &mut cache, 4).unwrap();
    assert_eq!(n, 7);
    assert_eq!(t.collect(" "), "the cat");
    let rest = &s[7..];
    assert!(parse(rest, r.build(&rules), &rules, &dict, &mut cache, 4).is_none());
}

#[test]
fn a_rule_that_reads_nothing_fails() {
    let dict = load_dictionary(DICT);
    let rules = read_grammar(&grammar_lines("PART main\nRULE e ?*det\nEND\n")).unwrap();
    let r = ParamedPart { name: String::from("main"), args: Vec::new() };
    let s = char_vec("dog");
    let mut cache = ParseCache::new(&s);
    assert!(parse(&s, r.build(&rules), &rules, &dict, &mut cache, 4).is_none());
}

#[test]
fn trailing_blanks_are_not_read() {
    let p = Parser::open("PART main\nRULE s *noun *verb ?*det\nEND\n", DICT).unwrap();
    let r = p.with_parser(|rp| {
        let res = rp.parse("dog runs  ").ok()?;
        assert_eq!(res.length, 8);
        Some(())
    });
    assert!(r.is_ok());
}

#[test]
fn missing_category_makes_the_rule_fail() {
    let p = Parser::open("PART main\nRULE s *adj *noun\nRULE t *noun\nEND\n", DICT).unwrap();
    let r = p.with_parser(|rp| {
        let res = rp.parse("dog").ok()?;
        assert_eq!(res.tree.collect_verbose(" "), "t[ dog ]");
        Some(())
    });
    assert!(r.is_ok());
}

#[test]
fn missing_part_makes_the_rule_fail() {
    let p = Parser::open("PART main\nRULE s $Nowhere\nEND\n", DICT).unwrap();
    let r = p.with_parser(|rp| {
        assert!(matches!(rp.parse("dog"), Err(LanError::ParsingError)));
        Some(())
    });
    assert!(r.is_ok());
}

#[test]
fn left_recursion_stops() {
    let p = Parser::open("PART main\nRULE s $main *noun\nRULE t *noun\nEND\n", DICT).unwrap();
    let r = p.with_parser(|rp| {
        let res = rp.parse("dog cat").ok()?;
        assert!(res.length == 3 || res.length == 7);
        Some(())
    });
    assert!(r.is_ok());
}

#[test]
fn the_longer_alternative_wins_over_skipping_an_optional_node() {
    let dict = load_dictionary("");
    let rules = read_grammar(&Vec::<&str>::new()).unwrap();
    let nodes = parse_rules(&["a-A", "?b-B"]).unwrap();
    let s = char_vec("ab");
    let mut cache = ParseCache::new(&s);
    let (t, n) = fit_rules(&s, "x", &nodes, &rules, &dict, &Vec::new(), &mut cache, 8).unwrap();
    assert_eq!(n, 2);
    assert_eq!(t.collect_verbose(" "), "x[ a b ]");
}

#[test]
fn the_longest_matching_word_is_taken() {
    let dict = load_dictionary("PART n\na\nab\n");
    let rules = read_grammar(&Vec::<&str>::new()).unwrap();
    let nodes = parse_rules(&["*n"]).unwrap();
    let s = char_vec("abc");
    let mut cache = ParseCache::new(&s);
    let (t, n) = fit_rules(&s, "x", &nodes, &rules, &dict, &Vec::new(), &mut cache, 8).unwrap();
    assert_eq!(n, 2);
    assert_eq!(t.collect_verbose(" "), "x[ ab ]");
}

#[test]
fn parse_keeps_the_rule_that_reads_furthest() {
    let dict = load_dictionary(DICT);
    let rules = read_grammar(&grammar_lines(
        "PART main\nRULE short *det\nRULE long *det *noun\nRULE same *det *noun\nEND\n",
    ))
    .unwrap();
    let r = ParamedPart { name: String::from("main"), args: Vec::new() };
    let s = char_vec("the dog");
    let mut cache = ParseCache::new(&s);
    let (t, n) = parse(&s, r.build(&rules), &rules, &dict, &mut cache, 4).unwrap();
    assert_eq!(n, 7);
    assert_eq!(t.collect_verbose(" "), "long[ the dog ]");
}
