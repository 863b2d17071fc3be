use lanparse::lan::{LanError, Parser, ParseResult};

const GRAMMAR: &str = "
# a small English grammar
PART main
    RULE sentence $NP $VP
END

PART NP
    RULE np ?*det *noun
END

PART VP
    RULE vp *verb ?$NP
END
";

const DICT: &str = "
# words
PART det
the
a
PART noun
dog
cat
PART verb
sees
runs
";

fn parse_one(grammar: &str, dict: &str, text: &str) -> Result<(String, usize), String> {
    let p = Parser::open(grammar, dict).unwrap();
    let text = text.to_string();
    let out = std::cell::RefCell::new(Err(String::from("block not run")));
    let r = p.with_parser(|rp| {
        assert!(rp.can_build_main());
        let res: Result<ParseResult, LanError<()>> = rp.parse(&text);
        *out.borrow_mut() = match res {
            Ok(res) => Ok((res.tree.collect_verbose(" "), res.length)),
            Err(LanError::ParsingError) => Err(String::from("ParsingError")),
            Err(LanError::NoMainError) => Err(String::from("NoMainError")),
            Err(_) => Err(String::from("other")),
        };
        Some(())
    });
    assert!(r.is_ok());
    out.into_inner()
}

#[test]
fn parses_a_full_sentence() {
    let (tree, len) = parse_one(GRAMMAR, DICT, "the dog sees a cat").unwrap();
    assert_eq!(tree, "sentence[ np[ the dog ] vp[ sees np[ a cat ] ] ]");
    assert_eq!(len, 18);
}

#[test]
fn optional_nodes_may_be_left_out() {
    let (tree, len) = parse_one(GRAMMAR, DICT, "dog runs").unwrap();
    assert_eq!(tree, "sentence[ np[ dog ] vp[ runs ] ]");
    assert_eq!(len, 8);
}

#[test]
fn reads_as_far_as_the_grammar_allows() {
    let (tree, len) = parse_one(GRAMMAR, DICT, "the dog runs fast").unwrap();
    assert_eq!(tree, "sentence[ np[ the dog ] vp[ runs ] ]");
    assert_eq!(len, 12);
}

#[test]
fn sentence_is_read_in_lowercase_with_underscores_as_spaces() {
    let (tree, len) = parse_one(GRAMMAR, DICT, "The_Dog RUNS").unwrap();
    assert_eq!(tree, "sentence[ np[ the dog ] vp[ runs ] ]");
    assert_eq!(len, 12);
}

#[test]
fn leading_blanks_are_skipped_and_counted() {
    let (tree, len) = parse_one(GRAMMAR, DICT, "  the dog runs").unwrap();
    assert_eq!(tree, "sentence[ np[ the dog ] vp[ runs ] ]");
    assert_eq!(len, 14);
}

#[test]
fn unparsable_sentence_is_a_parsing_error() {
    assert_eq!(parse_one(GRAMMAR, DICT, "runs the dog"), Err(String::from("ParsingError")));
    assert_eq!(parse_one(GRAMMAR, DICT, ""), Err(String::from("ParsingError")));
}

#[test]
fn grammar_without_main_is_no_main_error() {
    let g = "PART NP\n RULE np *noun\nEND\n";
    assert_eq!(parse_one(g, DICT, "dog"), Err(String::from("NoMainError")));
}

#[test]
fn literal_nodes_match_their_text() {
    let g = "PART main\n RULE greet hello-hi $NP\nEND\nPART NP\n RULE np ?*det *noun\nEND\n";
    let (tree, len) = parse_one(g, DICT, "Hello the cat").unwrap();
    assert_eq!(tree, "greet[ hello np[ the cat ] ]");
    assert_eq!(len, 13);
}

#[test]
fn aliases_are_spliced_into_rules() {
    let g = "PART main\n SET dn *det *noun\n RULE s %dn *verb\nEND\n";
    let (tree, len) = parse_one(g, DICT, "a cat runs").unwrap();
    assert_eq!(tree, "s[ a cat runs ]");
    assert_eq!(len, 10);
}

#[test]
fn longest_rule_match_wins() {
    let g = "PART main\n RULE short *det\n RULE long *det *noun\nEND\n";
    let (tree, len) = parse_one(g, DICT, "the dog").unwrap();
    assert_eq!(tree, "long[ the dog ]");
    assert_eq!(len, 7);
}

#[test]
fn longest_dictionary_word_wins() {
    let d = "PART w\nab\nabc\na\n";
    let g = "PART main\n RULE s *w\nEND\n";
    let (tree, len) = parse_one(g, d, "abcd").unwrap();
    assert_eq!(tree, "s[ abc ]");
    assert_eq!(len, 3);
}

#[test]
fn parameters_select_conditional_blocks() {
    let g = "
PART main
    RULE s $N( pl ) *verb
END
PART N
    IF :0 pl
        RULE plural *noun[#0=pl]
    END
    UNLESS :0 pl
        RULE singular *noun[#0=sg]
    END
END
";
    let d = "PART noun\ndog sg\ndogs pl\nPART verb\nrun\n";
    let (tree, len) = parse_one(g, d, "dogs run").unwrap();
    assert_eq!(tree, "s[ plural[ dogs ] run ]");
    assert_eq!(len, 8);
    assert_eq!(parse_one(g, d, "dog run"), Err(String::from("ParsingError")));
}

#[test]
fn missing_parameters_read_as_zero() {
    let g = "
PART main
    RULE s $N
END
PART N
    IF 0 0
        RULE zero *noun
    END
END
";
    let (tree, _) = parse_one(g, DICT, "cat").unwrap();
    assert_eq!(tree, "s[ zero[ cat ] ]");
}

#[test]
fn conditional_nodes_follow_parameters() {
    let g = "
PART main
    RULE s $N( x )
END
PART N
    RULE n [:0=x]*det *noun
END
";
    let (tree, _) = parse_one(g, DICT, "the cat").unwrap();
    assert_eq!(tree, "s[ n[ the cat ] ]");
    let g2 = g.replace("$N( x )", "$N( y )");
    let (tree2, len2) = parse_one(&g2, DICT, "cat").unwrap();
    assert_eq!(tree2, "s[ n[ cat ] ]");
    assert_eq!(len2, 3);
}

#[test]
fn word_attributes_agree_across_a_rule() {
    let g = "
PART main
    RULE s *noun *verb[#0=@0:0]
END
";
    let d = "PART noun\ndog 3sg\ndogs 3pl\nPART verb\nruns 3sg\nrun 3pl\n";
    let (tree, _) = parse_one(g, d, "dogs run").unwrap();
    assert_eq!(tree, "s[ dogs run ]");
    let (tree2, len2) = parse_one(g, d, "dog runs").unwrap();
    assert_eq!(tree2, "s[ dog runs ]");
    assert_eq!(len2, 8);
    assert_eq!(parse_one(g, d, "dog run"), Err(String::from("ParsingError")));
}

#[test]
fn unreadable_grammar_is_a_syntax_error() {
    let p = Parser::open("END\n", DICT).unwrap();
    let r = p.with_parser(|_| Some(()));
    assert!(matches!(r, Err(LanError::LanSyntaxError)));
    let p2 = Parser::open("PART main\n RULE\nEND\n", DICT).unwrap();
    assert!(matches!(p2.with_parser(|_| Some(())), Err(LanError::LanSyntaxError)));
}

#[test]
fn no_dictionary_is_an_error() {
    let p = Parser::open_lan(GRAMMAR).unwrap();
    assert!(matches!(p.with_parser(|_| Some(())), Err(LanError::NoDictionaryError)));
    let q = Parser::new().unwrap();
    assert!(matches!(q.with_parser(|_| Some(())), Err(LanError::NoDictionaryError)));
}

#[test]
fn block_failure_is_a_simple_error() {
    let p = Parser::open(GRAMMAR, DICT).unwrap();
    assert!(matches!(p.with_parser(|_| None), Err(LanError::SimpleError)));
    assert!(matches!(p.with_parser(|_| Some(())), Ok(())));
}

#[test]
fn grammar_may_come_from_several_sources() {
    let mut p = Parser::open("PART main\n RULE sentence $NP $VP\nEND\n", DICT).unwrap();
    p.load_lan("PART NP\n RULE np ?*det *noun\nEND\n");
    p.load_lan("PART VP\n RULE vp *verb ?$NP\nEND\n");
    let r = p.with_parser(|rp| {
        let res = rp.parse("a cat sees the dog").ok()?;
        assert_eq!(res.tree.collect_verbose(" "), "sentence[ np[ a cat ] vp[ sees np[ the dog ] ] ]");
        assert_eq!(res.length, 18);
        Some(())
    });
    assert!(r.is_ok());
}

#[test]
fn loading_a_dictionary_replaces_categories_it_names() {
    let mut p = Parser::open(GRAMMAR, DICT).unwrap();
    assert!(p.accepts_dict("PART verb\njumps\n"));
    p.load_dict("PART verb\njumps\n").unwrap();
    let r = p.with_parser(|rp| {
        let res = rp.parse("the dog jumps").ok()?;
        assert_eq!(res.tree.collect_verbose(" "), "sentence[ np[ the dog ] vp[ jumps ] ]");
        assert!(matches!(rp.parse("the dog runs"), Err(LanError::ParsingError)));
        Some(())
    });
    assert!(r.is_ok());
}

#[test]
fn loading_a_dictionary_adds_new_categories() {
    let mut p = Parser::open(GRAMMAR, DICT).unwrap();
    p.load_dict("PART adv\nfast\n").unwrap();
    p.load_lan("PART X\n RULE x *adv\nEND\n");
    let r = p.with_parser(|rp| {
        let res = rp.parse("the dog runs").ok()?;
        assert_eq!(res.length, 12);
        Some(())
    });
    assert!(r.is_ok());
}

#[test]
fn accepts_dict_checks_categories() {
    let p = Parser::open(GRAMMAR, DICT).unwrap();
    assert!(p.accepts_dict("PART x\nfoo\n"));
    assert!(p.accepts_dict(""));
    assert!(!p.accepts_dict("foo\n"));
    assert!(!p.accepts_dict("PART\n"));
    let q = Parser::new().unwrap();
    assert!(!q.accepts_dict("PART x\nfoo\n"));
}

#[test]
fn parse_raw_reads_prepared_characters() {
    let p = Parser::open(GRAMMAR, DICT).unwrap();
    let r = p.with_parser(|rp| {
        let v: Vec<char> = "a cat runs".chars().collect();
        let (tree, n) = rp.parse_raw(&v).ok()??;
        assert_eq!(n, 10);
        assert_eq!(tree.collect(" "), "a cat runs");
        let upper: Vec<char> = "A CAT RUNS".chars().collect();
        assert!(matches!(rp.parse_raw(&upper), Ok(None)));
        Some(())
    });
    assert!(r.is_ok());
}

fn morphemes(t: &lanparse::lan::parse::syntree::SyntaxTreeNode, out: &mut Vec<(String, String)>) {
    match t {
        lanparse::lan::parse::syntree::SyntaxTreeNode::Category(c) => {
            for ch in &c.children {
                morphemes(ch, out);
            }
        },
        lanparse::lan::parse::syntree::SyntaxTreeNode::Vocab(m) => out.push((m.name.clone(), m.text.clone())),
    }
}

#[test]
fn morphemes_are_labeled_by_what_they_matched() {
    let g = "PART main\n RULE s hello-hi $NP *verb\nEND\nPART NP\n RULE np ?*det *noun\nEND\n";
    let p = Parser::open(g, DICT).unwrap();
    let r = p.with_parser(|rp| {
        let res = rp.parse("hello the cat sees").ok()?;
        let mut ms = Vec::new();
        morphemes(&res.tree, &mut ms);
        let expected: Vec<(String, String)> = [("hi", "hello"), ("det", "the"), ("noun", "cat"), ("verb", "sees")]
            .iter()
            .map(|(a, b)| (a.to_string(), b.to_string()))
            .collect();
        assert_eq!(ms, expected);
        Some(())
    });
    assert!(r.is_ok());
}

#[test]
fn deep_right_recursion_is_parsed() {
    let grammar = "PART main\nRULE number *numeric ?$main\nEND\n";
    let dict = "PART numeric\n1\n";
    let text = "1".repeat(300);
    let (_, len) = parse_one(grammar, dict, &text).unwrap();
    assert_eq!(len, 300);
}

#[test]
fn whole_parse_needs_the_whole_sentence() {
    let p = Parser::open(GRAMMAR, DICT).unwrap();
    let r = p.with_parser(|rp| {
        assert!(rp.can_build_main());
        let whole = rp.whole_parse("the dog sees a cat").unwrap();
        assert_eq!(whole.length, 18);
        assert!(rp.whole_parse("the dog sees a cat xyz").is_none());
        assert!(rp.whole_parse("xyz").is_none());
        Some(())
    });
    assert!(r.is_ok());
}
