use lanparse::lan::lanparser::{
    load_lan, LanReference, ParamedPart, PhraseContext, PhraseRules, ShortWordPart, Templates,
    TemplateNode,
};
use lanparse::lanparser::{parse, parse_rules, try_parse, try_parse_rules};
use lanparse::table::Table;
use lanparse::concrete::ConcreteRules;

fn lines(src: &str) -> Vec<&str> {
    src.lines().map(|l| l.trim()).filter(|l| !l.is_empty()).collect()
}

#[test]
fn parse_rules_reads_each_kind_of_node() {
    let words = ["$NP", "?*det", "[:0=x]*noun", "Hello-hi", "%alias", "?yes-y", "$V(", "a", ":1", ")"];
    let nodes = parse_rules(&words).unwrap();
    assert_eq!(nodes.len(), 7);
    let texts: Vec<String> = nodes.iter().map(|n| n.to_string()).collect();
    assert_eq!(
        texts,
        vec!["$NP", "*det[]", "*noun[]", "hello-hi", "alias", "yes-y", "$V[\"a\", \":1\"]"]
    );
    assert!(!nodes[0].is_optional && nodes[0].condition.is_none());
    assert!(nodes[1].is_optional);
    assert_eq!(nodes[2].condition.as_deref(), Some(":0=x"));
    assert!(nodes[5].is_optional);
    assert!(nodes.iter().all(|n| !n.is_free));
    match &nodes[6].template {
        Templates::Template(p) => {
            assert_eq!(p.name, "V");
            assert_eq!(p.args, vec!["a".to_string(), ":1".to_string()]);
        },
        _ => panic!("expected a part reference"),
    }
}

#[test]
fn optional_part_reference_with_arguments() {
    let nodes = parse_rules(&["?$N(", "pl", ")"]).unwrap();
    assert_eq!(nodes.len(), 1);
    assert!(nodes[0].is_optional);
    assert_eq!(nodes[0].to_string(), "$N[\"pl\"]");
}

#[test]
fn conditional_part_reference_with_arguments() {
    let nodes = parse_rules(&["[:0=a]$N(", "b", ")"]).unwrap();
    assert_eq!(nodes.len(), 1);
    assert_eq!(nodes[0].condition.as_deref(), Some(":0=a"));
    assert!(!nodes[0].is_optional);
}

#[test]
fn category_conditions_are_read() {
    let nodes = parse_rules(&["*verb[#0=@1:2&#1!=:0&#2=sg]"]).unwrap();
    match &nodes[0].template {
        Templates::ShortPart(p) => {
            assert_eq!(p.part_name, "verb");
            assert_eq!(p.condition.len(), 3);
            assert!(matches!(p.condition[0].target, LanReference::PartAttr((1, 2))));
            assert_eq!(p.condition[0].argn, 0);
            assert!(!p.condition[0].neq);
            assert!(matches!(p.condition[1].target, LanReference::PartParam(0)));
            assert_eq!(p.condition[1].argn, 1);
            assert!(p.condition[1].neq);
            assert!(matches!(&p.condition[2].target, LanReference::Text(t) if t == "sg"));
            assert_eq!(p.condition[2].argn, 2);
        },
        _ => panic!("expected a category"),
    }
    assert_eq!(
        nodes[0].to_string(),
        "*verb[ShortWordPartCondition { target: PartAttr((1, 2)), argn: 0, neq: false }, \
         ShortWordPartCondition { target: PartParam(0), argn: 1, neq: true }, \
         ShortWordPartCondition { target: Text(\"sg\"), argn: 2, neq: false }]"
    );
}

#[test]
fn literal_without_name_cannot_be_read() {
    assert!(try_parse_rules(&["hello"]).is_none());
    assert!(try_parse_rules(&["*noun[#x=1]"]).is_none());
    assert!(try_parse_rules(&["hello-hi"]).is_some());
}

#[test]
fn grammar_is_read_into_parts() {
    let src = "
        PART main 2
            RULE s $NP
            SET al *det
            IF :0 pl
                RULE p *noun
            END
            UNLESS 1 sg
                RULE q *noun
            END
        END
        PART NP
            RULE np *noun
        END
    ";
    let rules = parse(&lines(src)).unwrap();
    let main: &PhraseContext = rules.get("main").unwrap();
    assert_eq!(main.name, "main");
    assert_eq!(main.argc, 2);
    assert!(main.props.is_none());
    assert_eq!(main.children.len(), 4);
    assert!(matches!(&main.children[0], PhraseRules::Rules(r) if r.name == "s" && r.rules.len() == 1));
    assert!(matches!(&main.children[1], PhraseRules::SetVariable(r) if r.name == "al"));
    match &main.children[2] {
        PhraseRules::Ifs(i) => {
            assert_eq!(i.parameter, 0);
            assert_eq!(i.value, "pl");
            assert!(!i.unless);
            assert_eq!(i.children.len(), 1);
        },
        _ => panic!("expected IF"),
    }
    match &main.children[3] {
        PhraseRules::Ifs(i) => {
            assert_eq!(i.parameter, 1);
            assert_eq!(i.value, "sg");
            assert!(i.unless);
        },
        _ => panic!("expected UNLESS"),
    }
    let np = rules.get("NP").unwrap();
    assert!(np.props.is_none());
    assert_eq!(np.argc, 0);
    assert!(rules.get("VP").is_none());
}

#[test]
fn grammar_errors_name_the_line() {
    assert!(matches!(try_parse(&lines("PART a\nRULE\nEND")), Err(1)));
    assert!(matches!(try_parse(&lines("END")), Err(0)));
    assert!(matches!(try_parse(&lines("RULE r *x")), Err(0)));
    assert!(matches!(try_parse(&lines("PART a\nIF x y\nEND")), Err(1)));
    assert!(matches!(try_parse(&lines("PART a\nRULE r bad\nEND")), Err(1)));
    assert!(try_parse(&lines("PART a\nsomething else\nEND")).is_ok());
    assert!(matches!(try_parse(&lines("PART a\nEND\nPART b x\nEND")), Err(2)));
    assert_eq!(try_parse(&lines("PART a +3 extra\nEND")).unwrap().get("a").unwrap().argc, 3);
}

#[test]
fn unclosed_parts_are_not_stored() {
    let rules = try_parse(&lines("PART a\nRULE r *x")).unwrap();
    assert!(rules.get("a").is_none());
}

#[test]
fn a_later_part_replaces_an_earlier_one() {
    let rules = try_parse(&lines("PART a\nRULE r *x\nEND\nPART a\nEND")).unwrap();
    assert_eq!(rules.get("a").unwrap().children.len(), 0);
}

#[test]
fn load_lan_joins_sources_and_skips_comments() {
    let srcs = vec![
        String::from("# comment\nPART a\n  RULE r *x\n"),
        String::from("\nEND\n# done\n"),
    ];
    let rules = load_lan(&srcs).unwrap();
    assert_eq!(rules.get("a").unwrap().children.len(), 1);
    assert!(matches!(load_lan(&vec![String::from("PART a\n  END\n  END\n")]), Err(2)));
}

fn part(src: &str, name: &str) -> PhraseContext {
    let mut rules = parse(&lines(src)).unwrap();
    let i = rules.position(name).unwrap();
    rules.entries.swap_remove(i).1
}

#[test]
fn building_a_part_selects_conditional_blocks() {
    let p = part(
        "PART N\nIF :0 pl\nRULE plural *noun\nEND\nUNLESS 0 pl\nRULE singular *noun\nEND\nRULE any *x\nEND",
        "N",
    );
    let pl = vec![String::from("pl")];
    let c = p.build(&pl);
    let names: Vec<&str> = c.rules.iter().map(|r| r.name.as_str()).collect();
    assert_eq!(names, vec!["plural", "any"]);
    assert_eq!(c.id, "N@[\"pl\"]");
    assert_eq!(c.args, pl);
    let none: Vec<String> = Vec::new();
    let c2 = p.build(&none);
    let names2: Vec<&str> = c2.rules.iter().map(|r| r.name.as_str()).collect();
    assert_eq!(names2, vec!["singular", "any"]);
    assert_eq!(c2.id, "N@[]");
}

#[test]
fn building_a_part_substitutes_parameters_and_aliases() {
    let p = part("PART N\nSET al *det ?*adj\nRULE r %al [:0=x]*noun [:0~x]*verb $M( :0 :3 k )\nEND", "N");
    let args = vec![String::from("x")];
    let c = p.build(&args);
    assert_eq!(c.rules.len(), 1);
    let texts: Vec<String> = c.rules[0].rules.iter().map(|n| n.to_string()).collect();
    assert_eq!(texts, vec!["*det[]", "*adj[]", "*noun[]", "$M[\"x\", \"0\", \"k\"]"]);
    let args2 = vec![String::from("y")];
    let c2 = p.build(&args2);
    let texts2: Vec<String> = c2.rules[0].rules.iter().map(|n| n.to_string()).collect();
    assert_eq!(texts2, vec!["*det[]", "*adj[]", "*verb[]", "$M[\"y\", \"0\", \"k\"]"]);
}

#[test]
fn try_build_fails_on_unknown_alias() {
    let p = part("PART N\nRULE r %missing\nEND", "N");
    assert!(p.try_build(&Vec::new()).is_none());
}

#[test]
fn gain_rules_collects_aliases() {
    let p = part("PART N\nSET al *det\nRULE r %al *noun\nEND", "N");
    let mut vals: Table<ConcreteRules> = Table::new();
    let rs = p.gain_rules(&p.children, &Vec::new(), &mut vals);
    assert_eq!(rs.len(), 1);
    assert_eq!(rs[0].rules.len(), 2);
    let al = vals.get("al").unwrap();
    assert_eq!(al.name, "");
    assert_eq!(al.rules.len(), 1);
}

#[test]
fn argrules_uses_given_aliases() {
    let p = part("PART N\nRULE r %al *noun\nEND", "N");
    let mut vals: Table<ConcreteRules> = Table::new();
    let alias = ConcreteRules {
        rules: vec![TemplateNode::from(Templates::ShortPart(ShortWordPart::from("det")))],
        name: String::new(),
    };
    vals.insert(String::from("al"), alias);
    let rule = match &p.children[0] {
        PhraseRules::Rules(r) => r,
        _ => panic!("expected a rule"),
    };
    let nodes = PhraseContext::argrules(rule, &Vec::new(), &vals);
    let texts: Vec<String> = nodes.iter().map(|n| n.to_string()).collect();
    assert_eq!(texts, vec!["*det[]", "*noun[]"]);
}

#[test]
fn paramed_part_build_finds_the_part() {
    let rules = parse(&lines("PART N\nIF 0 a\nRULE r *x\nEND\nEND")).unwrap();
    let r = ParamedPart { name: String::from("N"), args: vec![String::from("a")] };
    let c = r.build(&rules);
    assert_eq!(c.rules.len(), 1);
    assert_eq!(c.id, "N@[\"a\"]");
    assert_eq!(c.part.name, "N");
}

#[test]
fn node_constructors_set_modifiers() {
    let t = || Templates::Embed(String::from("e"));
    let a = TemplateNode::from(t());
    assert!(!a.is_optional && !a.is_free && a.condition.is_none());
    let b = TemplateNode::from_opt(t());
    assert!(b.is_optional && !b.is_free);
    let c = TemplateNode::from_free(t());
    assert!(c.is_free && !c.is_optional);
    let d = TemplateNode::from_conditional(t(), ":0=x");
    assert_eq!(d.condition.as_deref(), Some(":0=x"));
    assert!(!d.is_optional && !d.is_free);
    let s = ShortWordPart::from_conditional("noun", "#0=pl&#1!=:2");
    assert_eq!(s.part_name, "noun");
    assert_eq!(s.condition.len(), 2);
    assert_eq!(ShortWordPart::from("x").condition.len(), 0);
}

#[test]
fn debug_strings_of_references_and_categories() {
    let p = ParamedPart { name: String::from("N"), args: vec![String::from("a"), String::from("b")] };
    assert_eq!(p.to_debug_string(), "N(a, b)");
    let q = ParamedPart { name: String::from("M"), args: Vec::new() };
    assert_eq!(q.to_debug_string(), "M()");
    let s = ShortWordPart::from_conditional("noun", "#0=pl");
    assert_eq!(
        s.to_debug_string(),
        "noun[ShortWordPartCondition { target: Text(\"pl\"), argn: 0, neq: false }]"
    );
    assert_eq!(ShortWordPart::from("x").to_debug_string(), "x[]");
}

#[test]
fn only_the_marked_part_reference_is_conditional() {
    let nodes = parse_rules(&["[:0=a]$A(", "x", ")", "$B(", "y", ")"]).unwrap();
    assert_eq!(nodes.len(), 2);
    assert_eq!(nodes[0].condition.as_deref(), Some(":0=a"));
    assert_eq!(nodes[0].to_string(), "$A[\"x\"]");
    assert!(nodes[1].condition.is_none());
    assert!(!nodes[1].is_optional);
    assert_eq!(nodes[1].to_string(), "$B[\"y\"]");
}

#[test]
fn if_with_a_list_of_values() {
    let p = part("PART P\nIF :0 ~ a b c\nRULE r a-A\nEND\nEND", "P");
    let b = vec![String::from("b")];
    let c = p.build(&b);
    assert_eq!(c.rules.len(), 1);
    assert_eq!(c.rules[0].name, "r");
    let dv = vec![String::from("d")];
    assert!(p.build(&dv).rules.is_empty());
    let u = part("PART P\nUNLESS :0 ~ a b\nRULE r a-A\nEND\nEND", "P");
    assert!(u.build(&b).rules.is_empty());
    assert_eq!(u.build(&dv).rules.len(), 1);
}
