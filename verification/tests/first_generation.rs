use lanparse::dictionary::{load_dictionary, Voca};
use lanparse::lanparser::declaration::{
    ParamedPart, PhraseContext, PhraseIf, PhraseRules, Rule, ShortWordPart, SignText, Templates,
    TemplateNode,
};
use lanparse::parse::fit_rules::{nexts, Expectation};
use lanparse::parse::syntree::{copy_node, SyntaxTreeNode};

fn morpheme(name: &str, text: &str) -> SyntaxTreeNode {
    SyntaxTreeNode::new_morpheme(String::from(name), String::from(text))
}

#[test]
fn trees_print_with_single_spaces() {
    let mut np = SyntaxTreeNode::new_category("np");
    np.push_category(morpheme("det", "the"));
    np.push_category(morpheme("noun", " dog "));
    let mut s = SyntaxTreeNode::new_category("s");
    assert_eq!(s.push_category(np), Some(()));
    s.push_category(morpheme("verb", "runs"));
    assert_eq!(s.collect(), "the  dog  runs");
    assert_eq!(s.collect_verbose(), "s[ np[ the  dog  ] runs ]");
    assert_eq!(copy_node(&s).collect_verbose(), s.collect_verbose());
    let mut v = morpheme("x", "y");
    assert_eq!(v.push_category(morpheme("a", "b")), None);
    assert_eq!(v.collect(), "y");
}

#[test]
fn node_constructors() {
    let t = || Templates::Embed(String::from("e"));
    let a = TemplateNode::from(t());
    assert!(!a.is_optional && a.condition.is_none());
    let b = TemplateNode::from_opt(t());
    assert!(b.is_optional && b.condition.is_none());
    let c = TemplateNode::from_conditional(t(), ":0=x");
    assert!(!c.is_optional);
    assert_eq!(c.condition.as_deref(), Some(":0=x"));
    let s = ShortWordPart::from_conditional("noun", "#0=pl");
    assert_eq!(s.part_name, "noun");
    assert_eq!(s.condition.as_deref(), Some("#0=pl"));
    assert!(ShortWordPart::from("v").condition.is_none());
}

#[test]
fn debug_strings() {
    assert_eq!(ShortWordPart::from_conditional("noun", "#0=pl").to_debug_string(), "noun[#0=pl]");
    assert_eq!(ShortWordPart::from("v").to_debug_string(), "v");
    let p = ParamedPart { name: String::from("N"), args: vec![String::from("a"), String::from("b")] };
    assert_eq!(p.to_debug_string(), "N(a, b)");
}

#[test]
fn parts_hold_their_parameter_count() {
    let rule = Rule { rules: vec![TemplateNode::from(Templates::Text(SignText { text: vec!['a'], name: String::from("n") }))], name: String::from("r") };
    let cond = PhraseIf { parameter: 0, value: String::from("x"), unless: false, children: vec![PhraseRules::Rules(rule)] };
    let p = PhraseContext { name: String::from("P"), children: vec![PhraseRules::Ifs(cond)], argc: 1 };
    assert_eq!(p.argc, 1);
    assert_eq!(p.children.len(), 1);
}

fn node(opt: bool) -> TemplateNode {
    let t = Templates::ShortPart(ShortWordPart::from("x"));
    if opt { TemplateNode::from_opt(t) } else { TemplateNode::from(t) }
}

#[test]
fn expectations_branch_on_optional_nodes() {
    let rule = vec![node(true), node(false), node(true)];
    let es = nexts("r", &rule);
    assert_eq!(es.len(), 2);
    assert_eq!(es[0].rule.len(), 3);
    assert_eq!(es[1].rule.len(), 2);
    assert!(es.iter().all(|e| e.reading == 0 && e.alive && e.voca_attrs.is_empty()));
    let all = vec![node(true), node(true)];
    assert_eq!(nexts("r", &all).len(), 2);
}

#[test]
fn expectation_steps_and_continuations() {
    let rule = vec![node(true), node(true)];
    let attrs = vec![String::from("a")];
    let mut e = Expectation::from("r", &rule, SyntaxTreeNode::new_category("r"), 1);
    e.read(2);
    e.register_attr(&attrs);
    e.push_category(morpheme("x", "w"));
    let ks = e.nexts();
    assert_eq!(ks.len(), 3);
    assert_eq!(ks[2].rule.len(), 0);
    assert_eq!(ks[0].voca_attrs.len(), 1);
    assert_eq!(ks[2].voca_attrs.len(), 0);
    for k in &ks {
        assert_eq!(k.reading, 3);
        assert_eq!(k.tree.as_ref().unwrap().collect_verbose(), "r[ w ]");
    }
    assert!(e.tree.is_some());
    e.next_rule();
    assert_eq!(e.rule.len(), 1);
    e.kill();
    assert!(!e.alive);
    let t = e.take_tree();
    assert_eq!(t.collect(), "w");
    assert!(e.tree.is_none());
}

#[test]
fn dictionary_of_the_first_generation() {
    let d = load_dictionary("PART noun\nDog x\n");
    let w: &Vec<Voca> = d.get("noun").unwrap();
    assert_eq!(w[0].text, vec!['d', 'o', 'g']);
    assert_eq!(w[0].argv, vec![String::from("x")]);
    assert_eq!(Voca::from("a b").argv, vec![String::from("b")]);
}
