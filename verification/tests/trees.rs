use lanparse::lan::lanparser::{ShortWordPart, SignText, Templates, TemplateNode};
use lanparse::lan::parse::fit_rules::Expectation;
use lanparse::lan::parse::fit_rules::expect::nexts;
use lanparse::lan::parse::syntree::{copy_node, SyntaxTreeNode};

fn m(name: &str, text: &str) -> SyntaxTreeNode {
    SyntaxTreeNode::new_morpheme(String::from(name), String::from(text))
}

fn sample() -> SyntaxTreeNode {
    let mut np = SyntaxTreeNode::new_category("np");
    assert_eq!(np.push_category(m("det", "the")), Some(()));
    assert_eq!(np.push_category(m("noun", "dog")), Some(()));
    let mut s = SyntaxTreeNode::new_category("s");
    s.push_category(np);
    s.push_category(m("verb", "runs"));
    s
}

#[test]
fn collect_joins_morphemes_level_by_level() {
    let t = sample();
    assert_eq!(t.collect(" "), "the dog runs");
    assert_eq!(t.collect("+"), "the+dog+runs");
    assert_eq!(SyntaxTreeNode::new_category("e").collect(" "), "");
    assert_eq!(m("x", " a ").collect(" "), " a ");
}

#[test]
fn collect_verbose_annotates_categories() {
    let t = sample();
    assert_eq!(t.collect_verbose(" "), "s[ np[ the dog ] runs ]");
    assert_eq!(t.collect_verbose(","), "s[ np[ the,dog ],runs ]");
    assert_eq!(SyntaxTreeNode::new_category("e").collect_verbose(" "), "e[  ]");
}

#[test]
fn collect_verbose_trims_morphemes_and_drops_single_spaces() {
    let mut t = SyntaxTreeNode::new_category("s");
    t.push_category(m("a", " x "));
    t.push_category(m("b", " "));
    t.push_category(m("c", "y"));
    assert_eq!(t.collect_verbose(" "), "s[ x  y ]");
}

#[test]
fn morphemes_take_no_children() {
    let mut v = m("noun", "dog");
    assert_eq!(v.push_category(m("x", "y")), None);
    assert_eq!(v.collect(" "), "dog");
    assert!(v.is_vocab() && !v.is_category());
    assert_eq!(v.get_vocab().unwrap().name, "noun");
    assert!(v.get_category().is_none());
}

#[test]
fn category_accessors() {
    let t = sample();
    assert!(t.is_category() && !t.is_vocab());
    let c = t.get_category().unwrap();
    assert_eq!(c.name, "s");
    assert_eq!(c.children.len(), 2);
    assert!(t.get_vocab().is_none());
}

#[test]
fn copies_are_equal() {
    let t = sample();
    let c = copy_node(&t);
    assert_eq!(c.collect_verbose(" "), t.collect_verbose(" "));
}

fn text_node(t: &str, opt: bool) -> TemplateNode {
    let x = Templates::Text(SignText { text: t.chars().collect(), name: String::from("n") });
    if opt { TemplateNode::from_opt(x) } else { TemplateNode::from(x) }
}

#[test]
fn fresh_expectations_branch_on_leading_optional_nodes() {
    let rule = vec![text_node("a", true), text_node("b", true), text_node("c", false), text_node("d", true)];
    let es = nexts("r", &rule);
    assert_eq!(es.len(), 3);
    for (k, e) in es.iter().enumerate() {
        assert_eq!(e.rule.len(), 4 - k);
        assert_eq!(e.reading, 0);
        assert_eq!(e.name, "r");
        assert!(e.alive);
        assert!(e.voca_attrs.is_empty());
        assert_eq!(e.tree.as_ref().unwrap().collect_verbose(" "), "r[  ]");
    }
    let all_opt = vec![text_node("a", true), text_node("b", true)];
    assert_eq!(nexts("r", &all_opt).len(), 2);
    let none: Vec<TemplateNode> = Vec::new();
    assert_eq!(nexts("r", &none).len(), 0);
    let free = vec![
        TemplateNode::from_free(Templates::ShortPart(ShortWordPart::from("x"))),
        text_node("c", false),
    ];
    assert_eq!(nexts("r", &free).len(), 2);
}

#[test]
fn expectation_steps() {
    let rule = vec![text_node("a", false), text_node("b", false)];
    let mut e = Expectation::from("r", &rule, SyntaxTreeNode::new_category("r"), 2);
    assert_eq!(e.reading, 2);
    e.read(3);
    assert_eq!(e.reading, 5);
    e.next_rule();
    assert_eq!(e.rule.len(), 1);
    e.push_category(m("n", "a"));
    let attrs = vec![String::from("x")];
    e.register_attr(&attrs);
    assert_eq!(e.voca_attrs.len(), 1);
    e.kill();
    assert!(!e.alive);
    let t = e.take_tree();
    assert_eq!(t.collect_verbose(" "), "r[ a ]");
    assert!(e.tree.is_none());
}

#[test]
fn free_nodes_stay_after_a_step() {
    let rule = vec![TemplateNode::from_free(Templates::ShortPart(ShortWordPart::from("x")))];
    let mut e = Expectation::from("r", &rule, SyntaxTreeNode::new_category("r"), 0);
    e.next_rule();
    assert_eq!(e.rule.len(), 1);
}

#[test]
fn continuations_keep_position_and_attributes() {
    let rule = vec![text_node("a", true), text_node("b", true)];
    let attrs = vec![String::from("x")];
    let mut e = Expectation::from("r", &rule, SyntaxTreeNode::new_category("r"), 4);
    e.register_attr(&attrs);
    e.push_category(m("n", "z"));
    let ks = e.nexts();
    assert_eq!(ks.len(), 3);
    assert_eq!(ks[0].rule.len(), 2);
    assert_eq!(ks[1].rule.len(), 1);
    assert_eq!(ks[2].rule.len(), 0);
    assert_eq!(ks[0].voca_attrs.len(), 1);
    assert_eq!(ks[1].voca_attrs.len(), 1);
    assert_eq!(ks[2].voca_attrs.len(), 0);
    for k in &ks {
        assert_eq!(k.reading, 4);
        assert!(k.alive);
        assert_eq!(k.tree.as_ref().unwrap().collect_verbose(" "), "r[ z ]");
    }
    assert!(e.tree.is_none());
}

#[test]
fn continuation_stops_at_first_required_node() {
    let rule = vec![text_node("a", true), text_node("b", false), text_node("c", true)];
    let mut e = Expectation::from("r", &rule, SyntaxTreeNode::new_category("r"), 0);
    let ks = e.nexts();
    assert_eq!(ks.len(), 2);
    assert_eq!(ks[1].rule.len(), 2);
}

#[test]
fn finished_expectation_goes_on_as_itself() {
    let rule: Vec<TemplateNode> = Vec::new();
    let mut e = Expectation::from("r", &rule, SyntaxTreeNode::new_category("r"), 7);
    let ks = e.nexts();
    assert_eq!(ks.len(), 1);
    assert_eq!(ks[0].reading, 7);
    assert!(ks[0].rule.is_empty());
    assert!(e.tree.is_some());
}
