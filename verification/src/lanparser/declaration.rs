//! The grammar model of the first parser generation: parts that declare how
//! many parameters they take, and nodes with at most one condition text.
use vstd::prelude::*;
use crate::text::{chars_of, join, push_joined, push_str, string_from, views};

verus! {

/// A part of the grammar and the number of parameters it takes.
pub struct PhraseContext {
    pub name: String,
    pub children: Vec<PhraseRules>,
    pub argc: usize,
}

/// An `IF`/`UNLESS` block: its rules apply only when parameter `parameter`
/// equals (or, with `unless`, differs from) `value`.
pub struct PhraseIf {
    pub parameter: usize,
    pub value: String,
    pub unless: bool,
    pub children: Vec<PhraseRules>,
}

/// One line of a part: a `SET` alias, a `RULE`, or a conditional block.
pub enum PhraseRules {
    SetVariable(Rule),
    Rules(Rule),
    Ifs(PhraseIf),
}

/// A reference to a part with parameters.
#[derive(Debug)]
pub struct ParamedPart {
    pub name: String,
    pub args: Vec<String>,
}

/// A literal terminal: the text to match and the name of its morpheme.
#[derive(Debug)]
pub struct SignText {
    pub text: Vec<char>,
    pub name: String,
}

/// A template node with its modifiers.
#[derive(Debug)]
pub struct TemplateNodeGen<T> {
    pub condition: Option<String>,
    pub is_optional: bool,
    pub template: T,
}

/// A dictionary category, with an optional condition text on its words'
/// attributes.
#[derive(Debug)]
pub struct ShortWordPart {
    pub condition: Option<String>,
    pub part_name: String,
}

/// What a template node stands for.
#[derive(Debug)]
pub enum Templates {
    Embed(String),
    Text(SignText),
    ShortPart(ShortWordPart),
    Template(ParamedPart),
}

pub type TemplateNode = TemplateNodeGen<Templates>;

/// A named production rule.
pub struct Rule {
    pub rules: Vec<TemplateNode>,
    pub name: String,
}

/// The characters of an optional text.
pub open spec fn opt_text(o: Option<String>) -> Option<Seq<char>> {
    match o {
        Some(s) => Some(s@),
        None => None,
    }
}

/// How a part reference is written for inspection: its name, then its
/// arguments comma-separated in round brackets.
pub open spec fn paramed_text(name: Seq<char>, args: Seq<Seq<char>>) -> Seq<char> {
    name + "("@ + join(args, ", "@) + ")"@
}

/// How a category node is written for inspection: its name, then its condition
/// text in square brackets if it has one.
pub open spec fn short_part_text(part_name: Seq<char>, condition: Option<Seq<char>>) -> Seq<char> {
    match condition {
        Some(c) => part_name + "["@ + c + "]"@,
        None => part_name,
    }
}

impl ParamedPart {
    /// The reference as it is written for inspection (see [`paramed_text`]).
    pub fn to_debug_string(&self) -> (r: String)
        ensures
            r@ == paramed_text(self.name@, self.args.deep_view()),
    {
        let mut items: Vec<Vec<char>> = Vec::new();
        let mut i: usize = 0;
        while i < self.args.len()
            invariant
                i <= self.args.len(),
                views(items@) == self.args.deep_view().take(i as int),
            decreases self.args.len() - i,
        {
            let a = chars_of(self.args[i].as_str());
            let ghost before = views(items@);
            items.push(a);
            assert(views(items@) =~= before.push(a@));
            assert(self.args.deep_view().take(i + 1) =~= self.args.deep_view().take(i as int).push(
                self.args@[i as int]@,
            ));
            i = i + 1;
        }
        assert(self.args.deep_view().take(i as int) == self.args.deep_view());
        let mut out: Vec<char> = Vec::new();
        push_str(&mut out, self.name.as_str());
        push_str(&mut out, "(");
        push_joined(&mut out, &items, ", ");
        push_str(&mut out, ")");
        string_from(out.as_slice())
    }
}

impl ShortWordPart {
    /// The category as it is written for inspection (see [`short_part_text`]).
    pub fn to_debug_string(&self) -> (r: String)
        ensures
            r@ == short_part_text(self.part_name@, opt_text(self.condition)),
    {
        let mut out: Vec<char> = Vec::new();
        push_str(&mut out, self.part_name.as_str());
        match &self.condition {
            Some(c) => {
                push_str(&mut out, "[");
                push_str(&mut out, c.as_str());
                push_str(&mut out, "]");
            },
            None => {},
        }
        string_from(out.as_slice())
    }

    /// A dictionary category whose words must meet the condition text `c`.
    pub fn from_conditional(p: &str, c: &str) -> (r: ShortWordPart)
        ensures
            r.part_name@ == p@,
            opt_text(r.condition) == Some(c@),
    {
        ShortWordPart { condition: Some(c.to_owned()), part_name: p.to_owned() }
    }

    /// A dictionary category without condition.
    pub fn from(p: &str) -> (r: ShortWordPart)
        ensures
            r.part_name@ == p@,
            r.condition is None,
    {
        ShortWordPart { condition: None, part_name: p.to_owned() }
    }
}

impl TemplateNodeGen<Templates> {
    /// A plain node.
    pub fn from(t: Templates) -> (r: TemplateNode)
        ensures
            r == (TemplateNode { is_optional: false, condition: None, template: t }),
    {
        TemplateNodeGen { is_optional: false, condition: None, template: t }
    }

    /// A node that may be left out.
    pub fn from_opt(t: Templates) -> (r: TemplateNode)
        ensures
            r == (TemplateNode { is_optional: true, condition: None, template: t }),
    {
        TemplateNodeGen { is_optional: true, condition: None, template: t }
    }

    /// A node that applies only when the condition `c` on the part's parameters holds.
    pub fn from_conditional(t: Templates, c: &str) -> (r: TemplateNode)
        ensures
            !r.is_optional,
            opt_text(r.condition) == Some(c@),
            r.template == t,
    {
        TemplateNodeGen { is_optional: false, condition: Some(c.to_owned()), template: t }
    }
}

} // verus!
