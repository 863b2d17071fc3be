//! The grammar's building blocks: parts, rules and the template nodes that a
//! rule is made of.
use vstd::prelude::*;
use crate::text::{
    decimal, push_decimal, push_str, push_all, push_joined, join, debug_text, debug_str,
    split_on, split_once, parse_usize, chars_of, string_from, split_char, split_once_char,
    to_usize, views,
};

verus! {

/// A part of the grammar (`PART name [argc]` up to `END`): its lines, its
/// properties and whether it is a trap (which the grammar text does not set),
/// its name, and the number of parameters it declares (0 when none is given).
#[derive(Debug)]
pub struct PhraseContext {
    pub children: Vec<PhraseRules>,
    pub props: Option<String>,
    pub is_trap: bool,
    pub name: String,
    pub argc: usize,
}

/// An `IF`/`UNLESS` block: its rules apply only when parameter `parameter`
/// equals one of `values` (or, with `unless`, none of them). `value` is the
/// block's third word as written: the one value, or `~` before a list of values.
#[derive(Debug)]
pub struct PhraseIf {
    pub parameter: usize,
    pub value: String,
    pub values: Vec<String>,
    pub unless: bool,
    pub children: Vec<PhraseRules>,
}

/// One line of a part: a `SET` alias, a `RULE`, or a conditional block.
#[derive(Debug)]
pub enum PhraseRules {
    SetVariable(Rule),
    Rules(Rule),
    Ifs(PhraseIf),
}

/// A reference to a part with parameters (`$Name( a b )`).
#[derive(Debug)]
pub struct ParamedPart {
    pub name: String,
    pub args: Vec<String>,
}

/// A literal terminal (`text-name`): the text to match and the name of its morpheme.
#[derive(Debug)]
pub struct SignText {
    pub text: Vec<char>,
    pub name: String,
}

/// A template node with its modifiers.
#[derive(Debug)]
pub struct TemplateNodeGen<T> {
    pub condition: Option<String>,
    pub is_optional: bool,
    pub is_free: bool,
    pub template: T,
}

/// A dictionary category (`*category[conditions]`).
#[derive(Debug)]
pub struct ShortWordPart {
    pub condition: Vec<ShortWordPartCondition>,
    pub part_name: String,
}

/// What a dictionary condition compares a word's attribute with.
#[derive(Debug)]
pub enum LanReference {
    PartAttr((usize, usize)),
    PartParam(usize),
    Text(String),
}

/// A condition on attribute `argn` of a dictionary word.
#[derive(Debug)]
pub struct ShortWordPartCondition {
    pub target: LanReference,
    pub argn: usize,
    pub neq: bool,
}

/// What a template node stands for.
#[derive(Debug)]
pub enum Templates {
    Embed(String),
    Text(SignText),
    ShortPart(ShortWordPart),
    Template(ParamedPart),
}

pub type TemplateNode = TemplateNodeGen<Templates>;

/// A named production rule.
#[derive(Debug)]
pub struct Rule {
    pub rules: Vec<TemplateNode>,
    pub name: String,
}

// ---------------------------------------------------------------------------
// Mathematical models

pub enum LanReferenceV {
    PartAttr((usize, usize)),
    PartParam(usize),
    Text(Seq<char>),
}

pub struct ConditionV {
    pub target: LanReferenceV,
    pub argn: usize,
    pub neq: bool,
}

pub struct ShortWordPartV {
    pub condition: Seq<ConditionV>,
    pub part_name: Seq<char>,
}

pub struct ParamedPartV {
    pub name: Seq<char>,
    pub args: Seq<Seq<char>>,
}

pub struct SignTextV {
    pub text: Seq<char>,
    pub name: Seq<char>,
}

pub enum TemplatesV {
    Embed(Seq<char>),
    Text(SignTextV),
    ShortPart(ShortWordPartV),
    Template(ParamedPartV),
}

pub struct TemplateNodeGenV<T> {
    pub condition: Option<Seq<char>>,
    pub is_optional: bool,
    pub is_free: bool,
    pub template: T,
}

pub type TemplateNodeV = TemplateNodeGenV<TemplatesV>;

pub struct RuleV {
    pub rules: Seq<TemplateNodeV>,
    pub name: Seq<char>,
}

pub struct PhraseIfV {
    pub parameter: usize,
    pub value: Seq<char>,
    pub values: Seq<Seq<char>>,
    pub unless: bool,
    pub children: Seq<PhraseRulesV>,
}

pub enum PhraseRulesV {
    SetVariable(RuleV),
    Rules(RuleV),
    Ifs(PhraseIfV),
}

pub struct PhraseContextV {
    pub children: Seq<PhraseRulesV>,
    pub props: Option<Seq<char>>,
    pub is_trap: bool,
    pub name: Seq<char>,
    pub argc: usize,
}

impl DeepView for LanReference {
    type V = LanReferenceV;

    open spec fn deep_view(&self) -> LanReferenceV {
        match self {
            LanReference::PartAttr(p) => LanReferenceV::PartAttr(*p),
            LanReference::PartParam(i) => LanReferenceV::PartParam(*i),
            LanReference::Text(t) => LanReferenceV::Text(t@),
        }
    }
}

impl DeepView for ShortWordPartCondition {
    type V = ConditionV;

    open spec fn deep_view(&self) -> ConditionV {
        ConditionV { target: self.target.deep_view(), argn: self.argn, neq: self.neq }
    }
}

impl DeepView for ShortWordPart {
    type V = ShortWordPartV;

    open spec fn deep_view(&self) -> ShortWordPartV {
        ShortWordPartV { condition: self.condition.deep_view(), part_name: self.part_name@ }
    }
}

impl DeepView for ParamedPart {
    type V = ParamedPartV;

    open spec fn deep_view(&self) -> ParamedPartV {
        ParamedPartV { name: self.name@, args: self.args.deep_view() }
    }
}

impl DeepView for SignText {
    type V = SignTextV;

    open spec fn deep_view(&self) -> SignTextV {
        SignTextV { text: self.text@, name: self.name@ }
    }
}

impl DeepView for Templates {
    type V = TemplatesV;

    open spec fn deep_view(&self) -> TemplatesV {
        match self {
            Templates::Embed(e) => TemplatesV::Embed(e@),
            Templates::Text(t) => TemplatesV::Text(t.deep_view()),
            Templates::ShortPart(p) => TemplatesV::ShortPart(p.deep_view()),
            Templates::Template(t) => TemplatesV::Template(t.deep_view()),
        }
    }
}

impl<T: DeepView> DeepView for TemplateNodeGen<T> {
    type V = TemplateNodeGenV<T::V>;

    open spec fn deep_view(&self) -> TemplateNodeGenV<T::V> {
        TemplateNodeGenV {
            condition: self.condition.deep_view(),
            is_optional: self.is_optional,
            is_free: self.is_free,
            template: self.template.deep_view(),
        }
    }
}

impl DeepView for Rule {
    type V = RuleV;

    open spec fn deep_view(&self) -> RuleV {
        RuleV { rules: self.rules.deep_view(), name: self.name@ }
    }
}

/// The model of one line of a part.
pub open spec fn phrase_rules_view(r: PhraseRules) -> PhraseRulesV
    decreases r,
{
    match r {
        PhraseRules::SetVariable(x) => PhraseRulesV::SetVariable(x.deep_view()),
        PhraseRules::Rules(x) => PhraseRulesV::Rules(x.deep_view()),
        PhraseRules::Ifs(i) => PhraseRulesV::Ifs(
            PhraseIfV {
                parameter: i.parameter,
                value: i.value@,
                values: i.values.deep_view(),
                unless: i.unless,
                children: phrase_rules_seq_view(i.children@),
            },
        ),
    }
}

/// The model of a sequence of part lines.
pub open spec fn phrase_rules_seq_view(s: Seq<PhraseRules>) -> Seq<PhraseRulesV>
    decreases s,
{
    if s.len() == 0 {
        Seq::empty()
    } else {
        phrase_rules_seq_view(s.subrange(0, s.len() - 1)).push(phrase_rules_view(s[s.len() - 1]))
    }
}

/// Pushing a line extends the models by its model.
pub proof fn lemma_phrase_rules_push(s: Seq<PhraseRules>, x: PhraseRules)
    ensures
        phrase_rules_seq_view(s.push(x)) == phrase_rules_seq_view(s).push(phrase_rules_view(x)),
{
    assert(s.push(x).subrange(0, s.len() as int) == s);
}

/// The models line up with the lines, one for one.
pub proof fn lemma_phrase_rules_index(s: Seq<PhraseRules>)
    ensures
        phrase_rules_seq_view(s).len() == s.len(),
        forall|i: int|
            0 <= i < s.len() ==> #[trigger] phrase_rules_seq_view(s)[i] == phrase_rules_view(s[i]),
    decreases s.len(),
{
    if s.len() > 0 {
        lemma_phrase_rules_index(s.subrange(0, s.len() - 1));
        assert forall|i: int| 0 <= i < s.len() implies #[trigger] phrase_rules_seq_view(s)[i]
            == phrase_rules_view(s[i]) by {
            if i < s.len() - 1 {
                assert(s.subrange(0, s.len() - 1)[i] == s[i]);
            }
        }
    }
}

impl DeepView for PhraseRules {
    type V = PhraseRulesV;

    open spec fn deep_view(&self) -> PhraseRulesV {
        phrase_rules_view(*self)
    }
}

impl DeepView for PhraseIf {
    type V = PhraseIfV;

    open spec fn deep_view(&self) -> PhraseIfV {
        PhraseIfV {
            parameter: self.parameter,
            value: self.value@,
            values: self.values.deep_view(),
            unless: self.unless,
            children: phrase_rules_seq_view(self.children@),
        }
    }
}

impl DeepView for PhraseContext {
    type V = PhraseContextV;

    open spec fn deep_view(&self) -> PhraseContextV {
        PhraseContextV {
            children: phrase_rules_seq_view(self.children@),
            props: self.props.deep_view(),
            is_trap: self.is_trap,
            name: self.name@,
            argc: self.argc,
        }
    }
}

// ---------------------------------------------------------------------------
// Dictionary conditions

/// Whether `c` is an ASCII character.
pub open spec fn is_ascii_char(c: char) -> bool {
    (c as u32) < 128
}

/// A condition segment is read from its second character on: `N=V` compares
/// attribute `N` with `V`, `N!=V` negates the comparison. `V` is `:I`
/// (parameter `I`), `@A:B` (attribute `B` of the `A`-th matched word) or a text.
/// A segment without `=` is ignored.
pub open spec fn parse_condition(seg: Seq<char>) -> Option<ConditionV> {
    let body = seg.drop_first();
    match split_once(body, '=') {
        None => None,
        Some((a, b)) => {
            let neq = a.len() > 0 && a.last() == '!';
            let num = if neq {
                a.drop_last()
            } else {
                a
            };
            let argn = parse_usize(num)->0;
            let target = if b.len() > 0 && b[0] == ':' {
                LanReferenceV::PartParam(parse_usize(b.drop_first())->0)
            } else if b.len() > 0 && b[0] == '@' {
                let (pa, pb) = split_once(b.drop_first(), ':')->0;
                LanReferenceV::PartAttr((parse_usize(pa)->0, parse_usize(pb)->0))
            } else {
                LanReferenceV::Text(b)
            };
            Some(ConditionV { target, argn, neq })
        },
    }
}

/// Whether a condition segment can be read: it is not empty, starts with an
/// ASCII character, and if it holds `=`, its numbers are well formed.
pub open spec fn condition_ok(seg: Seq<char>) -> bool {
    &&& seg.len() > 0
    &&& is_ascii_char(seg[0])
    &&& match split_once(seg.drop_first(), '=') {
        None => true,
        Some((a, b)) => {
            let neq = a.len() > 0 && a.last() == '!';
            let num = if neq {
                a.drop_last()
            } else {
                a
            };
            &&& parse_usize(num) is Some
            &&& (b.len() > 0 && b[0] == ':') ==> parse_usize(b.drop_first()) is Some
            &&& (b.len() > 0 && b[0] == '@') ==> match split_once(b.drop_first(), ':') {
                None => false,
                Some((pa, pb)) => parse_usize(pa) is Some && parse_usize(pb) is Some,
            }
        },
    }
}

/// The conditions read from a sequence of segments.
pub open spec fn conditions_of(segs: Seq<Seq<char>>) -> Seq<ConditionV>
    decreases segs.len(),
{
    if segs.len() == 0 {
        Seq::empty()
    } else {
        let rest = conditions_of(segs.drop_last());
        match parse_condition(segs.last()) {
            Some(c) => rest.push(c),
            None => rest,
        }
    }
}

/// The conditions of a `&`-separated condition text.
pub open spec fn spec_conditions(c: Seq<char>) -> Seq<ConditionV> {
    conditions_of(split_on(c, '&'))
}

/// Whether every segment of a condition text can be read.
pub open spec fn conditions_ok(c: Seq<char>) -> bool {
    forall|i: int| 0 <= i < split_on(c, '&').len() ==> condition_ok(#[trigger] split_on(c, '&')[i])
}

fn read_condition(seg: &[char]) -> (r: Option<ShortWordPartCondition>)
    requires
        condition_ok(seg@),
    ensures
        match r {
            Some(x) => parse_condition(seg@) == Some(x.deep_view()),
            None => parse_condition(seg@) is None,
        },
{
    let body = &seg[1..seg.len()];
    assert(body@ == seg@.drop_first());
    match split_once_char(body, '=') {
        None => None,
        Some((a, b)) => {
            let neq = a.len() > 0 && a[a.len() - 1] == '!';
            let argn_r = if neq {
                to_usize(&a.as_slice()[0..a.len() - 1])
            } else {
                to_usize(a.as_slice())
            };
            assert(neq ==> a@.subrange(0, a@.len() - 1) == a@.drop_last());
            let argn = match argn_r {
                Some(n) => n,
                None => 0,
            };
            let target = if b.len() > 0 && b[0] == ':' {
                let rest = &b.as_slice()[1..b.len()];
                assert(rest@ == b@.drop_first());
                LanReference::PartParam(
                    match to_usize(rest) {
                        Some(n) => n,
                        None => 0,
                    },
                )
            } else if b.len() > 0 && b[0] == '@' {
                let rest = &b.as_slice()[1..b.len()];
                assert(rest@ == b@.drop_first());
                match split_once_char(rest, ':') {
                    Some((pa, pb)) => {
                        let x = match to_usize(pa.as_slice()) {
                            Some(n) => n,
                            None => 0,
                        };
                        let y = match to_usize(pb.as_slice()) {
                            Some(n) => n,
                            None => 0,
                        };
                        LanReference::PartAttr((x, y))
                    },
                    None => LanReference::PartAttr((0, 0)),
                }
            } else {
                LanReference::Text(string_from(b.as_slice()))
            };
            Some(ShortWordPartCondition { target, argn, neq })
        },
    }
}

impl ShortWordPart {
    /// A dictionary category with the conditions of `c`, a text of
    /// `&`-separated condition segments.
    pub fn from_conditional(p: &str, c: &str) -> (r: ShortWordPart)
        requires
            conditions_ok(c@),
        ensures
            r.deep_view() == (ShortWordPartV { condition: spec_conditions(c@), part_name: p@ }),
    {
        let cs = chars_of(c);
        let segs = split_char(cs.as_slice(), '&');
        let mut condvec: Vec<ShortWordPartCondition> = Vec::new();
        let mut i: usize = 0;
        while i < segs.len()
            invariant
                cs@ == c@,
                views(segs@) == split_on(c@, '&'),
                conditions_ok(c@),
                i <= segs.len(),
                condvec.deep_view() == conditions_of(views(segs@).take(i as int)),
            decreases segs.len() - i,
        {
            assert(views(segs@)[i as int] == segs@[i as int]@);
            assert(condition_ok(split_on(c@, '&')[i as int]));
            let cond = read_condition(segs[i].as_slice());
            assert(views(segs@).take(i + 1).drop_last() == views(segs@).take(i as int));
            assert(views(segs@).take(i + 1).last() == segs@[i as int]@);
            match cond {
                Some(x) => {
                    let ghost before = condvec.deep_view();
                    condvec.push(x);
                    assert(condvec.deep_view() == before.push(x.deep_view()));
                },
                None => {},
            }
            i = i + 1;
        }
        assert(views(segs@).take(i as int) == views(segs@));
        ShortWordPart { condition: condvec, part_name: p.to_owned() }
    }

    /// A dictionary category without conditions.
    pub fn from(p: &str) -> (r: ShortWordPart)
        ensures
            r.deep_view() == (ShortWordPartV { condition: Seq::empty(), part_name: p@ }),
    {
        let r = ShortWordPart { condition: Vec::new(), part_name: p.to_owned() };
        assert(r.condition.deep_view() == Seq::<ConditionV>::empty());
        r
    }
}

impl TemplateNodeGen<Templates> {
    /// A plain node.
    pub fn from(t: Templates) -> (r: TemplateNode)
        ensures
            r.deep_view() == (TemplateNodeV {
                condition: None,
                is_optional: false,
                is_free: false,
                template: t.deep_view(),
            }),
    {
        TemplateNodeGen { is_optional: false, condition: None, is_free: false, template: t }
    }

    /// A node that may repeat.
    pub fn from_free(t: Templates) -> (r: TemplateNode)
        ensures
            r.deep_view() == (TemplateNodeV {
                condition: None,
                is_optional: false,
                is_free: true,
                template: t.deep_view(),
            }),
    {
        TemplateNodeGen { is_optional: false, condition: None, is_free: true, template: t }
    }

    /// A node that may be left out.
    pub fn from_opt(t: Templates) -> (r: TemplateNode)
        ensures
            r.deep_view() == (TemplateNodeV {
                condition: None,
                is_optional: true,
                is_free: false,
                template: t.deep_view(),
            }),
    {
        TemplateNodeGen { is_optional: true, condition: None, is_free: false, template: t }
    }

    /// A node that applies only when the condition `c` on the part's parameters holds.
    pub fn from_conditional(t: Templates, c: &str) -> (r: TemplateNode)
        ensures
            r.deep_view() == (TemplateNodeV {
                condition: Some(c@),
                is_optional: false,
                is_free: false,
                template: t.deep_view(),
            }),
    {
        TemplateNodeGen {
            is_optional: false,
            condition: Some(c.to_owned()),
            is_free: false,
            template: t,
        }
    }
}

} // verus!

verus! {

// ---------------------------------------------------------------------------
// Text form of template nodes (`{:?}` notation of the derived formats)

/// `true` or `false`.
pub open spec fn bool_text(b: bool) -> Seq<char> {
    if b {
        "true"@
    } else {
        "false"@
    }
}

/// What `{:?}` writes for a condition target.
pub open spec fn debug_reference(r: LanReferenceV) -> Seq<char> {
    match r {
        LanReferenceV::PartAttr((a, b)) => "PartAttr(("@ + decimal(a as nat) + ", "@ + decimal(
            b as nat,
        ) + "))"@,
        LanReferenceV::PartParam(i) => "PartParam("@ + decimal(i as nat) + ")"@,
        LanReferenceV::Text(t) => "Text("@ + debug_text(t) + ")"@,
    }
}

/// What `{:?}` writes for a condition.
pub open spec fn debug_condition(c: ConditionV) -> Seq<char> {
    "ShortWordPartCondition { target: "@ + debug_reference(c.target) + ", argn: "@ + decimal(
        c.argn as nat,
    ) + ", neq: "@ + bool_text(c.neq) + " }"@
}

/// What `{:?}` writes for a list whose items write as `items`.
pub open spec fn debug_list(items: Seq<Seq<char>>) -> Seq<char> {
    "["@ + join(items, ", "@) + "]"@
}

/// The text of a template node: `%name` embeds as `name`, a category as
/// `*name[conditions]`, a part reference as `$name` or `$name[args]`, and a
/// literal as `text-name`.
pub open spec fn node_text(n: TemplateNodeV) -> Seq<char> {
    match n.template {
        TemplatesV::Embed(e) => e,
        TemplatesV::ShortPart(s) => "*"@ + s.part_name + debug_list(
            s.condition.map_values(|c: ConditionV| debug_condition(c)),
        ),
        TemplatesV::Template(t) => if t.args.len() > 0 {
            "$"@ + t.name + debug_list(t.args.map_values(|a: Seq<char>| debug_text(a)))
        } else {
            "$"@ + t.name
        },
        TemplatesV::Text(t) => t.text + "-"@ + t.name,
    }
}

fn push_bool(out: &mut Vec<char>, b: bool)
    ensures
        final(out)@ == old(out)@ + bool_text(b),
{
    if b {
        push_str(out, "true");
    } else {
        push_str(out, "false");
    }
}

fn debug_reference_of(r: &LanReference) -> (v: Vec<char>)
    ensures
        v@ == debug_reference(r.deep_view()),
{
    let mut out: Vec<char> = Vec::new();
    match r {
        LanReference::PartAttr((a, b)) => {
            push_str(&mut out, "PartAttr((");
            push_decimal(&mut out, *a);
            push_str(&mut out, ", ");
            push_decimal(&mut out, *b);
            push_str(&mut out, "))");
        },
        LanReference::PartParam(i) => {
            push_str(&mut out, "PartParam(");
            push_decimal(&mut out, *i);
            push_str(&mut out, ")");
        },
        LanReference::Text(t) => {
            push_str(&mut out, "Text(");
            let d = debug_str(t.as_str());
            push_str(&mut out, d.as_str());
            push_str(&mut out, ")");
        },
    }
    out
}

fn debug_condition_of(c: &ShortWordPartCondition) -> (v: Vec<char>)
    ensures
        v@ == debug_condition(c.deep_view()),
{
    let mut out: Vec<char> = Vec::new();
    push_str(&mut out, "ShortWordPartCondition { target: ");
    let t = debug_reference_of(&c.target);
    push_all(&mut out, t.as_slice());
    push_str(&mut out, ", argn: ");
    push_decimal(&mut out, c.argn);
    push_str(&mut out, ", neq: ");
    push_bool(&mut out, c.neq);
    push_str(&mut out, " }");
    out
}

fn debug_conditions_of(cs: &Vec<ShortWordPartCondition>) -> (v: Vec<char>)
    ensures
        v@ == debug_list(cs.deep_view().map_values(|c: ConditionV| debug_condition(c))),
{
    let mut items: Vec<Vec<char>> = Vec::new();
    let mut i: usize = 0;
    while i < cs.len()
        invariant
            i <= cs.len(),
            views(items@) == cs.deep_view().take(i as int).map_values(
                |c: ConditionV| debug_condition(c),
            ),
        decreases cs.len() - i,
    {
        let d = debug_condition_of(&cs[i]);
        let ghost before = views(items@);
        items.push(d);
        assert(views(items@) =~= before.push(d@));
        assert(cs.deep_view().take(i + 1) =~= cs.deep_view().take(i as int).push(
            cs@[i as int].deep_view(),
        ));
        assert(cs.deep_view().take(i + 1).map_values(|c: ConditionV| debug_condition(c))
            =~= cs.deep_view().take(i as int).map_values(|c: ConditionV| debug_condition(c)).push(
            debug_condition(cs@[i as int].deep_view()),
        ));
        i = i + 1;
    }
    assert(cs.deep_view().take(i as int) == cs.deep_view());
    let mut out: Vec<char> = Vec::new();
    push_str(&mut out, "[");
    push_joined(&mut out, &items, ", ");
    push_str(&mut out, "]");
    out
}

pub fn debug_texts_of(args: &Vec<String>) -> (v: Vec<char>)
    ensures
        v@ == debug_list(args.deep_view().map_values(|a: Seq<char>| debug_text(a))),
{
    let mut items: Vec<Vec<char>> = Vec::new();
    let mut i: usize = 0;
    while i < args.len()
        invariant
            i <= args.len(),
            views(items@) == args.deep_view().take(i as int).map_values(
                |a: Seq<char>| debug_text(a),
            ),
        decreases args.len() - i,
    {
        let d = debug_str(args[i].as_str());
        let dv = chars_of(d.as_str());
        let ghost before = views(items@);
        items.push(dv);
        assert(views(items@) =~= before.push(dv@));
        assert(args.deep_view().take(i + 1) =~= args.deep_view().take(i as int).push(
            args@[i as int]@,
        ));
        assert(args.deep_view().take(i + 1).map_values(|a: Seq<char>| debug_text(a))
            =~= args.deep_view().take(i as int).map_values(|a: Seq<char>| debug_text(a)).push(
            debug_text(args@[i as int]@),
        ));
        i = i + 1;
    }
    assert(args.deep_view().take(i as int) == args.deep_view());
    let mut out: Vec<char> = Vec::new();
    push_str(&mut out, "[");
    push_joined(&mut out, &items, ", ");
    push_str(&mut out, "]");
    out
}

/// The text of a node, as characters.
pub fn node_chars(n: &TemplateNode) -> (v: Vec<char>)
    ensures
        v@ == node_text(n.deep_view()),
{
    let mut out: Vec<char> = Vec::new();
    match &n.template {
        Templates::Embed(e) => {
            push_str(&mut out, e.as_str());
        },
        Templates::ShortPart(s) => {
            push_str(&mut out, "*");
            push_str(&mut out, s.part_name.as_str());
            let d = debug_conditions_of(&s.condition);
            push_all(&mut out, d.as_slice());
        },
        Templates::Template(t) => {
            push_str(&mut out, "$");
            push_str(&mut out, t.name.as_str());
            if t.args.len() > 0 {
                let d = debug_texts_of(&t.args);
                push_all(&mut out, d.as_slice());
            }
        },
        Templates::Text(t) => {
            push_all(&mut out, t.text.as_slice());
            push_str(&mut out, "-");
            push_str(&mut out, t.name.as_str());
        },
    }
    out
}

/// How a part reference is written for inspection: its name, then its
/// arguments comma-separated in round brackets.
pub open spec fn paramed_text(p: ParamedPartV) -> Seq<char> {
    p.name + "("@ + join(p.args, ", "@) + ")"@
}

/// How a category node is written for inspection: its name, then its
/// conditions in `{:?}` notation.
pub open spec fn short_part_text(s: ShortWordPartV) -> Seq<char> {
    s.part_name + debug_list(s.condition.map_values(|c: ConditionV| debug_condition(c)))
}

impl ParamedPart {
    /// The reference as it is written for inspection (see [`paramed_text`]).
    pub fn to_debug_string(&self) -> (r: String)
        ensures
            r@ == paramed_text(self.deep_view()),
    {
        let mut items: Vec<Vec<char>> = Vec::new();
        let mut i: usize = 0;
        while i < self.args.len()
            invariant
                i <= self.args.len(),
                views(items@) == self.args.deep_view().take(i as int),
            decreases self.args.len() - i,
        {
            let a = chars_of(self.args[i].as_str());
            let ghost before = views(items@);
            items.push(a);
            assert(views(items@) =~= before.push(a@));
            assert(self.args.deep_view().take(i + 1) =~= self.args.deep_view().take(i as int).push(
                self.args@[i as int]@,
            ));
            i = i + 1;
        }
        assert(self.args.deep_view().take(i as int) == self.args.deep_view());
        let mut out: Vec<char> = Vec::new();
        push_str(&mut out, self.name.as_str());
        push_str(&mut out, "(");
        push_joined(&mut out, &items, ", ");
        push_str(&mut out, ")");
        string_from(out.as_slice())
    }
}

impl ShortWordPart {
    /// The category as it is written for inspection (see [`short_part_text`]).
    pub fn to_debug_string(&self) -> (r: String)
        ensures
            r@ == short_part_text(self.deep_view()),
    {
        let mut out: Vec<char> = Vec::new();
        push_str(&mut out, self.part_name.as_str());
        let d = debug_conditions_of(&self.condition);
        push_all(&mut out, d.as_slice());
        string_from(out.as_slice())
    }
}

impl TemplateNodeGen<Templates> {
    /// The text of the node (see [`node_text`]).
    pub fn to_string(&self) -> (r: String)
        ensures
            r@ == node_text(self.deep_view()),
    {
        let v = node_chars(self);
        string_from(v.as_slice())
    }
}

} // verus!

verus! {

// ---------------------------------------------------------------------------
// Copies

/// A copy of a list of strings.
pub fn copy_strings(v: &Vec<String>) -> (r: Vec<String>)
    ensures
        r.deep_view() == v.deep_view(),
{
    let mut r: Vec<String> = Vec::new();
    let mut i: usize = 0;
    while i < v.len()
        invariant
            i <= v.len(),
            r.deep_view() == v.deep_view().take(i as int),
        decreases v.len() - i,
    {
        let ghost before = r.deep_view();
        r.push(v[i].clone());
        assert(r.deep_view() =~= before.push(v@[i as int]@));
        assert(v.deep_view().take(i + 1) =~= v.deep_view().take(i as int).push(v@[i as int]@));
        i = i + 1;
    }
    assert(v.deep_view().take(i as int) =~= v.deep_view());
    r
}

fn copy_chars(v: &Vec<char>) -> (r: Vec<char>)
    ensures
        r@ == v@,
{
    crate::text::to_vec(v.as_slice())
}

fn copy_condition(c: &ShortWordPartCondition) -> (r: ShortWordPartCondition)
    ensures
        r.deep_view() == c.deep_view(),
{
    let target = match &c.target {
        LanReference::PartAttr((a, b)) => LanReference::PartAttr((*a, *b)),
        LanReference::PartParam(i) => LanReference::PartParam(*i),
        LanReference::Text(t) => LanReference::Text(t.clone()),
    };
    ShortWordPartCondition { target, argn: c.argn, neq: c.neq }
}

fn copy_short_part(p: &ShortWordPart) -> (r: ShortWordPart)
    ensures
        r.deep_view() == p.deep_view(),
{
    let mut cs: Vec<ShortWordPartCondition> = Vec::new();
    let mut i: usize = 0;
    while i < p.condition.len()
        invariant
            i <= p.condition.len(),
            cs.deep_view() == p.condition.deep_view().take(i as int),
        decreases p.condition.len() - i,
    {
        let c = copy_condition(&p.condition[i]);
        let ghost before = cs.deep_view();
        cs.push(c);
        assert(cs.deep_view() =~= before.push(c.deep_view()));
        assert(p.condition.deep_view().take(i + 1) =~= p.condition.deep_view().take(i as int).push(
            p.condition@[i as int].deep_view(),
        ));
        i = i + 1;
    }
    assert(p.condition.deep_view().take(i as int) =~= p.condition.deep_view());
    ShortWordPart { condition: cs, part_name: p.part_name.clone() }
}

/// A copy of a template.
pub fn copy_templates(t: &Templates) -> (r: Templates)
    ensures
        r.deep_view() == t.deep_view(),
{
    match t {
        Templates::Embed(e) => Templates::Embed(e.clone()),
        Templates::Text(x) => Templates::Text(
            SignText { text: copy_chars(&x.text), name: x.name.clone() },
        ),
        Templates::ShortPart(p) => Templates::ShortPart(copy_short_part(p)),
        Templates::Template(p) => Templates::Template(
            ParamedPart { name: p.name.clone(), args: copy_strings(&p.args) },
        ),
    }
}

/// A copy of a template node.
pub fn copy_node_tn(n: &TemplateNode) -> (r: TemplateNode)
    ensures
        r.deep_view() == n.deep_view(),
{
    TemplateNodeGen {
        condition: match &n.condition {
            Some(c) => Some(c.clone()),
            None => None,
        },
        is_optional: n.is_optional,
        is_free: n.is_free,
        template: copy_templates(&n.template),
    }
}

} // verus!
