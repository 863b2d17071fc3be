//! Concrete parts: the rules of a part for given parameter values, with
//! conditions decided, aliases expanded and parameters filled in.
use vstd::prelude::*;
use crate::text::{
    chars_of, string_from, split_once, split_once_char, parse_usize, to_usize, push_str, push_all,
    debug_text,
};
use crate::table::{Table, str_equal};
use crate::lan::dictionary::item_or_zero;
use crate::lan::lanparser::declaration::{
    PhraseContext, PhraseIfV, PhraseRules, PhraseRulesV, Rule, RuleV,
    TemplateNode, TemplateNodeV, TemplateNodeGen, TemplateNodeGenV, Templates, TemplatesV,
    ParamedPart, ParamedPartV, is_ascii_char, phrase_rules_seq_view, phrase_rules_view,
    lemma_phrase_rules_index, debug_list, debug_texts_of, copy_node_tn,
};
use crate::lanparser::LanRules;

verus! {

/// A rule of a concrete part.
pub type ConcreteRules = Rule;

/// A part with its rules made concrete for given parameter values; `id` names
/// the part and the values.
pub struct ConcretePart<'p> {
    pub rules: Vec<ConcreteRules>,
    pub part: &'p PhraseContext,
    pub id: String,
    pub args: Vec<String>,
}

/// The parameter position of a condition's left side (`:n`); `None` when it
/// cannot be read.
pub open spec fn param_index(param: Seq<char>) -> Option<usize> {
    if param.len() > 0 && is_ascii_char(param[0]) {
        parse_usize(param.drop_first())
    } else {
        None
    }
}

/// Whether a node's condition holds for the parameter values: `:n=v` when
/// parameter `n` (or `0` if there is none) is `v`, `:n~v` when it is not;
/// `None` when the condition cannot be read.
pub open spec fn condition_holds(cond: Seq<char>, args: Seq<Seq<char>>) -> Option<bool> {
    match split_once(cond, '=') {
        Some((param, value)) => match param_index(param) {
            Some(idx) => Some(item_or_zero(args, idx as int) == value),
            None => None,
        },
        None => match split_once(cond, '~') {
            Some((param, value)) => match param_index(param) {
                Some(idx) => Some(item_or_zero(args, idx as int) != value),
                None => None,
            },
            None => None,
        },
    }
}

/// A part argument with parameters filled in: `:n` becomes parameter `n` (or
/// `0`); anything else stays. `None` when `:n` cannot be read.
pub open spec fn concrete_arg(x: Seq<char>, args: Seq<Seq<char>>) -> Option<Seq<char>> {
    if x.len() > 0 && x[0] == ':' {
        match parse_usize(x.drop_first()) {
            Some(idx) => Some(item_or_zero(args, idx as int)),
            None => None,
        }
    } else {
        Some(x)
    }
}

/// All arguments filled in.
pub open spec fn concrete_args(xs: Seq<Seq<char>>, args: Seq<Seq<char>>) -> Option<Seq<Seq<char>>>
    decreases xs.len(),
{
    if xs.len() == 0 {
        Some(Seq::empty())
    } else {
        match concrete_args(xs.drop_last(), args) {
            None => None,
            Some(a) => match concrete_arg(xs.last(), args) {
                None => None,
                Some(b) => Some(a.push(b)),
            },
        }
    }
}

/// What one node of a rule becomes: nothing if its condition fails; the nodes of
/// the alias it embeds; a part reference with parameters filled in; or itself.
/// `None` when a condition or argument cannot be read or an alias is unknown.
pub open spec fn node_out(r: TemplateNodeV, args: Seq<Seq<char>>, vals: Map<Seq<char>, RuleV>) -> Option<
    Seq<TemplateNodeV>,
> {
    let qualified = match r.condition {
        Some(c) => condition_holds(c, args),
        None => Some(true),
    };
    match qualified {
        None => None,
        Some(false) => Some(Seq::empty()),
        Some(true) => match r.template {
            TemplatesV::Embed(k) => if vals.contains_key(k) {
                Some(vals[k].rules)
            } else {
                None
            },
            TemplatesV::Template(n) => match concrete_args(n.args, args) {
                None => None,
                Some(ca) => Some(
                    seq![
                        TemplateNodeGenV {
                            template: TemplatesV::Template(ParamedPartV { name: n.name, args: ca }),
                            ..r
                        },
                    ],
                ),
            },
            _ => Some(seq![r]),
        },
    }
}

/// The nodes a rule becomes, in order (see [`node_out`]).
pub open spec fn spec_argrules(nodes: Seq<TemplateNodeV>, args: Seq<Seq<char>>, vals: Map<Seq<char>, RuleV>) -> Option<
    Seq<TemplateNodeV>,
>
    decreases nodes.len(),
{
    if nodes.len() == 0 {
        Some(Seq::empty())
    } else {
        match spec_argrules(nodes.drop_last(), args, vals) {
            None => None,
            Some(a) => match node_out(nodes.last(), args, vals) {
                None => None,
                Some(b) => Some(a + b),
            },
        }
    }
}

/// What the lines of a part give, in order: a `RULE` gives its concrete rule; a
/// `SET` records its concrete nodes as an alias for the lines after it; an
/// `IF`/`UNLESS` block gives what its own lines give when parameter `n` (or `0`)
/// equals (or differs from) its value, and nothing otherwise. Returns the rules
/// and the aliases after the lines; `None` when a node cannot be made concrete.
pub open spec fn gain_seq(cs: Seq<PhraseRulesV>, args: Seq<Seq<char>>, vals: Map<Seq<char>, RuleV>) -> Option<
    (Seq<RuleV>, Map<Seq<char>, RuleV>),
>
    decreases cs,
{
    if cs.len() == 0 {
        Some((Seq::empty(), vals))
    } else {
        match gain_one(cs[0], args, vals) {
            None => None,
            Some((r1, v1)) => match gain_seq(cs.subrange(1, cs.len() as int), args, v1) {
                None => None,
                Some((r2, v2)) => Some((r1 + r2, v2)),
            },
        }
    }
}

/// A `SET` line makes its concrete nodes the alias of its name for the lines
/// after it, whatever the aliases in effect before it (so a later `SET` of a
/// name replaces an earlier one); the other aliases stay as they were, and the
/// line gives no rule.
pub proof fn lemma_set_replaces_alias(
    r: RuleV,
    rest: Seq<PhraseRulesV>,
    args: Seq<Seq<char>>,
    vals: Map<Seq<char>, RuleV>,
)
    requires
        spec_argrules(r.rules, args, vals) is Some,
    ensures
        exists|v: Map<Seq<char>, RuleV>|
            {
                &&& #[trigger] v.contains_key(r.name)
                &&& v[r.name].rules == spec_argrules(r.rules, args, vals)->0
                &&& forall|k: Seq<char>|
                    k != r.name ==> (#[trigger] v.contains_key(k) == vals.contains_key(k)) && (
                    vals.contains_key(k) ==> v[k] == vals[k])
                &&& gain_seq(seq![PhraseRulesV::SetVariable(r)] + rest, args, vals) == gain_seq(
                    rest,
                    args,
                    v,
                )
            },
{
    let n = spec_argrules(r.rules, args, vals)->0;
    let v = vals.insert(r.name, RuleV { rules: n, name: Seq::empty() });
    let cs = seq![PhraseRulesV::SetVariable(r)] + rest;
    assert(cs[0] == PhraseRulesV::SetVariable(r));
    assert(cs.subrange(1, cs.len() as int) =~= rest);
    assert(cs.len() > 0);
    assert(gain_one(cs[0], args, vals) == Some((Seq::<RuleV>::empty(), v)));
    match gain_seq(rest, args, v) {
        Some((r2, v2)) => {
            assert(Seq::<RuleV>::empty() + r2 =~= r2);
            assert(gain_seq(cs, args, vals) == Some((Seq::<RuleV>::empty() + r2, v2)));
        },
        None => {
            assert(gain_seq(cs, args, vals) is None);
        },
    }
    assert(gain_seq(cs, args, vals) == gain_seq(rest, args, v));
    assert(v.contains_key(r.name));
    assert(forall|k: Seq<char>|
        k != r.name ==> (#[trigger] v.contains_key(k) == vals.contains_key(k)) && (vals.contains_key(k)
            ==> v[k] == vals[k]));
}

/// Whether a conditional block applies to parameter values `args`: the
/// parameter (or `0`) is one of the block's values, for `IF`; it is none of
/// them, for `UNLESS`.
pub open spec fn if_active(i: PhraseIfV, args: Seq<Seq<char>>) -> bool {
    i.values.contains(item_or_zero(args, i.parameter as int)) != i.unless
}

/// Whether `a` is one of `vs`.
fn is_one_of(vs: &Vec<String>, a: &String) -> (r: bool)
    ensures
        r == vs.deep_view().contains(a@),
{
    let mut k: usize = 0;
    while k < vs.len()
        invariant
            k <= vs.len(),
            forall|j: int| 0 <= j < k ==> vs.deep_view()[j] != a@,
        decreases vs.len() - k,
    {
        if str_equal(vs[k].as_str(), a.as_str()) {
            assert(vs.deep_view()[k as int] == a@);
            return true;
        }
        k = k + 1;
    }
    false
}

/// What one line of a part gives (see [`gain_seq`]).
pub open spec fn gain_one(c: PhraseRulesV, args: Seq<Seq<char>>, vals: Map<Seq<char>, RuleV>) -> Option<
    (Seq<RuleV>, Map<Seq<char>, RuleV>),
>
    decreases c,
{
    match c {
        PhraseRulesV::Rules(r) => match spec_argrules(r.rules, args, vals) {
            None => None,
            Some(n) => Some((seq![RuleV { rules: n, name: r.name }], vals)),
        },
        PhraseRulesV::SetVariable(r) => match spec_argrules(r.rules, args, vals) {
            None => None,
            Some(n) => Some((Seq::empty(), vals.insert(r.name, RuleV { rules: n, name: Seq::empty() }))),
        },
        PhraseRulesV::Ifs(i) => if if_active(i, args) {
            gain_seq(i.children, args, vals)
        } else {
            Some((Seq::empty(), vals))
        },
    }
}

/// The rules of a result of [`gain_seq`] (none for `None`).
pub open spec fn gained_rules(o: Option<(Seq<RuleV>, Map<Seq<char>, RuleV>)>) -> Seq<RuleV> {
    match o {
        Some((r, _)) => r,
        None => Seq::empty(),
    }
}

/// The aliases of a result of [`gain_seq`] (none for `None`).
pub open spec fn gained_aliases(o: Option<(Seq<RuleV>, Map<Seq<char>, RuleV>)>) -> Map<Seq<char>, RuleV> {
    match o {
        Some((_, v)) => v,
        None => Map::empty(),
    }
}

/// Whether a node is the literal with text `t` and name `n`.
pub open spec fn is_literal(x: TemplateNodeV, t: Seq<char>, n: Seq<char>) -> bool {
    x.template matches TemplatesV::Text(st) && st.text == t && st.name == n
}

/// The literals (text and name) among `nodes`, in order.
pub open spec fn node_literals(nodes: Seq<TemplateNodeV>) -> Seq<(Seq<char>, Seq<char>)>
    decreases nodes.len(),
{
    if nodes.len() == 0 {
        Seq::empty()
    } else {
        node_literals(nodes.drop_last()) + match nodes.last().template {
            TemplatesV::Text(st) => seq![(st.text, st.name)],
            _ => Seq::empty(),
        }
    }
}

/// The literals of the lines `cs`: of their rules and aliases, and of their
/// conditional blocks at any depth.
pub open spec fn lines_literals(cs: Seq<PhraseRulesV>) -> Seq<(Seq<char>, Seq<char>)>
    decreases cs,
{
    if cs.len() == 0 {
        Seq::empty()
    } else {
        lines_literals(cs.subrange(0, cs.len() - 1)) + line_literals(cs[cs.len() - 1])
    }
}

/// The literals of one line (see [`lines_literals`]).
pub open spec fn line_literals(c: PhraseRulesV) -> Seq<(Seq<char>, Seq<char>)>
    decreases c,
{
    match c {
        PhraseRulesV::Rules(r) => node_literals(r.rules),
        PhraseRulesV::SetVariable(r) => node_literals(r.rules),
        PhraseRulesV::Ifs(i) => lines_literals(i.children),
    }
}

/// Whether the literal `t`-`n` stands in one of the lines `cs`.
pub open spec fn lines_have_literal(cs: Seq<PhraseRulesV>, t: Seq<char>, n: Seq<char>) -> bool {
    lines_literals(cs).contains((t, n))
}

/// Whether the literal `t`-`n` stands in the line `c`.
pub open spec fn line_has_literal(c: PhraseRulesV, t: Seq<char>, n: Seq<char>) -> bool {
    line_literals(c).contains((t, n))
}

/// A literal node is among the literals of the nodes.
proof fn lemma_node_literals_intro(nodes: Seq<TemplateNodeV>, j: int, t: Seq<char>, n: Seq<char>)
    requires
        0 <= j < nodes.len(),
        is_literal(nodes[j], t, n),
    ensures
        node_literals(nodes).contains((t, n)),
    decreases nodes.len(),
{
    let init = nodes.drop_last();
    let tail = match nodes.last().template {
        TemplatesV::Text(st) => seq![(st.text, st.name)],
        _ => Seq::empty(),
    };
    assert(node_literals(nodes) == node_literals(init) + tail);
    if j == nodes.len() - 1 {
        assert(tail[0] == (t, n));
        assert((node_literals(init) + tail)[node_literals(init).len() as int] == (t, n));
    } else {
        assert(init[j] == nodes[j]);
        lemma_node_literals_intro(init, j, t, n);
        let k = choose|k: int| 0 <= k < node_literals(init).len() && node_literals(init)[k] == (t, n);
        assert((node_literals(init) + tail)[k] == (t, n));
    }
}

/// A literal held by one of the lines is held by the lines.
proof fn lemma_lines_have_intro(cs: Seq<PhraseRulesV>, i: int, t: Seq<char>, n: Seq<char>)
    requires
        0 <= i < cs.len(),
        line_has_literal(cs[i], t, n),
    ensures
        lines_have_literal(cs, t, n),
    decreases cs.len(),
{
    let init = cs.subrange(0, cs.len() - 1);
    let a = lines_literals(init);
    let b = line_literals(cs[cs.len() - 1]);
    assert(lines_literals(cs) == a + b);
    if i == cs.len() - 1 {
        let k = choose|k: int| 0 <= k < b.len() && b[k] == (t, n);
        assert((a + b)[a.len() + k] == (t, n));
    } else {
        assert(init[i] == cs[i]);
        lemma_lines_have_intro(init, i, t, n);
        let k = choose|k: int| 0 <= k < a.len() && a[k] == (t, n);
        assert((a + b)[k] == (t, n));
    }
}

/// A literal held by the lines is held by one of them.
proof fn lemma_lines_have_elim(cs: Seq<PhraseRulesV>, t: Seq<char>, n: Seq<char>) -> (i: int)
    requires
        lines_have_literal(cs, t, n),
    ensures
        0 <= i < cs.len(),
        line_has_literal(cs[i], t, n),
    decreases cs.len(),
{
    if cs.len() == 0 {
        assert(lines_literals(cs) == Seq::<(Seq<char>, Seq<char>)>::empty());
        0
    } else {
        let init = cs.subrange(0, cs.len() - 1);
        let a = lines_literals(init);
        let b = line_literals(cs[cs.len() - 1]);
        assert(lines_literals(cs) == a + b);
        let k = choose|k: int| 0 <= k < (a + b).len() && (a + b)[k] == (t, n);
        if k < a.len() {
            assert(a[k] == (t, n));
            let i = lemma_lines_have_elim(init, t, n);
            assert(init[i] == cs[i]);
            i
        } else {
            assert(b[k - a.len()] == (t, n));
            cs.len() - 1
        }
    }
}

/// Whether a node, if it is a literal, is one that the lines `cs` hold.
pub open spec fn literal_within(x: TemplateNodeV, cs: Seq<PhraseRulesV>) -> bool {
    x.template matches TemplatesV::Text(st) ==> lines_have_literal(cs, st.text, st.name)
}

/// Whether every literal among `nodes` is one that the lines `cs` hold.
pub open spec fn literals_within(nodes: Seq<TemplateNodeV>, cs: Seq<PhraseRulesV>) -> bool {
    forall|j: int| 0 <= j < nodes.len() ==> #[trigger] literal_within(nodes[j], cs)
}

/// Whether every literal of the aliases `vals` is one that the lines `cs` hold.
pub open spec fn aliases_within(vals: Map<Seq<char>, RuleV>, cs: Seq<PhraseRulesV>) -> bool {
    forall|k: Seq<char>| #[trigger] vals.contains_key(k) ==> literals_within(vals[k].rules, cs)
}

/// Whether the literals of the lines `c` are all held by the lines `cs`.
pub open spec fn lines_in(c: Seq<PhraseRulesV>, cs: Seq<PhraseRulesV>) -> bool {
    forall|t: Seq<char>, n: Seq<char>| #[trigger] lines_have_literal(c, t, n) ==> lines_have_literal(cs, t, n)
}

/// What one node becomes keeps its literals within the lines.
proof fn lemma_node_out_within(
    r: TemplateNodeV,
    args: Seq<Seq<char>>,
    vals: Map<Seq<char>, RuleV>,
    cs: Seq<PhraseRulesV>,
)
    requires
        literal_within(r, cs),
        aliases_within(vals, cs),
        node_out(r, args, vals) is Some,
    ensures
        literals_within(node_out(r, args, vals)->0, cs),
{
    let out = node_out(r, args, vals)->0;
    let qualified = match r.condition {
        Some(c) => condition_holds(c, args),
        None => Some(true),
    };
    if qualified == Some(true) {
        match r.template {
            TemplatesV::Embed(k) => {
                assert(vals.contains_key(k));
            },
            TemplatesV::Template(nm) => {
                assert forall|j: int| 0 <= j < out.len() implies #[trigger] literal_within(out[j], cs) by {
                    assert(j == 0);
                }
            },
            _ => {
                assert forall|j: int| 0 <= j < out.len() implies #[trigger] literal_within(out[j], cs) by {
                    assert(out[j] == r);
                }
            },
        }
    }
}

/// The nodes a rule becomes keep their literals within the lines.
proof fn lemma_argrules_within(
    nodes: Seq<TemplateNodeV>,
    args: Seq<Seq<char>>,
    vals: Map<Seq<char>, RuleV>,
    cs: Seq<PhraseRulesV>,
)
    requires
        literals_within(nodes, cs),
        aliases_within(vals, cs),
        spec_argrules(nodes, args, vals) is Some,
    ensures
        literals_within(spec_argrules(nodes, args, vals)->0, cs),
    decreases nodes.len(),
{
    if nodes.len() > 0 {
        let init = nodes.drop_last();
        assert(literals_within(init, cs)) by {
            assert forall|j: int| 0 <= j < init.len() implies #[trigger] literal_within(init[j], cs) by {
                assert(init[j] == nodes[j]);
            }
        }
        lemma_argrules_within(init, args, vals, cs);
        assert(literal_within(nodes[nodes.len() - 1], cs));
        lemma_node_out_within(nodes.last(), args, vals, cs);
        let a = spec_argrules(init, args, vals)->0;
        let b = node_out(nodes.last(), args, vals)->0;
        assert forall|j: int| 0 <= j < (a + b).len() implies #[trigger] literal_within((a + b)[j], cs) by {
            if j < a.len() {
                assert((a + b)[j] == a[j]);
            } else {
                assert((a + b)[j] == b[j - a.len()]);
            }
        }
    }
}

/// The literals of a rule's nodes are held by a line that holds the rule.
proof fn lemma_rule_within(r: RuleV, c: PhraseRulesV, cs: Seq<PhraseRulesV>)
    requires
        c == PhraseRulesV::Rules(r) || c == PhraseRulesV::SetVariable(r),
        lines_in(seq![c], cs),
    ensures
        literals_within(r.rules, cs),
{
    assert forall|j: int| 0 <= j < r.rules.len() implies #[trigger] literal_within(r.rules[j], cs) by {
        match r.rules[j].template {
            TemplatesV::Text(st) => {
                assert(is_literal(r.rules[j], st.text, st.name));
                lemma_node_literals_intro(r.rules, j, st.text, st.name);
                assert(line_literals(c) == node_literals(r.rules));
                assert(seq![c][0] == c);
                lemma_lines_have_intro(seq![c], 0, st.text, st.name);
            },
            _ => {},
        }
    }
}

/// What the lines of a part give keeps its literals within the part's lines.
proof fn lemma_gain_within(
    c: Seq<PhraseRulesV>,
    args: Seq<Seq<char>>,
    vals: Map<Seq<char>, RuleV>,
    cs: Seq<PhraseRulesV>,
)
    requires
        lines_in(c, cs),
        aliases_within(vals, cs),
        gain_seq(c, args, vals) is Some,
    ensures
        aliases_within(gained_aliases(gain_seq(c, args, vals)), cs),
        forall|k: int|
            0 <= k < gained_rules(gain_seq(c, args, vals)).len() ==> literals_within(
                #[trigger] gained_rules(gain_seq(c, args, vals))[k].rules,
                cs,
            ),
    decreases c, 1int,
{
    if c.len() > 0 {
        let first = c[0];
        let rest = c.subrange(1, c.len() as int);
        assert(lines_in(seq![first], cs)) by {
            assert forall|t: Seq<char>, n: Seq<char>| #[trigger] lines_have_literal(seq![first], t, n)
                implies lines_have_literal(cs, t, n) by {
                let i = lemma_lines_have_elim(seq![first], t, n);
                assert(seq![first][i] == c[0]);
                lemma_lines_have_intro(c, 0, t, n);
            }
        }
        assert(lines_in(rest, cs)) by {
            assert forall|t: Seq<char>, n: Seq<char>| #[trigger] lines_have_literal(rest, t, n)
                implies lines_have_literal(cs, t, n) by {
                let i = lemma_lines_have_elim(rest, t, n);
                assert(rest[i] == c[i + 1]);
                lemma_lines_have_intro(c, i + 1, t, n);
            }
        }
        lemma_gain_one_within(first, args, vals, cs);
        let r1 = gained_rules(gain_one(first, args, vals));
        let v1 = gained_aliases(gain_one(first, args, vals));
        lemma_gain_within(rest, args, v1, cs);
        let r2 = gained_rules(gain_seq(rest, args, v1));
        assert forall|k: int| 0 <= k < (r1 + r2).len() implies literals_within(
            #[trigger] (r1 + r2)[k].rules,
            cs,
        ) by {
            if k < r1.len() {
                assert((r1 + r2)[k] == r1[k]);
            } else {
                assert((r1 + r2)[k] == r2[k - r1.len()]);
            }
        }
    }
}

/// What one line gives keeps its literals within the part's lines.
proof fn lemma_gain_one_within(
    c: PhraseRulesV,
    args: Seq<Seq<char>>,
    vals: Map<Seq<char>, RuleV>,
    cs: Seq<PhraseRulesV>,
)
    requires
        lines_in(seq![c], cs),
        aliases_within(vals, cs),
        gain_one(c, args, vals) is Some,
    ensures
        aliases_within(gained_aliases(gain_one(c, args, vals)), cs),
        forall|k: int|
            0 <= k < gained_rules(gain_one(c, args, vals)).len() ==> literals_within(
                #[trigger] gained_rules(gain_one(c, args, vals))[k].rules,
                cs,
            ),
    decreases c, 0int,
{
    match c {
        PhraseRulesV::Rules(r) => {
            lemma_rule_within(r, c, cs);
            lemma_argrules_within(r.rules, args, vals, cs);
        },
        PhraseRulesV::SetVariable(r) => {
            lemma_rule_within(r, c, cs);
            lemma_argrules_within(r.rules, args, vals, cs);
            let n = spec_argrules(r.rules, args, vals)->0;
            let v2 = vals.insert(r.name, RuleV { rules: n, name: Seq::empty() });
            assert forall|k: Seq<char>| #[trigger] v2.contains_key(k) implies literals_within(v2[k].rules, cs) by {
                if k != r.name {
                    assert(vals.contains_key(k));
                }
            }
        },
        PhraseRulesV::Ifs(i) => {
            assert(lines_in(i.children, cs)) by {
                assert forall|t: Seq<char>, n: Seq<char>| #[trigger] lines_have_literal(i.children, t, n)
                    implies lines_have_literal(cs, t, n) by {
                    assert(line_has_literal(c, t, n));
                    assert(seq![c][0] == c);
                    lemma_lines_have_intro(seq![c], 0, t, n);
                }
            }
            if if_active(i, args) {
                lemma_gain_within(i.children, args, vals, cs);
            }
        },
    }
}

/// The rules of a part made concrete hold only literals of the part's lines.
pub proof fn lemma_build_within(cs: Seq<PhraseRulesV>, args: Seq<Seq<char>>)
    requires
        gain_seq(cs, args, Map::empty()) is Some,
    ensures
        forall|k: int|
            0 <= k < gained_rules(gain_seq(cs, args, Map::empty())).len() ==> literals_within(
                #[trigger] gained_rules(gain_seq(cs, args, Map::empty()))[k].rules,
                cs,
            ),
{
    lemma_gain_within(cs, args, Map::empty(), cs);
}

/// The names of the rules of the lines `cs`, including those in conditional
/// blocks at any depth.
pub open spec fn lines_rule_names(cs: Seq<PhraseRulesV>) -> Seq<Seq<char>>
    decreases cs,
{
    if cs.len() == 0 {
        Seq::empty()
    } else {
        lines_rule_names(cs.subrange(0, cs.len() - 1)) + line_rule_names(cs[cs.len() - 1])
    }
}

/// The names of the rules of one line (see [`lines_rule_names`]).
pub open spec fn line_rule_names(c: PhraseRulesV) -> Seq<Seq<char>>
    decreases c,
{
    match c {
        PhraseRulesV::Rules(r) => seq![r.name],
        PhraseRulesV::SetVariable(r) => Seq::empty(),
        PhraseRulesV::Ifs(i) => lines_rule_names(i.children),
    }
}

/// A rule name of one of the lines is a rule name of the lines.
proof fn lemma_rule_names_intro(cs: Seq<PhraseRulesV>, i: int, x: Seq<char>)
    requires
        0 <= i < cs.len(),
        line_rule_names(cs[i]).contains(x),
    ensures
        lines_rule_names(cs).contains(x),
    decreases cs.len(),
{
    let init = cs.subrange(0, cs.len() - 1);
    let a = lines_rule_names(init);
    let b = line_rule_names(cs[cs.len() - 1]);
    assert(lines_rule_names(cs) == a + b);
    if i == cs.len() - 1 {
        let k = choose|k: int| 0 <= k < b.len() && b[k] == x;
        assert((a + b)[a.len() + k] == x);
    } else {
        assert(init[i] == cs[i]);
        lemma_rule_names_intro(init, i, x);
        let k = choose|k: int| 0 <= k < a.len() && a[k] == x;
        assert((a + b)[k] == x);
    }
}

/// A rule name of the lines is a rule name of one of them.
proof fn lemma_rule_names_elim(cs: Seq<PhraseRulesV>, x: Seq<char>) -> (i: int)
    requires
        lines_rule_names(cs).contains(x),
    ensures
        0 <= i < cs.len(),
        line_rule_names(cs[i]).contains(x),
    decreases cs.len(),
{
    if cs.len() == 0 {
        assert(lines_rule_names(cs) == Seq::<Seq<char>>::empty());
        0
    } else {
        let init = cs.subrange(0, cs.len() - 1);
        let a = lines_rule_names(init);
        let b = line_rule_names(cs[cs.len() - 1]);
        assert(lines_rule_names(cs) == a + b);
        let k = choose|k: int| 0 <= k < (a + b).len() && (a + b)[k] == x;
        if k < a.len() {
            assert(a[k] == x);
            let i = lemma_rule_names_elim(init, x);
            assert(init[i] == cs[i]);
            i
        } else {
            assert(b[k - a.len()] == x);
            cs.len() - 1
        }
    }
}

/// Whether the rule names of the lines `c` are all rule names of the lines `cs`.
pub open spec fn names_in(c: Seq<PhraseRulesV>, cs: Seq<PhraseRulesV>) -> bool {
    forall|x: Seq<char>| #[trigger] lines_rule_names(c).contains(x) ==> lines_rule_names(cs).contains(x)
}

/// The rules that the lines of a part give are named after rules of the lines.
proof fn lemma_gain_names(
    c: Seq<PhraseRulesV>,
    args: Seq<Seq<char>>,
    vals: Map<Seq<char>, RuleV>,
    cs: Seq<PhraseRulesV>,
)
    requires
        names_in(c, cs),
        gain_seq(c, args, vals) is Some,
    ensures
        forall|k: int|
            0 <= k < gained_rules(gain_seq(c, args, vals)).len() ==> lines_rule_names(cs).contains(
                #[trigger] gained_rules(gain_seq(c, args, vals))[k].name,
            ),
    decreases c, 1int,
{
    if c.len() > 0 {
        let first = c[0];
        let rest = c.subrange(1, c.len() as int);
        assert(names_in(seq![first], cs)) by {
            assert forall|x: Seq<char>| #[trigger] lines_rule_names(seq![first]).contains(x) implies lines_rule_names(
                cs,
            ).contains(x) by {
                let i = lemma_rule_names_elim(seq![first], x);
                assert(seq![first][i] == c[0]);
                lemma_rule_names_intro(c, 0, x);
            }
        }
        assert(names_in(rest, cs)) by {
            assert forall|x: Seq<char>| #[trigger] lines_rule_names(rest).contains(x) implies lines_rule_names(
                cs,
            ).contains(x) by {
                let i = lemma_rule_names_elim(rest, x);
                assert(rest[i] == c[i + 1]);
                lemma_rule_names_intro(c, i + 1, x);
            }
        }
        lemma_gain_one_names(first, args, vals, cs);
        let r1 = gained_rules(gain_one(first, args, vals));
        let v1 = gained_aliases(gain_one(first, args, vals));
        lemma_gain_names(rest, args, v1, cs);
        let r2 = gained_rules(gain_seq(rest, args, v1));
        assert forall|k: int| 0 <= k < (r1 + r2).len() implies lines_rule_names(cs).contains(
            #[trigger] (r1 + r2)[k].name,
        ) by {
            if k < r1.len() {
                assert((r1 + r2)[k] == r1[k]);
            } else {
                assert((r1 + r2)[k] == r2[k - r1.len()]);
            }
        }
    }
}

/// The rules that one line gives are named after rules of the lines.
proof fn lemma_gain_one_names(
    c: PhraseRulesV,
    args: Seq<Seq<char>>,
    vals: Map<Seq<char>, RuleV>,
    cs: Seq<PhraseRulesV>,
)
    requires
        names_in(seq![c], cs),
        gain_one(c, args, vals) is Some,
    ensures
        forall|k: int|
            0 <= k < gained_rules(gain_one(c, args, vals)).len() ==> lines_rule_names(cs).contains(
                #[trigger] gained_rules(gain_one(c, args, vals))[k].name,
            ),
    decreases c, 0int,
{
    match c {
        PhraseRulesV::Rules(r) => {
            assert(seq![c][0] == c);
            assert(line_rule_names(c)[0] == r.name);
            lemma_rule_names_intro(seq![c], 0, r.name);
        },
        PhraseRulesV::SetVariable(r) => {},
        PhraseRulesV::Ifs(i) => {
            assert(names_in(i.children, cs)) by {
                assert forall|x: Seq<char>| #[trigger] lines_rule_names(i.children).contains(x) implies lines_rule_names(
                    cs,
                ).contains(x) by {
                    assert(seq![c][0] == c);
                    lemma_rule_names_intro(seq![c], 0, x);
                }
            }
            if if_active(i, args) {
                lemma_gain_names(i.children, args, vals, cs);
            }
        },
    }
}

/// The rules of a part made concrete are named after rules of the part's lines.
pub proof fn lemma_build_names(cs: Seq<PhraseRulesV>, args: Seq<Seq<char>>)
    requires
        gain_seq(cs, args, Map::empty()) is Some,
    ensures
        forall|k: int|
            0 <= k < gained_rules(gain_seq(cs, args, Map::empty())).len() ==> lines_rule_names(
                cs,
            ).contains(#[trigger] gained_rules(gain_seq(cs, args, Map::empty()))[k].name),
{
    lemma_gain_names(cs, args, Map::empty(), cs);
}

/// The id of a concrete part: its name, `@`, and the parameter values as `{:?}`
/// writes a list of strings.
pub open spec fn part_id(name: Seq<char>, args: Seq<Seq<char>>) -> Seq<char> {
    name + seq!['@'] + debug_list(args.map_values(|a: Seq<char>| debug_text(a)))
}

fn zero_string() -> (r: String)
    ensures
        r@ == seq!['0'],
{
    string_from(vec!['0'].as_slice())
}

fn arg_or_zero(args: &Vec<String>, idx: usize) -> (r: String)
    ensures
        r@ == item_or_zero(args.deep_view(), idx as int),
{
    if idx < args.len() {
        args[idx].clone()
    } else {
        zero_string()
    }
}

fn param_index_of(param: &[char]) -> (r: Option<usize>)
    ensures
        r == param_index(param@),
{
    if param.len() > 0 && (param[0] as u32) < 128 {
        let rest = &param[1..param.len()];
        assert(rest@ == param@.drop_first());
        to_usize(rest)
    } else {
        None
    }
}

fn condition_holds_of(cond: &String, args: &Vec<String>) -> (r: Option<bool>)
    ensures
        r == condition_holds(cond@, args.deep_view()),
{
    let cs = chars_of(cond.as_str());
    match split_once_char(cs.as_slice(), '=') {
        Some((param, value)) => match param_index_of(param.as_slice()) {
            Some(idx) => {
                let a = arg_or_zero(args, idx);
                let v = string_from(value.as_slice());
                Some(a == v)
            },
            None => None,
        },
        None => match split_once_char(cs.as_slice(), '~') {
            Some((param, value)) => match param_index_of(param.as_slice()) {
                Some(idx) => {
                    let a = arg_or_zero(args, idx);
                    let v = string_from(value.as_slice());
                    Some(!(a == v))
                },
                None => None,
            },
            None => None,
        },
    }
}

fn concrete_args_of(xs: &Vec<String>, args: &Vec<String>) -> (r: Option<Vec<String>>)
    ensures
        match r {
            Some(v) => concrete_args(xs.deep_view(), args.deep_view()) == Some(v.deep_view()),
            None => concrete_args(xs.deep_view(), args.deep_view()) is None,
        },
{
    let mut out: Vec<String> = Vec::new();
    let mut i: usize = 0;
    while i < xs.len()
        invariant
            i <= xs.len(),
            concrete_args(xs.deep_view().take(i as int), args.deep_view()) == Some(out.deep_view()),
        decreases xs.len() - i,
    {
        assert(xs.deep_view().take(i + 1).drop_last() =~= xs.deep_view().take(i as int));
        assert(xs.deep_view().take(i + 1).last() == xs@[i as int]@);
        let x = chars_of(xs[i].as_str());
        if x.len() > 0 && x[0] == ':' {
            let rest = &x.as_slice()[1..x.len()];
            assert(rest@ == x@.drop_first());
            match to_usize(rest) {
                Some(idx) => {
                    let a = arg_or_zero(args, idx);
                    let ghost before = out.deep_view();
                    out.push(a);
                    assert(out.deep_view() =~= before.push(a@));
                },
                None => {
                    proof {
                        lemma_concrete_args_none(xs.deep_view(), args.deep_view(), i as int + 1);
                    }
                    return None;
                },
            }
        } else {
            let ghost before = out.deep_view();
            out.push(xs[i].clone());
            assert(out.deep_view() =~= before.push(xs@[i as int]@));
        }
        i = i + 1;
    }
    assert(xs.deep_view().take(i as int) =~= xs.deep_view());
    Some(out)
}

proof fn lemma_concrete_args_none(xs: Seq<Seq<char>>, args: Seq<Seq<char>>, i: int)
    requires
        0 <= i <= xs.len(),
        concrete_args(xs.take(i), args) is None,
    ensures
        concrete_args(xs, args) is None,
    decreases xs.len() - i,
{
    if i < xs.len() {
        assert(xs.take(i + 1).drop_last() =~= xs.take(i));
        lemma_concrete_args_none(xs, args, i + 1);
    } else {
        assert(xs.take(i) =~= xs);
    }
}

proof fn lemma_argrules_none(nodes: Seq<TemplateNodeV>, args: Seq<Seq<char>>, vals: Map<Seq<char>, RuleV>, i: int)
    requires
        0 <= i <= nodes.len(),
        spec_argrules(nodes.take(i), args, vals) is None,
    ensures
        spec_argrules(nodes, args, vals) is None,
    decreases nodes.len() - i,
{
    if i < nodes.len() {
        assert(nodes.take(i + 1).drop_last() =~= nodes.take(i));
        lemma_argrules_none(nodes, args, vals, i + 1);
    } else {
        assert(nodes.take(i) =~= nodes);
    }
}

/// What a rule's nodes become, or `None` (see [`spec_argrules`]).
pub fn try_argrules(rule: &Rule, args: &Vec<String>, vals: &Table<ConcreteRules>) -> (r: Option<
    Vec<TemplateNode>,
>)
    requires
        vals.wf(),
    ensures
        match r {
            Some(v) => spec_argrules(rule.rules.deep_view(), args.deep_view(), vals.map()) == Some(
                v.deep_view(),
            ),
            None => spec_argrules(rule.rules.deep_view(), args.deep_view(), vals.map()) is None,
        },
{
    let ghost nodes = rule.rules.deep_view();
    let ghost av = args.deep_view();
    let ghost vm = vals.map();
    let mut ret: Vec<TemplateNode> = Vec::new();
    let mut i: usize = 0;
    assert(ret.deep_view() =~= Seq::<TemplateNodeV>::empty());
    while i < rule.rules.len()
        invariant
            i <= rule.rules.len(),
            nodes == rule.rules.deep_view(),
            av == args.deep_view(),
            vm == vals.map(),
            vals.wf(),
            spec_argrules(nodes.take(i as int), av, vm) == Some(ret.deep_view()),
        decreases rule.rules.len() - i,
    {
        let r = &rule.rules[i];
        let ghost rv = r.deep_view();
        assert(nodes.take(i + 1).drop_last() =~= nodes.take(i as int));
        assert(nodes.take(i + 1).last() == rv);
        let qualified = match &r.condition {
            Some(cond) => condition_holds_of(cond, args),
            None => Some(true),
        };
        match qualified {
            None => {
                proof {
                    lemma_argrules_none(nodes, av, vm, i + 1);
                }
                return None;
            },
            Some(false) => {
                assert(ret.deep_view() + Seq::<TemplateNodeV>::empty() =~= ret.deep_view());
            },
            Some(true) => {
                match &r.template {
                    Templates::Embed(k) => {
                        match vals.get(k.as_str()) {
                            Some(x) => {
                                let xs = &x.rules;
                                let ghost before = ret.deep_view();
                                let mut j: usize = 0;
                                while j < xs.len()
                                    invariant
                                        j <= xs.len(),
                                        ret.deep_view() == before + xs.deep_view().take(j as int),
                                    decreases xs.len() - j,
                                {
                                    let c = copy_node_tn(&xs[j]);
                                    let ghost b2 = ret.deep_view();
                                    ret.push(c);
                                    assert(ret.deep_view() =~= b2.push(c.deep_view()));
                                    assert(xs.deep_view().take(j + 1) =~= xs.deep_view().take(
                                        j as int,
                                    ).push(xs@[j as int].deep_view()));
                                    j = j + 1;
                                }
                                assert(xs.deep_view().take(j as int) =~= xs.deep_view());
                            },
                            None => {
                                proof {
                                    lemma_argrules_none(nodes, av, vm, i + 1);
                                }
                                return None;
                            },
                        }
                    },
                    Templates::Template(n) => {
                        match concrete_args_of(&n.args, args) {
                            Some(ca) => {
                                let node = TemplateNodeGen {
                                    template: Templates::Template(
                                        ParamedPart { name: n.name.clone(), args: ca },
                                    ),
                                    is_optional: r.is_optional,
                                    is_free: r.is_free,
                                    condition: match &r.condition {
                                        Some(c) => Some(c.clone()),
                                        None => None,
                                    },
                                };
                                let ghost before = ret.deep_view();
                                ret.push(node);
                                assert(ret.deep_view() =~= before + seq![node.deep_view()]);
                            },
                            None => {
                                proof {
                                    lemma_argrules_none(nodes, av, vm, i + 1);
                                }
                                return None;
                            },
                        }
                    },
                    _ => {
                        let c = copy_node_tn(r);
                        let ghost before = ret.deep_view();
                        ret.push(c);
                        assert(ret.deep_view() =~= before + seq![c.deep_view()]);
                    },
                }
            },
        }
        i = i + 1;
    }
    assert(nodes.take(i as int) =~= nodes);
    Some(ret)
}

/// Combines the result of the first lines with what the remaining lines give.
pub open spec fn then_rest(
    res: Seq<RuleV>,
    rest: Option<(Seq<RuleV>, Map<Seq<char>, RuleV>)>,
) -> Option<(Seq<RuleV>, Map<Seq<char>, RuleV>)> {
    match rest {
        Some((r2, v2)) => Some((res + r2, v2)),
        None => None,
    }
}

fn try_gain(cs: &Vec<PhraseRules>, args: &Vec<String>, vals: &mut Table<ConcreteRules>) -> (r: Option<
    Vec<ConcreteRules>,
>)
    requires
        old(vals).wf(),
    ensures
        final(vals).wf(),
        match r {
            Some(v) => gain_seq(phrase_rules_seq_view(cs@), args.deep_view(), old(vals).map())
                == Some((v.deep_view(), final(vals).map())),
            None => gain_seq(phrase_rules_seq_view(cs@), args.deep_view(), old(vals).map()) is None,
        },
    decreases cs,
{
    let ghost sv = phrase_rules_seq_view(cs@);
    let ghost av = args.deep_view();
    let ghost v0 = vals.map();
    proof {
        lemma_phrase_rules_index(cs@);
    }
    let mut res: Vec<ConcreteRules> = Vec::new();
    let mut i: usize = 0;
    assert(sv.skip(0) =~= sv);
    assert(res.deep_view() =~= Seq::<RuleV>::empty());
    assert(Seq::<RuleV>::empty() + Seq::<RuleV>::empty() =~= Seq::<RuleV>::empty());
    while i < cs.len()
        invariant
            i <= cs.len(),
            sv == phrase_rules_seq_view(cs@),
            sv.len() == cs.len(),
            forall|j: int| 0 <= j < cs.len() ==> #[trigger] sv[j] == phrase_rules_view(cs@[j]),
            av == args.deep_view(),
            vals.wf(),
            v0 == old(vals).map(),
            gain_seq(sv, av, v0) == then_rest(res.deep_view(), gain_seq(sv.skip(i as int), av, vals.map())),
        decreases cs.len() - i,
    {
        let ghost vi = vals.map();
        let ghost rest = sv.skip(i as int);
        assert(rest[0] == sv[i as int]);
        assert(rest.subrange(1, rest.len() as int) =~= sv.skip(i + 1));
        let pr = &cs[i];
        match pr {
            PhraseRules::Rules(r) => {
                match try_argrules(r, args, vals) {
                    Some(nodes) => {
                        let x = Rule { name: r.name.clone(), rules: nodes };
                        let ghost before = res.deep_view();
                        res.push(x);
                        assert(res.deep_view() =~= before + seq![x.deep_view()]);
                        assert(forall|a: Seq<RuleV>| (before + seq![x.deep_view()]) + a =~= before + (
                        seq![x.deep_view()] + a));
                    },
                    None => {
                        assert(sv[i as int] == phrase_rules_view(*pr));
                        assert(gain_one(sv[i as int], av, vi) is None);
                        assert(gain_seq(rest, av, vi) is None);
                        return None;
                    },
                }
            },
            PhraseRules::SetVariable(r) => {
                match try_argrules(r, args, vals) {
                    Some(nodes) => {
                        let x = Rule { name: string_from(Vec::<char>::new().as_slice()), rules: nodes };
                        vals.insert(r.name.clone(), x);
                        assert(forall|a: Seq<RuleV>| res.deep_view() + (Seq::<RuleV>::empty() + a)
                            =~= res.deep_view() + a);
                    },
                    None => {
                        return None;
                    },
                }
            },
            PhraseRules::Ifs(cond) => {
                let a = arg_or_zero(args, cond.parameter);
                let same = is_one_of(&cond.values, &a);
                if same != cond.unless {
                    proof {
                        assert(decreases_to!(cs => cs@));
                        assert(decreases_to!(cs@ => cs@[i as int]));
                        assert(cs@[i as int]->Ifs_0 == *cond);
                        assert(decreases_to!(cs@[i as int] => cs@[i as int]->Ifs_0));
                        assert(decreases_to!(*cond => cond.children));
                        assert(decreases_to!(cs => cond.children));
                    }
                    match try_gain(&cond.children, args, vals) {
                        Some(sub) => {
                            let ghost before = res.deep_view();
                            let mut sub = sub;
                            let ghost subv = sub.deep_view();
                            res.append(&mut sub);
                            assert(res.deep_view() =~= before + subv);
                            assert(forall|a: Seq<RuleV>| (before + subv) + a =~= before + (subv + a));
                        },
                        None => {
                            assert(sv[i as int] == phrase_rules_view(*pr));
                            assert(gain_one(sv[i as int], av, vi) is None);
                            assert(gain_seq(rest, av, vi) is None);
                            return None;
                        },
                    }
                } else {
                    assert(forall|a: Seq<RuleV>| res.deep_view() + (Seq::<RuleV>::empty() + a)
                        =~= res.deep_view() + a);
                }
            },
        }
        i = i + 1;
    }
    assert(sv.skip(i as int) =~= Seq::<PhraseRulesV>::empty());
    assert(res.deep_view() + Seq::<RuleV>::empty() =~= res.deep_view());
    Some(res)
}

impl PhraseContext {
    /// The nodes a rule becomes for the parameter values `args` and the aliases
    /// `vals` (see [`node_out`]).
    pub fn argrules(rule: &Rule, args: &Vec<String>, vals: &Table<ConcreteRules>) -> (r: Vec<
        TemplateNode,
    >)
        requires
            vals.wf(),
            spec_argrules(rule.rules.deep_view(), args.deep_view(), vals.map()) is Some,
        ensures
            Some(r.deep_view()) == spec_argrules(rule.rules.deep_view(), args.deep_view(), vals.map()),
    {
        match try_argrules(rule, args, vals) {
            Some(v) => v,
            None => Vec::new(),
        }
    }

    /// The rules that the lines `cs` give for `args`, adding aliases to `vals`
    /// (see [`gain_seq`]).
    pub fn gain_rules(&self, cs: &Vec<PhraseRules>, args: &Vec<String>, vals: &mut Table<ConcreteRules>) -> (r:
        Vec<ConcreteRules>)
        requires
            old(vals).wf(),
            gain_seq(phrase_rules_seq_view(cs@), args.deep_view(), old(vals).map()) is Some,
        ensures
            final(vals).wf(),
            gain_seq(phrase_rules_seq_view(cs@), args.deep_view(), old(vals).map()) == Some(
                (r.deep_view(), final(vals).map()),
            ),
    {
        match try_gain(cs, args, vals) {
            Some(v) => v,
            None => Vec::new(),
        }
    }

    /// The part made concrete for `args`, or `None` when one of its lines cannot
    /// be made concrete.
    pub fn try_build<'p>(&'p self, args: &Vec<String>) -> (r: Option<ConcretePart<'p>>)
        ensures
            match r {
                Some(c) => {
                    &&& gain_seq(
                        phrase_rules_seq_view(self.children@),
                        args.deep_view(),
                        Map::empty(),
                    ) matches Some((rules, _)) && rules == c.rules.deep_view()
                    &&& c.part == self
                    &&& c.id@ == part_id(self.name@, args.deep_view())
                    &&& c.args.deep_view() == args.deep_view()
                },
                None => gain_seq(phrase_rules_seq_view(self.children@), args.deep_view(), Map::empty())
                    is None,
            },
    {
        let mut vals: Table<ConcreteRules> = Table::new();
        match try_gain(&self.children, args, &mut vals) {
            Some(rules) => {
                let mut id: Vec<char> = Vec::new();
                push_str(&mut id, self.name.as_str());
                id.push('@');
                let d = debug_texts_of(args);
                push_all(&mut id, d.as_slice());
                assert(id@ =~= part_id(self.name@, args.deep_view()));
                Some(
                    ConcretePart {
                        rules,
                        part: self,
                        id: string_from(id.as_slice()),
                        args: crate::lan::lanparser::declaration::copy_strings(args),
                    },
                )
            },
            None => None,
        }
    }

    /// The part made concrete for `args`: its rules for those values, and its id.
    pub fn build<'p>(&'p self, args: &Vec<String>) -> (r: ConcretePart<'p>)
        requires
            gain_seq(phrase_rules_seq_view(self.children@), args.deep_view(), Map::empty()) is Some,
        ensures
            gain_seq(phrase_rules_seq_view(self.children@), args.deep_view(), Map::empty())
                matches Some((rules, _)) && rules == r.rules.deep_view(),
            r.part == self,
            r.id@ == part_id(self.name@, args.deep_view()),
            r.args.deep_view() == args.deep_view(),
    {
        match self.try_build(args) {
            Some(c) => c,
            None => ConcretePart {
                rules: Vec::new(),
                part: self,
                id: String::new(),
                args: Vec::new(),
            },
        }
    }
}

impl ParamedPart {
    /// The part this reference names, made concrete for its arguments.
    pub fn build<'p>(&self, rules: &'p LanRules) -> (r: ConcretePart<'p>)
        requires
            rules.wf(),
            rules.map().contains_key(self.name@),
            gain_seq(rules.map()[self.name@].children, self.args.deep_view(), Map::empty()) is Some,
        ensures
            gain_seq(rules.map()[self.name@].children, self.args.deep_view(), Map::empty())
                matches Some((rs, _)) && rs == r.rules.deep_view(),
            r.part.deep_view() == rules.map()[self.name@],
            r.id@ == part_id(rules.map()[self.name@].name, self.args.deep_view()),
            r.args.deep_view() == self.args.deep_view(),
    {
        let p: &'p PhraseContext = match rules.get(self.name.as_str()) {
            Some(p) => p,
            None => {
                return ConcretePart {
                    rules: Vec::new(),
                    part: &rules.entries[0].1,
                    id: String::new(),
                    args: Vec::new(),
                };
            },
        };
        p.build(&self.args)
    }
}

} // verus!
