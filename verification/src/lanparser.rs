//! Reading grammars in the LAN notation.
//!
//! A grammar is a list of parts:
//!
//! ```text
//! PART name [argc]
//!     RULE rule-name  node node ...
//!     SET alias       node node ...
//!     IF :n value ... END
//!     UNLESS :n value ... END
//! END
//! ```
//!
//! A node is `$Part` or `$Part( args )` (a part, with parameters), `*cat` or
//! `*cat[conditions]` (a dictionary category), `%alias` (the nodes of a `SET`),
//! or `text-name` (a literal). A leading `?` makes a node optional, a leading
//! `[cond]` makes it apply only when the condition on the part's parameters holds.
pub mod declaration;

use vstd::prelude::*;
use crate::text::{
    chars_of, string_from, split_char, split_on, split_once, split_once_char, split_whitespace,
    split_ws, views, slice_vec, to_usize, parse_usize, lemma_find_found, lemma_split_once_past,
};
use crate::assembling::{disassemble_chars, lowercase, underscores_as_spaces};
use crate::lan::lanparser::declaration::{
    TemplateNode, TemplateNodeV, TemplateNodeGen, TemplateNodeGenV, Templates, TemplatesV,
    ParamedPart, ParamedPartV, ShortWordPart, ShortWordPartV, SignText, SignTextV,
    conditions_ok, spec_conditions, is_ascii_char, PhraseContext, PhraseContextV, PhraseIf,
    PhraseIfV, PhraseRules, PhraseRulesV, Rule, RuleV, phrase_rules_seq_view,
    lemma_phrase_rules_push,
};
use crate::table::Table;
use crate::text::chars_eq;

verus! {

/// The characters of an optional text.
pub open spec fn opt_chars(o: Option<Vec<char>>) -> Option<Seq<char>> {
    match o {
        Some(c) => Some(c@),
        None => None,
    }
}

/// The reading state while going through the words of a rule.
pub struct RulesState {
    pub res: Seq<TemplateNodeV>,
    pub inargs: bool,
    pub aropt: bool,
    pub args: Seq<Seq<char>>,
    pub cond: Option<Seq<char>>,
    pub name: Option<Seq<char>>,
}

/// A node without modifiers, an optional one, or a conditional one.
pub open spec fn node_v(t: TemplatesV, opt: bool, cond: Option<Seq<char>>) -> TemplateNodeV {
    TemplateNodeGenV { condition: cond, is_optional: opt, is_free: false, template: t }
}

/// A category node's text `name` or `name[conditions]` (the last character
/// closing the conditions); `None` when it cannot be read.
pub open spec fn short_part_v(x: Seq<char>) -> Option<ShortWordPartV> {
    match split_once(x, '[') {
        Some((a, b)) => if b.len() > 0 && is_ascii_char(b.last()) && conditions_ok(b.drop_last()) {
            Some(ShortWordPartV { condition: spec_conditions(b.drop_last()), part_name: a })
        } else {
            None
        },
        None => Some(ShortWordPartV { condition: Seq::empty(), part_name: x }),
    }
}

/// A literal node's text `text-name`; `None` when it holds no `-`.
pub open spec fn sign_text_v(x: Seq<char>) -> Option<SignTextV> {
    let t = split_on(x, '-');
    if t.len() >= 2 {
        Some(SignTextV { text: underscores_as_spaces(lowercase(t[0])), name: t[1] })
    } else {
        None
    }
}

/// Whether the word starts with `c`.
pub open spec fn starts(w: Seq<char>, c: char) -> bool {
    w.len() > 0 && w[0] == c
}

/// Whether the word ends with `c`.
pub open spec fn ends(w: Seq<char>, c: char) -> bool {
    w.len() > 0 && w.last() == c
}

/// The text between the first character and the last.
pub open spec fn inner(w: Seq<char>) -> Seq<char> {
    w.subrange(1, w.len() - 1)
}

/// Pushes a node onto the state.
pub open spec fn with_node(st: RulesState, n: TemplateNodeV) -> RulesState {
    RulesState { res: st.res.push(n), ..st }
}

/// How one word changes the reading state; `None` when the word cannot be read.
/// Inside an argument list, `)` closes it and adds the part reference (optional
/// if it was opened by `?$`, conditional if it was opened by `[cond]$`) and
/// clears the condition, so that only the marked reference is conditional; any
/// other word is an argument.
pub open spec fn rules_step(st: RulesState, w: Seq<char>) -> Option<RulesState> {
    if st.inargs {
        if w == seq![')'] {
            let t = TemplatesV::Template(ParamedPartV { name: st.name->0, args: st.args });
            let n = if st.aropt {
                node_v(t, true, None)
            } else if st.cond is Some {
                node_v(t, false, st.cond)
            } else {
                node_v(t, false, None)
            };
            Some(RulesState { inargs: false, args: Seq::empty(), cond: None, ..with_node(st, n) })
        } else {
            Some(RulesState { args: st.args.push(w), ..st })
        }
    } else if starts(w, '$') {
        if ends(w, '(') {
            Some(RulesState { inargs: true, aropt: false, name: Some(inner(w)), ..st })
        } else {
            Some(
                with_node(
                    st,
                    node_v(
                        TemplatesV::Template(ParamedPartV { name: w.drop_first(), args: Seq::empty() }),
                        false,
                        None,
                    ),
                ),
            )
        }
    } else if starts(w, '*') {
        match short_part_v(w.drop_first()) {
            Some(p) => Some(with_node(st, node_v(TemplatesV::ShortPart(p), false, None))),
            None => None,
        }
    } else if starts(w, '%') {
        Some(with_node(st, node_v(TemplatesV::Embed(w.drop_first()), false, None)))
    } else if starts(w, '?') {
        if w.len() > 1 && w[1] == '$' {
            if ends(w, '(') {
                Some(
                    RulesState {
                        inargs: true,
                        aropt: true,
                        name: Some(w.subrange(2, w.len() - 1)),
                        ..st
                    },
                )
            } else {
                Some(
                    with_node(
                        st,
                        node_v(
                            TemplatesV::Template(ParamedPartV { name: w.skip(2), args: Seq::empty() }),
                            true,
                            None,
                        ),
                    ),
                )
            }
        } else if w.len() > 1 && w[1] == '*' {
            match short_part_v(w.skip(2)) {
                Some(p) => Some(with_node(st, node_v(TemplatesV::ShortPart(p), true, None))),
                None => None,
            }
        } else {
            match sign_text_v(w.drop_first()) {
                Some(t) => Some(with_node(st, node_v(TemplatesV::Text(t), true, None))),
                None => None,
            }
        }
    } else if starts(w, '[') {
        match split_once(w.drop_first(), ']') {
            None => None,
            Some((condition, content)) => {
                if starts(content, '$') {
                    if ends(w, '(') {
                        Some(
                            RulesState {
                                inargs: true,
                                aropt: false,
                                name: Some(inner(content)),
                                cond: Some(condition),
                                ..st
                            },
                        )
                    } else {
                        Some(
                            with_node(
                                st,
                                node_v(
                                    TemplatesV::Template(
                                        ParamedPartV { name: content.drop_first(), args: Seq::empty() },
                                    ),
                                    false,
                                    Some(condition),
                                ),
                            ),
                        )
                    }
                } else if starts(content, '*') {
                    match short_part_v(content.drop_first()) {
                        Some(p) => Some(
                            with_node(st, node_v(TemplatesV::ShortPart(p), false, Some(condition))),
                        ),
                        None => None,
                    }
                } else if starts(content, '%') {
                    Some(with_node(st, node_v(TemplatesV::Embed(content.drop_first()), false, None)))
                } else {
                    match sign_text_v(content) {
                        Some(t) => Some(
                            with_node(st, node_v(TemplatesV::Text(t), false, Some(condition))),
                        ),
                        None => None,
                    }
                }
            },
        }
    } else {
        match sign_text_v(w) {
            Some(t) => Some(with_node(st, node_v(TemplatesV::Text(t), false, None))),
            None => None,
        }
    }
}

/// Reading a sequence of words from a state.
pub open spec fn rules_fold(st: RulesState, words: Seq<Seq<char>>) -> Option<RulesState>
    decreases words.len(),
{
    if words.len() == 0 {
        Some(st)
    } else {
        match rules_step(st, words[0]) {
            None => None,
            Some(s2) => rules_fold(s2, words.drop_first()),
        }
    }
}

/// The state before the first word.
pub open spec fn rules_start() -> RulesState {
    RulesState {
        res: Seq::empty(),
        inargs: false,
        aropt: false,
        args: Seq::empty(),
        cond: None,
        name: None,
    }
}

/// The nodes that a rule's words describe; `None` when a word cannot be read.
pub open spec fn spec_parse_rules(words: Seq<Seq<char>>) -> Option<Seq<TemplateNodeV>> {
    match rules_fold(rules_start(), words) {
        Some(st) => Some(st.res),
        None => None,
    }
}

fn condition_ok_of(seg: &[char]) -> (r: bool)
    ensures
        r == crate::lan::lanparser::declaration::condition_ok(seg@),
{
    if seg.len() == 0 || (seg[0] as u32) >= 128 {
        return false;
    }
    let body = &seg[1..seg.len()];
    assert(body@ == seg@.drop_first());
    match split_once_char(body, '=') {
        None => true,
        Some((a, b)) => {
            let neq = a.len() > 0 && a[a.len() - 1] == '!';
            let num_ok = if neq {
                assert(a@.subrange(0, a@.len() - 1) == a@.drop_last());
                to_usize(&a.as_slice()[0..a.len() - 1]).is_some()
            } else {
                to_usize(a.as_slice()).is_some()
            };
            if !num_ok {
                return false;
            }
            if b.len() > 0 && b[0] == ':' {
                let rest = &b.as_slice()[1..b.len()];
                assert(rest@ == b@.drop_first());
                to_usize(rest).is_some()
            } else if b.len() > 0 && b[0] == '@' {
                let rest = &b.as_slice()[1..b.len()];
                assert(rest@ == b@.drop_first());
                match split_once_char(rest, ':') {
                    None => false,
                    Some((pa, pb)) => to_usize(pa.as_slice()).is_some() && to_usize(
                        pb.as_slice(),
                    ).is_some(),
                }
            } else {
                true
            }
        },
    }
}

fn conditions_ok_of(c: &[char]) -> (r: bool)
    ensures
        r == conditions_ok(c@),
{
    let segs = split_char(c, '&');
    let mut i: usize = 0;
    while i < segs.len()
        invariant
            i <= segs.len(),
            views(segs@) == split_on(c@, '&'),
            forall|j: int|
                0 <= j < i ==> crate::lan::lanparser::declaration::condition_ok(
                    #[trigger] split_on(c@, '&')[j],
                ),
        decreases segs.len() - i,
    {
        assert(views(segs@)[i as int] == segs@[i as int]@);
        if !condition_ok_of(segs[i].as_slice()) {
            return false;
        }
        i = i + 1;
    }
    true
}

fn try_short_part_of(x: &[char]) -> (r: Option<ShortWordPart>)
    ensures
        match r {
            Some(p) => short_part_v(x@) == Some(p.deep_view()),
            None => short_part_v(x@) is None,
        },
{
    match split_once_char(x, '[') {
        Some((a, b)) => {
            if b.len() == 0 || (b[b.len() - 1] as u32) >= 128 {
                return None;
            }
            let c = slice_vec(b.as_slice(), 0, b.len() - 1);
            assert(c@ == b@.drop_last());
            if !conditions_ok_of(c.as_slice()) {
                return None;
            }
            let a_s = string_from(a.as_slice());
            let c_s = string_from(c.as_slice());
            Some(ShortWordPart::from_conditional(a_s.as_str(), c_s.as_str()))
        },
        None => {
            let x_s = string_from(x);
            Some(ShortWordPart::from(x_s.as_str()))
        },
    }
}

fn try_sign_text_of(x: &[char]) -> (r: Option<SignText>)
    ensures
        match r {
            Some(t) => sign_text_v(x@) == Some(t.deep_view()),
            None => sign_text_v(x@) is None,
        },
{
    let t = split_char(x, '-');
    if t.len() < 2 {
        return None;
    }
    assert(views(t@)[0] == t@[0]@ && views(t@)[1] == t@[1]@);
    Some(SignText { text: disassemble_chars(t[0].as_slice()), name: string_from(t[1].as_slice()) })
}

fn template_of(name: &[char], args: Vec<String>) -> (r: Templates)
    ensures
        r.deep_view() == TemplatesV::Template(ParamedPartV { name: name@, args: args.deep_view() }),
{
    Templates::Template(ParamedPart { name: string_from(name), args })
}

fn node_of(t: Templates, opt: bool, cond: Option<Vec<char>>) -> (r: TemplateNode)
    ensures
        r.deep_view() == node_v(t.deep_view(), opt, opt_chars(cond)),
{
    TemplateNodeGen {
        condition: match cond {
            Some(c) => Some(string_from(c.as_slice())),
            None => None,
        },
        is_optional: opt,
        is_free: false,
        template: t,
    }
}

/// A word `[c]$Name` (with no argument list) reads, outside an argument list,
/// as a reference to the part `Name` with no arguments that applies only when
/// the condition `c` holds; nothing else of the reading state changes.
pub proof fn lemma_conditional_part_reference(st: RulesState, c: Seq<char>, name: Seq<char>)
    requires
        !st.inargs,
        forall|i: int| 0 <= i < c.len() ==> c[i] != ']',
        name.len() == 0 || name.last() != '(',
    ensures
        rules_step(st, seq!['['] + c + seq![']', '$'] + name) == Some(
            RulesState {
                res: st.res.push(
                    TemplateNodeGenV {
                        condition: Some(c),
                        is_optional: false,
                        is_free: false,
                        template: TemplatesV::Template(ParamedPartV { name, args: Seq::empty() }),
                    },
                ),
                ..st
            },
        ),
{
    let w = seq!['['] + c + seq![']', '$'] + name;
    let content = seq!['$'] + name;
    assert(w.drop_first() =~= c + seq![']'] + content);
    lemma_split_once_past(c, content, ']');
    assert(w[0] == '[');
    assert(content[0] == '$');
    assert(content.drop_first() =~= name);
    if name.len() == 0 {
        assert(w.last() == '$');
    } else {
        assert(w.last() == name.last());
    }
}

/// A rule made of one word `[c]$Name` is a single reference to the part `Name`,
/// with no arguments, conditional on `c`.
pub proof fn lemma_conditional_part_rule(c: Seq<char>, name: Seq<char>)
    requires
        forall|i: int| 0 <= i < c.len() ==> c[i] != ']',
        name.len() == 0 || name.last() != '(',
    ensures
        spec_parse_rules(seq![seq!['['] + c + seq![']', '$'] + name]) == Some(
            seq![
                TemplateNodeGenV {
                    condition: Some(c),
                    is_optional: false,
                    is_free: false,
                    template: TemplatesV::Template(ParamedPartV { name, args: Seq::empty() }),
                },
            ],
        ),
{
    let w = seq!['['] + c + seq![']', '$'] + name;
    lemma_conditional_part_reference(rules_start(), c, name);
    assert(seq![w].drop_first() =~= Seq::<Seq<char>>::empty());
    assert(seq![w][0] == w);
    let s2 = rules_step(rules_start(), w)->0;
    assert(rules_fold(s2, Seq::empty()) == Some(s2));
    assert(rules_fold(rules_start(), seq![w]) == Some(s2));
    assert(Seq::<TemplateNodeV>::empty().push(
        TemplateNodeGenV {
            condition: Some(c),
            is_optional: false,
            is_free: false,
            template: TemplatesV::Template(ParamedPartV { name, args: Seq::empty() }),
        },
    ) =~= seq![
        TemplateNodeGenV {
            condition: Some(c),
            is_optional: false,
            is_free: false,
            template: TemplatesV::Template(ParamedPartV { name, args: Seq::empty() }),
        },
    ]);
}

/// Reads the nodes of a rule from its words (see [`rules_step`]).
pub fn parse_rules(words: &[&str]) -> (r: Result<Vec<TemplateNode>, usize>)
    requires
        spec_parse_rules(words@.map_values(|w: &str| w@)) is Some,
    ensures
        r matches Ok(v) && v.deep_view() == spec_parse_rules(words@.map_values(|w: &str| w@))->0,
{
    match try_parse_rules(words) {
        Some(v) => Ok(v),
        None => Err(0),
    }
}

/// Reads the nodes of a rule from its words, or `None` when a word cannot be
/// read (see [`rules_step`]).
pub fn try_parse_rules(words: &[&str]) -> (r: Option<Vec<TemplateNode>>)
    ensures
        match r {
            Some(v) => spec_parse_rules(words@.map_values(|w: &str| w@)) == Some(v.deep_view()),
            None => spec_parse_rules(words@.map_values(|w: &str| w@)) is None,
        },
{
    let ghost all = words@.map_values(|w: &str| w@);
    let mut res: Vec<TemplateNode> = Vec::new();
    let mut inargs = false;
    let mut aropt = false;
    let mut args: Vec<String> = Vec::new();
    let mut cond: Option<Vec<char>> = None;
    let mut name: Option<Vec<char>> = None;
    let mut i: usize = 0;
    assert(all.skip(0) == all);
    assert(res.deep_view() =~= Seq::<TemplateNodeV>::empty());
    assert(args.deep_view() =~= Seq::<Seq<char>>::empty());
    while i < words.len()
        invariant
            all == words@.map_values(|w: &str| w@),
            i <= words.len(),
            ({
                let st = RulesState {
                    res: res.deep_view(),
                    inargs,
                    aropt,
                    args: args.deep_view(),
                    cond: opt_chars(cond),
                    name: opt_chars(name),
                };
                rules_fold(st, all.skip(i as int)) == rules_fold(rules_start(), all)
            }),
            inargs ==> name is Some,
        decreases words.len() - i,
    {
        let ghost st = RulesState {
            res: res.deep_view(),
            inargs,
            aropt,
            args: args.deep_view(),
            cond: opt_chars(cond),
            name: opt_chars(name),
        };
        let sword: &str = words[i];
        let word = chars_of(sword);
        let ghost rest = all.skip(i as int);
        assert(rest[0] == word@);
        assert(rest.drop_first() == all.skip(i + 1));
        let ghost next = rules_step(st, word@);
        let wl = word.len();
        if inargs {
            if wl == 1 && word[0] == ')' {
                assert(word@ == seq![')']);
                inargs = false;
                let nm = match &name {
                    Some(n) => n.clone(),
                    None => Vec::new(),
                };
                let into = args;
                args = Vec::new();
                let t = template_of(nm.as_slice(), into);
                let n = if aropt {
                    node_of(t, true, None)
                } else if cond.is_some() {
                    let c = match &cond {
                        Some(c) => c.clone(),
                        None => Vec::new(),
                    };
                    node_of(t, false, Some(c))
                } else {
                    node_of(t, false, None)
                };
                cond = None;
                let ghost before = res.deep_view();
                res.push(n);
                assert(res.deep_view() =~= before.push(n.deep_view()));
                assert(args.deep_view() =~= Seq::<Seq<char>>::empty());
            } else {
                assert(word@ != seq![')']);
                let ghost before = args.deep_view();
                args.push(string_from(word.as_slice()));
                assert(args.deep_view() =~= before.push(word@));
            }
        } else if wl > 0 && word[0] == '$' {
            if word[wl - 1] == '(' {
                inargs = true;
                aropt = false;
                name = Some(slice_vec(word.as_slice(), 1, wl - 1));
            } else {
                let nm = slice_vec(word.as_slice(), 1, wl);
                assert(nm@ == word@.drop_first());
                let empty: Vec<String> = Vec::new();
                assert(empty.deep_view() =~= Seq::<Seq<char>>::empty());
                let n = node_of(template_of(nm.as_slice(), empty), false, None);
                let ghost before = res.deep_view();
                res.push(n);
                assert(res.deep_view() =~= before.push(n.deep_view()));
            }
        } else if wl > 0 && word[0] == '*' {
            let x = &word.as_slice()[1..wl];
            assert(x@ == word@.drop_first());
            let v = match try_short_part_of(x) {
                Some(v) => v,
                None => {
                    return None;
                },
            };
            let n = node_of(Templates::ShortPart(v), false, None);
            let ghost before = res.deep_view();
            res.push(n);
            assert(res.deep_view() =~= before.push(n.deep_view()));
        } else if wl > 0 && word[0] == '%' {
            let x = slice_vec(word.as_slice(), 1, wl);
            assert(x@ == word@.drop_first());
            let n = node_of(Templates::Embed(string_from(x.as_slice())), false, None);
            let ghost before = res.deep_view();
            res.push(n);
            assert(res.deep_view() =~= before.push(n.deep_view()));
        } else if wl > 0 && word[0] == '?' {
            if wl > 1 && word[1] == '$' {
                if word[wl - 1] == '(' {
                    inargs = true;
                    aropt = true;
                    name = Some(slice_vec(word.as_slice(), 2, wl - 1));
                } else {
                    let nm = slice_vec(word.as_slice(), 2, wl);
                    assert(nm@ == word@.skip(2));
                    let empty: Vec<String> = Vec::new();
                    assert(empty.deep_view() =~= Seq::<Seq<char>>::empty());
                    let n = node_of(template_of(nm.as_slice(), empty), true, None);
                    let ghost before = res.deep_view();
                    res.push(n);
                    assert(res.deep_view() =~= before.push(n.deep_view()));
                }
            } else if wl > 1 && word[1] == '*' {
                let x = &word.as_slice()[2..wl];
                assert(x@ == word@.skip(2));
                let v = match try_short_part_of(x) {
                    Some(v) => v,
                    None => {
                        return None;
                    },
                };
                let n = node_of(Templates::ShortPart(v), true, None);
                let ghost before = res.deep_view();
                res.push(n);
                assert(res.deep_view() =~= before.push(n.deep_view()));
            } else {
                let x = &word.as_slice()[1..wl];
                assert(x@ == word@.drop_first());
                let v = match try_sign_text_of(x) {
                    Some(v) => v,
                    None => {
                        return None;
                    },
                };
                let n = node_of(Templates::Text(v), true, None);
                let ghost before = res.deep_view();
                res.push(n);
                assert(res.deep_view() =~= before.push(n.deep_view()));
            }
        } else if wl > 0 && word[0] == '[' {
            let body = &word.as_slice()[1..wl];
            assert(body@ == word@.drop_first());
            let (condition, content) = match split_once_char(body, ']') {
                Some(p) => p,
                None => {
                    return None;
                },
            };
            let cl = content.len();
            if cl > 0 && content[0] == '$' {
                if word[wl - 1] == '(' {
                    proof {
                        lemma_find_found(body@, ']');
                        assert(content@ == body@.skip(crate::text::find(body@, ']') + 1));
                        assert(content@.last() == word@.last());
                    }
                    inargs = true;
                    aropt = false;
                    name = Some(slice_vec(content.as_slice(), 1, cl - 1));
                    cond = Some(condition);
                } else {
                    let nm = slice_vec(content.as_slice(), 1, cl);
                    assert(nm@ == content@.drop_first());
                    let empty: Vec<String> = Vec::new();
                    assert(empty.deep_view() =~= Seq::<Seq<char>>::empty());
                    let n = node_of(template_of(nm.as_slice(), empty), false, Some(condition));
                    let ghost before = res.deep_view();
                    res.push(n);
                    assert(res.deep_view() =~= before.push(n.deep_view()));
                }
            } else if cl > 0 && content[0] == '*' {
                let x = &content.as_slice()[1..cl];
                assert(x@ == content@.drop_first());
                let v = match try_short_part_of(x) {
                    Some(v) => v,
                    None => {
                        return None;
                    },
                };
                let n = node_of(Templates::ShortPart(v), false, Some(condition));
                let ghost before = res.deep_view();
                res.push(n);
                assert(res.deep_view() =~= before.push(n.deep_view()));
            } else if cl > 0 && content[0] == '%' {
                let x = slice_vec(content.as_slice(), 1, cl);
                assert(x@ == content@.drop_first());
                let n = node_of(Templates::Embed(string_from(x.as_slice())), false, None);
                let ghost before = res.deep_view();
                res.push(n);
                assert(res.deep_view() =~= before.push(n.deep_view()));
            } else {
                let v = match try_sign_text_of(content.as_slice()) {
                    Some(v) => v,
                    None => {
                        return None;
                    },
                };
                let n = node_of(Templates::Text(v), false, Some(condition));
                let ghost before = res.deep_view();
                res.push(n);
                assert(res.deep_view() =~= before.push(n.deep_view()));
            }
        } else {
            let v = match try_sign_text_of(word.as_slice()) {
                Some(v) => v,
                None => {
                    return None;
                },
            };
            let n = node_of(Templates::Text(v), false, None);
            let ghost before = res.deep_view();
            res.push(n);
            assert(res.deep_view() =~= before.push(n.deep_view()));
        }
        i = i + 1;
    }
    assert(all.skip(i as int).len() == 0);
    Some(res)
}

/// A block being read: a part, or an `IF`/`UNLESS` block inside one.
pub enum Context {
    Phrase(PhraseContext),
    If(PhraseIf),
}

/// The model of a block being read.
pub enum ContextV {
    Phrase(PhraseContextV),
    If(PhraseIfV),
}

/// The model of a block being read.
pub open spec fn context_view(c: Context) -> ContextV {
    match c {
        Context::Phrase(p) => ContextV::Phrase(p.deep_view()),
        Context::If(i) => ContextV::If(i.deep_view()),
    }
}

/// The reading state of a grammar: the parts read so far, by name, and the
/// blocks still open, innermost last.
pub struct GrammarState {
    pub res: Map<Seq<char>, PhraseContextV>,
    pub st: Seq<ContextV>,
}

/// Adds a line to the innermost open block; `None` when no block is open.
pub open spec fn add_child(st: Seq<ContextV>, c: PhraseRulesV) -> Option<Seq<ContextV>> {
    if st.len() == 0 {
        None
    } else {
        match st.last() {
            ContextV::Phrase(p) => Some(
                st.drop_last().push(
                    ContextV::Phrase(PhraseContextV { children: p.children.push(c), ..p }),
                ),
            ),
            ContextV::If(i) => Some(
                st.drop_last().push(ContextV::If(PhraseIfV { children: i.children.push(c), ..i })),
            ),
        }
    }
}

pub open spec fn kw_part() -> Seq<char> {
    seq!['P', 'A', 'R', 'T']
}

pub open spec fn kw_rule() -> Seq<char> {
    seq!['R', 'U', 'L', 'E']
}

pub open spec fn kw_set() -> Seq<char> {
    seq!['S', 'E', 'T']
}

pub open spec fn kw_if() -> Seq<char> {
    seq!['I', 'F']
}

pub open spec fn kw_unless() -> Seq<char> {
    seq!['U', 'N', 'L', 'E', 'S', 'S']
}

pub open spec fn kw_end() -> Seq<char> {
    seq!['E', 'N', 'D']
}

/// The parameter number that a word names: `:n` or `n`, in decimal.
pub open spec fn param_number(w: Seq<char>) -> Option<usize> {
    if w.len() > 0 && w[0] == ':' {
        parse_usize(w.drop_first())
    } else {
        parse_usize(w)
    }
}

/// Reads a parameter number (see [`param_number`]).
fn param_number_of(w: &[char]) -> (r: Option<usize>)
    ensures
        r == param_number(w@),
{
    if w.len() > 0 && w[0] == ':' {
        assert(w@.subrange(1, w@.len() as int) == w@.drop_first());
        to_usize(&w[1..w.len()])
    } else {
        to_usize(w)
    }
}

/// How one grammar line changes the reading state; `None` when it cannot be
/// read. The first word decides: `PART name [argc]` opens a part (`argc`, the
/// number of parameters, must read as a number when it is given); `RULE name
/// nodes` and `SET name nodes` add a rule or an alias to the innermost block;
/// `IF :n value` and `UNLESS :n value` (also with `n` for `:n`) open a
/// conditional block, and so do `IF :n ~ v1 v2 ...` and `UNLESS :n ~ v1 v2 ...`
/// with a list of values (see [`if_values`]); `END` closes the innermost block,
/// storing a part under its name or adding a conditional block to the block
/// around it. Other lines are ignored.
pub open spec fn grammar_step(g: GrammarState, line: Seq<char>) -> Option<GrammarState> {
    let w = split_ws(line);
    if w.len() == 0 {
        None
    } else if w[0] == kw_part() {
        if w.len() < 2 || (w.len() > 2 && parse_usize(w[2]) is None) {
            None
        } else {
            let p = PhraseContextV {
                children: Seq::empty(),
                props: None,
                is_trap: false,
                name: w[1],
                argc: if w.len() > 2 {
                    parse_usize(w[2])->0
                } else {
                    0
                },
            };
            Some(GrammarState { st: g.st.push(ContextV::Phrase(p)), ..g })
        }
    } else if w[0] == kw_rule() || w[0] == kw_set() {
        if w.len() < 2 {
            None
        } else {
            match spec_parse_rules(w.skip(2)) {
                None => None,
                Some(nodes) => {
                    let r = RuleV { rules: nodes, name: w[1] };
                    let c = if w[0] == kw_rule() {
                        PhraseRulesV::Rules(r)
                    } else {
                        PhraseRulesV::SetVariable(r)
                    };
                    match add_child(g.st, c) {
                        None => None,
                        Some(st2) => Some(GrammarState { st: st2, ..g }),
                    }
                },
            }
        }
    } else if w[0] == kw_if() || w[0] == kw_unless() {
        if w.len() < 3 || param_number(w[1]) is None {
            None
        } else {
            let i = PhraseIfV {
                parameter: param_number(w[1])->0,
                value: w[2],
                values: if_values(w),
                unless: w[0] == kw_unless(),
                children: Seq::empty(),
            };
            Some(GrammarState { st: g.st.push(ContextV::If(i)), ..g })
        }
    } else if w[0] == kw_end() {
        if g.st.len() == 0 {
            None
        } else {
            match g.st.last() {
                ContextV::Phrase(ph) => Some(
                    GrammarState { res: g.res.insert(ph.name, ph), st: g.st.drop_last() },
                ),
                ContextV::If(i) => match add_child(g.st.drop_last(), PhraseRulesV::Ifs(i)) {
                    None => None,
                    Some(st2) => Some(GrammarState { st: st2, ..g }),
                },
            }
        }
    } else {
        Some(g)
    }
}

/// The values of an `IF`/`UNLESS` line's words: the words after `~` when the
/// third word is `~`, and otherwise the third word alone.
pub open spec fn if_values(w: Seq<Seq<char>>) -> Seq<Seq<char>> {
    if w[2] == seq!['~'] {
        w.skip(3)
    } else {
        seq![w[2]]
    }
}

/// Reading a sequence of grammar lines from a state.
pub open spec fn grammar_fold(g: GrammarState, lines: Seq<Seq<char>>) -> Option<GrammarState>
    decreases lines.len(),
{
    if lines.len() == 0 {
        Some(g)
    } else {
        match grammar_step(g, lines[0]) {
            None => None,
            Some(g2) => grammar_fold(g2, lines.drop_first()),
        }
    }
}

/// The parts that grammar lines describe, by name; `None` when a line cannot be
/// read. Parts left open at the end are not stored.
pub open spec fn spec_parse(lines: Seq<Seq<char>>) -> Option<Map<Seq<char>, PhraseContextV>> {
    match grammar_fold(GrammarState { res: Map::empty(), st: Seq::empty() }, lines) {
        Some(g) => Some(g.res),
        None => None,
    }
}

/// The state before the first grammar line.
pub open spec fn grammar_start() -> GrammarState {
    GrammarState { res: Map::empty(), st: Seq::empty() }
}

/// Whether line `i` is the first grammar line that cannot be read.
pub open spec fn first_bad_line(lines: Seq<Seq<char>>, i: int) -> bool {
    &&& 0 <= i < lines.len()
    &&& grammar_fold(grammar_start(), lines.take(i)) matches Some(g) && grammar_step(g, lines[i])
        is None
}

/// Reading one more line after a block of lines.
proof fn lemma_grammar_fold_push(g: GrammarState, ls: Seq<Seq<char>>, x: Seq<char>)
    ensures
        grammar_fold(g, ls.push(x)) == match grammar_fold(g, ls) {
            Some(g2) => grammar_step(g2, x),
            None => None,
        },
    decreases ls.len(),
{
    if ls.len() == 0 {
        assert(seq![x].drop_first() == Seq::<Seq<char>>::empty());
        assert(ls.push(x) == seq![x]);
        assert(grammar_fold(g, ls) == Some(g));
        match grammar_step(g, x) {
            Some(g2) => {
                assert(grammar_fold(g2, Seq::<Seq<char>>::empty()) == Some(g2));
            },
            None => {},
        }
    } else {
        assert(ls.push(x)[0] == ls[0]);
        assert(ls.push(x).drop_first() == ls.drop_first().push(x));
        match grammar_step(g, ls[0]) {
            Some(g2) => {
                lemma_grammar_fold_push(g2, ls.drop_first(), x);
            },
            None => {},
        }
    }
}

/// The grammar's parts, by name.
pub type LanRules = Table<PhraseContext>;

/// The models of the open blocks.
pub open spec fn stack_view(s: Seq<Context>) -> Seq<ContextV> {
    s.map_values(|c: Context| context_view(c))
}

fn push_child(st: &mut Vec<Context>, c: PhraseRules)
    requires
        old(st)@.len() > 0,
    ensures
        add_child(stack_view(old(st)@), c.deep_view()) == Some(stack_view(final(st)@)),
{
    let n = st.len();
    let ghost before = st@;
    match &mut st[n - 1] {
        Context::Phrase(p) => {
            let ghost ch = p.children@;
            p.children.push(c);
            proof {
                lemma_phrase_rules_push(ch, c);
            }
        },
        Context::If(i) => {
            let ghost ch = i.children@;
            i.children.push(c);
            proof {
                lemma_phrase_rules_push(ch, c);
            }
        },
    }
    proof {
        assert(st@.drop_last() == before.drop_last());
        assert(stack_view(st@) =~= stack_view(before).drop_last().push(context_view(st@[n - 1])));
    }
}

fn kw(w: &[char], k: &[char]) -> (r: bool)
    ensures
        r == (w@ == k@),
{
    chars_eq(w, k)
}

fn strs_of<'a>(ss: &'a Vec<String>) -> (r: Vec<&'a str>)
    ensures
        r@.map_values(|w: &str| w@) == ss.deep_view(),
{
    let mut r: Vec<&'a str> = Vec::new();
    let mut i: usize = 0;
    while i < ss.len()
        invariant
            i <= ss.len(),
            r@.map_values(|w: &str| w@) == ss.deep_view().take(i as int),
        decreases ss.len() - i,
    {
        let ghost before = r@;
        r.push(ss[i].as_str());
        assert(r@.map_values(|w: &str| w@) =~= before.map_values(|w: &str| w@).push(ss@[i as int]@));
        assert(ss.deep_view().take(i + 1) =~= ss.deep_view().take(i as int).push(ss@[i as int]@));
        i = i + 1;
    }
    assert(ss.deep_view().take(i as int) =~= ss.deep_view());
    r
}

fn strings_of(words: &[Vec<char>]) -> (r: Vec<String>)
    ensures
        r.deep_view() == views(words@),
{
    let mut r: Vec<String> = Vec::new();
    let mut i: usize = 0;
    while i < words.len()
        invariant
            i <= words.len(),
            r.deep_view() == views(words@.take(i as int)),
        decreases words.len() - i,
    {
        let s = string_from(words[i].as_slice());
        let ghost before = r.deep_view();
        r.push(s);
        assert(r.deep_view() =~= before.push(s@));
        assert(views(words@.take(i + 1)) =~= views(words@.take(i as int)).push(words@[i as int]@));
        i = i + 1;
    }
    assert(words@.take(i as int) == words@);
    r
}

/// Reads the parts of a grammar, one line at a time (see [`grammar_step`]).
pub fn parse(lines: &Vec<&str>) -> (r: Result<LanRules, usize>)
    requires
        spec_parse(lines@.map_values(|l: &str| l@)) is Some,
    ensures
        r matches Ok(t) && t.wf() && t.map() == spec_parse(lines@.map_values(|l: &str| l@))->0,
{
    try_parse(lines)
}

/// Reads the parts of a grammar, one line at a time (see [`grammar_step`]);
/// `Err` with the position of the first line that cannot be read.
pub fn try_parse(lines: &Vec<&str>) -> (r: Result<LanRules, usize>)
    ensures
        match r {
            Ok(t) => t.wf() && spec_parse(lines@.map_values(|l: &str| l@)) == Some(t.map()),
            Err(i) => {
                &&& first_bad_line(lines@.map_values(|l: &str| l@), i as int)
                &&& spec_parse(lines@.map_values(|l: &str| l@)) is None
            },
        },
{
    let ghost all = lines@.map_values(|l: &str| l@);
    let ghost init = GrammarState { res: Map::empty(), st: Seq::empty() };
    let mut res: LanRules = Table::new();
    let mut st: Vec<Context> = Vec::new();
    let k_part: Vec<char> = vec!['P', 'A', 'R', 'T'];
    let k_rule: Vec<char> = vec!['R', 'U', 'L', 'E'];
    let k_set: Vec<char> = vec!['S', 'E', 'T'];
    let k_if: Vec<char> = vec!['I', 'F'];
    let k_unless: Vec<char> = vec!['U', 'N', 'L', 'E', 'S', 'S'];
    let k_end: Vec<char> = vec!['E', 'N', 'D'];
    let mut i: usize = 0;
    assert(all.skip(0) == all);
    assert(stack_view(st@) =~= Seq::<ContextV>::empty());
    assert(all.take(0) == Seq::<Seq<char>>::empty());
    while i < lines.len()
        invariant
            all == lines@.map_values(|l: &str| l@),
            init == (GrammarState { res: Map::empty(), st: Seq::empty() }),
            i <= lines.len(),
            k_part@ == kw_part(),
            k_rule@ == kw_rule(),
            k_set@ == kw_set(),
            k_if@ == kw_if(),
            k_unless@ == kw_unless(),
            k_end@ == kw_end(),
            res.wf(),
            grammar_fold(GrammarState { res: res.map(), st: stack_view(st@) }, all.skip(i as int))
                == grammar_fold(init, all),
            grammar_fold(grammar_start(), all.take(i as int)) == Some(
                GrammarState { res: res.map(), st: stack_view(st@) },
            ),
        decreases lines.len() - i,
    {
        let ghost g = GrammarState { res: res.map(), st: stack_view(st@) };
        let cs = chars_of(lines[i]);
        let words = split_whitespace(cs.as_slice());
        let ghost rest = all.skip(i as int);
        let ghost w = views(words@);
        assert(rest[0] == cs@);
        assert(rest.drop_first() == all.skip(i + 1));
        assert(w.len() == words.len());
        if words.len() == 0 {
            assert(split_ws(cs@).len() == 0);
            assert(grammar_step(g, cs@) is None);
            assert(grammar_fold(g, rest) is None);
            return Err(i);
        }
        assert(w[0] == words@[0]@);
        if kw(words[0].as_slice(), k_part.as_slice()) {
            if words.len() < 2 {
                assert(grammar_step(g, cs@) is None);
                assert(grammar_fold(g, rest) is None);
                return Err(i);
            }
            assert(w[1] == words@[1]@);
            let name = string_from(words[1].as_slice());
            let argc = if words.len() > 2 {
                assert(w[2] == words@[2]@);
                match to_usize(words[2].as_slice()) {
                    Some(n) => n,
                    None => {
                        assert(grammar_step(g, cs@) is None);
                        assert(grammar_fold(g, rest) is None);
                        return Err(i);
                    },
                }
            } else {
                0
            };
            let p = PhraseContext { children: Vec::new(), props: None, is_trap: false, name, argc };
            assert(phrase_rules_seq_view(p.children@) =~= Seq::<PhraseRulesV>::empty());
            let ghost before = st@;
            st.push(Context::Phrase(p));
            assert(stack_view(st@) =~= stack_view(before).push(context_view(Context::Phrase(p))));
        } else if kw(words[0].as_slice(), k_rule.as_slice()) || kw(
            words[0].as_slice(),
            k_set.as_slice(),
        ) {
            let is_rule = kw(words[0].as_slice(), k_rule.as_slice());
            if words.len() < 2 {
                return Err(i);
            }
            assert(w[1] == words@[1]@);
            let tail = strings_of(&words.as_slice()[2..words.len()]);
            assert(views(words@.subrange(2, words@.len() as int)) =~= w.skip(2));
            let refs = strs_of(&tail);
            let nodes = match try_parse_rules(refs.as_slice()) {
                Some(v) => v,
                None => {
                    return Err(i);
                },
            };
            let r = Rule { rules: nodes, name: string_from(words[1].as_slice()) };
            let c = if is_rule {
                PhraseRules::Rules(r)
            } else {
                PhraseRules::SetVariable(r)
            };
            if st.len() == 0 {
                return Err(i);
            }
            push_child(&mut st, c);
        } else if kw(words[0].as_slice(), k_if.as_slice()) || kw(
            words[0].as_slice(),
            k_unless.as_slice(),
        ) {
            let unless = kw(words[0].as_slice(), k_unless.as_slice());
            if words.len() < 3 {
                return Err(i);
            }
            assert(w[1] == words@[1]@ && w[2] == words@[2]@);
            let argn = match param_number_of(words[1].as_slice()) {
                Some(n) => n,
                None => {
                    return Err(i);
                },
            };
            let values = if words[2].len() == 1 && words[2][0] == '~' {
                assert(w[2] =~= seq!['~']);
                let v = strings_of(&words.as_slice()[3..words.len()]);
                assert(views(words@.subrange(3, words@.len() as int)) =~= w.skip(3));
                v
            } else {
                assert(w[2] != seq!['~']);
                let v = strings_of(&words.as_slice()[2..3]);
                assert(views(words@.subrange(2, 3)) =~= seq![w[2]]);
                v
            };
            let p = PhraseIf {
                parameter: argn,
                children: Vec::new(),
                value: string_from(words[2].as_slice()),
                values,
                unless,
            };
            assert(phrase_rules_seq_view(p.children@) =~= Seq::<PhraseRulesV>::empty());
            let ghost before = st@;
            st.push(Context::If(p));
            assert(stack_view(st@) =~= stack_view(before).push(context_view(Context::If(p))));
        } else if kw(words[0].as_slice(), k_end.as_slice()) {
            let ghost before = st@;
            match st.pop() {
                Some(Context::Phrase(ph)) => {
                    assert(stack_view(st@) =~= stack_view(before).drop_last());
                    let k = ph.name.clone();
                    res.insert(k, ph);
                },
                Some(Context::If(x)) => {
                    assert(stack_view(st@) =~= stack_view(before).drop_last());
                    if st.len() == 0 {
                        return Err(i);
                    }
                    push_child(&mut st, PhraseRules::Ifs(x));
                },
                None => {
                    return Err(i);
                },
            }
        } else {
        }
        proof {
            let g2 = GrammarState { res: res.map(), st: stack_view(st@) };
            assert(grammar_step(g, cs@) == Some(g2));
            lemma_grammar_fold_push(grammar_start(), all.take(i as int), all[i as int]);
            assert(all.take(i + 1) == all.take(i as int).push(all[i as int]));
        }
        i = i + 1;
    }
    assert(all.skip(i as int).len() == 0);
    Ok(res)
}

} // verus!
