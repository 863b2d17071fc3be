//! Matching rules against a sentence.
//!
//! A rule is matched by a set of expectations that advance together, one node
//! at a time: blanks before a node are skipped; a literal must appear next; a
//! category must have a dictionary word next that meets its conditions (the
//! longest is taken); a part reference is parsed recursively. Optional nodes
//! may be skipped and free nodes repeated, so an expectation can branch. Every
//! expectation that reaches the end of the rule is a candidate, and the one that
//! read furthest wins.
pub mod expect;
pub mod model;

use vstd::prelude::*;
pub use expect::Expectation;
use expect::{nexts, ExpectationV, lead};
use model::{
    TablesV, tables_v, res_v, visit_table_v, first_at, store, skip_blanks, longest, furthest,
    resolve_all, adv, node_step, round, run, fit_c, starts, nexts_v, lead_v, next_rule_v, moved,
    same_keys, lemma_first_at_entry, lemma_store_res, wins_v,
};
use crate::text::{
    chars_of, string_from, push_all, split_once, split_once_char, parse_usize, to_usize, join,
    starts_with, lemma_split_once_past, is_digit, all_digits,
};
use crate::table::str_equal;
use crate::lan::dictionary::{
    Dictionary, Voca, VocaV, try_search_dict, word_matches, lemma_matching_words,
    lemma_matching_words_from, item_or_zero, zero_text,
};
use crate::lan::lanparser::declaration::{
    PhraseContextV, TemplateNode, TemplateNodeV, Templates, TemplatesV, node_text, node_chars,
};
use crate::concrete::{gain_seq, gained_rules, lemma_build_names, lemma_build_within, literal_within};
use crate::lanparser::LanRules;
use super::syntree::{SyntaxTreeNode, TreeV, copy_node};
use super::{
    ParseCache, sound, sound_result, suffix, is_suffix, padded, leaves, lemma_padded_refl,
    lemma_padded_concat, lemma_leaves_push, find_entry, put_entry, copy_result, entry_ok, parse,
    entry_is, first_entry, no_entry, stored, same_result, remembered, lemma_first_unique,
    lemma_stored_remembered, same_cache, lemma_first_of,
    labeled, labeled_all, labeled_result, lemma_labeled_push, lemma_table_labeled, morpheme_ok,
    node_literal_ok, rule_literals_ok, grammar_literal, grammar_rule,
};

verus! {

/// How many times a rule match may be entered again, at the same position,
/// before it has a result.
pub const STACK_LIMIT: u8 = 2;

/// The texts of a rule's nodes, concatenated.
pub open spec fn rule_text(nodes: Seq<TemplateNodeV>) -> Seq<char>
    decreases nodes.len(),
{
    if nodes.len() == 0 {
        Seq::empty()
    } else {
        rule_text(nodes.drop_last()) + node_text(nodes.last())
    }
}

/// The text of a rule: its nodes' texts concatenated (see [`node_text`]).
pub fn parsingrule_tostr(p: &[TemplateNode]) -> (r: String)
    ensures
        r@ == rule_text(p.deep_view()),
{
    let mut out: Vec<char> = Vec::new();
    let mut i: usize = 0;
    while i < p.len()
        invariant
            i <= p.len(),
            out@ == rule_text(p.deep_view().take(i as int)),
        decreases p.len() - i,
    {
        let t = node_chars(&p[i]);
        push_all(&mut out, t.as_slice());
        assert(p.deep_view().take(i + 1).drop_last() =~= p.deep_view().take(i as int));
        assert(p.deep_view().take(i + 1).last() == p@[i as int].deep_view());
        i = i + 1;
    }
    assert(p.deep_view().take(i as int) =~= p.deep_view());
    string_from(out.as_slice())
}

/// The position of the first entry for `(l, key)` in the table of entry counts.
fn find_visit(v: &Vec<(usize, String, u8)>, l: usize, key: &str) -> (r: Option<usize>)
    ensures
        match r {
            Some(i) => first_entry(v@, i as int, l, key@),
            None => no_entry(v@, l, key@),
        },
{
    let mut i: usize = 0;
    while i < v.len()
        invariant
            i <= v.len(),
            forall|j: int| 0 <= j < i ==> !entry_is(#[trigger] v@[j], l, key@),
        decreases v.len() - i,
    {
        if v[i].0 == l && str_equal(v[i].1.as_str(), key) {
            return Some(i);
        }
        i = i + 1;
    }
    None
}

/// How the table of entry counts changes, and what a look-up gives, when no
/// result is remembered for `(l, key)`: a first entry counts one more entry and
/// gives `Err(false)` while its count is below [`STACK_LIMIT`], and otherwise
/// is left as it is and gives `Err(true)`; without an entry, one with count 0
/// is added and the look-up gives `Err(false)`.
pub open spec fn visit_step(
    before: Seq<(usize, String, u8)>,
    after: Seq<(usize, String, u8)>,
    l: usize,
    key: String,
    r: Result<(SyntaxTreeNode, usize), bool>,
) -> bool {
    &&& no_entry(before, l, key@) ==> r == Err::<(SyntaxTreeNode, usize), bool>(false) && after
        == before.push((l, key, 0u8))
    &&& forall|j: int| #[trigger]
        first_entry(before, j, l, key@) ==> if before[j].2 < STACK_LIMIT {
            r == Err::<(SyntaxTreeNode, usize), bool>(false) && after == before.update(
                j,
                (l, key, (before[j].2 + 1) as u8),
            )
        } else {
            r == Err::<(SyntaxTreeNode, usize), bool>(true) && after == before
        }
}

/// Whether a rule match for `(l, key)` is refused: no result is remembered for
/// it and it has been entered [`STACK_LIMIT`] times or more.
pub open spec fn refused(cache: ParseCache, l: usize, key: Seq<char>) -> bool {
    &&& no_entry(cache.dp@, l, key)
    &&& exists|j: int| #[trigger] first_entry(cache.visit@, j, l, key) && cache.visit@[j].2 >= STACK_LIMIT
}

/// Looks a rule match up: `Ok` with a remembered result; `Err(true)` when it
/// failed before or has been entered too often without a result; `Err(false)`
/// when it is to be computed (and counts the entry).
fn cache_view(
    cache: &mut ParseCache,
    l: usize,
    rulehash: &String,
    Ghost(g): Ghost<Map<Seq<char>, PhraseContextV>>,
    Ghost(d): Ghost<Map<Seq<char>, Seq<VocaV>>>,
) -> (r: Result<(SyntaxTreeNode, usize), bool>)
    requires
        old(cache).wf(),
        l <= old(cache).top@.len(),
    ensures
        final(cache).wf(),
        old(cache).labels_ok(g, d) ==> final(cache).labels_ok(g, d),
        final(cache).top == old(cache).top,
        r matches Ok((t, n)) ==> sound(t.deep_view(), n as int, suffix(old(cache).top@, l as int))
            && (old(cache).labels_ok(g, d) ==> labeled(t.deep_view(), g, d)),
        final(cache).dp == old(cache).dp,
        final(cache).parts == old(cache).parts,
        forall|i: int| #[trigger]
            first_entry(old(cache).dp@, i, l, rulehash@) ==> {
                &&& *final(cache) == *old(cache)
                &&& match old(cache).dp@[i].2 {
                    Some(x) => r matches Ok(y) && same_result(Some(x), Some(y)),
                    None => r == Err::<(SyntaxTreeNode, usize), bool>(true),
                }
            },
        no_entry(old(cache).dp@, l, rulehash@) ==> visit_step(
            old(cache).visit@,
            final(cache).visit@,
            l,
            *rulehash,
            r,
        ),
{
    match find_entry(&cache.dp, l, rulehash.as_str()) {
        Some(i) => {
            assert(entry_ok(cache.dp@[i as int], cache.top@));
            assert(cache.labels_ok(g, d) ==> labeled_result(cache.dp@[i as int].2, g, d));
            assert(first_entry(cache.dp@, i as int, l, rulehash@));
            assert forall|j: int| #[trigger] first_entry(cache.dp@, j, l, rulehash@) implies j == i by {
                lemma_first_unique(cache.dp@, j, i as int, l, rulehash@);
            }
            let c = copy_result(&cache.dp[i].2);
            return match c {
                Some(x) => Ok(x),
                None => Err(true),
            };
        },
        None => {},
    }
    let ghost before = cache.visit@;
    match find_visit(&cache.visit, l, rulehash.as_str()) {
        Some(i) => {
            proof {
                assert forall|j: int| #[trigger] first_entry(before, j, l, rulehash@) implies j == i by {
                    lemma_first_unique(before, j, i as int, l, rulehash@);
                }
                assert(!no_entry(before, l, rulehash@)) by {
                    assert(entry_is(before[i as int], l, rulehash@));
                }
            }
            let x = cache.visit[i].2;
            if x < STACK_LIMIT {
                cache.visit.set(i, (l, rulehash.clone(), x + 1));
            } else {
                return Err(true);
            }
        },
        None => {
            cache.visit.push((l, rulehash.clone(), 0));
        },
    }
    Err(false)
}

/// Remembers the result of a rule match.
fn cache_register(
    cache: &mut ParseCache,
    l: usize,
    rulehash: String,
    tree: Option<(SyntaxTreeNode, usize)>,
    Ghost(g): Ghost<Map<Seq<char>, PhraseContextV>>,
    Ghost(d): Ghost<Map<Seq<char>, Seq<VocaV>>>,
)
    requires
        old(cache).wf(),
        l <= old(cache).top@.len(),
        sound_result(tree, suffix(old(cache).top@, l as int)),
    ensures
        final(cache).wf(),
        old(cache).labels_ok(g, d) && labeled_result(tree, g, d) ==> final(cache).labels_ok(g, d),
        final(cache).top == old(cache).top,
        stored(old(cache).dp@, final(cache).dp@, l, rulehash, tree),
        final(cache).visit == old(cache).visit,
        final(cache).parts == old(cache).parts,
{
    let ghost top = cache.top@;
    let ghost before = cache.dp@;
    put_entry(&mut cache.dp, l, rulehash, tree, Ghost(top));
    proof {
        if old(cache).labels_ok(g, d) && labeled_result(tree, g, d) {
            lemma_table_labeled(before, cache.dp@, tree, g, d);
        }
    }
}

/// A part argument with `@a:b` read as attribute `b` (or `0`) of the `a`-th
/// matched word; `None` when it cannot be read or no such word was matched.
pub open spec fn resolved_arg(x: Seq<char>, attrs: Seq<Seq<Seq<char>>>) -> Option<Seq<char>> {
    if x.len() > 0 && x[0] == '@' {
        match split_once(x.drop_first(), ':') {
            None => None,
            Some((a, b)) => match (parse_usize(a), parse_usize(b)) {
                (Some(ai), Some(bi)) => if ai < attrs.len() {
                    Some(item_or_zero(attrs[ai as int], bi as int))
                } else {
                    None
                },
                _ => None,
            },
        }
    } else {
        Some(x)
    }
}

/// A number written with an optional `+` and decimal digits holds no `:`.
proof fn lemma_number_has_no_colon(t: Seq<char>)
    requires
        parse_usize(t) is Some,
    ensures
        forall|i: int| 0 <= i < t.len() ==> t[i] != ':',
{
    let d = if t.len() > 0 && t[0] == '+' {
        t.drop_first()
    } else {
        t
    };
    assert(all_digits(d));
    assert forall|i: int| 0 <= i < t.len() implies t[i] != ':' by {
        if t.len() > 0 && t[0] == '+' {
            if i > 0 {
                assert(t[i] == d[i - 1]);
                assert(is_digit(d[i - 1]));
            }
        } else {
            assert(is_digit(d[i]));
        }
    }
}

/// A part argument `@a:b` reads attribute `b` (or `0` when the word has fewer)
/// of the `a`-th word matched so far in the rule, for numbers `a` and `b`
/// written in decimal.
pub proof fn lemma_attribute_argument(a: Seq<char>, b: Seq<char>, attrs: Seq<Seq<Seq<char>>>)
    requires
        parse_usize(a) is Some,
        parse_usize(b) is Some,
        parse_usize(a)->0 < attrs.len(),
    ensures
        resolved_arg(seq!['@'] + a + seq![':'] + b, attrs) == Some(
            item_or_zero(attrs[parse_usize(a)->0 as int], parse_usize(b)->0 as int),
        ),
{
    let x = seq!['@'] + a + seq![':'] + b;
    lemma_number_has_no_colon(a);
    lemma_split_once_past(a, b, ':');
    assert(x.drop_first() =~= a + seq![':'] + b);
    assert(x[0] == '@');
}

fn resolve_args(args: &Vec<String>, attrs: &Vec<&Vec<String>>) -> (r: Option<Vec<String>>)
    ensures
        r matches Some(v) ==> v.len() == args.len() && forall|i: int|
            0 <= i < args.len() ==> resolved_arg(args@[i]@, attrs.deep_view()) == Some(
                #[trigger] v@[i]@,
            ),
        r is None ==> exists|i: int|
            0 <= i < args.len() && (#[trigger] resolved_arg(args@[i]@, attrs.deep_view())) is None,
{
    let mut out: Vec<String> = Vec::new();
    let mut i: usize = 0;
    while i < args.len()
        invariant
            i <= args.len(),
            out.len() == i,
            forall|j: int|
                0 <= j < i ==> resolved_arg(args@[j]@, attrs.deep_view()) == Some(#[trigger] out@[j]@),
        decreases args.len() - i,
    {
        let e = chars_of(args[i].as_str());
        if e.len() > 0 && e[0] == '@' {
            let rest = &e.as_slice()[1..e.len()];
            assert(rest@ == e@.drop_first());
            match split_once_char(rest, ':') {
                None => {
                    assert(resolved_arg(args@[i as int]@, attrs.deep_view()) is None);
                    return None;
                },
                Some((a, b)) => {
                    match (to_usize(a.as_slice()), to_usize(b.as_slice())) {
                        (Some(ai), Some(bi)) => {
                            if ai >= attrs.len() {
                                assert(resolved_arg(args@[i as int]@, attrs.deep_view()) is None);
                                return None;
                            }
                            let row: &Vec<String> = attrs[ai];
                            assert(attrs.deep_view()[ai as int] == row.deep_view());
                            let v = if bi < row.len() {
                                row[bi].clone()
                            } else {
                                let z = string_from(vec!['0'].as_slice());
                                assert(z@ =~= zero_text());
                                z
                            };
                            out.push(v);
                        },
                        _ => {
                            assert(resolved_arg(args@[i as int]@, attrs.deep_view()) is None);
                            return None;
                        },
                    }
                },
            }
        } else {
            out.push(args[i].clone());
        }
        i = i + 1;
    }
    Some(out)
}

/// The measure that every step of a match decreases: characters left to read,
/// weighted above nodes left to match.
pub open spec fn measure(left: int, nodes: int, width: int) -> int {
    left * (width + 1) + nodes
}

proof fn lemma_measure(d: int, l: int, d2: int, l2: int, w: int)
    requires
        0 <= l <= w,
        0 <= l2 <= w,
        0 <= d2 <= d,
        d2 < d || l2 < l,
    ensures
        measure(d2, l2, w) < measure(d, l, w),
{
    if d2 < d {
        assert(d2 * (w + 1) + w < d * (w + 1)) by (nonlinear_arith)
            requires
                d2 < d,
                0 <= w,
        ;
    } else {
        assert(d2 * (w + 1) == d * (w + 1));
    }
}

proof fn lemma_measure_nonneg(d: int, l: int, w: int)
    requires
        0 <= d,
        0 <= l,
        0 <= w,
    ensures
        measure(d, l, w) >= 0,
{
    assert(d * (w + 1) >= 0) by (nonlinear_arith)
        requires
            0 <= d,
            0 <= w,
    ;
}

/// What holds of every live expectation while matching `rule` against `s`.
pub open spec fn expectation_ok(e: Expectation, rule: Seq<TemplateNode>, s: Seq<char>) -> bool {
    &&& e.tree is Some
    &&& e.tree->0.deep_view() is Category
    &&& e.reading <= s.len()
    &&& padded(leaves(e.tree->0.deep_view()), s.take(e.reading as int))
    &&& e.rule@.len() <= rule.len()
    &&& e.rule@ == rule.skip(rule.len() - e.rule@.len())
}

/// The measure of an expectation.
pub open spec fn e_measure(e: Expectation, rule: Seq<TemplateNode>, s: Seq<char>) -> int {
    measure(s.len() - e.reading, e.rule@.len() as int, rule.len() as int)
}

proof fn lemma_push_child(t: TreeV, x: TreeV, a: Seq<char>, b: Seq<char>)
    requires
        t is Category,
        padded(leaves(t), a),
        padded(leaves(x), b),
    ensures
        ({
            let t2 = TreeV::Category { name: t->Category_name, children: t->Category_children.push(x) };
            padded(leaves(t2), a + b)
        }),
{
    lemma_leaves_push(t->Category_children, x);
    lemma_padded_concat(leaves(t), a, leaves(x), b);
}

/// The rules of a part of the grammar made concrete are named after rules of
/// the grammar and hold only literals of the grammar.
pub proof fn lemma_part_from_grammar(
    g: Map<Seq<char>, PhraseContextV>,
    name: Seq<char>,
    args: Seq<Seq<char>>,
    rs: Seq<crate::lan::lanparser::declaration::RuleV>,
)
    requires
        g.contains_key(name),
        gain_seq(g[name].children, args, Map::empty()) matches Some((x, _)) && x == rs,
    ensures
        forall|k: int|
            0 <= k < rs.len() ==> rule_literals_ok(#[trigger] rs[k].rules, g) && grammar_rule(g, rs[k].name),
{
    let cs = g[name].children;
    lemma_build_within(cs, args);
    lemma_build_names(cs, args);
    assert(gained_rules(gain_seq(cs, args, Map::empty())) == rs);
    assert forall|k: int| 0 <= k < rs.len() implies rule_literals_ok(#[trigger] rs[k].rules, g) by {
        assert(crate::concrete::literals_within(rs[k].rules, cs));
        assert forall|j: int| 0 <= j < rs[k].rules.len() implies #[trigger] node_literal_ok(
            rs[k].rules[j],
            g,
        ) by {
            assert(literal_within(rs[k].rules[j], cs));
        }
    }
}

#[verifier::rlimit(100)]
#[verifier::spinoff_prover]
/// Moves one expectation forward by one node (see the module documentation).
/// An expectation that makes no progress — a free node matching nothing, or a
/// node that stands for an alias — is dropped, and so is one whose next node
/// cannot be matched for want of a dictionary category, a readable part
/// argument, a part of that name, or text after the blanks.
fn advance<'p>(
    e: &mut Expectation<'p>,
    s: &[char],
    rules: &'p LanRules,
    dict: &'p Dictionary,
    cargs: &Vec<String>,
    cache: &mut ParseCache,
    depth: usize,
    Ghost(rule): Ghost<Seq<TemplateNode>>,
    Ghost(lab): Ghost<bool>,
)
    requires
        old(cache).wf(),
        is_suffix(s@, old(cache).top@),
        rules.wf(),
        dict.wf(),
        lab ==> old(cache).labels_ok(rules.map(), dict.map()),
        lab ==> forall|j: int|
            0 <= j < rule.len() ==> #[trigger] node_literal_ok(rule[j].deep_view(), rules.map()),
        expectation_ok(*old(e), rule, s@),
        lab ==> labeled(old(e).tree->0.deep_view(), rules.map(), dict.map()),
        old(e).rule@.len() > 0,
        old(e).alive,
    ensures
        final(cache).wf(),
        final(cache).top == old(cache).top,
        lab ==> final(cache).labels_ok(rules.map(), dict.map()),
        final(e).alive ==> {
            &&& expectation_ok(*final(e), rule, s@)
            &&& e_measure(*final(e), rule, s@) < e_measure(*old(e), rule, s@)
            &&& lab ==> labeled(final(e).tree->0.deep_view(), rules.map(), dict.map())
        },
        tables_v(*final(cache)) == adv(
            depth as nat,
            tables_v(*old(cache)),
            s@,
            cargs.deep_view(),
            old(e).deep_view(),
            rules.map(),
            dict.map(),
        ).0,
        (if final(e).alive {
            Some(final(e).deep_view())
        } else {
            None
        }) == adv(
            depth as nat,
            tables_v(*old(cache)),
            s@,
            cargs.deep_view(),
            old(e).deep_view(),
            rules.map(),
            dict.map(),
        ).1,
    decreases depth, 0usize,
{
    let ghost g = rules.map();
    let ghost d = dict.map();
    proof {
        reveal_with_fuel(adv, 1);
    }
    let ghost ev = e.deep_view();
    let ghost cv = tables_v(*cache);
    let ghost av = cargs.deep_view();
    let reading0 = e.reading;
    let len0 = e.rule.len();
    proof {
        lemma_measure_nonneg((s@.len() - reading0) as int, len0 as int, rule.len() as int);
    }
    if e.reading >= s.len() {
        e.kill();
        assert(adv(depth as nat, cv, s@, av, ev, g, d) == (cv, None::<ExpectationV>));
        return;
    }
    while e.reading < s.len() && (s[e.reading] == ' ' || s[e.reading] == '\r' || s[e.reading] == '\n'
        || s[e.reading] == '\t')
        invariant
            expectation_ok(*e, rule, s@),
            lab ==> labeled(e.tree->0.deep_view(), g, d),
            e.rule == old(e).rule,
            reading0 <= e.reading <= s.len(),
            e.alive,
            e.deep_view() == (ExpectationV { reading: e.reading, ..ev }),
            skip_blanks(s@, e.reading as int) == skip_blanks(s@, reading0 as int),
        decreases s.len() - e.reading,
    {
        let ghost t = e.tree->0.deep_view();
        let ghost r = e.reading;
        e.read(1);
        proof {
            assert(s@.take(r + 1) == s@.take(r as int).push(s@[r as int]));
            assert(s@.take(r + 1).drop_last() == s@.take(r as int));
        }
    }
    proof {
        assert(skip_blanks(s@, e.reading as int) == e.reading as int);
    }
    if e.reading >= s.len() {
        e.kill();
        assert(adv(depth as nat, cv, s@, av, ev, g, d) == (cv, None::<ExpectationV>));
        return;
    }
    let reading = e.reading;
    let prule: &TemplateNode = &e.rule[0];
    let ghost t0 = e.tree->0.deep_view();
    let ghost ev1 = e.deep_view();
    proof {
        assert(e.rule@[0] == rule[rule.len() - e.rule@.len()]);
        assert(lab ==> node_literal_ok(prule.deep_view(), g));
        assert(ev.rule[0] == prule.deep_view());
        assert(ev.rule.len() > 0);
    }
    match &prule.template {
        Templates::Text(t) => {
            let rest = &s[reading..s.len()];
            assert(rest@ == s@.skip(reading as int));
            if starts_with(rest, t.text.as_slice()) {
                let n = t.text.len();
                let txt = string_from(&s[reading..reading + n]);
                proof {
                    assert(s@.subrange(reading as int, reading + n) == rest@.take(n as int));
                    lemma_padded_refl(txt@);
                    lemma_push_child(
                        t0,
                        TreeV::Vocab { text: txt@, name: t.name@ },
                        s@.take(reading as int),
                        txt@,
                    );
                    assert(s@.take(reading as int) + txt@ == s@.take(reading + n));
                    assert(txt@ == t.text@);
                    if lab {
                        assert(grammar_literal(g, t.text@, t.name@));
                        lemma_labeled_push(
                            t0->Category_children,
                            TreeV::Vocab { text: txt@, name: t.name@ },
                            g,
                            d,
                        );
                    }
                }
                let m = SyntaxTreeNode::new_morpheme(t.name.clone(), txt);
                e.read(n);
                e.next_rule();
                e.push_category(m);
                proof {
                    assert(rest@ == s@.skip(reading as int));
                    assert(e.rule.deep_view() =~= next_rule_v(ev.rule));
                    assert(e.deep_view() == moved(
                        ev,
                        reading as int,
                        n as int,
                        TreeV::Vocab { text: s@.subrange(reading as int, reading + n), name: t.name@ },
                    ));
                    assert(node_step(depth as nat, cv, s@, av, ev, reading as int, g, d) == (
                        tables_v(*cache), Some(e.deep_view()))) by {
                        reveal_with_fuel(node_step, 1);
                    }
                }
            } else {
                e.kill();
                proof {
                    assert(node_step(depth as nat, cv, s@, av, ev, reading as int, g, d) == (
                        tables_v(*cache), None::<ExpectationV>)) by {
                        reveal_with_fuel(node_step, 1);
                    }
                }
            }
        },
        Templates::ShortPart(p) => {
            match try_search_dict(dict, p, s, reading, &e.voca_attrs, cargs) {
                None => {
                    e.kill();
                    proof {
                        assert(node_step(depth as nat, cv, s@, av, ev, reading as int, g, d) == (
                            tables_v(*cache), None::<ExpectationV>)) by {
                            reveal_with_fuel(node_step, 1);
                        }
                    }
                },
                Some(x) => {
                    if x.len() == 0 {
                        e.kill();
                        proof {
                            assert(node_step(depth as nat, cv, s@, av, ev, reading as int, g, d) == (
                                tables_v(*cache), None::<ExpectationV>)) by {
                                reveal_with_fuel(node_step, 1);
                            }
                        }
                    } else {
                        let mut best: usize = 0;
                        let mut j: usize = 1;
                        proof {
                            assert(x.deep_view().take(1).len() == 1);
                        }
                        while j < x.len()
                            invariant
                                1 <= j <= x.len(),
                                best < j,
                                best == longest(x.deep_view().take(j as int)),
                            decreases x.len() - j,
                        {
                            proof {
                                let xs = x.deep_view().take(j + 1);
                                assert(xs.drop_last() =~= x.deep_view().take(j as int));
                                assert(xs.last() == x.deep_view()[j as int]);
                                assert(xs[best as int] == x.deep_view()[best as int]);
                                assert(x.deep_view()[j as int] == x@[j as int].deep_view());
                                assert(x.deep_view()[best as int] == x@[best as int].deep_view());
                            }
                            if x[j].text.len() >= x[best].text.len() {
                                best = j;
                            }
                            j = j + 1;
                        }
                        proof {
                            assert(x.deep_view().take(j as int) =~= x.deep_view());
                        }
                        let mx: &'p Voca = x[best];
                        proof {
                            lemma_matching_words(
                                dict.map()[p.part_name@],
                                p.deep_view(),
                                s@,
                                reading as int,
                                e.voca_attrs.deep_view(),
                                cargs.deep_view(),
                            );
                            assert(x.deep_view()[best as int] == mx.deep_view());
                            assert(word_matches(
                                mx.deep_view(),
                                p.deep_view(),
                                s@,
                                reading as int,
                                e.voca_attrs.deep_view(),
                                cargs.deep_view(),
                            ));
                        }
                        let n = mx.text.len();
                        let txt = string_from(&s[reading..reading + n]);
                        proof {
                            lemma_padded_refl(txt@);
                            lemma_push_child(
                                t0,
                                TreeV::Vocab { text: txt@, name: p.part_name@ },
                                s@.take(reading as int),
                                txt@,
                            );
                            assert(s@.take(reading as int) + txt@ == s@.take(reading + n));
                            let words = d[p.part_name@];
                            lemma_matching_words_from(
                                words,
                                p.deep_view(),
                                s@,
                                reading as int,
                                e.voca_attrs.deep_view(),
                                cargs.deep_view(),
                            );
                            assert(words.contains(mx.deep_view()));
                            let wi = choose|wi: int| 0 <= wi < words.len() && words[wi] == mx.deep_view();
                            assert(txt@ == mx.text@);
                            assert(d[p.part_name@][wi].text == txt@);
                            assert(morpheme_ok(txt@, p.part_name@, g, d));
                            if lab {
                                lemma_labeled_push(
                                    t0->Category_children,
                                    TreeV::Vocab { text: txt@, name: p.part_name@ },
                                    g,
                                    d,
                                );
                            }
                        }
                        e.push_category(SyntaxTreeNode::new_morpheme(p.part_name.clone(), txt));
                        e.register_attr(&mx.argv);
                        e.read(n);
                        e.next_rule();
                        proof {
                            assert(e.rule.deep_view() =~= next_rule_v(ev.rule));
                            assert(e.voca_attrs.deep_view() =~= ev.voca_attrs.push(mx.argv.deep_view()));
                            let e2 = moved(
                                ev,
                                reading as int,
                                n as int,
                                TreeV::Vocab { text: s@.subrange(reading as int, reading + n), name: p.part_name@ },
                            );
                            assert(e.deep_view() == (ExpectationV { voca_attrs: ev.voca_attrs.push(mx.argv.deep_view()), ..e2 }));
                            assert(node_step(depth as nat, cv, s@, av, ev, reading as int, g, d) == (
                                tables_v(*cache), Some(e.deep_view()))) by {
                                reveal_with_fuel(node_step, 1);
                            }
                        }
                    }
                },
            }
        },
        Templates::Template(template) => {
            let resolved = resolve_args(&template.args, &e.voca_attrs);
            match resolved {
                None => {
                    e.kill();
                    proof {
                        let i = choose|i: int|
                            0 <= i < template.args.len() && (#[trigger] resolved_arg(
                                template.args@[i]@,
                                e.voca_attrs.deep_view(),
                            )) is None;
                        assert(template.args.deep_view()[i] == template.args@[i]@);
                        assert(resolved_arg(template.args.deep_view()[i], ev.voca_attrs) is None);
                        assert(resolve_all(template.args.deep_view(), ev.voca_attrs) is None);
                    }
                    proof {
                        assert(node_step(depth as nat, cv, s@, av, ev, reading as int, g, d) == (
                            tables_v(*cache), None::<ExpectationV>)) by {
                            reveal_with_fuel(node_step, 1);
                        }
                    }
                },
                Some(t2) => {
                    proof {
                        let av0 = template.args.deep_view();
                        assert forall|i: int| 0 <= i < av0.len() implies (#[trigger] resolved_arg(
                            av0[i],
                            ev.voca_attrs,
                        )) is Some by {
                            assert(av0[i] == template.args@[i]@);
                            assert(resolved_arg(av0[i], e.voca_attrs.deep_view()) == Some(t2@[i]@));
                        }
                        assert forall|i: int| 0 <= i < t2.deep_view().len() implies t2.deep_view()[i]
                            == resolve_all(av0, ev.voca_attrs)->0[i] by {
                            assert(av0[i] == template.args@[i]@);
                            assert(t2.deep_view()[i] == t2@[i]@);
                            assert(resolved_arg(av0[i], e.voca_attrs.deep_view()) == Some(t2@[i]@));
                        }
                        assert(t2.deep_view() =~= resolve_all(template.args.deep_view(), ev.voca_attrs)->0);
                    }
                    if depth == 0 {
                        e.kill();
                        proof {
                            assert(node_step(depth as nat, cv, s@, av, ev, reading as int, g, d) == (
                                tables_v(*cache), None::<ExpectationV>)) by {
                                reveal_with_fuel(node_step, 1);
                            }
                        }
                    } else {
                        match rules.get(template.name.as_str()) {
                            None => {
                                e.kill();
                                proof {
                                    assert(node_step(depth as nat, cv, s@, av, ev, reading as int, g, d) == (
                                        tables_v(*cache), None::<ExpectationV>)) by {
                                        reveal_with_fuel(node_step, 1);
                                    }
                                }
                            },
                            Some(pc) => {
                                match pc.try_build(&t2) {
                                    None => {
                                        e.kill();
                                        proof {
                                            assert(node_step(depth as nat, cv, s@, av, ev, reading as int, g, d) == (
                                                tables_v(*cache), None::<ExpectationV>)) by {
                                                reveal_with_fuel(node_step, 1);
                                            }
                                        }
                                    },
                                    Some(part) => {
                                        let rest = &s[reading..s.len()];
                                        proof {
                                            assert(rest@ == s@.skip(reading as int));
                                            assert(rest@ == suffix(cache.top@, rest@.len() as int));
                                            lemma_part_from_grammar(
                                                g,
                                                template.name@,
                                                t2.deep_view(),
                                                part.rules.deep_view(),
                                            );
                                            assert(crate::lan::parse::rules_from_grammar(part.rules.deep_view(), g));
                                        }
                                        proof {
                                            assert(pc.name@ == g[template.name@].name);
                                        }
                                        let parsed = parse(rest, part, rules, dict, cache, depth - 1);
                                        match parsed {
                                            Some((stn, x)) => {
                                                proof {
                                                    lemma_push_child(
                                                        t0,
                                                        stn.deep_view(),
                                                        s@.take(reading as int),
                                                        rest@.take(x as int),
                                                    );
                                                    assert(s@.take(reading as int) + rest@.take(x as int)
                                                        == s@.take(reading + x));
                                                    if lab {
                                                        lemma_labeled_push(
                                                            t0->Category_children,
                                                            stn.deep_view(),
                                                            g,
                                                            d,
                                                        );
                                                    }
                                                }
                                                e.read(x);
                                                e.next_rule();
                                                e.push_category(stn);
                                                proof {
                                                    assert(e.rule.deep_view() =~= next_rule_v(ev.rule));
                                                    assert(e.deep_view() == moved(ev, reading as int, x as int, stn.deep_view()));
                                                    assert(node_step(depth as nat, cv, s@, av, ev, reading as int, g, d) == (
                                                        tables_v(*cache), Some(e.deep_view()))) by {
                                                        reveal_with_fuel(node_step, 1);
                                                    }
                                                }
                                            },
                                            None => {
                                                e.kill();
                                                proof {
                                                    assert(node_step(depth as nat, cv, s@, av, ev, reading as int, g, d) == (
                                                        tables_v(*cache), None::<ExpectationV>)) by {
                                                        reveal_with_fuel(node_step, 1);
                                                    }
                                                }
                                            },
                                        }
                                    },
                                }
                            },
                        }
                    }
                },
            }
        },
        Templates::Embed(_) => {
            assert(node_step(depth as nat, cv, s@, av, ev, reading as int, g, d) == (
                tables_v(*cache), Some(e.deep_view()))) by {
                reveal_with_fuel(node_step, 1);
            }
        },
    }
    proof {
        reveal_with_fuel(node_step, 1);
        assert(skip_blanks(s@, reading0 as int) == reading as int);
        assert(node_step(depth as nat, cv, s@, av, ev, reading as int, g, d) == (
        tables_v(*cache),
        if e.alive {
            Some(e.deep_view())
        } else {
            None
        },
        ));
    }
    if e.alive && e.reading == reading0 && e.rule.len() == len0 {
        e.kill();
    }
    proof {
        if e.alive {
            lemma_measure(
                (s@.len() - reading0) as int,
                len0 as int,
                (s@.len() - e.reading) as int,
                e.rule@.len() as int,
                rule.len() as int,
            );
            assert(e.rule@ == rule.skip(rule.len() - e.rule@.len()));
        }
    }
}

/// The count of leading nodes that may be skipped or repeated is the same on
/// the nodes' models.
proof fn lemma_lead_v(r: Seq<TemplateNode>, rv: Seq<TemplateNodeV>)
    requires
        rv.len() == r.len(),
        forall|i: int| 0 <= i < r.len() ==> rv[i] == (#[trigger] r[i]).deep_view(),
    ensures
        lead(r) == lead_v(rv),
    decreases r.len(),
{
    if r.len() > 0 {
        assert(rv[0] == r[0].deep_view());
        lemma_lead_v(r.drop_first(), rv.drop_first());
    }
}

/// The key under which a rule match is remembered: the rule's text followed by
/// the part's parameter values.
pub open spec fn rule_key(rule: Seq<TemplateNodeV>, cargs: Seq<Seq<char>>) -> Seq<char> {
    rule_text(rule) + join(cargs, Seq::empty())
}

/// Matches of one rule share a memo entry only when their parameter values,
/// joined, read the same: a match is never handed a result remembered for
/// parameter values that read differently.
pub proof fn lemma_memo_key_parameters(rule: Seq<TemplateNodeV>, c1: Seq<Seq<char>>, c2: Seq<Seq<char>>)
    ensures
        rule_key(rule, c1) == rule_key(rule, c2) <==> join(c1, Seq::empty()) == join(c2, Seq::empty()),
{
    let t = rule_text(rule);
    assert((t + join(c1, Seq::empty())).skip(t.len() as int) =~= join(c1, Seq::empty()));
    assert((t + join(c2, Seq::empty())).skip(t.len() as int) =~= join(c2, Seq::empty()));
}

fn rule_hash(rule: &[TemplateNode], cargs: &Vec<String>) -> (r: String)
    ensures
        r@ == rule_key(rule.deep_view(), cargs.deep_view()),
{
    let t = parsingrule_tostr(rule);
    let mut out = chars_of(t.as_str());
    let mut items: Vec<Vec<char>> = Vec::new();
    let mut i: usize = 0;
    while i < cargs.len()
        invariant
            i <= cargs.len(),
            crate::text::views(items@) == cargs.deep_view().take(i as int),
        decreases cargs.len() - i,
    {
        let c = chars_of(cargs[i].as_str());
        let ghost before = crate::text::views(items@);
        items.push(c);
        assert(crate::text::views(items@) =~= before.push(c@));
        assert(cargs.deep_view().take(i + 1) =~= cargs.deep_view().take(i as int).push(cargs@[i as int]@));
        i = i + 1;
    }
    assert(cargs.deep_view().take(i as int) =~= cargs.deep_view());
    crate::text::push_joined(&mut out, &items, "");
    proof {
        reveal_strlit("");
        assert(""@ =~= Seq::<char>::empty());
    }
    string_from(out.as_slice())
}

#[verifier::rlimit(100)]
#[verifier::spinoff_prover]
/// Matches the rule `rule` (of the rule named `name`) against the start of `s`,
/// where `cargs` are the values of the part's parameters, and returns the
/// candidate that read furthest (the last of those that read equally far) with
/// the number of characters it read; `None` when no candidate reaches the end of
/// the rule. Results are remembered in `cache` under the rule's text and the
/// parameter values; a rule match entered again at the same position before it
/// has a result is refused after [`STACK_LIMIT`] re-entries. Part references are
/// parsed at most `depth` levels deep.
///
/// The result and the memo tables after are exactly [`model::fit_c`] of the
/// tables before. Any result is sound (see [`sound`]); it is labeled by the
/// grammar and the dictionary (see [`labeled`]) when the remembered results
/// are, the rule's literals stand in the grammar and `name` names a rule of it.
pub fn fit_rules<'p>(
    s: &[char],
    name: &'p str,
    rule: &'p [TemplateNode],
    rules: &'p LanRules,
    dict: &'p Dictionary,
    cargs: &Vec<String>,
    cache: &mut ParseCache,
    depth: usize,
) -> (r: Option<(SyntaxTreeNode, usize)>)
    requires
        old(cache).wf(),
        is_suffix(s@, old(cache).top@),
        rules.wf(),
        dict.wf(),
    ensures
        final(cache).wf(),
        final(cache).top == old(cache).top,
        old(cache).labels_ok(rules.map(), dict.map()) && rule_literals_ok(rule.deep_view(), rules.map())
            && grammar_rule(rules.map(), name@) ==> final(cache).labels_ok(rules.map(), dict.map())
            && labeled_result(r, rules.map(), dict.map()),
        sound_result(r, s@),
        forall|i: int| #[trigger]
            first_entry(old(cache).dp@, i, s.len(), rule_key(rule.deep_view(), cargs.deep_view()))
                ==> same_result(r, old(cache).dp@[i].2) && same_cache(*final(cache), *old(cache)),
        refused(*old(cache), s.len(), rule_key(rule.deep_view(), cargs.deep_view())) ==> r is None
            && same_cache(*final(cache), *old(cache)),
        no_entry(old(cache).dp@, s.len(), rule_key(rule.deep_view(), cargs.deep_view())) && !refused(
            *old(cache),
            s.len(),
            rule_key(rule.deep_view(), cargs.deep_view()),
        ) ==> remembered(final(cache).dp@, s.len(), rule_key(rule.deep_view(), cargs.deep_view()), r),
        tables_v(*final(cache)) == fit_c(
            depth as nat,
            tables_v(*old(cache)),
            s@,
            name@,
            rule.deep_view(),
            cargs.deep_view(),
            rules.map(),
            dict.map(),
        ).0,
        res_v(r) == fit_c(
            depth as nat,
            tables_v(*old(cache)),
            s@,
            name@,
            rule.deep_view(),
            cargs.deep_view(),
            rules.map(),
            dict.map(),
        ).1,
    decreases depth, 1usize,
{
    let ghost g = rules.map();
    let ghost d = dict.map();
    let ghost c0 = *cache;
    let ghost lab = c0.labels_ok(g, d) && rule_literals_ok(rule.deep_view(), g) && grammar_rule(g, name@);
    assert forall|j: int| lab && 0 <= j < rule@.len() implies #[trigger] node_literal_ok(rule@[j].deep_view(), g) by {
        assert(rule.deep_view()[j] == rule@[j].deep_view());
    }
    let rulehash = rule_hash(rule, cargs);
    let ghost key = rulehash@;
    let looked = cache_view(cache, s.len(), &rulehash, Ghost(g), Ghost(d));
    let ghost cv0 = tables_v(c0);
    let ghost av = cargs.deep_view();
    let ghost fd = first_at(cv0.dp, s.len() as int, key);
    let ghost fv = first_at(cv0.visit, s.len() as int, key);
    let ghost cv1 = TablesV {
        visit: if fv >= 0 {
            cv0.visit.update(fv, (s.len(), key, (cv0.visit[fv].2 + 1) as u8))
        } else {
            cv0.visit.push((s.len(), key, 0u8))
        },
        ..cv0
    };
    proof {
        assert(same_keys(c0.dp@, cv0.dp));
        lemma_first_at_entry(c0.dp@, cv0.dp, s.len(), key);
        assert(same_keys(c0.visit@, cv0.visit));
        lemma_first_at_entry(c0.visit@, cv0.visit, s.len(), key);
        if fd >= 0 {
            assert(cv0.dp[fd].2 == res_v(c0.dp@[fd].2));
            assert(*cache == c0);
        } else if fv >= 0 && cv0.visit[fv].2 >= STACK_LIMIT {
            assert(cv0.visit[fv].2 == c0.visit@[fv].2);
            assert(tables_v(*cache) =~= cv0);
        } else {
            assert(no_entry(c0.dp@, s.len(), key));
            if fv >= 0 {
                assert(cv0.visit[fv].2 == c0.visit@[fv].2);
                assert(visit_table_v(cache.visit@) =~= cv1.visit);
            } else {
                assert(visit_table_v(cache.visit@) =~= cv1.visit);
            }
            assert(tables_v(*cache) =~= cv1);
        }
    }
    proof {
        if !no_entry(c0.dp@, s.len(), key) {
            let j = choose|j: int| 0 <= j < c0.dp@.len() && entry_is(#[trigger] c0.dp@[j], s.len(), key);
            let f = lemma_first_of(c0.dp@, j, s.len(), key);
            assert(first_entry(c0.dp@, f, s.len(), key));
        } else if !no_entry(c0.visit@, s.len(), key) {
            let j = choose|j: int| 0 <= j < c0.visit@.len() && entry_is(#[trigger] c0.visit@[j], s.len(), key);
            let f = lemma_first_of(c0.visit@, j, s.len(), key);
            assert(first_entry(c0.visit@, f, s.len(), key));
            if c0.visit@[f].2 >= STACK_LIMIT {
                assert(refused(c0, s.len(), key));
            } else {
                assert forall|j2: int| #[trigger] first_entry(c0.visit@, j2, s.len(), key) implies j2 == f by {
                    lemma_first_unique(c0.visit@, j2, f, s.len(), key);
                }
                assert(!refused(c0, s.len(), key));
            }
        } else {
            assert(!refused(c0, s.len(), key));
        }
    }
    proof {
        reveal_with_fuel(fit_c, 1);
    }
    match looked {
        Err(true) => {
            return None;
        },
        Ok(x) => {
            return Some(x);
        },
        Err(false) => {},
    }
    assert(fd < 0 && !(fv >= 0 && cv0.visit[fv].2 >= STACK_LIMIT));
    assert(tables_v(*cache) == cv1);
    let ghost rv = rule@;
    let ghost w = rule@.len() as int;
    let mut expections = nexts(name, rule);
    let mut winners: Vec<(SyntaxTreeNode, usize)> = Vec::new();
    let ghost mut bound: int = measure(s@.len() as int, w, w);
    let ghost rdv = rule.deep_view();
    let ghost goal = run(depth as nat, cv1, s@, av, starts(name@, rdv), (bound + 1) as nat, g, d);
    proof {
        lemma_lead_v(rule@, rdv);
        assert(expections.deep_view() =~= starts(name@, rdv)) by {
            assert forall|k: int| 0 <= k < expections@.len() implies expections.deep_view()[k] == starts(name@, rdv)[k] by {
                let x = expections@[k];
                assert(x.rule.deep_view() =~= rdv.skip(k));
                assert(x.voca_attrs.deep_view() =~= Seq::<Seq<Seq<char>>>::empty());
            }
        }
        assert(wins_v(winners@) =~= Seq::<(TreeV, usize)>::empty());
    }
    proof {
        assert forall|k: int| 0 <= k < expections@.len() implies expectation_ok(
            #[trigger] expections@[k],
            rv,
            s@,
        ) && e_measure(expections@[k], rv, s@) <= bound by {
            let e = expections@[k];
            assert(e.rule@ == rv.skip(k));
            assert(leaves(e.tree->0.deep_view()) =~= Seq::<char>::empty());
            assert(s@.take(0) =~= Seq::<char>::empty());
            assert(rv.skip(rv.len() - e.rule@.len()) == rv.skip(k));
            lemma_measure_mono(s@.len() as int, e.rule@.len() as int, w);
        }
        assert forall|k: int| lab && 0 <= k < expections@.len() implies labeled(
            (#[trigger] expections@[k]).tree->0.deep_view(),
            g,
            d,
        ) by {
            assert(labeled_all(Seq::<TreeV>::empty(), g, d));
        }
        lemma_measure_nonneg(s@.len() as int, w, w);
    }
    while expections.len() > 0
        invariant
            cache.wf(),
            cache.top == old(cache).top,
            is_suffix(s@, cache.top@),
            rules.wf(),
            dict.wf(),
            rv == rule@,
            w == rule@.len(),
            g == rules.map(),
            d == dict.map(),
            lab == (c0.labels_ok(g, d) && rule_literals_ok(rule.deep_view(), g) && grammar_rule(g, name@)),
            lab ==> cache.labels_ok(g, d),
            lab ==> forall|j: int| 0 <= j < rv.len() ==> #[trigger] node_literal_ok(rv[j].deep_view(), g),
            lab ==> forall|k: int|
                0 <= k < expections@.len() ==> labeled(
                    (#[trigger] expections@[k]).tree->0.deep_view(),
                    g,
                    d,
                ),
            lab ==> forall|k: int| 0 <= k < winners@.len() ==> labeled((#[trigger] winners@[k]).0.deep_view(), g, d),
            bound >= -1,
            expections@.len() > 0 ==> bound >= 0,
            forall|k: int|
                0 <= k < expections@.len() ==> expectation_ok(#[trigger] expections@[k], rv, s@)
                    && e_measure(expections@[k], rv, s@) <= bound && expections@[k].alive,
            forall|k: int|
                0 <= k < winners@.len() ==> sound(
                    (#[trigger] winners@[k]).0.deep_view(),
                    winners@[k].1 as int,
                    s@,
                ),
            av == cargs.deep_view(),
            run(depth as nat, tables_v(*cache), s@, av, expections.deep_view(), (bound + 1) as nat, g, d).0
                == goal.0,
            wins_v(winners@) + run(
                depth as nat,
                tables_v(*cache),
                s@,
                av,
                expections.deep_view(),
                (bound + 1) as nat,
                g,
                d,
            ).1 == goal.1,
        decreases bound + 1,
    {
        let ghost rd0 = round(depth as nat, tables_v(*cache), s@, av, expections.deep_view(), g, d);
        let ghost w0 = wins_v(winners@);
        let ghost run0 = run(depth as nat, tables_v(*cache), s@, av, expections.deep_view(), (bound + 1) as nat, g, d);
        let mut cur = expections;
        let mut next: Vec<Expectation<'p>> = Vec::new();
        proof {
            assert(next.deep_view() =~= Seq::<ExpectationV>::empty());
        }
        while cur.len() > 0
            invariant
                cache.wf(),
                cache.top == old(cache).top,
                is_suffix(s@, cache.top@),
                rules.wf(),
                dict.wf(),
                rv == rule@,
                w == rule@.len(),
                g == rules.map(),
                d == dict.map(),
                lab == (c0.labels_ok(g, d) && rule_literals_ok(rule.deep_view(), g) && grammar_rule(g, name@)),
                lab ==> cache.labels_ok(g, d),
                lab ==> forall|j: int| 0 <= j < rv.len() ==> #[trigger] node_literal_ok(rv[j].deep_view(), g),
                lab ==> forall|k: int|
                    0 <= k < cur@.len() ==> labeled((#[trigger] cur@[k]).tree->0.deep_view(), g, d),
                lab ==> forall|k: int|
                    0 <= k < next@.len() ==> labeled((#[trigger] next@[k]).tree->0.deep_view(), g, d),
                lab ==> forall|k: int|
                    0 <= k < winners@.len() ==> labeled((#[trigger] winners@[k]).0.deep_view(), g, d),
                forall|k: int|
                    0 <= k < cur@.len() ==> expectation_ok(#[trigger] cur@[k], rv, s@) && e_measure(
                        cur@[k],
                        rv,
                        s@,
                    ) <= bound && cur@[k].alive,
                forall|k: int|
                    0 <= k < next@.len() ==> expectation_ok(#[trigger] next@[k], rv, s@) && e_measure(
                        next@[k],
                        rv,
                        s@,
                    ) <= bound - 1 && next@[k].alive,
                forall|k: int|
                    0 <= k < winners@.len() ==> sound(
                        (#[trigger] winners@[k]).0.deep_view(),
                        winners@[k].1 as int,
                        s@,
                    ),
                av == cargs.deep_view(),
                round(depth as nat, tables_v(*cache), s@, av, cur.deep_view(), g, d).0 == rd0.0,
                next.deep_view() + round(depth as nat, tables_v(*cache), s@, av, cur.deep_view(), g, d).1
                    == rd0.1,
                wins_v(winners@) + round(depth as nat, tables_v(*cache), s@, av, cur.deep_view(), g, d).2
                    == w0 + rd0.2,
            decreases cur@.len(),
        {
            let ghost cur0 = cur@;
            let ghost curv0 = cur.deep_view();
            let ghost cb = tables_v(*cache);
            let ghost nb0 = next.deep_view();
            let ghost wb0 = wins_v(winners@);
            let mut e = cur.remove(0);
            assert(e == cur0[0]);
            assert(forall|k: int| 0 <= k < cur@.len() ==> cur@[k] == cur0[k + 1]);
            assert(cur.deep_view() =~= curv0.drop_first());
            assert(curv0[0] == e.deep_view());
            let ghost e0 = e;
            let ghost mut wsn: Seq<(TreeV, usize)> = Seq::empty();
            if e.rule.len() > 0 {
                advance(&mut e, s, rules, dict, cargs, cache, depth, Ghost(rv), Ghost(lab));
            } else {
                let reading = e.reading;
                let t = e.take_tree();
                let ghost wb = winners@;
                winners.push((t, reading));
                assert(forall|k: int| 0 <= k < wb.len() ==> winners@[k] == wb[k]);
                e.kill();
                proof {
                    wsn = seq![(t.deep_view(), reading)];
                    assert(wins_v(winners@) =~= wb0 + wsn);
                }
            }
            let ghost c1 = tables_v(*cache);
            let ghost ealive = e.alive;
            let ghost eview = e.deep_view();
            let ghost mut outs: Seq<ExpectationV> = Seq::empty();
            proof {
                if e0.rule@.len() > 0 {
                    assert(wins_v(winners@) =~= wb0 + wsn);
                }
            }
            if e.alive {
                let ghost ea = e;
                assert(e_measure(ea, rv, s@) < e_measure(e0, rv, s@));
                let mut ks = e.nexts();
                proof {
                    let ev = ea.deep_view();
                    if ea.rule@.len() == 0 {
                        assert(ks.deep_view() =~= nexts_v(ev));
                    } else {
                        lemma_lead_v(ea.rule@, ea.rule.deep_view());
                        assert(ea.rule.deep_view().last() == ea.rule@.last().deep_view());
                        assert forall|k: int| 0 <= k < ks@.len() implies ks.deep_view()[k] == nexts_v(ev)[k] by {
                            let x = ks@[k];
                            assert(x.rule.deep_view() =~= ev.rule.skip(k));
                            if k == ev.rule.len() {
                                assert(x.voca_attrs.deep_view() =~= Seq::<Seq<Seq<char>>>::empty());
                            } else {
                                assert(x.voca_attrs.deep_view() =~= ev.voca_attrs);
                            }
                        }
                        assert(ks.deep_view() =~= nexts_v(ev));
                    }
                    outs = nexts_v(ev);
                }
                proof {
                    assert forall|k: int| 0 <= k < ks@.len() implies expectation_ok(
                        #[trigger] ks@[k],
                        rv,
                        s@,
                    ) && e_measure(ks@[k], rv, s@) <= bound - 1 && ks@[k].alive by {
                        let x = ks@[k];
                        if ea.rule@.len() > 0 {
                            assert(x.rule@ == ea.rule@.skip(k));
                            assert(ea.rule@ == rv.skip(rv.len() - ea.rule@.len()));
                            assert(x.rule@ =~= rv.skip(rv.len() - x.rule@.len()));
                        } else {
                            assert(x.deep_view() == ea.deep_view());
                            assert(x.rule == ea.rule);
                        }
                        lemma_measure_le(
                            (s@.len() - x.reading) as int,
                            x.rule@.len() as int,
                            ea.rule@.len() as int,
                            w,
                        );
                    }
                    assert forall|k: int| lab && 0 <= k < ks@.len() implies labeled(
                        (#[trigger] ks@[k]).tree->0.deep_view(),
                        g,
                        d,
                    ) by {
                        if ea.rule@.len() == 0 {
                            assert(ks@[k].deep_view() == ea.deep_view());
                        }
                    }
                }
                let ghost nb = next@;
                let ghost ksv = ks@;
                let ghost ksd = ks.deep_view();
                next.append(&mut ks);
                proof {
                    assert(next.deep_view() =~= nb0 + ksd);
                    assert forall|k: int| 0 <= k < next@.len() implies expectation_ok(
                        #[trigger] next@[k],
                        rv,
                        s@,
                    ) && e_measure(next@[k], rv, s@) <= bound - 1 && next@[k].alive && (lab ==> labeled(
                        next@[k].tree->0.deep_view(),
                        g,
                        d,
                    )) by {
                        if k < nb.len() {
                            assert(next@[k] == nb[k]);
                        } else {
                            assert(next@[k] == ksv[k - nb.len()]);
                        }
                    }
                }
            }
            proof {
                let rd = round(depth as nat, cb, s@, av, curv0, g, d);
                let rr = round(depth as nat, c1, s@, av, cur.deep_view(), g, d);
                if !ealive {
                    assert(next.deep_view() =~= nb0 + outs);
                }
                assert(next.deep_view() == nb0 + outs);
                assert(wins_v(winners@) == wb0 + wsn);
                if e0.rule@.len() > 0 {
                    let a = adv(depth as nat, cb, s@, av, e0.deep_view(), g, d);
                    assert(a.0 == c1);
                    assert(a.1 == if ealive { Some(eview) } else { None::<ExpectationV> });
                    assert(outs == if ealive { nexts_v(eview) } else { Seq::<ExpectationV>::empty() });
                    assert(wsn =~= Seq::<(TreeV, usize)>::empty());
                } else {
                    assert(c1 == cb);
                    assert(e0.tree is Some);
                }
                assert(curv0.len() > 0);
                assert(curv0.drop_first() == cur.deep_view());
                assert(curv0[0] == e0.deep_view());
                assert(rd.0 == rr.0);
                assert(rd.1 == outs + rr.1);
                assert(rd.2 == wsn + rr.2);
                assert((nb0 + outs) + rr.1 =~= nb0 + (outs + rr.1));
                assert((wb0 + wsn) + rr.2 =~= wb0 + (wsn + rr.2));
            }
        }
        proof {
            if next@.len() > 0 {
                let x = next@[0];
                assert(expectation_ok(x, rv, s@));
                lemma_measure_nonneg((s@.len() - x.reading) as int, x.rule@.len() as int, w);
            }
        }
        proof {
            let rr = round(depth as nat, tables_v(*cache), s@, av, cur.deep_view(), g, d);
            assert(cur.deep_view() =~= Seq::<ExpectationV>::empty());
            assert(next.deep_view() =~= rd0.1);
            assert(wins_v(winners@) =~= w0 + rd0.2);
            let rn = run(depth as nat, tables_v(*cache), s@, av, next.deep_view(), bound as nat, g, d);
            assert(run0 == (rn.0, rd0.2 + rn.1));
            assert((w0 + rd0.2) + rn.1 =~= w0 + (rd0.2 + rn.1));
        }
        expections = next;
        proof {
            bound = bound - 1;
        }
    }
    proof {
        assert(expections.deep_view() =~= Seq::<ExpectationV>::empty());
        assert(wins_v(winners@) =~= goal.1);
    }
    let ghost cr = tables_v(*cache);
    let ghost wv = wins_v(winners@);
    proof {
        assert(cr == goal.0);
        assert(wv == goal.1);
    }
    if winners.len() == 0 {
        let ghost before = cache.dp@;
        let ghost kh = rulehash;
        cache_register(cache, s.len(), rulehash, None, Ghost(g), Ghost(d));
        proof {
            lemma_stored_remembered(before, cache.dp@, s.len(), rulehash, None, None);
            lemma_store_res(before, cache.dp@, s.len(), kh, None);
            assert(tables_v(*cache) =~= (TablesV { dp: store(cr.dp, s.len(), key, None), ..cr }));
        }
        return None;
    }
    let mut best: usize = 0;
    let mut j: usize = 1;
    proof {
        assert(wv.take(1).len() == 1);
    }
    while j < winners.len()
        invariant
            1 <= j <= winners.len(),
            best < j,
            wv == wins_v(winners@),
            best == furthest(wv.take(j as int)),
        decreases winners.len() - j,
    {
        proof {
            let xs = wv.take(j + 1);
            assert(xs.drop_last() =~= wv.take(j as int));
            assert(xs.last() == wv[j as int]);
            assert(xs[best as int] == wv[best as int]);
        }
        if winners[j].1 >= winners[best].1 {
            best = j;
        }
        j = j + 1;
    }
    proof {
        assert(wv.take(j as int) =~= wv);
    }
    let c1 = copy_node(&winners[best].0);
    let c2 = copy_node(&winners[best].0);
    let n = winners[best].1;
    let ghost before = cache.dp@;
    let ghost val = Some((c1, n));
    let ghost kh = rulehash;
    cache_register(cache, s.len(), rulehash, Some((c1, n)), Ghost(g), Ghost(d));
    proof {
        lemma_stored_remembered(before, cache.dp@, s.len(), rulehash, val, Some((c2, n)));
        lemma_store_res(before, cache.dp@, s.len(), kh, val);
        assert(res_v(val) == Some(wv[best as int]));
        assert(tables_v(*cache) =~= (TablesV { dp: store(cr.dp, s.len(), key, res_v(val)), ..cr }));
    }
    Some((c2, n))
}

proof fn lemma_measure_le(d: int, l: int, l2: int, w: int)
    requires
        0 <= d,
        0 <= l <= l2,
    ensures
        measure(d, l, w) <= measure(d, l2, w),
{
}

proof fn lemma_measure_mono(d: int, l: int, w: int)
    requires
        0 <= d,
        0 <= l <= w,
    ensures
        measure(d, l, w) <= measure(d, w, w),
{
}

} // verus!
