//! What matching computes, as functions of the memo tables: a rule match and a
//! part parse each give a result and the tables after, from the tables before.
//! The functions follow the matching process step by step: expectations advance
//! one node at a time in rounds, finished ones are collected in order, and the
//! one that read furthest (the last of equals) is the result.
use vstd::prelude::*;
use super::{rule_key, measure, resolved_arg, STACK_LIMIT};
use super::expect::ExpectationV;
use crate::lan::lanparser::declaration::{TemplateNodeV, TemplatesV, RuleV, PhraseContextV};
use crate::lan::parse::syntree::{SyntaxTreeNode, TreeV};
use crate::lan::dictionary::{VocaV, matching_words, search_ok};
use crate::concrete::{gain_seq, part_id};
use crate::text::has_prefix;
use crate::lan::parse::{ParseCache, entry_is, first_entry, no_entry, stored, lemma_first_unique};

verus! {

/// The memo tables: remembered rule matches, the entry counts of rule matches
/// under way, and remembered part parses; each entry under a position (the
/// length of the text left) and a key.
#[verifier::ext_equal]
pub struct TablesV {
    pub dp: Seq<(usize, Seq<char>, Option<(TreeV, usize)>)>,
    pub visit: Seq<(usize, Seq<char>, u8)>,
    pub parts: Seq<(usize, Seq<char>, Option<(TreeV, usize)>)>,
}

/// The model of a result.
pub open spec fn res_v(o: Option<(SyntaxTreeNode, usize)>) -> Option<(TreeV, usize)> {
    match o {
        Some((t, n)) => Some((t.deep_view(), n)),
        None => None,
    }
}

/// Memo tables with no entries.
pub open spec fn empty_tables() -> TablesV {
    TablesV { dp: Seq::empty(), visit: Seq::empty(), parts: Seq::empty() }
}

/// The model of the memo tables of a cache.
pub open spec fn tables_v(c: ParseCache) -> TablesV {
    TablesV { dp: res_table_v(c.dp@), visit: visit_table_v(c.visit@), parts: res_table_v(c.parts@) }
}

/// The models of finished matches.
pub open spec fn wins_v(w: Seq<(SyntaxTreeNode, usize)>) -> Seq<(TreeV, usize)> {
    w.map_values(|p: (SyntaxTreeNode, usize)| (p.0.deep_view(), p.1))
}

/// The model of a table of results.
pub open spec fn res_table_v(v: Seq<(usize, String, Option<(SyntaxTreeNode, usize)>)>) -> Seq<
    (usize, Seq<char>, Option<(TreeV, usize)>),
> {
    v.map_values(|e: (usize, String, Option<(SyntaxTreeNode, usize)>)| (e.0, e.1@, res_v(e.2)))
}

/// The model of a table of entry counts.
pub open spec fn visit_table_v(v: Seq<(usize, String, u8)>) -> Seq<(usize, Seq<char>, u8)> {
    v.map_values(|e: (usize, String, u8)| (e.0, e.1@, e.2))
}

/// The position of the first entry for `(l, k)`, or -1 when there is none.
pub open spec fn first_at<T>(v: Seq<(usize, Seq<char>, T)>, l: int, k: Seq<char>) -> int
    decreases v.len(),
{
    if v.len() == 0 {
        -1
    } else {
        let f = first_at(v.drop_last(), l, k);
        if f >= 0 {
            f
        } else if v.last().0 == l && v.last().1 == k {
            v.len() - 1
        } else {
            -1
        }
    }
}

/// The table with `val` stored under `(l, k)`: the first entry for it
/// replaced, or a new entry at the end.
pub open spec fn store<T>(v: Seq<(usize, Seq<char>, T)>, l: usize, k: Seq<char>, val: T) -> Seq<
    (usize, Seq<char>, T),
> {
    let f = first_at(v, l as int, k);
    if f < 0 {
        v.push((l, k, val))
    } else {
        v.update(f, (l, k, val))
    }
}

/// Whether a character is a blank that a match skips before a node.
pub open spec fn is_blank(c: char) -> bool {
    c == ' ' || c == '\r' || c == '\n' || c == '\t'
}

/// The first position from `i` on that holds no blank.
pub open spec fn skip_blanks(s: Seq<char>, i: int) -> int
    decreases s.len() - i,
{
    if 0 <= i < s.len() && is_blank(s[i]) {
        skip_blanks(s, i + 1)
    } else {
        i
    }
}

/// The position of the longest word (the last of equals); 0 for fewer than two.
pub open spec fn longest(ws: Seq<VocaV>) -> int
    decreases ws.len(),
{
    if ws.len() <= 1 {
        0
    } else {
        let b = longest(ws.drop_last());
        if ws.last().text.len() >= ws[b].text.len() {
            ws.len() - 1
        } else {
            b
        }
    }
}

/// The position of the result that read furthest (the last of equals); 0 for
/// fewer than two.
pub open spec fn furthest(ws: Seq<(TreeV, usize)>) -> int
    decreases ws.len(),
{
    if ws.len() <= 1 {
        0
    } else {
        let b = furthest(ws.drop_last());
        if ws.last().1 >= ws[b].1 {
            ws.len() - 1
        } else {
            b
        }
    }
}

/// The part arguments read against the matched words' attributes; `None` when
/// one cannot be read.
pub open spec fn resolve_all(args: Seq<Seq<char>>, attrs: Seq<Seq<Seq<char>>>) -> Option<Seq<Seq<char>>> {
    if forall|i: int| 0 <= i < args.len() ==> (#[trigger] resolved_arg(args[i], attrs)) is Some {
        Some(Seq::new(args.len(), |i: int| resolved_arg(args[i], attrs)->0))
    } else {
        None
    }
}

/// Whether a node may be skipped or repeated.
pub open spec fn skippable_v(n: TemplateNodeV) -> bool {
    n.is_optional || n.is_free
}

/// The number of leading nodes that may be skipped or repeated.
pub open spec fn lead_v(rule: Seq<TemplateNodeV>) -> int
    decreases rule.len(),
{
    if rule.len() == 0 || !skippable_v(rule[0]) {
        0
    } else {
        1 + lead_v(rule.drop_first())
    }
}

/// How many expectations a fresh match of a rule starts with.
pub open spec fn start_count_v(rule: Seq<TemplateNodeV>) -> int {
    if lead_v(rule) < rule.len() {
        lead_v(rule) + 1
    } else {
        rule.len() as int
    }
}

/// How many continuations an expectation with nodes left moves on to.
pub open spec fn next_count_v(rule: Seq<TemplateNodeV>) -> int {
    if lead_v(rule) < rule.len() {
        lead_v(rule) + 1
    } else if rule.len() > 0 && rule.last().is_optional {
        rule.len() + 1int
    } else {
        rule.len() as int
    }
}

/// The expectations a fresh match of `rule` starts with: one at each leading
/// node that may be skipped or repeated and one at the first that must be
/// matched, each with an empty category named `name` at position 0.
pub open spec fn starts(name: Seq<char>, rule: Seq<TemplateNodeV>) -> Seq<ExpectationV> {
    Seq::new(
        start_count_v(rule) as nat,
        |k: int|
            ExpectationV {
                voca_attrs: Seq::empty(),
                rule: rule.skip(k),
                tree: Some(TreeV::Category { name, children: Seq::empty() }),
                reading: 0,
                name,
                alive: true,
            },
    )
}

/// The continuations of an expectation (see `Expectation::nexts`).
pub open spec fn nexts_v(e: ExpectationV) -> Seq<ExpectationV> {
    if e.rule.len() == 0 {
        seq![e]
    } else {
        Seq::new(
            next_count_v(e.rule) as nat,
            |k: int|
                ExpectationV {
                    rule: e.rule.skip(k),
                    voca_attrs: if k == e.rule.len() {
                        Seq::empty()
                    } else {
                        e.voca_attrs
                    },
                    alive: true,
                    ..e
                },
        )
    }
}

/// The nodes left after the first is matched: a node that may repeat stays.
pub open spec fn next_rule_v(rule: Seq<TemplateNodeV>) -> Seq<TemplateNodeV> {
    if rule[0].is_free {
        rule
    } else {
        rule.drop_first()
    }
}

/// A category tree with `x` added as its last child.
pub open spec fn tree_push(t: Option<TreeV>, x: TreeV) -> Option<TreeV> {
    match t {
        Some(TreeV::Category { name, children }) => Some(TreeV::Category { name, children: children.push(x) }),
        _ => t,
    }
}

/// An expectation whose first node matched `n` characters from position `r`,
/// giving the tree `x`.
pub open spec fn moved(e: ExpectationV, r: int, n: int, x: TreeV) -> ExpectationV {
    ExpectationV { reading: (r + n) as usize, rule: next_rule_v(e.rule), tree: tree_push(e.tree, x), ..e }
}

#[verifier::opaque]
/// The first node of an expectation matched at position `r` (after the
/// blanks), at most `depth` part levels deep: the expectation moved past it, or
/// `None` when it does not match.
pub open spec fn node_step(
    depth: nat,
    c: TablesV,
    s: Seq<char>,
    cargs: Seq<Seq<char>>,
    e: ExpectationV,
    r: int,
    g: Map<Seq<char>, PhraseContextV>,
    d: Map<Seq<char>, Seq<VocaV>>,
) -> (TablesV, Option<ExpectationV>)
    decreases depth, 0nat, 0nat,
{
    if e.rule.len() == 0 {
        (c, None)
    } else {
        match e.rule[0].template {
            TemplatesV::Text(t) => if has_prefix(s.skip(r), t.text) {
                (
                    c,
                    Some(
                        moved(
                            e,
                            r,
                            t.text.len() as int,
                            TreeV::Vocab { text: s.subrange(r, r + t.text.len()), name: t.name },
                        ),
                    ),
                )
            } else {
                (c, None)
            },
            TemplatesV::ShortPart(p) => if d.contains_key(p.part_name) && search_ok(
                d[p.part_name],
                p,
                s,
                r,
                e.voca_attrs,
                cargs,
            ) {
                let ws = matching_words(d[p.part_name], p, s, r, e.voca_attrs, cargs);
                if ws.len() == 0 {
                    (c, None)
                } else {
                    let mx = ws[longest(ws)];
                    let e2 = moved(
                        e,
                        r,
                        mx.text.len() as int,
                        TreeV::Vocab { text: s.subrange(r, r + mx.text.len()), name: p.part_name },
                    );
                    (c, Some(ExpectationV { voca_attrs: e.voca_attrs.push(mx.argv), ..e2 }))
                }
            } else {
                (c, None)
            },
            TemplatesV::Template(tp) => match resolve_all(tp.args, e.voca_attrs) {
                None => (c, None),
                Some(t2) => if depth == 0 || !g.contains_key(tp.name) {
                    (c, None)
                } else {
                    match gain_seq(g[tp.name].children, t2, Map::empty()) {
                        None => (c, None),
                        Some((prs, _)) => {
                            let (c1, pr) = parse_c(
                                (depth - 1) as nat,
                                c,
                                s.skip(r),
                                part_id(g[tp.name].name, t2),
                                prs,
                                t2,
                                g,
                                d,
                            );
                            match pr {
                                Some((t, x)) => (c1, Some(moved(e, r, x as int, t))),
                                None => (c1, None),
                            }
                        },
                    }
                },
            },
            TemplatesV::Embed(_) => (c, Some(ExpectationV { reading: r as usize, ..e })),
        }
    }
}

#[verifier::opaque]
/// One expectation moved forward by its first node, at most `depth` part
/// levels deep, after the blanks before it; `None` when it is dropped: at the
/// end of the text, when the node does not match, or when it made no progress
/// (see `advance`).
pub open spec fn adv(
    depth: nat,
    c: TablesV,
    s: Seq<char>,
    cargs: Seq<Seq<char>>,
    e: ExpectationV,
    g: Map<Seq<char>, PhraseContextV>,
    d: Map<Seq<char>, Seq<VocaV>>,
) -> (TablesV, Option<ExpectationV>)
    decreases depth, 0nat, 1nat,
{
    let r0 = e.reading as int;
    let r = skip_blanks(s, r0);
    if r0 >= s.len() || r >= s.len() || e.rule.len() == 0 {
        (c, None)
    } else {
        let (c1, o) = node_step(depth, c, s, cargs, e, r, g, d);
        match o {
            Some(e2) => if e2.reading == e.reading && e2.rule.len() == e.rule.len() {
                (c1, None)
            } else {
                (c1, Some(e2))
            },
            None => (c1, None),
        }
    }
}

/// One round over the live expectations, in order: each with nodes left is
/// moved forward and replaced by its continuations; each with none left
/// finishes, giving its tree and position.
pub open spec fn round(
    depth: nat,
    c: TablesV,
    s: Seq<char>,
    cargs: Seq<Seq<char>>,
    cur: Seq<ExpectationV>,
    g: Map<Seq<char>, PhraseContextV>,
    d: Map<Seq<char>, Seq<VocaV>>,
) -> (TablesV, Seq<ExpectationV>, Seq<(TreeV, usize)>)
    decreases depth, 1nat, cur.len(),
{
    if cur.len() == 0 {
        (c, Seq::empty(), Seq::empty())
    } else {
        let e = cur[0];
        let (c1, outs, ws) = if e.rule.len() > 0 {
            let (c1, o) = adv(depth, c, s, cargs, e, g, d);
            match o {
                Some(e2) => (c1, nexts_v(e2), Seq::<(TreeV, usize)>::empty()),
                None => (c1, Seq::<ExpectationV>::empty(), Seq::<(TreeV, usize)>::empty()),
            }
        } else {
            (c, Seq::<ExpectationV>::empty(), seq![(e.tree->0, e.reading)])
        };
        let (c2, outs2, ws2) = round(depth, c1, s, cargs, cur.drop_first(), g, d);
        (c2, outs + outs2, ws + ws2)
    }
}

/// Rounds until no expectation is left (at most `fuel` rounds), collecting the
/// finished ones in order.
pub open spec fn run(
    depth: nat,
    c: TablesV,
    s: Seq<char>,
    cargs: Seq<Seq<char>>,
    exps: Seq<ExpectationV>,
    fuel: nat,
    g: Map<Seq<char>, PhraseContextV>,
    d: Map<Seq<char>, Seq<VocaV>>,
) -> (TablesV, Seq<(TreeV, usize)>)
    decreases depth, 2nat, fuel,
{
    if exps.len() == 0 || fuel == 0 {
        (c, Seq::empty())
    } else {
        let (c1, next, w1) = round(depth, c, s, cargs, exps, g, d);
        let (c2, w2) = run(depth, c1, s, cargs, next, (fuel - 1) as nat, g, d);
        (c2, w1 + w2)
    }
}

#[verifier::opaque]
/// A rule match (see `fit_rules`): a remembered result for the position and
/// the rule's key is given back; a match entered [`STACK_LIMIT`] times without
/// a result gives `None`; otherwise its entry is counted, the expectations run,
/// and the one that read furthest (the last of equals), or `None`, is the
/// result, remembered under the key.
pub open spec fn fit_c(
    depth: nat,
    c: TablesV,
    s: Seq<char>,
    name: Seq<char>,
    rule: Seq<TemplateNodeV>,
    cargs: Seq<Seq<char>>,
    g: Map<Seq<char>, PhraseContextV>,
    d: Map<Seq<char>, Seq<VocaV>>,
) -> (TablesV, Option<(TreeV, usize)>)
    decreases depth, 3nat, 0nat,
{
    let l = s.len() as usize;
    let key = rule_key(rule, cargs);
    let fd = first_at(c.dp, l as int, key);
    if fd >= 0 {
        (c, c.dp[fd].2)
    } else {
        let fv = first_at(c.visit, l as int, key);
        if fv >= 0 && c.visit[fv].2 >= STACK_LIMIT {
            (c, None)
        } else {
            let visit = if fv >= 0 {
                c.visit.update(fv, (l, key, (c.visit[fv].2 + 1) as u8))
            } else {
                c.visit.push((l, key, 0u8))
            };
            let w = rule.len() as int;
            let (c2, wins) = run(
                depth,
                TablesV { visit, ..c },
                s,
                cargs,
                starts(name, rule),
                (measure(s.len() as int, w, w) + 1) as nat,
                g,
                d,
            );
            let res = if wins.len() == 0 {
                None
            } else {
                Some(wins[furthest(wins)])
            };
            (TablesV { dp: store(c2.dp, l, key, res), ..c2 }, res)
        }
    }
}

/// The rules of a part matched in order from rule `i` on, keeping the result
/// that read furthest (the first of equals) in `m` and `mp`.
pub open spec fn rules_loop(
    depth: nat,
    c: TablesV,
    s: Seq<char>,
    prs: Seq<RuleV>,
    args: Seq<Seq<char>>,
    i: int,
    m: usize,
    mp: Option<TreeV>,
    g: Map<Seq<char>, PhraseContextV>,
    d: Map<Seq<char>, Seq<VocaV>>,
) -> (TablesV, usize, Option<TreeV>)
    decreases depth, 4nat, (prs.len() - i) as nat,
{
    if i < 0 || i >= prs.len() {
        (c, m, mp)
    } else {
        let (c1, r) = fit_c(depth, c, s, prs[i].name, prs[i].rules, args, g, d);
        let (m2, mp2) = match r {
            Some((t, x)) => if x > m {
                (x, Some(t))
            } else {
                (m, mp)
            },
            None => (m, mp),
        };
        rules_loop(depth, c1, s, prs, args, i + 1, m2, mp2, g, d)
    }
}

#[verifier::opaque]
/// A part parse (see `parse`): a remembered result for the position and the
/// part's id is given back; otherwise each rule is matched, and the result that
/// read furthest (the first of equals) wins. A part whose best reads nothing
/// gives `None`, remembered under the id; a winning result replaces a
/// remembered one (stored while it was parsed) that read less.
pub open spec fn parse_c(
    depth: nat,
    c: TablesV,
    s: Seq<char>,
    id: Seq<char>,
    prs: Seq<RuleV>,
    args: Seq<Seq<char>>,
    g: Map<Seq<char>, PhraseContextV>,
    d: Map<Seq<char>, Seq<VocaV>>,
) -> (TablesV, Option<(TreeV, usize)>)
    decreases depth, 5nat, 0nat,
{
    let l = s.len() as usize;
    let f = first_at(c.parts, l as int, id);
    if f >= 0 {
        (c, c.parts[f].2)
    } else {
        let (c1, m, mp) = rules_loop(depth, c, s, prs, args, 0, 0, None, g, d);
        if m == 0 {
            (TablesV { parts: store(c1.parts, l, id, None), ..c1 }, None)
        } else {
            let f2 = first_at(c1.parts, l as int, id);
            let c2 = if f2 >= 0 && (c1.parts[f2].2 matches Some((_, x2)) && x2 < m) {
                TablesV { parts: store(c1.parts, l, id, Some((mp->0, m))), ..c1 }
            } else {
                c1
            };
            (c2, Some((mp->0, m)))
        }
    }
}

/// What [`first_at`] gives: -1 when no entry is for `(l, k)`, and otherwise
/// the position of the first that is.
pub proof fn lemma_first_at<T>(v: Seq<(usize, Seq<char>, T)>, l: int, k: Seq<char>)
    ensures
        first_at(v, l, k) == -1 ==> forall|j: int| 0 <= j < v.len() ==> !(v[j].0 == l && v[j].1 == k),
        first_at(v, l, k) != -1 ==> {
            &&& 0 <= first_at(v, l, k) < v.len()
            &&& v[first_at(v, l, k)].0 == l
            &&& v[first_at(v, l, k)].1 == k
            &&& forall|j: int| 0 <= j < first_at(v, l, k) ==> !(v[j].0 == l && v[j].1 == k)
        },
    decreases v.len(),
{
    if v.len() > 0 {
        lemma_first_at(v.drop_last(), l, k);
        assert forall|j: int| 0 <= j < v.len() - 1 implies v[j] == v.drop_last()[j] by {}
    }
}

/// Whether a model table has the keys of a table, entry by entry.
pub open spec fn same_keys<T, U>(v: Seq<(usize, String, T)>, w: Seq<(usize, Seq<char>, U)>) -> bool {
    &&& v.len() == w.len()
    &&& forall|j: int| 0 <= j < v.len() ==> (#[trigger] w[j]).0 == v[j].0 && w[j].1 == v[j].1@
}

/// [`first_at`] on a model table finds the first entry of the table.
pub proof fn lemma_first_at_entry<T, U>(v: Seq<(usize, String, T)>, w: Seq<(usize, Seq<char>, U)>, l: usize, k: Seq<char>)
    requires
        same_keys(v, w),
    ensures
        first_at(w, l as int, k) == -1 <==> no_entry(v, l, k),
        first_at(w, l as int, k) != -1 ==> first_entry(v, first_at(w, l as int, k), l, k),
        forall|i: int| #[trigger] first_entry(v, i, l, k) ==> i == first_at(w, l as int, k),
{
    lemma_first_at(w, l as int, k);
    let f = first_at(w, l as int, k);
    assert forall|j: int| 0 <= j < v.len() implies (entry_is(#[trigger] v[j], l, k) <==> (w[j].0 == l && w[j].1 == k)) by {
        assert(w[j].0 == v[j].0 && w[j].1 == v[j].1@);
    }
    if f != -1 {
        assert(entry_is(v[f], l, k));
        assert(!no_entry(v, l, k));
        assert forall|i: int| #[trigger] first_entry(v, i, l, k) implies i == f by {
            lemma_first_unique(v, i, f, l, k);
        }
    }
}

/// The model of a result table after `val` is stored is [`store`] on its model.
pub proof fn lemma_store_res(
    before: Seq<(usize, String, Option<(SyntaxTreeNode, usize)>)>,
    after: Seq<(usize, String, Option<(SyntaxTreeNode, usize)>)>,
    l: usize,
    key: String,
    val: Option<(SyntaxTreeNode, usize)>,
)
    requires
        stored(before, after, l, key, val),
    ensures
        res_table_v(after) == store(res_table_v(before), l, key@, res_v(val)),
{
    let bv = res_table_v(before);
    assert(same_keys(before, bv));
    lemma_first_at_entry(before, bv, l, key@);
    let f = first_at(bv, l as int, key@);
    if f == -1 {
        assert(res_table_v(after) =~= bv.push((l, key@, res_v(val))));
    } else {
        assert(after == before.update(f, (l, key, val)));
        assert(res_table_v(after) =~= bv.update(f, (l, key@, res_v(val))));
    }
}

} // verus!
