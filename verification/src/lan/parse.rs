//! Parsing a sentence with a grammar and a dictionary.
//!
//! A part is parsed by trying each of its concrete rules and keeping the match
//! that reads furthest. Results are remembered in a [`ParseCache`] for the
//! sentence being parsed, keyed by the length of the remaining text.
pub mod syntree;
pub mod fit_rules;

use vstd::prelude::*;
use crate::concrete::{ConcretePart, lines_have_literal, lines_rule_names};
use crate::lan::dictionary::{Dictionary, VocaV};
use crate::lan::lanparser::declaration::{PhraseContextV, TemplateNode, TemplateNodeV, TemplatesV};
use crate::lanparser::LanRules;
use crate::table::str_equal;
use syntree::{SyntaxTreeNode, TreeV, copy_node};
use fit_rules::model::{
    TablesV, tables_v, res_v, parse_c, rules_loop, fit_c, store, same_keys, lemma_first_at_entry,
    lemma_store_res,
};

verus! {

/// The grammar's parts, by name.
pub type PhraseRulesCollection<'p> = &'p LanRules;

/// The nodes of a rule still to be matched.
pub type ParsingRule<'p> = &'p [TemplateNode];

/// The characters skipped between the nodes of a rule.
pub open spec fn is_blank(c: char) -> bool {
    c == ' ' || c == '\r' || c == '\n' || c == '\t'
}

/// Whether `b` is `a` with blank characters inserted here and there.
pub open spec fn padded(a: Seq<char>, b: Seq<char>) -> bool
    decreases b.len(),
{
    if b.len() == 0 {
        a.len() == 0
    } else {
        ||| (is_blank(b.last()) && padded(a, b.drop_last()))
        ||| (a.len() > 0 && a.last() == b.last() && padded(a.drop_last(), b.drop_last()))
    }
}

/// Every text is padded from itself.
pub proof fn lemma_padded_refl(a: Seq<char>)
    ensures
        padded(a, a),
    decreases a.len(),
{
    if a.len() > 0 {
        lemma_padded_refl(a.drop_last());
    }
}

/// Padding composes with concatenation.
pub proof fn lemma_padded_concat(a: Seq<char>, b: Seq<char>, c: Seq<char>, d: Seq<char>)
    requires
        padded(a, b),
        padded(c, d),
    ensures
        padded(a + c, b + d),
    decreases d.len(),
{
    if d.len() == 0 {
        assert(c.len() == 0);
        assert(a + c == a);
        assert(b + d == b);
    } else {
        assert((b + d).drop_last() == b + d.drop_last());
        assert((b + d).last() == d.last());
        if is_blank(d.last()) && padded(c, d.drop_last()) {
            lemma_padded_concat(a, b, c, d.drop_last());
        } else {
            lemma_padded_concat(a, b, c.drop_last(), d.drop_last());
            assert((a + c).drop_last() == a + c.drop_last());
            assert((a + c).last() == c.last());
        }
    }
}

/// The morphemes' texts of a tree, concatenated in order.
pub open spec fn leaves(t: TreeV) -> Seq<char>
    decreases t,
{
    match t {
        TreeV::Category { name, children } => leaves_all(children),
        TreeV::Vocab { text, name } => text,
    }
}

/// The morphemes' texts of a sequence of trees, concatenated in order.
pub open spec fn leaves_all(s: Seq<TreeV>) -> Seq<char>
    decreases s,
{
    if s.len() == 0 {
        Seq::empty()
    } else {
        leaves_all(s.subrange(0, s.len() - 1)) + leaves(s[s.len() - 1])
    }
}

/// Adding a child adds its text at the end.
pub proof fn lemma_leaves_push(s: Seq<TreeV>, x: TreeV)
    ensures
        leaves_all(s.push(x)) == leaves_all(s) + leaves(x),
{
    assert(s.push(x).subrange(0, s.len() as int) == s);
}

/// What a parse result states: it reads no further than the text, its tree is a
/// category, and the tree's morphemes account for every character read except
/// blanks between them.
pub open spec fn sound(t: TreeV, n: int, s: Seq<char>) -> bool {
    &&& 0 <= n <= s.len()
    &&& t is Category
    &&& padded(leaves(t), s.take(n))
}

/// Whether an optional parse result is sound.
pub open spec fn sound_result(r: Option<(SyntaxTreeNode, usize)>, s: Seq<char>) -> bool {
    match r {
        Some((t, n)) => sound(t.deep_view(), n as int, s),
        None => true,
    }
}

/// The last `len` characters of `top`.
pub open spec fn suffix(top: Seq<char>, len: int) -> Seq<char> {
    top.skip(top.len() - len)
}

/// Whether `s` is a suffix of `top`.
pub open spec fn is_suffix(s: Seq<char>, top: Seq<char>) -> bool {
    s.len() <= top.len() && s == suffix(top, s.len() as int)
}

/// Remembered results for one sentence: rule matches and part parses keyed by
/// the length of the remaining text and a text that names the rule or part, and
/// how often a rule match was entered without a result yet.
pub struct ParseCache {
    pub dp: Vec<(usize, String, Option<(SyntaxTreeNode, usize)>)>,
    pub visit: Vec<(usize, String, u8)>,
    pub parts: Vec<(usize, String, Option<(SyntaxTreeNode, usize)>)>,
    pub top: Ghost<Seq<char>>,
}

/// Whether the literal `t`-`n` stands in some part of the grammar `g`.
pub open spec fn grammar_literal(g: Map<Seq<char>, PhraseContextV>, t: Seq<char>, n: Seq<char>) -> bool {
    exists|k: Seq<char>| #[trigger] g.contains_key(k) && lines_have_literal(g[k].children, t, n)
}

/// Whether `x` names a rule of some part of the grammar `g`.
pub open spec fn grammar_rule(g: Map<Seq<char>, PhraseContextV>, x: Seq<char>) -> bool {
    exists|k: Seq<char>| #[trigger] g.contains_key(k) && lines_rule_names(g[k].children).contains(x)
}

/// Whether every literal among `nodes` stands in some part of the grammar `g`.
pub open spec fn rule_literals_ok(nodes: Seq<TemplateNodeV>, g: Map<Seq<char>, PhraseContextV>) -> bool {
    forall|j: int| 0 <= j < nodes.len() ==> #[trigger] node_literal_ok(nodes[j], g)
}

/// Whether a node, if it is a literal, stands in some part of the grammar `g`.
pub open spec fn node_literal_ok(x: TemplateNodeV, g: Map<Seq<char>, PhraseContextV>) -> bool {
    x.template matches TemplatesV::Text(st) ==> grammar_literal(g, st.text, st.name)
}

/// Whether a morpheme is labeled by what it matched: it is a word of the
/// dictionary category `d` that it is named after, or a literal of the grammar
/// `g`.
pub open spec fn morpheme_ok(
    text: Seq<char>,
    name: Seq<char>,
    g: Map<Seq<char>, PhraseContextV>,
    d: Map<Seq<char>, Seq<VocaV>>,
) -> bool {
    ||| d.contains_key(name) && exists|i: int|
        0 <= i < d[name].len() && (#[trigger] d[name][i]).text == text
    ||| grammar_literal(g, text, name)
}

/// Whether a tree is labeled by the grammar and the dictionary: every category
/// is named after a rule of the grammar, and every morpheme by what it matched
/// (see [`morpheme_ok`]).
pub open spec fn labeled(t: TreeV, g: Map<Seq<char>, PhraseContextV>, d: Map<Seq<char>, Seq<VocaV>>) -> bool
    decreases t,
{
    match t {
        TreeV::Category { name, children } => grammar_rule(g, name) && labeled_all(children, g, d),
        TreeV::Vocab { text, name } => morpheme_ok(text, name, g, d),
    }
}

/// Whether every tree of a sequence is labeled (see [`labeled`]).
pub open spec fn labeled_all(
    s: Seq<TreeV>,
    g: Map<Seq<char>, PhraseContextV>,
    d: Map<Seq<char>, Seq<VocaV>>,
) -> bool
    decreases s,
{
    if s.len() == 0 {
        true
    } else {
        labeled_all(s.subrange(0, s.len() - 1), g, d) && labeled(s[s.len() - 1], g, d)
    }
}

/// Adding a labeled child keeps a sequence labeled.
pub proof fn lemma_labeled_push(
    s: Seq<TreeV>,
    x: TreeV,
    g: Map<Seq<char>, PhraseContextV>,
    d: Map<Seq<char>, Seq<VocaV>>,
)
    ensures
        labeled_all(s.push(x), g, d) == (labeled_all(s, g, d) && labeled(x, g, d)),
{
    assert(s.push(x).subrange(0, s.len() as int) == s);
}

/// Whether an optional parse result's tree is labeled.
pub open spec fn labeled_result(
    r: Option<(SyntaxTreeNode, usize)>,
    g: Map<Seq<char>, PhraseContextV>,
    d: Map<Seq<char>, Seq<VocaV>>,
) -> bool {
    r matches Some((t, _)) ==> labeled(t.deep_view(), g, d)
}

/// Whether every result of a table is labeled.
pub open spec fn table_labeled(
    v: Seq<(usize, String, Option<(SyntaxTreeNode, usize)>)>,
    g: Map<Seq<char>, PhraseContextV>,
    d: Map<Seq<char>, Seq<VocaV>>,
) -> bool {
    forall|i: int| 0 <= i < v.len() ==> labeled_result(#[trigger] v[i].2, g, d)
}

/// A table whose entries are old entries or a new labeled one stays labeled.
pub proof fn lemma_table_labeled(
    before: Seq<(usize, String, Option<(SyntaxTreeNode, usize)>)>,
    after: Seq<(usize, String, Option<(SyntaxTreeNode, usize)>)>,
    val: Option<(SyntaxTreeNode, usize)>,
    g: Map<Seq<char>, PhraseContextV>,
    d: Map<Seq<char>, Seq<VocaV>>,
)
    requires
        table_labeled(before, g, d),
        labeled_result(val, g, d),
        forall|i: int| 0 <= i < after.len() ==> (#[trigger] after[i]).2 == val || before.contains(after[i]),
    ensures
        table_labeled(after, g, d),
{
    assert forall|i: int| 0 <= i < after.len() implies labeled_result(#[trigger] after[i].2, g, d) by {
        if after[i].2 != val {
            let j = choose|j: int| 0 <= j < before.len() && before[j] == after[i];
            assert(labeled_result(before[j].2, g, d));
        }
    }
}

/// A result that, if there is one, read at least one character.
pub open spec fn reads_something(r: Option<(SyntaxTreeNode, usize)>) -> bool {
    r matches Some((_, n)) ==> n > 0
}

/// An entry of a result table holds a sound result for the remaining text of its length.
pub open spec fn entry_ok(e: (usize, String, Option<(SyntaxTreeNode, usize)>), top: Seq<char>) -> bool {
    &&& e.0 <= top.len()
    &&& sound_result(e.2, suffix(top, e.0 as int))
}

impl ParseCache {
    /// Every remembered result is sound for the text it was found in.
    pub open spec fn wf(&self) -> bool {
        &&& forall|i: int| 0 <= i < self.dp@.len() ==> entry_ok(#[trigger] self.dp@[i], self.top@)
        &&& forall|i: int| 0 <= i < self.parts@.len() ==> entry_ok(#[trigger] self.parts@[i], self.top@)
        &&& forall|i: int| 0 <= i < self.parts@.len() ==> reads_something(#[trigger] self.parts@[i].2)
    }

    /// Every remembered result is labeled for the grammar `g` and the
    /// dictionary `d` (see [`labeled`]).
    pub open spec fn labels_ok(&self, g: Map<Seq<char>, PhraseContextV>, d: Map<Seq<char>, Seq<VocaV>>) -> bool {
        table_labeled(self.dp@, g, d) && table_labeled(self.parts@, g, d)
    }

    /// An empty cache for parsing `text`.
    pub fn new(text: &[char]) -> (r: ParseCache)
        ensures
            r.wf(),
            r.top@ == text@,
            r.dp@.len() == 0,
            r.visit@.len() == 0,
            r.parts@.len() == 0,
            forall|g: Map<Seq<char>, PhraseContextV>, d: Map<Seq<char>, Seq<VocaV>>|
                #[trigger] r.labels_ok(g, d),
    {
        ParseCache { dp: Vec::new(), visit: Vec::new(), parts: Vec::new(), top: Ghost(text@) }
    }
}

/// A copy of a parse result.
pub fn copy_result(r: &Option<(SyntaxTreeNode, usize)>) -> (c: Option<(SyntaxTreeNode, usize)>)
    ensures
        match (r, c) {
            (Some((t, n)), Some((t2, n2))) => t2.deep_view() == t.deep_view() && n2 == n,
            (None, None) => true,
            _ => false,
        },
{
    match r {
        Some((t, n)) => Some((copy_node(t), *n)),
        None => None,
    }
}

/// Whether a table entry is the one for the length `l` and the key `k`.
pub open spec fn entry_is<T>(e: (usize, String, T), l: usize, k: Seq<char>) -> bool {
    e.0 == l && e.1@ == k
}

/// Whether position `i` holds the first entry for `(l, k)`.
pub open spec fn first_entry<T>(v: Seq<(usize, String, T)>, i: int, l: usize, k: Seq<char>) -> bool {
    &&& 0 <= i < v.len()
    &&& entry_is(v[i], l, k)
    &&& forall|j: int| 0 <= j < i ==> !entry_is(#[trigger] v[j], l, k)
}

/// Whether a table has no entry for `(l, k)`.
pub open spec fn no_entry<T>(v: Seq<(usize, String, T)>, l: usize, k: Seq<char>) -> bool {
    forall|j: int| 0 <= j < v.len() ==> !entry_is(#[trigger] v[j], l, k)
}

/// Whether `after` is `before` with `val` stored under `(l, key)`: the first
/// entry for it replaced, or a new entry at the end when there was none.
pub open spec fn stored<T>(
    before: Seq<(usize, String, T)>,
    after: Seq<(usize, String, T)>,
    l: usize,
    key: String,
    val: T,
) -> bool {
    &&& no_entry(before, l, key@) ==> after == before.push((l, key, val))
    &&& forall|i: int| #[trigger]
        first_entry(before, i, l, key@) ==> after == before.update(i, (l, key, val))
}

/// Whether two optional parse results are the same: both missing, or trees with
/// the same model and the same length.
pub open spec fn same_result(a: Option<(SyntaxTreeNode, usize)>, b: Option<(SyntaxTreeNode, usize)>) -> bool {
    match (a, b) {
        (Some((t, n)), Some((t2, n2))) => t.deep_view() == t2.deep_view() && n == n2,
        (None, None) => true,
        _ => false,
    }
}

/// Whether two caches hold the same entries for the same sentence.
pub open spec fn same_cache(a: ParseCache, b: ParseCache) -> bool {
    &&& a.dp@ == b.dp@
    &&& a.visit@ == b.visit@
    &&& a.parts@ == b.parts@
    &&& a.top == b.top
}

/// Whether the first entry for `(l, k)` in a result table holds `r`.
pub open spec fn remembered(
    v: Seq<(usize, String, Option<(SyntaxTreeNode, usize)>)>,
    l: usize,
    k: Seq<char>,
    r: Option<(SyntaxTreeNode, usize)>,
) -> bool {
    exists|i: int| #[trigger] first_entry(v, i, l, k) && same_result(v[i].2, r)
}

/// After `val` is stored under `(l, key)`, the first entry for it holds `val`.
pub proof fn lemma_stored_remembered(
    before: Seq<(usize, String, Option<(SyntaxTreeNode, usize)>)>,
    after: Seq<(usize, String, Option<(SyntaxTreeNode, usize)>)>,
    l: usize,
    key: String,
    val: Option<(SyntaxTreeNode, usize)>,
    r: Option<(SyntaxTreeNode, usize)>,
)
    requires
        stored(before, after, l, key, val),
        same_result(val, r),
    ensures
        remembered(after, l, key@, r),
{
    if no_entry(before, l, key@) {
        let i = before.len() as int;
        assert forall|j: int| 0 <= j < i implies !entry_is(#[trigger] after[j], l, key@) by {
            assert(after[j] == before[j]);
        }
        assert(first_entry(after, i, l, key@));
    } else {
        let i = choose|i: int| 0 <= i < before.len() && entry_is(#[trigger] before[i], l, key@);
        let f = lemma_first_of(before, i, l, key@);
        assert(after == before.update(f, (l, key, val)));
        assert forall|j: int| 0 <= j < f implies !entry_is(#[trigger] after[j], l, key@) by {
            assert(after[j] == before[j]);
        }
        assert(first_entry(after, f, l, key@));
    }
}

/// A table with an entry for `(l, k)` has a first one.
pub proof fn lemma_first_of<T>(v: Seq<(usize, String, T)>, i: int, l: usize, k: Seq<char>) -> (f: int)
    requires
        0 <= i < v.len(),
        entry_is(v[i], l, k),
    ensures
        first_entry(v, f, l, k),
    decreases i,
{
    if exists|j: int| 0 <= j < i && entry_is(#[trigger] v[j], l, k) {
        let j = choose|j: int| 0 <= j < i && entry_is(#[trigger] v[j], l, k);
        lemma_first_of(v, j, l, k)
    } else {
        i
    }
}

/// The first entry for `(l, k)` is unique.
pub proof fn lemma_first_unique<T>(v: Seq<(usize, String, T)>, i: int, j: int, l: usize, k: Seq<char>)
    requires
        first_entry(v, i, l, k),
        first_entry(v, j, l, k),
    ensures
        i == j,
{
    if i < j {
        assert(!entry_is(v[i], l, k));
    } else if j < i {
        assert(!entry_is(v[j], l, k));
    }
}

/// The position of the first entry for `(l, key)` in a result table.
pub fn find_entry(v: &Vec<(usize, String, Option<(SyntaxTreeNode, usize)>)>, l: usize, key: &str) -> (r:
    Option<usize>)
    ensures
        match r {
            Some(i) => {
                &&& i < v.len()
                &&& v@[i as int].0 == l
                &&& v@[i as int].1@ == key@
                &&& forall|j: int| 0 <= j < i ==> !(v@[j].0 == l && v@[j].1@ == key@)
            },
            None => forall|j: int| 0 <= j < v.len() ==> !(v@[j].0 == l && v@[j].1@ == key@),
        },
{
    let mut i: usize = 0;
    while i < v.len()
        invariant
            i <= v.len(),
            forall|j: int| 0 <= j < i ==> !(v@[j].0 == l && v@[j].1@ == key@),
        decreases v.len() - i,
    {
        if v[i].0 == l && str_equal(v[i].1.as_str(), key) {
            return Some(i);
        }
        i = i + 1;
    }
    None
}

/// Whether each rule is named after a rule of the grammar `g` and holds only
/// literals of `g`.
pub open spec fn rules_from_grammar(prs: Seq<crate::lan::lanparser::declaration::RuleV>, g: Map<Seq<char>, PhraseContextV>) -> bool {
    forall|k: int| 0 <= k < prs.len() ==> rule_literals_ok(#[trigger] prs[k].rules, g) && grammar_rule(g, prs[k].name)
}

/// Remembers a result in a table, replacing the entry for the same key.
pub(crate) fn put_entry(
    v: &mut Vec<(usize, String, Option<(SyntaxTreeNode, usize)>)>,
    l: usize,
    key: String,
    val: Option<(SyntaxTreeNode, usize)>,
    Ghost(top): Ghost<Seq<char>>,
)
    requires
        forall|i: int| 0 <= i < old(v)@.len() ==> entry_ok(#[trigger] old(v)@[i], top),
        l <= top.len(),
        sound_result(val, suffix(top, l as int)),
    ensures
        forall|i: int| 0 <= i < final(v)@.len() ==> entry_ok(#[trigger] final(v)@[i], top),
        forall|i: int|
            0 <= i < final(v)@.len() ==> (#[trigger] final(v)@[i]).2 == val || old(v)@.contains(
                final(v)@[i],
            ),
        stored(old(v)@, final(v)@, l, key, val),
{
    let ghost before = v@;
    match find_entry(v, l, key.as_str()) {
        Some(i) => {
            v.set(i, (l, key, val));
            assert forall|f: int| #[trigger] first_entry(before, f, l, key@) implies v@ == before.update(
                f,
                (l, key, val),
            ) by {
                assert(first_entry(before, i as int, l, key@));
                lemma_first_unique(before, f, i as int, l, key@);
            }
            assert(!no_entry(before, l, key@)) by {
                assert(entry_is(before[i as int], l, key@));
            }
            assert forall|j: int| 0 <= j < v@.len() && j != i implies before.contains(
                #[trigger] v@[j],
            ) by {
                assert(v@[j] == before[j]);
            }
        },
        None => {
            assert(no_entry(before, l, key@));
            v.push((l, key, val));
            assert forall|j: int| 0 <= j < v@.len() - 1 implies before.contains(#[trigger] v@[j]) by {
                assert(v@[j] == before[j]);
            }
        },
    }
}

/// Parses the start of `s` as the concrete part `part`: each of its rules is
/// matched (see [`fit_rules::fit_rules`]) with the part's parameter values, and
/// the match that reads furthest wins (the first of those that read equally
/// far). A part whose best match reads nothing fails. Failures are remembered in
/// `cache` under the part's id and the length of `s`.
///
/// The result and the memo tables after are exactly
/// [`fit_rules::model::parse_c`] of the tables before. Any result is sound (see
/// [`sound`]) and read at least one character; it is labeled by the grammar and
/// the dictionary (see [`labeled`]) when the remembered results are and the
/// part's rules come from the grammar (see [`rules_from_grammar`]).
pub fn parse<'p>(
    s: &[char],
    part: ConcretePart<'p>,
    rules: &'p LanRules,
    dict: &'p Dictionary,
    cache: &mut ParseCache,
    depth: usize,
) -> (r: Option<(SyntaxTreeNode, usize)>)
    requires
        old(cache).wf(),
        is_suffix(s@, old(cache).top@),
        rules.wf(),
        dict.wf(),
    ensures
        final(cache).wf(),
        final(cache).top == old(cache).top,
        old(cache).labels_ok(rules.map(), dict.map()) && rules_from_grammar(part.rules.deep_view(), rules.map())
            ==> final(cache).labels_ok(rules.map(), dict.map()) && labeled_result(r, rules.map(), dict.map()),
        sound_result(r, s@),
        reads_something(r),
        forall|i: int| #[trigger]
            first_entry(old(cache).parts@, i, s.len(), part.id@) ==> same_result(r, old(cache).parts@[i].2)
                && same_cache(*final(cache), *old(cache)),
        no_entry(old(cache).parts@, s.len(), part.id@) && r is None ==> remembered(
            final(cache).parts@,
            s.len(),
            part.id@,
            None,
        ),
        tables_v(*final(cache)) == parse_c(
            depth as nat,
            tables_v(*old(cache)),
            s@,
            part.id@,
            part.rules.deep_view(),
            part.args.deep_view(),
            rules.map(),
            dict.map(),
        ).0,
        res_v(r) == parse_c(
            depth as nat,
            tables_v(*old(cache)),
            s@,
            part.id@,
            part.rules.deep_view(),
            part.args.deep_view(),
            rules.map(),
            dict.map(),
        ).1,
    decreases depth, 2usize,
{
    let ghost g = rules.map();
    let ghost d = dict.map();
    let ghost c0 = *cache;
    let ghost cv0 = tables_v(*cache);
    let ghost prs = part.rules.deep_view();
    let ghost av = part.args.deep_view();
    let ghost lab = c0.labels_ok(g, d) && rules_from_grammar(part.rules.deep_view(), g);
    proof {
        reveal_with_fuel(parse_c, 1);
        assert(same_keys(c0.parts@, cv0.parts));
        lemma_first_at_entry(c0.parts@, cv0.parts, s.len(), part.id@);
    }
    match find_entry(&cache.parts, s.len(), part.id.as_str()) {
        Some(i) => {
            assert(first_entry(c0.parts@, i as int, s.len(), part.id@));
            assert(cv0.parts[i as int].2 == res_v(c0.parts@[i as int].2));
            assert(entry_ok(cache.parts@[i as int], cache.top@));
            assert(cache.labels_ok(g, d) ==> labeled_result(cache.parts@[i as int].2, g, d));
            assert forall|f: int| #[trigger] first_entry(c0.parts@, f, s.len(), part.id@) implies f == i by {
                assert(first_entry(c0.parts@, i as int, s.len(), part.id@));
                lemma_first_unique(c0.parts@, f, i as int, s.len(), part.id@);
            }
            return copy_result(&cache.parts[i].2);
        },
        None => {},
    }
    let mut m: usize = 0;
    let mut mp: Option<SyntaxTreeNode> = None;
    let mut i: usize = 0;
    while i < part.rules.len()
        invariant
            cache.wf(),
            cache.top == old(cache).top,
            is_suffix(s@, cache.top@),
            rules.wf(),
            dict.wf(),
            g == rules.map(),
            d == dict.map(),
            lab == (c0.labels_ok(g, d) && rules_from_grammar(part.rules.deep_view(), g)),
            lab ==> cache.labels_ok(g, d),
            m > 0 ==> mp is Some && sound(mp->0.deep_view(), m as int, s@) && (lab ==> labeled(
                mp->0.deep_view(),
                g,
                d,
            )),
            prs == part.rules.deep_view(),
            av == part.args.deep_view(),
            rules_loop(depth as nat, tables_v(*cache), s@, prs, av, i as int, m, mp.deep_view(), g, d)
                == rules_loop(depth as nat, cv0, s@, prs, av, 0, 0, None, g, d),
        decreases part.rules.len() - i,
    {
        let r = &part.rules[i];
        assert(part.rules.deep_view()[i as int] == r.deep_view());
        let nodes = r.rules.as_slice();
        assert(nodes.deep_view() =~= r.rules.deep_view());
        let ghost cb = tables_v(*cache);
        let ghost mpb = mp.deep_view();
        let ghost mb = m;
        assert(prs[i as int] == r.deep_view());
        let found = fit_rules::fit_rules(
            s,
            r.name.as_str(),
            nodes,
            rules,
            dict,
            &part.args,
            cache,
            depth,
        );
        match found {
            Some((morphemes, x)) => {
                if x > m {
                    mp = Some(morphemes);
                    m = x;
                }
            },
            None => {},
        }
        proof {
            let fr = fit_c(depth as nat, cb, s@, prs[i as int].name, prs[i as int].rules, av, g, d);
            assert(tables_v(*cache) == fr.0);
            assert(res_v(found) == fr.1);
            assert(rules_loop(depth as nat, cb, s@, prs, av, i as int, mb, mpb, g, d) == rules_loop(
                depth as nat,
                tables_v(*cache),
                s@,
                prs,
                av,
                i + 1,
                m,
                mp.deep_view(),
                g,
                d,
            ));
        }
        i = i + 1;
    }
    let ghost top = cache.top@;
    let ghost c1 = *cache;
    let ghost cv1 = tables_v(*cache);
    proof {
        assert(rules_loop(depth as nat, cv1, s@, prs, av, i as int, m, mp.deep_view(), g, d) == (
        cv1, m, mp.deep_view()));
        assert(same_keys(c1.parts@, cv1.parts));
        lemma_first_at_entry(c1.parts@, cv1.parts, s.len(), part.id@);
    }
    if m == 0 {
        let ghost before = cache.parts@;
        let ghost id = part.id;
        put_entry(&mut cache.parts, s.len(), part.id, None, Ghost(top));
        proof {
            if lab {
                lemma_table_labeled(before, cache.parts@, None, g, d);
            }
            lemma_stored_remembered(before, cache.parts@, s.len(), id, None, None);
            lemma_store_res(before, cache.parts@, s.len(), id, None);
            assert(tables_v(*cache) =~= (TablesV { parts: store(cv1.parts, s.len(), part.id@, None), ..cv1 }));
        }
        return None;
    }
    let t = match mp {
        Some(t) => t,
        None => {
            return None;
        },
    };
    match find_entry(&cache.parts, s.len(), part.id.as_str()) {
        Some(i) => {
            assert(first_entry(c1.parts@, i as int, s.len(), part.id@));
            assert(cv1.parts[i as int].2 == res_v(c1.parts@[i as int].2));
            let update = match &cache.parts[i].2 {
                Some((_, x2)) => *x2 < m,
                None => false,
            };
            if update {
                let ghost before = cache.parts@;
                let ghost id = part.id;
                let val = Some((copy_node(&t), m));
                put_entry(&mut cache.parts, s.len(), part.id, val, Ghost(top));
                proof {
                    if lab {
                        lemma_table_labeled(before, cache.parts@, val, g, d);
                    }
                    lemma_store_res(before, cache.parts@, s.len(), id, val);
                    assert(tables_v(*cache) =~= (TablesV {
                        parts: store(cv1.parts, s.len(), part.id@, Some((t.deep_view(), m))),
                        ..cv1
                    }));
                }
            }
        },
        None => {},
    }
    Some((t, m))
}

} // verus!
