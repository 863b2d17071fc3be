//! Dictionaries: for each category, its words with their attributes.
//!
//! A dictionary text has one entry per line. `PART name` opens the category
//! `name`; every other line is a word followed by its attributes, separated by
//! whitespace. Blank lines and lines starting with `#` are skipped.
use vstd::prelude::*;
use std::rc::Rc;
use crate::text::{
    chars_of, string_from, split_char, split_on, split_whitespace, split_ws, trim, trim_chars,
    views, has_prefix, starts_with, slice_vec, chars_eq, lemma_trim_first, lemma_first_word,
};
use crate::assembling::{disassemble_chars, lowercase, underscores_as_spaces};
use crate::table::Table;
use crate::lan::lanparser::declaration::{
    ShortWordPart, ShortWordPartV, ShortWordPartCondition, ConditionV, LanReference, LanReferenceV,
};
use crate::lan::parse::fit_rules::expect::Expectation;

verus! {

/// A dictionary word: its attributes and the characters it matches.
#[derive(Debug)]
pub struct Voca {
    pub argv: Vec<String>,
    pub text: Vec<char>,
}

/// A dictionary word whose attributes are shared.
#[derive(Debug)]
pub struct VocaRc {
    pub argv: Vec<Rc<String>>,
    pub text: Vec<char>,
}

/// The model of a dictionary word.
pub struct VocaV {
    pub argv: Seq<Seq<char>>,
    pub text: Seq<char>,
}

impl DeepView for Voca {
    type V = VocaV;

    open spec fn deep_view(&self) -> VocaV {
        VocaV { argv: self.argv.deep_view(), text: self.text@ }
    }
}

impl DeepView for VocaRc {
    type V = VocaV;

    open spec fn deep_view(&self) -> VocaV {
        VocaV { argv: self.argv.deep_view(), text: self.text@ }
    }
}

/// A dictionary: the words of each category, by category name.
pub type Dictionary = Table<Vec<Voca>>;

/// A dictionary of words with shared attributes.
pub type DictionaryRc = Table<Vec<VocaRc>>;

/// The word of a dictionary line: its first whitespace-separated item, as the
/// parser reads it, and the remaining items as attributes.
pub open spec fn voca_of(t: Seq<char>) -> VocaV {
    let w = split_ws(t);
    VocaV { argv: w.drop_first(), text: underscores_as_spaces(lowercase(w[0])) }
}

fn strings_of(words: &[Vec<char>]) -> (r: Vec<String>)
    ensures
        r.deep_view() == views(words@),
{
    let mut r: Vec<String> = Vec::new();
    let mut i: usize = 0;
    while i < words.len()
        invariant
            i <= words.len(),
            r.deep_view() == views(words@.take(i as int)),
        decreases words.len() - i,
    {
        let s = string_from(words[i].as_slice());
        let ghost before = r.deep_view();
        r.push(s);
        assert(r.deep_view() =~= before.push(s@));
        assert(views(words@.take(i + 1)) =~= views(words@.take(i as int)).push(words@[i as int]@));
        i = i + 1;
    }
    assert(words@.take(i as int) == words@);
    r
}

fn rc_strings_of(words: &[Vec<char>]) -> (r: Vec<Rc<String>>)
    ensures
        r.deep_view() == views(words@),
{
    let mut r: Vec<Rc<String>> = Vec::new();
    let mut i: usize = 0;
    while i < words.len()
        invariant
            i <= words.len(),
            r.deep_view() == views(words@.take(i as int)),
        decreases words.len() - i,
    {
        let s = Rc::new(string_from(words[i].as_slice()));
        let ghost before = r.deep_view();
        r.push(s);
        assert(r.deep_view() =~= before.push(words@[i as int]@));
        assert(views(words@.take(i + 1)) =~= views(words@.take(i as int)).push(words@[i as int]@));
        i = i + 1;
    }
    assert(words@.take(i as int) == words@);
    r
}

impl Voca {
    /// The word of a dictionary line (see [`voca_of`]).
    pub fn from(t: &str) -> (r: Voca)
        requires
            split_ws(t@).len() >= 1,
        ensures
            r.deep_view() == voca_of(t@),
    {
        let cs = chars_of(t);
        let s = split_whitespace(cs.as_slice());
        assert(views(s@)[0] == s@[0]@);
        let argv = strings_of(&s.as_slice()[1..s.len()]);
        assert(views(s@.subrange(1, s@.len() as int)) =~= views(s@).drop_first());
        Voca { argv, text: disassemble_chars(s[0].as_slice()) }
    }
}

impl VocaRc {
    /// The word of a dictionary line (see [`voca_of`]).
    pub fn from(t: &str) -> (r: VocaRc)
        requires
            split_ws(t@).len() >= 1,
        ensures
            r.deep_view() == voca_of(t@),
    {
        let cs = chars_of(t);
        let s = split_whitespace(cs.as_slice());
        assert(views(s@)[0] == s@[0]@);
        let argv = rc_strings_of(&s.as_slice()[1..s.len()]);
        assert(views(s@.subrange(1, s@.len() as int)) =~= views(s@).drop_first());
        VocaRc { argv, text: disassemble_chars(s[0].as_slice()) }
    }
}

/// Whether a line holds something: it is not blank and is no `#` comment.
pub open spec fn is_content(t: Seq<char>) -> bool {
    t.len() > 0 && t[0] != '#'
}

/// The trimmed lines that hold something, in order.
pub open spec fn content_lines(pieces: Seq<Seq<char>>) -> Seq<Seq<char>>
    decreases pieces.len(),
{
    if pieces.len() == 0 {
        Seq::empty()
    } else {
        let rest = content_lines(pieces.drop_last());
        let t = trim(pieces.last());
        if is_content(t) {
            rest.push(t)
        } else {
            rest
        }
    }
}

/// The lines of a text that hold something, trimmed.
pub open spec fn text_lines(d: Seq<char>) -> Seq<Seq<char>> {
    content_lines(split_on(d, '\n'))
}

/// The lines that hold something, of pieces taken one after another.
proof fn lemma_content_lines_concat(p: Seq<Seq<char>>, q: Seq<Seq<char>>)
    ensures
        content_lines(p + q) == content_lines(p) + content_lines(q),
    decreases q.len(),
{
    if q.len() == 0 {
        assert(p + q == p);
    } else {
        lemma_content_lines_concat(p, q.drop_last());
        assert((p + q).drop_last() == p + q.drop_last());
        assert((p + q).last() == q.last());
    }
}

/// The lines of two texts joined by a line break are the lines of the first
/// followed by those of the second.
pub proof fn lemma_text_lines_join(a: Seq<char>, b: Seq<char>)
    ensures
        text_lines(a + seq!['\n'] + b) == text_lines(a) + text_lines(b),
{
    crate::text::lemma_split_join(a, b, '\n');
    lemma_content_lines_concat(split_on(a, '\n'), split_on(b, '\n'));
}

/// The trimmed lines of a text that hold something.
pub fn content_lines_of(d: &str) -> (r: Vec<Vec<char>>)
    ensures
        views(r@) == text_lines(d@),
{
    let cs = chars_of(d);
    let pieces = split_char(cs.as_slice(), '\n');
    let mut r: Vec<Vec<char>> = Vec::new();
    let mut i: usize = 0;
    while i < pieces.len()
        invariant
            i <= pieces.len(),
            views(pieces@) == split_on(d@, '\n'),
            views(r@) == content_lines(views(pieces@).take(i as int)),
        decreases pieces.len() - i,
    {
        let t = trim_chars(pieces[i].as_slice());
        assert(views(pieces@).take(i + 1).drop_last() == views(pieces@).take(i as int));
        assert(views(pieces@).take(i + 1).last() == pieces@[i as int]@);
        if t.len() > 0 && t[0] != '#' {
            let ghost before = views(r@);
            r.push(t);
            assert(views(r@) =~= before.push(t@));
        }
        i = i + 1;
    }
    assert(views(pieces@).take(i as int) == views(pieces@));
    r
}

/// The keyword that opens a category or a part.
pub open spec fn part_keyword() -> Seq<char> {
    seq!['P', 'A', 'R', 'T']
}

/// A line that opens a category: it starts with `PART`.
pub open spec fn is_part_line(t: Seq<char>) -> bool {
    has_prefix(t, part_keyword())
}

/// How a dictionary changes with one line: `PART` lines open (or clear) the
/// category named by the text from their sixth character on and make it
/// current; other lines add their word to the current category.
pub open spec fn load_from(m: Map<Seq<char>, Seq<VocaV>>, mode: Seq<char>, lines: Seq<Seq<char>>) -> (
    Map<Seq<char>, Seq<VocaV>>,
    Seq<char>,
)
    decreases lines.len(),
{
    if lines.len() == 0 {
        (m, mode)
    } else {
        let t = lines[0];
        if is_part_line(t) {
            load_from(m.insert(t.skip(5), Seq::empty()), t.skip(5), lines.drop_first())
        } else {
            load_from(m.insert(mode, m[mode].push(voca_of(t))), mode, lines.drop_first())
        }
    }
}

/// Whether the lines can be read, given the categories opened so far: each
/// `PART` line names its category from a sixth character on after an ASCII fifth
/// one, and each word line has a current category to go to.
pub open spec fn load_ok(keys: Set<Seq<char>>, mode: Seq<char>, lines: Seq<Seq<char>>) -> bool
    decreases lines.len(),
{
    if lines.len() == 0 {
        true
    } else {
        let t = lines[0];
        if is_part_line(t) {
            &&& t.len() >= 5
            &&& (t[4] as u32) < 128
            &&& load_ok(keys.insert(t.skip(5)), t.skip(5), lines.drop_first())
        } else {
            &&& keys.contains(mode)
            &&& load_ok(keys, mode, lines.drop_first())
        }
    }
}

/// The dictionary a text describes.
pub open spec fn spec_load(d: Seq<char>) -> Map<Seq<char>, Seq<VocaV>> {
    load_from(Map::empty(), Seq::empty(), text_lines(d)).0
}

/// Whether a dictionary text can be read.
pub open spec fn dictionary_ok(d: Seq<char>) -> bool {
    load_ok(Set::empty(), Seq::empty(), text_lines(d))
}

/// Every content line has a first word.
pub proof fn lemma_content_has_word(pieces: Seq<Seq<char>>)
    ensures
        forall|i: int|
            0 <= i < content_lines(pieces).len() ==> is_content(#[trigger] content_lines(pieces)[i])
                && split_ws(content_lines(pieces)[i]).len() >= 1,
    decreases pieces.len(),
{
    if pieces.len() > 0 {
        lemma_content_has_word(pieces.drop_last());
        lemma_trim_first(pieces.last());
        let t = trim(pieces.last());
        if is_content(t) {
            lemma_first_word(t);
        }
        let rest = content_lines(pieces.drop_last());
        assert forall|i: int| 0 <= i < content_lines(pieces).len() implies is_content(
            #[trigger] content_lines(pieces)[i],
        ) && split_ws(content_lines(pieces)[i]).len() >= 1 by {
            if i < rest.len() {
                assert(content_lines(pieces)[i] == rest[i]);
            }
        }
    }
}

/// Reading lines one block after another is reading them all.
proof fn lemma_load_from_concat(
    m: Map<Seq<char>, Seq<VocaV>>,
    mode: Seq<char>,
    l1: Seq<Seq<char>>,
    l2: Seq<Seq<char>>,
)
    ensures
        load_from(m, mode, l1 + l2) == load_from(load_from(m, mode, l1).0, load_from(m, mode, l1).1, l2),
    decreases l1.len(),
{
    if l1.len() == 0 {
        assert(l1 + l2 == l2);
    } else {
        assert((l1 + l2)[0] == l1[0]);
        assert((l1 + l2).drop_first() == l1.drop_first() + l2);
        let t = l1[0];
        if is_part_line(t) {
            lemma_load_from_concat(m.insert(t.skip(5), Seq::empty()), t.skip(5), l1.drop_first(), l2);
        } else {
            lemma_load_from_concat(m.insert(mode, m[mode].push(voca_of(t))), mode, l1.drop_first(), l2);
        }
    }
}

/// Lines can be read one block after another exactly when the first block can
/// be read and the second can be read from the categories and the current
/// category that the first leaves.
proof fn lemma_load_ok_concat(
    m: Map<Seq<char>, Seq<VocaV>>,
    mode: Seq<char>,
    l1: Seq<Seq<char>>,
    l2: Seq<Seq<char>>,
)
    ensures
        load_ok(m.dom(), mode, l1 + l2) == (load_ok(m.dom(), mode, l1) && load_ok(
            load_from(m, mode, l1).0.dom(),
            load_from(m, mode, l1).1,
            l2,
        )),
    decreases l1.len(),
{
    if l1.len() == 0 {
        assert(l1 + l2 == l2);
    } else {
        assert((l1 + l2)[0] == l1[0]);
        assert((l1 + l2).drop_first() == l1.drop_first() + l2);
        let t = l1[0];
        if is_part_line(t) {
            let m2 = m.insert(t.skip(5), Seq::empty());
            assert(m2.dom() =~= m.dom().insert(t.skip(5)));
            lemma_load_ok_concat(m2, t.skip(5), l1.drop_first(), l2);
        } else {
            let m2 = m.insert(mode, m[mode].push(voca_of(t)));
            if m.dom().contains(mode) {
                assert(m2.dom() =~= m.dom());
                lemma_load_ok_concat(m2, mode, l1.drop_first(), l2);
            }
        }
    }
}

/// A dictionary text, and a second one that starts with a category line (or
/// holds no entry): adding the second to the dictionary of the first gives the
/// dictionary of the two texts joined by a line break, and the second can be
/// added exactly when the joined text can be read.
pub proof fn lemma_dictionaries_join(a: Seq<char>, b: Seq<char>)
    requires
        dictionary_ok(a),
        text_lines(b).len() == 0 || is_part_line(text_lines(b)[0]),
    ensures
        load_ok(spec_load(a).dom(), Seq::empty(), text_lines(b)) == dictionary_ok(a + seq!['\n'] + b),
        load_from(spec_load(a), Seq::empty(), text_lines(b)).0 == spec_load(a + seq!['\n'] + b),
{
    let l1 = text_lines(a);
    let l2 = text_lines(b);
    let e = Map::<Seq<char>, Seq<VocaV>>::empty();
    lemma_text_lines_join(a, b);
    assert(e.dom() =~= Set::<Seq<char>>::empty());
    lemma_load_from_concat(e, Seq::empty(), l1, l2);
    lemma_load_ok_concat(e, Seq::empty(), l1, l2);
    let after = load_from(e, Seq::empty(), l1);
    if l2.len() > 0 {
        assert(load_from(after.0, after.1, l2) == load_from(after.0, Seq::empty(), l2));
        assert(load_ok(after.0.dom(), after.1, l2) == load_ok(after.0.dom(), Seq::empty(), l2));
    }
}

fn part_chars() -> (v: Vec<char>)
    ensures
        v@ == part_keyword(),
{
    vec!['P', 'A', 'R', 'T']
}

/// Reads a dictionary text (see [`load_from`]).
pub fn load_dictionary(dict: &str) -> (r: Dictionary)
    requires
        dictionary_ok(dict@),
    ensures
        r.wf(),
        r.map() == spec_load(dict@),
{
    let lines = content_lines_of(dict);
    proof {
        lemma_content_has_word(split_on(dict@, '\n'));
    }
    let part = part_chars();
    let mut d: Dictionary = Table::new();
    let mut mode: Vec<char> = Vec::new();
    let mut i: usize = 0;
    let ghost all = views(lines@);
    assert(all.skip(0) == all);
    while i < lines.len()
        invariant
            all == views(lines@),
            all == text_lines(dict@),
            forall|j: int| 0 <= j < all.len() ==> split_ws(#[trigger] all[j]).len() >= 1,
            part@ == part_keyword(),
            i <= lines.len(),
            d.wf(),
            load_from(d.map(), mode@, all.skip(i as int)) == load_from(
                Map::empty(),
                Seq::empty(),
                all,
            ),
            load_ok(d.map().dom(), mode@, all.skip(i as int)),
        decreases lines.len() - i,
    {
        let t = &lines[i];
        let ghost rest = all.skip(i as int);
        assert(rest[0] == t@);
        assert(rest.drop_first() == all.skip(i + 1));
        assert(split_ws(all[i as int]).len() >= 1);
        if starts_with(t.as_slice(), part.as_slice()) {
            let name = slice_vec(t.as_slice(), 5, t.len());
            assert(name@ == t@.skip(5));
            let empty: Vec<Voca> = Vec::new();
            assert(empty.deep_view() =~= Seq::<VocaV>::empty());
            let ghost dom0 = d.map().dom();
            d.insert(string_from(name.as_slice()), empty);
            assert(d.map().dom() =~= dom0.insert(name@));
            mode = name;
        } else {
            let ts = string_from(t.as_slice());
            let v = Voca::from(ts.as_str());
            let ms = string_from(mode.as_slice());
            let ghost dom0 = d.map().dom();
            d.push_into(ms.as_str(), v);
            assert(d.map().dom() =~= dom0);
        }
        i = i + 1;
    }
    assert(all.skip(i as int).len() == 0);
    d
}

/// Adds the entries of a dictionary text to `target` (see [`load_from`]; word
/// lines before the first `PART` line go to the category named by the empty text).
pub fn add_dictionaryrc(target: &mut DictionaryRc, dict: &str)
    requires
        old(target).wf(),
        load_ok(old(target).map().dom(), Seq::empty(), text_lines(dict@)),
    ensures
        final(target).wf(),
        final(target).map() == load_from(old(target).map(), Seq::empty(), text_lines(dict@)).0,
{
    let lines = content_lines_of(dict);
    proof {
        lemma_content_has_word(split_on(dict@, '\n'));
    }
    let part = part_chars();
    let mut mode: Vec<char> = Vec::new();
    let mut i: usize = 0;
    let ghost all = views(lines@);
    let ghost m0 = target.map();
    assert(all.skip(0) == all);
    while i < lines.len()
        invariant
            all == views(lines@),
            all == text_lines(dict@),
            forall|j: int| 0 <= j < all.len() ==> split_ws(#[trigger] all[j]).len() >= 1,
            part@ == part_keyword(),
            i <= lines.len(),
            target.wf(),
            load_from(target.map(), mode@, all.skip(i as int)) == load_from(m0, Seq::empty(), all),
            load_ok(target.map().dom(), mode@, all.skip(i as int)),
        decreases lines.len() - i,
    {
        let t = &lines[i];
        let ghost rest = all.skip(i as int);
        assert(rest[0] == t@);
        assert(rest.drop_first() == all.skip(i + 1));
        assert(split_ws(all[i as int]).len() >= 1);
        if starts_with(t.as_slice(), part.as_slice()) {
            let name = slice_vec(t.as_slice(), 5, t.len());
            assert(name@ == t@.skip(5));
            let empty: Vec<VocaRc> = Vec::new();
            assert(empty.deep_view() =~= Seq::<VocaV>::empty());
            let ghost dom0 = target.map().dom();
            target.insert(string_from(name.as_slice()), empty);
            assert(target.map().dom() =~= dom0.insert(name@));
            mode = name;
        } else {
            let ts = string_from(t.as_slice());
            let v = VocaRc::from(ts.as_str());
            let ms = string_from(mode.as_slice());
            let ghost dom0 = target.map().dom();
            target.push_into(ms.as_str(), v);
            assert(target.map().dom() =~= dom0);
        }
        i = i + 1;
    }
    assert(all.skip(i as int).len() == 0);
}

/// Reads a dictionary text into a dictionary with shared attributes.
pub fn load_dictionaryrc(dict: &str) -> (r: DictionaryRc)
    requires
        dictionary_ok(dict@),
    ensures
        r.wf(),
        r.map() == spec_load(dict@),
{
    let mut d: DictionaryRc = Table::new();
    add_dictionaryrc(&mut d, dict);
    d
}

fn copy_words(v: &Vec<VocaRc>) -> (r: Vec<Voca>)
    ensures
        r.deep_view() == v.deep_view(),
{
    let mut r: Vec<Voca> = Vec::new();
    let mut i: usize = 0;
    while i < v.len()
        invariant
            i <= v.len(),
            r.deep_view() == v.deep_view().take(i as int),
        decreases v.len() - i,
    {
        let e = &v[i];
        let mut argv: Vec<String> = Vec::new();
        let mut k: usize = 0;
        while k < e.argv.len()
            invariant
                k <= e.argv.len(),
                argv.deep_view() == e.argv.deep_view().take(k as int),
            decreases e.argv.len() - k,
        {
            let a: &String = &e.argv[k];
            let s = a.clone();
            let ghost before = argv.deep_view();
            argv.push(s);
            assert(argv.deep_view() =~= before.push(e.argv@[k as int]@));
            assert(e.argv.deep_view().take(k + 1) =~= e.argv.deep_view().take(k as int).push(
                e.argv@[k as int]@,
            ));
            k = k + 1;
        }
        assert(e.argv.deep_view().take(k as int) =~= e.argv.deep_view());
        let w = Voca { argv, text: e.text.clone() };
        assert(w.text@ =~= e.text@);
        let ghost before = r.deep_view();
        r.push(w);
        assert(r.deep_view() =~= before.push(e.deep_view()));
        assert(v.deep_view().take(i + 1) =~= v.deep_view().take(i as int).push(v@[i as int].deep_view()));
        i = i + 1;
    }
    assert(v.deep_view().take(i as int) =~= v.deep_view());
    r
}

/// A dictionary with the same words as `dicrc`.
pub fn dictrc_to_dict(dicrc: &DictionaryRc) -> (r: Dictionary)
    requires
        dicrc.wf(),
    ensures
        r.wf(),
        r.map() == dicrc.map(),
{
    let mut r: Dictionary = Table::new();
    let mut i: usize = 0;
    proof {
        crate::table::lemma_table_map(dicrc.entries@);
    }
    while i < dicrc.entries.len()
        invariant
            i <= dicrc.entries.len(),
            dicrc.wf(),
            r.wf(),
            r.map() == crate::table::table_map(dicrc.entries@.take(i as int)),
        decreases dicrc.entries.len() - i,
    {
        let (k, v) = &dicrc.entries[i];
        let words = copy_words(v);
        r.insert(k.clone(), words);
        assert(dicrc.entries@.take(i + 1).drop_last() == dicrc.entries@.take(i as int));
        i = i + 1;
    }
    assert(dicrc.entries@.take(i as int) == dicrc.entries@);
    r
}

/// Whether `x` is one of the texts in `v`.
fn holds_text(v: &Vec<Vec<char>>, x: &[char]) -> (r: bool)
    ensures
        r == views(v@).contains(x@),
{
    let mut i: usize = 0;
    while i < v.len()
        invariant
            i <= v.len(),
            forall|j: int| 0 <= j < i ==> v@[j]@ != x@,
        decreases v.len() - i,
    {
        if chars_eq(v[i].as_slice(), x) {
            assert(views(v@)[i as int] == x@);
            return true;
        }
        i = i + 1;
    }
    proof {
        if views(v@).contains(x@) {
            let j = choose|j: int| 0 <= j < views(v@).len() && views(v@)[j] == x@;
            assert(v@[j]@ == x@);
        }
    }
    false
}

/// Whether the entries of a dictionary text can be added to `target` (see
/// [`load_ok`]): every `PART` line names its category after an ASCII fifth
/// character, and every word line has a category to go to.
pub fn dictionary_fits<V: DeepView>(target: &Table<V>, dict: &str) -> (r: bool)
    requires
        target.wf(),
    ensures
        r == load_ok(target.map().dom(), Seq::empty(), text_lines(dict@)),
{
    let lines = content_lines_of(dict);
    let part = part_chars();
    let mut opened: Vec<Vec<char>> = Vec::new();
    let mut mode: Vec<char> = Vec::new();
    let ghost mut keys: Set<Seq<char>> = target.map().dom();
    let ghost all = views(lines@);
    let mut i: usize = 0;
    assert(all.skip(0) == all);
    while i < lines.len()
        invariant
            all == views(lines@),
            all == text_lines(dict@),
            part@ == part_keyword(),
            i <= lines.len(),
            target.wf(),
            forall|x: Seq<char>|
                #![trigger keys.contains(x)]
                keys.contains(x) <==> (target.map().contains_key(x) || views(opened@).contains(x)),
            load_ok(keys, mode@, all.skip(i as int)) == load_ok(
                target.map().dom(),
                Seq::empty(),
                all,
            ),
        decreases lines.len() - i,
    {
        let t = &lines[i];
        let ghost rest = all.skip(i as int);
        assert(rest[0] == t@);
        assert(rest.drop_first() == all.skip(i + 1));
        if starts_with(t.as_slice(), part.as_slice()) {
            if t.len() < 5 || t[4] as u32 >= 128 {
                return false;
            }
            let name = slice_vec(t.as_slice(), 5, t.len());
            assert(name@ == t@.skip(5));
            let ghost before = views(opened@);
            opened.push(name);
            assert(views(opened@) =~= before.push(t@.skip(5)));
            proof {
                let k0 = keys;
                keys = keys.insert(t@.skip(5));
                assert forall|x: Seq<char>| #![trigger keys.contains(x)] keys.contains(x) <==> (
                target.map().contains_key(x) || views(opened@).contains(x)) by {
                    if x == t@.skip(5) {
                        assert(views(opened@)[before.len() as int] == x);
                    }
                    if views(opened@).contains(x) && x != t@.skip(5) {
                        let j = choose|j: int| 0 <= j < views(opened@).len() && views(opened@)[j] == x;
                        assert(before[j] == x);
                        assert(k0.contains(x));
                    }
                    if before.contains(x) {
                        let j = choose|j: int| 0 <= j < before.len() && before[j] == x;
                        assert(views(opened@)[j] == x);
                    }
                }
            }
            mode = slice_vec(t.as_slice(), 5, t.len());
        } else {
            let known = match target.position(string_from(mode.as_slice()).as_str()) {
                Some(_) => true,
                None => holds_text(&opened, mode.as_slice()),
            };
            if !known {
                assert(!keys.contains(mode@));
                return false;
            }
            assert(keys.contains(mode@));
        }
        i = i + 1;
    }
    assert(all.skip(i as int).len() == 0);
    true
}

/// The text that stands for a missing value.
pub open spec fn zero_text() -> Seq<char> {
    seq!['0']
}

/// Item `n` of `items`, or `0` when there is none.
pub open spec fn item_or_zero(items: Seq<Seq<char>>, n: int) -> Seq<char> {
    if 0 <= n < items.len() {
        items[n]
    } else {
        zero_text()
    }
}

/// What a condition compares with, given the attributes of the words matched so
/// far and the part's parameters; `None` when it names a word not matched yet.
pub open spec fn target_value(t: LanReferenceV, attrs: Seq<Seq<Seq<char>>>, cargs: Seq<Seq<char>>) -> Option<
    Seq<char>,
> {
    match t {
        LanReferenceV::PartAttr((a, b)) => if a < attrs.len() {
            Some(item_or_zero(attrs[a as int], b as int))
        } else {
            None
        },
        LanReferenceV::PartParam(i) => Some(item_or_zero(cargs, i as int)),
        LanReferenceV::Text(t) => Some(t),
    }
}

/// Whether a word's attributes meet the conditions, checked in order and
/// stopping at the first that fails; `None` when a condition is reached that
/// names a word not matched yet.
pub open spec fn conditions_hold(
    conds: Seq<ConditionV>,
    argv: Seq<Seq<char>>,
    attrs: Seq<Seq<Seq<char>>>,
    cargs: Seq<Seq<char>>,
) -> Option<bool>
    decreases conds.len(),
{
    if conds.len() == 0 {
        Some(true)
    } else {
        let c = conds[0];
        match target_value(c.target, attrs, cargs) {
            None => None,
            Some(v) => {
                let holds = c.neq != (item_or_zero(argv, c.argn as int) == v);
                if holds {
                    conditions_hold(conds.drop_first(), argv, attrs, cargs)
                } else {
                    Some(false)
                }
            },
        }
    }
}

/// Whether one condition of a category node holds for a word with attributes
/// `argv`: the value it names (an attribute of a word matched before, a
/// parameter of the part, or a text) can be read, and the word's attribute
/// `argn` (or `0`) equals it, or differs from it for a `~` condition.
pub open spec fn condition_met(
    c: ConditionV,
    argv: Seq<Seq<char>>,
    attrs: Seq<Seq<Seq<char>>>,
    cargs: Seq<Seq<char>>,
) -> bool {
    match target_value(c.target, attrs, cargs) {
        Some(v) => c.neq != (item_or_zero(argv, c.argn as int) == v),
        None => false,
    }
}

/// A word's attributes meet a list of conditions exactly when they meet each
/// one of them.
pub proof fn lemma_conditions_hold_every(
    conds: Seq<ConditionV>,
    argv: Seq<Seq<char>>,
    attrs: Seq<Seq<Seq<char>>>,
    cargs: Seq<Seq<char>>,
)
    ensures
        conditions_hold(conds, argv, attrs, cargs) == Some(true) <==> forall|i: int|
            0 <= i < conds.len() ==> condition_met(#[trigger] conds[i], argv, attrs, cargs),
    decreases conds.len(),
{
    if conds.len() > 0 {
        let rest = conds.drop_first();
        lemma_conditions_hold_every(rest, argv, attrs, cargs);
        assert forall|i: int| 1 <= i < conds.len() implies conds[i] == rest[i - 1] by {}
        if forall|i: int| 0 <= i < conds.len() ==> condition_met(#[trigger] conds[i], argv, attrs, cargs) {
            assert(condition_met(conds[0], argv, attrs, cargs));
            assert forall|i: int| 0 <= i < rest.len() implies condition_met(#[trigger] rest[i], argv, attrs, cargs) by {
                assert(rest[i] == conds[i + 1]);
            }
        }
        if conditions_hold(conds, argv, attrs, cargs) == Some(true) {
            assert forall|i: int| 0 <= i < conds.len() implies condition_met(#[trigger] conds[i], argv, attrs, cargs) by {
                if i > 0 {
                    assert(conds[i] == rest[i - 1]);
                }
            }
        }
    }
}

/// The words of a category node found at a position are exactly the words of
/// the category whose text is there and that meet every one of the node's
/// conditions.
pub proof fn lemma_matches_meet_every_condition(
    words: Seq<VocaV>,
    p: ShortWordPartV,
    s: Seq<char>,
    reading: int,
    attrs: Seq<Seq<Seq<char>>>,
    cargs: Seq<Seq<char>>,
)
    ensures
        forall|w: VocaV|
            #[trigger] matching_words(words, p, s, reading, attrs, cargs).contains(w) <==> {
                &&& words.contains(w)
                &&& text_at(w, s, reading)
                &&& forall|i: int|
                    0 <= i < p.condition.len() ==> condition_met(#[trigger] p.condition[i], w.argv, attrs, cargs)
            },
    decreases words.len(),
{
    if words.len() > 0 {
        let init = words.drop_last();
        lemma_matches_meet_every_condition(init, p, s, reading, attrs, cargs);
        let rest = matching_words(init, p, s, reading, attrs, cargs);
        let l = words.last();
        lemma_conditions_hold_every(p.condition, l.argv, attrs, cargs);
        assert forall|w: VocaV| words.contains(w) <==> (init.contains(w) || w == l) by {
            if words.contains(w) {
                let j = choose|j: int| 0 <= j < words.len() && words[j] == w;
                if j < init.len() {
                    assert(init[j] == w);
                }
            }
            if init.contains(w) {
                let j = choose|j: int| 0 <= j < init.len() && init[j] == w;
                assert(words[j] == w);
            }
            if w == l {
                assert(words[words.len() - 1] == w);
            }
        }
        let m = matching_words(words, p, s, reading, attrs, cargs);
        assert(word_matches(l, p, s, reading, attrs, cargs) <==> text_at(l, s, reading) && forall|i: int|
            0 <= i < p.condition.len() ==> condition_met(#[trigger] p.condition[i], l.argv, attrs, cargs));
        if word_matches(l, p, s, reading, attrs, cargs) {
            assert(m == rest.push(l));
            assert forall|w: VocaV| rest.push(l).contains(w) <==> (rest.contains(w) || w == l) by {
                if rest.push(l).contains(w) {
                    let j = choose|j: int| 0 <= j < rest.push(l).len() && rest.push(l)[j] == w;
                    if j < rest.len() {
                        assert(rest[j] == w);
                    }
                }
                if rest.contains(w) {
                    let j = choose|j: int| 0 <= j < rest.len() && rest[j] == w;
                    assert(rest.push(l)[j] == w);
                }
                if w == l {
                    assert(rest.push(l)[rest.len() as int] == w);
                }
            }
        } else {
            assert(m == rest);
        }
        assert forall|w: VocaV| #[trigger] m.contains(w) <==> {
            &&& words.contains(w)
            &&& text_at(w, s, reading)
            &&& forall|i: int|
                0 <= i < p.condition.len() ==> condition_met(#[trigger] p.condition[i], w.argv, attrs, cargs)
        } by {
            assert(rest.contains(w) <==> {
                &&& init.contains(w)
                &&& text_at(w, s, reading)
                &&& forall|i: int|
                    0 <= i < p.condition.len() ==> condition_met(#[trigger] p.condition[i], w.argv, attrs, cargs)
            });
        }
    } else {
        assert forall|w: VocaV| !(#[trigger] matching_words(words, p, s, reading, attrs, cargs).contains(w))
            && !words.contains(w) by {}
    }
}

/// Whether the word's text is found at `reading`.
pub open spec fn text_at(e: VocaV, s: Seq<char>, reading: int) -> bool {
    &&& e.text.len() <= s.len() - reading
    &&& s.subrange(reading, reading + e.text.len()) == e.text
}

/// Whether a word of category `p` matches at `reading`: its text is found there
/// and its attributes meet the conditions.
pub open spec fn word_matches(
    e: VocaV,
    p: ShortWordPartV,
    s: Seq<char>,
    reading: int,
    attrs: Seq<Seq<Seq<char>>>,
    cargs: Seq<Seq<char>>,
) -> bool {
    text_at(e, s, reading) && conditions_hold(p.condition, e.argv, attrs, cargs) == Some(true)
}

/// The words of a list that match, in order.
pub open spec fn matching_words(
    words: Seq<VocaV>,
    p: ShortWordPartV,
    s: Seq<char>,
    reading: int,
    attrs: Seq<Seq<Seq<char>>>,
    cargs: Seq<Seq<char>>,
) -> Seq<VocaV>
    decreases words.len(),
{
    if words.len() == 0 {
        Seq::empty()
    } else {
        let rest = matching_words(words.drop_last(), p, s, reading, attrs, cargs);
        if word_matches(words.last(), p, s, reading, attrs, cargs) {
            rest.push(words.last())
        } else {
            rest
        }
    }
}

/// Whether checking the words of a list never reaches a condition that names
/// a word not matched yet.
pub open spec fn search_ok(
    words: Seq<VocaV>,
    p: ShortWordPartV,
    s: Seq<char>,
    reading: int,
    attrs: Seq<Seq<Seq<char>>>,
    cargs: Seq<Seq<char>>,
) -> bool {
    forall|i: int|
        0 <= i < words.len() && text_at(#[trigger] words[i], s, reading) ==> conditions_hold(
            p.condition,
            words[i].argv,
            attrs,
            cargs,
        ) is Some
}

fn item_or_zero_of<'a>(items: &'a Vec<String>, n: usize, zero: &'a String) -> (r: &'a String)
    requires
        zero@ == zero_text(),
    ensures
        r@ == item_or_zero(items.deep_view(), n as int),
{
    if n < items.len() {
        &items[n]
    } else {
        zero
    }
}

fn conditions_hold_of(
    conds: &Vec<ShortWordPartCondition>,
    argv: &Vec<String>,
    attrs: &Vec<&Vec<String>>,
    cargs: &Vec<String>,
) -> (r: Option<bool>)
    ensures
        r == conditions_hold(conds.deep_view(), argv.deep_view(), attrs.deep_view(), cargs.deep_view()),
{
    let zero = string_from(vec!['0'].as_slice());
    assert(zero@ =~= zero_text());
    let ghost all = conds.deep_view();
    let ghost av = argv.deep_view();
    let ghost tv = attrs.deep_view();
    let ghost cv = cargs.deep_view();
    let mut i: usize = 0;
    assert(all.skip(0) == all);
    while i < conds.len()
        invariant
            i <= conds.len(),
            all == conds.deep_view(),
            av == argv.deep_view(),
            tv == attrs.deep_view(),
            cv == cargs.deep_view(),
            zero@ == zero_text(),
            conditions_hold(all, av, tv, cv) == conditions_hold(all.skip(i as int), av, tv, cv),
        decreases conds.len() - i,
    {
        let c = &conds[i];
        let ghost rest = all.skip(i as int);
        assert(rest[0] == c.deep_view());
        assert(rest.drop_first() == all.skip(i + 1));
        let own = item_or_zero_of(argv, c.argn, &zero);
        let same = match &c.target {
            LanReference::PartAttr((a, b)) => {
                if *a >= attrs.len() {
                    return None;
                }
                let row: &Vec<String> = attrs[*a];
                assert(tv[*a as int] == row.deep_view());
                let other = item_or_zero_of(row, *b, &zero);
                *own == *other
            },
            LanReference::PartParam(pi) => {
                let other = item_or_zero_of(cargs, *pi, &zero);
                *own == *other
            },
            LanReference::Text(t) => *own == *t,
        };
        if c.neq == same {
            return Some(false);
        }
        i = i + 1;
    }
    assert(all.skip(i as int).len() == 0);
    Some(true)
}

/// Every word in the result matches.
pub proof fn lemma_matching_words(
    words: Seq<VocaV>,
    p: ShortWordPartV,
    s: Seq<char>,
    reading: int,
    attrs: Seq<Seq<Seq<char>>>,
    cargs: Seq<Seq<char>>,
)
    ensures
        forall|i: int|
            0 <= i < matching_words(words, p, s, reading, attrs, cargs).len() ==> word_matches(
                #[trigger] matching_words(words, p, s, reading, attrs, cargs)[i],
                p,
                s,
                reading,
                attrs,
                cargs,
            ),
    decreases words.len(),
{
    if words.len() > 0 {
        lemma_matching_words(words.drop_last(), p, s, reading, attrs, cargs);
        let rest = matching_words(words.drop_last(), p, s, reading, attrs, cargs);
        assert forall|i: int|
            0 <= i < matching_words(words, p, s, reading, attrs, cargs).len() implies word_matches(
            #[trigger] matching_words(words, p, s, reading, attrs, cargs)[i],
            p,
            s,
            reading,
            attrs,
            cargs,
        ) by {
            if i < rest.len() {
                assert(matching_words(words, p, s, reading, attrs, cargs)[i] == rest[i]);
            }
        }
    }
}

/// Every word in the result is a word of the list.
pub proof fn lemma_matching_words_from(
    words: Seq<VocaV>,
    p: ShortWordPartV,
    s: Seq<char>,
    reading: int,
    attrs: Seq<Seq<Seq<char>>>,
    cargs: Seq<Seq<char>>,
)
    ensures
        forall|i: int|
            0 <= i < matching_words(words, p, s, reading, attrs, cargs).len() ==> words.contains(
                #[trigger] matching_words(words, p, s, reading, attrs, cargs)[i],
            ),
    decreases words.len(),
{
    if words.len() > 0 {
        let init = words.drop_last();
        lemma_matching_words_from(init, p, s, reading, attrs, cargs);
        let rest = matching_words(init, p, s, reading, attrs, cargs);
        assert forall|i: int|
            0 <= i < matching_words(words, p, s, reading, attrs, cargs).len() implies words.contains(
            #[trigger] matching_words(words, p, s, reading, attrs, cargs)[i],
        ) by {
            let x = matching_words(words, p, s, reading, attrs, cargs)[i];
            if i < rest.len() {
                assert(x == rest[i]);
                let j = choose|j: int| 0 <= j < init.len() && init[j] == x;
                assert(words[j] == x);
            } else {
                assert(x == words.last());
                assert(words[words.len() - 1] == x);
            }
        }
    }
}

/// The words of category `p` that match at `reading`, or `None` when the
/// category is missing or a condition names a word not matched yet.
pub fn try_search_dict<'p>(
    dict: &'p Dictionary,
    p: &ShortWordPart,
    s: &[char],
    reading: usize,
    attrs: &Vec<&Vec<String>>,
    cargs: &Vec<String>,
) -> (r: Option<Vec<&'p Voca>>)
    requires
        dict.wf(),
        reading <= s.len(),
    ensures
        match r {
            Some(v) => {
                &&& dict.map().contains_key(p.part_name@)
                &&& search_ok(
                    dict.map()[p.part_name@],
                    p.deep_view(),
                    s@,
                    reading as int,
                    attrs.deep_view(),
                    cargs.deep_view(),
                )
                &&& v.deep_view() == matching_words(
                    dict.map()[p.part_name@],
                    p.deep_view(),
                    s@,
                    reading as int,
                    attrs.deep_view(),
                    cargs.deep_view(),
                )
            },
            None => !dict.map().contains_key(p.part_name@) || !search_ok(
                dict.map()[p.part_name@],
                p.deep_view(),
                s@,
                reading as int,
                attrs.deep_view(),
                cargs.deep_view(),
            ),
        },
{
    let mut r: Vec<&'p Voca> = Vec::new();
    let words: &'p Vec<Voca> = match dict.get(p.part_name.as_str()) {
        Some(w) => w,
        None => {
            return None;
        },
    };
    let ghost wv = words.deep_view();
    let ghost pv = p.deep_view();
    let ghost tv = attrs.deep_view();
    let ghost cv = cargs.deep_view();
    let mut i: usize = 0;
    while i < words.len()
        invariant
            i <= words.len(),
            reading <= s.len(),
            wv == words.deep_view(),
            wv == dict.map()[p.part_name@],
            pv == p.deep_view(),
            tv == attrs.deep_view(),
            cv == cargs.deep_view(),
            forall|j: int|
                0 <= j < i && text_at(#[trigger] wv[j], s@, reading as int) ==> conditions_hold(
                    pv.condition,
                    wv[j].argv,
                    tv,
                    cv,
                ) is Some,
            r.deep_view() == matching_words(wv.take(i as int), pv, s@, reading as int, tv, cv),
        decreases words.len() - i,
    {
        let e: &'p Voca = &words[i];
        assert(wv[i as int] == e.deep_view());
        assert(wv.take(i + 1).drop_last() == wv.take(i as int));
        assert(wv.take(i + 1).last() == e.deep_view());
        let mut found = false;
        if e.text.len() <= s.len() - reading {
            let here = &s[reading..reading + e.text.len()];
            if crate::text::chars_eq(here, e.text.as_slice()) {
                assert(text_at(wv[i as int], s@, reading as int));
                match conditions_hold_of(&p.condition, &e.argv, attrs, cargs) {
                    Some(b) => {
                        found = b;
                    },
                    None => {
                        return None;
                    },
                }
            }
        }
        if found {
            let ghost before = r.deep_view();
            r.push(e);
            assert(r.deep_view() =~= before.push(e.deep_view()));
        }
        i = i + 1;
    }
    assert(wv.take(i as int) == wv);
    Some(r)
}

/// The words of category `p` that match at `reading` (see [`word_matches`]), in
/// dictionary order.
pub fn search_dict<'p>(
    dict: &'p Dictionary,
    p: &ShortWordPart,
    s: &[char],
    reading: usize,
    expect: &Expectation,
    cargs: &Vec<String>,
) -> (r: Vec<&'p Voca>)
    requires
        dict.wf(),
        dict.map().contains_key(p.part_name@),
        reading <= s.len(),
        search_ok(
            dict.map()[p.part_name@],
            p.deep_view(),
            s@,
            reading as int,
            expect.voca_attrs.deep_view(),
            cargs.deep_view(),
        ),
    ensures
        r.deep_view() == matching_words(
            dict.map()[p.part_name@],
            p.deep_view(),
            s@,
            reading as int,
            expect.voca_attrs.deep_view(),
            cargs.deep_view(),
        ),
{
    match try_search_dict(dict, p, s, reading, &expect.voca_attrs, cargs) {
        Some(v) => v,
        None => Vec::new(),
    }
}

} // verus!
