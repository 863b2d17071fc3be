//! The grammar model of the current LAN notation, and reading grammar sources.
pub mod declaration;

use vstd::prelude::*;
pub use declaration::{
    PhraseContext, PhraseIf, PhraseRules, ParamedPart, SignText, TemplateNodeGen, ShortWordPart,
    LanReference, ShortWordPartCondition, Templates, TemplateNode, Rule,
};
use crate::lanparser::{first_bad_line, spec_parse, try_parse};
use crate::lan::dictionary::{content_lines, content_lines_of, text_lines, lemma_text_lines_join};
use crate::text::{find, split_on, trim};
use crate::text::{string_from, views};

verus! {

/// The grammar's parts, by name.
pub type LanRules = crate::lanparser::LanRules;

/// The lines of several grammar sources that hold something, trimmed, in order.
pub open spec fn source_lines(lcs: Seq<Seq<char>>) -> Seq<Seq<char>>
    decreases lcs.len(),
{
    if lcs.len() == 0 {
        Seq::empty()
    } else {
        source_lines(lcs.drop_last()) + text_lines(lcs.last())
    }
}

/// Grammar sources joined into one text, separated by line breaks.
pub open spec fn joined(lcs: Seq<Seq<char>>) -> Seq<char>
    decreases lcs.len(),
{
    if lcs.len() == 0 {
        Seq::empty()
    } else if lcs.len() == 1 {
        lcs[0]
    } else {
        joined(lcs.drop_last()) + seq!['\n'] + lcs.last()
    }
}

/// Several grammar sources are read as the one text they make when joined by
/// line breaks: they have the same lines, so they describe the same parts.
pub proof fn lemma_sources_joined(lcs: Seq<Seq<char>>)
    ensures
        source_lines(lcs) == text_lines(joined(lcs)),
        spec_parse(source_lines(lcs)) == spec_parse(source_lines(seq![joined(lcs)])),
    decreases lcs.len(),
{
    if lcs.len() == 0 {
        let e = Seq::<char>::empty();
        assert(find(e, '\n') == -1);
        assert(split_on(e, '\n') == seq![e]);
        assert(seq![e].drop_last() == Seq::<Seq<char>>::empty());
        assert(content_lines(Seq::<Seq<char>>::empty()) == Seq::<Seq<char>>::empty());
        assert(trim(e) =~= e);
        assert(content_lines(seq![e]) == Seq::<Seq<char>>::empty());
    } else if lcs.len() == 1 {
        assert(lcs.drop_last() == Seq::<Seq<char>>::empty());
    } else {
        lemma_sources_joined(lcs.drop_last());
        lemma_text_lines_join(joined(lcs.drop_last()), lcs.last());
    }
    let one = seq![joined(lcs)];
    assert(one.drop_last() == Seq::<Seq<char>>::empty());
    assert(one.last() == joined(lcs));
    assert(source_lines(Seq::<Seq<char>>::empty()) == Seq::<Seq<char>>::empty());
    assert(source_lines(one) == Seq::<Seq<char>>::empty() + text_lines(joined(lcs)));
    assert(Seq::<Seq<char>>::empty() + text_lines(joined(lcs)) == text_lines(joined(lcs)));
}

/// Reads the parts of several grammar sources, taken together as one grammar
/// (blank lines and `#` comments skipped); `Err` with the position, among the
/// lines read, of the first line that cannot be read.
pub fn load_lan(lcs: &Vec<String>) -> (r: Result<LanRules, usize>)
    ensures
        match r {
            Ok(t) => t.wf() && spec_parse(source_lines(lcs.deep_view())) == Some(t.map()),
            Err(i) => {
                &&& first_bad_line(source_lines(lcs.deep_view()), i as int)
                &&& spec_parse(source_lines(lcs.deep_view())) is None
            },
        },
{
    let mut lines: Vec<String> = Vec::new();
    let mut i: usize = 0;
    while i < lcs.len()
        invariant
            i <= lcs.len(),
            lines.deep_view() == source_lines(lcs.deep_view().take(i as int)),
        decreases lcs.len() - i,
    {
        let ls = content_lines_of(lcs[i].as_str());
        let mut j: usize = 0;
        let ghost before = lines.deep_view();
        while j < ls.len()
            invariant
                j <= ls.len(),
                lines.deep_view() == before + views(ls@).take(j as int),
            decreases ls.len() - j,
        {
            let ghost b2 = lines.deep_view();
            lines.push(string_from(ls[j].as_slice()));
            assert(lines.deep_view() =~= b2.push(ls@[j as int]@));
            assert(views(ls@).take(j + 1) =~= views(ls@).take(j as int).push(ls@[j as int]@));
            j = j + 1;
        }
        assert(views(ls@).take(j as int) =~= views(ls@));
        assert(lcs.deep_view().take(i + 1).drop_last() =~= lcs.deep_view().take(i as int));
        assert(lcs.deep_view().take(i + 1).last() == lcs@[i as int]@);
        i = i + 1;
    }
    assert(lcs.deep_view().take(i as int) =~= lcs.deep_view());
    let mut refs: Vec<&str> = Vec::new();
    let mut k: usize = 0;
    while k < lines.len()
        invariant
            k <= lines.len(),
            refs@.map_values(|w: &str| w@) == lines.deep_view().take(k as int),
        decreases lines.len() - k,
    {
        let ghost b = refs@;
        refs.push(lines[k].as_str());
        assert(refs@.map_values(|w: &str| w@) =~= b.map_values(|w: &str| w@).push(lines@[k as int]@));
        assert(lines.deep_view().take(k + 1) =~= lines.deep_view().take(k as int).push(
            lines@[k as int]@,
        ));
        k = k + 1;
    }
    assert(lines.deep_view().take(k as int) =~= lines.deep_view());
    try_parse(&refs)
}

} // verus!
