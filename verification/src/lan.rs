//! The parser: grammar, dictionary and sentence parsing brought together.
//!
//! A [`Parser`] holds grammar sources and a dictionary. [`Parser::with_parser`]
//! reads the grammar and hands a [`RefParser`] to a block, which parses
//! sentences from the grammar's `main` part.
pub mod dictionary;
pub mod lanparser;
pub mod parse;

use vstd::prelude::*;
use crate::assembling::{disassemble, lowercase, underscores_as_spaces};
use crate::concrete::ConcretePart;
use crate::lanparser::spec_parse;
use dictionary::{
    Dictionary, DictionaryRc, VocaV, add_dictionaryrc, dictionary_fits, dictionary_ok,
    dictrc_to_dict, load_dictionaryrc, load_from, load_ok, spec_load, text_lines,
};
use lanparser::{LanRules, load_lan, source_lines};
use lanparser::declaration::PhraseContextV;
use parse::{
    ParseCache, grammar_rule, is_suffix, labeled, labeled_result, reads_something, rule_literals_ok,
    sound, sound_result,
};
use parse::fit_rules::lemma_part_from_grammar;
use parse::syntree::{SyntaxTreeNode, TreeV};
use parse::fit_rules::model::{TablesV, tables_v, res_v, parse_c, empty_tables};
use crate::concrete::{gain_seq, part_id};

verus! {

/// How deep part references may nest while a sentence is parsed: as deep as a
/// `usize` counts, so that only the machine's stack limits nesting.
pub const MAX_DEPTH: usize = usize::MAX;

/// What can go wrong when a parser is set up or used.
#[derive(Debug)]
pub enum LanError<E> {
    NoDictionaryError,
    LanSyntaxError,
    ParsingError,
    NoMainError,
    Error(E),
    SimpleError,
}

/// Grammar sources and a dictionary, read when a parser is asked for.
pub struct Parser {
    lcs: Vec<String>,
    dictionary: Option<DictionaryRc>,
}

/// A grammar that has been read, with the dictionary it parses with.
pub struct RefParser {
    dict: Dictionary,
    lan: LanRules,
}

/// A parsed sentence: its tree, and how many characters were read.
pub struct ParseResult {
    pub tree: SyntaxTreeNode,
    pub length: usize,
}

/// The name of the part that a sentence is parsed as.
pub open spec fn main_name() -> Seq<char> {
    seq!['m', 'a', 'i', 'n']
}

/// The parts that grammar sources describe, if they can be read.
pub open spec fn grammar_of(sources: Seq<Seq<char>>) -> Option<Map<Seq<char>, PhraseContextV>> {
    spec_parse(source_lines(sources))
}

impl Parser {
    /// The grammar sources, in the order they were given.
    pub closed spec fn sources(&self) -> Seq<Seq<char>> {
        self.lcs.deep_view()
    }

    /// The dictionary's words by category, if there is a dictionary.
    pub closed spec fn words(&self) -> Option<Map<Seq<char>, Seq<VocaV>>> {
        match self.dictionary {
            Some(d) => Some(d.map()),
            None => None,
        }
    }

    /// The dictionary, if any, holds each category once.
    pub closed spec fn wf(&self) -> bool {
        self.dictionary matches Some(d) ==> d.wf()
    }

    /// A parser with no grammar and no dictionary.
    pub fn new() -> (r: Result<Parser, ()>)
        ensures
            r matches Ok(p) && p.wf() && p.sources() == Seq::<Seq<char>>::empty() && p.words()
                is None,
    {
        let p = Parser { lcs: Vec::new(), dictionary: None };
        assert(p.lcs.deep_view() =~= Seq::<Seq<char>>::empty());
        Ok(p)
    }

    /// A parser with one grammar source and a dictionary read from its text.
    pub fn open(lan_source: &str, dictionary_source: &str) -> (r: Result<Parser, LanError<usize>>)
        requires
            dictionary_ok(dictionary_source@),
        ensures
            r matches Ok(p) && p.wf() && p.sources() == seq![lan_source@] && p.words() == Some(
                spec_load(dictionary_source@),
            ),
    {
        let dict = load_dictionaryrc(dictionary_source);
        let mut lcs: Vec<String> = Vec::new();
        lcs.push(lan_source.to_string());
        let p = Parser { lcs, dictionary: Some(dict) };
        assert(p.lcs.deep_view() =~= seq![lan_source@]);
        Ok(p)
    }

    /// A parser with one grammar source and no dictionary.
    pub fn open_lan(lan_source: &str) -> (r: Result<Parser, ()>)
        ensures
            r matches Ok(p) && p.wf() && p.sources() == seq![lan_source@] && p.words() is None,
    {
        let mut lcs: Vec<String> = Vec::new();
        lcs.push(lan_source.to_string());
        let p = Parser { lcs, dictionary: None };
        assert(p.lcs.deep_view() =~= seq![lan_source@]);
        Ok(p)
    }

    /// Reads the grammar sources as one grammar and hands a parser for it and the
    /// dictionary to `block`. Fails with `LanSyntaxError` when the grammar cannot
    /// be read, else with `NoDictionaryError` when there is no dictionary, else
    /// with `SimpleError` when `block` gives `None`.
    pub fn with_parser<F>(&self, block: F) -> (r: Result<(), LanError<()>>) where
        F: Fn(RefParser) -> Option<()>,

        requires
            self.wf(),
            forall|p: RefParser| #[trigger] block.requires((p,)),
        ensures
            match r {
                Ok(()) => exists|p: RefParser|
                    {
                        &&& p.wf()
                        &&& grammar_of(self.sources()) == Some(p.rules())
                        &&& self.words() == Some(p.words())
                        &&& #[trigger] block.ensures((p,), Some(()))
                    },
                Err(LanError::LanSyntaxError) => grammar_of(self.sources()) is None,
                Err(LanError::NoDictionaryError) => grammar_of(self.sources()) is Some
                    && self.words() is None,
                Err(LanError::SimpleError) => exists|p: RefParser|
                    {
                        &&& p.wf()
                        &&& grammar_of(self.sources()) == Some(p.rules())
                        &&& self.words() == Some(p.words())
                        &&& #[trigger] block.ensures((p,), None)
                    },
                Err(_) => false,
            },
    {
        let lan = match load_lan(&self.lcs) {
            Ok(l) => l,
            Err(_) => {
                return Err(LanError::LanSyntaxError);
            },
        };
        let dict = match &self.dictionary {
            Some(d) => dictrc_to_dict(d),
            None => {
                return Err(LanError::NoDictionaryError);
            },
        };
        let rp = RefParser { dict, lan };
        let ghost p = rp;
        let o = block(rp);
        assert(block.ensures((p,), o));
        match o {
            Some(()) => {
                assert(o == Some(()));
                assert(block.ensures((p,), Some(())));
                Ok(())
            },
            None => Err(LanError::SimpleError),
        }
    }

    /// Adds a grammar source.
    pub fn load_lan(&mut self, lan_source: &str)
        requires
            old(self).wf(),
        ensures
            final(self).wf(),
            final(self).sources() == old(self).sources().push(lan_source@),
            final(self).words() == old(self).words(),
    {
        let ghost before = self.lcs.deep_view();
        self.lcs.push(lan_source.to_string());
        assert(self.lcs.deep_view() =~= before.push(lan_source@));
    }

    /// Whether a dictionary text can be added with [`Parser::load_dict`]: there is
    /// a dictionary, and the text fits it (see [`load_ok`]).
    pub fn accepts_dict(&self, dictionary_source: &str) -> (r: bool)
        requires
            self.wf(),
        ensures
            r == (self.words() matches Some(m) && load_ok(
                m.dom(),
                Seq::empty(),
                text_lines(dictionary_source@),
            )),
    {
        match &self.dictionary {
            Some(d) => dictionary_fits(d, dictionary_source),
            None => false,
        }
    }

    /// Adds the entries of a dictionary text to the dictionary (see
    /// [`load_from`]).
    pub fn load_dict(&mut self, dictionary_source: &str) -> (r: Result<(), LanError<()>>)
        requires
            old(self).wf(),
            old(self).words() matches Some(m) && load_ok(
                m.dom(),
                Seq::empty(),
                text_lines(dictionary_source@),
            ),
        ensures
            r is Ok,
            final(self).wf(),
            final(self).sources() == old(self).sources(),
            final(self).words() == Some(
                load_from(old(self).words()->0, Seq::empty(), text_lines(dictionary_source@)).0,
            ),
    {
        match &mut self.dictionary {
            Some(d) => {
                add_dictionaryrc(d, dictionary_source);
            },
            None => {},
        }
        Ok(())
    }
}

impl RefParser {
    /// The grammar's parts, by name.
    pub closed spec fn rules(&self) -> Map<Seq<char>, PhraseContextV> {
        self.lan.map()
    }

    /// The dictionary's words by category.
    pub closed spec fn words(&self) -> Map<Seq<char>, Seq<VocaV>> {
        self.dict.map()
    }

    /// The grammar and the dictionary hold each name once.
    pub closed spec fn wf(&self) -> bool {
        self.lan.wf() && self.dict.wf()
    }

    /// Whether the grammar's `main` part, if there is one, can be made concrete
    /// without parameter values.
    pub open spec fn main_builds(&self) -> bool {
        self.rules().contains_key(main_name()) ==> gain_seq(
            self.rules()[main_name()].children,
            Seq::empty(),
            Map::empty(),
        ) is Some
    }

    /// What parsing `v` as the `main` part gives, part references nested at
    /// most [`MAX_DEPTH`] deep, with the memo tables `c` before: the tables after
    /// and the tree with the number of characters read, or `None` (see
    /// [`parse::fit_rules::model::parse_c`]).
    pub open spec fn main_parse(&self, v: Seq<char>, c: TablesV) -> (TablesV, Option<(TreeV, usize)>) {
        parse_c(
            MAX_DEPTH as nat,
            c,
            v,
            part_id(self.rules()[main_name()].name, Seq::empty()),
            match gain_seq(self.rules()[main_name()].children, Seq::empty(), Map::empty()) {
                Some((rs, _)) => rs,
                None => Seq::empty(),
            },
            Seq::empty(),
            self.rules(),
            self.words(),
        )
    }

    /// Whether [`RefParser::main_builds`] holds.
    pub fn can_build_main(&self) -> (r: bool)
        requires
            self.wf(),
        ensures
            r == self.main_builds(),
    {
        proof {
            reveal_strlit("main");
            assert("main"@ =~= main_name());
        }
        match self.lan.get("main") {
            Some(p) => {
                let args: Vec<String> = Vec::new();
                assert(args.deep_view() =~= Seq::<Seq<char>>::empty());
                p.try_build(&args).is_some()
            },
            None => true,
        }
    }

    /// Parses the start of `v` as the grammar's `main` part, part references
    /// nested at most [`MAX_DEPTH`] deep, with the results remembered in `cache`
    /// (see [`RefParser::main_parse`]); `NoMainError` when the grammar has no
    /// `main` part.
    pub fn reparse_raw(&self, v: &Vec<char>, cache: &mut ParseCache) -> (r: Result<
        Option<(SyntaxTreeNode, usize)>,
        LanError<()>,
    >)
        requires
            self.wf(),
            self.main_builds(),
            old(cache).wf(),
            old(cache).labels_ok(self.rules(), self.words()),
            is_suffix(v@, old(cache).top@),
        ensures
            final(cache).wf(),
            final(cache).labels_ok(self.rules(), self.words()),
            final(cache).top == old(cache).top,
            match r {
                Ok(o) => {
                    &&& self.rules().contains_key(main_name())
                    &&& res_v(o) == self.main_parse(v@, tables_v(*old(cache))).1
                    &&& tables_v(*final(cache)) == self.main_parse(v@, tables_v(*old(cache))).0
                    &&& sound_result(o, v@)
                    &&& reads_something(o)
                    &&& labeled_result(o, self.rules(), self.words())
                },
                Err(LanError::NoMainError) => !self.rules().contains_key(main_name()) && *final(cache)
                    == *old(cache),
                Err(_) => false,
            },
    {
        proof {
            reveal_strlit("main");
            assert("main"@ =~= main_name());
        }
        let main = match self.lan.get("main") {
            Some(p) => p,
            None => {
                return Err(LanError::NoMainError);
            },
        };
        let args: Vec<String> = Vec::new();
        assert(args.deep_view() =~= Seq::<Seq<char>>::empty());
        let part: ConcretePart = main.build(&args);
        proof {
            let rs = part.rules.deep_view();
            lemma_part_from_grammar(self.rules(), main_name(), Seq::empty(), rs);
            assert forall|k: int| 0 <= k < part.rules.len() implies rule_literals_ok(
                #[trigger] part.rules.deep_view()[k].rules,
                self.rules(),
            ) && grammar_rule(self.rules(), part.rules.deep_view()[k].name) by {
                assert(rule_literals_ok(rs[k].rules, self.rules()));
            }
        }
        Ok(parse::parse(v.as_slice(), part, &self.lan, &self.dict, cache, MAX_DEPTH))
    }

    /// Parses the start of `v` as the grammar's `main` part, part references
    /// nested at most [`MAX_DEPTH`] deep, with nothing remembered from earlier
    /// sentences: the result depends on `v` and the parser alone.
    pub fn parse_raw(&self, v: &Vec<char>) -> (r: Result<Option<(SyntaxTreeNode, usize)>, LanError<()>>)
        requires
            self.wf(),
            self.main_builds(),
        ensures
            match r {
                Ok(o) => {
                    &&& self.rules().contains_key(main_name())
                    &&& res_v(o) == self.main_parse(v@, empty_tables()).1
                    &&& sound_result(o, v@)
                    &&& reads_something(o)
                    &&& labeled_result(o, self.rules(), self.words())
                },
                Err(LanError::NoMainError) => !self.rules().contains_key(main_name()),
                Err(_) => false,
            },
    {
        let mut cache = ParseCache::new(v.as_slice());
        assert(cache.labels_ok(self.rules(), self.words()));
        assert(v@.skip(0) =~= v@);
        assert(tables_v(cache) =~= empty_tables());
        self.reparse_raw(v, &mut cache)
    }

    /// Parses a sentence: its text is read in lowercase with `_` as a space (see
    /// [`disassemble`]) and parsed as the grammar's `main` part (see
    /// [`RefParser::parse_raw`]). `NoMainError` when there is no `main` part,
    /// `ParsingError` when nothing was read.
    pub fn parse(&self, text: &str) -> (r: Result<ParseResult, LanError<()>>)
        requires
            self.wf(),
            self.main_builds(),
        ensures
            match r {
                Ok(res) => {
                    &&& self.rules().contains_key(main_name())
                    &&& self.main_parse(underscores_as_spaces(lowercase(text@)), empty_tables()).1 == Some(
                        (res.tree.deep_view(), res.length),
                    )
                    &&& res.length > 0
                    &&& labeled(res.tree.deep_view(), self.rules(), self.words())
                    &&& sound(
                        res.tree.deep_view(),
                        res.length as int,
                        underscores_as_spaces(lowercase(text@)),
                    )
                },
                Err(LanError::NoMainError) => !self.rules().contains_key(main_name()),
                Err(LanError::ParsingError) => self.rules().contains_key(main_name())
                    && self.main_parse(underscores_as_spaces(lowercase(text@)), empty_tables()).1 is None,
                Err(_) => false,
            },
    {
        let v = disassemble(text);
        match self.parse_raw(&v)? {
            Some((tree, length)) => Ok(ParseResult { length, tree }),
            None => Err(LanError::ParsingError),
        }
    }

    /// Checks a sentence: its parse (see [`RefParser::parse`]) when that reads
    /// as many characters as the text has bytes, so the whole of an ASCII
    /// sentence; `None` when there is no parse or it stops early.
    pub fn whole_parse(&self, text: &str) -> (r: Option<ParseResult>)
        requires
            self.wf(),
            self.main_builds(),
        ensures
            match r {
                Some(res) => {
                    &&& self.rules().contains_key(main_name())
                    &&& self.main_parse(underscores_as_spaces(lowercase(text@)), empty_tables()).1 == Some(
                        (res.tree.deep_view(), res.length),
                    )
                    &&& res.length == text.len()
                },
                None => !self.rules().contains_key(main_name()) || match self.main_parse(
                    underscores_as_spaces(lowercase(text@)),
                    empty_tables(),
                ).1 {
                    Some((_, n)) => n != text.len(),
                    None => true,
                },
            },
    {
        match self.parse(text) {
            Ok(res) => {
                if res.length == text.len() {
                    Some(res)
                } else {
                    None
                }
            },
            Err(_) => None,
        }
    }
}

} // verus!
