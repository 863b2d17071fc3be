use lanparse::assembling::hangul;
use lanparse::lan::dictionary::{
    add_dictionaryrc, dictionary_fits, dictrc_to_dict, load_dictionary, load_dictionaryrc,
};
use lanparse::lan::lanparser::load_lan;
use lanparse::lan::Parser;

#[test]
fn hangul_text_round_trips_through_jamo() {
    for s in ["한글날", "닭고기", "읽어요", "가나다라마바사", "까치", "따라"] {
        let jamo: String = hangul::disassemble(s).into_iter().collect();
        assert_eq!(hangul::assemble(&jamo), s);
    }
}

#[test]
fn final_consonant_moves_only_when_a_vowel_follows_directly() {
    let jamo: String = "ㅎㅏㄴㅏ".to_string();
    assert_eq!(hangul::assemble(&jamo), "하나");
    let jamo2: String = hangul::disassemble("한아").into_iter().collect();
    assert_eq!(jamo2, "ㅎㅏㄴㅇㅏ");
    assert_eq!(hangul::assemble(&jamo2), "한아");
}

#[test]
fn grammar_sources_read_as_their_joined_text() {
    let a = String::from("PART main\n  RULE s *x");
    let b = String::from("  RULE t *y\nEND");
    let split = load_lan(&vec![a.clone(), b.clone()]).unwrap();
    let joined = load_lan(&vec![format!("{}\n{}", a, b)]).unwrap();
    let names = |r: &lanparse::lanparser::LanRules| -> Vec<String> {
        r.get("main")
            .unwrap()
            .children
            .iter()
            .map(|c| match c {
                lanparse::lan::lanparser::PhraseRules::Rules(r) => r.name.clone(),
                _ => String::new(),
            })
            .collect()
    };
    assert_eq!(names(&split), names(&joined));
    assert_eq!(names(&split), vec![String::from("s"), String::from("t")]);
}

#[test]
fn dictionaries_added_in_turn_equal_their_joined_text() {
    let a = "PART noun\ndog x\nPART verb\nruns";
    let b = "PART adj\nbig\nPART verb\nsleeps y";
    let mut rc = load_dictionaryrc(a);
    assert!(dictionary_fits(&rc, b));
    add_dictionaryrc(&mut rc, b);
    let stepwise = dictrc_to_dict(&rc);
    let joined = load_dictionary(&format!("{}\n{}", a, b));
    for cat in ["noun", "verb", "adj"] {
        let w1: Vec<(Vec<char>, Vec<String>)> =
            stepwise.get(cat).unwrap().iter().map(|v| (v.text.clone(), v.argv.clone())).collect();
        let w2: Vec<(Vec<char>, Vec<String>)> =
            joined.get(cat).unwrap().iter().map(|v| (v.text.clone(), v.argv.clone())).collect();
        assert_eq!(w1, w2);
    }
    assert_eq!(stepwise.entries.len(), joined.entries.len());
}

#[test]
fn parser_with_added_dictionary_parses_like_one_dictionary() {
    let g = "PART main\n RULE s *noun *verb\nEND\n";
    let a = "PART noun\ndog\nPART verb\nruns\n";
    let b = "PART verb\nsleeps\n";
    let mut p1 = Parser::open(g, a).unwrap();
    p1.load_dict(b).unwrap();
    let p2 = Parser::open(g, &format!("{}\n{}", a, b)).unwrap();
    for text in ["dog sleeps", "dog runs"] {
        let r1 = std::cell::Cell::new(None);
        let r2 = std::cell::Cell::new(None);
        p1.with_parser(|rp| {
            r1.set(Some(rp.parse(text).map(|r| r.length).ok()));
            Some(())
        })
        .unwrap();
        p2.with_parser(|rp| {
            r2.set(Some(rp.parse(text).map(|r| r.length).ok()));
            Some(())
        })
        .unwrap();
        assert_eq!(r1.get(), r2.get());
    }
}
