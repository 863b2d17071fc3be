use lanparse::assembling::{assemble, disassemble, disassemble_chars, spaces_for_underscores};
use lanparse::assembling::hangul;

#[test]
fn disassemble_lowercases_and_reads_underscores_as_spaces() {
    let v = disassemble("Hello_World");
    let s: String = v.iter().collect();
    assert_eq!(s, "hello world");
}

#[test]
fn disassemble_keeps_other_characters() {
    let v = disassemble("a-b 3?");
    assert_eq!(v, vec!['a', '-', 'b', ' ', '3', '?']);
}

#[test]
fn disassemble_chars_matches_disassemble() {
    let cs: Vec<char> = "ABC_d".chars().collect();
    assert_eq!(disassemble_chars(&cs), disassemble("ABC_d"));
    assert_eq!(disassemble_chars(&cs), vec!['a', 'b', 'c', ' ', 'd']);
}

#[test]
fn disassemble_lowercases_beyond_ascii() {
    let v = disassemble("ÄÖ_Σ");
    let s: String = v.iter().collect();
    assert_eq!(s, "äö σ");
}

#[test]
fn spaces_for_underscores_replaces_each() {
    assert_eq!(spaces_for_underscores(&['_', 'x', '_']), vec![' ', 'x', ' ']);
    assert_eq!(spaces_for_underscores(&[]), Vec::<char>::new());
}

#[test]
fn assemble_is_identity() {
    assert_eq!(assemble("ㅎㅏㄴ Abc"), "ㅎㅏㄴ Abc");
    assert_eq!(assemble(""), "");
}

#[test]
fn to_phonemes_splits_syllables() {
    assert_eq!(hangul::to_phonemes('한'), "ㅎㅏㄴ");
    assert_eq!(hangul::to_phonemes('가'), "ㄱㅏ");
    assert_eq!(hangul::to_phonemes('힣'), "ㅎㅣㅎ");
    assert_eq!(hangul::to_phonemes('a'), "a");
}

#[test]
fn hangul_disassemble_concatenates_phonemes() {
    assert_eq!(hangul::disassemble("한글"), vec!['ㅎ', 'ㅏ', 'ㄴ', 'ㄱ', 'ㅡ', 'ㄹ']);
    assert_eq!(hangul::disassemble("a가"), vec!['a', 'ㄱ', 'ㅏ']);
}

#[test]
fn hangul_assemble_composes_syllables() {
    assert_eq!(hangul::assemble("ㅎㅏㄴㄱㅡㄹ"), "한글");
    assert_eq!(hangul::assemble("ㄱㅏ"), "가");
    assert_eq!(hangul::assemble("abc"), "abc");
}

#[test]
fn hangul_assemble_moves_final_consonant_to_next_syllable() {
    // 한 + ㅏ: the final ㄴ starts the next syllable.
    assert_eq!(hangul::assemble("ㅎㅏㄴㅏ"), "하나");
}

#[test]
fn hangul_round_trip_every_syllable() {
    for u in 0xAC00u32..=0xD7A3 {
        let c = char::from_u32(u).unwrap();
        let p = hangul::to_phonemes(c);
        assert_eq!(hangul::assemble(&p), c.to_string());
    }
}

#[test]
fn hangul_round_trip_with_spaces_and_latin() {
    for text in ["한글 사랑", "abc 가나다", "국어, 영어 and 수학!", "x"] {
        let jamo: String = hangul::disassemble(text).into_iter().collect();
        assert_eq!(hangul::assemble(&jamo), text);
    }
}
