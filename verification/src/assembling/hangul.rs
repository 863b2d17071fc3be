//! Hangul syllables split into their jamo (initial, medial and final letters)
//! and composed again.
use vstd::prelude::*;
use crate::text::{find, find_char, string_from, chars_of};

verus! {

/// The nineteen initial consonants, in Unicode order.
pub open spec fn firsts() -> Seq<char> {
    seq![
        '\u{3131}', '\u{3132}', '\u{3134}', '\u{3137}', '\u{3138}', '\u{3139}', '\u{3141}',
        '\u{3142}', '\u{3143}', '\u{3145}', '\u{3146}', '\u{3147}', '\u{3148}', '\u{3149}',
        '\u{314a}', '\u{314b}', '\u{314c}', '\u{314d}', '\u{314e}',
    ]
}

/// The twenty-one medial vowels, in Unicode order.
pub open spec fn middles() -> Seq<char> {
    seq![
        '\u{314f}', '\u{3150}', '\u{3151}', '\u{3152}', '\u{3153}', '\u{3154}', '\u{3155}',
        '\u{3156}', '\u{3157}', '\u{3158}', '\u{3159}', '\u{315a}', '\u{315b}', '\u{315c}',
        '\u{315d}', '\u{315e}', '\u{315f}', '\u{3160}', '\u{3161}', '\u{3162}', '\u{3163}',
    ]
}

/// The twenty-seven final consonants, in Unicode order.
pub open spec fn lasts() -> Seq<char> {
    seq![
        '\u{3131}', '\u{3132}', '\u{3133}', '\u{3134}', '\u{3135}', '\u{3136}', '\u{3137}',
        '\u{3139}', '\u{313a}', '\u{313b}', '\u{313c}', '\u{313d}', '\u{313e}', '\u{313f}',
        '\u{3140}', '\u{3141}', '\u{3142}', '\u{3144}', '\u{3145}', '\u{3146}', '\u{3147}',
        '\u{3148}', '\u{314a}', '\u{314b}', '\u{314c}', '\u{314d}', '\u{314e}',
    ]
}

/// Whether a character lies in the range that is read as a syllable.
pub open spec fn in_syllable_block(c: char) -> bool {
    0xAC00 <= c as u32 <= 0xD7AF
}

/// Whether a character is read as a syllable but lies past the last syllable
/// (U+D7A4 to U+D7AF): splitting it has no initial consonant to give.
pub open spec fn past_last_syllable(c: char) -> bool {
    0xD7A4 <= c as u32 <= 0xD7AF
}

/// The jamo of one character: a syllable's initial, medial and (if any) final
/// letter; any other character stands for itself.
pub open spec fn phonemes(c: char) -> Seq<char> {
    if in_syllable_block(c) {
        let n = c as u32 - 0xAC00;
        let first = n / 588;
        let middle = (n % 588) / 28;
        let last = n % 28;
        if last > 0 {
            seq![firsts()[first], middles()[middle], lasts()[last - 1]]
        } else {
            seq![firsts()[first], middles()[middle]]
        }
    } else {
        seq![c]
    }
}

/// The jamo of a whole text, character after character.
pub open spec fn all_phonemes(s: Seq<char>) -> Seq<char>
    decreases s.len(),
{
    if s.len() == 0 {
        Seq::empty()
    } else {
        all_phonemes(s.drop_last()) + phonemes(s.last())
    }
}

fn firsts_vec() -> (v: Vec<char>)
    ensures
        v@ == firsts(),
{
    vec![
        '\u{3131}', '\u{3132}', '\u{3134}', '\u{3137}', '\u{3138}', '\u{3139}', '\u{3141}',
        '\u{3142}', '\u{3143}', '\u{3145}', '\u{3146}', '\u{3147}', '\u{3148}', '\u{3149}',
        '\u{314a}', '\u{314b}', '\u{314c}', '\u{314d}', '\u{314e}',
    ]
}

fn middles_vec() -> (v: Vec<char>)
    ensures
        v@ == middles(),
{
    vec![
        '\u{314f}', '\u{3150}', '\u{3151}', '\u{3152}', '\u{3153}', '\u{3154}', '\u{3155}',
        '\u{3156}', '\u{3157}', '\u{3158}', '\u{3159}', '\u{315a}', '\u{315b}', '\u{315c}',
        '\u{315d}', '\u{315e}', '\u{315f}', '\u{3160}', '\u{3161}', '\u{3162}', '\u{3163}',
    ]
}

fn lasts_vec() -> (v: Vec<char>)
    ensures
        v@ == lasts(),
{
    vec![
        '\u{3131}', '\u{3132}', '\u{3133}', '\u{3134}', '\u{3135}', '\u{3136}', '\u{3137}',
        '\u{3139}', '\u{313a}', '\u{313b}', '\u{313c}', '\u{313d}', '\u{313e}', '\u{313f}',
        '\u{3140}', '\u{3141}', '\u{3142}', '\u{3144}', '\u{3145}', '\u{3146}', '\u{3147}',
        '\u{3148}', '\u{314a}', '\u{314b}', '\u{314c}', '\u{314d}', '\u{314e}',
    ]
}

fn phonemes_of(c: char) -> (r: Vec<char>)
    requires
        !past_last_syllable(c),
    ensures
        r@ == phonemes(c),
{
    let uni = c as u32;
    if 0xAC00 <= uni && uni <= 0xD7AF {
        let nth = (uni - 0xAC00) as usize;
        let first = nth / 588;
        let middle = (nth % 588) / 28;
        let last = nth % 28;
        let fs = firsts_vec();
        let ms = middles_vec();
        if last > 0 {
            let ls = lasts_vec();
            vec![fs[first], ms[middle], ls[last - 1]]
        } else {
            vec![fs[first], ms[middle]]
        }
    } else {
        vec![c]
    }
}

/// Splits one character into its jamo; a character that is no syllable is kept.
pub fn to_phonemes(c: char) -> (r: String)
    requires
        !past_last_syllable(c),
    ensures
        r@ == phonemes(c),
{
    let v = phonemes_of(c);
    string_from(v.as_slice())
}

/// Splits every syllable of a text into its jamo.
pub fn disassemble(s: &str) -> (r: Vec<char>)
    requires
        forall|i: int| 0 <= i < s@.len() ==> !past_last_syllable(#[trigger] s@[i]),
    ensures
        r@ == all_phonemes(s@),
{
    let cs = chars_of(s);
    let mut r: Vec<char> = Vec::new();
    let mut i: usize = 0;
    while i < cs.len()
        invariant
            cs@ == s@,
            i <= cs.len(),
            forall|j: int| 0 <= j < s@.len() ==> !past_last_syllable(#[trigger] s@[j]),
            r@ == all_phonemes(cs@.take(i as int)),
        decreases cs.len() - i,
    {
        let p = phonemes_of(cs[i]);
        let mut k: usize = 0;
        let ghost before = r@;
        while k < p.len()
            invariant
                k <= p.len(),
                r@ == before + p@.take(k as int),
            decreases p.len() - k,
        {
            r.push(p[k]);
            assert(p@.take(k + 1) == p@.take(k as int).push(p@[k as int]));
            k = k + 1;
        }
        assert(p@.take(k as int) == p@);
        assert(cs@.take(i + 1).drop_last() == cs@.take(i as int));
        i = i + 1;
    }
    assert(cs@.take(i as int) == cs@);
    r
}

/// The code point of a composed syllable.
pub open spec fn syllable(first: int, middle: int, last: int) -> char {
    (0xAC00 + first * 588 + middle * 28 + last) as char
}

/// How composing continues when one more letter `c` follows the text `ret`
/// composed so far:
/// - an initial or final consonant becomes the final of a preceding syllable
///   that has none;
/// - a vowel joins a preceding initial consonant into a syllable, or takes the
///   final consonant of a preceding syllable as its own initial when that
///   letter can be an initial;
/// - anything else is appended as it is.
pub open spec fn compose_step(ret: Seq<char>, c: char) -> Seq<char> {
    if ret.len() == 0 {
        seq![c]
    } else if firsts().contains(c) || lasts().contains(c) {
        let u = ret.last() as u32;
        let lp = find(lasts(), c);
        if 0xAC00 <= u <= 0xD7AF && (u - 0xAC00) % 28 == 0 {
            ret.drop_last().push((u + lp + 1) as char)
        } else {
            ret.push(c)
        }
    } else if middles().contains(c) {
        let last = ret.last();
        let u = last as u32;
        let mp = find(middles(), c);
        if firsts().contains(last) {
            ret.drop_last().push(syllable(find(firsts(), last), mp, 0))
        } else if 0xAC00 <= u <= 0xD7AF && (u - 0xAC00) % 28 != 0 {
            let fin = lasts()[(u - 0xAC00) % 28 - 1];
            if firsts().contains(fin) {
                ret.drop_last().push((u - (u - 0xAC00) % 28) as char).push(
                    syllable(find(firsts(), fin), mp, 0),
                )
            } else {
                ret.push(c)
            }
        } else {
            ret.push(c)
        }
    } else {
        ret.push(c)
    }
}

/// Composition of a whole sequence of letters, left to right.
pub open spec fn compose(s: Seq<char>) -> Seq<char>
    decreases s.len(),
{
    if s.len() == 0 {
        Seq::empty()
    } else {
        compose_step(compose(s.drop_last()), s.last())
    }
}

/// An initial consonant that cannot be a final one (`ㄸ`, `ㅃ`, `ㅉ`): such a
/// letter can only open a text.
pub open spec fn initial_only(c: char) -> bool {
    firsts().contains(c) && !lasts().contains(c)
}

/// Whether a code point is a Unicode scalar value.
pub open spec fn is_scalar(u: u32) -> bool {
    u < 0xD800 || (0xE000 <= u && u <= 0x10FFFF)
}

/// Calls `char::from_u32`, which gives the character of a Unicode scalar value
/// and `None` for any other number.
#[verifier::external_body]
fn char_from_u32(u: u32) -> (r: Option<char>)
    ensures
        is_scalar(u) ==> r == Some(u as char),
        !is_scalar(u) ==> r is None,
{
    char::from_u32(u)
}

fn scalar(u: u32) -> (c: char)
    requires
        is_scalar(u),
    ensures
        c == u as char,
{
    match char_from_u32(u) {
        Some(c) => c,
        None => {
            assert(false);
            ' '
        },
    }
}

proof fn lemma_find_in(s: Seq<char>, c: char)
    requires
        s.contains(c),
    ensures
        0 <= find(s, c) < s.len(),
        s[find(s, c)] == c,
{
    crate::text::lemma_find_found(s, c);
    if find(s, c) < 0 {
        let j = choose|j: int| 0 <= j < s.len() && s[j] == c;
        assert(s[j] == c);
    }
}

/// Composes a sequence of letters into syllables where they fit together.
pub fn assemble(s: &str) -> (r: String)
    requires
        forall|i: int| 1 <= i < s@.len() ==> !initial_only(#[trigger] s@[i]),
    ensures
        r@ == compose(s@),
{
    let fs = firsts_vec();
    let ms = middles_vec();
    let ls = lasts_vec();
    let cs = chars_of(s);
    let mut ret: Vec<char> = Vec::new();
    let mut i: usize = 0;
    while i < cs.len()
        invariant
            cs@ == s@,
            fs@ == firsts(),
            ms@ == middles(),
            ls@ == lasts(),
            i <= cs.len(),
            forall|j: int| 1 <= j < s@.len() ==> !initial_only(#[trigger] s@[j]),
            ret@ == compose(cs@.take(i as int)),
            i > 0 ==> ret@.len() > 0,
        decreases cs.len() - i,
    {
        let c = cs[i];
        let ghost prev = ret@;
        assert(cs@.take(i + 1).drop_last() == cs@.take(i as int));
        assert(cs@.take(i + 1).last() == c);
        let in_f = find_char(fs.as_slice(), c);
        let in_l = find_char(ls.as_slice(), c);
        let in_m = find_char(ms.as_slice(), c);
        proof {
            crate::text::lemma_find_found(firsts(), c);
            crate::text::lemma_find_found(lasts(), c);
            crate::text::lemma_find_found(middles(), c);
            if firsts().contains(c) {
                lemma_find_in(firsts(), c);
            }
            if lasts().contains(c) {
                lemma_find_in(lasts(), c);
            }
            if middles().contains(c) {
                lemma_find_in(middles(), c);
            }
        }
        if ret.len() == 0 {
            ret.push(c);
        } else if in_f.is_some() || in_l.is_some() {
            let last = ret[ret.len() - 1];
            let lp = match in_l {
                Some(p) => p as u32,
                None => {
                    proof {
                        assert(s@[i as int] == c);
                        assert(initial_only(c));
                    }
                    0
                },
            };
            let unilast = last as u32;
            if 0xAC00 <= unilast && unilast <= 0xD7AF && (unilast - 0xAC00) % 28 == 0 {
                ret.pop();
                ret.push(scalar(unilast + lp + 1));
            } else {
                ret.push(c);
            }
        } else if in_m.is_some() {
            let last = ret[ret.len() - 1];
            let unilast = last as u32;
            let mp = match in_m {
                Some(p) => p as u32,
                None => 0,
            };
            let pos_last = find_char(fs.as_slice(), last);
            proof {
                crate::text::lemma_find_found(firsts(), last);
                if firsts().contains(last) {
                    lemma_find_in(firsts(), last);
                }
            }
            if let Some(pos) = pos_last {
                let lc = 0xAC00u32 + (pos as u32) * 588 + mp * 28;
                ret.pop();
                ret.push(scalar(lc));
            } else if 0xAC00 <= unilast && unilast <= 0xD7AF && (unilast - 0xAC00) % 28 != 0 {
                let fin = ls[((unilast - 0xAC00) % 28 - 1) as usize];
                let f = find_char(fs.as_slice(), fin);
                proof {
                    crate::text::lemma_find_found(firsts(), fin);
                    if firsts().contains(fin) {
                        lemma_find_in(firsts(), fin);
                    }
                }
                if let Some(f) = f {
                    ret.pop();
                    ret.push(scalar(unilast - ((unilast - 0xAC00) % 28)));
                    ret.push(scalar(0xAC00u32 + (f as u32) * 588 + mp * 28));
                } else {
                    ret.push(c);
                }
            } else {
                ret.push(c);
            }
        } else {
            ret.push(c);
        }
        assert(ret@ == compose_step(prev, c));
        i = i + 1;
    }
    assert(cs@.take(i as int) == cs@);
    string_from(ret.as_slice())
}

proof fn lemma_distinct_find(s: Seq<char>, i: int)
    requires
        0 <= i < s.len(),
        forall|a: int, b: int| 0 <= a < b < s.len() ==> s[a] != s[b],
    ensures
        find(s, s[i]) == i,
{
    crate::text::lemma_find_found(s, s[i]);
    if find(s, s[i]) < 0 {
        assert(s[i] != s[i]);
    } else if find(s, s[i]) < i {
        assert(s[find(s, s[i])] == s[i]);
    } else if find(s, s[i]) > i {
        assert(s[i] != s[i]);
    }
}

/// Composing the jamo of a syllable gives the syllable back.
pub proof fn lemma_compose_phonemes(c: char)
    requires
        0xAC00 <= c as u32 <= 0xD7A3,
    ensures
        compose(phonemes(c)) == seq![c],
{
    let u = c as u32;
    let n = u - 0xAC00;
    let f = n / 588;
    let m = (n % 588) / 28;
    let l = n % 28;
    assert(0 <= f < 19 && 0 <= m < 21 && 0 <= l < 28);
    assert(n == f * 588 + m * 28 + l);
    let fs = firsts();
    let ms = middles();
    let ls = lasts();
    assert(forall|a: int, b: int| 0 <= a < b < fs.len() ==> fs[a] != fs[b]);
    assert(forall|a: int, b: int| 0 <= a < b < ls.len() ==> ls[a] != ls[b]);
    assert(forall|a: int, b: int| 0 <= a < b < ms.len() ==> ms[a] != ms[b]);
    lemma_distinct_find(fs, f as int);
    lemma_distinct_find(ms, m as int);
    let fc = fs[f as int];
    let mc = ms[m as int];
    assert(fs.contains(fc));
    assert(!fs.contains(mc) && !ls.contains(mc)) by {
        if fs.contains(mc) {
            let j = choose|j: int| 0 <= j < fs.len() && fs[j] == mc;
            assert(fs[j] as u32 <= 0x314e);
        }
        if ls.contains(mc) {
            let j = choose|j: int| 0 <= j < ls.len() && ls[j] == mc;
            assert(ls[j] as u32 <= 0x314e);
        }
    }
    assert(ms.contains(mc));
    let s1 = seq![fc];
    assert(compose(seq![fc]) == s1) by {
        assert(seq![fc].drop_last() == Seq::<char>::empty());
        assert(compose(Seq::<char>::empty()) == Seq::<char>::empty());
        assert(seq![fc].last() == fc);
        assert(compose_step(Seq::<char>::empty(), fc) == s1);
    }
    let sy = syllable(f as int, m as int, 0);
    let su: u32 = (0xAC00 + f * 588 + m * 28) as u32;
    assert(sy == su as char);
    assert(is_scalar(su));
    assert(compose(seq![fc, mc]) == seq![sy]) by {
        assert(seq![fc, mc].drop_last() == seq![fc]);
        assert(compose_step(s1, mc) == seq![sy]);
    }
    if l > 0 {
        lemma_distinct_find(ls, l - 1);
        let lc = ls[l - 1];
        assert(ls.contains(lc));
        assert(seq![fc, mc, lc].drop_last() == seq![fc, mc]);
        assert(phonemes(c) == seq![fc, mc, lc]);
        assert((sy as u32) == su);
        assert((su - 0xAC00) % 28 == 0) by (nonlinear_arith)
            requires
                su == 0xAC00 + f * 588 + m * 28,
        ;
        assert(su + (l - 1) + 1 == u);
        assert(compose_step(seq![sy], lc) == seq![c]);
    } else {
        assert(phonemes(c) == seq![fc, mc]);
        assert(su == u);
    }
}

/// Whether a character is a precomposed syllable (U+AC00 to U+D7A3).
pub open spec fn is_syllable(c: char) -> bool {
    0xAC00 <= c as u32 <= 0xD7A3
}

/// The initial consonant of a syllable.
pub open spec fn initial_of(c: char) -> char {
    firsts()[((c as u32 - 0xAC00) / 588) as int]
}

/// A text of syllables and plain characters (see [`plain`]) in which every
/// syllable after the first character starts with a consonant that can also end
/// a syllable (not `ㄸ`, `ㅃ` or `ㅉ`).
pub open spec fn recomposable(s: Seq<char>) -> bool {
    &&& forall|i: int| 0 <= i < s.len() ==> is_syllable(#[trigger] s[i]) || plain(s[i])
    &&& forall|i: int| 1 <= i < s.len() && is_syllable(#[trigger] s[i]) ==> !initial_only(initial_of(s[i]))
}

/// Whether only the first letter of a sequence may be an initial-only consonant,
/// as [`assemble`] requires.
pub open spec fn assemblable(s: Seq<char>) -> bool {
    forall|i: int| 1 <= i < s.len() ==> !initial_only(#[trigger] s[i])
}

/// The letters of the three tables lie in distinct ranges, and no table
/// repeats a letter.
proof fn lemma_tables()
    ensures
        forall|a: int, b: int| 0 <= a < b < firsts().len() ==> firsts()[a] != firsts()[b],
        forall|a: int, b: int| 0 <= a < b < middles().len() ==> middles()[a] != middles()[b],
        forall|a: int, b: int| 0 <= a < b < lasts().len() ==> lasts()[a] != lasts()[b],
        forall|j: int| 0 <= j < firsts().len() ==> 0x3131 <= #[trigger] firsts()[j] as u32 <= 0x314e,
        forall|j: int| 0 <= j < lasts().len() ==> 0x3131 <= #[trigger] lasts()[j] as u32 <= 0x314e,
        forall|j: int| 0 <= j < middles().len() ==> 0x314f <= #[trigger] middles()[j] as u32 <= 0x3163,
{
}

/// A letter of the medial table is no consonant, and a syllable is no letter.
proof fn lemma_not_consonant(c: char)
    requires
        (middles().contains(c) || 0xAC00 <= c as u32),
    ensures
        !firsts().contains(c),
        !lasts().contains(c),
{
    lemma_tables();
    if firsts().contains(c) {
        let j = choose|j: int| 0 <= j < firsts().len() && firsts()[j] == c;
        if middles().contains(c) {
            let k = choose|k: int| 0 <= k < middles().len() && middles()[k] == c;
            assert(middles()[k] as u32 >= 0x314f);
        }
        assert(firsts()[j] as u32 <= 0x314e);
    }
    if lasts().contains(c) {
        let j = choose|j: int| 0 <= j < lasts().len() && lasts()[j] == c;
        if middles().contains(c) {
            let k = choose|k: int| 0 <= k < middles().len() && middles()[k] == c;
            assert(middles()[k] as u32 >= 0x314f);
        }
        assert(lasts()[j] as u32 <= 0x314e);
    }
}

/// A character is the character of its code point.
proof fn lemma_char_code(c: char)
    ensures
        (c as u32) as char == c,
{
}

/// Whether a character is neither read as a syllable nor a compatibility jamo
/// (U+3131 to U+318E): splitting and composing leave it as it is.
pub open spec fn plain(c: char) -> bool {
    !in_syllable_block(c) && !(0x3131 <= c as u32 <= 0x318E)
}

/// The jamo of a syllable's initial consonant and vowel, composed after a text
/// that ends in a syllable (when the consonant can also end a syllable) or in a
/// plain character, append the syllable without final consonant.
proof fn lemma_compose_open_syllable(x: Seq<char>, f: int, m: int)
    requires
        compose(x).len() > 0,
        is_syllable(compose(x).last()) && lasts().contains(firsts()[f]) || plain(compose(x).last()),
        0 <= f < 19,
        0 <= m < 21,
    ensures
        compose(x.push(firsts()[f]).push(middles()[m])) == compose(x).push(syllable(f, m, 0)),
{
    lemma_tables();
    let p = compose(x);
    let u = p.last() as u32;
    let fs = firsts();
    let ms = middles();
    let ls = lasts();
    lemma_distinct_find(fs, f);
    lemma_distinct_find(ms, m);
    let fc = fs[f];
    let mc = ms[m];
    assert(fs.contains(fc));
    assert(ms.contains(mc));
    lemma_not_consonant(mc);
    let sy = syllable(f, m, 0);
    let x1 = x.push(fc);
    let x2 = x1.push(mc);
    assert(x1.drop_last() == x);
    assert(x2.drop_last() == x1);
    assert(compose(x1) == compose_step(p, fc));
    assert(compose(x2) == compose_step(compose(x1), mc));
    if plain(p.last()) {
        assert(!fs.contains(p.last()) && !ls.contains(p.last())) by {
            if fs.contains(p.last()) {
                let j = choose|j: int| 0 <= j < fs.len() && fs[j] == p.last();
                assert(0x3131 <= fs[j] as u32 <= 0x314e);
            }
            if ls.contains(p.last()) {
                let j = choose|j: int| 0 <= j < ls.len() && ls[j] == p.last();
                assert(0x3131 <= ls[j] as u32 <= 0x314e);
            }
        }
        assert(compose(x1) == p.push(fc));
        assert(compose(x1).last() == fc);
        assert(compose(x2) == p.push(sy));
    } else if (u - 0xAC00) % 28 == 0 {
        lemma_find_in(ls, fc);
        let lp = find(ls, fc);
        let k = (u - 0xAC00) / 28;
        assert(u - 0xAC00 == 28 * k);
        let v: u32 = (u + lp + 1) as u32;
        assert(compose(x1) == p.drop_last().push(v as char));
        assert((v - 0xAC00) % 28 == lp + 1);
        lemma_not_consonant(v as char);
        assert(ls[(v - 0xAC00) % 28 - 1] == fc);
        assert((v - (v - 0xAC00) % 28) == u);
        assert(compose(x2) == p.drop_last().push(u as char).push(sy));
        lemma_char_code(p.last());
        assert(p.drop_last().push(p.last()) =~= p);
    } else {
        lemma_not_consonant(p.last());
        assert(compose(x1) == p.push(fc));
        assert(compose(x1).last() == fc);
        assert(compose(x2) == p.push(sy));
    }
}

/// Composing the jamo of a syllable after a text that ends in a plain
/// character, or in a syllable when the new one starts with a consonant that
/// can also end a syllable, appends that syllable.
proof fn lemma_compose_after(x: Seq<char>, c: char)
    requires
        compose(x).len() > 0,
        is_syllable(compose(x).last()) && !initial_only(initial_of(c)) || plain(compose(x).last()),
        is_syllable(c),
    ensures
        compose(x + phonemes(c)) == compose(x).push(c),
{
    lemma_tables();
    let p = compose(x);
    let cu = c as u32;
    let n = cu - 0xAC00;
    let f = n / 588;
    let m = (n % 588) / 28;
    let l = n % 28;
    assert(0 <= f < 19 && 0 <= m < 21 && 0 <= l < 28);
    assert(n == f * 588 + m * 28 + l);
    let fc = firsts()[f as int];
    let mc = middles()[m as int];
    assert(fc == initial_of(c));
    assert(firsts().contains(fc));
    if !plain(p.last()) {
        assert(lasts().contains(fc));
    }
    lemma_compose_open_syllable(x, f as int, m as int);
    let sy = syllable(f as int, m as int, 0);
    let su: u32 = (0xAC00 + f * 588 + m * 28) as u32;
    assert(sy == su as char);
    let x2 = x.push(fc).push(mc);
    assert(compose(x2) == p.push(sy));
    if l > 0 {
        assert((su - 0xAC00) % 28 == 0) by (nonlinear_arith)
            requires
                su == 0xAC00 + f * 588 + m * 28,
        ;
        lemma_distinct_find(lasts(), l - 1);
        let lc = lasts()[l - 1];
        assert(lasts().contains(lc));
        assert(phonemes(c) == seq![fc, mc, lc]);
        let x3 = x2.push(lc);
        assert(x3.drop_last() == x2);
        assert(x + phonemes(c) == x3);
        assert(sy as u32 == su);
        assert(su + (l - 1) + 1 == cu);
        assert(compose(x3) == compose_step(p.push(sy), lc));
        assert(compose(x3) == p.push(c));
    } else {
        assert(phonemes(c) == seq![fc, mc]);
        assert(x + phonemes(c) == x2);
        assert(su == cu);
    }
}

/// No letter after the first of a syllable's jamo is an initial-only consonant.
proof fn lemma_phonemes_tail(c: char)
    requires
        is_syllable(c),
    ensures
        forall|i: int| 1 <= i < phonemes(c).len() ==> !initial_only(#[trigger] phonemes(c)[i]),
        phonemes(c).len() >= 2,
        phonemes(c)[0] == initial_of(c),
{
    lemma_tables();
    let n = c as u32 - 0xAC00;
    let m = (n % 588) / 28;
    let l = n % 28;
    assert(0 <= m < 21 && 0 <= l < 28);
    let mc = middles()[m as int];
    assert(middles().contains(mc));
    lemma_not_consonant(mc);
    if l > 0 {
        let lc = lasts()[l - 1];
        assert(lasts().contains(lc));
    }
}

/// Composing the jamo of a text of syllables and plain characters gives the
/// text back, when every syllable after the first character starts with a
/// consonant that can also end a syllable; and those jamo meet what
/// [`assemble`] requires.
pub proof fn lemma_assemble_disassemble(s: Seq<char>)
    requires
        recomposable(s),
    ensures
        compose(all_phonemes(s)) == s,
        assemblable(all_phonemes(s)),
    decreases s.len(),
{
    if s.len() > 0 {
        let p = s.drop_last();
        let c = s.last();
        assert(recomposable(p)) by {
            assert forall|i: int| 1 <= i < p.len() && is_syllable(#[trigger] p[i]) implies !initial_only(initial_of(p[i])) by {
                assert(p[i] == s[i]);
            }
            assert forall|i: int| 0 <= i < p.len() implies is_syllable(#[trigger] p[i]) || plain(p[i]) by {
                assert(p[i] == s[i]);
            }
        }
        lemma_assemble_disassemble(p);
        if plain(c) {
            lemma_tables();
            let x = all_phonemes(p);
            assert(phonemes(c) == seq![c]);
            assert(all_phonemes(s) == x.push(c));
            assert(x.push(c).drop_last() == x);
            assert(!firsts().contains(c) && !lasts().contains(c) && !middles().contains(c)) by {
                if firsts().contains(c) {
                    let j = choose|j: int| 0 <= j < firsts().len() && firsts()[j] == c;
                    assert(0x3131 <= firsts()[j] as u32 <= 0x314e);
                }
                if lasts().contains(c) {
                    let j = choose|j: int| 0 <= j < lasts().len() && lasts()[j] == c;
                    assert(0x3131 <= lasts()[j] as u32 <= 0x314e);
                }
                if middles().contains(c) {
                    let j = choose|j: int| 0 <= j < middles().len() && middles()[j] == c;
                    assert(0x314f <= middles()[j] as u32 <= 0x3163);
                }
            }
            assert(compose(x.push(c)) == compose(x).push(c)) by {
                if compose(x).len() == 0 {
                    assert(compose(x).push(c) =~= seq![c]);
                }
            }
            assert(p.push(c) == s);
            assert forall|i: int| 1 <= i < all_phonemes(s).len() implies !initial_only(
                #[trigger] all_phonemes(s)[i],
            ) by {
                if i < x.len() {
                    assert(all_phonemes(s)[i] == x[i]);
                } else {
                    assert(all_phonemes(s)[i] == c);
                }
            }
        } else {
            assert(is_syllable(c));
            lemma_phonemes_tail(c);
            let x = all_phonemes(p);
            assert(all_phonemes(s) == x + phonemes(c));
            if p.len() == 0 {
                assert(x == Seq::<char>::empty());
                assert(x + phonemes(c) == phonemes(c));
                lemma_compose_phonemes(c);
                assert(seq![c] == s);
            } else {
                assert(p.last() == s[s.len() - 2]);
                assert(is_syllable(p.last()) || plain(p.last()));
                assert(!initial_only(initial_of(s[s.len() - 1])));
                lemma_compose_after(x, c);
                assert(p.push(c) == s);
            }
            assert forall|i: int| 1 <= i < all_phonemes(s).len() implies !initial_only(
                #[trigger] all_phonemes(s)[i],
            ) by {
                if i < x.len() {
                    assert(all_phonemes(s)[i] == x[i]);
                } else if i > x.len() {
                    assert(all_phonemes(s)[i] == phonemes(c)[i - x.len()]);
                } else {
                    assert(all_phonemes(s)[i] == phonemes(c)[0]);
                    assert(p.len() > 0) by {
                        if p.len() == 0 {
                            assert(x.len() == 0);
                        }
                    }
                    assert(!initial_only(initial_of(s[s.len() - 1])));
                }
            }
        }
    }
}

} // verus!
