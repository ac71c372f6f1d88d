//! Display formats for a syllable: the raw toned spelling, the spelling
//! without its tone, tone-marked latin letters, and bopomofo symbols.
//! These are thin lookup-table transforms over the stored spelling.

use vstd::prelude::*;

use crate::elements::Pinyin;
use crate::keyboard::{has_initial, phonetic_local_table};
use crate::unicode_utils::{chars_of, flatten_range, segment_chars, string_of};

verus! {

/// The raw spelling with its trailing tone digit.
pub fn number_format(p: &Pinyin) -> (r: String)
    ensures
        r@ == p.raw@,
{
    string_of(&p.raw)
}

/// The raw spelling with its final grapheme, the tone, removed.
pub fn raw_format(p: &Pinyin) -> (r: String)
    ensures
        r@ == (if crate::unicode_utils::grapheme_split(p.raw@).len() == 0 {
            Seq::<char>::empty()
        } else {
            crate::unicode_utils::grapheme_split(p.raw@).drop_last().flatten()
        }),
{
    let gs = segment_chars(&p.raw);
    if gs.len() == 0 {
        return string_of(&Vec::new());
    }
    let flat = flatten_range(&gs, 0, gs.len() - 1);
    proof {
        assert(gs.deep_view().subrange(0, gs.deep_view().len() - 1) =~= gs.deep_view().drop_last());
    }
    string_of(&flat)
}

fn table_get(t: &Vec<(Vec<char>, Vec<char>)>, key: &Vec<char>) -> (r: Option<Vec<char>>) {
    let mut i: usize = 0;
    while i < t.len()
        invariant
            i <= t@.len(),
        decreases t@.len() - i,
    {
        if crate::unicode_utils::chars_eq(&t[i].0, key) {
            return Some(crate::unicode_utils::copy_chars(&t[i].1));
        }
        i = i + 1;
    }
    None
}

fn sym(k: &str, v: &str) -> ((Vec<char>, Vec<char>)) {
    (chars_of(k), chars_of(v))
}

fn symbols_table() -> Vec<(Vec<char>, Vec<char>)> {
    let mut t: Vec<(Vec<char>, Vec<char>)> = Vec::new();
    t.push(sym("a", "ㄚ"));
    t.push(sym("o", "ㄛ"));
    t.push(sym("e", "ㄜ"));
    t.push(sym("er", "ㄦ"));
    t.push(sym("ai", "ㄞ"));
    t.push(sym("ei", "ㄟ"));
    t.push(sym("ao", "ㄠ"));
    t.push(sym("ou", "ㄡ"));
    t.push(sym("an", "ㄢ"));
    t.push(sym("en", "ㄣ"));
    t.push(sym("ang", "ㄤ"));
    t.push(sym("eng", "ㄥ"));
    t.push(sym("ong", "ㄨㄥ"));
    t.push(sym("i", "ㄧ"));
    t.push(sym("ia", "ㄧㄚ"));
    t.push(sym("iao", "ㄧㄠ"));
    t.push(sym("ie", "ㄧㄝ"));
    t.push(sym("iu", "ㄧㄡ"));
    t.push(sym("ian", "ㄧㄢ"));
    t.push(sym("in", "ㄧㄣ"));
    t.push(sym("iang", "ㄧㄤ"));
    t.push(sym("ing", "ㄧㄥ"));
    t.push(sym("iong", "ㄩㄥ"));
    t.push(sym("u", "ㄨ"));
    t.push(sym("ua", "ㄨㄚ"));
    t.push(sym("uo", "ㄨㄛ"));
    t.push(sym("uai", "ㄨㄞ"));
    t.push(sym("ui", "ㄨㄟ"));
    t.push(sym("uan", "ㄨㄢ"));
    t.push(sym("un", "ㄨㄣ"));
    t.push(sym("uang", "ㄨㄤ"));
    t.push(sym("ueng", "ㄨㄥ"));
    t.push(sym("uen", "ㄩㄣ"));
    t.push(sym("v", "ㄩ"));
    t.push(sym("ve", "ㄩㄝ"));
    t.push(sym("van", "ㄩㄢ"));
    t.push(sym("vang", "ㄩㄤ"));
    t.push(sym("vn", "ㄩㄣ"));
    t.push(sym("b", "ㄅ"));
    t.push(sym("p", "ㄆ"));
    t.push(sym("m", "ㄇ"));
    t.push(sym("f", "ㄈ"));
    t.push(sym("d", "ㄉ"));
    t.push(sym("t", "ㄊ"));
    t.push(sym("n", "ㄋ"));
    t.push(sym("l", "ㄌ"));
    t.push(sym("g", "ㄍ"));
    t.push(sym("k", "ㄎ"));
    t.push(sym("h", "ㄏ"));
    t.push(sym("j", "ㄐ"));
    t.push(sym("q", "ㄑ"));
    t.push(sym("x", "ㄒ"));
    t.push(sym("zh", "ㄓ"));
    t.push(sym("ch", "ㄔ"));
    t.push(sym("sh", "ㄕ"));
    t.push(sym("r", "ㄖ"));
    t.push(sym("z", "ㄗ"));
    t.push(sym("c", "ㄘ"));
    t.push(sym("s", "ㄙ"));
    t.push(sym("w", "ㄨ"));
    t.push(sym("y", "ㄧ"));
    t.push(sym("1", ""));
    t.push(sym("2", "ˊ"));
    t.push(sym("3", "ˇ"));
    t.push(sym("4", "ˋ"));
    t.push(sym("0", "˙"));
    t.push(sym("", ""));
    t
}

fn tone_table(tone: u32) -> Vec<(Vec<char>, Vec<char>)> {
    let mut t: Vec<(Vec<char>, Vec<char>)> = Vec::new();
    if tone == 1 {
        t.push(sym("a", "ā"));
        t.push(sym("o", "ō"));
        t.push(sym("e", "ē"));
        t.push(sym("i", "ī"));
        t.push(sym("u", "ū"));
        t.push(sym("v", "ǖ"));
    } else if tone == 2 {
        t.push(sym("a", "á"));
        t.push(sym("o", "ó"));
        t.push(sym("e", "é"));
        t.push(sym("i", "í"));
        t.push(sym("u", "ú"));
        t.push(sym("v", "ǘ"));
    } else if tone == 3 {
        t.push(sym("a", "ǎ"));
        t.push(sym("o", "ǒ"));
        t.push(sym("e", "ě"));
        t.push(sym("i", "ǐ"));
        t.push(sym("u", "ǔ"));
        t.push(sym("v", "ǚ"));
    } else if tone == 4 {
        t.push(sym("a", "à"));
        t.push(sym("o", "ò"));
        t.push(sym("e", "è"));
        t.push(sym("i", "ì"));
        t.push(sym("u", "ù"));
        t.push(sym("v", "ǜ"));
    } else {
        t.push(sym("a", "a"));
        t.push(sym("o", "o"));
        t.push(sym("e", "e"));
        t.push(sym("i", "i"));
        t.push(sym("u", "u"));
        t.push(sym("v", "ü"));
    }
    t
}

fn append_all(out: &mut Vec<char>, piece: &Vec<char>) {
    let mut i: usize = 0;
    while i < piece.len()
        invariant
            i <= piece@.len(),
        decreases piece@.len() - i,
    {
        out.push(piece[i]);
        i = i + 1;
    }
}

fn lookup_append(out: &mut Vec<char>, t: &Vec<(Vec<char>, Vec<char>)>, key: &Vec<char>) {
    match table_get(t, key) {
        Some(v) => {
            append_all(out, &v);
        },
        None => {
        },
    }
}

/// The bopomofo rendering: the free-standing rewrite is applied, the
/// syllable is cut into initial, finale, and tone, and each piece is
/// looked up in the symbol table; a neutral tone leads, other tones
/// follow.
pub fn phonetic_format(p: &Pinyin) -> (r: String) {
    let symbols = symbols_table();
    let local = phonetic_local_table();
    let gs0 = segment_chars(&p.raw);
    if gs0.len() == 0 {
        return string_of(&Vec::new());
    }
    let cut = flatten_range(&gs0, 0, gs0.len() - 1);
    let mut sflat: Vec<char> = match crate::format::table_get(&local, &cut) {
        Some(alt) => {
            let mut v = alt;
            let last = flatten_range(&gs0, gs0.len() - 1, gs0.len());
            append_all(&mut v, &last);
            v
        },
        None => crate::unicode_utils::copy_chars(&p.raw),
    };
    let gs = segment_chars(&sflat);
    if gs.len() == 0 {
        return string_of(&Vec::new());
    }
    let len = gs.len();
    let (first, mid, tone): (Vec<char>, Vec<char>, Vec<char>) = if has_initial(&sflat) {
        let a: Vec<char> = Vec::new();
        let b = flatten_range(&gs, 0, len - 1);
        let c = flatten_range(&gs, len - 1, len);
        (a, b, c)
    } else {
        let i: usize = if len > 2 && sflat[0] == 'h' {
            2
        } else {
            1
        };
        if len < i + 1 {
            let a = flatten_range(&gs, 0, len);
            let b: Vec<char> = Vec::new();
            let c: Vec<char> = Vec::new();
            (a, b, c)
        } else {
            let a = flatten_range(&gs, 0, i);
            let b = flatten_range(&gs, i, len - 1);
            let c = flatten_range(&gs, len - 1, len);
            (a, b, c)
        }
    };
    let mut out: Vec<char> = Vec::new();
    let weak = tone.len() == 1 && tone[0] == '0';
    if weak {
        lookup_append(&mut out, &symbols, &tone);
    }
    lookup_append(&mut out, &symbols, &first);
    lookup_append(&mut out, &symbols, &mid);
    if !weak {
        lookup_append(&mut out, &symbols, &tone);
    }
    string_of(&out)
}

/// The tone-marked latin rendering: the tone digit becomes a diacritic on
/// the marked vowel of the finale.
pub fn unicode_format(p: &Pinyin) -> (r: String) {
    let s = &p.raw;
    let gs = segment_chars(s);
    let len = gs.len();
    if len == 0 {
        return string_of(&Vec::new());
    }
    let mut out: Vec<char> = Vec::new();
    let finale: Vec<char> = if has_initial(s) {
        let i: usize = if s.len() > 2 && s[1] == 'h' {
            2
        } else {
            1
        };
        if len < i + 1 {
            return string_of(&Vec::new());
        }
        let init = flatten_range(&gs, 0, i);
        append_all(&mut out, &init);
        flatten_range(&gs, i, len - 1)
    } else {
        flatten_range(&gs, 0, len - 1)
    };
    let two_part = is_two_part_finale(&finale);
    let offset: usize = if two_part {
        1
    } else {
        0
    };
    let fgs = segment_chars(&finale);
    if offset == 1 && fgs.len() > 0 {
        let fg = flatten_range(&fgs, 0, 1);
        append_all(&mut out, &fg);
    }
    let tone_digit: u32 = if s.len() > 0 {
        let last = s[s.len() - 1];
        if last == '1' {
            1
        } else if last == '2' {
            2
        } else if last == '3' {
            3
        } else if last == '4' {
            4
        } else {
            0
        }
    } else {
        0
    };
    let tones = tone_table(tone_digit);
    if offset < finale.len() {
        let mut key: Vec<char> = Vec::new();
        key.push(finale[offset]);
        lookup_append(&mut out, &tones, &key);
    }
    if fgs.len() > offset + 1 {
        let rest = flatten_range(&fgs, offset + 1, fgs.len());
        append_all(&mut out, &rest);
    }
    string_of(&out)
}

/// Whether the finale's tone mark sits on its second letter.
fn is_two_part_finale(f: &Vec<char>) -> (r: bool) {
    let names = ["ui", "iu", "uan", "uang", "ian", "iang", "ua", "ie", "uo", "iong", "iao", "ve",
        "ia"];
    let mut i: usize = 0;
    while i < 13
        invariant
            i <= 13,
        decreases 13 - i,
    {
        let cand = chars_of(names[i]);
        if crate::unicode_utils::chars_eq(f, &cand) {
            return true;
        }
        i = i + 1;
    }
    false
}

} // verus!
