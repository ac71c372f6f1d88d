use pinin::accelerator::Accelerator;
use pinin::compressed::{Compressor, IndexSet, IndexSetStorage};
use pinin::elements::Phoneme;
use pinin::keyboard::{standard_cutter, zero_cutter, Keyboard};
use pinin::pinin::{FuzzySettings, PinIn};

fn chars(s: &str) -> Vec<char> {
    s.chars().collect()
}

#[test]
fn index_set_members() {
    let mut s = IndexSet::none();
    assert!(!s.get(0));
    s.set(0);
    s.set(3);
    assert!(s.get(0));
    assert!(s.get(3));
    assert!(!s.get(1));

    let zero = IndexSet::zero();
    assert!(zero.get(0));
    let one = IndexSet::one();
    assert!(one.get(1));
}

#[test]
fn index_set_offset_shifts_members() {
    let mut s = IndexSet::none();
    s.set(0);
    s.set(2);
    s.offset(1);
    assert!(!s.get(0));
    assert!(s.get(1));
    assert!(s.get(3));
}

#[test]
fn index_set_merge_replaces_pure_zero() {
    let mut a = IndexSet::zero();
    let mut b = IndexSet::none();
    b.set(2);
    a.merge(b);
    assert!(!a.get(0), "a pure zero set is replaced by the argument");
    assert!(a.get(2));

    let mut c = IndexSet::none();
    c.set(1);
    c.merge(b);
    assert!(c.get(1));
    assert!(c.get(2));
}

#[test]
fn index_set_iteration_is_bounded_and_ascending() {
    let mut s = IndexSet::none();
    s.set(1);
    s.set(4);
    s.set(6);
    let mut seen: Vec<i32> = Vec::new();
    let cell = std::cell::RefCell::new(&mut seen);
    s.for_each(|i| {
        cell.borrow_mut().push(i);
    });
    assert_eq!(seen, vec![1, 4, 6]);
    assert!(s.traverse(|i| i == 4));
    assert!(!s.traverse(|i| i == 5));
}

#[test]
fn index_set_storage_round_trip() {
    let mut st = IndexSetStorage::new();
    assert_eq!(st.get(3).raw_value(), -1);
    let mut s = IndexSet::none();
    s.set(5);
    st.set(s, 100);
    assert_eq!(st.get(100), s);
    assert_eq!(st.get(99).raw_value(), -1);
}

#[test]
fn compressor_layout() {
    let mut c = Compressor::new();
    let p0 = c.push("ab");
    let p1 = c.push("c");
    assert_eq!(p0, 0);
    assert_eq!(p1, 3);
    assert_eq!(c.at(0), 'a');
    assert_eq!(c.at(1), 'b');
    assert!(c.end(2));
    assert_eq!(c.at(3), 'c');
    assert!(c.end(4));
    assert!(!c.end(0));
    assert!(!c.end(5));
}

#[test]
fn cutters_split_syllables() {
    let std_cut: Vec<String> = standard_cutter(&chars("zhong1"))
        .iter()
        .map(|p| p.iter().collect())
        .collect();
    assert_eq!(std_cut, vec!["zh".to_string(), "ong".to_string(), "1".to_string()]);

    let std_cut2: Vec<String> = standard_cutter(&chars("an4"))
        .iter()
        .map(|p| p.iter().collect())
        .collect();
    assert_eq!(std_cut2, vec!["an".to_string(), "4".to_string()]);

    let zero: Vec<String> = zero_cutter(&chars("an4")).iter().map(|p| p.iter().collect()).collect();
    assert_eq!(zero, vec!["a".to_string(), "n".to_string()]);
}

#[test]
fn phoneme_fuzzy_expansion() {
    let kb = Keyboard::quanpin();
    let mut f = FuzzySettings::default();
    f.zh2z = true;
    let p = Phoneme::new(&chars("zh"), &f, &kb);
    match p {
        Phoneme::Multiple(alts) => {
            let flats: Vec<String> = alts.iter().map(|a| a.flat.iter().collect()).collect();
            assert!(flats.contains(&"zh".to_string()));
            assert!(flats.contains(&"z".to_string()));
            assert_eq!(flats.len(), 2);
        },
        Phoneme::Single(_) => panic!("fuzzy zh must expand"),
    }

    let strict = Phoneme::new(&chars("zh"), &FuzzySettings::default(), &kb);
    match strict {
        Phoneme::Single(a) => {
            let s: String = a.flat.iter().collect();
            assert_eq!(s, "zh");
        },
        Phoneme::Multiple(_) => panic!("no rule is on, the phoneme stays single"),
    }
}

#[test]
fn phoneme_match_lengths() {
    let kb = Keyboard::quanpin();
    let f = FuzzySettings::default();
    let p = Phoneme::new(&chars("ong"), &f, &kb);
    let full = p.match_string("ongx", 0, false);
    assert!(full.get(3), "the whole phoneme was consumed");
    assert!(!full.get(2));
    let cut = p.match_string("on", 0, true);
    assert!(cut.get(2), "a partial match may end at the source boundary");
    let nocut = p.match_string("on", 0, false);
    assert!(!nocut.get(2));
}

#[test]
fn match_lengths_count_grapheme_clusters() {
    // A combining mark joins its base letter into one cluster, so a full
    // match of a two-code-point cluster consumes one position, not two.
    let kb = Keyboard::quanpin();
    let f = FuzzySettings::default();
    let p = Phoneme::new(&chars("a\u{301}"), &f, &kb);
    let m = p.match_string("a\u{301}x", 0, false);
    assert!(m.get(1), "one cluster consumed");
    assert!(!m.get(2), "not two, though the cluster spans two code points");
}

#[test]
fn accelerator_cache_hit_returns_same_set() {
    let mut ctx = PinIn::new();
    ctx.load_dict("中: zhong1\n");
    let p = ctx.get_or_insert_pinyin(&chars("zhong1"));
    let mut a = Accelerator::new();
    a.search("zho");
    let first = a.get_pinyin(&ctx, &p, 0);
    let second = a.get_pinyin(&ctx, &p, 0);
    assert_eq!(first, second);
    let third = a.get_pinyin(&ctx, &p, 0);
    assert_eq!(first, third);
}

#[test]
fn accelerator_common_run() {
    let mut c = Compressor::new();
    let p0 = c.push("abcd");
    let p1 = c.push("abxd");
    let a = Accelerator::new();
    let src = pinin::accelerator::CharProvider::Comp(&c);
    assert_eq!(a.common(&src, p0, p1, 4), 2);
    assert_eq!(a.common(&src, p0, p1, 1), 1);
    assert_eq!(a.common(&src, p0, p0, 10), 4, "the run stops at the separator");
}
