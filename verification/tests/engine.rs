use pinin::keyboard::Keyboard;
use pinin::pinin::PinIn;

fn dict() -> &'static str {
    "测: ce4\n\
     试: shi4\n\
     文: wen2\n\
     本: ben3\n\
     合: he2\n\
     金: jin1\n\
     炉: lu2\n\
     洗: xi3\n\
     矿: kuang4\n\
     场: chang3\n\
     流: liu2\n\
     体: ti3\n\
     轰: hong1\n\
     石: shi2\n\
     头: tou2\n\
     安: an1\n\
     全: quan2\n\
     昂: ang2\n\
     扬: yang2\n\
     月: yue4\n\
     球: qiu2\n\
     汉: han4\n\
     化: hua4\n\
     喊: han3\n\
     话: hua4\n\
     切: qie1\n\
     分: fen1\n\
     腳: jiao3\n\
     手: shou3\n\
     架: jia4\n\
     錫: xi2\n\
     鵝: e2\n\
     葉: ye4\n\
     共: gong4\n\
     同: tong2\n\
     圆: yuan2\n"
}

#[test]
fn quanpin() {
    let mut pinin = PinIn::new();
    pinin.load_dict(dict());
    pinin.accelerate = true;
    assert!(pinin.contains("测试文本", "ceshiwenben"));
    assert!(pinin.contains("测试文本", "ceshiwenbe"));
    assert!(pinin.contains("测试文本", "ceshiwben"));
    assert!(pinin.contains("测试文本", "ce4shi4wb"));
    assert!(!pinin.contains("测试文本", "ce2shi4wb"));
    assert!(pinin.contains("合金炉", "hejinlu"));
    assert!(pinin.contains("洗矿场", "xikuangchang"));
    assert!(pinin.contains("流体", "liuti"));
    assert!(pinin.contains("轰20", "hong2"));
    assert!(pinin.contains("hong2", "hong2"));
    assert!(!pinin.begins("测", "ce4a"));
    assert!(!pinin.begins("", "a"));
    assert!(pinin.contains("石头", "stou"));
    assert!(pinin.contains("安全", "aquan"));
    assert!(pinin.contains("昂扬", "ayang"));
    assert!(!pinin.contains("昂扬", "anyang"));
    assert!(pinin.contains("昂扬", "angyang"));
}

#[test]
fn xiaohe() {
    let mut pinin = PinIn::new();
    pinin.keyboard = Keyboard::xiaohe();
    pinin.load_dict(dict());

    assert!(pinin.contains("测试文本", "ceuiwfbf"));
    assert!(pinin.contains("测试文本", "ceuiwf2"));
    assert!(!pinin.contains("测试文本", "ceuiw2"));
    assert!(pinin.contains("合金炉", "hej"));
    assert!(pinin.contains("洗矿场", "xikl4"));
    assert!(pinin.contains("月球", "ytqq"));
}

#[test]
fn ziranma() {
    let mut pinin = PinIn::new();
    pinin.keyboard = Keyboard::ziranma();
    pinin.load_dict(dict());

    assert!(pinin.contains("测试文本", "ceuiwfbf"));
    assert!(pinin.contains("测试文本", "ceuiwf2"));
    assert!(!pinin.contains("测试文本", "ceuiw2"));
    assert!(pinin.contains("合金炉", "hej"));
    assert!(pinin.contains("洗矿场", "xikd4"));
    assert!(pinin.contains("月球", "ytqq"));
    assert!(pinin.contains("安全", "anqr"));
}

#[test]
fn daqian() {
    let mut pinin = PinIn::new();
    pinin.keyboard = Keyboard::daqian();
    pinin.load_dict(dict());

    assert!(pinin.contains("测试文本", "hk4g4jp61p3"));
    assert!(pinin.contains("测试文本", "hkgjp1"));
    assert!(pinin.contains("錫", "vu6"));
    assert!(pinin.contains("腳手架", "rul3g.3ru84"));
    assert!(pinin.contains("鵝", "k6"));
    assert!(pinin.contains("葉", "u,4"));
    assert!(pinin.contains("共同", "ej/wj/"));
}

#[test]
fn format() {
    let mut pinin = PinIn::new();
    pinin.load_dict(dict());

    let ch = pinin.get_character('圆');
    let py = &ch.pinyin[0];

    assert_eq!(pinin::format::number_format(py), "yuan2");
    assert_eq!(pinin::format::raw_format(py), "yuan");
    assert_eq!(pinin::format::unicode_format(py), "yuán");
    assert_eq!(pinin::format::phonetic_format(py), "ㄩㄢˊ");
}

#[test]
fn unaccelerated_matches_accelerated() {
    let mut slow = PinIn::new();
    slow.load_dict(dict());
    let mut fast = PinIn::new();
    fast.load_dict(dict());
    fast.accelerate = true;
    let sources = ["测试文本", "石头", "昂扬", "轰20", "hong2", "洗矿场"];
    let queries = ["ceshiwben", "stou", "angyang", "anyang", "hong2", "xikc", "ce4shi4wb"];
    for s in sources.iter() {
        for q in queries.iter() {
            assert_eq!(slow.contains(s, q), fast.contains(s, q), "contains {} {}", s, q);
            assert_eq!(slow.begins(s, q), fast.begins(s, q), "begins {} {}", s, q);
        }
    }
}

#[test]
fn matches_is_exact() {
    let mut pinin = PinIn::new();
    pinin.load_dict(dict());
    assert!(pinin.matches("测试", "ceshi"));
    assert!(pinin.matches("测试", "ce4shi4"));
    assert!(!pinin.matches("测试", "ce"));
    assert!(!pinin.matches("测试", "ceshiwen"));
    assert!(!pinin.matches("测试文本", "ceshi"));
    assert!(pinin.matches("", ""));
}

#[test]
fn fuzzy_rules_expand() {
    let mut pinin = PinIn::new();
    pinin.fuzzy.zh2z = true;
    pinin.fuzzy.ang2an = true;
    pinin.load_dict("中: zhong1\n障: zhang4\n");
    assert!(pinin.contains("中", "zong"));
    assert!(pinin.contains("中", "zhong"));
    assert!(pinin.contains("障", "zan"));
    assert!(pinin.contains("障", "zhang"));
    let mut strict = PinIn::new();
    strict.load_dict("中: zhong1\n障: zhang4\n");
    assert!(!strict.contains("中", "zong"));
    assert!(!strict.contains("障", "zan"));
}

#[test]
fn malformed_dict_lines_are_skipped() {
    let mut pinin = PinIn::new();
    pinin.load_dict("x\n\n测: ce4\n");
    assert!(pinin.contains("测", "ce"));
    assert!(!pinin.contains("x", "ce"));
}

#[test]
fn empty_query_begins_everywhere() {
    let mut pinin = PinIn::new();
    pinin.load_dict("测: ce4\n");
    assert!(pinin.begins("测", ""));
    assert!(pinin.contains("测", ""));
    assert!(pinin.matches("", ""));
    assert!(!pinin.matches("测", ""));
}

#[test]
fn unmapped_query_chars_pass_through() {
    let mut pinin = PinIn::new();
    pinin.keyboard = pinin::keyboard::Keyboard::daqian();
    pinin.load_dict("轰: hong1\n");
    assert!(pinin.contains("轰20", "20"), "literal digits match themselves");
}

#[test]
fn whitespace_source_is_plain_text() {
    let mut pinin = PinIn::new();
    pinin.load_dict(dict());
    assert!(pinin.contains("   ", " "));
    assert!(!pinin.contains("  ", "a"));
    assert!(pinin.begins("  ", " "));
    assert!(pinin.matches(" ", " "));
    assert!(!pinin.matches(" ", "  "));
}
