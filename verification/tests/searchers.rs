use pinin::accelerator::Accelerator;
use pinin::pinin::PinIn;
use pinin::searcher::{Node, SearcherLogic, SimpleSearcher, TreeSearcher};

fn dict() -> &'static str {
    "测: ce4\n\
     试: shi4\n\
     文: wen2\n\
     本: ben3\n\
     合: he2\n\
     金: jin1\n\
     炉: lu2\n\
     洗: xi3\n\
     矿: kuang4\n\
     场: chang3\n\
     流: liu2\n\
     体: ti3\n\
     轰: hong1\n\
     月: yue4\n\
     球: qiu2\n\
     汉: han4\n\
     化: hua4\n\
     喊: han3\n\
     话: hua4\n\
     切: qie1\n\
     分: fen1\n"
}

fn entries() -> Vec<(&'static str, i32)> {
    vec![
        ("测试文本", 1),
        ("测试切分", 5),
        ("测试切分文本", 6),
        ("合金炉", 2),
        ("洗矿场", 3),
        ("流体", 4),
        ("轰20", 7),
        ("hong2", 8),
        ("月球", 9),
        ("汉化", 10),
        ("喊话", 11),
    ]
}

#[test]
fn full() {
    let mut pinin = PinIn::new();
    pinin.load_dict(dict());

    let mut tree: TreeSearcher<i32> = TreeSearcher::new(SearcherLogic::Equal, Accelerator::new());
    let mut simple: SimpleSearcher<i32> = SimpleSearcher::new(SearcherLogic::Equal);
    for (name, id) in entries() {
        tree.insert(&pinin, name, id);
        simple.insert(&pinin, name, id);
    }

    for round in 0..2 {
        let list = if round == 0 {
            tree.search(&pinin, "hong2")
        } else {
            simple.search(&pinin, "hong2")
        };
        assert_eq!(list.len(), 1);
        assert!(list.contains(&&8));

        let list = if round == 0 {
            tree.search(&pinin, "hong20")
        } else {
            simple.search(&pinin, "hong20")
        };
        assert_eq!(list.len(), 1);
        assert!(list.contains(&&7));

        let list = if round == 0 {
            tree.search(&pinin, "ceshqf")
        } else {
            simple.search(&pinin, "ceshqf")
        };
        assert_eq!(list.len(), 1);
        assert!(list.contains(&&5));

        let list = if round == 0 {
            tree.search(&pinin, "ceshqfw")
        } else {
            simple.search(&pinin, "ceshqfw")
        };
        assert_eq!(list.len(), 0);

        let list = if round == 0 {
            tree.search(&pinin, "hh")
        } else {
            simple.search(&pinin, "hh")
        };
        assert_eq!(list.len(), 2);
        assert!(list.contains(&&10));
        assert!(list.contains(&&11));

        let list = if round == 0 {
            tree.search(&pinin, "hhu")
        } else {
            simple.search(&pinin, "hhu")
        };
        assert_eq!(list.len(), 0);
    }
}

#[test]
fn begin_logic_agrees_with_begins() {
    let mut pinin = PinIn::new();
    pinin.load_dict(dict());
    let mut tree: TreeSearcher<usize> = TreeSearcher::new(SearcherLogic::Begin, Accelerator::new());
    let mut simple: SimpleSearcher<usize> = SimpleSearcher::new(SearcherLogic::Begin);
    let names: Vec<&str> = entries().iter().map(|e| e.0).collect();
    for (i, name) in names.iter().enumerate() {
        tree.insert(&pinin, name, i);
        simple.insert(&pinin, name, i);
    }
    for q in ["ce", "ceshi", "h", "hong", "yueq", "han", "hh", "xi", "zzz"] {
        let mut expect: Vec<usize> = Vec::new();
        for (i, name) in names.iter().enumerate() {
            if pinin.begins(name, q) {
                expect.push(i);
            }
        }
        let mut got: Vec<usize> = tree.search(&pinin, q).iter().map(|r| **r).collect();
        got.sort();
        assert_eq!(got, expect, "tree begin {}", q);
        let mut got2: Vec<usize> = simple.search(&pinin, q).iter().map(|r| **r).collect();
        got2.sort();
        assert_eq!(got2, expect, "simple begin {}", q);
    }
}

#[test]
fn contain_logic_agrees_with_contains() {
    let mut pinin = PinIn::new();
    pinin.load_dict(dict());
    let mut tree: TreeSearcher<usize> = TreeSearcher::new(
        SearcherLogic::Contain,
        Accelerator::new(),
    );
    let mut simple: SimpleSearcher<usize> = SimpleSearcher::new(SearcherLogic::Contain);
    let names: Vec<&str> = entries().iter().map(|e| e.0).collect();
    for (i, name) in names.iter().enumerate() {
        tree.insert(&pinin, name, i);
        simple.insert(&pinin, name, i);
    }
    for q in ["wen", "qf", "ong2", "hua", "ti", "0"] {
        let mut expect: Vec<usize> = Vec::new();
        for (i, name) in names.iter().enumerate() {
            if pinin.contains(name, q) {
                expect.push(i);
            }
        }
        let mut got: Vec<usize> = tree.search(&pinin, q).iter().map(|r| **r).collect();
        got.sort();
        assert_eq!(got, expect, "tree contain {}", q);
        let mut got2: Vec<usize> = simple.search(&pinin, q).iter().map(|r| **r).collect();
        got2.sort();
        assert_eq!(got2, expect, "simple contain {}", q);
    }
}

#[test]
fn dense_bucket_promotes_to_slice() {
    let pinin = PinIn::new();
    let mut tree: TreeSearcher<usize> = TreeSearcher::new(SearcherLogic::Begin, Accelerator::new());
    let mut names: Vec<String> = Vec::new();
    for i in 0..150usize {
        names.push(format!("x{}", i));
    }
    for (i, name) in names.iter().enumerate() {
        if i < 128 {
            assert!(
                matches!(tree.root, Node::NDense(_)),
                "the bucket keeps its shape below the threshold"
            );
        }
        tree.insert(&pinin, name, i);
    }
    assert!(
        matches!(tree.root, Node::NSlice(_)),
        "a bucket at the threshold is rebuilt as a slice"
    );
    for i in 0..20usize {
        names.push(format!("y{}", i));
        tree.insert(&pinin, &names[150 + i], 150 + i);
    }
    for q in ["x14", "x7", "x149", "y", "y1", "z"] {
        let mut expect: Vec<usize> = Vec::new();
        for (i, name) in names.iter().enumerate() {
            if name.starts_with(q) {
                expect.push(i);
            }
        }
        let mut got: Vec<usize> = tree.search(&pinin, q).iter().map(|r| **r).collect();
        got.sort();
        assert_eq!(got, expect, "promoted begin {}", q);
    }
}

#[test]
fn begin_query_ending_at_interior_map_emits_nothing() {
    // A prefix query consumed exactly at an interior map node emits
    // nothing, although every name below that node begins with the
    // query: the walk hands query-end handling to the node it stops at,
    // and a plain interior map answers only exact matches there. The
    // linear searcher does not share this boundary, which is why the
    // exact search law is stated for it and not for the trie.
    let pinin = PinIn::new();
    let mut tree: TreeSearcher<usize> = TreeSearcher::new(SearcherLogic::Begin, Accelerator::new());
    let mut simple: SimpleSearcher<usize> = SimpleSearcher::new(SearcherLogic::Begin);
    let mut names: Vec<String> = Vec::new();
    for i in 0..150usize {
        names.push(format!("x{}", i));
    }
    names.push("y0".to_string());
    for (i, name) in names.iter().enumerate() {
        tree.insert(&pinin, name, i);
        simple.insert(&pinin, name, i);
    }
    assert!(matches!(tree.root, Node::NMap(_) | Node::NAcc(_)));
    assert_eq!(simple.search(&pinin, "x").len(), 150);
    assert_eq!(tree.search(&pinin, "x").len(), 0);
    assert_eq!(tree.search(&pinin, "x1").len(), simple.search(&pinin, "x1").len());
}

#[test]
fn wide_map_promotes_to_acc() {
    let pinin = PinIn::new();
    let mut tree: TreeSearcher<usize> = TreeSearcher::new(SearcherLogic::Equal, Accelerator::new());
    let mut names: Vec<String> = Vec::new();
    for i in 0..140u32 {
        let c = char::from_u32(0x4E00 + i).unwrap();
        names.push(c.to_string());
    }
    for (i, name) in names.iter().enumerate() {
        tree.insert(&pinin, name, i);
    }
    for i in [0usize, 5, 77, 139] {
        let got = tree.search(&pinin, &names[i]);
        assert_eq!(got.len(), 1);
        assert!(got.contains(&&i));
    }
    tree.reset(&pinin);
    let got = tree.search(&pinin, &names[40]);
    assert_eq!(got.len(), 1);
    assert!(got.contains(&&40));
}
