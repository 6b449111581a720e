use bitrate_tree::order::{rank, Rank};
use bitrate_tree::trie::{translate, Trie};
use std::collections::VecDeque;

fn key(parts: &[&str]) -> VecDeque<String> {
    parts.iter().map(|s| s.to_string()).collect()
}

fn show(value: Option<&u32>) -> String {
    match value {
        Some(v) => format!("<{}>", v),
        None => "-".to_string(),
    }
}

#[test]
fn test() {
    let mut trie = Trie::new();
    let joe = translate("J,o,e", ',');
    let jane = translate("J,a,n,e", ',');
    let john = translate("J,o,h,n", ',');
    trie.set(joe.clone(), 4);
    trie.set(jane.clone(), 2);
    trie.set(john.clone(), 1);

    assert_eq!(trie.get(joe).unwrap().value(), Some(&4));
    assert_eq!(trie.get(jane).unwrap().value(), Some(&2));
    assert_eq!(trie.get(john).unwrap().value(), Some(&1));
    assert_eq!(trie.get(translate("J,o,h,n,n,y", ',')), None);
}

#[test]
fn translate_cuts_at_every_separator() {
    assert_eq!(translate("J,o,e", ','), key(&["J", "o", "e"]));
    assert_eq!(translate("a\\b\\c", '\\'), key(&["a", "b", "c"]));
    assert_eq!(translate("one", ','), key(&["one"]));
}

#[test]
fn translate_keeps_empty_segments() {
    assert_eq!(translate("", ','), key(&[""]));
    assert_eq!(translate(",", ','), key(&["", ""]));
    assert_eq!(translate("a,,b", ','), key(&["a", "", "b"]));
    assert_eq!(translate(",a,", ','), key(&["", "a", ""]));
}

#[test]
fn translate_counts_characters_not_bytes() {
    assert_eq!(translate("h\u{e9}llo/w\u{f6}rld/\u{1f3ac}", '/'), key(&["h\u{e9}llo", "w\u{f6}rld", "\u{1f3ac}"]));
    assert_eq!(translate("a\u{e9}b\u{e9}c", '\u{e9}'), key(&["a", "b", "c"]));
}

#[test]
fn translate_agrees_with_split() {
    let inputs = ["", "a", ",", "a,b", ",,", "x,y,,z,", "\u{e9},\u{1f3ac},,"];
    for input in inputs {
        let expected: VecDeque<String> = input.split(',').map(|s| s.to_string()).collect();
        assert_eq!(translate(input, ','), expected);
    }
}

#[test]
fn new_trie_holds_nothing() {
    let trie: Trie<u32> = Trie::new();
    assert_eq!(trie.value(), None);
    assert_eq!(trie.get(key(&["a"])), None);
    assert_eq!(trie.get(key(&[""])), None);
    assert_eq!(trie.get(key(&[])), None);
}

#[test]
fn get_after_set_returns_the_value() {
    let paths: [&[&str]; 5] = [&["a"], &["a", "b"], &["a", "b", "c"], &["", "home", "x"], &["z"]];
    let mut trie = Trie::new();
    for (n, path) in paths.iter().enumerate() {
        assert_eq!(trie.get(key(path)).and_then(|t| t.value()), None);
        trie.set(key(path), n as u32);
        assert_eq!(trie.get(key(path)).unwrap().value(), Some(&(n as u32)));
    }
    for (n, path) in paths.iter().enumerate() {
        assert_eq!(trie.get(key(path)).unwrap().value(), Some(&(n as u32)));
    }
}

#[test]
fn last_write_wins() {
    let mut trie = Trie::new();
    trie.set(key(&["a", "b"]), 1);
    trie.set(key(&["a", "b"]), 2);
    assert_eq!(trie.get(key(&["a", "b"])).unwrap().value(), Some(&2));
    assert_eq!(trie.pretty_print(show, 0), "-\n \u{2514} a: -\n  \u{2514} b: <2>\n");
}

#[test]
fn empty_key_names_the_root_and_is_never_found() {
    let mut trie = Trie::new();
    trie.set(key(&[]), 7);
    assert_eq!(trie.value(), Some(&7));
    assert_eq!(trie.get(key(&[])), None);
    trie.set(key(&["a"]), 8);
    assert_eq!(trie.value(), Some(&7));
    assert_eq!(trie.get(key(&[])), None);
}

#[test]
fn nodes_on_the_way_exist_without_value() {
    let mut trie = Trie::new();
    trie.set(key(&["a", "b", "c"]), 5);
    assert_eq!(trie.get(key(&["a"])).unwrap().value(), None);
    assert_eq!(trie.get(key(&["a", "b"])).unwrap().value(), None);
    assert_eq!(trie.get(key(&["a", "b", "c"])).unwrap().value(), Some(&5));
    assert_eq!(trie.get(key(&["a", "c"])), None);
    assert_eq!(trie.get(key(&["a", "b", "c", "d"])), None);
    assert_eq!(trie.get(key(&["b"])), None);
}

#[test]
fn set_leaves_other_paths_alone() {
    let mut trie = Trie::new();
    trie.set(key(&["a"]), 1);
    trie.set(key(&["a", "b"]), 2);
    trie.set(key(&["c"]), 3);
    trie.set(key(&["a", "b", "d"]), 4);
    assert_eq!(trie.get(key(&["a"])).unwrap().value(), Some(&1));
    assert_eq!(trie.get(key(&["a", "b"])).unwrap().value(), Some(&2));
    assert_eq!(trie.get(key(&["c"])).unwrap().value(), Some(&3));
    assert_eq!(trie.get(key(&["a", "b", "d"])).unwrap().value(), Some(&4));
}

#[test]
fn get_returns_the_subtree() {
    let mut trie = Trie::new();
    trie.set(key(&["r", "x"]), 1);
    trie.set(key(&["r", "y", "z"]), 2);
    let sub = trie.get(key(&["r"])).unwrap();
    assert_eq!(sub.get(key(&["x"])).unwrap().value(), Some(&1));
    assert_eq!(sub.get(key(&["y", "z"])).unwrap().value(), Some(&2));
    assert_eq!(sub.pretty_print(show, 0), "-\n \u{2514} x: <1>\n \u{2514} y: -\n  \u{2514} z: <2>\n");
}

#[test]
fn equal_tries_whatever_the_order_of_insertion() {
    let mut a = Trie::new();
    a.set(key(&["x", "b"]), 1);
    a.set(key(&["x", "a"]), 2);
    a.set(key(&["w"]), 3);
    let mut b = Trie::new();
    b.set(key(&["w"]), 3);
    b.set(key(&["x", "a"]), 2);
    b.set(key(&["x", "b"]), 1);
    assert_eq!(a, b);
    b.set(key(&["w"]), 4);
    assert_ne!(a, b);
}

#[test]
fn pretty_print_of_a_leaf_is_its_label() {
    let mut trie = Trie::new();
    assert_eq!(trie.pretty_print(show, 0), "-\n");
    assert_eq!(trie.pretty_print(show, usize::MAX), "-\n");
    trie.set(key(&[]), 3);
    assert_eq!(trie.pretty_print(show, 5), "<3>\n");
}

#[test]
fn pretty_print_visits_children_in_ascending_order() {
    let mut trie = Trie::new();
    for (n, name) in ["pear", "apple", "fig", "Zed", "apple pie", "app", "\u{e9}clair", ""].iter().enumerate() {
        trie.set(key(&[name]), n as u32);
    }
    let expected = concat_lines(&[
        "-",
        " \u{2514} : <7>",
        " \u{2514} Zed: <3>",
        " \u{2514} app: <5>",
        " \u{2514} apple: <1>",
        " \u{2514} apple pie: <4>",
        " \u{2514} fig: <2>",
        " \u{2514} pear: <0>",
        " \u{2514} \u{e9}clair: <6>",
    ]);
    assert_eq!(trie.pretty_print(show, 0), expected);
    assert_eq!(trie.pretty_print(show, 0), expected);
}

fn concat_lines(lines: &[&str]) -> String {
    let mut s = String::new();
    for l in lines {
        s.push_str(l);
        s.push('\n');
    }
    s
}

#[test]
fn pretty_print_indents_by_depth() {
    let mut trie = Trie::new();
    trie.set(key(&["b", "y"]), 1);
    trie.set(key(&["a", "x", "deep"]), 2);
    trie.set(key(&["b"]), 3);
    trie.set(key(&["a", "w"]), 4);
    let expected = concat_lines(&[
        "-",
        " \u{2514} a: -",
        "  \u{2514} w: <4>",
        "  \u{2514} x: -",
        "   \u{2514} deep: <2>",
        " \u{2514} b: <3>",
        "  \u{2514} y: <1>",
    ]);
    assert_eq!(trie.pretty_print(show, 0), expected);
    let shifted = concat_lines(&[
        "-",
        "   \u{2514} a: -",
        "    \u{2514} w: <4>",
        "    \u{2514} x: -",
        "     \u{2514} deep: <2>",
        "   \u{2514} b: <3>",
        "    \u{2514} y: <1>",
    ]);
    assert_eq!(trie.pretty_print(show, 2), shifted);
}

#[test]
fn pretty_print_takes_a_closure() {
    let mut trie = Trie::new();
    trie.set(key(&["k"]), 20u32);
    let unit = String::from("!");
    let text = trie.pretty_print(|v: Option<&u32>| v.map_or("none".to_string(), |n| format!("{}{}", n * 2, unit)), 0);
    assert_eq!(text, "none\n \u{2514} k: 40!\n");
}

#[test]
fn rank_is_the_order_of_str() {
    let words = [
        "", "a", "A", "b", "ab", "abc", "abd", "b", "Z", "z", "apple", "apple pie", "app", "\u{e9}", "e\u{301}",
        "\u{1f3ac}", "\u{7f}", "\u{80}", "\u{7ff}", "\u{800}", "\u{ffff}", "\u{10000}", "z\u{e9}", "z\u{1f3ac}", " ",
        "0", "10", "9",
    ];
    for a in words {
        for b in words {
            let expected = match a.cmp(b) {
                std::cmp::Ordering::Less => Rank::Before,
                std::cmp::Ordering::Equal => Rank::Same,
                std::cmp::Ordering::Greater => Rank::After,
            };
            assert_eq!(rank(a, b), expected, "{:?} and {:?}", a, b);
        }
    }
}

#[test]
fn many_children_stay_sorted_and_found() {
    let mut trie = Trie::new();
    let mut names: Vec<String> = Vec::new();
    let mut n: u32 = 17;
    for _ in 0..200 {
        n = n.wrapping_mul(1103515245).wrapping_add(12345);
        names.push(format!("d{}", n % 1000));
    }
    for (i, name) in names.iter().enumerate() {
        trie.set(key(&["root", name]), i as u32);
    }
    let mut last: std::collections::BTreeMap<String, u32> = std::collections::BTreeMap::new();
    for (i, name) in names.iter().enumerate() {
        last.insert(name.clone(), i as u32);
    }
    let mut expected = String::from("-\n");
    for (name, i) in &last {
        expected.push_str(&format!(" \u{2514} {}: <{}>\n", name, i));
        assert_eq!(trie.get(key(&["root", name])).unwrap().value(), Some(i));
    }
    assert_eq!(trie.get(key(&["root"])).unwrap().pretty_print(show, 0), expected);
    assert_eq!(trie.get(key(&["root", "d1000"])), None);
}

#[test]
fn translate_agrees_with_split_on_mixed_texts() {
    let parts = [",", "a", "bc", "/", "\\", "\u{e9}", "\u{1f3ac}", "", ",,"];
    let mut seed = 99u64;
    for _ in 0..1500 {
        let mut text = String::new();
        seed = seed.wrapping_mul(6364136223846793005).wrapping_add(1442695040888963407);
        let n = (seed >> 33) as usize % 10;
        for _ in 0..n {
            seed = seed.wrapping_mul(6364136223846793005).wrapping_add(1442695040888963407);
            text.push_str(parts[(seed >> 33) as usize % parts.len()]);
        }
        for sep in [',', '/', '\\', '\u{e9}'] {
            let expected: VecDeque<String> = text.split(sep).map(|s| s.to_string()).collect();
            assert_eq!(translate(&text, sep), expected, "{:?} at {:?}", text, sep);
        }
    }
}

#[test]
fn trie_agrees_with_a_map_of_paths() {
    let names = ["a", "b", "ab", "", "\u{e9}", "z", "B"];
    let mut seed = 5u64;
    let mut trie = Trie::new();
    let mut map: std::collections::BTreeMap<Vec<String>, u32> = std::collections::BTreeMap::new();
    for round in 0..600u32 {
        let mut path: Vec<String> = Vec::new();
        seed = seed.wrapping_mul(6364136223846793005).wrapping_add(1442695040888963407);
        let depth = 1 + (seed >> 33) as usize % 4;
        for _ in 0..depth {
            seed = seed.wrapping_mul(6364136223846793005).wrapping_add(1442695040888963407);
            path.push(names[(seed >> 33) as usize % names.len()].to_string());
        }
        if round % 3 == 0 {
            trie.set(path.iter().cloned().collect(), round);
            map.insert(path.clone(), round);
        }
        let found = trie.get(path.iter().cloned().collect());
        let is_node = map.keys().any(|k| k.len() >= path.len() && k[..path.len()] == path[..]);
        assert_eq!(found.is_some(), is_node, "{:?}", path);
        assert_eq!(found.and_then(|t| t.value()), map.get(&path), "{:?}", path);
    }
}
