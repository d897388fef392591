use fuzzy_automata::levenshtein::{distance, Machine, Table};

#[test]
fn identity() {
    assert_eq!(0, distance("koi", "koi"))
}

#[test]
fn replace() {
    assert_eq!(1, distance("koi", "zoi"))
}

#[test]
fn insert() {
    assert_eq!(1, distance("koi", "kooi"))
}

#[test]
fn delete() {
    assert_eq!(1, distance("koi", "ki"))
}

#[test]
fn distance_edges() {
    assert_eq!(0, distance("", ""));
    assert_eq!(3, distance("", "abc"));
    assert_eq!(3, distance("abc", ""));
    assert_eq!(3, distance("abc", "xyz"));
    assert_eq!(1, distance("a", "b"));
    assert_eq!(3, distance("kitten", "sitting"));
    assert_eq!(2, distance("ab", "ba"));
}

#[test]
fn table_cells() {
    let mut table = Table::new(2, 3);
    assert_eq!(6, table.len());
    assert_eq!(2, table.width());
    assert_eq!(3, table.height());
    assert_eq!(0, table.get(1, 2));
    table.set(1, 2, 100);
    assert_eq!(100, table.get(1, 2));
    assert_eq!(0, table.get(0, 2));
    assert_eq!(0, table.get(1, 1));
}

#[test]
fn basic() {
    assert_eq!(1, distance("zoi", "koi"));
    let m = Machine::new("zoi", 2);
    assert!(m.contains("zoi"));
    assert!(m.contains("koi"));
    // one substitution and one deletion: within two edits
    assert!(m.contains("ko"));
    assert!(!m.contains("k"));
}

#[test]
fn all_kind() {
    let m = Machine::new("java", 3);
    assert!(m.contains("ja"));
    assert!(m.contains("kav"));
    assert!(m.contains("kava"));
    // two substitutions: within three edits
    assert!(m.contains("kara"));
    assert!(!m.contains("kxrxa"));
}

#[test]
fn exact_match_only() {
    let m = Machine::new("koi", 0);
    assert!(m.contains("koi"));
    assert!(!m.contains("koj"));
    assert!(!m.contains("ko"));
}

#[test]
fn one_edit() {
    let m = Machine::new("koi", 1);
    assert!(m.contains("kooi"));
    assert!(m.contains("ki"));
    assert!(m.contains("zoi"));
    assert!(!m.contains("abc"));
}

#[test]
fn three_edits() {
    let m = Machine::new("java", 3);
    assert!(m.contains("ja"));
    assert!(m.contains("kava"));
}

#[test]
fn empty_pattern() {
    let m = Machine::new("", 0);
    assert!(m.contains(""));
    assert!(!m.contains("x"));
    let m = Machine::new("", 2);
    assert!(m.contains("xy"));
    assert!(!m.contains("xyz"));
}

#[test]
fn larger_bound_accepts_more() {
    let words = ["koi", "zoi", "ko", "abc", "kooi", "k", "", "xkoix"];
    for k in 0..4 {
        let m = Machine::new("koi", k);
        let wider = Machine::new("koi", k + 1);
        for w in words {
            if m.contains(w) {
                assert!(wider.contains(w));
            }
        }
    }
    assert!(!Machine::new("koi", 0).contains("zoi"));
    assert!(Machine::new("koi", 1).contains("zoi"));
}

#[test]
fn automaton_agrees_with_distance() {
    let words = ["koi", "zoi", "ko", "abc", "kooi", "k", "", "koix", "xkoi", "iok", "java", "kara"];
    for p in ["koi", "java", ""] {
        for k in 0..4 {
            let m = Machine::new(p, k);
            for w in words {
                assert_eq!(distance(p, w) <= k, m.contains(w), "{} {} {}", p, k, w);
            }
        }
    }
}
