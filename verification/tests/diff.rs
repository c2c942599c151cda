use rdiff::diff::{diff, lcs, reconstruct, DiffLine};
use rdiff::grid::Grid;

#[test]
fn test_lcs() {
    let mut expected = Grid::new(5, 4);
    expected.set(1, 1, 1).unwrap();
    expected.set(1, 2, 1).unwrap();
    expected.set(1, 3, 1).unwrap();
    expected.set(2, 1, 1).unwrap();
    expected.set(2, 2, 1).unwrap();
    expected.set(2, 3, 2).unwrap();
    expected.set(3, 1, 1).unwrap();
    expected.set(3, 2, 1).unwrap();
    expected.set(3, 3, 2).unwrap();
    expected.set(4, 1, 1).unwrap();
    expected.set(4, 2, 2).unwrap();
    expected.set(4, 3, 2).unwrap();

    println!("Expected:\n{}", expected.render());
    let result = lcs(
        &"abcd".chars().map(|c| c.to_string()).collect(),
        &"adb".chars().map(|c| c.to_string()).collect(),
    );
    println!("Got:\n{}", result.render());
    assert_eq!(result.size(), expected.size());
    for row in 0..expected.size().0 {
        for col in 0..expected.size().1 {
            assert_eq!(result.get(row, col), expected.get(row, col));
        }
    }
}

#[test]
fn table_monotone_scenario() {
    let a: Vec<String> = "abcd".chars().map(|c| c.to_string()).collect();
    let b: Vec<String> = "adb".chars().map(|c| c.to_string()).collect();
    let table = lcs(&a, &b);
    for i in 1..5 {
        for j in 1..4 {
            assert!(table.get(i, j).unwrap() >= table.get(i - 1, j).unwrap());
            assert!(table.get(i, j).unwrap() >= table.get(i, j - 1).unwrap());
        }
    }
}

#[test]
fn diff_tie_break_scenario() {
    let a: Vec<String> = "abcd".chars().map(|c| c.to_string()).collect();
    let b: Vec<String> = "adb".chars().map(|c| c.to_string()).collect();
    let table = lcs(&a, &b);
    // the LCS of "abcd" and "adb" has length 2
    assert_eq!(table.get(4, 3), Some(2));
    let out = reconstruct(&table, &a, &b, 4, 3);
    assert_eq!(
        out,
        vec![
            DiffLine::Unchanged("a".to_string()),
            DiffLine::Removed("b".to_string()),
            DiffLine::Removed("c".to_string()),
            DiffLine::Unchanged("d".to_string()),
            DiffLine::Added("b".to_string()),
        ]
    );
    assert_eq!(diff(&a, &b), out);
}

#[test]
fn diff_covers_every_line() {
    let a: Vec<String> = vec!["one".to_string(), "two".to_string(), "three".to_string()];
    let b: Vec<String> = vec!["two".to_string(), "four".to_string()];
    let out = diff(&a, &b);
    let mut from_a: Vec<String> = Vec::new();
    let mut from_b: Vec<String> = Vec::new();
    for line in out {
        match line {
            DiffLine::Unchanged(l) => {
                from_a.push(l.clone());
                from_b.push(l);
            }
            DiffLine::Removed(l) => from_a.push(l),
            DiffLine::Added(l) => from_b.push(l),
        }
    }
    assert_eq!(from_a, a);
    assert_eq!(from_b, b);
}

#[test]
fn diff_self_unchanged() {
    let a: Vec<String> = vec!["alpha".to_string(), "beta".to_string(), "gamma".to_string()];
    let out = diff(&a, &a);
    assert_eq!(
        out,
        vec![
            DiffLine::Unchanged("alpha".to_string()),
            DiffLine::Unchanged("beta".to_string()),
            DiffLine::Unchanged("gamma".to_string()),
        ]
    );
}

#[test]
fn diff_empty_first() {
    let a: Vec<String> = Vec::new();
    let b: Vec<String> = vec!["x".to_string(), "y".to_string()];
    let out = diff(&a, &b);
    assert_eq!(
        out,
        vec![DiffLine::Added("x".to_string()), DiffLine::Added("y".to_string())]
    );
}

#[test]
fn diff_empty_second() {
    let a: Vec<String> = vec!["x".to_string(), "y".to_string()];
    let b: Vec<String> = Vec::new();
    let out = diff(&a, &b);
    assert_eq!(
        out,
        vec![DiffLine::Removed("x".to_string()), DiffLine::Removed("y".to_string())]
    );
}

#[test]
fn diff_both_empty() {
    let a: Vec<String> = Vec::new();
    let b: Vec<String> = Vec::new();
    let out = diff(&a, &b);
    assert!(out.is_empty());
}
