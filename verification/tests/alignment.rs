use seqalign::{EditOperations, Matrix};
use seqalign::levensthein;

fn edit_script_str<T: Eq>(ops: &EditOperations, seq1: &[T], seq2: &[T]) -> Vec<String> {
    Matrix::align(ops, seq1, seq2)
        .edit_script()
        .unwrap()
        .iter()
        .map(|op| op.label().to_string())
        .collect()
}

#[test]
fn distance_test() {
    let applet: Vec<char> = "applet".chars().collect();
    let pineapple: Vec<char> = "pineapple".chars().collect();
    let pen: Vec<char> = "pen".chars().collect();

    assert_eq!(
        Matrix::align(&levensthein(1, 1, 1), &pineapple, &pen).distance(),
        7
    );
    assert_eq!(
        Matrix::align(&levensthein(1, 1, 1), &pen, &pineapple).distance(),
        7
    );
    assert_eq!(
        Matrix::align(&levensthein(1, 1, 1), &pineapple, &applet).distance(),
        5
    );
    assert_eq!(
        Matrix::align(&levensthein(1, 1, 1), &applet, &pen).distance(),
        4
    );
}

#[test]
fn edit_script_test() {
    let applet: Vec<char> = "applet".chars().collect();
    let pineapple: Vec<char> = "pineapple".chars().collect();
    let pen: Vec<char> = "pen".chars().collect();

    let ops = levensthein(1, 1, 1);

    assert_eq!(
        edit_script_str(&ops, &pineapple, &pen),
        vec![
            "match",
            "substitute",
            "match",
            "delete",
            "delete",
            "delete",
            "delete",
            "delete",
            "delete",
        ]
    );

    assert_eq!(
        edit_script_str(&ops, &pen, &pineapple),
        vec![
            "match",
            "substitute",
            "match",
            "insert",
            "insert",
            "insert",
            "insert",
            "insert",
            "insert",
        ]
    );

    assert_eq!(
        edit_script_str(&ops, &pineapple, &applet),
        vec![
            "delete", "delete", "delete", "delete", "match", "match", "match", "match",
            "match", "insert",
        ]
    );
}

#[test]
fn align_empty_test() {
    let empty: &[char] = &[];
    let non_empty: Vec<char> = "hello".chars().collect();

    assert_eq!(
        Matrix::align(&levensthein(1, 1, 1), empty, empty).distance(),
        0
    );
    assert_eq!(
        Matrix::align(&levensthein(1, 1, 1), non_empty.as_slice(), empty).distance(),
        5
    );
    assert_eq!(
        Matrix::align(&levensthein(1, 1, 1), empty, non_empty.as_slice()).distance(),
        5
    );
}

#[test]
fn empty_script_test() {
    let empty: &[char] = &[];
    let ops = levensthein(1, 1, 1);
    let script = Matrix::align(&ops, empty, empty).edit_script().unwrap();
    assert!(script.is_empty());
}

#[test]
fn matrix_test() {
    let source: Vec<char> = "ab".chars().collect();
    let target: Vec<char> = "b".chars().collect();
    let ops = levensthein(1, 1, 1);
    let m = Matrix::align(&ops, &source, &target);
    assert_eq!(m.matrix(), &vec![vec![0, 1], vec![1, 1], vec![2, 1]]);
    assert_eq!(m.distance(), 1);
}

#[test]
fn seq_pair_test() {
    let source: Vec<char> = "ab".chars().collect();
    let target: Vec<char> = "b".chars().collect();
    let ops = levensthein(1, 1, 1);
    let m = Matrix::align(&ops, &source, &target);
    let pair = m.seq_pair();
    assert_eq!(pair.source, source.as_slice());
    assert_eq!(pair.target, target.as_slice());
    assert_eq!(pair.source_len(), 2);
    assert_eq!(pair.target_len(), 1);
}
