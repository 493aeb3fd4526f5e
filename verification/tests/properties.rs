use seqalign::{EditOperation, Matrix, SeqPair};
use seqalign::levensthein;

fn unit_distance(a: &[char], b: &[char]) -> usize {
    Matrix::align(&levensthein(1, 1, 1), a, b).distance()
}

#[test]
fn symmetry_test() {
    let a: Vec<char> = "flaw".chars().collect();
    let b: Vec<char> = "lawn".chars().collect();
    assert_eq!(unit_distance(&a, &b), unit_distance(&b, &a));
    assert_eq!(unit_distance(&a, &b), 2);
}

#[test]
fn self_distance_test() {
    let a: Vec<char> = "banana".chars().collect();
    assert_eq!(unit_distance(&a, &a), 0);
    let ops = levensthein(4, 2, 3);
    assert_eq!(Matrix::align(&ops, &a, &a).distance(), 0);
}

#[test]
fn weighted_empty_test() {
    let a: Vec<char> = "abc".chars().collect();
    let empty: &[char] = &[];
    // substitute 1, insert 2, delete 3
    let ops = levensthein(1, 2, 3);
    assert_eq!(Matrix::align(&ops, &a, empty).distance(), 3 * 3);
    assert_eq!(Matrix::align(&ops, empty, &a).distance(), 3 * 2);
}

#[test]
fn weighted_distance_test() {
    let ab: Vec<char> = "ab".chars().collect();
    let abc: Vec<char> = "abc".chars().collect();
    let a: Vec<char> = "a".chars().collect();
    let b: Vec<char> = "b".chars().collect();
    let ops = levensthein(1, 2, 3);
    assert_eq!(Matrix::align(&ops, &ab, &abc).distance(), 2);
    assert_eq!(Matrix::align(&ops, &abc, &ab).distance(), 3);
    assert_eq!(Matrix::align(&ops, &a, &b).distance(), 1);
}

#[test]
fn triangle_test() {
    let a: Vec<char> = "kitten".chars().collect();
    let b: Vec<char> = "mitten".chars().collect();
    let c: Vec<char> = "sitting".chars().collect();
    let ab = unit_distance(&a, &b);
    let bc = unit_distance(&b, &c);
    let ac = unit_distance(&a, &c);
    assert!(ac <= ab + bc);
    assert_eq!(ac, 3);
}

#[test]
fn script_cost_and_output_test() {
    let source: Vec<char> = "sunday".chars().collect();
    let target: Vec<char> = "saturday".chars().collect();
    let ops = levensthein(1, 1, 1);
    let m = Matrix::align(&ops, &source, &target);
    let script = m.edit_script().unwrap();

    // The script's total cost is the distance.
    let total: usize = script.iter().map(|op| op.cost()).sum();
    assert_eq!(total, m.distance());
    assert_eq!(m.distance(), 3);

    // Applying the script to the source produces the target.
    let mut out: Vec<char> = Vec::new();
    let mut si = 0;
    let mut ti = 0;
    for op in &script {
        match op {
            EditOperation::Match { .. } => {
                assert_eq!(source[si], target[ti]);
                out.push(source[si]);
                si += 1;
                ti += 1;
            }
            EditOperation::Substitute { .. } => {
                assert_ne!(source[si], target[ti]);
                out.push(target[ti]);
                si += 1;
                ti += 1;
            }
            EditOperation::Insert { .. } => {
                out.push(target[ti]);
                ti += 1;
            }
            EditOperation::Delete { .. } => {
                si += 1;
            }
        }
    }
    assert_eq!(si, source.len());
    assert_eq!(ti, target.len());
    assert_eq!(out, target);
}

#[test]
fn operation_labels_test() {
    assert_eq!(EditOperation::Match { cost: 0 }.label(), "match");
    assert_eq!(EditOperation::Substitute { cost: 1 }.label(), "substitute");
    assert_eq!(EditOperation::Insert { cost: 1 }.label(), "insert");
    assert_eq!(EditOperation::Delete { cost: 1 }.label(), "delete");
    assert_eq!(EditOperation::Substitute { cost: 7 }.cost(), 7);
}

#[test]
fn operation_backtrack_test() {
    assert_eq!(EditOperation::Match { cost: 0 }.backtrack(3, 2), Some((2, 1)));
    assert_eq!(EditOperation::Match { cost: 0 }.backtrack(3, 0), None);
    assert_eq!(EditOperation::Insert { cost: 1 }.backtrack(3, 2), Some((3, 1)));
    assert_eq!(EditOperation::Insert { cost: 1 }.backtrack(3, 0), None);
    assert_eq!(EditOperation::Delete { cost: 1 }.backtrack(3, 2), Some((2, 2)));
    assert_eq!(EditOperation::Delete { cost: 1 }.backtrack(0, 2), None);
    assert_eq!(EditOperation::Substitute { cost: 1 }.backtrack(0, 0), None);
}

#[test]
fn operation_set_apply_test() {
    let source: Vec<char> = "ab".chars().collect();
    let target: Vec<char> = "b".chars().collect();
    let ops = levensthein(1, 1, 1);
    let m = Matrix::align(&ops, &source, &target);
    // No operation applies at the origin.
    assert_eq!(ops.apply(&m, 0, 0), None);
    // Recomputing filled cells reproduces their values.
    assert_eq!(ops.apply(&m, 0, 1), Some(1));
    assert_eq!(ops.apply(&m, 1, 1), Some(1));
    assert_eq!(ops.apply(&m, 2, 1), Some(1));
}

#[test]
fn operation_set_backtrack_test() {
    let source: Vec<char> = "ab".chars().collect();
    let target: Vec<char> = "b".chars().collect();
    let ops = levensthein(1, 1, 1);
    let m = Matrix::align(&ops, &source, &target);
    // Backtracking from the origin finds nothing.
    assert_eq!(ops.backtrack(&m, 0, 0), None);
    // The final cell was produced by matching 'b'.
    assert_eq!(ops.backtrack(&m, 2, 1), Some(EditOperation::Match { cost: 0 }));
    // Cell (1, 0) can only come from a deletion.
    assert_eq!(ops.backtrack(&m, 1, 0), Some(EditOperation::Delete { cost: 1 }));
    // Cell (1, 1) was produced by substituting 'b' for 'a'.
    assert_eq!(ops.backtrack(&m, 1, 1), Some(EditOperation::Substitute { cost: 1 }));
}

#[test]
fn apply_at_test() {
    let source: Vec<char> = "ab".chars().collect();
    let target: Vec<char> = "b".chars().collect();
    let ops = levensthein(1, 1, 1);
    let m = Matrix::align(&ops, &source, &target);
    assert_eq!(EditOperation::Match { cost: 0 }.apply_at(&m, 1, 1), None);
    assert_eq!(EditOperation::Substitute { cost: 1 }.apply_at(&m, 1, 1), Some(1));
    assert_eq!(EditOperation::Insert { cost: 1 }.apply_at(&m, 1, 1), Some(2));
    assert_eq!(EditOperation::Delete { cost: 1 }.apply_at(&m, 1, 1), Some(2));
    assert_eq!(EditOperation::Match { cost: 0 }.apply_at(&m, 2, 1), Some(1));
}

#[test]
fn seq_pair_new_test() {
    let source: Vec<u8> = vec![1, 2, 3];
    let target: Vec<u8> = vec![2, 3];
    let pair = SeqPair::new(&source, &target);
    assert_eq!(pair.source_len(), 3);
    assert_eq!(pair.target_len(), 2);
    assert_eq!(pair.source[0], 1);
    assert_eq!(pair.target[1], 3);
}
