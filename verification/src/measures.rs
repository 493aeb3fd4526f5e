use vstd::prelude::*;

use crate::ops::cell_min;
use crate::ops::cell_value;
use crate::ops::complete;
use crate::ops::op_applicable;
use crate::ops::EditOperation;
use crate::ops::EditOperations;

verus! {

/// The smaller of two costs.
pub open spec fn nat_min(x: nat, y: nat) -> nat {
    if x <= y {
        x
    } else {
        y
    }
}

/// The operations of the standard Levenshtein configuration, in the order
/// `levensthein` declares them.
pub open spec fn levensthein_ops(
    substitute_cost: usize,
    insert_cost: usize,
    delete_cost: usize,
) -> Seq<EditOperation> {
    seq![
        EditOperation::Match { cost: 0 },
        EditOperation::Insert { cost: insert_cost },
        EditOperation::Delete { cost: delete_cost },
        EditOperation::Substitute { cost: substitute_cost },
    ]
}

/// The classic recursive form of the weighted Levenshtein distance: matches
/// are free, and the distance of two non-empty sequences is the cheapest of
/// a diagonal step, an insertion and a deletion on shorter sequences.
pub open spec fn levenshtein_distance<T>(
    a: Seq<T>,
    b: Seq<T>,
    sub_cost: nat,
    ins_cost: nat,
    del_cost: nat,
) -> nat
    decreases a.len() + b.len(),
{
    if a.len() == 0 {
        b.len() * ins_cost
    } else if b.len() == 0 {
        a.len() * del_cost
    } else {
        let diag = (if a.last() == b.last() {
            0nat
        } else {
            sub_cost
        }) + levenshtein_distance(a.drop_last(), b.drop_last(), sub_cost, ins_cost, del_cost);
        let ins = ins_cost + levenshtein_distance(a, b.drop_last(), sub_cost, ins_cost, del_cost);
        let del = del_cost + levenshtein_distance(a.drop_last(), b, sub_cost, ins_cost, del_cost);
        nat_min(diag, nat_min(ins, del))
    }
}

/// Build the standard Levenshtein operation set: a free match, then insert,
/// delete and substitute with the given costs.  The classic unit-cost
/// distance is `levensthein(1, 1, 1)`.
pub fn levensthein(substitute_cost: usize, insert_cost: usize, delete_cost: usize) -> (r:
    EditOperations)
    ensures
        r@ == levensthein_ops(substitute_cost, insert_cost, delete_cost),
        complete(r@),
{
    let mut v: Vec<EditOperation> = Vec::new();
    v.push(EditOperation::Match { cost: 0 });
    v.push(EditOperation::Insert { cost: insert_cost });
    v.push(EditOperation::Delete { cost: delete_cost });
    v.push(EditOperation::Substitute { cost: substitute_cost });
    proof {
        assert(v@ =~= levensthein_ops(substitute_cost, insert_cost, delete_cost));
        assert(v@[1] is Insert);
        assert(v@[2] is Delete);
    }
    EditOperations::new(v)
}

/// The cost matrix of the Levenshtein configuration computes the classic
/// recursive distance: cell `(i, j)` holds the distance of the length-`i`
/// source prefix and the length-`j` target prefix.
pub proof fn lemma_levensthein_cell<T>(
    substitute_cost: usize,
    insert_cost: usize,
    delete_cost: usize,
    a: Seq<T>,
    b: Seq<T>,
    i: int,
    j: int,
)
    requires
        0 <= i <= a.len(),
        0 <= j <= b.len(),
    ensures
        cell_value(levensthein_ops(substitute_cost, insert_cost, delete_cost), a, b, i, j)
            == levenshtein_distance(
            a.take(i),
            b.take(j),
            substitute_cost as nat,
            insert_cost as nat,
            delete_cost as nat,
        ),
    decreases i + j,
{
    let ops = levensthein_ops(substitute_cost, insert_cost, delete_cost);
    let sc = substitute_cost as nat;
    let ic = insert_cost as nat;
    let dc = delete_cost as nat;
    assert(ops.len() == 4);
    assert(a.take(i).len() == i);
    assert(b.take(j).len() == j);
    if i == 0 && j == 0 {
        assert(levenshtein_distance(a.take(0), b.take(0), sc, ic, dc) == 0);
    } else if i == 0 {
        lemma_levensthein_cell(substitute_cost, insert_cost, delete_cost, a, b, 0, j - 1);
        assert(!op_applicable(ops[0], a, b, i, j));
        assert(op_applicable(ops[1], a, b, i, j));
        assert(!op_applicable(ops[2], a, b, i, j));
        assert(!op_applicable(ops[3], a, b, i, j));
        assert(cell_min(ops, a, b, i, j, 0) is None);
        assert(cell_min(ops, a, b, i, j, 1) is None);
        assert(cell_min(ops, a, b, i, j, 2) == Some((ic + cell_value(ops, a, b, 0, j - 1)) as nat));
        assert(cell_min(ops, a, b, i, j, 3) == cell_min(ops, a, b, i, j, 2));
        assert(cell_min(ops, a, b, i, j, 4) == cell_min(ops, a, b, i, j, 2));
        assert(cell_value(ops, a, b, 0, j) == ic + cell_value(ops, a, b, 0, j - 1));
        assert(b.take(j - 1).len() == j - 1);
        assert(levenshtein_distance(a.take(0), b.take(j - 1), sc, ic, dc) == (j - 1) * ic);
        assert(levenshtein_distance(a.take(0), b.take(j), sc, ic, dc) == j * ic);
        assert(ic + (j - 1) * ic == j * ic) by (nonlinear_arith);
    } else if j == 0 {
        lemma_levensthein_cell(substitute_cost, insert_cost, delete_cost, a, b, i - 1, 0);
        assert(!op_applicable(ops[0], a, b, i, j));
        assert(!op_applicable(ops[1], a, b, i, j));
        assert(op_applicable(ops[2], a, b, i, j));
        assert(!op_applicable(ops[3], a, b, i, j));
        assert(cell_min(ops, a, b, i, j, 0) is None);
        assert(cell_min(ops, a, b, i, j, 1) is None);
        assert(cell_min(ops, a, b, i, j, 2) is None);
        assert(cell_min(ops, a, b, i, j, 3) == Some((dc + cell_value(ops, a, b, i - 1, 0)) as nat));
        assert(cell_min(ops, a, b, i, j, 4) == cell_min(ops, a, b, i, j, 3));
        assert(cell_value(ops, a, b, i, 0) == dc + cell_value(ops, a, b, i - 1, 0));
        assert(a.take(i - 1).len() == i - 1);
        assert(levenshtein_distance(a.take(i - 1), b.take(0), sc, ic, dc) == (i - 1) * dc);
        assert(levenshtein_distance(a.take(i), b.take(0), sc, ic, dc) == i * dc);
        assert(dc + (i - 1) * dc == i * dc) by (nonlinear_arith);
    } else {
        lemma_levensthein_cell(substitute_cost, insert_cost, delete_cost, a, b, i - 1, j - 1);
        lemma_levensthein_cell(substitute_cost, insert_cost, delete_cost, a, b, i, j - 1);
        lemma_levensthein_cell(substitute_cost, insert_cost, delete_cost, a, b, i - 1, j);
        let ta = a.take(i);
        let tb = b.take(j);
        assert(ta.last() == a[i - 1]);
        assert(tb.last() == b[j - 1]);
        assert(ta.drop_last() =~= a.take(i - 1));
        assert(tb.drop_last() =~= b.take(j - 1));
        assert(ta.drop_last() == a.take(i - 1) && tb.drop_last() == b.take(j - 1));
        let diag = (if a[i - 1] == b[j - 1] {
            0nat
        } else {
            sc
        }) + cell_value(ops, a, b, i - 1, j - 1);
        let ins = ic + cell_value(ops, a, b, i, j - 1);
        let del = dc + cell_value(ops, a, b, i - 1, j);
        assert(levenshtein_distance(ta, tb, sc, ic, dc) == nat_min(diag, nat_min(ins, del)));
        assert(op_applicable(ops[1], a, b, i, j));
        assert(op_applicable(ops[2], a, b, i, j));
        if a[i - 1] == b[j - 1] {
            assert(op_applicable(ops[0], a, b, i, j));
            assert(!op_applicable(ops[3], a, b, i, j));
            assert(cell_min(ops, a, b, i, j, 0) is None);
            assert(cell_min(ops, a, b, i, j, 1) == Some(
                (0 + cell_value(ops, a, b, i - 1, j - 1)) as nat,
            ));
            assert(cell_min(ops, a, b, i, j, 2) == Some(nat_min(ins, diag)));
            assert(cell_min(ops, a, b, i, j, 3) == Some(nat_min(del, nat_min(ins, diag))));
            assert(cell_min(ops, a, b, i, j, 4) == cell_min(ops, a, b, i, j, 3));
            assert(cell_value(ops, a, b, i, j) == nat_min(del, nat_min(ins, diag)));
        } else {
            assert(!op_applicable(ops[0], a, b, i, j));
            assert(op_applicable(ops[3], a, b, i, j));
            assert(cell_min(ops, a, b, i, j, 0) is None);
            assert(cell_min(ops, a, b, i, j, 1) is None);
            assert(cell_min(ops, a, b, i, j, 2) == Some(ins));
            assert(cell_min(ops, a, b, i, j, 3) == Some(nat_min(del, ins)));
            assert(cell_min(ops, a, b, i, j, 4) == Some(nat_min(diag, nat_min(del, ins))));
            assert(cell_value(ops, a, b, i, j) == nat_min(diag, nat_min(del, ins)));
        }
    }
}

/// The final cell of the Levenshtein configuration's matrix — the value
/// `Matrix::distance` returns — is the classic recursive distance of the two
/// sequences themselves.
pub proof fn lemma_levensthein_distance<T>(
    substitute_cost: usize,
    insert_cost: usize,
    delete_cost: usize,
    a: Seq<T>,
    b: Seq<T>,
)
    ensures
        cell_value(
            levensthein_ops(substitute_cost, insert_cost, delete_cost),
            a,
            b,
            a.len() as int,
            b.len() as int,
        ) == levenshtein_distance(
            a,
            b,
            substitute_cost as nat,
            insert_cost as nat,
            delete_cost as nat,
        ),
{
    lemma_levensthein_cell(
        substitute_cost,
        insert_cost,
        delete_cost,
        a,
        b,
        a.len() as int,
        b.len() as int,
    );
    assert(a.take(a.len() as int) =~= a);
    assert(b.take(b.len() as int) =~= b);
}

/// Law: a sequence is at distance 0 from itself, whatever the costs are:
/// matching every element is free and always available along the diagonal.
pub proof fn lemma_distance_self<T>(a: Seq<T>, sub_cost: nat, ins_cost: nat, del_cost: nat)
    ensures
        levenshtein_distance(a, a, sub_cost, ins_cost, del_cost) == 0,
    decreases a.len(),
{
    if a.len() > 0 {
        lemma_distance_self(a.drop_last(), sub_cost, ins_cost, del_cost);
    }
}

/// Law: the distance to the empty sequence is the source length times the
/// deletion cost: only deletions apply.
pub proof fn lemma_distance_to_empty<T>(a: Seq<T>, sub_cost: nat, ins_cost: nat, del_cost: nat)
    ensures
        levenshtein_distance(a, Seq::empty(), sub_cost, ins_cost, del_cost) == a.len() * del_cost,
{
}

/// Law: the distance from the empty sequence is the target length times the
/// insertion cost: only insertions apply.
pub proof fn lemma_distance_from_empty<T>(b: Seq<T>, sub_cost: nat, ins_cost: nat, del_cost: nat)
    ensures
        levenshtein_distance(Seq::empty(), b, sub_cost, ins_cost, del_cost) == b.len() * ins_cost,
{
}

/// Law: with one cost for insertion and deletion, the distance is symmetric:
/// every path from `a` to `b` mirrors to an equally expensive path from `b`
/// to `a` by swapping insertions and deletions.
pub proof fn lemma_distance_symmetric<T>(a: Seq<T>, b: Seq<T>, sub_cost: nat, indel_cost: nat)
    ensures
        levenshtein_distance(a, b, sub_cost, indel_cost, indel_cost) == levenshtein_distance(
            b,
            a,
            sub_cost,
            indel_cost,
            indel_cost,
        ),
    decreases a.len() + b.len(),
{
    if a.len() > 0 && b.len() > 0 {
        lemma_distance_symmetric(a.drop_last(), b.drop_last(), sub_cost, indel_cost);
        lemma_distance_symmetric(a, b.drop_last(), sub_cost, indel_cost);
        lemma_distance_symmetric(a.drop_last(), b, sub_cost, indel_cost);
    }
}

/// Unit-cost distance never exceeds deleting all of `a` and inserting all of
/// `b`.
proof fn lemma_unit_upper<T>(a: Seq<T>, b: Seq<T>)
    ensures
        levenshtein_distance(a, b, 1, 1, 1) <= a.len() + b.len(),
    decreases a.len() + b.len(),
{
    if a.len() > 0 && b.len() > 0 {
        lemma_unit_upper(a, b.drop_last());
    }
}

/// Unit-cost distance is at least the difference of the lengths: every
/// operation changes each length by at most one.
proof fn lemma_unit_lower<T>(a: Seq<T>, b: Seq<T>)
    ensures
        levenshtein_distance(a, b, 1, 1, 1) + a.len() >= b.len(),
        levenshtein_distance(a, b, 1, 1, 1) + b.len() >= a.len(),
    decreases a.len() + b.len(),
{
    if a.len() > 0 && b.len() > 0 {
        lemma_unit_lower(a.drop_last(), b.drop_last());
        lemma_unit_lower(a, b.drop_last());
        lemma_unit_lower(a.drop_last(), b);
    }
}

/// Removing the last source element costs at most one extra step.
proof fn lemma_unit_del_step<T>(a: Seq<T>, b: Seq<T>)
    requires
        a.len() > 0,
    ensures
        levenshtein_distance(a, b, 1, 1, 1) <= 1 + levenshtein_distance(
            a.drop_last(),
            b,
            1,
            1,
            1,
        ),
{
}

/// Law: the unit-cost distance satisfies the triangle inequality: editing
/// `a` into `c` is never more expensive than editing `a` into `b` and then
/// `b` into `c`.
pub proof fn lemma_distance_triangle<T>(a: Seq<T>, b: Seq<T>, c: Seq<T>)
    ensures
        levenshtein_distance(a, c, 1, 1, 1) <= levenshtein_distance(a, b, 1, 1, 1)
            + levenshtein_distance(b, c, 1, 1, 1),
    decreases a.len() + b.len() + c.len(),
{
    if b.len() == 0 {
        lemma_unit_upper(a, c);
    } else if a.len() == 0 {
        lemma_unit_lower(b, c);
    } else if c.len() == 0 {
        lemma_unit_lower(a, b);
    } else {
        lemma_distance_triangle(a.drop_last(), b.drop_last(), c.drop_last());
        lemma_distance_triangle(a, b, c.drop_last());
        lemma_distance_triangle(a, b.drop_last(), c);
        lemma_distance_triangle(a.drop_last(), b, c);
        lemma_distance_triangle(a, b.drop_last(), c.drop_last());
        lemma_unit_del_step(a, b.drop_last());
    }
}

/// Law, stated over the engine's cells: with one cost for insertion and
/// deletion, the distance `align` computes is symmetric in its sequences.
pub proof fn lemma_align_symmetric<T>(a: Seq<T>, b: Seq<T>, sub_cost: usize, indel_cost: usize)
    ensures
        cell_value(
            levensthein_ops(sub_cost, indel_cost, indel_cost),
            a,
            b,
            a.len() as int,
            b.len() as int,
        ) == cell_value(
            levensthein_ops(sub_cost, indel_cost, indel_cost),
            b,
            a,
            b.len() as int,
            a.len() as int,
        ),
{
    lemma_levensthein_distance(sub_cost, indel_cost, indel_cost, a, b);
    lemma_levensthein_distance(sub_cost, indel_cost, indel_cost, b, a);
    lemma_distance_symmetric(a, b, sub_cost as nat, indel_cost as nat);
}

/// Law, stated over the engine's cells: aligning a sequence with itself
/// costs nothing.
pub proof fn lemma_align_self<T>(
    a: Seq<T>,
    substitute_cost: usize,
    insert_cost: usize,
    delete_cost: usize,
)
    ensures
        cell_value(
            levensthein_ops(substitute_cost, insert_cost, delete_cost),
            a,
            a,
            a.len() as int,
            a.len() as int,
        ) == 0,
{
    lemma_levensthein_distance(substitute_cost, insert_cost, delete_cost, a, a);
    lemma_distance_self(a, substitute_cost as nat, insert_cost as nat, delete_cost as nat);
}

/// Law, stated over the engine's cells: aligning with the empty target
/// costs one deletion per source element.
pub proof fn lemma_align_to_empty<T>(
    a: Seq<T>,
    substitute_cost: usize,
    insert_cost: usize,
    delete_cost: usize,
)
    ensures
        cell_value(
            levensthein_ops(substitute_cost, insert_cost, delete_cost),
            a,
            Seq::empty(),
            a.len() as int,
            0,
        ) == a.len() * delete_cost,
{
    lemma_levensthein_distance(substitute_cost, insert_cost, delete_cost, a, Seq::empty());
}

/// Law, stated over the engine's cells: aligning from the empty source
/// costs one insertion per target element.
pub proof fn lemma_align_from_empty<T>(
    b: Seq<T>,
    substitute_cost: usize,
    insert_cost: usize,
    delete_cost: usize,
)
    ensures
        cell_value(
            levensthein_ops(substitute_cost, insert_cost, delete_cost),
            Seq::empty(),
            b,
            0,
            b.len() as int,
        ) == b.len() * insert_cost,
{
    lemma_levensthein_distance(substitute_cost, insert_cost, delete_cost, Seq::empty(), b);
}

/// Law, stated over the engine's cells: under unit costs, the distance
/// `align` computes satisfies the triangle inequality.
pub proof fn lemma_align_triangle<T>(a: Seq<T>, b: Seq<T>, c: Seq<T>)
    ensures
        cell_value(levensthein_ops(1, 1, 1), a, c, a.len() as int, c.len() as int) <= cell_value(
            levensthein_ops(1, 1, 1),
            a,
            b,
            a.len() as int,
            b.len() as int,
        ) + cell_value(levensthein_ops(1, 1, 1), b, c, b.len() as int, c.len() as int),
{
    lemma_levensthein_distance(1, 1, 1, a, b);
    lemma_levensthein_distance(1, 1, 1, b, c);
    lemma_levensthein_distance(1, 1, 1, a, c);
    lemma_distance_triangle(a, b, c);
}

} // verus!
