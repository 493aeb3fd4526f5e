use vstd::prelude::*;
use vstd::std_specs::cmp::PartialEqSpec;

verus! {

/// One edit operation, tagged with the cost it contributes to an alignment
/// path.  `Match` and `Substitute` consume one element of both sequences,
/// `Insert` consumes one target element, and `Delete` one source element.
#[derive(Clone, Copy, Debug, PartialEq, Eq, Structural)]
pub enum EditOperation {
    Match { cost: usize },
    Substitute { cost: usize },
    Insert { cost: usize },
    Delete { cost: usize },
}

/// The cost an operation adds to the value of the predecessor cell.
pub open spec fn op_cost(op: EditOperation) -> nat {
    match op {
        EditOperation::Match { cost } => cost as nat,
        EditOperation::Substitute { cost } => cost as nat,
        EditOperation::Insert { cost } => cost as nat,
        EditOperation::Delete { cost } => cost as nat,
    }
}

/// Whether the backward move of `op` stays inside the matrix when leaving
/// cell `(i, j)`.  This is a pure bounds condition; element equality is part
/// of `op_applicable`.
pub open spec fn op_moves(op: EditOperation, i: int, j: int) -> bool {
    match op {
        EditOperation::Match { .. } => i >= 1 && j >= 1,
        EditOperation::Substitute { .. } => i >= 1 && j >= 1,
        EditOperation::Insert { .. } => j >= 1,
        EditOperation::Delete { .. } => i >= 1,
    }
}

/// The predecessor cell reached when walking backward through `op` from
/// cell `(i, j)`.
pub open spec fn op_pred(op: EditOperation, i: int, j: int) -> (int, int) {
    match op {
        EditOperation::Match { .. } => (i - 1, j - 1),
        EditOperation::Substitute { .. } => (i - 1, j - 1),
        EditOperation::Insert { .. } => (i, j - 1),
        EditOperation::Delete { .. } => (i - 1, j),
    }
}

/// Whether `op` may produce cell `(i, j)` of the cost matrix for aligning
/// `a` (source) with `b` (target): the cell must lie in the matrix, the
/// backward move must stay inside it, and `Match` / `Substitute` ask for
/// equal / unequal elements at the cell's position.
pub open spec fn op_applicable<T>(
    op: EditOperation,
    a: Seq<T>,
    b: Seq<T>,
    i: int,
    j: int,
) -> bool {
    &&& 0 <= i <= a.len()
    &&& 0 <= j <= b.len()
    &&& op_moves(op, i, j)
    &&& match op {
        EditOperation::Match { .. } => a[i - 1] == b[j - 1],
        EditOperation::Substitute { .. } => a[i - 1] != b[j - 1],
        EditOperation::Insert { .. } => true,
        EditOperation::Delete { .. } => true,
    }
}

/// Minimum candidate value for cell `(i, j)` over the first `k` operations
/// of `ops`, or `None` when none of them is applicable there.  A candidate
/// is the operation's cost plus the value of the predecessor cell.
pub open spec fn cell_min<T>(
    ops: Seq<EditOperation>,
    a: Seq<T>,
    b: Seq<T>,
    i: int,
    j: int,
    k: int,
) -> Option<nat>
    decreases i + j, k,
{
    if k <= 0 {
        None
    } else {
        let prev = cell_min(ops, a, b, i, j, k - 1);
        if op_applicable(ops[k - 1], a, b, i, j) {
            let p: (int, int) = op_pred(ops[k - 1], i, j);
            let cand = op_cost(ops[k - 1]) + cell_value(ops, a, b, p.0, p.1);
            match prev {
                None => Some(cand),
                Some(v) => Some(if cand < v { cand } else { v }),
            }
        } else {
            prev
        }
    }
}

/// The value of cell `(i, j)`: the minimum cumulative cost of transforming
/// `a[0..i)` into `b[0..j)` using the operations of `ops`.  The origin is 0
/// by definition; a cell where no operation applies is left at 0, which the
/// engine rules out by requiring a complete operation set.
pub open spec fn cell_value<T>(
    ops: Seq<EditOperation>,
    a: Seq<T>,
    b: Seq<T>,
    i: int,
    j: int,
) -> nat
    decreases i + j, ops.len() + 1,
{
    if i == 0 && j == 0 {
        0
    } else {
        match cell_min(ops, a, b, i, j, ops.len() as int) {
            Some(v) => v,
            None => 0,
        }
    }
}

/// Whether `ops` holds at least one `Insert` operation.
pub open spec fn has_insert(ops: Seq<EditOperation>) -> bool {
    exists|k: int| 0 <= k < ops.len() && (#[trigger] ops[k]) is Insert
}

/// Whether `ops` holds at least one `Delete` operation.
pub open spec fn has_delete(ops: Seq<EditOperation>) -> bool {
    exists|k: int| 0 <= k < ops.len() && (#[trigger] ops[k]) is Delete
}

/// An operation set that reaches every cell of every matrix: with an insert
/// and a delete operation present, at least one operation applies at every
/// cell other than the origin.
pub open spec fn complete(ops: Seq<EditOperation>) -> bool {
    has_insert(ops) && has_delete(ops)
}

/// The largest cost among the operations of `ops`.
pub open spec fn max_cost(ops: Seq<EditOperation>) -> nat
    decreases ops.len(),
{
    if ops.len() == 0 {
        0
    } else {
        let rest = max_cost(ops.drop_last());
        if op_cost(ops.last()) > rest {
            op_cost(ops.last())
        } else {
            rest
        }
    }
}

/// The label of an operation, for diagnostics and test assertions.
pub open spec fn op_label(op: EditOperation) -> Seq<char> {
    match op {
        EditOperation::Match { .. } => "match"@,
        EditOperation::Substitute { .. } => "substitute"@,
        EditOperation::Insert { .. } => "insert"@,
        EditOperation::Delete { .. } => "delete"@,
    }
}

impl EditOperation {
    /// The cost this operation adds to the value of its predecessor cell.
    pub fn cost(&self) -> (cost: usize)
        ensures
            cost as nat == op_cost(*self),
    {
        match *self {
            EditOperation::Match { cost } => cost,
            EditOperation::Substitute { cost } => cost,
            EditOperation::Insert { cost } => cost,
            EditOperation::Delete { cost } => cost,
        }
    }

    /// The operation's label.
    pub fn label(&self) -> (label: &'static str)
        ensures
            label@ == op_label(*self),
    {
        match *self {
            EditOperation::Match { .. } => "match",
            EditOperation::Substitute { .. } => "substitute",
            EditOperation::Insert { .. } => "insert",
            EditOperation::Delete { .. } => "delete",
        }
    }

    /// The predecessor cell implied by arriving at `(i, j)` through this
    /// operation, or `None` when the backward move would leave the matrix
    /// (an insert cannot move backward when `j` is 0, for example).  When a
    /// predecessor exists it is strictly closer to the origin.
    pub fn backtrack(&self, i: usize, j: usize) -> (pred: Option<(usize, usize)>)
        ensures
            match pred {
                Some(p) => {
                    &&& op_moves(*self, i as int, j as int)
                    &&& (p.0 as int, p.1 as int) == op_pred(*self, i as int, j as int)
                    &&& p.0 + p.1 < i + j
                },
                None => !op_moves(*self, i as int, j as int),
            },
    {
        match *self {
            EditOperation::Match { .. } => {
                if i >= 1 && j >= 1 {
                    Some((i - 1, j - 1))
                } else {
                    None
                }
            },
            EditOperation::Substitute { .. } => {
                if i >= 1 && j >= 1 {
                    Some((i - 1, j - 1))
                } else {
                    None
                }
            },
            EditOperation::Insert { .. } => {
                if j >= 1 {
                    Some((i, j - 1))
                } else {
                    None
                }
            },
            EditOperation::Delete { .. } => {
                if i >= 1 {
                    Some((i - 1, j))
                } else {
                    None
                }
            },
        }
    }
}

/// An ordered, immutable collection of candidate edit operations.  The order
/// is part of the set's identity: when several operations yield the same
/// minimum cost at a cell, the first-listed one is the one backtracking
/// follows.
pub struct EditOperations {
    ops: Vec<EditOperation>,
}

impl View for EditOperations {
    type V = Seq<EditOperation>;

    closed spec fn view(&self) -> Seq<EditOperation> {
        self.ops@
    }
}

impl EditOperations {
    /// Build an operation set from operations in declaration order.
    pub fn new(ops: Vec<EditOperation>) -> (r: EditOperations)
        ensures
            r@ == ops@,
    {
        EditOperations { ops }
    }

    /// The number of operations in the set.
    pub fn len(&self) -> (len: usize)
        ensures
            len == self@.len(),
    {
        self.ops.len()
    }

    /// The operation at position `k` in declaration order.
    pub fn op(&self, k: usize) -> (op: EditOperation)
        requires
            k < self@.len(),
        ensures
            op == self@[k as int],
    {
        self.ops[k]
    }
}

/// Every operation's cost is bounded by the set's maximum cost.
pub proof fn lemma_max_cost(ops: Seq<EditOperation>, k: int)
    requires
        0 <= k < ops.len(),
    ensures
        op_cost(ops[k]) <= max_cost(ops),
    decreases ops.len(),
{
    if k < ops.len() - 1 {
        lemma_max_cost(ops.drop_last(), k);
        assert(ops.drop_last()[k] == ops[k]);
    }
}

/// Whether the exec equality of `T` agrees with logical equality, so that a
/// comparison of two elements decides `Match` and `Substitute` applicability.
pub open spec fn eq_agrees<T: PartialEq>() -> bool {
    &&& T::obeys_eq_spec()
    &&& forall|x: T, y: T| (#[trigger] x.eq_spec(&y)) <==> x == y
}

/// The minimum over the first `k` operations is no larger than the candidate
/// of any applicable operation among them, and in particular it exists.
pub proof fn lemma_cell_min_le<T>(
    ops: Seq<EditOperation>,
    a: Seq<T>,
    b: Seq<T>,
    i: int,
    j: int,
    k: int,
    w: int,
)
    requires
        0 <= w < k <= ops.len(),
        op_applicable(ops[w], a, b, i, j),
    ensures
        cell_min(ops, a, b, i, j, k) matches Some(v) && v <= op_cost(ops[w]) + cell_value(
            ops,
            a,
            b,
            op_pred(ops[w], i, j).0,
            op_pred(ops[w], i, j).1,
        ),
    decreases k,
{
    if w < k - 1 {
        lemma_cell_min_le(ops, a, b, i, j, k - 1, w);
    }
}

/// A minimum reported over the first `k` operations is attained by one of
/// them.
pub proof fn lemma_cell_min_attained<T>(
    ops: Seq<EditOperation>,
    a: Seq<T>,
    b: Seq<T>,
    i: int,
    j: int,
    k: int,
)
    requires
        0 <= k <= ops.len(),
        cell_min(ops, a, b, i, j, k) is Some,
    ensures
        exists|w: int|
            {
                &&& 0 <= w < k
                &&& op_applicable(#[trigger] ops[w], a, b, i, j)
                &&& op_cost(ops[w]) + cell_value(
                    ops,
                    a,
                    b,
                    op_pred(ops[w], i, j).0,
                    op_pred(ops[w], i, j).1,
                ) == cell_min(ops, a, b, i, j, k)->Some_0
            },
    decreases k,
{
    let prev = cell_min(ops, a, b, i, j, k - 1);
    if op_applicable(ops[k - 1], a, b, i, j) {
        let p: (int, int) = op_pred(ops[k - 1], i, j);
        let cand = op_cost(ops[k - 1]) + cell_value(ops, a, b, p.0, p.1);
        match prev {
            None => {
                assert(op_applicable(ops[k - 1], a, b, i, j));
            },
            Some(v) => {
                if cand < v {
                    assert(op_applicable(ops[k - 1], a, b, i, j));
                } else {
                    lemma_cell_min_attained(ops, a, b, i, j, k - 1);
                }
            },
        }
    } else {
        lemma_cell_min_attained(ops, a, b, i, j, k - 1);
    }
}

/// In a complete operation set, some operation applies at every cell other
/// than the origin, so the cell's value is the reported minimum.
pub proof fn lemma_cell_has_candidate<T>(
    ops: Seq<EditOperation>,
    a: Seq<T>,
    b: Seq<T>,
    i: int,
    j: int,
)
    requires
        complete(ops),
        0 <= i <= a.len(),
        0 <= j <= b.len(),
        !(i == 0 && j == 0),
    ensures
        cell_min(ops, a, b, i, j, ops.len() as int) matches Some(v) && v == cell_value(
            ops,
            a,
            b,
            i,
            j,
        ),
{
    if i >= 1 {
        let w = choose|w: int| 0 <= w < ops.len() && (#[trigger] ops[w]) is Delete;
        assert(op_applicable(ops[w], a, b, i, j));
        lemma_cell_min_le(ops, a, b, i, j, ops.len() as int, w);
    } else {
        let w = choose|w: int| 0 <= w < ops.len() && (#[trigger] ops[w]) is Insert;
        assert(op_applicable(ops[w], a, b, i, j));
        lemma_cell_min_le(ops, a, b, i, j, ops.len() as int, w);
    }
}

/// With a complete operation set, the value of cell `(i, j)` is at most
/// `(i + j)` times the largest operation cost: every step of a cheapest path
/// moves at least one cell closer to the origin.
pub proof fn lemma_cell_bound<T>(
    ops: Seq<EditOperation>,
    a: Seq<T>,
    b: Seq<T>,
    i: int,
    j: int,
)
    requires
        complete(ops),
        0 <= i <= a.len(),
        0 <= j <= b.len(),
    ensures
        cell_value(ops, a, b, i, j) <= (i + j) * max_cost(ops),
    decreases i + j,
{
    if i == 0 && j == 0 {
        assert((i + j) * max_cost(ops) == 0);
    } else {
        let w = if i >= 1 {
            choose|w: int| 0 <= w < ops.len() && (#[trigger] ops[w]) is Delete
        } else {
            choose|w: int| 0 <= w < ops.len() && (#[trigger] ops[w]) is Insert
        };
        assert(op_applicable(ops[w], a, b, i, j));
        let p: (int, int) = op_pred(ops[w], i, j);
        lemma_cell_bound(ops, a, b, p.0, p.1);
        lemma_cell_min_le(ops, a, b, i, j, ops.len() as int, w);
        lemma_max_cost(ops, w);
        lemma_cell_has_candidate(ops, a, b, i, j);
        assert(p.0 + p.1 == i + j - 1);
        assert(cell_value(ops, a, b, i, j) <= max_cost(ops) + (i + j - 1) * max_cost(ops));
        assert(max_cost(ops) + (i + j - 1) * max_cost(ops) == (i + j) * max_cost(ops))
            by (nonlinear_arith);
    }
}

/// A candidate value computed at a cell fits in `usize` whenever the sum of
/// the sequence lengths times the largest cost does.
pub proof fn lemma_candidate_fits<T>(
    ops: Seq<EditOperation>,
    a: Seq<T>,
    b: Seq<T>,
    i: int,
    j: int,
    k: int,
)
    requires
        complete(ops),
        0 <= i <= a.len(),
        0 <= j <= b.len(),
        0 <= k < ops.len(),
        op_applicable(ops[k], a, b, i, j),
        (a.len() + b.len()) * max_cost(ops) <= usize::MAX,
    ensures
        op_cost(ops[k]) + cell_value(
            ops,
            a,
            b,
            op_pred(ops[k], i, j).0,
            op_pred(ops[k], i, j).1,
        ) <= usize::MAX,
        cell_value(ops, a, b, i, j) <= usize::MAX,
{
    let mc = max_cost(ops) as int;
    let p: (int, int) = op_pred(ops[k], i, j);
    assert(p.0 + p.1 <= i + j - 1);
    assert(0 <= p.0 <= a.len() && 0 <= p.1 <= b.len());
    lemma_cell_bound(ops, a, b, p.0, p.1);
    lemma_cell_bound(ops, a, b, i, j);
    lemma_max_cost(ops, k);
    vstd::arithmetic::mul::lemma_mul_inequality(p.0 + p.1, i + j - 1, mc);
    assert(cell_value(ops, a, b, p.0, p.1) as int <= (i + j - 1) * mc);
    assert(mc + (i + j - 1) * mc == (i + j) * mc) by (nonlinear_arith);
    vstd::arithmetic::mul::lemma_mul_inequality(i + j, (a.len() + b.len()) as int, mc);
    assert((i + j) * mc <= ((a.len() + b.len()) as int) * mc);
    assert(((a.len() + b.len()) as int) * mc <= usize::MAX);
}

/// Index of the first operation at position `k` or later whose candidate
/// value equals the value stored for cell `(i, j)`: the operation that
/// backtracking follows from that cell.
pub open spec fn bt_choice_from<T>(
    ops: Seq<EditOperation>,
    a: Seq<T>,
    b: Seq<T>,
    i: int,
    j: int,
    k: int,
) -> Option<int>
    decreases ops.len() - k,
{
    if k < 0 || k >= ops.len() {
        None
    } else if op_applicable(ops[k], a, b, i, j) && op_cost(ops[k]) + cell_value(
        ops,
        a,
        b,
        op_pred(ops[k], i, j).0,
        op_pred(ops[k], i, j).1,
    ) == cell_value(ops, a, b, i, j) {
        Some(k)
    } else {
        bt_choice_from(ops, a, b, i, j, k + 1)
    }
}

/// The operation backtracking follows from cell `(i, j)`: the first one, in
/// declaration order, that is applicable there and whose candidate equals
/// the cell's value.
pub open spec fn bt_choice<T>(
    ops: Seq<EditOperation>,
    a: Seq<T>,
    b: Seq<T>,
    i: int,
    j: int,
) -> Option<int> {
    bt_choice_from(ops, a, b, i, j, 0)
}

/// What a backtracking choice guarantees: an applicable operation whose
/// candidate equals the cell's value, and no earlier operation qualifies.
pub proof fn lemma_bt_choice_from_some<T>(
    ops: Seq<EditOperation>,
    a: Seq<T>,
    b: Seq<T>,
    i: int,
    j: int,
    k: int,
)
    requires
        bt_choice_from(ops, a, b, i, j, k) is Some,
    ensures
        bt_choice_from(ops, a, b, i, j, k) matches Some(w) && {
            &&& k <= w < ops.len()
            &&& op_applicable(ops[w], a, b, i, j)
            &&& op_cost(ops[w]) + cell_value(
                ops,
                a,
                b,
                op_pred(ops[w], i, j).0,
                op_pred(ops[w], i, j).1,
            ) == cell_value(ops, a, b, i, j)
        },
    decreases ops.len() - k,
{
    if !(k < 0 || k >= ops.len()) {
        if op_applicable(ops[k], a, b, i, j) && op_cost(ops[k]) + cell_value(
            ops,
            a,
            b,
            op_pred(ops[k], i, j).0,
            op_pred(ops[k], i, j).1,
        ) == cell_value(ops, a, b, i, j) {
        } else {
            lemma_bt_choice_from_some(ops, a, b, i, j, k + 1);
        }
    }
}

/// When some operation at position `w` or later qualifies, scanning from `w`
/// or earlier finds one.
pub proof fn lemma_bt_choice_from_finds<T>(
    ops: Seq<EditOperation>,
    a: Seq<T>,
    b: Seq<T>,
    i: int,
    j: int,
    k: int,
    w: int,
)
    requires
        0 <= k <= w < ops.len(),
        op_applicable(ops[w], a, b, i, j),
        op_cost(ops[w]) + cell_value(
            ops,
            a,
            b,
            op_pred(ops[w], i, j).0,
            op_pred(ops[w], i, j).1,
        ) == cell_value(ops, a, b, i, j),
    ensures
        bt_choice_from(ops, a, b, i, j, k) is Some,
    decreases w - k,
{
    if k < w {
        lemma_bt_choice_from_finds(ops, a, b, i, j, k + 1, w);
    }
}

/// With a complete operation set, backtracking succeeds at every cell other
/// than the origin.
pub proof fn lemma_bt_choice_some<T>(
    ops: Seq<EditOperation>,
    a: Seq<T>,
    b: Seq<T>,
    i: int,
    j: int,
)
    requires
        complete(ops),
        0 <= i <= a.len(),
        0 <= j <= b.len(),
        !(i == 0 && j == 0),
    ensures
        bt_choice(ops, a, b, i, j) is Some,
{
    lemma_cell_has_candidate(ops, a, b, i, j);
    lemma_cell_min_attained(ops, a, b, i, j, ops.len() as int);
    let w = choose|w: int|
        {
            &&& 0 <= w < ops.len()
            &&& op_applicable(#[trigger] ops[w], a, b, i, j)
            &&& op_cost(ops[w]) + cell_value(
                ops,
                a,
                b,
                op_pred(ops[w], i, j).0,
                op_pred(ops[w], i, j).1,
            ) == cell_min(ops, a, b, i, j, ops.len() as int)->Some_0
        };
    lemma_bt_choice_from_finds(ops, a, b, i, j, 0, w);
}

/// The edit script that backtracking reconstructs for cell `(i, j)`: the
/// operations of one cheapest path from the origin to the cell, in forward
/// application order.
pub open spec fn script_at<T>(
    ops: Seq<EditOperation>,
    a: Seq<T>,
    b: Seq<T>,
    i: int,
    j: int,
) -> Seq<EditOperation>
    decreases i + j,
    via script_at_decreases::<T>
{
    if i == 0 && j == 0 {
        Seq::empty()
    } else {
        match bt_choice(ops, a, b, i, j) {
            None => Seq::empty(),
            Some(k) => script_at(
                ops,
                a,
                b,
                op_pred(ops[k], i, j).0,
                op_pred(ops[k], i, j).1,
            ).push(ops[k]),
        }
    }
}

#[via_fn]
proof fn script_at_decreases<T>(ops: Seq<EditOperation>, a: Seq<T>, b: Seq<T>, i: int, j: int) {
    if !(i == 0 && j == 0) {
        match bt_choice(ops, a, b, i, j) {
            None => {},
            Some(k) => {
                lemma_bt_choice_from_some(ops, a, b, i, j, 0);
            },
        }
    }
}

/// The total cost of a script: the sum of its operations' costs.
pub open spec fn script_cost(s: Seq<EditOperation>) -> nat
    decreases s.len(),
{
    if s.len() == 0 {
        0
    } else {
        script_cost(s.drop_last()) + op_cost(s.last())
    }
}

/// Whether the script `s`, applied in order, transforms `a[si..ei)` into
/// `b[ti..ej)`: starting at source position `si` and target position `ti`,
/// every operation consumes the positions its kind asks for, and the script
/// ends exactly at positions `(ei, ej)`.
pub open spec fn path_ok<T>(
    s: Seq<EditOperation>,
    a: Seq<T>,
    b: Seq<T>,
    si: int,
    ti: int,
    ei: int,
    ej: int,
) -> bool
    decreases s.len(),
{
    if s.len() == 0 {
        si == ei && ti == ej
    } else {
        let rest = s.drop_first();
        match s[0] {
            EditOperation::Match { .. } => 0 <= si < a.len() && 0 <= ti < b.len() && a[si]
                == b[ti] && path_ok(rest, a, b, si + 1, ti + 1, ei, ej),
            EditOperation::Substitute { .. } => 0 <= si < a.len() && 0 <= ti < b.len() && a[si]
                != b[ti] && path_ok(rest, a, b, si + 1, ti + 1, ei, ej),
            EditOperation::Insert { .. } => 0 <= si && 0 <= ti < b.len() && path_ok(
                rest,
                a,
                b,
                si,
                ti + 1,
                ei,
                ej,
            ),
            EditOperation::Delete { .. } => 0 <= ti && 0 <= si < a.len() && path_ok(
                rest,
                a,
                b,
                si + 1,
                ti,
                ei,
                ej,
            ),
        }
    }
}

/// The sequence produced by applying the script `s` to `a` from source
/// position `si` and target position `ti`: a match keeps the source element,
/// a substitution or insertion writes the target element at the position the
/// operation consumes, and a deletion writes nothing.
pub open spec fn script_output<T>(
    s: Seq<EditOperation>,
    a: Seq<T>,
    b: Seq<T>,
    si: int,
    ti: int,
) -> Seq<T>
    decreases s.len(),
{
    if s.len() == 0 {
        Seq::empty()
    } else {
        let rest = s.drop_first();
        match s[0] {
            EditOperation::Match { .. } => seq![a[si]] + script_output(rest, a, b, si + 1, ti + 1),
            EditOperation::Substitute { .. } => seq![b[ti]] + script_output(
                rest,
                a,
                b,
                si + 1,
                ti + 1,
            ),
            EditOperation::Insert { .. } => seq![b[ti]] + script_output(rest, a, b, si, ti + 1),
            EditOperation::Delete { .. } => script_output(rest, a, b, si + 1, ti),
        }
    }
}

/// Extending a path by one operation whose backward move leads from the new
/// cell `(ni, nj)` to the old end `(ei, ej)`.
proof fn lemma_path_ok_push<T>(
    s: Seq<EditOperation>,
    a: Seq<T>,
    b: Seq<T>,
    si: int,
    ti: int,
    ei: int,
    ej: int,
    op: EditOperation,
    ni: int,
    nj: int,
)
    requires
        path_ok(s, a, b, si, ti, ei, ej),
        op_applicable(op, a, b, ni, nj),
        (ei, ej) == op_pred(op, ni, nj),
    ensures
        path_ok(s.push(op), a, b, si, ti, ni, nj),
    decreases s.len(),
{
    if s.len() == 0 {
        let one = s.push(op);
        assert(one.len() == 1);
        assert(one[0] == op);
        assert(one.drop_first() =~= Seq::<EditOperation>::empty());
        assert(path_ok(one.drop_first(), a, b, ti_step(op, si, ti).0, ti_step(op, si, ti).1, ni, nj));
    } else {
        let nxt: (int, int) = ti_step(s[0], si, ti);
        assert(path_ok(s.drop_first(), a, b, nxt.0, nxt.1, ei, ej));
        lemma_path_ok_push(s.drop_first(), a, b, nxt.0, nxt.1, ei, ej, op, ni, nj);
        assert(s.push(op)[0] == s[0]);
        assert(s.push(op).drop_first() =~= s.drop_first().push(op));
        assert(path_ok(s.push(op).drop_first(), a, b, nxt.0, nxt.1, ni, nj));
    }
}

/// The forward position reached after applying one operation at `(si, ti)`.
spec fn ti_step(op: EditOperation, si: int, ti: int) -> (int, int) {
    match op {
        EditOperation::Match { .. } => (si + 1, ti + 1),
        EditOperation::Substitute { .. } => (si + 1, ti + 1),
        EditOperation::Insert { .. } => (si, ti + 1),
        EditOperation::Delete { .. } => (si + 1, ti),
    }
}

/// The script reconstructed for cell `(i, j)` is a path from the origin to
/// `(i, j)` whose total cost is exactly the cell's value.
pub proof fn lemma_script_at_ok<T>(
    ops: Seq<EditOperation>,
    a: Seq<T>,
    b: Seq<T>,
    i: int,
    j: int,
)
    requires
        complete(ops),
        0 <= i <= a.len(),
        0 <= j <= b.len(),
    ensures
        path_ok(script_at(ops, a, b, i, j), a, b, 0, 0, i, j),
        script_cost(script_at(ops, a, b, i, j)) == cell_value(ops, a, b, i, j),
    decreases i + j,
{
    if i == 0 && j == 0 {
    } else {
        lemma_bt_choice_some(ops, a, b, i, j);
        let k = bt_choice(ops, a, b, i, j)->Some_0;
        lemma_bt_choice_from_some(ops, a, b, i, j, 0);
        let p: (int, int) = op_pred(ops[k], i, j);
        lemma_script_at_ok(ops, a, b, p.0, p.1);
        let prefix = script_at(ops, a, b, p.0, p.1);
        lemma_path_ok_push(prefix, a, b, 0, 0, p.0, p.1, ops[k], i, j);
        assert(prefix.push(ops[k]).drop_last() =~= prefix);
        assert(prefix.push(ops[k]).last() == ops[k]);
    }
}

/// Applying a path that runs from `(si, ti)` to `(ei, ej)` produces exactly
/// the consumed span of the target.
proof fn lemma_script_output_span<T>(
    s: Seq<EditOperation>,
    a: Seq<T>,
    b: Seq<T>,
    si: int,
    ti: int,
    ei: int,
    ej: int,
)
    requires
        path_ok(s, a, b, si, ti, ei, ej),
        0 <= ti,
        ej <= b.len(),
    ensures
        ti <= ej,
        script_output(s, a, b, si, ti) == b.subrange(ti, ej),
    decreases s.len(),
{
    if s.len() == 0 {
        assert(b.subrange(ti, ej) =~= Seq::<T>::empty());
    } else {
        let rest = s.drop_first();
        let nxt: (int, int) = ti_step(s[0], si, ti);
        lemma_script_output_span(rest, a, b, nxt.0, nxt.1, ei, ej);
        match s[0] {
            EditOperation::Delete { .. } => {
                assert(script_output(s, a, b, si, ti) == b.subrange(ti, ej));
            },
            _ => {
                assert(script_output(s, a, b, si, ti) =~= b.subrange(ti, ej));
            },
        }
    }
}

/// Every operation of a reconstructed script comes from the operation set.
pub proof fn lemma_script_at_contained<T>(
    ops: Seq<EditOperation>,
    a: Seq<T>,
    b: Seq<T>,
    i: int,
    j: int,
)
    ensures
        forall|k: int|
            0 <= k < script_at(ops, a, b, i, j).len() ==> ops.contains(
                #[trigger] script_at(ops, a, b, i, j)[k],
            ),
    decreases i + j,
{
    if !(i == 0 && j == 0) {
        match bt_choice(ops, a, b, i, j) {
            None => {},
            Some(w) => {
                lemma_bt_choice_from_some(ops, a, b, i, j, 0);
                let p: (int, int) = op_pred(ops[w], i, j);
                lemma_script_at_contained(ops, a, b, p.0, p.1);
                assert(script_at(ops, a, b, i, j) == script_at(ops, a, b, p.0, p.1).push(ops[w]));
            },
        }
    }
}

/// A script's cost, decomposed at its first operation.
proof fn lemma_script_cost_first(s: Seq<EditOperation>)
    requires
        s.len() > 0,
    ensures
        script_cost(s) == op_cost(s[0]) + script_cost(s.drop_first()),
    decreases s.len(),
{
    if s.len() == 1 {
        assert(s.drop_first() =~= Seq::<EditOperation>::empty());
        assert(s.drop_last() =~= Seq::<EditOperation>::empty());
    } else {
        lemma_script_cost_first(s.drop_last());
        assert(s.drop_last()[0] == s[0]);
        assert(s.drop_first().drop_last() =~= s.drop_last().drop_first());
        assert(s.drop_first().last() == s.last());
    }
}

/// Walking a valid path whose operations all come from `ops` costs at least
/// the difference of the cell values at its two ends.
proof fn lemma_path_cost_bound<T>(
    ops: Seq<EditOperation>,
    s: Seq<EditOperation>,
    a: Seq<T>,
    b: Seq<T>,
    si: int,
    ti: int,
    ei: int,
    ej: int,
)
    requires
        complete(ops),
        path_ok(s, a, b, si, ti, ei, ej),
        si <= a.len(),
        ti <= b.len(),
        forall|k: int| 0 <= k < s.len() ==> ops.contains(#[trigger] s[k]),
    ensures
        cell_value(ops, a, b, ei, ej) <= cell_value(ops, a, b, si, ti) + script_cost(s),
    decreases s.len(),
{
    if s.len() > 0 {
        let op = s[0];
        let nxt: (int, int) = match op {
            EditOperation::Match { .. } => (si + 1, ti + 1),
            EditOperation::Substitute { .. } => (si + 1, ti + 1),
            EditOperation::Insert { .. } => (si, ti + 1),
            EditOperation::Delete { .. } => (si + 1, ti),
        };
        match op {
            EditOperation::Match { .. } => {
                assert(0 <= si < a.len() && 0 <= ti < b.len() && a[si] == b[ti]);
            },
            EditOperation::Substitute { .. } => {
                assert(0 <= si < a.len() && 0 <= ti < b.len() && a[si] != b[ti]);
            },
            EditOperation::Insert { .. } => {
                assert(0 <= si && 0 <= ti < b.len());
            },
            EditOperation::Delete { .. } => {
                assert(0 <= ti && 0 <= si < a.len());
            },
        }
        assert(op_applicable(op, a, b, nxt.0, nxt.1));
        assert(op_pred(op, nxt.0, nxt.1) == (si, ti));
        assert(ops.contains(op));
        let w = choose|w: int| 0 <= w < ops.len() && ops[w] == op;
        lemma_cell_min_le(ops, a, b, nxt.0, nxt.1, ops.len() as int, w);
        lemma_cell_has_candidate(ops, a, b, nxt.0, nxt.1);
        assert(cell_value(ops, a, b, nxt.0, nxt.1) <= op_cost(op) + cell_value(ops, a, b, si, ti));
        assert(forall|k: int|
            0 <= k < s.drop_first().len() ==> ops.contains(#[trigger] s.drop_first()[k]));
        lemma_path_cost_bound(ops, s.drop_first(), a, b, nxt.0, nxt.1, ei, ej);
        lemma_script_cost_first(s);
    }
}

/// Law: the distance is minimal: no valid script built from the set's own
/// operations transforms the source into the target more cheaply than the
/// final cell's value.
pub proof fn lemma_distance_minimal<T>(
    ops: Seq<EditOperation>,
    s: Seq<EditOperation>,
    a: Seq<T>,
    b: Seq<T>,
)
    requires
        complete(ops),
        path_ok(s, a, b, 0, 0, a.len() as int, b.len() as int),
        forall|k: int| 0 <= k < s.len() ==> ops.contains(#[trigger] s[k]),
    ensures
        cell_value(ops, a, b, a.len() as int, b.len() as int) <= script_cost(s),
{
    lemma_path_cost_bound(ops, s, a, b, 0, 0, a.len() as int, b.len() as int);
}

/// Law: applying a valid edit script for `a` and `b` in order to the source
/// `a` deterministically produces the target `b`.
pub proof fn lemma_script_applies<T>(s: Seq<EditOperation>, a: Seq<T>, b: Seq<T>)
    requires
        path_ok(s, a, b, 0, 0, a.len() as int, b.len() as int),
    ensures
        script_output(s, a, b, 0, 0) == b,
{
    lemma_script_output_span(s, a, b, 0, 0, a.len() as int, b.len() as int);
    assert(b.subrange(0, b.len() as int) =~= b);
}

} // verus!
