use vstd::prelude::*;

use crate::ops::bt_choice;
use crate::ops::bt_choice_from;
use crate::ops::cell_min;
use crate::ops::cell_value;
use crate::ops::complete;
use crate::ops::eq_agrees;
use crate::ops::lemma_bt_choice_from_some;
use crate::ops::lemma_bt_choice_some;
use crate::ops::lemma_candidate_fits;
use crate::ops::lemma_cell_has_candidate;
use crate::ops::lemma_script_at_ok;
use crate::ops::max_cost;
use crate::ops::op_applicable;
use crate::ops::op_cost;
use crate::ops::op_pred;
use crate::ops::path_ok;
use crate::ops::script_at;
use crate::ops::script_cost;
use crate::ops::EditOperation;
use crate::ops::EditOperations;
use crate::seq_pair::SeqPair;

verus! {

/// Edit distance cost matrix for one alignment of a source sequence with a
/// target sequence, filled once at construction and immutable afterwards.
pub struct Matrix<'a, T> {
    pair: SeqPair<'a, T>,
    ops: &'a EditOperations,
    matrix: Vec<Vec<usize>>,
}

impl<'a, T: Eq> Matrix<'a, T> {
    /// The source sequence the matrix was built for.
    pub closed spec fn source_view(self) -> Seq<T> {
        self.pair.source@
    }

    /// The target sequence the matrix was built for.
    pub closed spec fn target_view(self) -> Seq<T> {
        self.pair.target@
    }

    /// The operation set the matrix was built with.
    pub closed spec fn ops_view(self) -> Seq<EditOperation> {
        self.ops@
    }

    /// The rows of the cost matrix.
    pub closed spec fn cells_view(self) -> Seq<Vec<usize>> {
        self.matrix@
    }

    /// A well-formed matrix: built from a complete operation set on
    /// sequences whose costs cannot overflow, with every cell holding the
    /// minimum cumulative cost for its coordinates.
    pub open spec fn wf(self) -> bool {
        &&& eq_agrees::<T>()
        &&& complete(self.ops_view())
        &&& self.source_view().len() + self.target_view().len() < usize::MAX
        &&& (self.source_view().len() + self.target_view().len()) * max_cost(self.ops_view())
            <= usize::MAX
        &&& self.cells_view().len() == self.source_view().len() + 1
        &&& (forall|ii: int|
            0 <= ii <= self.source_view().len() ==> (#[trigger] self.cells_view()[ii])@.len()
                == self.target_view().len() + 1)
        &&& (forall|ii: int, jj: int|
            0 <= ii <= self.source_view().len() && 0 <= jj <= self.target_view().len() ==> (
            #[trigger] self.cells_view()[ii]@[jj]) as nat == cell_value(
                self.ops_view(),
                self.source_view(),
                self.target_view(),
                ii,
                jj,
            ))
    }

    /// The edit distance the matrix holds: the value of its final cell.
    pub open spec fn spec_distance(self) -> nat {
        cell_value(
            self.ops_view(),
            self.source_view(),
            self.target_view(),
            self.source_view().len() as int,
            self.target_view().len() as int,
        )
    }

    /// Align two sequences: fill the cost matrix for transforming `source`
    /// into `target` with the operations of `ops`, row by row from the
    /// origin, and return it.
    ///
    /// The operation set must be complete (hold an insert and a delete), so
    /// that some operation applies at every cell; the cost of the longest
    /// possible path must fit in `usize`.
    pub fn align(ops: &'a EditOperations, source: &'a [T], target: &'a [T]) -> (r: Matrix<'a, T>)
        requires
            eq_agrees::<T>(),
            complete(ops@),
            source@.len() + target@.len() < usize::MAX,
            (source@.len() + target@.len()) * max_cost(ops@) <= usize::MAX,
        ensures
            r.wf(),
            r.ops_view() == ops@,
            r.source_view() == source@,
            r.target_view() == target@,
    {
        let pair = SeqPair { source, target };
        let m = pair.source.len();
        let n = pair.target.len();

        let mut grid: Vec<Vec<usize>> = Vec::new();

        // Fill the first row. This is separated from the rest of the fill
        // because cell (0, 0) is fixed at 0 and never computed from an
        // operation.
        let mut row: Vec<usize> = Vec::new();
        row.push(0);
        let mut j: usize = 1;
        while j <= n
            invariant
                eq_agrees::<T>(),
                complete(ops@),
                source@.len() + target@.len() < usize::MAX,
                (source@.len() + target@.len()) * max_cost(ops@) <= usize::MAX,
                n == target@.len(),
                1 <= j <= n + 1,
                grid@.len() == 0,
                row@.len() == j,
                forall|jj: int|
                    0 <= jj < j ==> (#[trigger] row@[jj]) as nat == cell_value(
                        ops@,
                        source@,
                        target@,
                        0,
                        jj,
                    ),
            decreases n + 1 - j,
        {
            let v = apply_partial(ops, &grid, &row, source, target, 0, j);
            row.push(v);
            j += 1;
        }
        grid.push(row);

        // Fill the remaining rows in row-major order.
        let mut i: usize = 1;
        while i <= m
            invariant
                eq_agrees::<T>(),
                complete(ops@),
                source@.len() + target@.len() < usize::MAX,
                (source@.len() + target@.len()) * max_cost(ops@) <= usize::MAX,
                m == source@.len(),
                n == target@.len(),
                1 <= i <= m + 1,
                grid@.len() == i,
                forall|ii: int| 0 <= ii < i ==> (#[trigger] grid@[ii])@.len() == n + 1,
                forall|ii: int, jj: int|
                    0 <= ii < i && 0 <= jj <= n ==> (#[trigger] grid@[ii]@[jj]) as nat
                        == cell_value(ops@, source@, target@, ii, jj),
            decreases m + 1 - i,
        {
            let mut row: Vec<usize> = Vec::new();
            let mut j: usize = 0;
            while j <= n
                invariant
                    eq_agrees::<T>(),
                    complete(ops@),
                    source@.len() + target@.len() < usize::MAX,
                    (source@.len() + target@.len()) * max_cost(ops@) <= usize::MAX,
                    m == source@.len(),
                    n == target@.len(),
                    1 <= i <= m,
                    j <= n + 1,
                    grid@.len() == i,
                    forall|ii: int| 0 <= ii < i ==> (#[trigger] grid@[ii])@.len() == n + 1,
                    forall|ii: int, jj: int|
                        0 <= ii < i && 0 <= jj <= n ==> (#[trigger] grid@[ii]@[jj]) as nat
                            == cell_value(ops@, source@, target@, ii, jj),
                    row@.len() == j,
                    forall|jj: int|
                        0 <= jj < j ==> (#[trigger] row@[jj]) as nat == cell_value(
                            ops@,
                            source@,
                            target@,
                            i as int,
                            jj,
                        ),
                decreases n + 1 - j,
            {
                let v = apply_partial(ops, &grid, &row, source, target, i, j);
                row.push(v);
                j += 1;
            }
            grid.push(row);
            i += 1;
        }

        Matrix { pair, ops, matrix: grid }
    }

    /// Reconstruct one optimal edit script: walk the operations backward
    /// from the final cell to the origin, following at each cell the first
    /// operation in declaration order whose candidate value equals the
    /// cell's value, then reverse the collected operations.
    ///
    /// The script is returned in source-to-target application order; applied
    /// to `source` it produces `target`, and its total cost is exactly
    /// `distance`.  On a well-formed matrix backtracking always reaches the
    /// origin, so the result is never `None`.
    pub fn edit_script(&self) -> (r: Option<Vec<EditOperation>>)
        requires
            self.wf(),
        ensures
            r matches Some(script) && {
                &&& script@ == script_at(
                    self.ops_view(),
                    self.source_view(),
                    self.target_view(),
                    self.source_view().len() as int,
                    self.target_view().len() as int,
                )
                &&& path_ok(
                    script@,
                    self.source_view(),
                    self.target_view(),
                    0,
                    0,
                    self.source_view().len() as int,
                    self.target_view().len() as int,
                )
                &&& script_cost(script@) == self.spec_distance()
            },
    {
        let ghost a = self.source_view();
        let ghost b = self.target_view();
        let ghost ops_g = self.ops_view();
        let m = self.pair.source.len();
        let n = self.pair.target.len();

        let mut i = m;
        let mut j = n;
        let mut rev: Vec<EditOperation> = Vec::new();
        while i != 0 || j != 0
            invariant
                self.wf(),
                a == self.source_view(),
                b == self.target_view(),
                ops_g == self.ops_view(),
                m == a.len(),
                n == b.len(),
                i <= m,
                j <= n,
                script_at(ops_g, a, b, m as int, n as int) == script_at(
                    ops_g,
                    a,
                    b,
                    i as int,
                    j as int,
                ) + rev@.reverse(),
            decreases i + j,
        {
            proof {
                lemma_bt_choice_some(ops_g, a, b, i as int, j as int);
            }
            let op = match self.ops.backtrack(self, i, j) {
                Some(op) => op,
                None => vstd::pervasive::unreached(),
            };
            proof {
                lemma_bt_choice_from_some(ops_g, a, b, i as int, j as int, 0);
            }
            let p = match op.backtrack(i, j) {
                Some(p) => p,
                None => vstd::pervasive::unreached(),
            };
            proof {
                let ghost old_rev = rev@;
                assert(script_at(ops_g, a, b, i as int, j as int) == script_at(
                    ops_g,
                    a,
                    b,
                    p.0 as int,
                    p.1 as int,
                ).push(op));
                assert(old_rev.push(op).reverse() =~= seq![op] + old_rev.reverse());
                assert(script_at(ops_g, a, b, p.0 as int, p.1 as int) + (seq![op]
                    + old_rev.reverse()) =~= script_at(ops_g, a, b, p.0 as int, p.1 as int).push(
                    op,
                ) + old_rev.reverse());
            }
            rev.push(op);
            i = p.0;
            j = p.1;
        }
        proof {
            assert(script_at(ops_g, a, b, 0, 0) =~= Seq::<EditOperation>::empty());
            assert(Seq::<EditOperation>::empty() + rev@.reverse() =~= rev@.reverse());
        }

        // Put the collected operations in forward application order.
        let mut script: Vec<EditOperation> = Vec::new();
        let rev_len = rev.len();
        let mut k = rev_len;
        while k > 0
            invariant
                k <= rev_len,
                rev_len == rev@.len(),
                script@.len() == rev_len - k,
                forall|x: int|
                    0 <= x < script@.len() ==> #[trigger] script@[x] == rev@[rev_len - 1 - x],
            decreases k,
        {
            script.push(rev[k - 1]);
            k -= 1;
        }
        proof {
            assert(script@ =~= rev@.reverse());
            lemma_script_at_ok(ops_g, a, b, m as int, n as int);
        }

        Some(script)
    }

    /// Get the edit distance: the value of the final cell.
    pub fn distance(&self) -> (d: usize)
        requires
            self.wf(),
        ensures
            d as nat == self.spec_distance(),
    {
        self.matrix[self.matrix.len() - 1][self.matrix[0].len() - 1]
    }

    /// Get the cost matrix, row by row.
    pub fn matrix(&self) -> (cells: &Vec<Vec<usize>>)
        ensures
            cells@ == self.cells_view(),
    {
        &self.matrix
    }

    /// Get the sequence pair associated with this cost matrix.
    pub fn seq_pair(&self) -> (pair: &SeqPair<'a, T>)
        ensures
            pair.source@ == self.source_view(),
            pair.target@ == self.target_view(),
    {
        &self.pair
    }
}

impl EditOperation {
    /// The candidate value this operation would assign to cell `(i, j)` of
    /// the matrix `m`: its cost plus the value stored at the predecessor
    /// cell, or `None` when the operation is not applicable there.  "Not
    /// applicable" is expected control flow, not an error.
    pub fn apply_at<'a, T: Eq>(&self, m: &Matrix<'a, T>, i: usize, j: usize) -> (r: Option<usize>)
        requires
            m.wf(),
            m.ops_view().contains(*self),
            i <= m.source_view().len(),
            j <= m.target_view().len(),
        ensures
            match r {
                Some(c) => op_applicable(*self, m.source_view(), m.target_view(), i as int, j as int)
                    && c as nat == op_cost(*self) + cell_value(
                    m.ops_view(),
                    m.source_view(),
                    m.target_view(),
                    op_pred(*self, i as int, j as int).0,
                    op_pred(*self, i as int, j as int).1,
                ),
                None => !op_applicable(*self, m.source_view(), m.target_view(), i as int, j as int),
            },
    {
        let ghost a = m.source_view();
        let ghost b = m.target_view();
        let ghost k = choose|k: int| 0 <= k < m.ops_view().len() && m.ops_view()[k] == *self;
        match *self {
            EditOperation::Match { cost } => {
                if i >= 1 && j >= 1 && m.pair.source[i - 1] == m.pair.target[j - 1] {
                    proof {
                        lemma_candidate_fits(m.ops_view(), a, b, i as int, j as int, k);
                    }
                    Some(cost + m.matrix[i - 1][j - 1])
                } else {
                    None
                }
            },
            EditOperation::Substitute { cost } => {
                if i >= 1 && j >= 1 && !(m.pair.source[i - 1] == m.pair.target[j - 1]) {
                    proof {
                        lemma_candidate_fits(m.ops_view(), a, b, i as int, j as int, k);
                    }
                    Some(cost + m.matrix[i - 1][j - 1])
                } else {
                    None
                }
            },
            EditOperation::Insert { cost } => {
                if j >= 1 {
                    proof {
                        lemma_candidate_fits(m.ops_view(), a, b, i as int, j as int, k);
                    }
                    Some(cost + m.matrix[i][j - 1])
                } else {
                    None
                }
            },
            EditOperation::Delete { cost } => {
                if i >= 1 {
                    proof {
                        lemma_candidate_fits(m.ops_view(), a, b, i as int, j as int, k);
                    }
                    Some(cost + m.matrix[i - 1][j])
                } else {
                    None
                }
            },
        }
    }
}

impl EditOperations {
    /// Evaluate every operation at cell `(i, j)` of the matrix `m` and
    /// return the smallest candidate value, or `None` when no operation is
    /// applicable there — the fatal "no applicable operation" configuration
    /// defect, which a complete operation set never produces away from the
    /// origin.
    pub fn apply<'a, T: Eq>(&self, m: &Matrix<'a, T>, i: usize, j: usize) -> (r: Option<usize>)
        requires
            m.wf(),
            self@ == m.ops_view(),
            i <= m.source_view().len(),
            j <= m.target_view().len(),
        ensures
            match cell_min(
                self@,
                m.source_view(),
                m.target_view(),
                i as int,
                j as int,
                self@.len() as int,
            ) {
                Some(v) => r matches Some(c) && c as nat == v,
                None => r is None,
            },
            !(i == 0 && j == 0) ==> (r matches Some(c) && c as nat == cell_value(
                self@,
                m.source_view(),
                m.target_view(),
                i as int,
                j as int,
            )),
    {
        let ghost a = m.source_view();
        let ghost b = m.target_view();
        let ops_len = self.len();
        let mut best: Option<usize> = None;
        let mut k: usize = 0;
        while k < ops_len
            invariant
                m.wf(),
                self@ == m.ops_view(),
                a == m.source_view(),
                b == m.target_view(),
                i <= a.len(),
                j <= b.len(),
                ops_len == self@.len(),
                k <= ops_len,
                match best {
                    None => cell_min(self@, a, b, i as int, j as int, k as int) is None,
                    Some(v) => cell_min(self@, a, b, i as int, j as int, k as int) == Some(
                        v as nat,
                    ),
                },
            decreases ops_len - k,
        {
            let op = self.op(k);
            proof {
                assert(self@.contains(op));
            }
            let cand = op.apply_at(m, i, j);
            best = match (best, cand) {
                (None, c) => c,
                (Some(v), None) => Some(v),
                (Some(v), Some(c)) => Some(if c < v { c } else { v }),
            };
            k += 1;
        }
        proof {
            if !(i == 0 && j == 0) {
                lemma_cell_has_candidate(self@, a, b, i as int, j as int);
            }
        }
        best
    }

    /// Among the operations applicable at cell `(i, j)` of `m` whose
    /// candidate value equals the cell's stored value, return the first in
    /// declaration order, or `None` when there is none — in particular at
    /// the origin, where no operation applies.
    pub fn backtrack<'a, T: Eq>(&self, m: &Matrix<'a, T>, i: usize, j: usize) -> (r: Option<
        EditOperation,
    >)
        requires
            m.wf(),
            self@ == m.ops_view(),
            i <= m.source_view().len(),
            j <= m.target_view().len(),
        ensures
            match bt_choice(self@, m.source_view(), m.target_view(), i as int, j as int) {
                Some(k) => r == Some(self@[k]),
                None => r is None,
            },
    {
        let ghost a = m.source_view();
        let ghost b = m.target_view();
        let cur = m.matrix[i][j];
        let ops_len = self.len();
        let mut k: usize = 0;
        while k < ops_len
            invariant
                m.wf(),
                self@ == m.ops_view(),
                a == m.source_view(),
                b == m.target_view(),
                i <= a.len(),
                j <= b.len(),
                cur as nat == cell_value(self@, a, b, i as int, j as int),
                ops_len == self@.len(),
                k <= ops_len,
                bt_choice(self@, a, b, i as int, j as int) == bt_choice_from(
                    self@,
                    a,
                    b,
                    i as int,
                    j as int,
                    k as int,
                ),
            decreases ops_len - k,
        {
            let op = self.op(k);
            proof {
                assert(self@.contains(op));
            }
            match op.apply_at(m, i, j) {
                Some(c) => {
                    if c == cur {
                        return Some(op);
                    }
                },
                None => {},
            }
            k += 1;
        }
        None
    }
}

/// Compute the value of cell `(i, j)` during the fill: the minimum over all
/// applicable operations of the operation's cost plus the value of the
/// predecessor cell.  `grid` holds the finished rows above row `i` and `row`
/// the finished cells of row `i` left of column `j`.
fn apply_partial<T: Eq>(
    ops: &EditOperations,
    grid: &Vec<Vec<usize>>,
    row: &Vec<usize>,
    source: &[T],
    target: &[T],
    i: usize,
    j: usize,
) -> (v: usize)
    requires
        eq_agrees::<T>(),
        complete(ops@),
        (source@.len() + target@.len()) * max_cost(ops@) <= usize::MAX,
        i <= source@.len(),
        j <= target@.len(),
        !(i == 0 && j == 0),
        grid@.len() == i,
        forall|ii: int| 0 <= ii < i ==> (#[trigger] grid@[ii])@.len() == target@.len() + 1,
        forall|ii: int, jj: int|
            0 <= ii < i && 0 <= jj <= target@.len() ==> (#[trigger] grid@[ii]@[jj]) as nat
                == cell_value(ops@, source@, target@, ii, jj),
        row@.len() == j,
        forall|jj: int|
            0 <= jj < j ==> (#[trigger] row@[jj]) as nat == cell_value(
                ops@,
                source@,
                target@,
                i as int,
                jj,
            ),
    ensures
        v as nat == cell_value(ops@, source@, target@, i as int, j as int),
{
    let ghost a = source@;
    let ghost b = target@;
    let ops_len = ops.len();
    let mut best: Option<usize> = None;
    let mut k: usize = 0;
    while k < ops_len
        invariant
            eq_agrees::<T>(),
            complete(ops@),
            (source@.len() + target@.len()) * max_cost(ops@) <= usize::MAX,
            i <= source@.len(),
            j <= target@.len(),
            !(i == 0 && j == 0),
            grid@.len() == i,
            forall|ii: int| 0 <= ii < i ==> (#[trigger] grid@[ii])@.len() == target@.len() + 1,
            forall|ii: int, jj: int|
                0 <= ii < i && 0 <= jj <= target@.len() ==> (#[trigger] grid@[ii]@[jj]) as nat
                    == cell_value(ops@, source@, target@, ii, jj),
            row@.len() == j,
            forall|jj: int|
                0 <= jj < j ==> (#[trigger] row@[jj]) as nat == cell_value(
                    ops@,
                    source@,
                    target@,
                    i as int,
                    jj,
                ),
            a == source@,
            b == target@,
            ops_len == ops@.len(),
            k <= ops_len,
            match best {
                None => cell_min(ops@, a, b, i as int, j as int, k as int) is None,
                Some(v) => cell_min(ops@, a, b, i as int, j as int, k as int) == Some(v as nat),
            },
        decreases ops_len - k,
    {
        let op = ops.op(k);
        // Evaluate the operation's applicability at (i, j) and, when it
        // applies, its candidate: its cost plus the predecessor cell value.
        let cand: Option<usize> = match op {
            EditOperation::Match { cost } => {
                if i >= 1 && j >= 1 && source[i - 1] == target[j - 1] {
                    proof {
                        lemma_candidate_fits(ops@, a, b, i as int, j as int, k as int);
                    }
                    Some(cost + grid[i - 1][j - 1])
                } else {
                    None
                }
            },
            EditOperation::Substitute { cost } => {
                if i >= 1 && j >= 1 && !(source[i - 1] == target[j - 1]) {
                    proof {
                        lemma_candidate_fits(ops@, a, b, i as int, j as int, k as int);
                    }
                    Some(cost + grid[i - 1][j - 1])
                } else {
                    None
                }
            },
            EditOperation::Insert { cost } => {
                if j >= 1 {
                    proof {
                        lemma_candidate_fits(ops@, a, b, i as int, j as int, k as int);
                    }
                    Some(cost + row[j - 1])
                } else {
                    None
                }
            },
            EditOperation::Delete { cost } => {
                if i >= 1 {
                    proof {
                        lemma_candidate_fits(ops@, a, b, i as int, j as int, k as int);
                    }
                    Some(cost + grid[i - 1][j])
                } else {
                    None
                }
            },
        };
        proof {
            assert(match cand {
                Some(c) => op_applicable(ops@[k as int], a, b, i as int, j as int) && c as nat
                    == op_cost(ops@[k as int]) + cell_value(
                    ops@,
                    a,
                    b,
                    op_pred(ops@[k as int], i as int, j as int).0,
                    op_pred(ops@[k as int], i as int, j as int).1,
                ),
                None => !op_applicable(ops@[k as int], a, b, i as int, j as int),
            });
        }
        best = match (best, cand) {
            (None, c) => c,
            (Some(v), None) => Some(v),
            (Some(v), Some(c)) => Some(if c < v { c } else { v }),
        };
        k += 1;
    }
    proof {
        lemma_cell_has_candidate(ops@, a, b, i as int, j as int);
    }
    match best {
        Some(v) => v,
        None => vstd::pervasive::unreached(),
    }
}

} // verus!
