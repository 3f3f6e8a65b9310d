use vstd::prelude::*;

use crate::rng;

verus! {

/// Mathematical model of the tape: the cells visited to the left of the head
/// (last element nearest the head), the cells visited to the right of the head
/// (last element nearest the head), and the value of the active cell. Cells
/// never visited are implicitly zero.
pub ghost struct TapeModel {
    pub left: Seq<u8>,
    pub right: Seq<u8>,
    pub cell: u8,
}

/// The model transition of moving the head one cell to the right.
pub open spec fn step_right(t: TapeModel) -> TapeModel {
    TapeModel {
        left: t.left.push(t.cell),
        right: if t.right.len() > 0 {
            t.right.drop_last()
        } else {
            t.right
        },
        cell: if t.right.len() > 0 {
            t.right.last()
        } else {
            0
        },
    }
}

/// The model transition of moving the head one cell to the left.
pub open spec fn step_left(t: TapeModel) -> TapeModel {
    TapeModel {
        left: if t.left.len() > 0 {
            t.left.drop_last()
        } else {
            t.left
        },
        right: t.right.push(t.cell),
        cell: if t.left.len() > 0 {
            t.left.last()
        } else {
            0
        },
    }
}

/// The value of the cell `i` steps beyond the head on the right side
/// (`i == 0` is the lookahead cell); cells never visited read as zero.
pub open spec fn right_cell(t: TapeModel, i: int) -> u8 {
    if 0 <= i < t.right.len() {
        t.right[t.right.len() - 1 - i]
    } else {
        0
    }
}

/// The value of the cell `i` steps beyond the head on the left side.
pub open spec fn left_cell(t: TapeModel, i: int) -> u8 {
    if 0 <= i < t.left.len() {
        t.left[t.left.len() - 1 - i]
    } else {
        0
    }
}

/// Each element of `s` repeated `k` times in place.
pub open spec fn expanded(s: Seq<u8>, k: nat) -> Seq<u8>
    decreases s.len(),
{
    if s.len() == 0 {
        Seq::empty()
    } else {
        expanded(s.drop_last(), k) + Seq::new(k, |t: int| s.last())
    }
}

/// `n` brought back into the byte range, valid for `n` in `[-256, 511]`.
pub open spec fn wrap256(n: int) -> int {
    if n < 0 {
        n + 256
    } else if n > 255 {
        n - 256
    } else {
        n
    }
}

/// `b` is `a` perturbed by some wrapping offset in `-5 ..= 5` (possibly zero).
pub open spec fn near_wrapped(a: u8, b: u8) -> bool {
    exists|d: int| -5 <= d <= 5 && b as int == #[trigger] wrap256(a as int + d)
}

/// The machine's memory: a head-centered, bidirectionally growable array of
/// byte cells. Cells that were never visited are implicitly zero.
pub struct Tape {
    data_l: Vec<u8>,
    data_r: Vec<u8>,
    cell: u8,
}

impl View for Tape {
    type V = TapeModel;

    closed spec fn view(&self) -> TapeModel {
        TapeModel { left: self.data_l@, right: self.data_r@, cell: self.cell }
    }
}

impl Tape {
    /// A fresh tape: nothing visited on either side, active cell zero.
    pub fn new() -> (t: Tape)
        ensures
            t@.left == Seq::<u8>::empty(),
            t@.right == Seq::<u8>::empty(),
            t@.cell == 0u8,
    {
        Tape { data_l: Vec::new(), data_r: Vec::new(), cell: 0 }
    }

    /// Read the active cell.
    pub fn get(&self) -> (r: u8)
        ensures
            r == self@.cell,
    {
        self.cell
    }

    /// Write the active cell.
    pub fn set(&mut self, val: u8)
        ensures
            final(self)@ == (TapeModel { cell: val, ..old(self)@ }),
    {
        self.cell = val;
    }

    /// Peek at the lookahead cell (one step right of the head) without moving.
    pub fn get_next(&self) -> (r: u8)
        ensures
            r == right_cell(self@, 0),
    {
        if self.data_r.len() > 0 {
            self.data_r[self.data_r.len() - 1]
        } else {
            0
        }
    }

    /// Overwrite the lookahead cell, materialising it if it was never visited.
    pub fn set_next(&mut self, val: u8)
        ensures
            final(self)@.left == old(self)@.left,
            final(self)@.cell == old(self)@.cell,
            final(self)@.right == (if old(self)@.right.len() > 0 {
                old(self)@.right.update(old(self)@.right.len() - 1, val)
            } else {
                seq![val]
            }),
    {
        if self.data_r.len() > 0 {
            let n = self.data_r.len();
            self.data_r[n - 1] = val;
        } else {
            self.data_r.push(val);
            proof {
                assert(self.data_r@ =~= seq![val]);
            }
        }
    }

    /// Move the head one position right.
    pub fn next(&mut self)
        ensures
            final(self)@ == step_right(old(self)@),
    {
        self.data_l.push(self.cell);
        match self.data_r.pop() {
            Some(v) => self.cell = v,
            None => self.cell = 0,
        }
    }

    /// Move the head one position left.
    pub fn prev(&mut self)
        ensures
            final(self)@ == step_left(old(self)@),
    {
        self.data_r.push(self.cell);
        match self.data_l.pop() {
            Some(v) => self.cell = v,
            None => self.cell = 0,
        }
    }

    /// Splice a cell of value `val` immediately left of the head.
    pub fn insert_left(&mut self, val: u8)
        ensures
            final(self)@ == (TapeModel { left: old(self)@.left.push(val), ..old(self)@ }),
    {
        self.data_l.push(val);
    }

    /// Splice a cell of value `val` immediately right of the head.
    pub fn insert_right(&mut self, val: u8)
        ensures
            final(self)@ == (TapeModel { right: old(self)@.right.push(val), ..old(self)@ }),
    {
        self.data_r.push(val);
    }

    /// Remove and return the cell immediately left of the head (zero if the
    /// left side was never visited).
    pub fn delete_left(&mut self) -> (r: u8)
        ensures
            final(self)@.right == old(self)@.right,
            final(self)@.cell == old(self)@.cell,
            old(self)@.left.len() > 0 ==> r == old(self)@.left.last() && final(self)@.left
                == old(self)@.left.drop_last(),
            old(self)@.left.len() == 0 ==> r == 0 && final(self)@.left == old(self)@.left,
    {
        match self.data_l.pop() {
            Some(v) => v,
            None => 0,
        }
    }

    /// Remove and return the cell immediately right of the head (zero if the
    /// right side was never visited).
    pub fn delete_right(&mut self) -> (r: u8)
        ensures
            final(self)@.left == old(self)@.left,
            final(self)@.cell == old(self)@.cell,
            old(self)@.right.len() > 0 ==> r == old(self)@.right.last() && final(self)@.right
                == old(self)@.right.drop_last(),
            old(self)@.right.len() == 0 ==> r == 0 && final(self)@.right == old(self)@.right,
    {
        match self.data_r.pop() {
            Some(v) => v,
            None => 0,
        }
    }

    /// Replace every visited cell with two copies of itself, and queue one
    /// extra copy of the active cell onto the right history.
    pub fn expand_2(&mut self)
        ensures
            final(self)@.left == expanded(old(self)@.left, 2),
            final(self)@.right == expanded(old(self)@.right, 2).push(old(self)@.cell),
            final(self)@.cell == old(self)@.cell,
    {
        let dl = repeat_each(&self.data_l, 2);
        self.data_l = dl;
        let mut dr = repeat_each(&self.data_r, 2);
        dr.push(self.cell);
        self.data_r = dr;
    }

    /// Replace every visited cell with three copies of itself, and queue two
    /// extra copies of the active cell onto the right history.
    pub fn expand_3(&mut self)
        ensures
            final(self)@.left == expanded(old(self)@.left, 3),
            final(self)@.right == expanded(old(self)@.right, 3).push(old(self)@.cell).push(
                old(self)@.cell,
            ),
            final(self)@.cell == old(self)@.cell,
    {
        let dl = repeat_each(&self.data_l, 3);
        self.data_l = dl;
        let mut dr = repeat_each(&self.data_r, 3);
        dr.push(self.cell);
        dr.push(self.cell);
        self.data_r = dr;
    }

    /// Perturb every visited cell, and the active cell, each independently
    /// with even chance by a wrapping offset drawn from `-5 ..= 5`. Each
    /// history is randomized from its own values; the active cell from its
    /// own value.
    pub fn randomize(&mut self)
        ensures
            final(self)@.left.len() == old(self)@.left.len(),
            final(self)@.right.len() == old(self)@.right.len(),
            forall|i: int|
                0 <= i < old(self)@.left.len() ==> near_wrapped(
                    old(self)@.left[i],
                    final(self)@.left[i],
                ),
            forall|i: int|
                0 <= i < old(self)@.right.len() ==> near_wrapped(
                    old(self)@.right[i],
                    final(self)@.right[i],
                ),
            near_wrapped(old(self)@.cell, final(self)@.cell),
    {
        let dl = perturb_all(&self.data_l);
        self.data_l = dl;
        let dr = perturb_all(&self.data_r);
        self.data_r = dr;
        self.cell = perturb_cell(self.cell);
    }
}

/// A copy of `v` with each element repeated `k` times in place.
fn repeat_each(v: &Vec<u8>, k: usize) -> (r: Vec<u8>)
    requires
        1 <= k,
    ensures
        r@ == expanded(v@, k as nat),
{
    let mut out: Vec<u8> = Vec::new();
    let mut i: usize = 0;
    while i < v.len()
        invariant
            i <= v@.len(),
            1 <= k,
            out@ == expanded(v@.take(i as int), k as nat),
        decreases v@.len() - i,
    {
        let x = v[i];
        let ghost before = out@;
        let mut j: usize = 0;
        while j < k
            invariant
                j <= k,
                i < v@.len(),
                x == v@[i as int],
                out@ == before + Seq::new(j as nat, |t: int| v@[i as int]),
            decreases k - j,
        {
            out.push(x);
            proof {
                assert(out@ =~= before + Seq::new((j + 1) as nat, |t: int| v@[i as int]));
            }
            j += 1;
        }
        proof {
            assert(v@.take(i + 1).drop_last() =~= v@.take(i as int));
            assert(v@.take(i + 1).last() == v@[i as int]);
            assert(expanded(v@.take(i + 1), k as nat) == expanded(v@.take(i as int), k as nat)
                + Seq::new(k as nat, |t: int| v@[i as int]));
        }
        i += 1;
    }
    proof {
        assert(v@.take(v@.len() as int) =~= v@);
    }
    out
}

/// With even chance, shift `x` by a wrapping offset drawn from `-5 ..= 5`;
/// otherwise return it unchanged.
fn perturb_cell(x: u8) -> (r: u8)
    ensures
        near_wrapped(x, r),
{
    if rng::coin() {
        let d = rng::delta();
        let r = if d >= 0 {
            x.wrapping_add(d as u8)
        } else {
            x.wrapping_sub((-d) as u8)
        };
        proof {
            assert(r as int == wrap256(x as int + d as int));
        }
        r
    } else {
        proof {
            assert(x as int == wrap256(x as int + 0));
        }
        x
    }
}

/// A copy of `v` with every element independently perturbed as `perturb_cell`
/// does.
fn perturb_all(v: &Vec<u8>) -> (r: Vec<u8>)
    ensures
        r@.len() == v@.len(),
        forall|i: int| 0 <= i < v@.len() ==> near_wrapped(v@[i], r@[i]),
{
    let mut out: Vec<u8> = Vec::new();
    let mut i: usize = 0;
    while i < v.len()
        invariant
            i <= v@.len(),
            out@.len() == i,
            forall|t: int| 0 <= t < i ==> near_wrapped(v@[t], out@[t]),
        decreases v@.len() - i,
    {
        let y = perturb_cell(v[i]);
        out.push(y);
        i += 1;
    }
    out
}

/// Law: moving the head right and then left restores the active cell, leaves
/// the left history exactly as it was, and leaves the content of the right
/// history unchanged cell for cell (a right history that was empty gains one
/// materialised zero cell, which reads the same as an unvisited cell).
pub proof fn lemma_next_prev_round_trip(t: TapeModel)
    ensures
        step_left(step_right(t)).cell == t.cell,
        step_left(step_right(t)).left == t.left,
        forall|i: int| #[trigger] right_cell(step_left(step_right(t)), i) == right_cell(t, i),
{
    let u = step_left(step_right(t));
    assert(step_right(t).left.drop_last() =~= t.left);
    if t.right.len() > 0 {
        assert(u.right =~= t.right);
    } else {
        assert(u.right.len() == 1);
        assert(u.right[0] == 0u8);
    }
}

/// Law: splicing a cell of value `v` to the left of the head and then deleting
/// the left neighbour returns `v` and leaves the tape exactly as it was.
pub proof fn lemma_insert_left_delete_left(t: TapeModel, v: u8)
    ensures
        t.left.push(v).len() > 0,
        t.left.push(v).last() == v,
        t.left.push(v).drop_last() == t.left,
{
    assert(t.left.push(v).drop_last() =~= t.left);
}

/// Law: doubling the resolution of a history that holds `[a, b]` yields
/// `[a, a, b, b]`, and doubling it again yields `[a, a, a, a, b, b, b, b]`.
pub proof fn lemma_expand_twice(a: u8, b: u8)
    ensures
        expanded(seq![a, b], 2) == seq![a, a, b, b],
        expanded(expanded(seq![a, b], 2), 2) == seq![a, a, a, a, b, b, b, b],
{
    let s1 = seq![a, b];
    assert(expanded(Seq::<u8>::empty(), 2) == Seq::<u8>::empty());
    assert(s1.drop_last() =~= seq![a]);
    assert(seq![a].drop_last() =~= Seq::<u8>::empty());
    assert(expanded(seq![a], 2) =~= seq![a, a]);
    assert(expanded(s1, 2) =~= seq![a, a, b, b]);
    let s2 = seq![a, a, b, b];
    assert(s2.drop_last() =~= seq![a, a, b]);
    assert(seq![a, a, b].drop_last() =~= seq![a, a]);
    assert(seq![a, a].drop_last() =~= seq![a]);
    assert(expanded(seq![a, a], 2) =~= seq![a, a, a, a]);
    assert(expanded(seq![a, a, b], 2) =~= seq![a, a, a, a, b, b]);
    assert(expanded(s2, 2) =~= seq![a, a, a, a, b, b, b, b]);
}

} // verus!
