use vstd::prelude::*;

verus! {

/// One position of the grid: a single byte-range value.
#[derive(Clone, Copy, Debug, PartialEq, Eq, Structural)]
pub struct Cell {
    value: u8,
}

/// Sum of a sequence of values, as a mathematical integer.
pub open spec fn sum_of(s: Seq<u8>) -> int
    decreases s.len(),
{
    if s.len() == 0 {
        0
    } else {
        sum_of(s.drop_last()) + s.last()
    }
}

/// The values held by a sequence of cell references, in order.
pub open spec fn values_of(cells: Seq<&Cell>) -> Seq<u8> {
    cells.map_values(|c: &Cell| c@)
}

/// The values held by a sequence of cells, in order.
pub open spec fn cell_values(cells: Seq<Cell>) -> Seq<u8> {
    cells.map_values(|c: Cell| c@)
}

/// Weighted average of the neighbours rounded to the nearest integer, halves
/// rounded up: cardinal neighbours weigh 2, diagonal neighbours weigh 1.
pub open spec fn rounded_average(cardinal: Seq<u8>, diagonal: Seq<u8>) -> int {
    let num = 2 * sum_of(cardinal) + sum_of(diagonal);
    let den = 2 * cardinal.len() as int + diagonal.len() as int;
    (2 * num + den) / (2 * den)
}

/// The value a cell holding `v` takes next: one step toward the rounded
/// weighted average of its neighbours, or unchanged when already there.
pub open spec fn evolved_value(v: u8, cardinal: Seq<u8>, diagonal: Seq<u8>) -> u8 {
    let avg = rounded_average(cardinal, diagonal);
    if avg > v {
        (v + 1) as u8
    } else if avg < v {
        (v - 1) as u8
    } else {
        v
    }
}

impl View for Cell {
    type V = u8;

    closed spec fn view(&self) -> u8 {
        self.value
    }
}

impl Cell {
    pub fn new(value: u8) -> (r: Cell)
        ensures
            r@ == value,
    {
        Cell { value }
    }

    pub fn value(&self) -> (r: u8)
        ensures
            r == self@,
    {
        self.value
    }

    /// Sum of the values of `cells`, in a wide accumulator.
    fn sum_of_cells(cells: &Vec<&Cell>) -> (r: u128)
        ensures
            r == sum_of(values_of(cells@)),
            r <= 255 * cells@.len(),
    {
        let mut acc: u128 = 0;
        let mut i: usize = 0;
        while i < cells.len()
            invariant
                i <= cells@.len(),
                acc == sum_of(values_of(cells@).take(i as int)),
                acc <= 255 * i,
            decreases cells@.len() - i,
        {
            proof {
                let vs = values_of(cells@);
                assert(vs.take(i + 1).drop_last() =~= vs.take(i as int));
            }
            acc = acc + cells[i].value as u128;
            i = i + 1;
        }
        proof {
            assert(values_of(cells@).take(i as int) =~= values_of(cells@));
        }
        acc
    }

    /// The weighted average of the neighbours' values, rounded to the nearest
    /// integer with halves rounded up, computed exactly in integers.
    fn rounded_average_of_neighbours(cardinal_neighbours: &Vec<&Cell>, diagonal_neighbours: &Vec<&Cell>) -> (r: u8)
        requires
            cardinal_neighbours@.len() + diagonal_neighbours@.len() > 0,
        ensures
            r == rounded_average(values_of(cardinal_neighbours@), values_of(diagonal_neighbours@)),
    {
        let cardinal_sum = Cell::sum_of_cells(cardinal_neighbours);
        let diagonal_sum = Cell::sum_of_cells(diagonal_neighbours);
        let cardinal_len = cardinal_neighbours.len() as u128;
        let diagonal_len = diagonal_neighbours.len() as u128;
        assert(cardinal_sum <= 255 * 0x1_0000_0000_0000_0000) by (nonlinear_arith)
            requires
                cardinal_sum <= 255 * cardinal_len,
                cardinal_len < 0x1_0000_0000_0000_0000,
        ;
        assert(diagonal_sum <= 255 * 0x1_0000_0000_0000_0000) by (nonlinear_arith)
            requires
                diagonal_sum <= 255 * diagonal_len,
                diagonal_len < 0x1_0000_0000_0000_0000,
        ;
        // cardinal neighbours weigh twice as much as diagonal ones
        let num: u128 = 2 * cardinal_sum + diagonal_sum;
        let den: u128 = 2 * cardinal_len + diagonal_len;
        proof {
            lemma_rounded_average_bounded(values_of(cardinal_neighbours@), values_of(diagonal_neighbours@));
        }
        ((2 * num + den) / (2 * den)) as u8
    }

    /// The cell that follows this one, given the cells directly above, below,
    /// left and right of it (`cardinal_neighbours`) and those corner-adjacent
    /// to it (`diagonal_neighbours`). Both sets may be partial at an edge but
    /// not both empty.
    pub fn evolve(&self, cardinal_neighbours: &Vec<&Cell>, diagonal_neighbours: &Vec<&Cell>) -> (r: Cell)
        requires
            cardinal_neighbours@.len() + diagonal_neighbours@.len() > 0,
        ensures
            r@ == evolved_value(self@, values_of(cardinal_neighbours@), values_of(diagonal_neighbours@)),
    {
        let rounded_average = Cell::rounded_average_of_neighbours(cardinal_neighbours, diagonal_neighbours);
        if rounded_average > self.value {
            Cell { value: self.value + 1 }
        } else if rounded_average < self.value {
            Cell { value: self.value - 1 }
        } else {
            Cell { value: self.value }
        }
    }
}

/// A cell moves exactly one step toward the rounded weighted average of its
/// neighbours: up by one when the average is above its value, down by one
/// when below, and not at all when equal. The average is itself a byte
/// value, so the step never leaves the range 0 to 255.
pub proof fn lemma_evolve_steps_toward_average(v: u8, cardinal: Seq<u8>, diagonal: Seq<u8>)
    requires
        cardinal.len() + diagonal.len() > 0,
    ensures
        0 <= rounded_average(cardinal, diagonal) <= 255,
        rounded_average(cardinal, diagonal) > v ==> evolved_value(v, cardinal, diagonal) == v + 1,
        rounded_average(cardinal, diagonal) < v ==> evolved_value(v, cardinal, diagonal) == v - 1,
        rounded_average(cardinal, diagonal) == v ==> evolved_value(v, cardinal, diagonal) == v,
{
    lemma_rounded_average_bounded(cardinal, diagonal);
}

/// One cardinal neighbour weighs exactly as much as two diagonal neighbours
/// of the same value.
pub proof fn lemma_cardinal_weighs_two_diagonals(cardinal: Seq<u8>, diagonal: Seq<u8>, x: u8)
    ensures
        rounded_average(cardinal.push(x), diagonal) == rounded_average(
            cardinal,
            diagonal.push(x).push(x),
        ),
{
    lemma_sum_push(cardinal, x);
    lemma_sum_push(diagonal, x);
    lemma_sum_push(diagonal.push(x), x);
}

/// The rounded weighted average, and so the next value of a cell, depends on
/// which values its cardinal and diagonal neighbours hold, not on the order
/// in which they are listed.
pub proof fn lemma_average_ignores_order(
    cardinal: Seq<u8>,
    diagonal: Seq<u8>,
    cardinal2: Seq<u8>,
    diagonal2: Seq<u8>,
)
    requires
        cardinal.to_multiset() == cardinal2.to_multiset(),
        diagonal.to_multiset() == diagonal2.to_multiset(),
    ensures
        rounded_average(cardinal, diagonal) == rounded_average(cardinal2, diagonal2),
        forall|v: u8|
            #[trigger] evolved_value(v, cardinal, diagonal) == evolved_value(v, cardinal2, diagonal2),
{
    lemma_sum_permutation(cardinal, cardinal2);
    lemma_sum_permutation(diagonal, diagonal2);
}

/// Appending a value adds it to the sum.
proof fn lemma_sum_push(s: Seq<u8>, x: u8)
    ensures
        sum_of(s.push(x)) == sum_of(s) + x,
{
    assert(s.push(x).drop_last() =~= s);
}

/// Taking out the value at `i` takes it off the sum.
proof fn lemma_sum_remove(s: Seq<u8>, i: int)
    requires
        0 <= i < s.len(),
    ensures
        sum_of(s) == sum_of(s.remove(i)) + s[i],
    decreases s.len(),
{
    if i == s.len() - 1 {
        assert(s.remove(i) =~= s.drop_last());
    } else {
        lemma_sum_remove(s.drop_last(), i);
        assert(s.remove(i).drop_last() =~= s.drop_last().remove(i));
        assert(s.remove(i).last() == s.last());
    }
}

/// Sequences holding the same values, in any order, have the same sum.
proof fn lemma_sum_permutation(a: Seq<u8>, b: Seq<u8>)
    requires
        a.to_multiset() == b.to_multiset(),
    ensures
        sum_of(a) == sum_of(b),
        a.len() == b.len(),
    decreases a.len(),
{
    broadcast use vstd::seq_lib::group_to_multiset_ensures;
    broadcast use vstd::multiset::group_multiset_axioms;

    assert(a.len() == a.to_multiset().len());
    assert(b.len() == b.to_multiset().len());
    if a.len() == 0 {
        assert(b.len() == 0);
    } else {
        let x = a.last();
        let rest = a.drop_last();
        assert(rest.push(x) =~= a);
        assert(a.to_multiset() =~= rest.to_multiset().insert(x));
        assert(b.to_multiset().count(x) > 0);
        assert(b.contains(x));
        let i = choose|i: int| 0 <= i < b.len() && b[i] == x;
        assert(b.remove(i).to_multiset() =~= b.to_multiset().remove(x));
        assert(rest.to_multiset() =~= b.remove(i).to_multiset());
        lemma_sum_permutation(rest, b.remove(i));
        lemma_sum_remove(b, i);
    }
}

/// Two sequences of cells holding the same values are the same cells.
pub proof fn lemma_cells_determined_by_values(a: Seq<Cell>, b: Seq<Cell>)
    requires
        cell_values(a) == cell_values(b),
    ensures
        a == b,
{
    assert(a.len() == cell_values(a).len());
    assert(b.len() == cell_values(b).len());
    assert forall|k: int| 0 <= k < a.len() implies a[k] == b[k] by {
        assert(cell_values(a)[k] == cell_values(b)[k]);
        assert(cell_values(a)[k] == a[k]@);
        assert(cell_values(b)[k] == b[k]@);
    }
    assert(a =~= b);
}

/// Appending a cell appends its value.
pub proof fn lemma_values_of_push(s: Seq<&Cell>, c: &Cell)
    ensures
        values_of(s.push(c)) == values_of(s).push(c@),
{
    assert(values_of(s.push(c)) =~= values_of(s).push(c@));
}

/// Each value is at most 255, so the sum is at most 255 per value.
pub proof fn lemma_sum_bounded(s: Seq<u8>)
    ensures
        0 <= sum_of(s) <= 255 * s.len(),
    decreases s.len(),
{
    if s.len() > 0 {
        lemma_sum_bounded(s.drop_last());
    }
}

/// The rounded weighted average of byte values is itself a byte value.
pub proof fn lemma_rounded_average_bounded(cardinal: Seq<u8>, diagonal: Seq<u8>)
    requires
        cardinal.len() + diagonal.len() > 0,
    ensures
        0 <= rounded_average(cardinal, diagonal) <= 255,
{
    lemma_sum_bounded(cardinal);
    lemma_sum_bounded(diagonal);
    let num = 2 * sum_of(cardinal) + sum_of(diagonal);
    let den = 2 * cardinal.len() as int + diagonal.len() as int;
    assert(0 <= num <= 255 * den) by (nonlinear_arith)
        requires
            num == 2 * sum_of(cardinal) + sum_of(diagonal),
            den == 2 * cardinal.len() as int + diagonal.len() as int,
            0 <= sum_of(cardinal) <= 255 * cardinal.len(),
            0 <= sum_of(diagonal) <= 255 * diagonal.len(),
    ;
    assert(0 <= (2 * num + den) / (2 * den) <= 255) by (nonlinear_arith)
        requires
            0 <= num <= 255 * den,
            den > 0,
    ;
}

} // verus!
