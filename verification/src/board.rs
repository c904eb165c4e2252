use vstd::prelude::*;

verus! {

/// Row-major index of the cell at (`row`, `col`) in the 81-cell grid.
pub open spec fn cell_index(row: int, col: int) -> int {
    row * 9 + col
}

/// (`row`, `col`) names a cell of the 9x9 grid.
pub open spec fn in_grid(row: int, col: int) -> bool {
    0 <= row < 9 && 0 <= col < 9
}

/// Every cell holds a digit 0..=9 (0 stands for an empty cell).
pub open spec fn digits_in_range(s: Seq<u8>) -> bool {
    forall|i: int| 0 <= i < 81 ==> s[i] <= 9
}

/// A 9x9 Sudoku grid, stored row-major. 0 marks an empty cell.
pub struct Board {
    cells: Vec<u8>,
}

impl View for Board {
    type V = Seq<u8>;

    closed spec fn view(&self) -> Seq<u8> {
        self.cells@
    }
}

impl Board {
    /// Well-formed: exactly 81 cells, each a digit 0..=9.
    pub open spec fn wf(&self) -> bool {
        self@.len() == 81 && digits_in_range(self@)
    }

    /// An all-empty board.
    pub fn new() -> (b: Board)
        ensures
            b.wf(),
            forall|i: int| 0 <= i < 81 ==> b@[i] == 0,
    {
        let mut cells: Vec<u8> = Vec::new();
        while cells.len() < 81
            invariant
                cells@.len() <= 81,
                forall|i: int| 0 <= i < cells@.len() ==> cells@[i] == 0,
            decreases 81 - cells@.len(),
        {
            cells.push(0);
        }
        Board { cells }
    }

    /// The digit at (`row`, `col`).
    pub fn get(&self, row: usize, col: usize) -> (v: u8)
        requires
            self.wf(),
            row < 9,
            col < 9,
        ensures
            v == self@[cell_index(row as int, col as int)],
    {
        self.cells[row * 9 + col]
    }

    /// Builds a board from nine rows of nine digits each. Returns `None`
    /// exactly when the shape is not 9x9 or some value is above 9.
    pub fn from_rows(rows: &Vec<Vec<u8>>) -> (r: Option<Board>)
        ensures
            match r {
                Some(b) => {
                    &&& b.wf()
                    &&& rows@.len() == 9
                    &&& forall|i: int| 0 <= i < 9 ==> (#[trigger] rows@[i])@.len() == 9
                    &&& forall|i: int, j: int|
                        in_grid(i, j) ==> b@[cell_index(i, j)] == rows@[i]@[j]
                },
                None => !{
                    &&& rows@.len() == 9
                    &&& forall|i: int| 0 <= i < 9 ==> (#[trigger] rows@[i])@.len() == 9
                    &&& forall|i: int, j: int| in_grid(i, j) ==> rows@[i]@[j] <= 9
                },
            },
    {
        if rows.len() != 9 {
            return None;
        }
        let mut cells: Vec<u8> = Vec::new();
        let mut i: usize = 0;
        while i < 9
            invariant
                rows@.len() == 9,
                i <= 9,
                cells@.len() == 9 * i,
                forall|a: int| 0 <= a < i ==> (#[trigger] rows@[a])@.len() == 9,
                forall|k: int| 0 <= k < cells@.len() ==> #[trigger] cells@[k] <= 9,
                forall|a: int, b: int|
                    #![trigger cells@[cell_index(a, b)]]
                    0 <= a < i && 0 <= b < 9 ==> cells@[cell_index(a, b)] == rows@[a]@[b],
            decreases 9 - i,
        {
            let row_i = &rows[i];
            if row_i.len() != 9 {
                return None;
            }
            let mut j: usize = 0;
            while j < 9
                invariant
                    rows@.len() == 9,
                    i < 9,
                    j <= 9,
                    row_i@ == rows@[i as int]@,
                    row_i@.len() == 9,
                    cells@.len() == 9 * i + j,
                    forall|a: int| 0 <= a < i ==> (#[trigger] rows@[a])@.len() == 9,
                    forall|k: int| 0 <= k < cells@.len() ==> #[trigger] cells@[k] <= 9,
                    forall|a: int, b: int|
                        #![trigger cells@[cell_index(a, b)]]
                        0 <= a < i && 0 <= b < 9 ==> cells@[cell_index(a, b)] == rows@[a]@[b],
                    forall|b: int|
                        #![trigger cells@[cell_index(i as int, b)]]
                        0 <= b < j ==> cells@[cell_index(i as int, b)] == rows@[i as int]@[b],
                decreases 9 - j,
            {
                let v = row_i[j];
                if v > 9 {
                    proof {
                        assert(in_grid(i as int, j as int));
                        assert(rows@[i as int]@[j as int] > 9);
                    }
                    return None;
                }
                cells.push(v);
                j += 1;
            }
            i += 1;
        }
        let b = Board { cells };
        proof {
            assert forall|k: int| 0 <= k < 81 implies b@[k] <= 9 by {
                assert(b@[k] == cells@[k]);
            }
        }
        Some(b)
    }

    /// Writes digit `v` at (`row`, `col`); every other cell keeps its value.
    pub fn set(&mut self, row: usize, col: usize, v: u8)
        requires
            old(self).wf(),
            row < 9,
            col < 9,
            v <= 9,
        ensures
            final(self)@ == old(self)@.update(cell_index(row as int, col as int), v),
            final(self).wf(),
    {
        self.cells.set(row * 9 + col, v);
    }
}

} // verus!
