//! Redraw of a continuous part of one grid row.

use vstd::prelude::*;

use crate::value::{seq_view, value_view, Value, ValueView};

verus! {

/// A portion of a grid line to draw.
#[derive(Debug, Clone)]
pub struct Cell {
    /// The text to draw.
    pub text: String,
    /// The highlight to apply, from an earlier highlight-table event; when
    /// absent, the most recent highlight of the same event applies.
    pub hl_id: Option<u64>,
    /// How many times to draw the text, the first time included.
    pub repeat: Option<u64>,
}

/// The model of a cell.
pub ghost struct CellView {
    pub text: Seq<char>,
    pub hl_id: Option<u64>,
    pub repeat: Option<u64>,
}

impl View for Cell {
    type V = CellView;

    open spec fn view(&self) -> CellView {
        CellView { text: self.text@, hl_id: self.hl_id, repeat: self.repeat }
    }
}

/// Redraw a continuous part of a row on a grid.
#[derive(Debug, Clone)]
pub struct GridLine {
    /// The grid to draw on.
    pub grid: u64,
    /// The row to draw.
    pub row: u64,
    /// The column to start drawing on.
    pub col_start: u64,
    /// The cells to draw.
    pub cells: Vec<Cell>,
}

/// The model of a grid-line event.
pub ghost struct GridLineView {
    pub grid: u64,
    pub row: u64,
    pub col_start: u64,
    pub cells: Seq<CellView>,
}

/// The models of a cell sequence.
pub open spec fn cell_views(cells: Seq<Cell>) -> Seq<CellView> {
    cells.map_values(|c: Cell| c@)
}

impl View for GridLine {
    type V = GridLineView;

    open spec fn view(&self) -> GridLineView {
        GridLineView {
            grid: self.grid,
            row: self.row,
            col_start: self.col_start,
            cells: cell_views(self.cells@),
        }
    }
}

/// The `u64` a wire value holds, if it holds one.
pub open spec fn spec_as_u64(v: ValueView) -> Option<u64> {
    if v matches ValueView::Int(i) && 0 <= i <= 0xFFFF_FFFF_FFFF_FFFF {
        Some(v->Int_0 as u64)
    } else {
        None
    }
}

/// How a cell is read from its wire shape: an array of one to three
/// elements, text first, then the optional highlight id and repeat
/// count.  A missing trailing element is an absent optional field; a
/// present element of the wrong type rejects the cell.
pub open spec fn spec_parse_cell(v: ValueView) -> Option<CellView> {
    if v matches ValueView::Array(items) && v->Array_0.len() >= 1 && v->Array_0[0] is Str {
        let items = v->Array_0;
        let text = items[0]->Str_0;
        if items.len() >= 2 && spec_as_u64(items[1]) is None {
            None
        } else if items.len() >= 3 && spec_as_u64(items[2]) is None {
            None
        } else {
            Some(
                CellView {
                    text,
                    hl_id: if items.len() >= 2 {
                        spec_as_u64(items[1])
                    } else {
                        None
                    },
                    repeat: if items.len() >= 3 {
                        spec_as_u64(items[2])
                    } else {
                        None
                    },
                },
            )
        }
    } else {
        None
    }
}

/// How the cell list is read, left to right; one bad cell rejects the
/// whole event.
pub open spec fn spec_parse_cells(items: Seq<ValueView>, i: int) -> Option<Seq<CellView>>
    decreases items.len() - i,
{
    if i < 0 || i >= items.len() {
        Some(Seq::empty())
    } else {
        match spec_parse_cell(items[i]) {
            Some(c) => match spec_parse_cells(items, i + 1) {
                Some(cs) => Some(seq![c] + cs),
                None => None,
            },
            None => None,
        }
    }
}

/// How a grid-line event is read from its parameter array: grid, row,
/// starting column, then the cell list, each required and typed.
pub open spec fn spec_parse_grid_line(v: ValueView) -> Option<GridLineView> {
    if v matches ValueView::Array(items) && v->Array_0.len() >= 4 {
        let items = v->Array_0;
        if spec_as_u64(items[0]) is Some && spec_as_u64(items[1]) is Some && spec_as_u64(
            items[2],
        ) is Some && items[3] is Array {
            match spec_parse_cells(items[3]->Array_0, 0) {
                Some(cells) => Some(
                    GridLineView {
                        grid: spec_as_u64(items[0])->0,
                        row: spec_as_u64(items[1])->0,
                        col_start: spec_as_u64(items[2])->0,
                        cells,
                    },
                ),
                None => None,
            }
        } else {
            None
        }
    } else {
        None
    }
}

impl Cell {
    /// Reads one cell from its wire shape.
    pub fn parse(value: Value) -> (r: Option<Cell>)
        ensures
            match r {
                Some(c) => spec_parse_cell(value@) == Some(c@),
                None => spec_parse_cell(value@) is None,
            },
    {
        let ghost vv = value@;
        let items = match value.into_array() {
            Some(items) => items,
            None => {
                return None;
            },
        };
        proof {
            crate::value::lemma_seq_view(items@);
        }
        if items.len() == 0 {
            return None;
        }
        let n = items.len();
        let mut it = items;
        let repeat_v: Option<Value> = if n >= 3 {
            Some(crate::value::take_at(&mut it, 2))
        } else {
            None
        };
        let hl_v: Option<Value> = if n >= 2 {
            Some(crate::value::take_at(&mut it, 1))
        } else {
            None
        };
        let text_v = crate::value::take_at(&mut it, 0);
        let text = match text_v.into_string() {
            Some(s) => s,
            None => {
                return None;
            },
        };
        let hl_id = match hl_v {
            Some(v) => match v.as_u64() {
                Some(x) => Some(x),
                None => {
                    return None;
                },
            },
            None => None,
        };
        let repeat = match repeat_v {
            Some(v) => match v.as_u64() {
                Some(x) => Some(x),
                None => {
                    return None;
                },
            },
            None => None,
        };
        Some(Cell { text, hl_id, repeat })
    }
}

impl GridLine {
    /// Reads one grid-line event from its parameter array.
    #[verifier::loop_isolation(false)]
    pub fn parse(value: Value) -> (r: Option<GridLine>)
        ensures
            match r {
                Some(g) => spec_parse_grid_line(value@) == Some(g@),
                None => spec_parse_grid_line(value@) is None,
            },
    {
        let ghost vv = value@;
        let items = match value.into_array() {
            Some(items) => items,
            None => {
                return None;
            },
        };
        proof {
            crate::value::lemma_seq_view(items@);
        }
        if items.len() < 4 {
            return None;
        }
        let grid = match items[0].as_u64() {
            Some(x) => x,
            None => {
                return None;
            },
        };
        let row = match items[1].as_u64() {
            Some(x) => x,
            None => {
                return None;
            },
        };
        let col_start = match items[2].as_u64() {
            Some(x) => x,
            None => {
                return None;
            },
        };
        let mut it = items;
        let cells_v = crate::value::take_at(&mut it, 3);
        let cell_items = match cells_v.into_array() {
            Some(cs) => cs,
            None => {
                return None;
            },
        };
        proof {
            crate::value::lemma_seq_view(cell_items@);
        }
        let ghost cvs = seq_view(cell_items@);
        let mut cells: Vec<Cell> = Vec::new();
        let mut rest = cell_items;
        let ghost total = cvs.len();
        let mut i: usize = 0;
        proof {
            assert(cell_views(cells@) =~= Seq::<CellView>::empty());
        }
        while i < rest.len()
            invariant
                i <= rest@.len(),
                rest@.len() == total,
                forall|j: int|
                    i <= j < rest@.len() ==> value_view(rest@[j]) == cvs[j],
                spec_parse_cells(cvs, 0) == (match spec_parse_cells(cvs, i as int) {
                    Some(cs) => Some(cell_views(cells@) + cs),
                    None => None::<Seq<CellView>>,
                }),
            decreases rest@.len() - i,
        {
            let ghost rest_pre = rest@;
            let cv = crate::value::take_at(&mut rest, i);
            proof {
                assert(value_view(rest_pre[i as int]) == cvs[i as int]);
                assert(value_view(cv) == cvs[i as int]);
            }
            let ghost pre = cell_views(cells@);
            match Cell::parse(cv) {
                Some(c) => {
                    cells.push(c);
                    proof {
                        assert(spec_parse_cell(cvs[i as int]) == Some(cells@.last()@));
                        assert(cell_views(cells@) =~= pre.push(cells@.last()@));
                        reveal_with_fuel(spec_parse_cells, 2);
                        assert((i as int) < cvs.len());
                        let tail = spec_parse_cells(cvs, i as int + 1);
                        if tail is Some {
                            assert(spec_parse_cells(cvs, i as int) == Some(
                                seq![cells@.last()@] + tail->0,
                            ));
                        } else {
                            assert(spec_parse_cells(cvs, i as int) is None);
                        }
                        if tail is Some {
                            let cs = tail->0;
                            assert(pre + (seq![cells@.last()@] + cs) =~= cell_views(cells@) + cs);
                            assert(spec_parse_cells(cvs, 0) == Some(cell_views(cells@) + cs));
                        } else {
                            assert(spec_parse_cells(cvs, 0) is None);
                        }
                    }
                },
                None => {
                    return None;
                },
            }
            i = i + 1;
        }
        proof {
            assert(spec_parse_cells(cvs, total as int) == Some(Seq::<CellView>::empty()));
            assert(cell_views(cells@) + Seq::<CellView>::empty() =~= cell_views(cells@));
        }
        Some(GridLine { grid, row, col_start, cells })
    }
}

} // verus!
