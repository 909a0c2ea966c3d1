//! The ground on which a village stands.

use crate::cell::Cell;
use vstd::arithmetic::div_mod::{lemma_fundamental_div_mod, lemma_fundamental_div_mod_converse};
use vstd::prelude::*;
use vstd::std_specs::convert::FromSpecImpl;
use vstd::string::StringExecFns;

verus! {

/// A pixel of the picture of the ground.
#[derive(Copy, Clone, Eq, PartialEq, Debug, Structural)]
pub struct Point {
    pub x: i32,
    pub y: i32,
}

/// The picture of the ground and the plate of cells drawn on it.
///
/// The plate has the columns `0..=plate_width_cells` and the rows
/// `0..=plate_height_cells`.
#[derive(Debug)]
pub struct SceneryParams {
    pub image_path: String,
    pub bottom_left_corner: Point,
    pub upper_left_corner: Point,
    pub upper_right_corner: Point,
    pub bottom_right_corner: Point,
    pub plate_width_cells: u8,
    pub plate_height_cells: u8,
    pub base_cell_position: Point,
}

/// A ground ready for a village.
#[derive(Debug)]
pub struct Scenery {
    pub params: SceneryParams,
}

impl From<SceneryParams> for Scenery {
    fn from(value: SceneryParams) -> (scenery: Self) {
        Self { params: value }
    }
}

impl FromSpecImpl<SceneryParams> for Scenery {
    open spec fn obeys_from_spec() -> bool {
        true
    }

    open spec fn from_spec(value: SceneryParams) -> Self {
        Scenery { params: value }
    }
}

impl Scenery {
    /// The number of columns of the plate.
    pub open spec fn columns(&self) -> int {
        self.params.plate_width_cells + 1
    }

    /// The number of rows of the plate.
    pub open spec fn rows(&self) -> int {
        self.params.plate_height_cells + 1
    }

    /// The number of cells of the plate.
    pub open spec fn cell_count(&self) -> int {
        self.columns() * self.rows()
    }

    /// Whether `cell` lies on the plate.
    pub open spec fn holds(&self, cell: Cell) -> bool {
        0 <= cell.x < self.columns() && 0 <= cell.y < self.rows()
    }

    /// The index of `cell` when the cells are counted column by column.
    pub open spec fn index_of(&self, cell: Cell) -> int {
        cell.x * self.rows() + cell.y
    }

    /// The cell with the given index.
    pub open spec fn cell_of(&self, index: int) -> Cell {
        Cell { y: (index % self.rows()) as i16, x: (index / self.rows()) as i16 }
    }

    /// A cell of the plate and its index name each other.
    pub proof fn lemma_cell_index(&self, cell: Cell)
        requires
            self.holds(cell),
        ensures
            0 <= self.index_of(cell) < self.cell_count(),
            self.cell_of(self.index_of(cell)) == cell,
    {
        let rows = self.rows();
        let columns = self.columns();
        let index = self.index_of(cell);
        lemma_fundamental_div_mod_converse(index, rows, cell.x as int, cell.y as int);
        assert(0 <= cell.x * rows <= (columns - 1) * rows) by (nonlinear_arith)
            requires
                0 <= cell.x <= columns - 1,
                0 < rows,
        ;
        assert((columns - 1) * rows == columns * rows - rows) by (nonlinear_arith);
    }

    /// An index below the number of cells names a cell of the plate, which
    /// names it back.
    pub proof fn lemma_index_cell(&self, index: int)
        requires
            0 <= index < self.cell_count(),
        ensures
            self.holds(self.cell_of(index)),
            self.index_of(self.cell_of(index)) == index,
            self.cell_of(index).x == index / self.rows(),
            self.cell_of(index).y == index % self.rows(),
    {
        let rows = self.rows();
        let columns = self.columns();
        lemma_fundamental_div_mod(index, rows);
        let q = index / rows;
        let r = index % rows;
        assert(0 <= r < rows);
        assert(rows * q == q * rows) by (nonlinear_arith);
        assert(0 <= q < columns) by (nonlinear_arith)
            requires
                0 <= index < columns * rows,
                index == q * rows + r,
                0 <= r < rows,
                0 < rows,
        ;
    }

    /// The plate has at most 256 by 256 cells.
    pub proof fn lemma_cell_count_bound(&self)
        ensures
            0 < self.cell_count() <= 65536,
    {
        assert(0 < self.columns() * self.rows() <= 256 * 256) by (nonlinear_arith)
            requires
                0 < self.columns() <= 256,
                0 < self.rows() <= 256,
        ;
    }

    /// The number of cells of the plate.
    pub fn count_cells(&self) -> (count: usize)
        ensures
            count == self.cell_count(),
    {
        proof {
            self.lemma_cell_count_bound();
        }
        (self.params.plate_width_cells as usize + 1) * (self.params.plate_height_cells as usize + 1)
    }

    /// Whether `cell` lies on the plate.
    pub fn contains_cell(&self, cell: Cell) -> (inside: bool)
        ensures
            inside == self.holds(cell),
    {
        cell.x >= 0 && cell.x as i32 <= self.params.plate_width_cells as i32 && cell.y >= 0
            && cell.y as i32 <= self.params.plate_height_cells as i32
    }

    /// The index of `cell` when the cells are counted column by column.
    pub fn cell_index(&self, cell: Cell) -> (index: usize)
        requires
            self.holds(cell),
        ensures
            index == self.index_of(cell),
            index < self.cell_count(),
    {
        proof {
            self.lemma_cell_index(cell);
        }
        let rows: usize = self.params.plate_height_cells as usize + 1;
        assert(cell.x * rows <= 255 * 256) by (nonlinear_arith)
            requires
                0 <= cell.x <= 255,
                0 < rows <= 256,
        ;
        cell.x as usize * rows + cell.y as usize
    }

    /// The cell with the given index.
    pub fn cell_at(&self, index: usize) -> (cell: Cell)
        requires
            index < self.cell_count(),
        ensures
            cell == self.cell_of(index as int),
            self.holds(cell),
    {
        proof {
            self.lemma_index_cell(index as int);
            self.lemma_cell_count_bound();
        }
        let rows: usize = self.params.plate_height_cells as usize + 1;
        Cell { y: (index % rows) as i16, x: (index / rows) as i16 }
    }

    /// The parameters of the ground.
    pub fn params(&self) -> (params: &SceneryParams)
        ensures
            *params == self.params,
    {
        &self.params
    }
}

impl Clone for SceneryParams {
    fn clone(&self) -> (copy: Self)
        ensures
            copy == *self,
    {
        SceneryParams {
            image_path: self.image_path.clone(),
            bottom_left_corner: self.bottom_left_corner,
            upper_left_corner: self.upper_left_corner,
            upper_right_corner: self.upper_right_corner,
            bottom_right_corner: self.bottom_right_corner,
            plate_width_cells: self.plate_width_cells,
            plate_height_cells: self.plate_height_cells,
            base_cell_position: self.base_cell_position,
        }
    }
}

impl Clone for Scenery {
    fn clone(&self) -> (copy: Self)
        ensures
            copy == *self,
    {
        Scenery { params: self.params.clone() }
    }
}

impl Default for Scenery {
    fn default() -> (scenery: Self)
        ensures
            is_default_scenery(scenery),
    {
        default_scenery()
    }
}

/// Whether `scenery` is the ground that villages stand on unless told
/// otherwise.
pub open spec fn is_default_scenery(scenery: Scenery) -> bool {
    let params = scenery.params;
    &&& params.image_path@ == "assets/scenery.png"@
    &&& params.bottom_left_corner == Point { x: 229, y: 910 }
    &&& params.upper_left_corner == Point { x: 1215, y: 173 }
    &&& params.upper_right_corner == Point { x: 2200, y: 910 }
    &&& params.bottom_right_corner == Point { x: 1215, y: 1650 }
    &&& params.plate_width_cells == 44
    &&& params.plate_height_cells == 44
    &&& params.base_cell_position == Point { x: 229, y: 910 }
}

/// Whether `scenery` is the plain square ground.
pub open spec fn is_grid_scenery(scenery: Scenery) -> bool {
    let params = scenery.params;
    &&& params.image_path@ == "assets/grid.png"@
    &&& params.bottom_left_corner == Point { x: 0, y: 640 }
    &&& params.upper_left_corner == Point { x: 0, y: 0 }
    &&& params.upper_right_corner == Point { x: 640, y: 0 }
    &&& params.bottom_right_corner == Point { x: 640, y: 640 }
    &&& params.plate_width_cells == 44
    &&& params.plate_height_cells == 44
    &&& params.base_cell_position == Point { x: 0, y: 640 }
}

/// The ground that villages stand on unless told otherwise: a plate of 45 by
/// 45 cells on the picture of a meadow.
pub fn default_scenery() -> (scenery: Scenery)
    ensures
        is_default_scenery(scenery),
{
    let bottom_left_corner = Point { x: 229, y: 910 };
    let upper_left_corner = Point { x: 1215, y: 173 };
    let upper_right_corner = Point { x: 2200, y: 910 };
    let bottom_right_corner = Point { x: 1215, y: 1650 };

    Scenery::from(
        SceneryParams {
            image_path: String::from_str("assets/scenery.png"),
            bottom_left_corner,
            upper_left_corner,
            upper_right_corner,
            bottom_right_corner,
            plate_width_cells: 44,
            plate_height_cells: 44,
            base_cell_position: bottom_left_corner,
        },
    )
}

/// A plate of 45 by 45 cells on the picture of a plain square grid.
pub fn grid_scenery() -> (scenery: Scenery)
    ensures
        is_grid_scenery(scenery),
{
    let bottom_left_corner = Point { x: 0, y: 640 };
    let upper_left_corner = Point { x: 0, y: 0 };
    let upper_right_corner = Point { x: 640, y: 0 };
    let bottom_right_corner = Point { x: 640, y: 640 };

    Scenery::from(
        SceneryParams {
            image_path: String::from_str("assets/grid.png"),
            bottom_left_corner,
            upper_left_corner,
            upper_right_corner,
            bottom_right_corner,
            plate_width_cells: 44,
            plate_height_cells: 44,
            base_cell_position: bottom_left_corner,
        },
    )
}

} // verus!
