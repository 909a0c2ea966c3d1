//! The village: a grid of buildings and walls with their life points.

use crate::building::{Building, BuildingCharacteristics, PlotSize};
use crate::cell::Cell;
use crate::scenery::Scenery;
use crate::units::{product, MAX_FINENESS};
use crate::wall::{Wall, WallConnectionType};
use vstd::prelude::*;

verus! {

/// What a component is.
#[derive(Copy, Clone, Eq, PartialEq, Debug, Structural)]
pub enum ComponentType {
    Building(Building),
    Wall(Wall),
}

/// Something that stands on the grid.
///
/// `life_points` is counted in life units. A component without life points
/// cannot be damaged and never counts as destroyed.
#[derive(Copy, Clone, Eq, PartialEq, Debug, Structural)]
pub struct Component {
    pub life_points: Option<u32>,
    pub kind: ComponentType,
}

impl Component {
    /// Whether the component has life points and has lost them all.
    pub open spec fn destroyed(&self) -> bool {
        self.life_points == Some(0u32)
    }

    /// The footprint of the component: that of its kind for a building, one
    /// cell for a wall.
    pub open spec fn footprint(&self) -> PlotSize {
        match self.kind {
            ComponentType::Building(b) => b.building_type.footprint(),
            ComponentType::Wall(_) => PlotSize::X1Invisible,
        }
    }

    /// Whether the component is a building that defends the village.
    pub open spec fn defensive(&self) -> bool {
        match self.kind {
            ComponentType::Building(b) => b.characteristics == BuildingCharacteristics::Defense,
            ComponentType::Wall(_) => false,
        }
    }

    /// Whether the component is a wall.
    pub open spec fn wall(&self) -> bool {
        self.kind is Wall
    }

    /// Whether the component has life points and has lost them all.
    #[verifier::when_used_as_spec(destroyed)]
    pub fn is_destroyed(&self) -> (destroyed: bool)
        ensures
            destroyed == self.destroyed(),
    {
        match self.life_points {
            Some(lp) => lp == 0,
            None => false,
        }
    }

    /// The footprint of the component.
    #[verifier::when_used_as_spec(footprint)]
    pub fn get_plot_size(&self) -> (size: PlotSize)
        ensures
            size == self.footprint(),
    {
        match &self.kind {
            ComponentType::Building(b) => b.building_type.plot_size(),
            ComponentType::Wall(_) => PlotSize::X1Invisible,
        }
    }
}

/// Whether `comp` is a building that defends the village.
pub fn is_defensive_building(comp: &Component) -> (defensive: bool)
    ensures
        defensive == comp.defensive(),
{
    match &comp.kind {
        ComponentType::Building(b) => match b.characteristics {
            BuildingCharacteristics::Defense => true,
            BuildingCharacteristics::Passive => false,
        },
        ComponentType::Wall(_) => false,
    }
}

/// Whether `comp` is a wall.
pub fn is_wall(comp: &Component) -> (wall: bool)
    ensures
        wall == comp.wall(),
{
    match &comp.kind {
        ComponentType::Building(_) => false,
        ComponentType::Wall(_) => true,
    }
}

/// Whether the square of side `size_a` at `pos_a` and the square of side
/// `size_b` at `pos_b` share a cell.
pub open spec fn footprints_overlap(pos_a: Cell, size_a: PlotSize, pos_b: Cell, size_b: PlotSize) -> bool {
    &&& pos_b.x < pos_a.x + size_a.diameter()
    &&& pos_a.x < pos_b.x + size_b.diameter()
    &&& pos_b.y < pos_a.y + size_a.diameter()
    &&& pos_a.y < pos_b.y + size_b.diameter()
}

/// Whether `cell` lies in the square of side `size` at `origin`.
pub open spec fn footprint_holds(origin: Cell, size: PlotSize, cell: Cell) -> bool {
    &&& origin.x <= cell.x < origin.x + size.diameter()
    &&& origin.y <= cell.y < origin.y + size.diameter()
}

/// Whether two footprints share a cell.
pub fn collides(pos_a: Cell, size_a: PlotSize, pos_b: Cell, size_b: PlotSize) -> (overlap: bool)
    ensures
        overlap == footprints_overlap(pos_a, size_a, pos_b, size_b),
{
    if pos_b.x as i32 >= pos_a.x as i32 + size_a.cell_diameter() as i32 {
        return false;
    }
    if pos_a.x as i32 >= pos_b.x as i32 + size_b.cell_diameter() as i32 {
        return false;
    }
    if pos_b.y as i32 >= pos_a.y as i32 + size_a.cell_diameter() as i32 {
        return false;
    }
    if pos_a.y as i32 >= pos_b.y as i32 + size_b.cell_diameter() as i32 {
        return false;
    }
    true
}

/// Two footprints overlap exactly when some cell lies in both.
pub proof fn lemma_overlap_is_shared_cell(pos_a: Cell, size_a: PlotSize, pos_b: Cell, size_b: PlotSize)
    requires
        pos_a.x + size_a.diameter() <= i16::MAX,
        pos_a.y + size_a.diameter() <= i16::MAX,
        pos_b.x + size_b.diameter() <= i16::MAX,
        pos_b.y + size_b.diameter() <= i16::MAX,
    ensures
        footprints_overlap(pos_a, size_a, pos_b, size_b) <==> exists|cell: Cell|
            footprint_holds(pos_a, size_a, cell) && #[trigger] footprint_holds(
                pos_b,
                size_b,
                cell,
            ),
{
    if footprints_overlap(pos_a, size_a, pos_b, size_b) {
        let x = if pos_a.x >= pos_b.x {
            pos_a.x
        } else {
            pos_b.x
        };
        let y = if pos_a.y >= pos_b.y {
            pos_a.y
        } else {
            pos_b.y
        };
        let cell = Cell { y, x };
        assert(footprint_holds(pos_a, size_a, cell) && footprint_holds(pos_b, size_b, cell));
    }
}

/// What is counted over the whole village.
#[derive(Copy, Clone, Eq, PartialEq, Debug, Default, Structural)]
pub struct State {
    /// The number of defensive buildings that are not destroyed.
    pub remaining_defenses: usize,
}

pub type VillageOperationResult<R> = Result<R, VillageOperationError>;

/// Why a change to the village was refused.
#[derive(Copy, Clone, Eq, PartialEq, Debug, Structural)]
pub enum VillageOperationError {
    /// The footprint of the new component shares a cell with a component
    /// that is already placed.
    ComponentCollides,
}

/// The name of a placed component: the index of the cell of its corner.
#[derive(Copy, Clone, Eq, PartialEq, Hash, Debug, Structural)]
pub struct ComponentId(pub usize);

/// Whether what stands in a slot is a defensive building that is not
/// destroyed.
pub open spec fn is_live_defense(slot: Option<Component>) -> bool {
    slot is Some && slot.unwrap().defensive() && !slot.unwrap().destroyed()
}

/// The number of defensive buildings in `slots` that are not destroyed.
pub open spec fn live_defenses(slots: Seq<Option<Component>>) -> nat
    decreases slots.len(),
{
    if slots.len() == 0 {
        0
    } else {
        live_defenses(slots.drop_last()) + if is_live_defense(slots.last()) {
            1nat
        } else {
            0nat
        }
    }
}

/// Replacing one slot changes the count by what the slot contributes.
pub proof fn lemma_live_defenses_update(slots: Seq<Option<Component>>, i: int, slot: Option<Component>)
    requires
        0 <= i < slots.len(),
    ensures
        live_defenses(slots.update(i, slot)) + (if is_live_defense(slots[i]) {
            1nat
        } else {
            0nat
        }) == live_defenses(slots) + (if is_live_defense(slot) {
            1nat
        } else {
            0nat
        }),
        live_defenses(slots) <= slots.len(),
    decreases slots.len(),
{
    let updated = slots.update(i, slot);
    if i == slots.len() - 1 {
        assert(updated.drop_last() =~= slots.drop_last());
        lemma_live_defenses_bound(slots.drop_last());
    } else {
        assert(updated.drop_last() =~= slots.drop_last().update(i, slot));
        lemma_live_defenses_update(slots.drop_last(), i, slot);
    }
}

/// There are no more live defenses than slots.
pub proof fn lemma_live_defenses_bound(slots: Seq<Option<Component>>)
    ensures
        live_defenses(slots) <= slots.len(),
    decreases slots.len(),
{
    if slots.len() > 0 {
        lemma_live_defenses_bound(slots.drop_last());
    }
}

/// A village: the ground, what stands on each cell, and the count of its
/// live defenses.
///
/// A component is stored at the cell of its corner and covers the square of
/// cells of its footprint from there.
///
/// A village counts its life points in life units, or finer: see
/// [`Village::grain`].
pub struct Village {
    grid: Vec<Option<Component>>,
    state: State,
    scenery: Scenery,
    fineness: u32,
}

/// What stands in a slot of a village that counts `factor` times finer.
pub open spec fn finer(slot: Option<Component>, factor: int) -> Option<Component> {
    match slot {
        Some(component) => Some(
            Component {
                life_points: match component.life_points {
                    Some(life_points) => Some((life_points * factor) as u32),
                    None => None,
                },
                kind: component.kind,
            },
        ),
        None => None,
    }
}

/// Whether `after` is `before`, counting `factor` times finer.
pub open spec fn is_refined(before: Village, after: Village, factor: int) -> bool {
    &&& after.wf()
    &&& after.terrain() == before.terrain()
    &&& after.grain() == before.grain() * factor
    &&& after.counted_defenses() == before.counted_defenses()
    &&& after@.len() == before@.len()
    &&& forall|index: int|
        0 <= index < before@.len() ==> #[trigger] after@[index] == finer(before@[index], factor)
}

impl View for Village {
    type V = Seq<Option<Component>>;

    /// What is stored at each cell, column by column.
    closed spec fn view(&self) -> Seq<Option<Component>> {
        self.grid@
    }
}

impl Village {
    /// The ground of the village.
    pub closed spec fn terrain(&self) -> Scenery {
        self.scenery
    }

    /// The counter of live defenses.
    pub closed spec fn counted_defenses(&self) -> nat {
        self.state.remaining_defenses as nat
    }

    /// The fineness of the village: it counts its life in this many parts
    /// of a life unit.
    pub closed spec fn grain(&self) -> int {
        self.fineness as int
    }

    /// Whether the village can count `factor` times finer: the fineness
    /// stays within bounds, and so do the life points.
    pub open spec fn refinable(&self, factor: int) -> bool {
        &&& factor >= 1
        &&& self.grain() * factor <= MAX_FINENESS
        &&& forall|index: int|
            0 <= index < self@.len() && (#[trigger] self@[index]) is Some
                && self@[index].unwrap().life_points is Some
                ==> self@[index].unwrap().life_points.unwrap() * factor <= u32::MAX
    }

    /// The number of columns of the grid.
    pub open spec fn columns(&self) -> int {
        self.terrain().columns()
    }

    /// The number of rows of the grid.
    pub open spec fn rows(&self) -> int {
        self.terrain().rows()
    }

    /// Whether `cell` lies on the grid.
    pub open spec fn in_grid(&self, cell: Cell) -> bool {
        self.terrain().holds(cell)
    }

    /// The index at which the grid stores `cell`.
    pub open spec fn index_of(&self, cell: Cell) -> int {
        self.terrain().index_of(cell)
    }

    /// The cell that the grid stores at `index`.
    pub open spec fn cell_of(&self, index: int) -> Cell {
        self.terrain().cell_of(index)
    }

    /// The component named `id`, if there is one.
    pub open spec fn component(&self, id: ComponentId) -> Option<Component> {
        if id.0 < self@.len() {
            self@[id.0 as int]
        } else {
            None
        }
    }

    /// Whether the slot `index` holds a component whose footprint covers
    /// `cell`.
    pub open spec fn covers(&self, index: int, cell: Cell) -> bool {
        &&& 0 <= index < self@.len()
        &&& self@[index] is Some
        &&& footprint_holds(self.cell_of(index), self@[index].unwrap().footprint(), cell)
    }

    /// Whether some component covers `cell`.
    pub open spec fn occupied(&self, cell: Cell) -> bool {
        exists|index: int| self.covers(index, cell)
    }

    /// Whether some component that is not destroyed covers `cell`.
    pub open spec fn blocked(&self, cell: Cell) -> bool {
        exists|index: int| #[trigger] self.covers(index, cell) && !self@[index].unwrap().destroyed()
    }

    /// Whether the square of side `size` at `cell` lies on the grid.
    pub open spec fn fits(&self, cell: Cell, size: PlotSize) -> bool {
        &&& 0 <= cell.x
        &&& 0 <= cell.y
        &&& cell.x + size.diameter() <= self.columns()
        &&& cell.y + size.diameter() <= self.rows()
    }

    /// Whether the square of side `size` at `cell` shares a cell with a
    /// component that is already placed.
    pub open spec fn meets_component(&self, cell: Cell, size: PlotSize) -> bool {
        exists|index: int|
            0 <= index < self@.len() && (#[trigger] self@[index]) is Some && footprints_overlap(
                self.cell_of(index),
                self@[index].unwrap().footprint(),
                cell,
                size,
            )
    }

    /// The invariant of a village: the grid has one slot for each cell of
    /// the ground, every footprint lies on the grid, no two footprints share
    /// a cell, and the counter holds the number of live defenses.
    pub open spec fn wf(&self) -> bool {
        &&& self@.len() == self.columns() * self.rows()
        &&& forall|index: int|
            0 <= index < self@.len() && (#[trigger] self@[index]) is Some ==> self.fits(
                self.cell_of(index),
                self@[index].unwrap().footprint(),
            )
        &&& forall|i: int, j: int|
            0 <= i < self@.len() && 0 <= j < self@.len() && i != j && (#[trigger] self@[i]) is Some
                && (#[trigger] self@[j]) is Some ==> !footprints_overlap(
                self.cell_of(i),
                self@[i].unwrap().footprint(),
                self.cell_of(j),
                self@[j].unwrap().footprint(),
            )
        &&& self.counted_defenses() == live_defenses(self@)
        &&& 1 <= self.grain() <= MAX_FINENESS
    }

    /// A cell of the grid and its index name each other.
    pub proof fn lemma_cell_index(&self, cell: Cell)
        requires
            self.in_grid(cell),
        ensures
            0 <= self.index_of(cell) < self.columns() * self.rows(),
            self.cell_of(self.index_of(cell)) == cell,
    {
        self.terrain().lemma_cell_index(cell);
    }

    /// An index of the grid names a cell of the grid, which names it back.
    pub proof fn lemma_index_cell(&self, index: int)
        requires
            0 <= index < self.columns() * self.rows(),
        ensures
            self.in_grid(self.cell_of(index)),
            self.index_of(self.cell_of(index)) == index,
            self.cell_of(index).x == index / self.rows(),
            self.cell_of(index).y == index % self.rows(),
    {
        self.terrain().lemma_index_cell(index);
    }

    /// The counters of the village.
    pub fn state(&self) -> (state: &State)
        ensures
            state.remaining_defenses == self.counted_defenses(),
            self.wf() ==> state.remaining_defenses == live_defenses(self@),
    {
        &self.state
    }

    /// The ground of the village.
    pub fn scenery(&self) -> (scenery: &Scenery)
        ensures
            *scenery == self.terrain(),
    {
        &self.scenery
    }

    /// An empty village on `scenery`.
    pub fn with_scenery(scenery: Scenery) -> (village: Self)
        ensures
            village.wf(),
            village.terrain() == scenery,
            village.grain() == 1,
            village.counted_defenses() == 0,
            forall|index: int| 0 <= index < village@.len() ==> village@[index] is None,
    {
        let grid_size: usize = scenery.count_cells();
        let mut grid: Vec<Option<Component>> = Vec::new();
        let mut filled: usize = 0;
        while filled < grid_size
            invariant
                filled <= grid_size,
                grid@.len() == filled,
                forall|index: int| 0 <= index < filled ==> grid@[index] is None,
                live_defenses(grid@) == 0,
            decreases grid_size - filled,
        {
            let ghost before = grid@;
            grid.push(None);
            assert(grid@.drop_last() =~= before);
            filled += 1;
        }
        Self { grid, state: State { remaining_defenses: 0 }, scenery, fineness: 1 }
    }

    /// The index at which the grid stores `cell`.
    fn get_cell_idx(&self, cell: Cell) -> (index: usize)
        requires
            self.wf(),
            self.in_grid(cell),
        ensures
            index == self.index_of(cell),
            index < self@.len(),
    {
        self.scenery.cell_index(cell)
    }

    /// Whether `cell` lies on the grid.
    pub fn contains_cell(&self, cell: Cell) -> (inside: bool)
        ensures
            inside == self.in_grid(cell),
    {
        self.scenery.contains_cell(cell)
    }

    /// Whether the square of side `size` at `cell` lies on the grid.
    pub fn contains_plot(&self, cell: Cell, size: PlotSize) -> (inside: bool)
        ensures
            inside == self.fits(cell, size),
    {
        let diameter: i32 = size.cell_diameter() as i32;
        cell.x >= 0 && cell.y >= 0 && cell.x as i32 + diameter
            <= self.scenery.params().plate_width_cells as i32 + 1 && cell.y as i32 + diameter
            <= self.scenery.params().plate_height_cells as i32 + 1
    }

    /// The cell that the grid stores at `index`.
    fn cell_at_index(&self, index: usize) -> (cell: Cell)
        requires
            self.wf(),
            index < self@.len(),
        ensures
            cell == self.cell_of(index as int),
            self.in_grid(cell),
    {
        self.scenery.cell_at(index)
    }

    /// Whether nothing that is placed shares a cell with the square of side
    /// `plot_size` at `at`.
    pub fn can_plot_fit(&self, at: Cell, plot_size: PlotSize) -> (free: bool)
        requires
            self.wf(),
        ensures
            free == !self.meets_component(at, plot_size),
    {
        let mut index: usize = 0;
        while index < self.grid.len()
            invariant
                self.wf(),
                index <= self@.len(),
                forall|i: int|
                    0 <= i < index && (#[trigger] self@[i]) is Some ==> !footprints_overlap(
                        self.cell_of(i),
                        self@[i].unwrap().footprint(),
                        at,
                        plot_size,
                    ),
            decreases self@.len() - index,
        {
            match &self.grid[index] {
                Some(component) => {
                    let origin = self.cell_at_index(index);
                    if collides(origin, component.get_plot_size(), at, plot_size) {
                        assert(self@[index as int] is Some);
                        return false;
                    }
                },
                None => {},
            }
            index += 1;
        }
        true
    }

    /// Places `component` with its corner at `cell`.
    ///
    /// The placement is refused when the footprint shares a cell with a
    /// component that is already placed, destroyed or not. A defensive
    /// building that is not destroyed is counted among the live defenses.
    pub fn add_component(&mut self, cell: Cell, component: Component) -> (result:
        VillageOperationResult<ComponentId>)
        requires
            old(self).wf(),
            old(self).fits(cell, component.footprint()),
        ensures
            final(self).wf(),
            final(self).terrain() == old(self).terrain(),
            final(self).grain() == old(self).grain(),
            result is Err <==> old(self).meets_component(cell, component.footprint()),
            result matches Err(error) ==> {
                &&& error == VillageOperationError::ComponentCollides
                &&& final(self)@ == old(self)@
                &&& final(self).counted_defenses() == old(self).counted_defenses()
            },
            result matches Ok(id) ==> {
                &&& id.0 == old(self).index_of(cell)
                &&& old(self)@[id.0 as int] is None
                &&& final(self)@ == old(self)@.update(id.0 as int, Some(component))
                &&& final(self).counted_defenses() == old(self).counted_defenses() + if component.defensive()
                    && !component.destroyed() {
                    1nat
                } else {
                    0nat
                }
            },
    {
        if !self.can_plot_fit(cell, component.get_plot_size()) {
            return Err(VillageOperationError::ComponentCollides);
        }
        let idx = self.get_cell_idx(cell);
        proof {
            self.lemma_cell_index(cell);
            if self@[idx as int] is Some {
                assert(footprints_overlap(
                    self.cell_of(idx as int),
                    self@[idx as int].unwrap().footprint(),
                    cell,
                    component.footprint(),
                ));
            }
            lemma_live_defenses_update(self@, idx as int, Some(component));
            assert(self.columns() * self.rows() <= 256 * 256) by (nonlinear_arith)
                requires
                    0 < self.columns() <= 256,
                    0 < self.rows() <= 256,
            ;
        }
        if is_defensive_building(&component) && !component.is_destroyed() {
            self.state.remaining_defenses += 1;
        }
        self.grid[idx] = Some(component);
        Ok(ComponentId(idx))
    }

    /// Takes `damages` life units from the component `comp_id`, down to zero
    /// at most, and says whether this destroyed it: whether it had life
    /// points left before and has none now.
    ///
    /// A defensive building that is destroyed leaves the live defenses.
    pub fn damage_component(&mut self, damages: u64, comp_id: ComponentId) -> (destroyed: bool)
        requires
            old(self).wf(),
            old(self).component(comp_id) is Some,
            old(self).component(comp_id).unwrap().life_points is Some,
        ensures
            final(self).wf(),
            final(self).terrain() == old(self).terrain(),
            final(self).grain() == old(self).grain(),
            final(self)@ == old(self)@.update(
                comp_id.0 as int,
                Some(
                    Component {
                        life_points: Some(
                            life_after(
                                old(self).component(comp_id).unwrap().life_points.unwrap(),
                                damages as int,
                            ),
                        ),
                        kind: old(self).component(comp_id).unwrap().kind,
                    },
                ),
            ),
            destroyed == (old(self).component(comp_id).unwrap().life_points.unwrap() > 0 && life_after(
                old(self).component(comp_id).unwrap().life_points.unwrap(),
                damages as int,
            ) == 0),
            final(self).counted_defenses() == old(self).counted_defenses() - if destroyed && old(
                self,
            ).component(comp_id).unwrap().defensive() {
                1int
            } else {
                0int
            },
    {
        let component = self.grid[comp_id.0].unwrap();
        let before = component.life_points.unwrap();
        let after: u32 = if damages >= before as u64 {
            0
        } else {
            (before as u64 - damages) as u32
        };
        let damaged = Component { life_points: Some(after), kind: component.kind };
        let destroyed = before > 0 && after == 0;
        proof {
            lemma_live_defenses_update(self@, comp_id.0 as int, Some(damaged));
        }
        if destroyed && is_defensive_building(&component) {
            self.state.remaining_defenses -= 1;
        }
        self.grid[comp_id.0] = Some(damaged);
        destroyed
    }

    /// The component stored at `cell`, with its name.
    fn get_component_at(&self, cell: Cell) -> (found: Option<(ComponentId, &Component)>)
        requires
            self.wf(),
        ensures
            found is Some <==> self.in_grid(cell) && self@[self.index_of(cell)] is Some,
            found matches Some(pair) ==> pair.0.0 == self.index_of(cell) && Some(*pair.1)
                == self@[self.index_of(cell)],
    {
        if !self.contains_cell(cell) {
            return None;
        }
        let idx = self.get_cell_idx(cell);
        match &self.grid[idx] {
            Some(component) => Some((ComponentId(idx), component)),
            None => None,
        }
    }

    /// The component named `id`, if there is one.
    pub fn get_component(&self, id: ComponentId) -> (found: Option<&Component>)
        ensures
            found is Some <==> self.component(id) is Some,
            found matches Some(component) ==> Some(*component) == self.component(id),
    {
        if id.0 < self.grid.len() {
            match &self.grid[id.0] {
                Some(component) => Some(component),
                None => None,
            }
        } else {
            None
        }
    }

    /// Whether `comp_id` names a component that is destroyed.
    pub fn is_component_destroyed(&self, comp_id: ComponentId) -> (destroyed: bool)
        ensures
            destroyed == (self.component(comp_id) is Some && self.component(
                comp_id,
            ).unwrap().destroyed()),
    {
        match self.get_component_lifepoints(comp_id) {
            Some(lp) => lp == 0,
            None => false,
        }
    }

    /// The life points of the component `comp_id`: none where there is no
    /// such component or it has none.
    pub fn get_component_lifepoints(&self, comp_id: ComponentId) -> (life_points: Option<u32>)
        ensures
            life_points == match self.component(comp_id) {
                Some(component) => component.life_points,
                None => None,
            },
    {
        match self.get_component(comp_id) {
            Some(component) => component.life_points,
            None => None,
        }
    }

    /// Whether every component of the village has life points, spent or
    /// not.
    pub open spec fn all_with_life(&self) -> bool {
        forall|index: int|
            0 <= index < self@.len() && (#[trigger] self@[index]) is Some
                ==> self@[index].unwrap().life_points is Some
    }

    /// Whether every component of the village has life points, spent or
    /// not.
    #[verifier::when_used_as_spec(all_with_life)]
    pub fn every_component_has_life(&self) -> (all: bool)
        ensures
            all == self.all_with_life(),
    {
        let mut index: usize = 0;
        while index < self.grid.len()
            invariant
                index <= self@.len(),
                forall|i: int|
                    0 <= i < index && (#[trigger] self@[i]) is Some
                        ==> self@[i].unwrap().life_points is Some,
            decreases self@.len() - index,
        {
            match &self.grid[index] {
                Some(component) => {
                    if component.life_points.is_none() {
                        return false;
                    }
                },
                None => {},
            }
            index += 1;
        }
        true
    }

    /// The fineness of the village.
    pub fn fineness(&self) -> (fineness: u32)
        ensures
            fineness == self.grain(),
    {
        self.fineness
    }

    /// Whether the village can count `factor` times finer.
    pub fn can_refine(&self, factor: u32) -> (can: bool)
        requires
            self.wf(),
        ensures
            can == self.refinable(factor as int),
    {
        if factor == 0 || product(self.fineness, factor) > MAX_FINENESS as u64 {
            return false;
        }
        let mut index: usize = 0;
        while index < self.grid.len()
            invariant
                index <= self@.len(),
                factor >= 1,
                forall|i: int|
                    0 <= i < index && (#[trigger] self@[i]) is Some
                        && self@[i].unwrap().life_points is Some
                        ==> self@[i].unwrap().life_points.unwrap() * factor <= u32::MAX,
            decreases self@.len() - index,
        {
            match &self.grid[index] {
                Some(component) => match component.life_points {
                    Some(life_points) => {
                        if product(life_points, factor) > u32::MAX as u64 {
                            return false;
                        }
                    },
                    None => {},
                },
                None => {},
            }
            index += 1;
        }
        true
    }

    /// Lets the village count `factor` times finer: every component has
    /// `factor` times the life points, each a `factor`-th of what it was.
    pub fn refine(&mut self, factor: u32)
        requires
            old(self).wf(),
            old(self).refinable(factor as int),
        ensures
            is_refined(*old(self), *final(self), factor as int),
    {
        let mut index: usize = 0;
        while index < self.grid.len()
            invariant
                index <= self@.len(),
                factor >= 1,
                self@.len() == old(self)@.len(),
                self.terrain() == old(self).terrain(),
                self.grain() == old(self).grain(),
                self.counted_defenses() == old(self).counted_defenses(),
                old(self).wf(),
                old(self).refinable(factor as int),
                live_defenses(self@) == live_defenses(old(self)@),
                forall|i: int| 0 <= i < index ==> #[trigger] self@[i] == finer(old(self)@[i], factor as int),
                forall|i: int| index <= i < self@.len() ==> #[trigger] self@[i] == old(self)@[i],
            decreases self@.len() - index,
        {
            match self.grid[index] {
                Some(component) => match component.life_points {
                    Some(life_points) => {
                        assert(old(self)@[index as int] is Some);
                        let scaled = Component {
                            life_points: Some(life_points * factor),
                            kind: component.kind,
                        };
                        proof {
                            assert(life_points * factor == 0 <==> life_points == 0) by (nonlinear_arith)
                                requires
                                    factor >= 1,
                                    life_points >= 0,
                            ;
                            lemma_live_defenses_update(self@, index as int, Some(scaled));
                        }
                        self.grid[index] = Some(scaled);
                    },
                    None => {},
                },
                None => {},
            }
            index += 1;
        }
        proof {
            let grain = old(self).grain();
            assert(grain * factor <= MAX_FINENESS);
            assert(grain * factor >= 1) by (nonlinear_arith)
                requires
                    grain >= 1,
                    factor >= 1,
            ;
        }
        self.fineness = self.fineness * factor;
        proof {
            assert forall|i: int, j: int|
                0 <= i < self@.len() && 0 <= j < self@.len() && i != j && (#[trigger] self@[i]) is Some
                    && (#[trigger] self@[j]) is Some implies !footprints_overlap(
                self.cell_of(i),
                self@[i].unwrap().footprint(),
                self.cell_of(j),
                self@[j].unwrap().footprint(),
            ) by {
                assert(old(self)@[i] is Some && old(self)@[j] is Some);
            }
            assert forall|i: int| 0 <= i < self@.len() && (#[trigger] self@[i]) is Some implies self.fits(
                self.cell_of(i),
                self@[i].unwrap().footprint(),
            ) by {
                assert(old(self)@[i] is Some);
            }
        }
    }

    /// The number of slots of the grid: one for each cell.
    pub fn slot_count(&self) -> (count: usize)
        ensures
            count == self@.len(),
    {
        self.grid.len()
    }

    /// The component whose footprint covers `cell`, if there is one.
    pub fn component_covering(&self, cell: Cell) -> (found: Option<ComponentId>)
        requires
            self.wf(),
        ensures
            found matches Some(id) ==> self.covers(id.0 as int, cell),
            found is None ==> !self.occupied(cell),
    {
        if !self.contains_cell(cell) {
            assert forall|index: int| !self.covers(index, cell) by {
                if self.covers(index, cell) {
                    self.lemma_index_cell(index);
                }
            }
            return None;
        }
        let mut dx: i16 = 0;
        while dx < 4
            invariant
                self.wf(),
                self.in_grid(cell),
                0 <= dx <= 4,
                forall|index: int| #[trigger]
                    self.covers(index, cell) ==> cell.x - self.cell_of(index).x >= dx,
            decreases 4 - dx,
        {
            let mut dy: i16 = 0;
            while dy < 4
                invariant
                    self.wf(),
                    self.in_grid(cell),
                    0 <= dx < 4,
                    0 <= dy <= 4,
                    forall|index: int| #[trigger]
                        self.covers(index, cell) ==> cell.x - self.cell_of(index).x >= dx,
                    forall|index: int| #[trigger]
                        self.covers(index, cell) && cell.x - self.cell_of(index).x == dx ==> cell.y
                            - self.cell_of(index).y >= dy,
                decreases 4 - dy,
            {
                if cell.x >= dx && cell.y >= dy {
                    let origin = Cell { y: cell.y - dy, x: cell.x - dx };
                    let idx = self.get_cell_idx(origin);
                    proof {
                        self.lemma_cell_index(origin);
                    }
                    match &self.grid[idx] {
                        Some(component) => {
                            let diameter = component.get_plot_size().cell_diameter();
                            if (dx as i32) < diameter as i32 && (dy as i32) < diameter as i32 {
                                return Some(ComponentId(idx));
                            }
                        },
                        None => {},
                    }
                    assert forall|index: int| #[trigger]
                        self.covers(index, cell) && cell.x - self.cell_of(index).x
                            == dx implies cell.y - self.cell_of(index).y >= dy + 1 by {
                        self.lemma_index_cell(index);
                    }
                } else {
                    assert forall|index: int| #[trigger]
                        self.covers(index, cell) && cell.x - self.cell_of(index).x
                            == dx implies cell.y - self.cell_of(index).y >= dy + 1 by {
                        self.lemma_index_cell(index);
                    }
                }
                dy += 1;
            }
            dx += 1;
        }
        assert forall|index: int| !self.covers(index, cell) by {}
        None
    }

    /// Whether a component that is not destroyed covers `cell`.
    pub fn is_cell_blocked(&self, cell: Cell) -> (blocked: bool)
        requires
            self.wf(),
        ensures
            blocked == self.blocked(cell),
    {
        match self.component_covering(cell) {
            Some(id) => {
                let component = self.grid[id.0].unwrap();
                let blocked = !component.is_destroyed();
                proof {
                    if !blocked {
                        assert forall|index: int| #[trigger]
                            self.covers(index, cell) implies self@[index].unwrap().destroyed() by {
                            if index != id.0 {
                                assert(self@[index] is Some && self@[id.0 as int] is Some);
                                assert(footprints_overlap(
                                    self.cell_of(index),
                                    self@[index].unwrap().footprint(),
                                    self.cell_of(id.0 as int),
                                    self@[id.0 as int].unwrap().footprint(),
                                ));
                            }
                        }
                    }
                }
                blocked
            },
            None => false,
        }
    }

    /// Whether a wall stands on `cell`.
    pub open spec fn wall_at(&self, x: int, y: int) -> bool {
        &&& 0 <= x < self.columns()
        &&& 0 <= y < self.rows()
        &&& self@[x * self.rows() + y] is Some
        &&& self@[x * self.rows() + y].unwrap().wall()
    }

    /// How the wall on `cell` joins its neighbours.
    pub open spec fn wall_connection(&self, cell: Cell) -> Option<WallConnectionType> {
        if !self.wall_at(cell.x as int, cell.y as int) {
            None
        } else {
            let left = self.wall_at(cell.x - 1, cell.y as int);
            let right = self.wall_at(cell.x as int, cell.y + 1);
            Some(
                if left && right {
                    WallConnectionType::RightLeft
                } else if left {
                    WallConnectionType::LeftOnly
                } else if right {
                    WallConnectionType::RightOnly
                } else {
                    WallConnectionType::Lonely
                },
            )
        }
    }

    /// Whether a wall stands on `cell`.
    fn is_wall_at(&self, cell: Cell) -> (wall: bool)
        requires
            self.wf(),
        ensures
            wall == self.wall_at(cell.x as int, cell.y as int),
    {
        match self.get_component_at(cell) {
            Some((_, component)) => is_wall(component),
            None => false,
        }
    }

    /// How the wall on `cell` joins its neighbours: the wall one column to
    /// the left and the wall one row further on. Nothing where no wall
    /// stands on `cell`.
    pub fn get_wall_connection_type(&self, cell: Cell) -> (connection: Option<WallConnectionType>)
        requires
            self.wf(),
        ensures
            connection == self.wall_connection(cell),
    {
        if !self.is_wall_at(cell) {
            return None;
        }
        let comp_left = cell.x > 0 && self.is_wall_at(Cell::new(cell.x - 1, cell.y));
        let comp_right = (cell.y as i32) < self.scenery.params().plate_height_cells as i32
            && self.is_wall_at(Cell::new(cell.x, cell.y + 1));

        let kind = if comp_left && comp_right {
            WallConnectionType::RightLeft
        } else if comp_left {
            WallConnectionType::LeftOnly
        } else if comp_right {
            WallConnectionType::RightOnly
        } else {
            WallConnectionType::Lonely
        };

        Some(kind)
    }

    /// The components stored in the first `upto` slots, each with its name
    /// and the cell of its corner, in the order of the slots.
    pub open spec fn listing(&self, upto: int) -> Seq<(ComponentId, Cell, Component)>
        decreases upto,
    {
        if upto <= 0 {
            Seq::empty()
        } else {
            let before = self.listing(upto - 1);
            match self@[upto - 1] {
                Some(component) => before.push(
                    (ComponentId((upto - 1) as usize), self.cell_of(upto - 1), component),
                ),
                None => before,
            }
        }
    }

    /// Every placed component with its name and the cell of its corner, in
    /// the order of the names.
    pub fn iter_components(&self) -> (components: Vec<(ComponentId, Cell, Component)>)
        requires
            self.wf(),
        ensures
            components@ == self.listing(self@.len() as int),
    {
        let mut components: Vec<(ComponentId, Cell, Component)> = Vec::new();
        let mut index: usize = 0;
        while index < self.grid.len()
            invariant
                self.wf(),
                index <= self@.len(),
                components@ == self.listing(index as int),
            decreases self@.len() - index,
        {
            match &self.grid[index] {
                Some(component) => {
                    let cell = self.cell_at_index(index);
                    components.push((ComponentId(index), cell, *component));
                },
                None => {},
            }
            index += 1;
        }
        components
    }

    /// Once a component stands at `first`, a further placement is refused
    /// exactly when it would have been refused before or its footprint
    /// shares a cell with the footprint of that component.
    pub proof fn law_collision(
        before: Village,
        after: Village,
        first: Cell,
        placed: Component,
        second: Cell,
        size: PlotSize,
    )
        requires
            before.wf(),
            before.fits(first, placed.footprint()),
            before.fits(second, size),
            !before.meets_component(first, placed.footprint()),
            after.terrain() == before.terrain(),
            after@ == before@.update(before.index_of(first), Some(placed)),
        ensures
            after.meets_component(second, size) <==> before.meets_component(second, size) || exists|
                cell: Cell,
            |
                footprint_holds(first, placed.footprint(), cell) && #[trigger] footprint_holds(
                    second,
                    size,
                    cell,
                ),
    {
        let slot = before.index_of(first);
        before.lemma_cell_index(first);
        lemma_overlap_is_shared_cell(first, placed.footprint(), second, size);
        let shared = footprints_overlap(first, placed.footprint(), second, size);
        if after.meets_component(second, size) {
            let index = choose|index: int|
                0 <= index < after@.len() && (#[trigger] after@[index]) is Some && footprints_overlap(
                    after.cell_of(index),
                    after@[index].unwrap().footprint(),
                    second,
                    size,
                );
            if index != slot {
                assert(before@[index] is Some);
            }
        }
        if before.meets_component(second, size) {
            let index = choose|index: int|
                0 <= index < before@.len() && (#[trigger] before@[index]) is Some
                    && footprints_overlap(
                    before.cell_of(index),
                    before@[index].unwrap().footprint(),
                    second,
                    size,
                );
            if index == slot {
                assert(footprints_overlap(
                    before.cell_of(index),
                    before@[index].unwrap().footprint(),
                    first,
                    placed.footprint(),
                ));
            }
            assert(after@[index] is Some);
        }
        if shared {
            assert(after@[slot] is Some);
        }
    }
}

/// The life units left of `life_points` after `damages` are taken.
pub open spec fn life_after(life_points: u32, damages: int) -> u32 {
    if damages >= life_points {
        0
    } else {
        (life_points - damages) as u32
    }
}

impl Clone for Village {
    /// A copy of the village.
    fn clone(&self) -> (copy: Self)
        ensures
            copy@ == self@,
            copy.terrain() == self.terrain(),
            copy.grain() == self.grain(),
            copy.counted_defenses() == self.counted_defenses(),
            self.wf() ==> copy.wf(),
    {
        let mut grid: Vec<Option<Component>> = Vec::new();
        let mut index: usize = 0;
        while index < self.grid.len()
            invariant
                index <= self.grid@.len(),
                grid@ == self.grid@.take(index as int),
            decreases self.grid@.len() - index,
        {
            grid.push(self.grid[index]);
            index += 1;
            assert(grid@ =~= self.grid@.take(index as int));
        }
        assert(grid@ =~= self.grid@);
        Self { grid, state: self.state, scenery: self.scenery.clone(), fineness: self.fineness }
    }
}

impl Default for Village {
    /// An empty village on the default ground.
    fn default() -> (village: Self)
        ensures
            village.wf(),
            crate::scenery::is_default_scenery(village.terrain()),
            village.grain() == 1,
            village.counted_defenses() == 0,
            forall|index: int| 0 <= index < village@.len() ==> village@[index] is None,
    {
        Village::with_scenery(Scenery::default())
    }
}

} // verus!
