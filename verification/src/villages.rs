//! Villages to try things on: one that is laid out by hand, and one that is
//! drawn at random.

use crate::building::{
    ArcherDefenceState, Building, BuildingCharacteristics, BuildingType, ContainerState,
    EagleArtilleryState, ExplosiveState, InfernoState, MissileDefenceState, PlotSize,
    ScattershotState, SpellFactoryState,
};
use crate::cell::Cell;
use crate::scenery::{is_default_scenery, Scenery};
use crate::units::LIFE_UNITS_PER_POINT;
use crate::village::{
    footprints_overlap, Component, ComponentType, Village, VillageOperationError,
    VillageOperationResult,
};
use crate::wall::Wall;
use rand::rngs::ThreadRng;
use rand::Rng;
use vstd::prelude::*;

verus! {

/// The number of kinds of building.
pub const BUILDING_KINDS: u32 = 28;

/// The number of states that a building is drawn from: a number that the
/// number of states of every kind divides.
pub const STATE_DRAWS: u32 = 12;

/// The state with the rank `draw` modulo 3.
pub open spec fn eagle_artillery_state_at(draw: u32) -> EagleArtilleryState {
    if draw % 3 == 0 {
        EagleArtilleryState::Loaded
    } else if draw % 3 == 1 {
        EagleArtilleryState::HeadDown
    } else {
        EagleArtilleryState::Unloaded
    }
}

/// The state with the rank `draw` modulo 3.
pub fn eagle_artillery_state(draw: u32) -> (state: EagleArtilleryState)
    ensures
        state == eagle_artillery_state_at(draw),
{
    if draw % 3 == 0 {
        EagleArtilleryState::Loaded
    } else if draw % 3 == 1 {
        EagleArtilleryState::HeadDown
    } else {
        EagleArtilleryState::Unloaded
    }
}

/// The state with the rank `draw` modulo 2.
pub open spec fn spell_factory_state_at(draw: u32) -> SpellFactoryState {
    if draw % 2 == 0 {
        SpellFactoryState::Inactive
    } else {
        SpellFactoryState::Active
    }
}

/// The state with the rank `draw` modulo 2.
pub fn spell_factory_state(draw: u32) -> (state: SpellFactoryState)
    ensures
        state == spell_factory_state_at(draw),
{
    if draw % 2 == 0 {
        SpellFactoryState::Inactive
    } else {
        SpellFactoryState::Active
    }
}

/// The state with the rank `draw` modulo 2.
pub open spec fn explosive_state_at(draw: u32) -> ExplosiveState {
    if draw % 2 == 0 {
        ExplosiveState::Armed
    } else {
        ExplosiveState::Unarmed
    }
}

/// The state with the rank `draw` modulo 2.
pub fn explosive_state(draw: u32) -> (state: ExplosiveState)
    ensures
        state == explosive_state_at(draw),
{
    if draw % 2 == 0 {
        ExplosiveState::Armed
    } else {
        ExplosiveState::Unarmed
    }
}

/// The state with the rank `draw` modulo 4.
pub open spec fn inferno_state_at(draw: u32) -> InfernoState {
    if draw % 4 == 0 {
        InfernoState::Multi
    } else if draw % 4 == 1 {
        InfernoState::MultiDepleted
    } else if draw % 4 == 2 {
        InfernoState::Single
    } else {
        InfernoState::SingleDepleted
    }
}

/// The state with the rank `draw` modulo 4.
pub fn inferno_state(draw: u32) -> (state: InfernoState)
    ensures
        state == inferno_state_at(draw),
{
    if draw % 4 == 0 {
        InfernoState::Multi
    } else if draw % 4 == 1 {
        InfernoState::MultiDepleted
    } else if draw % 4 == 2 {
        InfernoState::Single
    } else {
        InfernoState::SingleDepleted
    }
}

/// The state with the rank `draw` modulo 2.
pub open spec fn scattershot_state_at(draw: u32) -> ScattershotState {
    if draw % 2 == 0 {
        ScattershotState::Regular
    } else {
        ScattershotState::Depleted
    }
}

/// The state with the rank `draw` modulo 2.
pub fn scattershot_state(draw: u32) -> (state: ScattershotState)
    ensures
        state == scattershot_state_at(draw),
{
    if draw % 2 == 0 {
        ScattershotState::Regular
    } else {
        ScattershotState::Depleted
    }
}

/// The kind of building with the rank `kind` modulo the number of kinds,
/// in the state with the rank `state` among the states of the kind.
pub open spec fn kind_at(kind: u32, state: u32) -> BuildingType {
    if kind % BUILDING_KINDS == 0 {
        BuildingType::AirBomb
    } else if kind % BUILDING_KINDS == 1 {
        BuildingType::ArcherTower(ArcherDefenceState::Regular)
    } else if kind % BUILDING_KINDS == 2 {
        BuildingType::ArmyCamp
    } else if kind % BUILDING_KINDS == 3 {
        BuildingType::Barracks
    } else if kind % BUILDING_KINDS == 4 {
        BuildingType::Blacksmith
    } else if kind % BUILDING_KINDS == 5 {
        BuildingType::BuilderHut
    } else if kind % BUILDING_KINDS == 6 {
        BuildingType::Cannon(MissileDefenceState::Regular)
    } else if kind % BUILDING_KINDS == 7 {
        BuildingType::DarkBarracks
    } else if kind % BUILDING_KINDS == 8 {
        BuildingType::DarkElixirDrill
    } else if kind % BUILDING_KINDS == 9 {
        BuildingType::DarkElixirStorage
    } else if kind % BUILDING_KINDS == 10 {
        BuildingType::DarkSpellFactory(spell_factory_state_at(state))
    } else if kind % BUILDING_KINDS == 11 {
        BuildingType::EagleArtillery(eagle_artillery_state_at(state))
    } else if kind % BUILDING_KINDS == 12 {
        BuildingType::ElixirCollector(ContainerState::Empty)
    } else if kind % BUILDING_KINDS == 13 {
        BuildingType::ElixirStorage(ContainerState::Empty)
    } else if kind % BUILDING_KINDS == 14 {
        BuildingType::GiantBomb(explosive_state_at(state))
    } else if kind % BUILDING_KINDS == 15 {
        BuildingType::GoldMine
    } else if kind % BUILDING_KINDS == 16 {
        BuildingType::GoldStorage(ContainerState::Empty)
    } else if kind % BUILDING_KINDS == 17 {
        BuildingType::HiddenTesla
    } else if kind % BUILDING_KINDS == 18 {
        BuildingType::InfernoTower(inferno_state_at(state))
    } else if kind % BUILDING_KINDS == 19 {
        BuildingType::Laboratory
    } else if kind % BUILDING_KINDS == 20 {
        BuildingType::Mortar(MissileDefenceState::Regular)
    } else if kind % BUILDING_KINDS == 21 {
        BuildingType::PetHouse
    } else if kind % BUILDING_KINDS == 22 {
        BuildingType::Scattershot(scattershot_state_at(state))
    } else if kind % BUILDING_KINDS == 23 {
        BuildingType::SeekingAirMine
    } else if kind % BUILDING_KINDS == 24 {
        BuildingType::SpellFactory(spell_factory_state_at(state))
    } else if kind % BUILDING_KINDS == 25 {
        BuildingType::TownHall
    } else if kind % BUILDING_KINDS == 26 {
        BuildingType::WizardTower
    } else {
        BuildingType::Workshop
    }
}

/// The kind of building with the rank `kind` modulo the number of kinds,
/// in the state with the rank `state` among the states of the kind.
pub fn building_type_from(kind: u32, state: u32) -> (building_type: BuildingType)
    ensures
        building_type == kind_at(kind, state),
{
    let rank = kind % BUILDING_KINDS;
    if rank == 0 {
        BuildingType::AirBomb
    } else if rank == 1 {
        BuildingType::ArcherTower(ArcherDefenceState::Regular)
    } else if rank == 2 {
        BuildingType::ArmyCamp
    } else if rank == 3 {
        BuildingType::Barracks
    } else if rank == 4 {
        BuildingType::Blacksmith
    } else if rank == 5 {
        BuildingType::BuilderHut
    } else if rank == 6 {
        BuildingType::Cannon(MissileDefenceState::Regular)
    } else if rank == 7 {
        BuildingType::DarkBarracks
    } else if rank == 8 {
        BuildingType::DarkElixirDrill
    } else if rank == 9 {
        BuildingType::DarkElixirStorage
    } else if rank == 10 {
        BuildingType::DarkSpellFactory(spell_factory_state(state))
    } else if rank == 11 {
        BuildingType::EagleArtillery(eagle_artillery_state(state))
    } else if rank == 12 {
        BuildingType::ElixirCollector(ContainerState::Empty)
    } else if rank == 13 {
        BuildingType::ElixirStorage(ContainerState::Empty)
    } else if rank == 14 {
        BuildingType::GiantBomb(explosive_state(state))
    } else if rank == 15 {
        BuildingType::GoldMine
    } else if rank == 16 {
        BuildingType::GoldStorage(ContainerState::Empty)
    } else if rank == 17 {
        BuildingType::HiddenTesla
    } else if rank == 18 {
        BuildingType::InfernoTower(inferno_state(state))
    } else if rank == 19 {
        BuildingType::Laboratory
    } else if rank == 20 {
        BuildingType::Mortar(MissileDefenceState::Regular)
    } else if rank == 21 {
        BuildingType::PetHouse
    } else if rank == 22 {
        BuildingType::Scattershot(scattershot_state(state))
    } else if rank == 23 {
        BuildingType::SeekingAirMine
    } else if rank == 24 {
        BuildingType::SpellFactory(spell_factory_state(state))
    } else if rank == 25 {
        BuildingType::TownHall
    } else if rank == 26 {
        BuildingType::WizardTower
    } else {
        BuildingType::Workshop
    }
}

/// The generator of random numbers of a thread, `rand::rngs::ThreadRng`.
#[verifier::external_type_specification]
#[verifier::external_body]
pub struct ExThreadRng(ThreadRng);

/// The generator of random numbers of this thread.
///
/// This is `rand::thread_rng`. Nothing is claimed of the generator.
#[verifier::external_body]
fn thread_generator() -> (generator: ThreadRng) {
    rand::thread_rng()
}

/// Draws a whole number from `low` to `high`, both included.
///
/// This is `rand::Rng::gen_range` on an inclusive range. Of the number
/// drawn the contract claims what holds of every draw and no more: it lies
/// in the range. An empty range, on which `gen_range` panics, is left out.
#[verifier::external_body]
fn draw_between(generator: &mut ThreadRng, low: u32, high: u32) -> (drawn: u32)
    requires
        low <= high,
    ensures
        low <= drawn <= high,
{
    generator.gen_range(low..=high)
}

/// Whether `component` is a plot as a random village holds them: a passive
/// building without life points, of a level at which its kind exists.
pub open spec fn is_plot(component: Component) -> bool {
    &&& component.life_points is None
    &&& component.kind matches ComponentType::Building(building)
    &&& building.characteristics == BuildingCharacteristics::Passive
    &&& building.building_type.levels().holds(building.level)
}

/// The plot with the building of the given kind, state and level.
pub open spec fn plot_of(kind: u32, state: u32, level: u8) -> Component {
    Component {
        life_points: None,
        kind: ComponentType::Building(
            Building {
                building_type: kind_at(kind, state),
                level,
                characteristics: BuildingCharacteristics::Passive,
            },
        ),
    }
}

/// Whether no plot of any size could still be placed at `cell`: the largest
/// footprint there leaves the grid or shares a cell with a component, as it
/// does where a plot stands at `cell` itself.
///
/// Every footprint lies in the largest one at the same cell. So where a
/// plot was tried at `cell` and given up, and where one was placed there,
/// this holds from then on.
pub open spec fn has_no_room(village: Village, cell: Cell) -> bool {
    !village.fits(cell, PlotSize::X4) || village.meets_component(cell, PlotSize::X4)
}

/// Places the plot with the building of the given kind, state and level at
/// `cell`, if its footprint lies on the grid and meets no component, and
/// says whether it has placed it.
pub fn place_plot(village: &mut Village, cell: Cell, kind: u32, state: u32, level: u8) -> (placed: bool)
    requires
        old(village).wf(),
    ensures
        final(village).wf(),
        final(village).terrain() == old(village).terrain(),
        final(village).grain() == old(village).grain(),
        placed <==> old(village).fits(cell, kind_at(kind, state).footprint()) && !old(
            village,
        ).meets_component(cell, kind_at(kind, state).footprint()),
        placed ==> final(village)@ == old(village)@.update(
            old(village).index_of(cell),
            Some(plot_of(kind, state, level)),
        ),
        !placed ==> final(village)@ == old(village)@,
{
    let building = Building {
        building_type: building_type_from(kind, state),
        level,
        characteristics: BuildingCharacteristics::Passive,
    };
    let component = Component { kind: ComponentType::Building(building), life_points: None };
    if !village.contains_plot(cell, component.get_plot_size()) {
        return false;
    }
    match village.add_component(cell, component) {
        Ok(_) => true,
        Err(VillageOperationError::ComponentCollides) => false,  // the plot is given up
    }
}

/// What is drawn for one cell of a random village: the kind of a building,
/// its state and its level.
#[derive(Copy, Clone, Debug, PartialEq, Eq, Structural)]
pub struct PlotDraw {
    pub kind: u32,
    pub state: u32,
    pub level: u8,
}

impl PlotDraw {
    /// The plot that was drawn.
    pub open spec fn plot(&self) -> Component {
        plot_of(self.kind, self.state, self.level)
    }

    /// The footprint of the plot that was drawn.
    pub open spec fn size(&self) -> PlotSize {
        kind_at(self.kind, self.state).footprint()
    }

    /// Whether the level that was drawn is one at which the kind exists.
    pub open spec fn in_range(&self) -> bool {
        kind_at(self.kind, self.state).levels().holds(self.level)
    }
}

/// Whether the cell `a` gets its plot before the cell `b`: the cells are
/// taken column by column.
pub open spec fn comes_before(a: Cell, b: Cell) -> bool {
    a.x < b.x || (a.x == b.x && a.y < b.y)
}

/// Whether the square of side `size` at `cell` shares a cell with a plot
/// that stands at a cell which comes before `cell`.
pub open spec fn meets_earlier(village: Village, cell: Cell, size: PlotSize) -> bool {
    exists|index: int|
        0 <= index < village@.len() && (#[trigger] village@[index]) is Some && comes_before(
            village.cell_of(index),
            cell,
        ) && footprints_overlap(
            village.cell_of(index),
            village@[index].unwrap().footprint(),
            cell,
            size,
        )
}

/// Whether `village` holds at `cell` what `draw` leaves there: the plot
/// that was drawn, if its footprint lies on the grid and shares no cell
/// with a plot at a cell before it, and nothing if not.
pub open spec fn plot_stands(village: Village, draw: PlotDraw, cell: Cell) -> bool {
    if village.fits(cell, draw.size()) && !meets_earlier(village, cell, draw.size()) {
        village@[village.index_of(cell)] == Some(draw.plot())
    } else {
        village.in_grid(cell) ==> village@[village.index_of(cell)] is None
    }
}

/// What was drawn for `cell`, where `draws` holds what was drawn for the
/// cells of `height` rows, column by column.
pub open spec fn draw_for(draws: Seq<PlotDraw>, height: int, cell: Cell) -> PlotDraw {
    draws[cell.x * height + cell.y]
}

/// Whether `village` is what `draws` lay out on the cells of the first
/// `width` columns and `height` rows: each of these cells holds what its
/// draw leaves there, and no plot stands anywhere else.
pub open spec fn is_laid_out(village: Village, draws: Seq<PlotDraw>, width: int, height: int) -> bool {
    &&& forall|index: int|
        0 <= index < village@.len() && (#[trigger] village@[index]) is Some ==> village.cell_of(
            index,
        ).x < width && village.cell_of(index).y < height
    &&& forall|cell: Cell|
        0 <= cell.x < width && 0 <= cell.y < height ==> #[trigger] plot_stands(
            village,
            draw_for(draws, height, cell),
            cell,
        )
}

/// The village on the default ground that `draws` lay out.
///
/// The cells in the columns `0..plate_width_cells` and the rows
/// `0..plate_height_cells` of `scenery` are taken column by column, each
/// with its draw, and the plot that was drawn is placed there if its
/// footprint lies on the grid and meets none of the plots placed before.
pub fn lay_out_plots(scenery: &Scenery, draws: &Vec<PlotDraw>) -> (village: Village)
    requires
        draws@.len() == scenery.params.plate_width_cells * scenery.params.plate_height_cells,
    ensures
        village.wf(),
        village.grain() == 1,
        is_default_scenery(village.terrain()),
        is_laid_out(
            village,
            draws@,
            scenery.params.plate_width_cells as int,
            scenery.params.plate_height_cells as int,
        ),
{
    let mut village = Village::default();
    let width: i16 = scenery.params().plate_width_cells as i16;
    let height: i16 = scenery.params().plate_height_cells as i16;
    proof {
        village.terrain().lemma_cell_count_bound();
        assert(width * height <= 65025) by (nonlinear_arith)
            requires
                0 <= width <= 255,
                0 <= height <= 255,
        ;
    }

    let mut rank: usize = 0;
    let mut x: i16 = 0;
    while x < width
        invariant
            0 <= x <= width,
            0 <= height,
            width == scenery.params.plate_width_cells,
            height == scenery.params.plate_height_cells,
            draws@.len() == width * height,
            draws@.len() <= 65025,
            rank == x * height,
            village.wf(),
            village.grain() == 1,
            is_default_scenery(village.terrain()),
            forall|index: int|
                0 <= index < village@.len() && (#[trigger] village@[index]) is Some
                    ==> village.cell_of(index).x < x && village.cell_of(index).y < height,
            forall|cell: Cell|
                0 <= cell.x < x && 0 <= cell.y < height ==> #[trigger] plot_stands(
                    village,
                    draw_for(draws@, height as int, cell),
                    cell,
                ),
        decreases width - x,
    {
        let mut y: i16 = 0;
        while y < height
            invariant
                0 <= x < width,
                0 <= y <= height,
                width == scenery.params.plate_width_cells,
                height == scenery.params.plate_height_cells,
                draws@.len() == width * height,
                draws@.len() <= 65025,
                rank == x * height + y,
                village.wf(),
                village.grain() == 1,
                is_default_scenery(village.terrain()),
                forall|index: int|
                    0 <= index < village@.len() && (#[trigger] village@[index]) is Some ==> {
                        &&& comes_before(village.cell_of(index), Cell { y, x })
                        &&& village.cell_of(index).y < height
                    },
                forall|cell: Cell|
                    0 <= cell.x && 0 <= cell.y < height && comes_before(cell, Cell { y, x })
                        ==> #[trigger] plot_stands(
                        village,
                        draw_for(draws@, height as int, cell),
                        cell,
                    ),
            decreases height - y,
        {
            assert(x * height + y < width * height) by (nonlinear_arith)
                requires
                    0 <= x < width,
                    0 <= y < height,
            ;
            assert(rank < draws@.len());
            let draw = draws[rank];
            let cell = Cell::new(x, y);
            let ghost earlier = village;
            let placed = place_plot(&mut village, cell, draw.kind, draw.state, draw.level);
            proof {
                lemma_plot_placed(earlier, village, draw, cell, placed);
                assert(draw == draw_for(draws@, height as int, cell));
                let next = Cell { y: (y + 1) as i16, x };
                assert forall|index: int|
                    0 <= index < village@.len() && (#[trigger] village@[index]) is Some implies {
                    &&& comes_before(village.cell_of(index), next)
                    &&& village.cell_of(index).y < height
                } by {
                    if village.cell_of(index) != cell {
                        if placed {
                            earlier.lemma_cell_index(cell);
                            assert(index != earlier.index_of(cell));
                        }
                        assert(village@[index] == earlier@[index]);
                    }
                }
                assert forall|other: Cell|
                    0 <= other.x && 0 <= other.y < height && comes_before(
                        other,
                        next,
                    ) implies #[trigger] plot_stands(
                    village,
                    draw_for(draws@, height as int, other),
                    other,
                ) by {
                    if other != cell {
                        assert(comes_before(other, cell));
                        assert(plot_stands(earlier, draw_for(draws@, height as int, other), other));
                    }
                }
            }
            y += 1;
            rank += 1;
        }
        proof {
            assert((x + 1) * height == x * height + height) by (nonlinear_arith);
            assert forall|cell: Cell| 0 <= cell.x < x + 1 && 0 <= cell.y < height implies comes_before(
                cell,
                Cell { y, x },
            ) by {}
        }
        x += 1;
    }
    village
}

/// Placing what was drawn for `cell`, after the cells before it and before
/// any other, leaves at that cell what the draw leaves there, and changes
/// nothing of what the draws for the cells before it left.
proof fn lemma_plot_placed(earlier: Village, village: Village, draw: PlotDraw, cell: Cell, placed: bool)
    requires
        earlier.wf(),
        village.wf(),
        village.terrain() == earlier.terrain(),
        forall|index: int|
            0 <= index < earlier@.len() && (#[trigger] earlier@[index]) is Some ==> comes_before(
                earlier.cell_of(index),
                cell,
            ),
        placed <==> earlier.fits(cell, draw.size()) && !earlier.meets_component(cell, draw.size()),
        placed ==> village@ == earlier@.update(earlier.index_of(cell), Some(draw.plot())),
        !placed ==> village@ == earlier@,
    ensures
        plot_stands(village, draw, cell),
        forall|index: int|
            0 <= index < village@.len() && (#[trigger] village@[index]) is Some ==> comes_before(
                village.cell_of(index),
                cell,
            ) || village.cell_of(index) == cell,
        forall|other: Cell, drawn: PlotDraw|
            comes_before(other, cell) && plot_stands(earlier, drawn, other) ==> #[trigger] plot_stands(
                village,
                drawn,
                other,
            ),
{
    let at = earlier.index_of(cell);
    let size = draw.size();
    if earlier.in_grid(cell) {
        earlier.lemma_cell_index(cell);
        assert(earlier@[at] is None);
    }
    assert forall|index: int| 0 <= index < village@.len() && index != at implies village@[index]
        == earlier@[index] by {}
    assert forall|index: int|
        0 <= index < village@.len() && (#[trigger] village@[index]) is Some implies comes_before(
        village.cell_of(index),
        cell,
    ) || village.cell_of(index) == cell by {
        if index != at {
            assert(earlier@[index] is Some);
        }
    }
    // what meets a plot before a cell is the same before and after
    assert forall|other: Cell, side: PlotSize|
        comes_before(other, cell) || other == cell implies (#[trigger] meets_earlier(
        village,
        other,
        side,
    ) <==> meets_earlier(earlier, other, side)) by {
        if meets_earlier(village, other, side) {
            let index = choose|index: int|
                0 <= index < village@.len() && (#[trigger] village@[index]) is Some && comes_before(
                    village.cell_of(index),
                    other,
                ) && footprints_overlap(
                    village.cell_of(index),
                    village@[index].unwrap().footprint(),
                    other,
                    side,
                );
            if index == at && placed {
                assert(village.cell_of(index) == cell);
            }
            assert(earlier@[index] is Some);
        }
        if meets_earlier(earlier, other, side) {
            let index = choose|index: int|
                0 <= index < earlier@.len() && (#[trigger] earlier@[index]) is Some && comes_before(
                    earlier.cell_of(index),
                    other,
                ) && footprints_overlap(
                    earlier.cell_of(index),
                    earlier@[index].unwrap().footprint(),
                    other,
                    side,
                );
            assert(village@[index] is Some);
        }
    }
    // before anything stands at the cell or after it, what it meets came before it
    assert(meets_earlier(earlier, cell, size) <==> earlier.meets_component(cell, size)) by {
        if earlier.meets_component(cell, size) {
            let index = choose|index: int|
                0 <= index < earlier@.len() && (#[trigger] earlier@[index]) is Some
                    && footprints_overlap(
                    earlier.cell_of(index),
                    earlier@[index].unwrap().footprint(),
                    cell,
                    size,
                );
            assert(comes_before(earlier.cell_of(index), cell));
        }
        if meets_earlier(earlier, cell, size) {
            let index = choose|index: int|
                0 <= index < earlier@.len() && (#[trigger] earlier@[index]) is Some && comes_before(
                    earlier.cell_of(index),
                    cell,
                ) && footprints_overlap(
                    earlier.cell_of(index),
                    earlier@[index].unwrap().footprint(),
                    cell,
                    size,
                );
            assert(earlier@[index] is Some);
        }
    }
    assert(meets_earlier(village, cell, size) <==> meets_earlier(earlier, cell, size));
    assert(plot_stands(village, draw, cell));
    assert forall|other: Cell, drawn: PlotDraw|
        comes_before(other, cell) && plot_stands(earlier, drawn, other) implies #[trigger] plot_stands(
        village,
        drawn,
        other,
    ) by {
        assert(meets_earlier(village, other, drawn.size()) <==> meets_earlier(
            earlier,
            other,
            drawn.size(),
        ));
        if earlier.in_grid(other) {
            earlier.lemma_cell_index(other);
            if earlier.in_grid(cell) {
                assert(earlier.index_of(other) != at);
            }
        }
    }
}

/// A village on the default ground, filled with plots drawn at random.
///
/// For every cell in the columns `0..plate_width_cells` and the rows
/// `0..plate_height_cells` of `scenery`, column by column, a kind of
/// building, a state and a level are drawn; [`lay_out_plots`] then places
/// what was drawn. So the first cell always gets its plot, no plot has its
/// corner outside those columns and rows, and no cell of them is left with
/// room for the largest footprint; see [`has_no_room`].
pub fn generate_village(scenery: &Scenery) -> (result: VillageOperationResult<Village>)
    ensures
        result matches Ok(village) && {
            &&& village.wf()
            &&& village.grain() == 1
            &&& is_default_scenery(village.terrain())
            &&& forall|index: int|
                0 <= index < village@.len() && (#[trigger] village@[index]) is Some ==> {
                    &&& is_plot(village@[index].unwrap())
                    &&& village.cell_of(index).x < scenery.params.plate_width_cells
                    &&& village.cell_of(index).y < scenery.params.plate_height_cells
                }
            &&& scenery.params.plate_width_cells > 0 && scenery.params.plate_height_cells > 0
                ==> village@[0] is Some
            &&& forall|cell: Cell|
                0 <= cell.x < scenery.params.plate_width_cells && 0 <= cell.y
                    < scenery.params.plate_height_cells ==> #[trigger] has_no_room(village, cell)
        },
{
    let mut rng = thread_generator();
    let width: usize = scenery.params().plate_width_cells as usize;
    let height: usize = scenery.params().plate_height_cells as usize;
    assert(width * height <= 255 * 255) by (nonlinear_arith)
        requires
            0 <= width <= 255,
            0 <= height <= 255,
    ;
    let cells: usize = width * height;
    let mut draws: Vec<PlotDraw> = Vec::new();
    while draws.len() < cells
        invariant
            draws@.len() <= cells,
            forall|rank: int| 0 <= rank < draws@.len() ==> (#[trigger] draws@[rank]).in_range(),
        decreases cells - draws@.len(),
    {
        let kind = draw_between(&mut rng, 0, BUILDING_KINDS - 1);
        let state = draw_between(&mut rng, 0, STATE_DRAWS - 1);
        let range = building_type_from(kind, state).level_range();
        let level = draw_between(&mut rng, range.lowest as u32, range.highest as u32) as u8;
        draws.push(PlotDraw { kind, state, level });
    }
    let village = lay_out_plots(scenery, &draws);
    proof {
        lemma_laid_out(village, draws@, width as int, height as int);
    }
    Ok(village)
}

/// What holds of a village that draws lay out, whatever was drawn: every
/// plot is one that was drawn, the first cell has its plot, and no cell
/// that a plot was drawn for is left with room for the largest footprint.
proof fn lemma_laid_out(village: Village, draws: Seq<PlotDraw>, width: int, height: int)
    requires
        village.wf(),
        is_default_scenery(village.terrain()),
        is_laid_out(village, draws, width, height),
        0 <= width,
        0 <= height,
        draws.len() == width * height,
        forall|rank: int| 0 <= rank < draws.len() ==> (#[trigger] draws[rank]).in_range(),
    ensures
        forall|index: int|
            0 <= index < village@.len() && (#[trigger] village@[index]) is Some ==> is_plot(
                village@[index].unwrap(),
            ),
        width > 0 && height > 0 ==> village@[0] is Some,
        forall|cell: Cell|
            0 <= cell.x < width && 0 <= cell.y < height ==> #[trigger] has_no_room(village, cell),
{
    assert forall|index: int|
        0 <= index < village@.len() && (#[trigger] village@[index]) is Some implies is_plot(
        village@[index].unwrap(),
    ) by {
        village.lemma_index_cell(index);
        let cell = village.cell_of(index);
        let draw = draw_for(draws, height, cell);
        assert(plot_stands(village, draw, cell));
        assert(0 <= cell.x * height + cell.y < width * height) by (nonlinear_arith)
            requires
                0 <= cell.x < width,
                0 <= cell.y < height,
        ;
        assert(draw.in_range());
    }
    if width > 0 && height > 0 {
        let first = Cell { y: 0, x: 0 };
        let draw = draw_for(draws, height, first);
        assert(plot_stands(village, draw, first));
        assert(village.index_of(first) == 0) by (nonlinear_arith)
            requires
                village.index_of(first) == first.x * village.rows() + first.y,
                first.x == 0,
                first.y == 0,
        ;
        assert(draw.size().diameter() <= PlotSize::X4.diameter());
        if meets_earlier(village, first, draw.size()) {
            let index = choose|index: int|
                0 <= index < village@.len() && (#[trigger] village@[index]) is Some && comes_before(
                    village.cell_of(index),
                    first,
                ) && footprints_overlap(
                    village.cell_of(index),
                    village@[index].unwrap().footprint(),
                    first,
                    draw.size(),
                );
            village.lemma_index_cell(index);
        }
    }
    assert forall|cell: Cell| 0 <= cell.x < width && 0 <= cell.y < height implies #[trigger] has_no_room(
        village,
        cell,
    ) by {
        let draw = draw_for(draws, height, cell);
        let size = draw.size();
        assert(plot_stands(village, draw, cell));
        assert(size.diameter() <= PlotSize::X4.diameter());
        if village.fits(cell, PlotSize::X4) {
            village.lemma_cell_index(cell);
            let at = village.index_of(cell);
            if meets_earlier(village, cell, size) {
                let index = choose|index: int|
                    0 <= index < village@.len() && (#[trigger] village@[index]) is Some
                        && comes_before(village.cell_of(index), cell) && footprints_overlap(
                        village.cell_of(index),
                        village@[index].unwrap().footprint(),
                        cell,
                        size,
                    );
                assert(footprints_overlap(
                    village.cell_of(index),
                    village@[index].unwrap().footprint(),
                    cell,
                    PlotSize::X4,
                ));
            } else {
                assert(village@[at] is Some);
                assert(footprints_overlap(
                    village.cell_of(at),
                    village@[at].unwrap().footprint(),
                    cell,
                    PlotSize::X4,
                ));
            }
        }
    }
}

/// A wall of level 10 with `life_points` life points.
fn wall(life_points: u32) -> (component: Component)
    requires
        life_points <= 10000,
    ensures
        component == (Component {
            kind: ComponentType::Wall(Wall { level: 10 }),
            life_points: Some((life_points * LIFE_UNITS_PER_POINT) as u32),
        }),
{
    Component {
        kind: ComponentType::Wall(Wall { level: 10 }),
        life_points: Some(life_points * LIFE_UNITS_PER_POINT),
    }
}

/// A passive building with `life_points` life points.
fn building(building_type: BuildingType, level: u8, life_points: u32) -> (component: Component)
    requires
        life_points <= 10000,
    ensures
        component == (Component {
            kind: ComponentType::Building(
                Building { building_type, level, characteristics: BuildingCharacteristics::Passive },
            ),
            life_points: Some((life_points * LIFE_UNITS_PER_POINT) as u32),
        }),
{
    Component {
        kind: ComponentType::Building(
            Building { building_type, level, characteristics: BuildingCharacteristics::Passive },
        ),
        life_points: Some(life_points * LIFE_UNITS_PER_POINT),
    }
}

/// What stands with its corner at `cell` in the village that is laid out by
/// hand: thirteen segments of wall of 20 life points and seven buildings.
pub open spec fn sample_at(cell: Cell) -> Option<Component> {
    if cell == (Cell { y: 10, x: 10 }) {
        Some(sample_wall())
    } else if cell == (Cell { y: 0, x: 0 }) {
        Some(sample_wall())
    } else if cell == (Cell { y: 0, x: 1 }) {
        Some(sample_wall())
    } else if cell == (Cell { y: 0, x: 2 }) {
        Some(sample_wall())
    } else if cell == (Cell { y: 0, x: 3 }) {
        Some(sample_wall())
    } else if cell == (Cell { y: 0, x: 4 }) {
        Some(sample_wall())
    } else if cell == (Cell { y: 1, x: 4 }) {
        Some(sample_wall())
    } else if cell == (Cell { y: 2, x: 4 }) {
        Some(sample_wall())
    } else if cell == (Cell { y: 3, x: 4 }) {
        Some(sample_wall())
    } else if cell == (Cell { y: 10, x: 11 }) {
        Some(sample_wall())
    } else if cell == (Cell { y: 11, x: 11 }) {
        Some(sample_wall())
    } else if cell == (Cell { y: 10, x: 12 }) {
        Some(sample_wall())
    } else if cell == (Cell { y: 12, x: 10 }) {
        Some(sample_wall())
    } else if cell == (Cell { y: 15, x: 20 }) {
        Some(sample_building(BuildingType::ArmyCamp, 3, 400))
    } else if cell == (Cell { y: 6, x: 3 }) {
        Some(sample_building(BuildingType::Mortar(MissileDefenceState::Regular), 13, 250))
    } else if cell == (Cell { y: 1, x: 0 }) {
        Some(sample_building(BuildingType::BuilderHut, 1, 360))
    } else if cell == (Cell { y: 15, x: 8 }) {
        Some(sample_building(BuildingType::ArcherTower(ArcherDefenceState::Regular), 12, 1000))
    } else if cell == (Cell { y: 12, x: 7 }) {
        Some(sample_building(BuildingType::HiddenTesla, 9, 780))
    } else if cell == (Cell { y: 3, x: 3 }) {
        Some(sample_building(BuildingType::HiddenTesla, 9, 47))
    } else if cell == (Cell { y: 35, x: 20 }) {
        Some(sample_building(BuildingType::TownHall, 11, 186))
    } else {
        None
    }
}

/// A segment of wall of the village that is laid out by hand.
pub open spec fn sample_wall() -> Component {
    Component {
        kind: ComponentType::Wall(Wall { level: 10 }),
        life_points: Some((20 * LIFE_UNITS_PER_POINT) as u32),
    }
}

/// A building of the village that is laid out by hand.
pub open spec fn sample_building(building_type: BuildingType, level: u8, life_points: u32) -> Component {
    Component {
        kind: ComponentType::Building(
            Building { building_type, level, characteristics: BuildingCharacteristics::Passive },
        ),
        life_points: Some((life_points * LIFE_UNITS_PER_POINT) as u32),
    }
}

/// A village laid out by hand on the default ground: a few walls and seven
/// buildings, none of them a defense.
#[verifier::rlimit(60)]
pub fn create_village() -> (result: VillageOperationResult<Village>)
    ensures
        result matches Ok(village) && {
            &&& village.wf()
            &&& village.grain() == 1
            &&& is_default_scenery(village.terrain())
            &&& forall|cell: Cell|
                village.in_grid(cell) ==> village@[#[trigger] village.index_of(cell)] == sample_at(
                    cell,
                )
        },
{
    let mut village = Village::default();
    let ghost ground = village.terrain();
    proof {
        ground.lemma_cell_index(Cell { y: 10, x: 10 });
        ground.lemma_cell_index(Cell { y: 0, x: 0 });
        ground.lemma_cell_index(Cell { y: 0, x: 1 });
        ground.lemma_cell_index(Cell { y: 0, x: 2 });
        ground.lemma_cell_index(Cell { y: 0, x: 3 });
        ground.lemma_cell_index(Cell { y: 0, x: 4 });
        ground.lemma_cell_index(Cell { y: 1, x: 4 });
        ground.lemma_cell_index(Cell { y: 2, x: 4 });
        ground.lemma_cell_index(Cell { y: 3, x: 4 });
        ground.lemma_cell_index(Cell { y: 10, x: 11 });
        ground.lemma_cell_index(Cell { y: 11, x: 11 });
        ground.lemma_cell_index(Cell { y: 10, x: 12 });
        ground.lemma_cell_index(Cell { y: 12, x: 10 });
        ground.lemma_cell_index(Cell { y: 15, x: 20 });
        ground.lemma_cell_index(Cell { y: 6, x: 3 });
        ground.lemma_cell_index(Cell { y: 1, x: 0 });
        ground.lemma_cell_index(Cell { y: 15, x: 8 });
        ground.lemma_cell_index(Cell { y: 12, x: 7 });
        ground.lemma_cell_index(Cell { y: 3, x: 3 });
        ground.lemma_cell_index(Cell { y: 35, x: 20 });
    }

    match village.add_component(Cell::new(10, 10), wall(20)) {
        Ok(_) => {},
        Err(error) => {
            return Err(error);
        },
    }
    match village.add_component(Cell::new(0, 0), wall(20)) {
        Ok(_) => {},
        Err(error) => {
            return Err(error);
        },
    }
    match village.add_component(Cell::new(1, 0), wall(20)) {
        Ok(_) => {},
        Err(error) => {
            return Err(error);
        },
    }
    match village.add_component(Cell::new(2, 0), wall(20)) {
        Ok(_) => {},
        Err(error) => {
            return Err(error);
        },
    }
    match village.add_component(Cell::new(3, 0), wall(20)) {
        Ok(_) => {},
        Err(error) => {
            return Err(error);
        },
    }
    match village.add_component(Cell::new(4, 0), wall(20)) {
        Ok(_) => {},
        Err(error) => {
            return Err(error);
        },
    }
    match village.add_component(Cell::new(4, 1), wall(20)) {
        Ok(_) => {},
        Err(error) => {
            return Err(error);
        },
    }
    match village.add_component(Cell::new(4, 2), wall(20)) {
        Ok(_) => {},
        Err(error) => {
            return Err(error);
        },
    }
    match village.add_component(Cell::new(4, 3), wall(20)) {
        Ok(_) => {},
        Err(error) => {
            return Err(error);
        },
    }
    match village.add_component(Cell::new(11, 10), wall(20)) {
        Ok(_) => {},
        Err(error) => {
            return Err(error);
        },
    }
    match village.add_component(Cell::new(11, 11), wall(20)) {
        Ok(_) => {},
        Err(error) => {
            return Err(error);
        },
    }
    match village.add_component(Cell::new(12, 10), wall(20)) {
        Ok(_) => {},
        Err(error) => {
            return Err(error);
        },
    }
    match village.add_component(Cell::new(10, 12), wall(20)) {
        Ok(_) => {},
        Err(error) => {
            return Err(error);
        },
    }
    match village.add_component(Cell::new(20, 15), building(BuildingType::ArmyCamp, 3, 400)) {
        Ok(_) => {},
        Err(error) => {
            return Err(error);
        },
    }
    match village.add_component(Cell::new(3, 6), building(BuildingType::Mortar(MissileDefenceState::Regular), 13, 250)) {
        Ok(_) => {},
        Err(error) => {
            return Err(error);
        },
    }
    match village.add_component(Cell::new(0, 1), building(BuildingType::BuilderHut, 1, 360)) {
        Ok(_) => {},
        Err(error) => {
            return Err(error);
        },
    }
    match village.add_component(Cell::new(8, 15), building(BuildingType::ArcherTower(ArcherDefenceState::Regular), 12, 1000)) {
        Ok(_) => {},
        Err(error) => {
            return Err(error);
        },
    }
    match village.add_component(Cell::new(7, 12), building(BuildingType::HiddenTesla, 9, 780)) {
        Ok(_) => {},
        Err(error) => {
            return Err(error);
        },
    }
    match village.add_component(Cell::new(3, 3), building(BuildingType::HiddenTesla, 9, 47)) {
        Ok(_) => {},
        Err(error) => {
            return Err(error);
        },
    }
    match village.add_component(Cell::new(20, 35), building(BuildingType::TownHall, 11, 186)) {
        Ok(_) => {},
        Err(error) => {
            return Err(error);
        },
    }

    proof {
        assert forall|cell: Cell| village.in_grid(cell) implies village@[#[trigger] village.index_of(
            cell,
        )] == sample_at(cell) by {
            ground.lemma_cell_index(cell);
        }
    }
    Ok(village)
}

} // verus!
