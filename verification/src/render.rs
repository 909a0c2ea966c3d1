//! What the painter of a village needs to know: the order in which the
//! components are painted, and the class of a building.
//!
//! What lies further from the upper left corner of the plate is painted
//! later, over what lies nearer.

use crate::building::Building;
use crate::cell::Cell;
use crate::village::{Component, ComponentId, Village};
use vstd::prelude::*;
use vstd::seq_lib::{to_multiset_build, to_multiset_insert};

verus! {

/// The square of the distance in cells from `cell` to the upper left corner
/// of the plate of `village`: the cell in the first column and the last row.
pub open spec fn corner_distance(village: Village, cell: Cell) -> int {
    let rows = village.terrain().params.plate_height_cells as int;
    cell.x * cell.x + (rows - cell.y) * (rows - cell.y)
}

/// Whether the first component is painted before the second: it lies nearer
/// to the upper left corner, or as near and has the lower name.
pub open spec fn painted_before(
    village: Village,
    first: (ComponentId, Cell, Component),
    second: (ComponentId, Cell, Component),
) -> bool {
    ||| corner_distance(village, first.1) < corner_distance(village, second.1)
    ||| corner_distance(village, first.1) == corner_distance(village, second.1) && first.0.0
        < second.0.0
}

/// The components of a listing stand in the order of their names, each with
/// the cell of its corner.
pub proof fn lemma_listing_order(village: Village, upto: int)
    requires
        0 <= upto <= village@.len(),
        village@.len() <= usize::MAX,
    ensures
        forall|i: int|
            0 <= i < village.listing(upto).len() ==> {
                let entry = #[trigger] village.listing(upto)[i];
                &&& entry.0.0 < upto
                &&& entry.1 == village.cell_of(entry.0.0 as int)
                &&& village@[entry.0.0 as int] == Some(entry.2)
            },
        forall|i: int, j: int|
            0 <= i < j < village.listing(upto).len() ==> (#[trigger] village.listing(upto)[i]).0.0 < (
            #[trigger] village.listing(upto)[j]).0.0,
    decreases upto,
{
    if upto > 0 {
        lemma_listing_order(village, upto - 1);
    }
}

/// The square of the distance in cells from `cell` to the upper left corner
/// of the plate of `village`.
fn distance_to_corner(village: &Village, cell: Cell) -> (distance: i64)
    ensures
        distance == corner_distance(*village, cell),
{
    let dx: i64 = cell.x as i64;
    let dy: i64 = village.scenery().params().plate_height_cells as i64 - cell.y as i64;
    assert(0 <= dx * dx <= 0x8000 * 0x8000) by (nonlinear_arith)
        requires
            -0x8000 <= dx <= 0x8000,
    ;
    assert(0 <= dy * dy <= 0x10000 * 0x10000) by (nonlinear_arith)
        requires
            -0x10000 <= dy <= 0x10000,
    ;
    dx * dx + dy * dy
}

/// The components of `village` in the order in which they are painted: by
/// their distance from the upper left corner of the plate, and those that
/// are as far in the order of their names.
pub fn painting_order(village: &Village) -> (order: Vec<(ComponentId, Cell, Component)>)
    requires
        village.wf(),
    ensures
        order@.to_multiset() == village.listing(village@.len() as int).to_multiset(),
        forall|i: int, j: int|
            0 <= i < j < order@.len() ==> painted_before(
                *village,
                #[trigger] order@[i],
                #[trigger] order@[j],
            ),
{
    let components = village.iter_components();
    proof {
        village.terrain().lemma_cell_count_bound();
        lemma_listing_order(*village, village@.len() as int);
    }
    let mut order: Vec<(ComponentId, Cell, Component)> = Vec::new();
    let mut k: usize = 0;
    assert(order@ =~= components@.take(0));
    while k < components.len()
        invariant
            k <= components@.len(),
            components@ == village.listing(village@.len() as int),
            forall|i: int, j: int|
                0 <= i < j < components@.len() ==> (#[trigger] components@[i]).0.0 < (
                #[trigger] components@[j]).0.0,
            order@.to_multiset() == components@.take(k as int).to_multiset(),
            forall|i: int, j: int|
                0 <= i < j < order@.len() ==> painted_before(
                    *village,
                    #[trigger] order@[i],
                    #[trigger] order@[j],
                ),
            forall|m: int|
                0 <= m < order@.len() && k < components@.len() ==> (#[trigger] order@[m]).0.0
                    < components@[k as int].0.0,
        decreases components@.len() - k,
    {
        let entry = components[k];
        let key = distance_to_corner(village, entry.1);
        let mut at: usize = 0;
        while at < order.len() && distance_to_corner(village, order[at].1) <= key
            invariant
                at <= order@.len(),
                key == corner_distance(*village, entry.1),
                forall|m: int|
                    0 <= m < at ==> corner_distance(*village, (#[trigger] order@[m]).1) <= key,
            decreases order@.len() - at,
        {
            at += 1;
        }
        let ghost before = order@;
        order.insert(at, entry);
        proof {
            to_multiset_insert(before, at as int, entry);
            to_multiset_build(components@.take(k as int), entry);
            assert(components@.take(k + 1) =~= components@.take(k as int).push(entry));
            assert forall|i: int, j: int| 0 <= i < j < order@.len() implies painted_before(
                *village,
                #[trigger] order@[i],
                #[trigger] order@[j],
            ) by {
                if i < at && j > at {
                    assert(order@[i] == before[i] && order@[j] == before[j - 1]);
                    assert(painted_before(*village, before[i], before[j - 1]));
                } else if i > at {
                    assert(order@[i] == before[i - 1] && order@[j] == before[j - 1]);
                    assert(painted_before(*village, before[i - 1], before[j - 1]));
                } else if j < at {
                    assert(order@[i] == before[i] && order@[j] == before[j]);
                } else if j == at {
                    assert(order@[i] == before[i]);
                    assert(before[i].0.0 < entry.0.0);
                } else {
                    assert(order@[j] == before[j - 1]);
                    if j - 1 > at {
                        assert(painted_before(*village, before[at as int], before[j - 1]));
                    }
                }
            }
            assert forall|m: int|
                0 <= m < order@.len() && k + 1 < components@.len() implies (
            #[trigger] order@[m]).0.0 < components@[k + 1].0.0 by {
                assert(components@[k as int].0.0 < components@[k + 1].0.0);
                if m < at {
                    assert(order@[m] == before[m]);
                } else if m > at {
                    assert(order@[m] == before[m - 1]);
                }
            }
        }
        k += 1;
    }
    assert(components@.take(components@.len() as int) =~= components@);
    order
}

/// The class of `building`: the rank of the first of `filenames` that is
/// the name of its picture, if one is.
pub fn asset_class(filenames: &Vec<String>, building: &Building) -> (class: Option<usize>)
    ensures
        class matches Some(rank) ==> {
            &&& rank < filenames@.len()
            &&& filenames@[rank as int]@ == building.building_type.file_name(building.level)
            &&& forall|i: int|
                0 <= i < rank ==> (#[trigger] filenames@[i])@ != building.building_type.file_name(
                    building.level,
                )
        },
        class is None ==> forall|i: int|
            0 <= i < filenames@.len() ==> (#[trigger] filenames@[i])@
                != building.building_type.file_name(building.level),
{
    let name = building.building_type.get_file_name(building.level);
    let mut rank: usize = 0;
    while rank < filenames.len()
        invariant
            rank <= filenames@.len(),
            name@ == building.building_type.file_name(building.level),
            forall|i: int| 0 <= i < rank ==> (#[trigger] filenames@[i])@ != name@,
        decreases filenames@.len() - rank,
    {
        if filenames[rank] == name {
            return Some(rank);
        }
        rank += 1;
    }
    None
}

} // verus!
