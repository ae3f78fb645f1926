use world_core::coords::GridCoord;
use world_core::handle::ObjectHandle;
use world_core::spatial::SpatialHashGrid;
use world_core::spatial::DEFAULT_CELL_SIZE;
use world_core::units::WorldPos;
use world_core::units::WorldXz;

fn h(index: u32) -> ObjectHandle {
    ObjectHandle::new(index, 1)
}

fn at(x: i32, z: i32) -> WorldPos {
    WorldPos::new(x, 0, z)
}

fn sorted(mut v: Vec<ObjectHandle>) -> Vec<ObjectHandle> {
    v.sort_by_key(|e| (e.index, e.generation));
    v
}

#[test]
fn handle_keys_are_distinct() {
    let hs = [
        ObjectHandle::new(0, 0),
        ObjectHandle::new(0, 1),
        ObjectHandle::new(1, 0),
        ObjectHandle::new(u32::MAX, 0),
        ObjectHandle::new(0, u32::MAX),
        ObjectHandle::new(u32::MAX, u32::MAX),
    ];
    for (i, a) in hs.iter().enumerate() {
        for (j, b) in hs.iter().enumerate() {
            assert_eq!(a.to_key() == b.to_key(), i == j);
        }
    }
    assert_eq!(ObjectHandle::new(1, 2).to_key(), (1u64 << 32) + 2);
}

#[test]
fn cell_of_world_floors() {
    let g = SpatialHashGrid::new(8000);
    assert_eq!(g.cell_size(), 8000);
    assert_eq!(g.cell_of_world(WorldXz::new(0, 0)), GridCoord::new(0, 0));
    assert_eq!(g.cell_of_world(WorldXz::new(7999, 8000)), GridCoord::new(0, 1));
    assert_eq!(g.cell_of_world(WorldXz::new(-1, -8000)), GridCoord::new(-1, -1));
    assert_eq!(g.cell_of_world(WorldXz::new(-8001, 16000)), GridCoord::new(-2, 2));
}

#[test]
fn cell_size_below_one_counts_as_one() {
    let g = SpatialHashGrid::new(0);
    assert_eq!(g.cell_of_world(WorldXz::new(5, -5)), GridCoord::new(5, -5));
    let g = SpatialHashGrid::new(-100);
    assert_eq!(g.cell_of_world(WorldXz::new(i32::MAX, i32::MIN)), GridCoord::new(i32::MAX, i32::MIN));
}

#[test]
fn default_grid_has_eight_unit_cells() {
    let g = SpatialHashGrid::default();
    assert_eq!(g.cell_size(), DEFAULT_CELL_SIZE);
    assert_eq!(DEFAULT_CELL_SIZE, 8000);
    assert_eq!(g.query_candidates(WorldXz::new(0, 0), 100000), Vec::new());
}

#[test]
fn insert_indexes_in_the_positions_cell() {
    let mut g = SpatialHashGrid::new(8000);
    g.insert_or_move(h(1), at(100, 100));
    g.insert_or_move(h(2), at(9000, 100));
    assert_eq!(g.cell_of_handle(h(1)), Some(GridCoord::new(0, 0)));
    assert_eq!(g.cell_of_handle(h(2)), Some(GridCoord::new(1, 0)));
    assert_eq!(g.cell_of_handle(h(3)), None);
    assert_eq!(g.cell_members(GridCoord::new(0, 0)), vec![h(1)]);
    assert_eq!(g.cell_members(GridCoord::new(1, 0)), vec![h(2)]);
    assert_eq!(g.cell_members(GridCoord::new(2, 0)), Vec::new());
}

#[test]
fn moving_within_a_cell_keeps_the_order() {
    let mut g = SpatialHashGrid::new(8000);
    g.insert_or_move(h(1), at(100, 100));
    g.insert_or_move(h(2), at(200, 200));
    g.insert_or_move(h(1), at(7000, 7000));
    assert_eq!(g.cell_members(GridCoord::new(0, 0)), vec![h(1), h(2)]);
}

#[test]
fn moving_to_another_cell_relists() {
    let mut g = SpatialHashGrid::new(8000);
    g.insert_or_move(h(1), at(100, 100));
    g.insert_or_move(h(2), at(200, 200));
    g.insert_or_move(h(3), at(300, 300));
    g.insert_or_move(h(2), at(-100, 100));
    assert_eq!(g.cell_members(GridCoord::new(0, 0)), vec![h(1), h(3)]);
    assert_eq!(g.cell_members(GridCoord::new(-1, 0)), vec![h(2)]);
    assert_eq!(g.cell_of_handle(h(2)), Some(GridCoord::new(-1, 0)));
    g.insert_or_move(h(2), at(100, 100));
    assert_eq!(g.cell_members(GridCoord::new(0, 0)), vec![h(1), h(3), h(2)]);
    assert_eq!(g.cell_members(GridCoord::new(-1, 0)), Vec::new());
}

#[test]
fn remove_clears_both_directions() {
    let mut g = SpatialHashGrid::new(8000);
    g.insert_or_move(h(1), at(100, 100));
    g.insert_or_move(h(2), at(200, 200));
    g.remove(h(1));
    assert_eq!(g.cell_of_handle(h(1)), None);
    assert_eq!(g.cell_members(GridCoord::new(0, 0)), vec![h(2)]);
    g.remove(h(1));
    g.remove(h(9));
    assert_eq!(g.cell_members(GridCoord::new(0, 0)), vec![h(2)]);
    assert_eq!(g.cell_of_handle(h(2)), Some(GridCoord::new(0, 0)));
}

#[test]
fn generations_are_told_apart() {
    let mut g = SpatialHashGrid::new(8000);
    g.insert_or_move(ObjectHandle::new(5, 1), at(0, 0));
    g.insert_or_move(ObjectHandle::new(5, 2), at(0, 0));
    assert_eq!(
        g.cell_members(GridCoord::new(0, 0)),
        vec![ObjectHandle::new(5, 1), ObjectHandle::new(5, 2)]
    );
    g.remove(ObjectHandle::new(5, 1));
    assert_eq!(g.cell_members(GridCoord::new(0, 0)), vec![ObjectHandle::new(5, 2)]);
}

#[test]
fn query_looks_at_the_block_the_radius_reaches() {
    let mut g = SpatialHashGrid::new(8000);
    g.insert_or_move(h(1), at(4000, 4000));
    g.insert_or_move(h(2), at(12000, 4000));
    g.insert_or_move(h(3), at(20000, 4000));
    g.insert_or_move(h(4), at(-4000, -4000));
    g.insert_or_move(h(5), at(4000, 20000));

    // Radius 0 reaches no further than the center's own cell.
    assert_eq!(g.query_candidates(WorldXz::new(100, 100), 0), vec![h(1)]);
    assert_eq!(g.query_candidates(WorldXz::new(100, 100), -50), vec![h(1)]);
    // Any radius up to one cell edge reaches one cell out, however near the rim.
    assert_eq!(sorted(g.query_candidates(WorldXz::new(100, 100), 1)), vec![h(1), h(2), h(4)]);
    assert_eq!(sorted(g.query_candidates(WorldXz::new(100, 100), 8000)), vec![h(1), h(2), h(4)]);
    // One unit more reaches two cells out.
    assert_eq!(
        sorted(g.query_candidates(WorldXz::new(100, 100), 8001)),
        vec![h(1), h(2), h(3), h(4), h(5)]
    );
}

#[test]
fn query_walks_rows_then_columns() {
    let mut g = SpatialHashGrid::new(1000);
    g.insert_or_move(h(1), at(1500, 1500));
    g.insert_or_move(h(2), at(500, 500));
    g.insert_or_move(h(3), at(-500, 500));
    g.insert_or_move(h(4), at(500, -500));
    g.insert_or_move(h(5), at(600, 600));
    assert_eq!(
        g.query_candidates(WorldXz::new(500, 500), 1000),
        vec![h(4), h(3), h(2), h(5), h(1)]
    );
}

#[test]
fn wide_query_returns_every_handle_once() {
    let mut g = SpatialHashGrid::new(1000);
    let mut expected = Vec::new();
    for i in 0..40u32 {
        let x = (i as i32 * 7919) % 20000 - 10000;
        let z = (i as i32 * 104729) % 20000 - 10000;
        g.insert_or_move(h(i), at(x, z));
        expected.push(h(i));
    }
    for i in (0..40u32).step_by(3) {
        g.remove(h(i));
    }
    for i in (1..40u32).step_by(3) {
        g.insert_or_move(h(i), at(-(i as i32) * 100, i as i32 * 250));
    }
    expected.retain(|e| e.index % 3 != 0);
    let got = g.query_candidates(WorldXz::new(0, 0), 25000);
    assert_eq!(got.len(), expected.len());
    assert_eq!(sorted(got), sorted(expected.clone()));

    // Every indexed handle is in exactly the list of the cell it maps to.
    for e in &expected {
        let cell = g.cell_of_handle(*e).unwrap();
        let list = g.cell_members(cell);
        assert_eq!(list.iter().filter(|x| *x == e).count(), 1);
        for dz in -1..=1 {
            for dx in -1..=1 {
                if dx != 0 || dz != 0 {
                    let other = GridCoord::new(cell.x + dx, cell.z + dz);
                    assert!(!g.cell_members(other).contains(e));
                }
            }
        }
    }
}

#[test]
fn query_at_the_edge_of_the_coordinate_range() {
    let mut g = SpatialHashGrid::new(1);
    g.insert_or_move(h(1), at(i32::MAX, i32::MAX));
    g.insert_or_move(h(2), at(i32::MAX - 2, i32::MAX));
    g.insert_or_move(h(3), at(i32::MIN, i32::MIN));
    assert_eq!(sorted(g.query_candidates(WorldXz::new(i32::MAX, i32::MAX), 2)), vec![h(1), h(2)]);
    assert_eq!(g.query_candidates(WorldXz::new(i32::MIN, i32::MIN), 3), vec![h(3)]);
}

#[test]
fn removing_takes_a_handle_out_of_a_query_and_keeps_the_order() {
    let mut g = SpatialHashGrid::new(1000);
    for (i, (x, z)) in [(1500, 1500), (500, 500), (-500, 500), (500, -500), (600, 600), (700, 700)]
        .iter()
        .enumerate()
    {
        g.insert_or_move(h(i as u32), at(*x, *z));
    }
    let before = g.query_candidates(WorldXz::new(500, 500), 1000);
    assert_eq!(before, vec![h(3), h(2), h(1), h(4), h(5), h(0)]);
    g.remove(h(4));
    let after = g.query_candidates(WorldXz::new(500, 500), 1000);
    assert_eq!(after, vec![h(3), h(2), h(1), h(5), h(0)]);
    // Put back, it is a candidate again, once, last in its cell.
    g.insert_or_move(h(4), at(650, 650));
    let again = g.query_candidates(WorldXz::new(500, 500), 1000);
    assert_eq!(again, vec![h(3), h(2), h(1), h(5), h(4), h(0)]);
}
