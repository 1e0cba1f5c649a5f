use naval_battle::fleet::FIELD_SIZE;
use naval_battle::grid::{CellType, Field};
use naval_battle::placement::GenerationError;
use naval_battle::ship::{Ship, ShipShape};
use rand::rngs::SmallRng;
use rand::SeedableRng;

const STANDARD_FLEET: [usize; 10] = [4, 3, 3, 2, 2, 2, 1, 1, 1, 1];

fn first_success(n: usize, fleet: &[usize]) -> Field {
    for seed in 0..1000u64 {
        let mut rng = SmallRng::seed_from_u64(seed);
        if let Ok(field) = Field::generate_with(n, &fleet.to_vec(), &mut rng) {
            return field;
        }
    }
    panic!("no seed gave a complete layout");
}

fn occupied(field: &Field, x: isize, y: isize) -> bool {
    let n = field.n as isize;
    x >= 0 && y >= 0 && x < n && y < n && field.get(x as usize, y as usize) == CellType::Occupied
}

/// Groups occupied cells into 8-connected components; each must be a straight
/// run. Returns the sorted run lengths.
fn run_lengths(field: &Field) -> Vec<usize> {
    let n = field.n as isize;
    let mut seen = vec![false; field.n * field.n];
    let mut lengths = Vec::new();
    for y in 0..n {
        for x in 0..n {
            if !occupied(field, x, y) || seen[(x + y * n) as usize] {
                continue;
            }
            let mut stack = vec![(x, y)];
            let mut cells = Vec::new();
            seen[(x + y * n) as usize] = true;
            while let Some((cx, cy)) = stack.pop() {
                cells.push((cx, cy));
                for dx in -1..=1 {
                    for dy in -1..=1 {
                        let (nx, ny) = (cx + dx, cy + dy);
                        if occupied(field, nx, ny) && !seen[(nx + ny * n) as usize] {
                            seen[(nx + ny * n) as usize] = true;
                            stack.push((nx, ny));
                        }
                    }
                }
            }
            let same_row = cells.iter().all(|c| c.1 == cells[0].1);
            let same_col = cells.iter().all(|c| c.0 == cells[0].0);
            assert!(same_row || same_col, "a component is not straight: {:?}", cells);
            lengths.push(cells.len());
        }
    }
    lengths.sort();
    lengths
}

fn sorted(fleet: &[usize]) -> Vec<usize> {
    let mut v = fleet.to_vec();
    v.sort();
    v
}

fn text(field: &Field) -> Vec<String> {
    field.rows().iter().map(|row| row.iter().collect()).collect()
}

#[test]
fn occupied_count_equals_fleet_total() {
    for _ in 0..5 {
        let field = first_success(10, &STANDARD_FLEET);
        assert_eq!(field.count_occupied(), 20);
    }
}

#[test]
fn runs_match_fleet_and_ships_do_not_touch() {
    let field = first_success(10, &STANDARD_FLEET);
    assert_eq!(run_lengths(&field), sorted(&STANDARD_FLEET));
    let field = first_success(8, &[3, 2, 2, 1]);
    assert_eq!(run_lengths(&field), sorted(&[3, 2, 2, 1]));
}

#[test]
fn cells_stay_on_the_grid() {
    let field = first_success(6, &[4, 2, 1]);
    assert_eq!(field.cells.len(), 36);
    let rows = field.rows();
    assert_eq!(rows.len(), 6);
    assert!(rows.iter().all(|row| row.len() == 6));
    assert_eq!(field.count_occupied(), 7);
}

#[test]
fn same_seed_gives_same_grid() {
    for seed in [1u64, 7, 42, 1234] {
        let mut a = SmallRng::seed_from_u64(seed);
        let mut b = SmallRng::seed_from_u64(seed);
        let fleet = STANDARD_FLEET.to_vec();
        let first = Field::generate_with(10, &fleet, &mut a);
        let second = Field::generate_with(10, &fleet, &mut b);
        match (first, second) {
            (Ok(x), Ok(y)) => assert_eq!(x.cells, y.cells),
            (Err(x), Err(y)) => assert_eq!(x, y),
            _ => panic!("runs with one seed disagree"),
        }
    }
}

#[test]
fn saturated_grid_fails_and_stays_unchanged() {
    let mut field = Field::new(3);
    field.place_ship(Ship { x: 1, y: 1, shape: ShipShape { dx: 1, dy: 0, size: 1 } });
    let before = field.cells.clone();
    let mut rng = SmallRng::seed_from_u64(3);
    for _ in 0..20 {
        assert_eq!(field.emplace_ships(1, &mut rng), Err(GenerationError::GenerationFailed));
        assert_eq!(field.cells, before);
    }
}

#[test]
fn horizontal_ship_at_origin() {
    let mut field = Field::new(10);
    let ship = Ship { x: 0, y: 0, shape: ShipShape::oriented(true, 4) };
    assert!(field.can_place_ship(ship));
    field.place_ship(ship);
    let rows = text(&field);
    assert_eq!(rows[0], "XXXX......");
    for row in &rows[1..] {
        assert_eq!(row, "..........");
    }
    assert_eq!(field.count_occupied(), 4);
}

#[test]
fn two_by_two_grid_holds_one_ship() {
    for (x, y) in [(0, 0), (0, 1), (1, 0), (1, 1)] {
        let mut field = Field::new(2);
        field.place_ship(Ship { x, y, shape: ShipShape::oriented(true, 1) });
        assert!(field.get_available_cells(ShipShape::oriented(true, 1)).is_empty());
        assert!(field.get_available_cells(ShipShape::oriented(false, 1)).is_empty());
    }
    for seed in 0..50u64 {
        let mut rng = SmallRng::seed_from_u64(seed);
        assert_eq!(
            Field::generate_with(2, &vec![1, 1], &mut rng),
            Err(GenerationError::GenerationFailed)
        );
    }
}

#[test]
fn invalid_configuration_is_rejected() {
    let mut rng = SmallRng::seed_from_u64(0);
    assert_eq!(Field::generate_with(0, &vec![1], &mut rng), Err(GenerationError::InvalidConfig));
    assert_eq!(
        Field::generate_with(10, &vec![3, 0, 1], &mut rng),
        Err(GenerationError::InvalidConfig)
    );
}

#[test]
fn empty_fleet_gives_empty_grid() {
    let mut rng = SmallRng::seed_from_u64(0);
    let field = Field::generate_with(4, &vec![], &mut rng).unwrap();
    assert_eq!(field.count_occupied(), 0);
    assert!(text(&field).iter().all(|row| row == "...."));
}

#[test]
fn available_cells_in_scan_order() {
    let field = Field::new(3);
    let cells = field.get_available_cells(ShipShape::oriented(true, 2));
    assert_eq!(cells, vec![(0, 0), (0, 1), (0, 2), (1, 0), (1, 1), (1, 2)]);
    let cells = field.get_available_cells(ShipShape::oriented(false, 3));
    assert_eq!(cells, vec![(0, 0), (1, 0), (2, 0)]);
    assert!(field.get_available_cells(ShipShape::oriented(true, 4)).is_empty());
}

#[test]
fn validator_rules() {
    let mut field = Field::new(5);
    field.place_ship(Ship { x: 2, y: 2, shape: ShipShape::oriented(true, 1) });
    // Diagonal and side neighbours are refused, a gap of one cell is not.
    assert!(!field.can_place_ship(Ship { x: 1, y: 1, shape: ShipShape::oriented(true, 1) }));
    assert!(!field.can_place_ship(Ship { x: 0, y: 3, shape: ShipShape::oriented(true, 2) }));
    assert!(field.can_place_ship(Ship { x: 0, y: 4, shape: ShipShape::oriented(true, 5) }));
    assert!(field.can_place_ship(Ship { x: 4, y: 0, shape: ShipShape::oriented(false, 5) }));
    // Off the grid.
    assert!(!field.can_place_ship(Ship { x: 3, y: 4, shape: ShipShape::oriented(true, 3) }));
    // A blocked cell cannot hold a ship but does not keep one away.
    field.set(0, 0, CellType::Blocked);
    assert!(!field.can_place_ship(Ship { x: 0, y: 0, shape: ShipShape::oriented(false, 2) }));
    assert!(field.can_place_ship(Ship { x: 1, y: 0, shape: ShipShape::oriented(false, 1) }));
    assert_eq!(text(&field)[0], "o....");
}

#[test]
fn chosen_origin_is_legal() {
    for seed in 0..30u64 {
        let mut rng = SmallRng::seed_from_u64(seed);
        let mut field = Field::new(6);
        field.place_ship(Ship { x: 0, y: 0, shape: ShipShape::oriented(true, 3) });
        let before = Field { n: field.n, cells: field.cells.clone() };
        let ship = field.emplace_ships(2, &mut rng).unwrap();
        assert!(before.can_place_ship(ship));
        assert!(before.get_available_cells(ship.shape).contains(&(ship.x, ship.y)));
        assert_eq!(field.count_occupied(), 5);
    }
}

#[test]
fn both_orientations_are_drawn() {
    let mut horizontal = 0;
    let mut vertical = 0;
    for seed in 0..40u64 {
        let mut rng = SmallRng::seed_from_u64(seed);
        let mut field = Field::new(10);
        let ship = field.emplace_ships(4, &mut rng).unwrap();
        if ship.shape.dx == 1 {
            horizontal += 1;
        } else {
            vertical += 1;
        }
    }
    assert!(horizontal > 0 && vertical > 0);
}

#[test]
fn ship_cells_in_order() {
    let ship = Ship { x: 2, y: 5, shape: ShipShape::oriented(false, 3) };
    assert_eq!(ship.cells(), vec![(2, 5), (2, 6), (2, 7)]);
    assert_eq!(ship.cell(2), (2, 7));
    assert!(ship.fits_in(8));
    assert!(!ship.fits_in(7));
}

#[test]
fn symbols() {
    assert_eq!(CellType::Empty.symbol(), '.');
    assert_eq!(CellType::Blocked.symbol(), 'o');
    assert_eq!(CellType::Occupied.symbol(), 'X');
}

#[test]
fn standard_board() {
    match Field::generate() {
        Ok(field) => {
            assert_eq!(field.n, FIELD_SIZE);
            assert_eq!(field.count_occupied(), 20);
            assert_eq!(run_lengths(&field), sorted(&STANDARD_FLEET));
        }
        Err(e) => assert!(matches!(
            e,
            GenerationError::GenerationFailed | GenerationError::EntropyUnavailable
        )),
    }
}

fn column_wall() -> Field {
    let mut field = Field::new(4);
    field.place_ship(Ship { x: 0, y: 0, shape: ShipShape::oriented(false, 4) });
    field
}

#[test]
fn drawn_orientation_without_origin_fails() {
    let mut field = column_wall();
    let before = field.clone();
    let mut rng = SmallRng::seed_from_u64(5);
    assert!(field.get_available_cells(ShipShape::oriented(true, 3)).is_empty());
    assert!(!field.get_available_cells(ShipShape::oriented(false, 3)).is_empty());
    assert_eq!(field.emplace_oriented(true, 3, &mut rng), Err(GenerationError::GenerationFailed));
    assert_eq!(field, before);
}

#[test]
fn drawn_orientation_is_kept() {
    for seed in 0..20u64 {
        let mut field = column_wall();
        let mut rng = SmallRng::seed_from_u64(seed);
        let ship = field.emplace_oriented(false, 3, &mut rng).unwrap();
        assert_eq!(ship.shape, ShipShape::oriented(false, 3));
        assert!(ship.x >= 2);
        assert_eq!(field.count_occupied(), 7);
    }
}

#[test]
fn free_cells_stay_empty() {
    let field = first_success(10, &STANDARD_FLEET);
    for y in 0..10 {
        for x in 0..10 {
            let c = field.get(x, y);
            assert!(c == CellType::Empty || c == CellType::Occupied);
        }
    }
}

#[test]
fn single_fitting_ship_always_placed() {
    for seed in 0..30u64 {
        let mut rng = SmallRng::seed_from_u64(seed);
        let field = Field::generate_with(5, &vec![5], &mut rng).unwrap();
        assert_eq!(field.count_occupied(), 5);
    }
}
