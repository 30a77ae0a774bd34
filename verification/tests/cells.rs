use ruta::cells::OpenCells;
use ruta::heap::UpvalRef;

/// The cell for `slot`, opened with a fresh handle numbered `fresh` where there is none.
fn capture(cells: &mut OpenCells, slot: u32, fresh: u32) -> UpvalRef {
    match cells.find(slot) {
        Ok(cell) => cell,
        Err(at) => {
            let cell = UpvalRef::from_index(fresh);
            cells.insert(at, slot, cell);
            cell
        }
    }
}

#[test]
fn a_slot_captured_twice_shares_one_cell() {
    let mut cells = OpenCells::new();
    let first = capture(&mut cells, 4, 100);
    let again = capture(&mut cells, 4, 101);
    assert_eq!(first, UpvalRef::from_index(100));
    assert_eq!(again, first);
}

#[test]
fn cells_are_found_in_any_order_of_opening() {
    let mut cells = OpenCells::new();
    for (n, slot) in [7u32, 2, 9, 4, 0].into_iter().enumerate() {
        capture(&mut cells, slot, n as u32);
    }
    assert_eq!(cells.find(9), Ok(UpvalRef::from_index(2)));
    assert_eq!(cells.find(0), Ok(UpvalRef::from_index(4)));
    assert_eq!(cells.find(2), Ok(UpvalRef::from_index(1)));
    // A slot with no cell answers where one would go: after 0, 2 and 4.
    assert_eq!(cells.find(5), Err(3));
    assert_eq!(cells.find(10), Err(5));
}

#[test]
fn closing_takes_the_cells_from_a_slot_up_lowest_first() {
    let mut cells = OpenCells::new();
    for (n, slot) in [3u32, 8, 5, 1].into_iter().enumerate() {
        capture(&mut cells, slot, n as u32);
    }
    let closed = cells.close_from(4);
    assert_eq!(closed, vec![(5, UpvalRef::from_index(2)), (8, UpvalRef::from_index(1))]);
    assert_eq!(cells.find(5), Err(2));
    assert_eq!(cells.find(3), Ok(UpvalRef::from_index(0)));
    assert!(cells.close_from(9).is_empty());
    assert_eq!(cells.close_from(0).len(), 2);
    assert_eq!(cells.find(1), Err(0));
}
