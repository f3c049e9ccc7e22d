use loose_dirt::element::Element;
use loose_dirt::element::Material;
use loose_dirt::tilemap::SizeError;
use loose_dirt::tilemap::TilePosition;
use loose_dirt::tilemap::Tilemap;

#[test]
fn a_new_grid_holds_the_template_everywhere() {
    let tilemap = Tilemap::new(4, 3, Element::Water).unwrap();
    assert_eq!(tilemap.width(), 4);
    assert_eq!(tilemap.height(), 3);
    for y in 0..3 {
        for x in 0..4 {
            assert_eq!(tilemap.get(x, y), Some(Element::Water));
        }
    }
}

#[test]
fn a_grid_without_columns_is_refused() {
    assert_eq!(Tilemap::new(0, 3, Element::Air).err(), Some(SizeError::Empty));
}

#[test]
fn a_grid_without_rows_is_refused() {
    assert_eq!(Tilemap::new(3, 0, Element::Air).err(), Some(SizeError::Empty));
}

#[test]
fn a_grid_without_any_cell_is_refused() {
    assert_eq!(Tilemap::new(0, 0, Element::Air).err(), Some(SizeError::Empty));
}

#[test]
fn a_grid_beyond_the_index_range_is_refused() {
    assert_eq!(Tilemap::new(usize::MAX, 2, Element::Air).err(), Some(SizeError::TooLarge));
    let half = isize::MAX as usize + 1;
    assert_eq!(Tilemap::new(half, 1, Element::Air).err(), Some(SizeError::TooLarge));
    assert_eq!(Tilemap::new(1, half, Element::Air).err(), Some(SizeError::TooLarge));
}

#[test]
fn get_is_none_outside_the_grid() {
    let tilemap = Tilemap::new(2, 5, Element::Rock).unwrap();
    assert_eq!(tilemap.get(-1, 0), None);
    assert_eq!(tilemap.get(0, -1), None);
    assert_eq!(tilemap.get(2, 0), None);
    assert_eq!(tilemap.get(0, 5), None);
    assert_eq!(tilemap.get(isize::MAX, isize::MAX), None);
    assert_eq!(tilemap.get(isize::MIN, isize::MIN), None);
}

#[test]
fn rows_beyond_the_width_are_part_of_a_tall_grid() {
    let mut tilemap = Tilemap::new(1, 3, Element::Air).unwrap();
    assert_eq!(tilemap.get(0, 1), Some(Element::Air));
    assert_eq!(tilemap.get(0, 2), Some(Element::Air));
    assert!(tilemap.set(0, 2, Element::Rock));
    assert_eq!(tilemap.get(0, 2), Some(Element::Rock));
}

#[test]
fn columns_beyond_the_height_are_part_of_a_wide_grid() {
    let mut tilemap = Tilemap::new(3, 1, Element::Air).unwrap();
    assert!(tilemap.set(2, 0, Element::Rock));
    assert_eq!(tilemap.get(2, 0), Some(Element::Rock));
    assert_eq!(tilemap.get(0, 2), None);
}

#[test]
fn set_replaces_one_cell_only() {
    let mut tilemap = Tilemap::new(3, 2, Element::Air).unwrap();
    assert!(tilemap.set(1, 1, Element::Sand(2)));
    for y in 0..2 {
        for x in 0..3 {
            let expected = if (x, y) == (1, 1) { Element::Sand(2) } else { Element::Air };
            assert_eq!(tilemap.get(x, y), Some(expected));
        }
    }
}

#[test]
fn set_outside_the_grid_is_signalled_and_changes_nothing() {
    let mut tilemap = Tilemap::new(3, 2, Element::Air).unwrap();
    assert!(!tilemap.set(3, 0, Element::Rock));
    assert!(!tilemap.set(0, 2, Element::Rock));
    assert!(!tilemap.set(-1, 0, Element::Rock));
    for y in 0..2 {
        for x in 0..3 {
            assert_eq!(tilemap.get(x, y), Some(Element::Air));
        }
    }
}

#[test]
fn swap_exchanges_two_cells() {
    let mut tilemap = Tilemap::new(2, 2, Element::Air).unwrap();
    tilemap.set(0, 0, Element::Rock);
    tilemap.set(1, 1, Element::Water);
    assert!(tilemap.swap(TilePosition(0, 0), TilePosition(1, 1)));
    assert_eq!(tilemap.get(0, 0), Some(Element::Water));
    assert_eq!(tilemap.get(1, 1), Some(Element::Rock));
    assert_eq!(tilemap.get(1, 0), Some(Element::Air));
    assert_eq!(tilemap.get(0, 1), Some(Element::Air));
}

#[test]
fn swap_of_a_cell_with_itself_changes_nothing() {
    let mut tilemap = Tilemap::new(2, 2, Element::Air).unwrap();
    tilemap.set(1, 0, Element::Sand(1));
    assert!(tilemap.swap(TilePosition(1, 0), TilePosition(1, 0)));
    assert_eq!(tilemap.get(1, 0), Some(Element::Sand(1)));
}

#[test]
fn swap_with_a_cell_outside_the_grid_changes_nothing() {
    let mut tilemap = Tilemap::new(2, 2, Element::Air).unwrap();
    tilemap.set(0, 0, Element::Rock);
    assert!(!tilemap.swap(TilePosition(0, 0), TilePosition(0, -1)));
    assert!(!tilemap.swap(TilePosition(2, 0), TilePosition(0, 0)));
    assert_eq!(tilemap.get(0, 0), Some(Element::Rock));
}

#[test]
fn iter_walks_row_by_row() {
    let tilemap = Tilemap::new(3, 2, Element::Air).unwrap();
    assert_eq!(tilemap.iter(), vec![(0, 0), (1, 0), (2, 0), (0, 1), (1, 1), (2, 1)]);
}

#[test]
fn iter_can_be_walked_again() {
    let tilemap = Tilemap::new(2, 2, Element::Air).unwrap();
    assert_eq!(tilemap.iter(), tilemap.iter());
    assert_eq!(tilemap.iter().len(), 4);
}

#[test]
fn place_is_the_row_major_index() {
    let tilemap = Tilemap::new(3, 2, Element::Air).unwrap();
    assert_eq!(tilemap.place(0, 0), Some(0));
    assert_eq!(tilemap.place(2, 0), Some(2));
    assert_eq!(tilemap.place(0, 1), Some(3));
    assert_eq!(tilemap.place(2, 1), Some(5));
    assert_eq!(tilemap.place(3, 1), None);
    assert!(tilemap.holds(2, 1));
    assert!(!tilemap.holds(2, 2));
}

#[test]
fn every_element_has_its_palette_entry() {
    assert_eq!(Material::of(Element::Air), Material(0));
    assert_eq!(Material::of(Element::Rock), Material(1));
    assert_eq!(Material::of(Element::Water), Material(2));
    assert_eq!(Material::of(Element::Sand(0)), Material(3));
    assert_eq!(Material::of(Element::Sand(255)), Material(3));
}
