use sudoku::tile::Tile;

fn set_of(values: &[u16]) -> Tile {
    let mut tile = Tile::new();
    for &v in values {
        tile.insert(v);
    }
    tile
}

#[test]
fn test_new() {
    let tile = Tile::new();
    assert_eq!(tile.len(), 0);
}

#[test]
fn test_new_full_set() {
    let tile = Tile::new_full_set();
    assert_eq!(tile.len(), 9);
}

#[test]
fn test_insert() {
    let mut tile = Tile::new();

    assert_eq!(tile.len(), 0);

    tile.insert(3);
    assert_eq!(tile.len(), 1);
    assert!(tile.contains(3));

    tile.insert(3);
    assert_eq!(tile.len(), 1);
    assert!(tile.contains(3));

    tile.insert(4);
    assert_eq!(tile.len(), 2);
    assert!(tile.contains(3));
    assert!(tile.contains(4));
}

#[test]
fn set_tile_contains() {
    let mut tile = set_of(&[1, 2]);

    assert!(tile.contains(1));
    assert!(tile.contains(2));

    tile.remove(1);

    assert!(!tile.contains(1));
    assert!(tile.contains(2));
}

#[test]
fn set_tile_remove() {
    let mut tile = Tile::new_full_set();

    for i in 1..10 {
        assert!(tile.contains(i));
    }

    tile.remove(3);
    tile.remove(8);

    for i in 1..10 {
        assert_eq!(tile.contains(i), i != 3 && i != 8);
    }
}

#[test]
fn set_tile_len1() {
    let tile = set_of(&[1, 2]);

    assert_eq!(tile.len(), 2);
}

#[test]
fn set_tile_len2() {
    let mut set_tile = Tile::new_full_set();

    assert_eq!(set_tile.len(), 9);

    set_tile.remove(3);
    set_tile.remove(8);

    assert_eq!(set_tile.len(), 7);
}

#[test]
fn test_get_single_value_some() {
    for i in 1..10 {
        let mut tile = Tile::new_full_set();

        // leave only one value in set
        for x in 1..10 {
            if x != i {
                tile.remove(x);
            }
        }

        let value = tile.get_single_value();
        assert_eq!(value, i);
    }
}

#[test]
fn values_come_in_ascending_order() {
    let tile = set_of(&[9, 2, 5, 1]);
    assert_eq!(tile.values(), vec![1, 2, 5, 9]);
    assert_eq!(Tile::new_full_set().values(), vec![1, 2, 3, 4, 5, 6, 7, 8, 9]);
    assert_eq!(Tile::new().values(), Vec::<u16>::new());
}

#[test]
fn iteration_leaves_the_set_alone_and_restarts() {
    let tile = set_of(&[7, 3]);
    let mut it = tile.iter();
    assert_eq!(it.next(), Some(3));
    assert_eq!(it.next(), Some(7));
    assert_eq!(it.next(), None);
    assert_eq!(it.next(), None);
    assert_eq!(tile.len(), 2);
    let mut again = tile.iter();
    assert_eq!(again.next(), Some(3));
}

#[test]
fn remove_and_insert_are_idempotent() {
    let mut tile = set_of(&[4]);
    tile.remove(5);
    assert_eq!(tile, set_of(&[4]));
    tile.remove(4);
    tile.remove(4);
    assert_eq!(tile, Tile::new());
    tile.insert(6);
    tile.insert(6);
    assert_eq!(tile, set_of(&[6]));
}

#[test]
fn equal_members_make_equal_sets() {
    let mut a = Tile::new_full_set();
    for v in 3..10 {
        a.remove(v);
    }
    assert_eq!(a, set_of(&[2, 1]));
    assert_ne!(a, set_of(&[1]));
}
