use wfwalk::tree::{Arena, ArenaIndex, TreeError};

#[test]
fn test_new() {
    let arena: Arena<u8> = Arena::new();
    assert_eq!(0, arena.live_count());
}

#[test]
fn test_add_some() {
    let mut arena: Arena<u8> = Arena::new();
    let idx0 = arena.allocate(0);
    let idx1 = arena.allocate(1);
    let idx2 = arena.allocate(22);

    assert_ne!(idx0, idx1);
    assert_ne!(idx0, idx2);
    assert_ne!(idx1, idx2);

    assert_eq!(3, arena.live_count())
}

#[test]
fn test_values() {
    let mut arena: Arena<u8> = Arena::new();
    let idx0 = arena.allocate(0);
    let idx1 = arena.allocate(11);
    let idx2 = arena.allocate(222);

    assert_eq!(0, *arena.value(idx0).unwrap());
    assert_eq!(11, *arena.value(idx1).unwrap());
    assert_eq!(222, *arena.value(idx2).unwrap());
}

#[test]
fn test_mutate() {
    let mut arena: Arena<u8> = Arena::new();
    let _idx0 = arena.allocate(0);
    let idx1 = arena.allocate(11);
    let _idx2 = arena.allocate(222);

    assert_eq!(11, *arena.value(idx1).unwrap());

    *arena.value_mut(idx1).unwrap() = 77;

    assert_eq!(77, *arena.value(idx1).unwrap());
}

#[test]
fn test_out_of_range() {
    // The only way to get an out-of-range index is to use an index with the wrong Arena.
    let mut arena: Arena<u8> = Arena::new();
    let _idx0 = arena.allocate(0);
    let idx1 = arena.allocate(11);
    let idx2 = arena.allocate(222);

    let mut arena2: Arena<u8> = Arena::new();

    assert!(arena2.value(idx2).is_err());
    assert!(arena2.value_mut(idx1).is_err());
}

#[test]
fn arena_out_of_range_names_the_index() {
    let arena: Arena<u8> = Arena::new();
    assert_eq!(Err(TreeError::IndexOutOfRange(5)), arena.value(ArenaIndex(5)).map(|v| *v));
}
