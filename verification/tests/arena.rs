use safe_once_map::index_arena::arena_index;
use safe_once_map::index_arena::IndexArena;
use safe_once_map::once::OnceCell;

#[test]
fn test_arena_index() {
    assert_eq!((0, 0), arena_index(0));
    assert_eq!((1, 0), arena_index(1));
    assert_eq!((1, 1), arena_index(2));
    assert_eq!((2, 0), arena_index(3));
    assert_eq!((2, 1), arena_index(4));
    assert_eq!((2, 2), arena_index(5));
    assert_eq!((2, 3), arena_index(6));
    assert_eq!((3, 0), arena_index(7));
}

#[test]
fn index_arena_test_arena_index() {
    assert_eq!((0, 0), arena_index(0));
    assert_eq!((1, 0), arena_index(1));
    assert_eq!((1, 1), arena_index(2));
    assert_eq!((2, 0), arena_index(3));
    assert_eq!((2, 1), arena_index(4));
    assert_eq!((2, 2), arena_index(5));
    assert_eq!((2, 3), arena_index(6));
    assert_eq!((3, 0), arena_index(7));
}

#[test]
fn test_arena() {
    let mut arena: IndexArena<OnceCell<String>> = IndexArena::new();
    let v = arena.cell_get_or_init(123, || "Asd".to_string());
    assert_eq!(v, "Asd");
}

#[test]
fn arena_slots_are_stable() {
    let mut arena: IndexArena<OnceCell<u64>> = IndexArena::new();
    let a = *arena.cell_get_or_init(0, || 10);
    let b = *arena.cell_get_or_init(5, || 20);
    assert_eq!(a, 10);
    assert_eq!(b, 20);
    // later initializers never replace a ready slot
    assert_eq!(*arena.cell_get_or_init(0, || 99), 10);
    assert_eq!(*arena.cell_get_or_init(5, || 99), 20);
    assert_eq!(*arena.cell_get_or_init(1000, || 30), 30);
    assert_eq!(*arena.cell_get_or_init(0, || 99), 10);
}

#[test]
fn arena_try_get() {
    let mut arena: IndexArena<OnceCell<u64>> = IndexArena::new();
    assert!(arena.try_get(7).is_none());
    arena.get_or_init(7);
    assert!(arena.try_get(7).is_some());
}
