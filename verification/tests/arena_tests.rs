use rustcycles::arena::{Arena, Handle};

#[test]
fn spawn_numbers_slots_from_zero() {
    let mut arena: Arena<&str> = Arena::new();
    let a = arena.spawn("a");
    let b = arena.spawn("b");
    assert_eq!(a, Handle { index: 0, generation: 1 });
    assert_eq!(b, Handle { index: 1, generation: 1 });
    assert_eq!(*arena.borrow(a), "a");
    assert_eq!(*arena.borrow(b), "b");
    assert_eq!(arena.handles(), vec![a, b]);
    assert_eq!(arena.alive_count(), 2);
    assert_eq!(arena.capacity(), 2);
}

#[test]
fn freed_handle_stays_invalid_after_reuse() {
    let mut arena: Arena<u32> = Arena::new();
    let a = arena.spawn(10);
    let b = arena.spawn(20);
    assert_eq!(arena.free(a), 10);
    assert!(!arena.is_valid_handle(a));
    assert!(arena.is_valid_handle(b));
    assert_eq!(arena.try_borrow(a), None);

    let c = arena.spawn(30);
    assert_eq!(c, Handle { index: 0, generation: 2 });
    assert_ne!(a, c);
    assert!(!arena.is_valid_handle(a));
    assert_eq!(arena.try_borrow(a), None);
    assert_eq!(arena.try_borrow(c), Some(&30));
    assert_eq!(arena.try_free(a), None);
    assert_eq!(arena.handles(), vec![c, b]);
}

#[test]
fn slots_are_reused_last_freed_first() {
    let mut arena: Arena<u32> = Arena::new();
    let a = arena.spawn(1);
    let b = arena.spawn(2);
    let c = arena.spawn(3);
    arena.free(a);
    arena.free(c);
    let d = arena.spawn(4);
    let e = arena.spawn(5);
    let f = arena.spawn(6);
    assert_eq!(d, Handle { index: 2, generation: 2 });
    assert_eq!(e, Handle { index: 0, generation: 2 });
    assert_eq!(f, Handle { index: 3, generation: 1 });
    assert_eq!(arena.handles(), vec![e, b, d, f]);
}

#[test]
fn borrow_mut_changes_one_entry() {
    let mut arena: Arena<u32> = Arena::new();
    let a = arena.spawn(1);
    let b = arena.spawn(2);
    *arena.borrow_mut(a) = 7;
    assert_eq!(*arena.borrow(a), 7);
    assert_eq!(*arena.borrow(b), 2);
    assert_eq!(arena.handles(), vec![a, b]);
}

#[test]
fn handle_parts() {
    let h = Handle::new(3, 9);
    assert_eq!(h.index(), 3);
    assert_eq!(h.generation(), 9);
    let arena: Arena<u8> = Arena::new();
    assert!(!arena.is_valid_handle(h));
    assert!(arena.has_room());
    assert_eq!(arena.alive_count(), 0);
}

#[test]
fn a_stale_handle_never_comes_back() {
    let mut arena: Arena<u32> = Arena::new();
    let first = arena.spawn(0);
    arena.free(first);
    let mut seen = vec![first];
    for round in 1..50u32 {
        let h = arena.spawn(round);
        assert_eq!(h.index, 0);
        assert_eq!(h.generation, round + 1);
        assert!(!seen.contains(&h));
        for stale in &seen {
            assert!(!arena.is_valid_handle(*stale));
        }
        assert_eq!(arena.free(h), round);
        seen.push(h);
    }
    assert_eq!(arena.alive_count(), 0);
    assert_eq!(arena.capacity(), 1);
}

#[test]
fn live_handles_are_distinct() {
    let mut arena: Arena<usize> = Arena::new();
    let mut live = Vec::new();
    for i in 0..20 {
        live.push(arena.spawn(i));
        if i % 3 == 2 {
            let h = live.remove(i / 3);
            arena.free(h);
        }
    }
    let handles = arena.handles();
    assert_eq!(handles.len(), live.len());
    for (i, a) in handles.iter().enumerate() {
        assert!(live.contains(a));
        for b in &handles[i + 1..] {
            assert!(a.index < b.index);
        }
    }
}
