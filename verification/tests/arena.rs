use rsx_dom::arena::{Arena, Id};
use rsx_dom::DOMError;

#[test]
fn stale_id_resolves_to_nothing_after_dealloc_and_reuse() {
    let mut arena: Arena<u64> = Arena::new();
    let a = arena.allocate(10);
    let b = arena.allocate(20);
    assert_eq!(arena.try_get(a), Some(&10));
    assert_eq!(arena.try_get(b), Some(&20));

    assert!(arena.dealloc(a));
    assert_eq!(arena.try_get(a), None);

    // The freed slot is reused under a new generation; the old identifier
    // keeps failing even though the slot is occupied again.
    let c = arena.allocate(30);
    assert_eq!(c.slot, a.slot);
    assert_ne!(c, a);
    assert_eq!(arena.try_get(a), None);
    assert_eq!(arena.try_get(c), Some(&30));
    assert_eq!(arena.try_get(b), Some(&20));
}

#[test]
fn dealloc_of_stale_id_is_refused() {
    let mut arena: Arena<u64> = Arena::new();
    let a = arena.allocate(1);
    assert!(arena.dealloc(a));
    assert!(!arena.dealloc(a));
    let fake = Id { slot: 99, generation: 0 };
    assert!(!arena.dealloc(fake));
}

#[test]
fn get_pair_with_equal_ids_fails_with_alias_error() {
    let mut arena: Arena<u64> = Arena::new();
    let a = arena.allocate(1);
    assert_eq!(arena.get_pair((a, a)).err(), Some(DOMError::SameNodeAlias));
}

#[test]
fn get_pair_with_distinct_ids_yields_both_values() {
    let mut arena: Arena<u64> = Arena::new();
    let a = arena.allocate(1);
    let b = arena.allocate(2);
    {
        let (va, vb) = arena.get_pair((a, b)).ok().unwrap();
        assert_eq!(*va, 1);
        assert_eq!(*vb, 2);
        *va = 100;
        *vb = 200;
    }
    assert_eq!(arena.try_get(a), Some(&100));
    assert_eq!(arena.try_get(b), Some(&200));
}

#[test]
fn get_pair_with_stale_id_fails_with_dealloc_error() {
    let mut arena: Arena<u64> = Arena::new();
    let a = arena.allocate(1);
    let b = arena.allocate(2);
    arena.dealloc(b);
    assert_eq!(arena.get_pair((a, b)).err(), Some(DOMError::NodeDeallocated));
}

#[test]
fn try_get_mut_changes_only_the_addressed_value() {
    let mut arena: Arena<u64> = Arena::new();
    let a = arena.allocate(5);
    let b = arena.allocate(6);
    if let Some(v) = arena.try_get_mut(a) {
        *v = 50;
    } else {
        panic!("expected a live value");
    }
    assert_eq!(arena.try_get(a), Some(&50));
    assert_eq!(arena.try_get(b), Some(&6));
}
