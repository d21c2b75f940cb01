use aipo::host::fault::DiagnosticCode;
use aipo::host::handle::{Handle, HandleTable};

#[test]
fn test_insert_and_get() {
    let mut table = HandleTable::new();
    let handle = table.insert("sword");
    assert_eq!(table.get(handle), Some(&"sword"));
    assert_eq!(table.len(), 1);
    assert!(!table.is_empty());
}

#[test]
fn test_released_handle_never_resolves_to_reused_slot() {
    let mut table = HandleTable::new();
    let first = table.insert(10);
    assert_eq!(table.remove(first), Some(10));
    // A double release is harmless and does not bump again.
    assert_eq!(table.remove(first), None);

    let second = table.insert(20);
    assert_eq!(second.index(), first.index());
    assert_ne!(second.generation(), first.generation());
    assert_eq!(
        table.get(first),
        None,
        "stale handle must not see the new value"
    );
    assert_eq!(table.get(second), Some(&20));
    assert!(!table.contains(first));
    assert_eq!(table.len(), 1);
}

#[test]
fn test_stale_handle_is_a_fault_not_a_panic() {
    let mut table = HandleTable::new();
    let handle = table.insert(1);
    table.remove(handle);
    let fault = table.require(handle).expect_err("stale");
    assert_eq!(fault.code(), DiagnosticCode::AIPO_RT_STALE_HANDLE);
}

#[test]
fn test_unknown_handle_is_not_live() {
    let table: HandleTable<u8> = HandleTable::new();
    let unknown = Handle::from_parts(7, 3);

    assert_eq!(table.get(unknown), None);
    assert!(!table.contains(unknown));
    assert!(table.require(unknown).is_err());
}

#[test]
fn test_generation_increases_across_reuse() {
    let mut table = HandleTable::new();
    let first = table.insert(1);
    table.remove(first);
    let second = table.insert(2);
    table.remove(second);
    let third = table.insert(3);
    assert!(third.generation() > second.generation());
    assert!(second.generation() > first.generation());
    assert_eq!(table.get(third), Some(&3));
}

#[test]
fn test_get_mut_through_a_live_handle() {
    let mut table = HandleTable::new();
    let handle = table.insert(String::from("a"));
    table.get_mut(handle).expect("live").push('b');
    assert_eq!(table.get(handle).map(String::as_str), Some("ab"));
}

#[test]
fn test_mutating_a_stale_handle_changes_nothing() {
    let mut table = HandleTable::new();
    let handle = table.insert(String::from("a"));
    table.remove(handle);
    let replacement = table.insert(String::from("b"));
    assert_eq!(replacement.index(), handle.index());
    assert!(table.get_mut(handle).is_none());
    assert_eq!(table.get(replacement).map(String::as_str), Some("b"));
}

#[test]
fn test_clear_invalidates_every_handle() {
    let mut table = HandleTable::new();
    let handle = table.insert(1);
    table.clear();
    assert!(table.is_empty());
    assert_eq!(table.get(handle), None);
}

#[test]
fn test_iter_lists_live_values_only() {
    let mut table = HandleTable::new();
    let first = table.insert(1);
    let second = table.insert(2);
    table.remove(first);
    let live: Vec<_> = table
        .iter()
        .into_iter()
        .map(|(handle, value)| (handle, *value))
        .collect();
    assert_eq!(live, vec![(second, 2)]);
}

#[test]
fn test_generation_exhaustion_retires_the_slot() {
    let mut table: HandleTable<u8> = HandleTable::new();
    let first = table.insert(0);
    let index = first.index();
    // Move the slot to the last generation without looping 2^32 times.
    let last = table
        .advance_generation(first, u32::MAX, 1)
        .expect("live slot advances");
    assert_eq!(last, Handle::from_parts(index, u32::MAX));
    assert_eq!(table.remove(last), Some(1));

    // The slot is not reused, so no handle can address a wrapped generation.
    assert!(table.is_empty());
    let fresh = table.insert(2);
    assert_ne!(fresh.index(), index);
    assert!(!table.contains(last));
}

#[test]
fn clear_retires_an_exhausted_slot_too() {
    let mut table: HandleTable<u8> = HandleTable::new();
    let first = table.insert(0);
    let last = table.advance_generation(first, u32::MAX, 5).expect("advances");
    table.clear();
    assert!(table.is_empty());
    assert!(!table.contains(last));
    let fresh = table.insert(9);
    assert_ne!(fresh.index(), last.index());
}

#[test]
fn advancing_a_stale_handle_changes_nothing() {
    let mut table: HandleTable<u8> = HandleTable::new();
    let first = table.insert(0);
    table.remove(first);
    assert_eq!(table.advance_generation(first, 9, 1), None);
    let live = table.insert(3);
    assert_eq!(table.advance_generation(live, live.generation(), 4), None);
    assert_eq!(table.get(live), Some(&3));
}
