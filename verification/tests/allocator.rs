use stormcell::allocator::{Address, Allocator};

#[test]
fn test_cell_allocator() {
    let mut allocator = Allocator::<f32>::new(3, 10);

    let items = std::array::from_fn::<Address, 13, _>(|index| allocator.push(index as f32));

    assert_eq!(allocator.pages_count(), 5);
    assert_eq!(allocator.current_page_size(), 1);
    for (index, address) in items.into_iter().enumerate() {
        assert_eq!(*allocator.read(address).unwrap(), index as f32);
    }
    assert_eq!(allocator.pop(), Some(12.0));
    assert_eq!(allocator.pages_count(), 4);
    assert_eq!(allocator.current_page_size(), 3);
}

#[test]
fn invalid_addresses_are_told_apart() {
    let invalid = Address::invalid();
    assert!(!invalid.is_valid());
    assert_eq!(Address::default(), invalid);
    assert_eq!(invalid.page(), u32::MAX);
    assert_eq!(invalid.index(), u32::MAX);
    let mut allocator = Allocator::<u8>::new(2, 1);
    let address = allocator.push(1);
    assert!(address.is_valid());
    assert!(allocator.read(invalid).is_none());
    assert!(allocator.write(invalid).is_none());
}

#[test]
fn addresses_are_shown_with_page_and_slot() {
    let mut allocator = Allocator::<u16>::new(12, 1);
    let addresses: Vec<Address> = (0..131).map(|value| allocator.push(value)).collect();
    assert_eq!(addresses[0].to_string(), "@0#0");
    assert_eq!(addresses[23].to_string(), "@1#11");
    assert_eq!(addresses[130].to_string(), "@10#10");
    assert_eq!(Address::invalid().to_string(), "@4294967295#4294967295");
}

#[test]
fn pushing_keeps_what_is_stored() {
    let mut allocator = Allocator::<u32>::new(4, 1);
    let first = allocator.push(10);
    assert_eq!((first.page(), first.index()), (0, 0));
    let addresses: Vec<Address> = (0..9).map(|value| allocator.push(value)).collect();
    assert_eq!(*allocator.read(first).unwrap(), 10);
    assert_eq!((addresses[8].page(), addresses[8].index()), (2, 1));
    assert_eq!(allocator.pages_count(), 3);
    assert_eq!(allocator.current_page_size(), 2);
}

#[test]
fn popping_takes_back_the_last_push() {
    let mut allocator = Allocator::<u32>::new(2, 1);
    assert_eq!(allocator.pop(), None);
    assert_eq!(allocator.pages_count(), 0);
    assert_eq!(allocator.current_page_size(), 0);
    let kept = allocator.push(1);
    let dropped = allocator.push(2);
    assert_eq!(allocator.pop(), Some(2));
    assert_eq!(*allocator.read(kept).unwrap(), 1);
    assert!(allocator.read(dropped).is_none());
    assert_eq!(allocator.push(3), dropped);
    assert_eq!(*allocator.read(dropped).unwrap(), 3);
    assert_eq!(allocator.pop(), Some(3));
    assert_eq!(allocator.pop(), Some(1));
    assert_eq!(allocator.pages_count(), 0);
}

#[test]
fn writing_changes_one_cell() {
    let mut allocator = Allocator::<u32>::new(2, 1);
    let left = allocator.push(1);
    let right = allocator.push(2);
    *allocator.write(left).unwrap() = 7;
    assert_eq!(*allocator.read(left).unwrap(), 7);
    assert_eq!(*allocator.read(right).unwrap(), 2);
}

#[test]
fn copies_of_an_arena_are_independent() {
    let mut allocator = Allocator::<u32>::new(2, 1);
    let address = allocator.push(1);
    let copy = allocator.clone();
    *allocator.write(address).unwrap() = 9;
    allocator.push(2);
    assert_eq!(*copy.read(address).unwrap(), 1);
    assert_eq!(copy.current_page_size(), 1);
}

#[test]
fn cells_without_size_share_one_page() {
    let mut allocator = Allocator::<()>::new(2, 1);
    let addresses: Vec<Address> = (0..5).map(|_| allocator.push(())).collect();
    assert_eq!(allocator.pages_count(), 1);
    assert_eq!(allocator.current_page_size(), 5);
    assert_eq!(addresses[4].to_string(), "@0#4");
    assert_eq!(allocator.read(addresses[4]), Some(&()));
    assert_eq!(allocator.clone().current_page_size(), 5);
    for _ in 0..5 {
        assert_eq!(allocator.pop(), Some(()));
    }
    assert_eq!(allocator.pop(), None);
    assert_eq!(allocator.pages_count(), 0);
    assert_eq!(allocator.push(()), addresses[0]);
}
