use space_partitioning::quadtree::free_list::{FreeList, SENTINEL};

#[derive(Default, Debug, PartialEq, PartialOrd)]
struct Complex(f64, f64);

impl Drop for Complex {
    fn drop(&mut self) {
        self.0 = 42.;
        self.1 = 1337.0;
    }
}

#[test]
fn after_construction_has_no_first_free() {
    let list = FreeList::<Complex>::default();
    assert_eq!(list.first_free(), SENTINEL);
    assert_eq!(list.capacity(), 0);
}

#[test]
fn after_insertion_has_no_first_free() {
    let mut list = FreeList::<Complex>::default();
    assert_eq!(list.insert(Complex::default()), 0);
    assert_eq!(list.first_free(), SENTINEL);
    assert_eq!(list.capacity(), 1);
}

#[test]
fn after_deletion_has_a_first_free() {
    let mut list = FreeList::<Complex>::default();
    list.insert(Complex::default());
    list.erase(0);
    assert_eq!(list.first_free(), 0);
    assert_eq!(list.capacity(), 1);
}

#[test]
fn insert_after_delete_has_no_free() {
    let mut list = FreeList::<Complex>::default();
    list.insert(Complex::default());
    list.erase(0);
    list.insert(Complex::default());
    assert_eq!(list.first_free(), SENTINEL);
    assert_eq!(list.capacity(), 1);
}

#[test]
fn first_free_points_to_last_freed_index() {
    let mut list = FreeList::<Complex>::default();
    list.insert(Complex::default());
    list.insert(Complex::default());
    list.erase(0);
    list.erase(1);
    assert_eq!(list.first_free(), 1);
    assert_eq!(list.capacity(), 2);
}

#[test]
fn erase_in_ascending_order() {
    let mut list = FreeList::<Complex>::default();
    list.insert(Complex::default());
    list.insert(Complex::default());
    list.insert(Complex::default());
    list.insert(Complex::default());
    list.erase(0);
    list.erase(1);
    list.erase(2);
    list.erase(3);
    assert_eq!(list.first_free(), 3);
    assert_eq!(list.capacity(), 4);
}

#[test]
fn erase_in_descending_order() {
    let mut list = FreeList::<Complex>::default();
    list.insert(Complex::default());
    list.insert(Complex::default());
    list.insert(Complex::default());
    list.insert(Complex::default());
    list.erase(3);
    list.erase(2);
    list.erase(1);
    list.erase(0);
    assert_eq!(list.first_free(), 0);
    assert_eq!(list.capacity(), 4);
}

#[test]
fn erase_in_mixed_order() {
    let mut list = FreeList::<Complex>::default();
    list.insert(Complex::default());
    list.insert(Complex::default());
    list.insert(Complex::default());
    list.insert(Complex::default());
    list.erase(0);
    list.erase(3);
    list.erase(1);
    list.erase(2);
    assert_eq!(list.first_free(), 2);
    assert_eq!(list.capacity(), 4);
}

#[test]
fn clear_works() {
    let mut list = FreeList::<Complex>::default();
    list.insert(Complex::default());
    list.insert(Complex::default());
    list.insert(Complex::default());
    list.insert(Complex::default());
    list.erase(1);
    list.clear();
    list.clear();
    assert_eq!(list.first_free(), SENTINEL);
    assert_eq!(list.capacity(), 0);
}

#[test]
fn is_in_free_list_works() {
    let mut list = FreeList::<Complex>::default();
    list.insert(Complex::default());
    list.insert(Complex::default());
    list.erase(0);
    assert!(list.is_in_free_list(0));
    assert!(!list.is_in_free_list(1));
}

#[test]
fn at_works() {
    let mut list = FreeList::<Complex>::default();
    list.insert(Complex(1., 2.));
    list.insert(Complex::default());
    let element = list.at(0);
    assert_eq!(*element, Complex(1., 2.));
}

#[test]
fn at_mut_works() {
    let mut list = FreeList::<Complex>::default();
    list.insert(Complex(1., 2.));
    list.insert(Complex::default());

    // Mutably access the element and exchange it.
    let element = list.at_mut(0);
    *element = Complex::default();

    // Get a new reference and verify.
    let element = list.at(0);
    assert_eq!(*element, Complex(0., 0.));
}

#[test]
fn erased_handles_come_back_newest_first() {
    let mut list = FreeList::<u32>::default();
    for value in 0..4 {
        assert_eq!(list.insert(value * 10), value);
    }
    list.erase(1);
    list.erase(3);
    list.erase(0);
    assert_eq!(list.insert(100), 0);
    assert_eq!(list.insert(101), 3);
    assert_eq!(list.first_free(), 1);
    assert_eq!(list.insert(102), 1);
    assert_eq!(list.insert(103), 4);
    assert_eq!(list.capacity(), 5);
    // The handle that was never erased kept its value.
    assert_eq!(*list.at(2), 20);
    assert_eq!(*list.at(3), 101);
    list.set(2, 21);
    assert_eq!(*list.at(2), 21);
}
