use data_structures::ordering::{place_of, Place};

#[test]
fn places_of_integers() {
    assert_eq!(place_of(&1u64, &2u64), Place::Before);
    assert_eq!(place_of(&2u64, &2u64), Place::Same);
    assert_eq!(place_of(&3u64, &2u64), Place::After);
    assert_eq!(place_of(&0u64, &u64::MAX), Place::Before);
}
