use little_a_map::ids::{absorb, ascending, holding, IdSet};

#[test]
fn set_of_one_id_or_none() {
    assert!(holding(None).is_empty());
    let one = holding(Some(7));
    assert_eq!(one.len(), 1);
    assert!(one.contains(&7));
}

#[test]
fn absorbing_is_the_union() {
    let mut ids: IdSet = [5, 1, 9].into_iter().collect();
    let more: IdSet = [9, 0, 4_000_000_000].into_iter().collect();
    absorb(&mut ids, &more);
    assert_eq!(ascending(&ids).as_slice(), [0, 1, 5, 9, 4_000_000_000]);
    assert_eq!(more.len(), 3);
    absorb(&mut ids, &IdSet::new());
    assert_eq!(ids.len(), 5);
}

#[test]
fn ids_in_ascending_order() {
    let ids: IdSet = [30, 10, 20, 10, 0, u32::MAX].into_iter().collect();
    assert_eq!(ascending(&ids).as_slice(), [0, 10, 20, 30, u32::MAX]);
    assert!(ascending(&IdSet::new()).is_empty());
}
