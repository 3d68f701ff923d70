use mappy_merges::{first_pressed_numkey, Merges, MetaroomID};

fn listed_ids(m: &Merges) -> Vec<usize> {
    m.metarooms().iter().map(|mr| mr.id.0).collect()
}

#[test]
fn new_lists_nothing() {
    let m = Merges::new();
    assert!(m.metarooms().is_empty());
}

#[test]
fn unmerged_rooms_get_consecutive_ids_newest_first() {
    let mut m = Merges::new();
    assert_eq!(m.merge_new_room(7, &[]), MetaroomID(0));
    assert_eq!(m.merge_new_room(8, &[]), MetaroomID(1));
    assert_eq!(m.merge_new_room(9, &[]), MetaroomID(2));
    assert_eq!(listed_ids(&m), vec![2, 1, 0]);
    let listed = m.metarooms();
    assert_eq!(listed[0].registrations, vec![(9, (0, 0))]);
    assert_eq!(listed[2].registrations, vec![(7, (0, 0))]);
    assert!(listed.iter().all(|mr| mr.merged_into.is_empty()));
}

#[test]
fn merge_collects_shifted_registrations() {
    let mut m = Merges::new();
    let a = m.merge_new_room(10, &[]);
    let b = m.merge_new_room(11, &[(a, (3, -2))]);
    assert_eq!(b, MetaroomID(2));
    assert_eq!(listed_ids(&m), vec![2]);
    let listed = m.metarooms();
    assert_eq!(listed[0].registrations, vec![(11, (0, 0)), (10, (-3, 2))]);
    assert!(listed[0].merged_into.is_empty());
    assert_eq!(m.metaroom_mut(a).merged_into, vec![MetaroomID(2)]);
    assert_eq!(m.metaroom_mut(MetaroomID(1)).merged_into, vec![MetaroomID(2)]);
    assert_eq!(m.metaroom_mut(MetaroomID(1)).registrations, vec![(11, (0, 0))]);
}

#[test]
fn merge_of_two_metarooms_in_order() {
    let mut m = Merges::new();
    let a = m.merge_new_room(1, &[]);
    let b = m.merge_new_room(2, &[]);
    let c = m.merge_new_room(3, &[(b, (1, 1)), (a, (-4, 5))]);
    assert_eq!(c, MetaroomID(3));
    assert_eq!(listed_ids(&m), vec![3]);
    let merged = m.metaroom_mut(c);
    assert_eq!(merged.registrations, vec![(3, (0, 0)), (2, (-1, -1)), (1, (4, -5))]);
    for id in 0..3 {
        assert_eq!(m.metaroom_mut(MetaroomID(id)).merged_into, vec![MetaroomID(3)]);
    }
}

#[test]
fn merged_metarooms_merge_again() {
    let mut m = Merges::new();
    let a = m.merge_new_room(1, &[]);
    let b = m.merge_new_room(2, &[(a, (1, 0))]);
    let c = m.merge_new_room(3, &[]);
    let d = m.merge_new_room(4, &[(b, (0, 1)), (c, (2, 2))]);
    assert_eq!((a, b, c, d), (MetaroomID(0), MetaroomID(2), MetaroomID(3), MetaroomID(5)));
    assert_eq!(listed_ids(&m), vec![5]);
    assert_eq!(
        m.metaroom_mut(d).registrations,
        vec![(4, (0, 0)), (2, (0, -1)), (1, (-1, -1)), (3, (-2, -2))]
    );
    assert_eq!(m.metaroom_mut(b).merged_into, vec![MetaroomID(5)]);
    assert_eq!(m.metaroom_mut(a).merged_into, vec![MetaroomID(2)]);
}

#[test]
fn ids_stay_distinct_and_dense() {
    let mut m = Merges::new();
    let a = m.merge_new_room(0, &[]);
    let b = m.merge_new_room(1, &[]);
    let c = m.merge_new_room(2, &[(a, (0, 0)), (b, (1, 1))]);
    let _ = m.merge_new_room(3, &[]);
    let _ = m.merge_new_room(4, &[(c, (5, 5))]);
    // seven metarooms: every id below the count belongs to one of them
    for id in 0..7 {
        assert_eq!(m.metaroom_mut(MetaroomID(id)).id, MetaroomID(id));
    }
    let mut listed = listed_ids(&m);
    listed.sort();
    assert_eq!(listed, vec![4, 6]);
}

#[test]
fn merge_with_own_room_id_finds_the_new_room() {
    let mut m = Merges::new();
    let _ = m.merge_new_room(5, &[]);
    // the room's own metaroom gets id 1 and may itself be named
    let r = m.merge_new_room(6, &[(MetaroomID(1), (2, 3))]);
    assert_eq!(r, MetaroomID(2));
    assert_eq!(m.metaroom_mut(r).registrations, vec![(6, (0, 0)), (6, (-2, -3))]);
    assert_eq!(m.metaroom_mut(MetaroomID(1)).merged_into, vec![MetaroomID(2), MetaroomID(2)]);
    let mut listed = listed_ids(&m);
    listed.sort();
    assert_eq!(listed, vec![0, 2]);
}

#[test]
fn merging_the_same_metaroom_twice_repeats_it() {
    let mut m = Merges::new();
    let a = m.merge_new_room(1, &[]);
    let r = m.merge_new_room(2, &[(a, (0, 0)), (a, (1, 1))]);
    assert_eq!(m.metaroom_mut(r).registrations, vec![(2, (0, 0)), (1, (0, 0)), (1, (-1, -1))]);
    assert_eq!(m.metaroom_mut(a).merged_into, vec![r, r]);
}

#[test]
fn metaroom_mut_changes_stay() {
    let mut m = Merges::new();
    let a = m.merge_new_room(1, &[]);
    m.metaroom_mut(a).registrations.push((9, (1, 1)));
    assert_eq!(m.metarooms()[0].registrations, vec![(1, (0, 0)), (9, (1, 1))]);
}

#[test]
fn listing_stops_at_first_merged() {
    let mut m = Merges::new();
    let a = m.merge_new_room(1, &[]);
    let _ = m.merge_new_room(2, &[]);
    // marking a metaroom merged by hand moves nothing: the listing stops there
    m.metaroom_mut(MetaroomID(1)).merged_into.push(a);
    assert_eq!(listed_ids(&m), Vec::<usize>::new());
}

#[test]
fn numkey_none_pressed() {
    assert_eq!(first_pressed_numkey(&[false; 10]), None);
}

#[test]
fn numkey_lowest_wins() {
    let mut keys = [false; 10];
    keys[7] = true;
    keys[3] = true;
    assert_eq!(first_pressed_numkey(&keys), Some(3));
    let mut keys = [false; 10];
    keys[0] = true;
    assert_eq!(first_pressed_numkey(&keys), Some(0));
    let mut keys = [false; 10];
    keys[9] = true;
    assert_eq!(first_pressed_numkey(&keys), Some(9));
}

#[test]
fn can_merge_checks_ids_and_offsets() {
    let mut m = Merges::new();
    assert!(m.can_merge(0, &[]));
    assert!(!m.can_merge(0, &[(MetaroomID(1), (0, 0))]));
    // the room's own metaroom (id 0 here) may be named
    assert!(m.can_merge(0, &[(MetaroomID(0), (0, 0))]));
    assert!(!m.can_merge(0, &[(MetaroomID(0), (i32::MIN, 0))]));
    let a = m.merge_new_room(3, &[]);
    assert!(m.has_metaroom(a));
    assert!(!m.has_metaroom(MetaroomID(1)));
    assert!(m.can_merge(4, &[(a, (5, -5))]));
    m.metaroom_mut(a).registrations.push((9, (i32::MAX, 0)));
    assert!(!m.can_merge(4, &[(a, (-1, 0))]));
    assert!(m.can_merge(4, &[(a, (1, 0))]));
}
