use bsar::footprint::{first_two_hits, FOOTPRINT_SIZE};

#[test]
fn footprint_sample_count() {
    assert_eq!(FOOTPRINT_SIZE, 2501);
}

#[test]
fn first_two_hits_picks_the_earliest_pair() {
    assert_eq!(first_two_hits(&vec![false, true, false, true, true]), Some((1, 3)));
    assert_eq!(first_two_hits(&vec![true, true]), Some((0, 1)));
}

#[test]
fn first_two_hits_needs_two_crossings() {
    assert_eq!(first_two_hits(&vec![]), None);
    assert_eq!(first_two_hits(&vec![false, false, false]), None);
    assert_eq!(first_two_hits(&vec![false, true, false]), None);
    let mut hits = vec![false; FOOTPRINT_SIZE - 1];
    hits[1249] = true;
    assert_eq!(first_two_hits(&hits), None);
    hits[2499] = true;
    assert_eq!(first_two_hits(&hits), Some((1249, 2499)));
}
