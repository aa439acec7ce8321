use kd_tree::data::Descriptor;
use kd_tree::node::PagePointer;
use kd_tree::record::TreeRecord;
use kd_tree::top_hits::TopHits;

fn record(index: u64) -> TreeRecord {
    TreeRecord { index, descriptor: Descriptor::from_vec(vec![index as u32], 1), length: 1 }
}

fn offer(hits: &mut TopHits, distance: f32, index: u64) {
    hits.try_add(distance.to_bits(), &record(index), &PagePointer::Leaf(index as usize)).unwrap();
}

fn indices(hits: &TopHits) -> Vec<Option<u64>> {
    hits.records.iter().map(|r| r.as_ref().map(|r| r.index)).collect()
}

fn distances(hits: &TopHits) -> Vec<f32> {
    hits.distances.iter().map(|d| f32::from_bits(*d)).collect()
}

#[test]
fn new_buffer_holds_infinity_and_no_records() {
    let hits = TopHits::new(3);
    assert_eq!(distances(&hits), vec![f32::INFINITY; 3]);
    assert_eq!(indices(&hits), vec![None, None, None]);
    assert_eq!(hits.pointers, vec![None, None, None]);
    assert_eq!(hits.get_highest_dist(), f32::INFINITY.to_bits());
    assert_eq!(hits.max_length, 3);
}

#[test]
fn buffer_keeps_the_nearest_in_ascending_order() {
    let mut hits = TopHits::new(3);
    offer(&mut hits, 5.0, 1);
    assert_eq!(indices(&hits), vec![Some(1), None, None]);
    assert_eq!(distances(&hits), vec![5.0, f32::INFINITY, f32::INFINITY]);
    offer(&mut hits, 2.0, 2);
    offer(&mut hits, 9.0, 3);
    assert_eq!(indices(&hits), vec![Some(2), Some(1), Some(3)]);
    assert_eq!(f32::from_bits(hits.get_highest_dist()), 9.0);
    offer(&mut hits, 10.0, 4);
    assert_eq!(indices(&hits), vec![Some(2), Some(1), Some(3)]);
    offer(&mut hits, 9.0, 5);
    assert_eq!(indices(&hits), vec![Some(2), Some(1), Some(3)]);
    offer(&mut hits, 3.0, 6);
    assert_eq!(indices(&hits), vec![Some(2), Some(6), Some(1)]);
    assert_eq!(distances(&hits), vec![2.0, 3.0, 5.0]);
    assert_eq!(
        hits.pointers,
        vec![Some(PagePointer::Leaf(2)), Some(PagePointer::Leaf(6)), Some(PagePointer::Leaf(1))]
    );
    offer(&mut hits, 0.0, 7);
    assert_eq!(indices(&hits), vec![Some(7), Some(2), Some(6)]);
    assert_eq!(f32::from_bits(hits.get_highest_dist()), 3.0);
}

#[test]
fn equal_distances_keep_their_order_of_arrival() {
    let mut hits = TopHits::new(4);
    offer(&mut hits, 1.0, 1);
    offer(&mut hits, 1.0, 2);
    offer(&mut hits, 0.5, 3);
    offer(&mut hits, 1.0, 4);
    assert_eq!(indices(&hits), vec![Some(3), Some(1), Some(2), Some(4)]);
    offer(&mut hits, 1.0, 5);
    assert_eq!(indices(&hits), vec![Some(3), Some(1), Some(2), Some(4)]);
    offer(&mut hits, -0.0, 6);
    offer(&mut hits, 0.0, 7);
    assert_eq!(indices(&hits), vec![Some(6), Some(7), Some(3), Some(1)]);
}

#[test]
fn what_is_no_number_or_infinitely_far_is_never_kept() {
    let mut hits = TopHits::new(2);
    offer(&mut hits, f32::NAN, 1);
    offer(&mut hits, f32::INFINITY, 2);
    assert_eq!(indices(&hits), vec![None, None]);
    offer(&mut hits, f32::MAX, 3);
    assert_eq!(indices(&hits), vec![Some(3), None]);
    offer(&mut hits, f32::NAN, 4);
    assert_eq!(indices(&hits), vec![Some(3), None]);
}

#[test]
fn worst_distance_never_grows() {
    let mut hits = TopHits::new(5);
    let mut seed: u32 = 12345;
    let mut worst = f32::INFINITY;
    for i in 0..500 {
        seed = seed.wrapping_mul(1664525).wrapping_add(1013904223);
        let d = (seed >> 8) as f32 / 1000.0;
        offer(&mut hits, d, i);
        let now = f32::from_bits(hits.get_highest_dist());
        assert!(now <= worst);
        worst = now;
        let ds = distances(&hits);
        assert!(ds.windows(2).all(|w| w[0] <= w[1]));
        assert_eq!(hits.distances.len(), 5);
        assert_eq!(hits.records.len(), 5);
    }
}

#[test]
fn buffer_without_slots_takes_nothing() {
    let mut hits = TopHits::new(0);
    offer(&mut hits, 1.0, 1);
    assert!(hits.records.is_empty());
    assert!(hits.distances.is_empty());
}
