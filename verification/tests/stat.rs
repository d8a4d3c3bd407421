use mysticeti_core::stat::histogram;

#[test]
fn empty_histogram_has_no_average_and_no_percentiles() {
    let (mut h, _sender) = histogram();
    assert_eq!(h.avg(), None);
    assert_eq!(h.pcts(&vec![500, 900]), None);
    assert_eq!(h.pct(500), None);
    assert_eq!(h.len(), 0);
}

#[test]
fn average_of_observed_points() {
    let (mut h, _sender) = histogram();
    for p in [10u64, 20, 60] {
        h.observe(p);
    }
    assert_eq!(h.avg(), Some(30));
    h.observe(1);
    assert_eq!(h.avg(), Some(22));
}

#[test]
fn percentiles_read_the_sorted_points() {
    let (mut h, _sender) = histogram();
    for p in [50u64, 10, 40, 30, 20, 100, 90, 80, 70, 60] {
        h.observe(p);
    }
    assert_eq!(h.pcts(&vec![0, 500, 900, 999]), Some(vec![10, 60, 100, 100]));
    assert_eq!(h.points(), &vec![10, 20, 30, 40, 50, 60, 70, 80, 90, 100]);
    assert_eq!(h.pct(250), Some(30));
    assert_eq!(h.sorted_percentiles(&vec![]), Some(vec![]));
}

#[test]
fn points_sent_from_elsewhere_are_picked_up_but_not_summed() {
    let (mut h, sender) = histogram();
    h.observe(8);
    sender.observe(2);
    sender.observe(4);
    assert_eq!(h.len(), 1);
    h.receive_all();
    assert_eq!(h.points(), &vec![8, 2, 4]);
    assert_eq!(h.avg(), Some(2));
    assert_eq!(h.pct(0), Some(2));
    assert_eq!(h.points(), &vec![2, 4, 8]);
}

#[test]
fn large_points_do_not_overflow_the_sum() {
    let (mut h, _sender) = histogram();
    h.observe(u64::MAX);
    h.observe(u64::MAX);
    assert_eq!(h.avg(), Some(u64::MAX));
}

#[test]
fn a_cloned_sender_feeds_the_same_histogram() {
    let (mut h, sender) = histogram();
    let other = sender.clone();
    sender.observe(5);
    other.observe(6);
    drop(sender);
    other.observe(7);
    h.receive_all();
    assert_eq!(h.points(), &vec![5, 6, 7]);
    assert_eq!(h.avg(), Some(0));
}

#[test]
fn a_received_point_is_kept_but_not_summed() {
    let (mut h, _sender) = histogram();
    h.observe(10);
    h.receive(30);
    assert_eq!(h.points(), &vec![10, 30]);
    assert_eq!(h.avg(), Some(5));
    h.receive(0);
    assert_eq!(h.points(), &vec![10, 30, 0]);
    assert_eq!(h.pct(999), Some(30));
}
