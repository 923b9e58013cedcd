use civilis::crawl::admit_link;
use civilis::crawl::rate;
use civilis::crawl::should_visit;
use civilis::crawl::Count;
use civilis::history::History;
use civilis::shard::shard_of;
use civilis::text::u64_to_dec;
use civilis::Args;

#[test]
fn visit_stops_at_depth_bound() {
    assert!(!should_visit(0, 0, false));
    assert!(!should_visit(3, 3, false));
    assert!(should_visit(0, 3, false));
    assert!(should_visit(2, 3, false));
}

#[test]
fn visit_stops_once_cancelled() {
    assert!(!should_visit(0, 3, true));
    assert!(!should_visit(2, 3, true));
}

#[test]
fn count_increments_and_decrements() {
    let mut count = Count::new(1);
    count.increment();
    count.decrement();
    count.decrement();
    // back to zero after as many decrements as the start plus increments
    let mut again = Count::new(0);
    again.increment();
    again.decrement();
    assert!(again.try_acquire(1));
}

#[test]
fn count_sheds_at_capacity() {
    let mut count = Count::new(0);
    assert!(count.try_acquire(2));
    assert!(count.try_acquire(2));
    // at the cap the candidate is shed
    assert!(!count.try_acquire(2));
    count.decrement();
    assert!(count.try_acquire(2));
}

#[test]
fn rate_is_guarded_against_zero_elapsed() {
    assert_eq!(0, rate(10, 0));
    assert_eq!(5, rate(10, 2));
    assert_eq!(0, rate(0, 7));
}

#[test]
fn decimal_rendering_is_exact() {
    assert_eq!("0", u64_to_dec(0));
    assert_eq!("10", u64_to_dec(10));
    assert_eq!("12345", u64_to_dec(12345));
}

#[test]
fn shard_assignment_is_deterministic_and_in_range() {
    for count in [1usize, 3, 16] {
        let a = shard_of("github.com", count);
        let b = shard_of("github.com", count);
        assert_eq!(a, b);
        assert!(a < count);
    }
    // a single shard takes everything
    assert_eq!(0, shard_of("google.com", 1));
}

#[test]
fn admit_link_records_new_domain_once() {
    let mut history = History::new(4);
    let mut count = Count::new(0);

    let first = admit_link("https://www.google.com", &mut history, &mut count, 10);
    assert_eq!(Some("https://www.google.com".to_string()), first);
    assert!(history.contains("google.com".to_string()));
    assert_eq!(1, history.len());

    // a second sighting of the same domain is not admitted again
    let second = admit_link("https://mail.google.com", &mut history, &mut count, 10);
    assert_eq!(None, second);
    assert_eq!(1, history.len());

    // a relative link is never admitted
    assert_eq!(None, admit_link("/about", &mut history, &mut count, 10));
}

#[test]
fn admit_link_sheds_at_capacity() {
    let mut history = History::new(2);
    let mut count = Count::new(1);

    // the single slot is taken: the link is shed and its domain stays unrecorded
    let shed = admit_link("https://github.com", &mut history, &mut count, 1);
    assert_eq!(None, shed);
    assert_eq!(0, history.len());

    // once a slot frees up the same link is admitted
    count.decrement();
    let admitted = admit_link("https://github.com", &mut history, &mut count, 1);
    assert_eq!(Some("https://github.com".to_string()), admitted);
    assert_eq!(1, history.len());
}

#[test]
fn args_carries_configuration() {
    let args = Args::new(10, false, "https://github.com".to_string(), 2, 16);
    assert_eq!(10, args.timeout);
    assert!(!args.debug);
    assert_eq!("https://github.com", args.url);
    assert_eq!(2, args.depth);
    assert_eq!(16, args.shards);
}
