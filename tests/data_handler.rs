use quackin::data::{BasicDataHandler, DataHandler};

fn sample() -> BasicDataHandler {
    BasicDataHandler::from_ratings(&vec![(1, 10, 5), (2, 10, 3), (1, 11, 4), (2, 11, 4)])
}

#[test]
fn from_ratings_indexes_both_ways() {
    let d = sample();
    assert_eq!(vec![1, 2], d.get_user_ids());
    assert_eq!(vec![10, 11], d.get_item_ids());
    assert_eq!(2, d.get_num_users());
    assert_eq!(2, d.get_num_items());
    assert_eq!(&vec![(10u32, 5i16), (11u32, 4i16)], d.get_user_ratings(1).entries());
    assert_eq!(&vec![(1u32, 4i16), (2u32, 4i16)], d.get_item_ratings(11).entries());
    assert_eq!(Some(3), d.get_rating(2, 10));
}

#[test]
fn later_rows_replace_earlier_ones() {
    let d = BasicDataHandler::from_ratings(&vec![(1, 10, 5), (1, 10, 2)]);
    assert_eq!(Some(2), d.get_rating(1, 10));
    assert_eq!(1, d.get_user_ratings(1).len());
}

#[test]
fn add_user_and_item_report_novelty() {
    let mut d = BasicDataHandler::new();
    assert!(d.add_user(7));
    assert!(!d.add_user(7));
    assert!(d.add_item(3));
    assert!(!d.add_item(3));
    assert_eq!(0, d.get_user_ratings(7).len());
    assert_eq!(0, d.get_user_ratings(99).len());
    assert_eq!(0, d.get_item_ratings(99).len());
}

#[test]
fn add_rating_for_unknown_keys_fails_without_change() {
    let mut d = sample();
    assert!(!d.add_rating(9, 10, 1));
    assert!(!d.add_rating(1, 99, 1));
    assert_eq!(vec![1, 2], d.get_user_ids());
    assert_eq!(vec![10, 11], d.get_item_ids());
    assert_eq!(None, d.get_rating(9, 10));
    assert_eq!(2, d.get_item_ratings(10).len());
}

#[test]
fn rating_after_add_is_visible() {
    let mut d = sample();
    assert!(d.add_user(3));
    assert!(d.add_rating(3, 11, -2));
    assert_eq!(Some(-2), d.get_rating(3, 11));
    assert_eq!(Some(-2), d.get_user_ratings(3).get(11));
    assert_eq!(Some(-2), d.get_item_ratings(11).get(3));
}

#[test]
fn rating_after_remove_is_unknown() {
    let mut d = sample();
    d.remove_rating(1, 10);
    assert_eq!(None, d.get_rating(1, 10));
    assert_eq!(None, d.get_user_ratings(1).get(10));
    assert_eq!(None, d.get_item_ratings(10).get(1));
    assert_eq!(vec![1, 2], d.get_user_ids());
    assert_eq!(vec![10, 11], d.get_item_ids());
    d.remove_rating(1, 10);
    d.remove_rating(5, 5);
    assert_eq!(Some(3), d.get_rating(2, 10));
}

fn rated_pairs<D: DataHandler>(d: &D) -> usize {
    let mut n = 0;
    for u in d.get_user_ids() {
        n += d.get_user_ratings(u).len();
    }
    n
}

#[test]
fn data_handler_interface() {
    let mut d = sample();
    assert_eq!(4, rated_pairs(&d));
    assert!(DataHandler::add_item(&mut d, 12));
    assert!(DataHandler::add_rating(&mut d, 2, 12, 1));
    assert_eq!(5, rated_pairs(&d));
    assert_eq!(Some(1), DataHandler::get_rating(&d, 2, 12));
    assert_eq!(Some(1), d.get_item_ratings(12).get(2));
    DataHandler::remove_rating(&mut d, 2, 12);
    assert_eq!(4, rated_pairs(&d));
}
