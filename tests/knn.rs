use quackin::knn::{IdIndex, KnnUserRecommender};
use quackin::recommender::PredictError;
use quackin::similarity::Metric;

fn records() -> Vec<(String, String, i16)> {
    [
        ("u1", "i1", 500),
        ("u2", "i1", 300),
        ("u1", "i2", 400),
        ("u2", "i2", 400),
        ("u3", "i1", 200),
        ("u3", "i3", 500),
        ("u2", "i3", 100),
    ]
    .iter()
    .map(|(u, i, r)| (u.to_string(), i.to_string(), *r))
    .collect()
}

#[test]
fn text_ids_predict() {
    let r = KnnUserRecommender::from_records(&records(), Metric::Cosine, 5);
    assert_eq!(Ok(193), r.predict("u1", "i3"));
    assert_eq!(Ok(400), r.predict("u3", "i2"));
    assert_eq!(Ok(410), r.predict("u2", "i1"));
    let one = KnnUserRecommender::from_records(&records(), Metric::Cosine, 1);
    assert_eq!(Ok(100), one.predict("u1", "i3"));
}

#[test]
fn text_ids_unknown_keys() {
    let r = KnnUserRecommender::from_records(&records(), Metric::Cosine, 5);
    assert_eq!(Err(PredictError::UserNotFound), r.predict("nobody", "i1"));
    assert_eq!(Err(PredictError::ItemNotFound), r.predict("u1", "nothing"));
}

#[test]
fn text_ids_recommend() {
    let r = KnnUserRecommender::from_records(&records(), Metric::Cosine, 5);
    assert_eq!(vec![("i3".to_string(), 193i128)], r.recommend("u1"));
    assert_eq!(vec![("i2".to_string(), 400i128)], r.recommend("u3"));
    assert!(r.recommend("nobody").is_empty());
}

#[test]
fn id_index_numbers_by_first_appearance() {
    let mut index = IdIndex::new();
    assert_eq!(0, index.intern("m"));
    assert_eq!(1, index.intern("b"));
    assert_eq!(2, index.intern("z"));
    assert_eq!(3, index.intern("ba"));
    assert_eq!(4, index.intern(""));
    assert_eq!(1, index.intern("b"));
    assert_eq!(5, index.len());
    assert_eq!(Some(3), index.position("ba"));
    assert_eq!(Some(4), index.position(""));
    assert_eq!(Some(2), index.position("z"));
    assert_eq!(None, index.position("bb"));
    assert_eq!(None, index.position("a"));
    assert_eq!("ba", index.name(3).as_str());
}

#[test]
fn text_ids_equal_predictions_follow_first_appearance() {
    let records: Vec<(String, String, i16)> = [
        ("u1", "i1", 500),
        ("u2", "i1", 500),
        ("u2", "z", 300),
        ("u2", "a", 300),
    ]
    .iter()
    .map(|(u, i, r)| (u.to_string(), i.to_string(), *r))
    .collect();
    let r = KnnUserRecommender::from_records(&records, Metric::Cosine, 5);
    assert_eq!(
        vec![("a".to_string(), 300i128), ("z".to_string(), 300i128)],
        r.recommend("u1")
    );
}
