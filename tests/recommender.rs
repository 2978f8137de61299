use quackin::data::BasicDataHandler;
use quackin::recommender::{
    BasicItemRecommender, BasicUserRecommender, KNNItemRecommender, KNNUserRecommender,
    PredictError, Recommender,
};
use quackin::similarity::{Metric, SIM_ONE};

fn store() -> BasicDataHandler {
    BasicDataHandler::from_ratings(&vec![
        (1, 10, 500),
        (1, 11, 300),
        (2, 10, 400),
        (2, 11, 350),
        (2, 12, 400),
        (3, 10, 100),
        (3, 12, 450),
    ])
}

#[test]
fn user_similarities_are_cached() {
    let r = BasicUserRecommender::new(store(), 0, Metric::Cosine);
    assert_eq!(Some(786328), r.get_similarity(1, 2));
    assert_eq!(Some(786328), r.get_similarity(2, 1));
    assert_eq!(Some(186016), r.get_similarity(1, 3));
    assert_eq!(Some(SIM_ONE), r.get_similarity(3, 3));
    assert_eq!(None, r.get_similarity(1, 9));
}

#[test]
fn item_similarities_are_cached() {
    let r = BasicItemRecommender::new(store(), 0, Metric::Cosine);
    assert_eq!(Some(525382), r.get_similarity(10, 12));
    assert_eq!(Some(525382), r.get_similarity(12, 10));
}

#[test]
fn other_metrics_are_cached() {
    let j = BasicUserRecommender::new(store(), 0, Metric::Jaccard);
    assert_eq!(Some(638743), j.get_similarity(1, 2));
    let p = BasicUserRecommender::new(store(), 0, Metric::Pearson);
    assert_eq!(Some(-114710), p.get_similarity(1, 2));
    assert_eq!(Some(-812800), p.get_similarity(1, 3));
}

#[test]
fn threshold_user_prediction() {
    let r = BasicUserRecommender::new(store(), 0, Metric::Cosine);
    assert_eq!(Ok(409), r.predict(1, 12));
}

#[test]
fn nearest_user_prediction() {
    let one = KNNUserRecommender::new(store(), 1, Metric::Cosine);
    assert_eq!(Ok(400), one.predict(1, 12));
    let five = KNNUserRecommender::new(store(), 5, Metric::Cosine);
    assert_eq!(Ok(409), five.predict(1, 12));
}

#[test]
fn nearest_with_large_k_matches_low_threshold() {
    let knn = KNNUserRecommender::new(store(), 5, Metric::Cosine);
    let basic = BasicUserRecommender::new(store(), -2 * SIM_ONE, Metric::Cosine);
    for u in [1, 2, 3] {
        for i in [10, 11, 12] {
            assert_eq!(knn.predict(u, i), basic.predict(u, i));
        }
    }
}

#[test]
fn item_based_predictions() {
    let basic = BasicItemRecommender::new(store(), 0, Metric::Cosine);
    assert_eq!(Ok(402), basic.predict(1, 12));
    let knn = KNNItemRecommender::new(store(), 1, Metric::Cosine);
    assert_eq!(Ok(500), knn.predict(1, 12));
}

#[test]
fn prediction_errors() {
    let r = BasicUserRecommender::new(store(), 999_999, Metric::Cosine);
    assert_eq!(Err(PredictError::UserNotFound), r.predict(9, 10));
    assert_eq!(Err(PredictError::ItemNotFound), r.predict(1, 99));
    assert_eq!(Err(PredictError::NoNeighbors), r.predict(1, 12));
    let p = BasicUserRecommender::new(store(), -2 * SIM_ONE, Metric::Pearson);
    assert_eq!(Err(PredictError::NoNeighbors), p.predict(1, 12));
}

#[test]
fn recommendations_skip_rated_items() {
    let r = BasicUserRecommender::new(store(), 0, Metric::Cosine);
    assert_eq!(vec![(11u32, 339i128)], r.recommend(3));
    assert_eq!(vec![(12u32, 409i128)], r.recommend(1));
    assert_eq!(Vec::<(u32, i128)>::new(), r.recommend(2));
    assert_eq!(Vec::<(u32, i128)>::new(), r.recommend(42));
    let item = BasicItemRecommender::new(store(), 0, Metric::Cosine);
    assert_eq!(vec![(11u32, 219i128)], item.recommend(3));
    let knn = KNNItemRecommender::new(store(), 1, Metric::Cosine);
    assert_eq!(vec![(11u32, 100i128)], knn.recommend(3));
}

#[test]
fn recommendations_are_ranked() {
    let mut d = store();
    d.add_user(4);
    d.add_rating(4, 10, 300);
    let r = BasicUserRecommender::new(d, -2 * SIM_ONE, Metric::Cosine);
    assert_eq!(vec![(12u32, 413i128), (11u32, 320i128)], r.recommend(4));
}

#[test]
fn recommendations_need_positive_weight() {
    let strict = BasicUserRecommender::new(store(), 999_999, Metric::Cosine);
    assert!(strict.recommend(3).is_empty());
    let pearson = BasicUserRecommender::new(store(), -2 * SIM_ONE, Metric::Pearson);
    for (item, _) in pearson.recommend(1) {
        assert_ne!(12, item);
    }
}

#[test]
fn similarity_is_reproducible_across_builds() {
    let rows = vec![(1, 1, 5), (2, 1, 3), (1, 2, 4), (2, 2, 4)];
    let first = KNNUserRecommender::new(BasicDataHandler::from_ratings(&rows), 2, Metric::Cosine);
    let second = KNNUserRecommender::new(BasicDataHandler::from_ratings(&rows), 2, Metric::Cosine);
    assert_eq!(Some(968277), first.get_similarity(1, 2));
    assert_eq!(first.get_similarity(1, 2), second.get_similarity(1, 2));
    assert_eq!(first.predict(1, 2), second.predict(1, 2));
}

#[test]
fn add_rating_refreshes_similarities() {
    let mut r = BasicUserRecommender::new(store(), 0, Metric::Cosine);
    assert!(r.add_rating(3, 11, 200));
    assert_eq!(Some(375424), r.get_similarity(1, 3));
    assert_eq!(Some(375424), r.get_similarity(3, 1));
    assert_eq!(Some(867582), r.get_similarity(2, 3));
    assert_eq!(Ok(416), r.predict(1, 12));
    assert!(!r.add_rating(8, 11, 200));
    let mut fresh = store();
    fresh.add_rating(3, 11, 200);
    let rebuilt = BasicUserRecommender::new(fresh, 0, Metric::Cosine);
    for a in [1, 2, 3] {
        for b in [1, 2, 3] {
            assert_eq!(rebuilt.get_similarity(a, b), r.get_similarity(a, b));
        }
    }
}

#[test]
fn add_user_and_item_keep_similarities_complete() {
    let mut r = KNNItemRecommender::new(store(), 2, Metric::Pearson);
    assert!(r.add_user(4));
    assert!(!r.add_user(4));
    assert!(r.add_item(13));
    assert!(r.add_rating(4, 13, 250));
    assert!(r.add_rating(4, 10, 150));
    let mut fresh = store();
    fresh.add_user(4);
    fresh.add_item(13);
    fresh.add_rating(4, 13, 250);
    fresh.add_rating(4, 10, 150);
    let rebuilt = KNNItemRecommender::new(fresh, 2, Metric::Pearson);
    for a in [10, 11, 12, 13] {
        for b in [10, 11, 12, 13] {
            assert_eq!(rebuilt.get_similarity(a, b), r.get_similarity(a, b));
        }
    }
    assert_eq!(rebuilt.recommend(1), r.recommend(1));
    assert_eq!(4, r.data_handler().get_num_users());
}

#[test]
fn new_user_row_is_inserted_in_place() {
    let mut r = BasicUserRecommender::new(store(), 0, Metric::Jaccard);
    assert!(r.add_user(0));
    assert!(r.add_user(5));
    assert!(r.add_rating(0, 10, 450));
    assert!(r.add_rating(5, 12, 150));
    assert!(r.add_item(20));
    let mut fresh = store();
    fresh.add_user(0);
    fresh.add_user(5);
    fresh.add_rating(0, 10, 450);
    fresh.add_rating(5, 12, 150);
    fresh.add_item(20);
    let rebuilt = BasicUserRecommender::new(fresh, 0, Metric::Jaccard);
    for a in [0, 1, 2, 3, 5] {
        for b in [0, 1, 2, 3, 5] {
            assert_eq!(rebuilt.get_similarity(a, b), r.get_similarity(a, b));
        }
    }
    assert_eq!(Some(0), r.get_similarity(0, 5));
    for u in [0, 1, 2, 3, 5] {
        assert_eq!(rebuilt.recommend(u), r.recommend(u));
    }
}
