//! Quackin: neighbourhood-based collaborative filtering over a sparse
//! user/item rating relation.
//!
//! - `sparse`: sparse rating vectors and their algebra.
//! - `similarity`: cosine, extended Jaccard and Pearson similarities.
//! - `data`: the rating store, indexed by user and by item.
//! - `recommender`: threshold and k-nearest-neighbour recommenders, user
//!   based and item based, with a similarity cache kept up to date.
//! - `records`: reading options and the rules for one row of a dataset.
//! - `knn`: a user-based k-nearest-neighbour recommender over text IDs.
//!
//! Ratings are 16-bit integers in units chosen by the caller; ratings read
//! from text are in hundredths. Similarities are integers in millionths, and
//! a predicted rating is the weighted average of the neighbours' ratings,
//! rounded toward zero, in the units of the ratings. Every computation is
//! exact and proved free of overflow.
pub mod sparse;
pub mod similarity;
pub mod data;
pub mod recommender;
pub mod records;
pub mod knn;
