pub mod distance;
pub mod empty_query;
pub mod unweighted;
pub mod weighted;
