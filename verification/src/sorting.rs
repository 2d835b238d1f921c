pub mod index_min_pq;
pub mod quick;
