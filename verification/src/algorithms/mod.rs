pub mod bfs_par;
pub mod bfs_seq;
pub mod frontier;
pub mod laws;
pub mod wcc_par;
pub mod wcc_seq;
