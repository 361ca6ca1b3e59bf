pub mod hashing;
pub mod forest;
pub mod accumulator;
pub mod undo;
pub mod chainview;
pub mod prover;
pub mod blockstore;
pub mod checkpoint;
pub mod block;
pub mod codec;
