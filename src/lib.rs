//! Index logic of an iterative-closest-point registration engine, verified.
//!
//! A point cloud is an ordered sequence of points; the stages of one ICP round never copy points
//! but select, order and pair them by index. This crate holds those selections and proves what
//! each operation does to them:
//!
//! - `masked`: views into a cloud, by ordered lists of plain indices;
//! - `order`: stable sorting by order keys, and order keys of doubles;
//! - `correspondence`: the pairs found by one correspondence step;
//! - `reject`: outlier rejection as masks over pairs;
//! - `operators`: small operators of the pipeline;
//! - `cloud`: building clouds from flat coordinate lists.
//!
//! Distances and scores enter as order keys (`u64` values ordered as the quantities they stand
//! for), so that every decision that depends only on their order is made and proved here.

pub mod cloud;
pub mod correspondence;
pub mod masked;
pub mod operators;
pub mod order;
pub mod reject;
