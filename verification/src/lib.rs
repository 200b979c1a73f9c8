//! A small table that maps an artist to the titles of the artist's works,
//! with the byte order on titles and a sort that puts every list in that
//! order, each stated by a contract.

pub mod order;
pub mod sorting;
pub mod table;
pub mod refs;
