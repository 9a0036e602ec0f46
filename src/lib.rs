//! Integer-coordinate building blocks of palette extraction: colors,
//! images and named color lists, point distances, a k-d tree and a linear neighbor search,
//! DBSCAN and G-means clustering, and agglomerative clustering over a
//! dendrogram.
pub mod algorithm;
pub mod blocks;
pub mod cluster;
pub mod cmp;
pub mod color;
pub mod dbscan;
pub mod dendrogram;
pub mod gmeans;
pub mod hierarchical;
pub mod image;
pub mod item;
pub mod kdtree;
pub mod linear;
pub mod linkage;
pub mod neighbor;
pub mod number;
pub mod point;
pub mod topk;
