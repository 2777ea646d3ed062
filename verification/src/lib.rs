//! A verified job dispatcher model together with the small verified
//! algorithms that accompany it: path search, sorting, a toy
//! LZ77/Huffman compressor, a toy regular-expression matcher and a
//! string comparator.

pub mod astar;
pub mod compare;
pub mod dijkstra;
pub mod gzip;
pub mod perm;
pub mod pool;
pub mod heapsort;
pub mod heapsort_alt;
pub mod quicksort;
pub mod regex;
