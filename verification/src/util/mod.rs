pub mod coding;
pub mod crc;
pub mod bloom;
pub mod shared;
pub mod sorted_map;
