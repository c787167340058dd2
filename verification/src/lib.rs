//! Verified solutions to a run of small puzzles, centred on a disk-block
//! compaction engine: a fixed-length block store defragmented by two
//! relocation policies and reduced to a positional checksum.
pub mod antennas;
pub mod calibration;
pub mod claw;
pub mod defrag;
pub mod garden;
pub mod guard;
pub mod lists;
pub mod mulscan;
pub mod print_queue;
pub mod reports;
pub mod robots;
pub mod stones;
pub mod trails;
pub mod word_search;
