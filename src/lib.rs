//! Deduplication of aligned sequencing reads by their unique molecular
//! identifiers (UMIs).
//!
//! Reads of one reference sequence are grouped by a normalised alignment
//! position and by UMI; within each position the UMIs form a directed graph
//! whose edges run from frequent UMIs to rarer ones that lie within a small
//! Hamming distance, and a greedy traversal turns that graph into clusters,
//! each of which stands for one source molecule.
pub mod bundle;
pub mod cluster;
pub mod emit;
pub mod graph;
pub mod grouping;
pub mod laws;
pub mod position;
pub mod record;
pub mod umi;

pub use bundle::Bundler;
pub use cluster::{determine_umi, Group};
pub use emit::{dedup, label_groups, LabeledGroup};
pub use graph::{build_graph, connect_graph, connects, Node};
pub use grouping::{get_tag, group_reads, Config, ReadCollection, ReadFreq, ReadMap, Stats, UmiMap};
pub use position::{end_pos, find_splice, Position};
pub use record::{check_record, read_a_ge_b, CigarOp, Record, RecordEvent};
pub use umi::{Umi, UmiError};
