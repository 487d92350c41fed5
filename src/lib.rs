//! An ordered tree of identified nodes, addressed by identifier or by route
//! (the child indices that lead from a node down to another), with searches,
//! measures and in-place edits, each stated and proved over a model of the tree.

mod laws;
mod lemmas;
mod node;
mod order;
mod route;
mod seqs;
mod slices;
mod tree;

pub use laws::{
    law_absent_id_not_found, law_count_sums_children, law_depth_at_least_one,
    law_removed_child_not_found, law_route_round_trip, law_tree_route_round_trip,
    law_truncate_deep_keeps_tree, law_truncate_zero_leaves_leaf, sum_counts,
};
pub use node::Node;
pub use order::{cmp_le, is_consistent_order, is_sorted_by};
pub use route::{lex_le, route_view};
pub use seqs::{select, unref, unref_all};
pub use tree::Tree;
