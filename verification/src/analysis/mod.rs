pub mod all_paths;
pub mod dominance;
pub mod dominator_tree;
pub mod duplicates;
pub mod exact;
pub mod hidden_classes;
pub mod retained_size;
