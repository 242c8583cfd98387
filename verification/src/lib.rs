pub mod order;
pub mod node;
pub mod height;
pub mod shape;
pub mod tree;
pub mod laws;
pub mod conway;
pub mod min_queue;
pub mod combinations;
pub mod pstack;
pub mod prefix;
pub mod comm;
pub mod lru_cache;
