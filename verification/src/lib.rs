pub mod decimal;
pub mod group;
pub mod hash_key;
pub mod hashmap;
pub mod linked_list;
pub mod probe;
pub mod slot_bag;
pub mod vec;

pub use hash_key::HashKey;
pub use hashmap::HashMap;
pub use linked_list::LinkedList;
pub use vec::Vec;
