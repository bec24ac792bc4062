pub mod linked_list;
pub mod merging;

pub use linked_list::LinkedList;
