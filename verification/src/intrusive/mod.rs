//! Linked lists whose links live in an arena, and a reference counter.
pub mod double_list;
pub mod slist;
pub mod rc;
