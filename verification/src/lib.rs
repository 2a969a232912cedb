//! The verified core of an interactive JSON tree visualiser: JSON pointers,
//! case-insensitive search over a JSON document, search-match highlighting,
//! and the decisions of how each array/object of the tree is laid out.
pub mod default_expand;
pub mod delimiters;
pub mod edit;
pub mod node;
pub mod path_set;
pub mod pointer;
pub mod render;
pub mod search;
pub mod text;
pub mod toggle_buttons_state;
pub mod value;

pub use default_expand::DefaultExpand;
pub use search::SearchTerm;
pub use toggle_buttons_state::ToggleButtonsState;
