//! What the searches hand out.

pub mod keys;
pub mod postfix_iter;
pub mod prefix_iter;
pub mod search_iter;

pub use keys::{Keys, KeysExt};
pub use postfix_iter::PostfixIter;
pub use prefix_iter::PrefixIter;
pub use search_iter::SearchIter;
