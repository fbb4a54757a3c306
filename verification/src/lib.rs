//! An ordered, positional container of trees.
//!
//! A [`Tree`] is one payload-bearing root together with the forest of its
//! children; a [`Forest`] is an ordered sequence of sibling trees.  The
//! forest keeps its children in an arena of nodes threaded as a circular
//! sibling chain referenced by its tail, so that pushing at either end,
//! popping the head and splicing a whole forest's chain into another are
//! all a constant number of link writes (a merge also hands the consumed
//! forest's arena over wholesale).  An [`OntoIter`] cursor walks the chain once, forward, and
//! may insert new siblings or detach the current subtree at each position.

pub mod forest;
pub mod laws;
pub mod walk;

pub use forest::Forest;
pub use forest::IntoIter;
pub use forest::Iter;
pub use forest::Node;
pub use forest::OntoIter;
pub use forest::Subnode;
pub use forest::Tree;
pub use walk::Event;
pub use walk::Visit;
pub use walk::Walk;
