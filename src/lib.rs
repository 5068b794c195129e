//! A category index over immutable product groups.
//!
//! Products are packed into groups of one classification, every group is
//! stored once, and an edge carrying the group's product count is placed
//! under each category path the group belongs to. Queries read counts from
//! the edges and fetch group bodies only for the page that was asked for.
//!
//! - `tag`: counts and cart quantities packed into edge tag bytes.
//! - `product`: products, groups and the rules a stored group obeys.
//! - `paths`: the index paths of a classification.
//! - `index`: the edge index.
//! - `catalog`: the group store and index together, and group creation.
//! - `batch`: cutting a batch of products into groups, and ingesting it.
//! - `replace`: replacing the groups of a classification.
//! - `query`: pages of groups, counts and totals.
//! - `search`: lookups for a search front end.
pub mod tag;
pub mod product;
pub mod paths;
pub mod index;
pub mod catalog;
pub mod batch;
pub mod replace;
pub mod query;
pub mod search;
pub mod host;
