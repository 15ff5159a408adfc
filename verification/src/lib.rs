//! Directory-scoped command alias resolver.
//!
//! The library discovers `.ok` configuration files along the ancestry of a
//! working directory, merges the command definitions they contain, resolves a
//! user-typed prefix against the merged set by shortest-matching-name, and
//! renders the winning command template by filling positional `{n}` holes and
//! applying `{}` directory substitution to prefix/suffix decorations.

pub mod chain;
pub mod holes;
pub mod profile;
pub mod render;
pub mod resolve;
pub mod text;

pub use chain::build_chain;
pub use chain::find_profile;
pub use chain::list_commands;
pub use chain::DirTree;
pub use chain::MalformedPolicy;
pub use chain::ProfileChain;
pub use holes::count_holes;
pub use holes::fill_in_arguments;
pub use holes::hole;
pub use profile::parse_profile;
pub use profile::split_on_colon;
pub use profile::Profile;
pub use render::fill_in_profile_directory;
pub use render::query;
pub use resolve::resolve;
pub use resolve::shared_prefix;
pub use resolve::ChainCommand;
pub use text::replace_all;
