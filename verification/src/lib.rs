//! Source-indexing core of a language server: recovers the brace-nesting
//! structure of a source file and maintains a registry from identifier
//! names to the locations where they are defined or referenced.
pub mod assoc;
pub mod registry;
pub mod scopes;
pub mod store;

pub use registry::Definitions;
pub use registry::Location;
pub use registry::NasalLspType;
pub use registry::NotFoundError;
pub use registry::SymbolKind;
pub use scopes::compute_scopes;
pub use scopes::ScopeError;
pub use scopes::ScopeSpan;
pub use store::File;
pub use store::Library;
