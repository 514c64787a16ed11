//! Interprocedural safety-tag propagation analysis over a call graph.
//!
//! Authors declare that a function is or is not safe with respect to a named
//! hazard tag (such as `irq` or `alloc`), or that a function requires all of
//! its transitive callees to be safe for a tag.  The inference engine answers,
//! on demand, a boolean safety verdict for any (callable, tag) pair, handling
//! recursive call graphs with a fail-open cycle policy and caching every
//! verdict so each callable is analyzed at most once per tag.
//!
//! Three annotation kinds are recognized on a callable:
//! - `is_safe(tags)` declares the callable safe for the listed tags;
//! - `not_safe(tags)` declares it unsafe for the listed tags;
//! - `req_safe(tags)` asks that every call reachable from its body be safe
//!   for the listed tags, and produces a diagnostic per violating call site.
//!
//! For dependencies whose bodies are unavailable, a per-unit override list
//! supplies a default verdict plus a set of fully-qualified exception names.

pub mod check;
pub mod database;
pub mod laws;
pub mod prescan;
pub mod program;
pub mod text;

pub use check::fill_cache_for;
pub use check::get_tags;
pub use check::Diagnostic;
pub use check::Pass;
pub use database::LoadError;
pub use prescan::HandlerIsSafe;
pub use prescan::HandlerNotSafe;
pub use prescan::HandlerTaggedSafe;
pub use program::Attribute;
pub use program::CallSite;
pub use program::CallTarget;
pub use program::CallableId;
pub use program::CallableInfo;
pub use program::Expr;
pub use program::ExternalId;
pub use program::MetaArg;
pub use program::Program;
pub use program::scan_body;
pub use database::StaticCache;
pub use database::Tag;
pub use text::trim;
