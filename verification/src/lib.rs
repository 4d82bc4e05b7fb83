//! A verified dependency bundler: it discovers the full transitive set of
//! shared libraries a native executable requires, resolves each bare
//! library name to a file path through a prioritized search order, strips
//! the entries assumed present on every target system, and plans the copy
//! of the rest into a relocatable bundle.

pub mod bundle;
pub mod closure;
pub mod elf;
pub mod ignore;
pub mod names;
pub mod query;
pub mod search;
