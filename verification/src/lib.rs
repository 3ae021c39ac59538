//! A verified core for keeping an owned tree of typed components in lockstep
//! with an external document tree that the surrounding host environment may
//! mutate between calls.
//!
//! The host document is modelled explicitly by [`host::HostDoc`]: an arena of
//! nodes carrying kind, text, attributes, children, parent and handler slots.
//! Every component keeps shadow state for the external facts it relies on, and
//! every mutator changes shadow and host state together, under a contract.
//! `audit` walks the tree and reports the first divergence; its contract says
//! it succeeds exactly when shadow and host state agree.

pub mod attrs;
pub mod dom_br;
pub mod dom_struct;
pub mod dom_text;
pub mod dom_vec;
pub mod editor;
pub mod host;
pub mod text;
pub mod web_support;
