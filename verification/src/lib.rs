//! Reconciliation and lifecycle engine for compose stacks: change detection by
//! content fingerprint, reference-counted image bookkeeping, and the rewriting
//! of volume references inside compose documents.

pub mod checkout;
pub mod document;
pub mod fingerprint;
pub mod images;
pub mod ledger;
pub mod observations;
pub mod reconcile;
pub mod stacks;
pub mod teardown;
pub mod text;
pub mod volumes;
