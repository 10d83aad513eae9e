//! First-come-first-served registry of dot-suffixed name claims
//! (for example `jack.btc`) carried in inscription bodies: a verified name
//! grammar and a deterministic registration pipeline over an abstract
//! storage capability.

pub mod btc_name;
pub mod collections;
pub mod laws;
pub mod pipeline;
pub mod registry;

pub use crate::btc_name::{BtcDomain, ParseError, SuffixSet};
pub use crate::collections::CollectionKind;
pub use crate::pipeline::{
    do_index_btc_domain, index_btc_domain, index_with_suffixes, Action, InscriptionEvent,
};
pub use crate::registry::{InscriptionId, MemRegistry, Registry, RegistryError};
