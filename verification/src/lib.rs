//! A dependency-injection container: services are registered against the
//! provider types that implement them, and resolution lazily constructs a
//! minimal object graph with singleton caching and cycle detection.

mod container;
mod default_provider_hook;
mod deps_map;
mod error;
mod key_map;
mod resolution;
mod resolver;
mod type_info;

pub use crate::container::caches_justified;
pub use crate::container::cycle_report_ok;
pub use crate::container::dep_link;
pub use crate::container::evolves_to;
pub use crate::container::instance_matches;
pub use crate::container::lemma_resolvable_preserved;
pub use crate::container::lemma_retry_reproduces_failure;
pub use crate::container::map_le;
pub use crate::container::new_instances_cached;
pub use crate::container::provider_justified;
pub use crate::container::provider_ok;
pub use crate::container::resolvable;
pub use crate::container::service_justified;
pub use crate::container::service_ok;
pub use crate::container::overwrite_bindings;
pub use crate::container::overwrite_factories;
pub use crate::container::seq_le;
pub use crate::container::Container;
pub use crate::container::Instance;
pub use crate::default_provider_hook::lemma_auto_duplicate_hooks;
pub use crate::default_provider_hook::lemma_auto_independent_hooks;
pub use crate::default_provider_hook::lemma_replay_ok_prefix;
pub use crate::default_provider_hook::replay_bindings;
pub use crate::default_provider_hook::replay_factories;
pub use crate::default_provider_hook::replay_ok;
pub use crate::default_provider_hook::DefaultProviderHook;
pub use crate::error::format_type_stack;
pub use crate::error::Error;
pub use crate::resolution::Resolution;
pub use crate::resolver::Resolver;
pub use crate::type_info::TypeInfo;
