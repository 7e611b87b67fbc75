//! Index algebra for atomistic descriptors: named index tables, the
//! reduction of sample indexes along chosen variables, densification of a
//! descriptor and the bookkeeping behind block-respecting kernels.

pub mod densify;
pub mod descriptor;
pub mod error;
pub mod indexes;
pub mod kernel;
pub mod order;
pub mod reduce;
mod row_set;

pub use densify::unrequested_keys;
pub use descriptor::Descriptor;
pub use error::Error;
pub use indexes::{is_valid_ident, IndexValue, Indexes, IndexesBuilder, Iter};
pub use kernel::{gradient_owner_rows, BlockEntry, DotOptions, DotTerm, KernelPlan};
pub use reduce::{remove_from_samples, DensifiedIndex, RemovedSamples};
