pub mod codec;
pub mod config;
pub mod error;
pub mod metrics;
pub mod model;
pub mod paging;
pub mod server;
pub mod sled_books;
pub mod store;
pub mod store_mem;
pub mod store_sled;
pub mod text;
pub mod tls;
pub mod ttl;

pub use config::{
    EndpointRateLimit, RateLimitConfig, RelayConfig, RelayLimits, RelayMode, StorageConfig,
    StorageKind, TlsConfig,
};
pub use error::{EnigmaRelayError, Result};
pub use model::{
    AckEntry, AckRequest, AckResponse, DeliveryItem, MessageMeta, PullRequest, PullResponse,
    PushRequest, PushResponse,
};
pub use store::{AckItem, AckOutcome, InboundMessage, PullBatch, PushResult, QueueMessage};
pub use store_mem::MemStore;
