//! Runtime pieces of a realtime app server: resumable streams, shard routing
//! and placement, message framing, and the small text codecs around them.

pub mod clock;
pub mod digest;
pub mod messages;
pub mod outbox;
pub mod percent;
pub mod ssr_cache;
pub mod sse;
pub mod shard_cluster;
pub mod shard_ids;
pub mod shard_metrics;
pub mod shard_route;
pub mod shard_tickets;
pub mod shard_wasm;
pub mod shard_ws;
pub mod stream_hub;
pub mod sync_relay;
pub mod tenant_hosts;
pub mod text;
pub mod tinybird_logger;
pub mod tls;
