//! Market-data ingest: wire codecs, book reconstruction, publisher arbitration and price history.

pub mod accumulator;
pub mod accumulator_laws;
pub mod arbiter;
pub mod arbiter_laws;
pub mod arm_race;
pub mod authority;
pub mod authority_laws;
pub mod book;
pub mod book_gate;
pub mod book_laws;
pub mod book_step_laws;
pub mod bucket_laws;
pub mod channel_filter;
pub mod codec;
pub mod codec_common;
pub mod codec_mbo;
pub mod codec_mbp;
pub mod count_laws;
pub mod depth_laws;
pub mod effects;
pub mod feeds;
pub mod filter_laws;
pub mod floor;
pub mod floor_laws;
pub mod gate_laws;
pub mod gate_step_laws;
pub mod history;
pub mod history_laws;
pub mod identity;
pub mod identity_laws;
pub mod model;
pub mod order_race;
pub mod order_race_laws;
pub mod ordered;
pub mod quote_laws;
pub mod race_laws;
pub mod recent;
pub mod run_laws;
pub mod table;
pub mod tape;
pub mod text;
pub mod text_laws;
pub mod trade_laws;
pub mod window;
pub mod wire;
pub mod wire_laws;
