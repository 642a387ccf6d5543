//! The feed registry's rows: which multicast feeds exist and which ports their publishers send on.

use crate::model::ArbitrationMode;
use vstd::prelude::*;

verus! {

/// The protocol of a feed.
#[derive(Debug, Clone, Copy, PartialEq, Eq, Structural)]
pub enum FeedKind {
    TopOfBook,
    Midpoint,
    MarketByOrder,
    MarketByPrice,
}

/// The ports that one publisher sends on.
#[derive(Debug, Clone, Copy, PartialEq, Eq, Structural)]
pub enum FeedPorts {
    TwoPort { mktdata: u16, refdata: u16 },
    ThreePort { mktdata: u16, refdata: u16, snapshot: u16 },
}

/// One publisher of a feed. `channel` is the channel id its ports were derived from; a publisher that
/// binds a base flat has none.
#[derive(Debug, Clone, PartialEq, Eq)]
pub struct FeedPublisher {
    pub ports: FeedPorts,
    pub channel: Option<u8>,
    pub label: Option<String>,
}

impl FeedPublisher {
    /// The market data port.
    pub fn base_port(&self) -> (r: u16)
        ensures
            r == (match self.ports {
                FeedPorts::TwoPort { mktdata, .. } => mktdata,
                FeedPorts::ThreePort { mktdata, .. } => mktdata,
            }),
    {
        match self.ports {
            FeedPorts::TwoPort { mktdata, .. } => mktdata,
            FeedPorts::ThreePort { mktdata, .. } => mktdata,
        }
    }
}

/// One row of the registry. `group` is the multicast group's address.
#[derive(Debug, Clone, PartialEq, Eq)]
pub struct Feed {
    pub venue: String,
    pub category: String,
    pub code: String,
    pub kind: FeedKind,
    pub group: u32,
    pub publishers: Vec<FeedPublisher>,
    pub emit_trades: bool,
    pub arbitration: ArbitrationMode,
    pub mirror_offset: Option<u16>,
}

/// The document that a process loaded at startup.
#[derive(Debug, Clone, PartialEq, Eq)]
pub struct Registry {
    pub rows: Vec<Feed>,
}

} // verus!
