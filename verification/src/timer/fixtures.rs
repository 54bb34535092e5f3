//! Slice fixtures: cadences and dispatch ids used by consumer tests. Policy
//! belongs to consumers; the kernel only delivers.
use vstd::prelude::*;
use crate::timer::ids::{DispatchId, SliceTrace, ticks_for};
use vstd::string::StringSliceAdditionalSpecFns;

verus! {

pub const BOT_CHAT_CADENCE_TICKS: u64 = 5;
pub const BOT_CHAT_CADENCE_INTERVAL_TICKS: u64 = BOT_CHAT_CADENCE_TICKS;
pub const BOT_CHAT_CADENCE_RAW: u32 = 100;
pub const SERVER_WORLD_HEARTBEAT_TICKS: u64 = 10;
pub const SERVER_PERIODIC_INTERVAL_TICKS: u64 = SERVER_WORLD_HEARTBEAT_TICKS;
pub const SERVER_WORLD_HEARTBEAT_RAW: u32 = 101;
pub const RECONNECT_RETENTION_SECS: u64 = 300;
pub const RECONNECT_RETENTION_MS: u64 = RECONNECT_RETENTION_SECS * 1000;
pub const RECONNECT_RETENTION_RAW: u32 = 102;

/// Dispatch id of the bot chat cadence fixture.
pub fn bot_chat_cadence_dispatch() -> (d: DispatchId)
    ensures
        d.0 == BOT_CHAT_CADENCE_RAW,
{
    DispatchId(BOT_CHAT_CADENCE_RAW)
}

/// Dispatch id of the server world heartbeat fixture.
pub fn server_world_heartbeat_dispatch() -> (d: DispatchId)
    ensures
        d.0 == SERVER_WORLD_HEARTBEAT_RAW,
{
    DispatchId(SERVER_WORLD_HEARTBEAT_RAW)
}

/// Dispatch id of the reconnect retention fixture.
pub fn reconnect_retention_dispatch() -> (d: DispatchId)
    ensures
        d.0 == RECONNECT_RETENTION_RAW,
{
    DispatchId(RECONNECT_RETENTION_RAW)
}

/// Byte-wise text equality.
pub fn same_text(a: &str, b: &str) -> (r: bool)
    ensures
        r == (a.spec_bytes() == b.spec_bytes()),
{
    let x = a.as_bytes();
    let y = b.as_bytes();
    if x.len() != y.len() {
        return false;
    }
    let mut i: usize = 0;
    while i < x.len()
        invariant
            x@ == a.spec_bytes(),
            y@ == b.spec_bytes(),
            x@.len() == y@.len(),
            i <= x@.len(),
            forall|j: int| 0 <= j < i ==> x@[j] == y@[j],
        decreases x@.len() - i,
    {
        if x[i] != y[i] {
            return false;
        }
        i = i + 1;
    }
    proof {
        assert(x@ =~= y@);
    }
    true
}

/// Raw fixture number of a fixture name, if it is one.
pub open spec fn fixture_raw(name: Seq<u8>) -> Option<u32> {
    if name == "test.slot".spec_bytes() {
        Some(1u32)
    } else if name == "test.slot.b".spec_bytes() {
        Some(2u32)
    } else if name == "test.other".spec_bytes() {
        Some(3u32)
    } else if name == "client.bot_chat_cadence".spec_bytes() {
        Some(100u32)
    } else if name == "server.world_authority_heartbeat".spec_bytes() {
        Some(101u32)
    } else if name == "server.reconnect_retention".spec_bytes() {
        Some(102u32)
    } else {
        None
    }
}

impl DispatchId {
    pub fn bot_chat_cadence() -> (d: DispatchId)
        ensures
            d.0 == BOT_CHAT_CADENCE_RAW,
    {
        bot_chat_cadence_dispatch()
    }

    pub fn server_periodic_checkpoint() -> (d: DispatchId)
        ensures
            d.0 == SERVER_WORLD_HEARTBEAT_RAW,
    {
        server_world_heartbeat_dispatch()
    }

    pub fn reconnect_retention() -> (d: DispatchId)
        ensures
            d.0 == RECONNECT_RETENTION_RAW,
    {
        reconnect_retention_dispatch()
    }

    /// The fixture dispatch id named `id`; only fixture names are accepted.
    pub fn from_static(id: &'static str) -> (d: Self)
        requires
            fixture_raw(id.spec_bytes()) is Some,
        ensures
            Some(d.0) == fixture_raw(id.spec_bytes()),
    {
        let raw: u32 = if same_text(id, "test.slot") {
            1
        } else if same_text(id, "test.slot.b") {
            2
        } else if same_text(id, "test.other") {
            3
        } else if same_text(id, "client.bot_chat_cadence") {
            100
        } else if same_text(id, "server.world_authority_heartbeat") {
            101
        } else if same_text(id, "server.reconnect_retention") {
            102
        } else {
            0
        };
        DispatchId(raw)
    }

    /// Fixture name of this id; `test.unknown` for any other id.
    pub fn as_str(self) -> (s: &'static str)
        ensures
            self.0 == 1 ==> s@ == "test.slot"@,
            self.0 == 2 ==> s@ == "test.slot.b"@,
            self.0 == 3 ==> s@ == "test.other"@,
            self.0 == 100 ==> s@ == "client.bot_chat_cadence"@,
            self.0 == 101 ==> s@ == "server.world_authority_heartbeat"@,
            self.0 == 102 ==> s@ == "server.reconnect_retention"@,
            !(self.0 == 1 || self.0 == 2 || self.0 == 3 || self.0 == 100 || self.0 == 101 || self.0
                == 102) ==> s@ == "test.unknown"@,
    {
        match self.0 {
            1 => "test.slot",
            2 => "test.slot.b",
            3 => "test.other",
            100 => "client.bot_chat_cadence",
            101 => "server.world_authority_heartbeat",
            102 => "server.reconnect_retention",
            _ => "test.unknown",
        }
    }
}

impl SliceTrace {
    pub fn bot_utterance_ticks(&self) -> (r: Vec<u64>)
        ensures
            r@ == ticks_for(self.spec_events(), DispatchId(BOT_CHAT_CADENCE_RAW)),
    {
        self.dispatched_ticks(bot_chat_cadence_dispatch())
    }

    pub fn server_checkpoint_ticks(&self) -> (r: Vec<u64>)
        ensures
            r@ == ticks_for(self.spec_events(), DispatchId(SERVER_WORLD_HEARTBEAT_RAW)),
    {
        self.dispatched_ticks(server_world_heartbeat_dispatch())
    }

    /// Ticks of a named fixture cadence; empty for other names.
    pub fn ticks_named(&self, name: &str) -> (r: Vec<u64>)
        ensures
            name.spec_bytes() == "bot_chat_cadence".spec_bytes() ==> r@ == ticks_for(
                self.spec_events(),
                DispatchId(BOT_CHAT_CADENCE_RAW),
            ),
            name.spec_bytes() == "world_authority_heartbeat".spec_bytes() && name.spec_bytes()
                != "bot_chat_cadence".spec_bytes() ==> r@ == ticks_for(
                self.spec_events(),
                DispatchId(SERVER_WORLD_HEARTBEAT_RAW),
            ),
            name.spec_bytes() != "bot_chat_cadence".spec_bytes() && name.spec_bytes()
                != "world_authority_heartbeat".spec_bytes() ==> r@.len() == 0,
    {
        if same_text(name, "bot_chat_cadence") {
            self.bot_utterance_ticks()
        } else if same_text(name, "world_authority_heartbeat") {
            self.server_checkpoint_ticks()
        } else {
            Vec::new()
        }
    }
}

} // verus!
