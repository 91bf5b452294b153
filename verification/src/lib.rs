//! Peer-to-peer cluster core of a block-game server.
//!
//! Every peer of a cluster keeps its own copy of the world, applies local
//! edits at once and converges with the other peers tick by tick. The modules
//! here hold the decisions of that process: identities and wrapping clocks,
//! the chunk directory, acceptance of ticks, conflict order, rollback, join
//! votes, presence and the audits over them. Nothing here touches a socket, a
//! file, a clock or a thread.

pub mod accept;
pub mod admin_sync;
pub mod banks;
pub mod break_emit;
pub mod buckets;
pub mod bytes;
pub mod chat_sync;
pub mod chunks;
pub mod codec;
pub mod combat;
pub mod dependent;
pub mod dual;
pub mod entities;
pub mod entity_action;
pub mod floats;
pub mod hiding;
pub mod identity;
pub mod interact;
pub mod inventory;
pub mod invsee;
pub mod keyed;
pub mod lifecycle;
pub mod lobby_audit;
pub mod lobby_control;
pub mod membership;
pub mod mesh;
pub mod metrics;
pub mod movement;
pub mod names;
pub mod no_generate;
pub mod ntp;
pub mod ntp_audit;
pub mod offers;
pub mod order;
pub mod place_emit;
pub mod presence;
pub mod presence_audit;
pub mod primary;
pub mod protocol;
pub mod reconcile;
pub mod sequence;
pub mod sorting;
pub mod text;
pub mod time;
