//! The channels of the transport.

use vstd::prelude::*;

verus! {

/// A logical channel between client and server.
#[derive(Clone, Copy, Debug, PartialEq, Eq, Structural)]
pub enum Channel {
    /// Ordered and guaranteed.
    Reliable,
    /// Best effort.
    Unreliable,
    /// Guaranteed, and sized for a whole chunk.
    Block,
}

/// Reads the id of the reliable channel from `renet`'s default
/// configuration, `ReliableChannelConfig::default()`.
///
/// Not proved, but taken from the source of `rechannel`: the id is 0.
#[verifier::external_body]
fn reliable_channel_id() -> (id: u8)
    ensures
        id == 0,
{
    bevy_renet::renet::ReliableChannelConfig::default().channel_id
}

/// Reads the id of the unreliable channel from `renet`'s default
/// configuration, `UnreliableChannelConfig::default()`.
///
/// Not proved, but taken from the source of `rechannel`: the id is 1.
#[verifier::external_body]
fn unreliable_channel_id() -> (id: u8)
    ensures
        id == 1,
{
    bevy_renet::renet::UnreliableChannelConfig::default().channel_id
}

/// Reads the id of the block channel from `renet`'s default configuration,
/// `BlockChannelConfig::default()`.
///
/// Not proved, but taken from the source of `rechannel`: the id is 2.
#[verifier::external_body]
fn block_channel_id() -> (id: u8)
    ensures
        id == 2,
{
    bevy_renet::renet::BlockChannelConfig::default().channel_id
}

impl Channel {
    /// The number by which the transport knows this channel.
    pub open spec fn spec_id(self) -> u8 {
        match self {
            Channel::Reliable => 0,
            Channel::Unreliable => 1,
            Channel::Block => 2,
        }
    }

    /// The number by which the transport knows this channel.
    pub fn id(&self) -> (id: u8)
        ensures
            id == self.spec_id(),
    {
        match self {
            Channel::Reliable => reliable_channel_id(),
            Channel::Unreliable => unreliable_channel_id(),
            Channel::Block => block_channel_id(),
        }
    }
}

} // verus!
