//! The channel to the remote chain: the handshake that opens the one
//! channel, and the packets that keep the validator set in step.

use vstd::prelude::*;
use vstd::string::StringSliceAdditionalSpecFns;
use crate::crdt::{apply, apply_all, CrdtState, ValOp, ValStateView, ValUpdate};
use crate::error::{ContractError, StdError, VersionError};
use crate::version::{parse_version, writes, Version};

verus! {

/// Whether a channel delivers its packets in order.
#[derive(Clone, Copy, Debug, PartialEq, Eq, Structural)]
pub enum IbcOrder {
    Unordered,
    Ordered,
}

/// One end of a channel.
#[derive(Clone, Debug, PartialEq, Eq)]
pub struct IbcEndpoint {
    pub port_id: String,
    pub channel_id: String,
}

/// A channel as the handshake describes it.
#[derive(Clone, Debug, PartialEq, Eq)]
pub struct IbcChannel {
    pub endpoint: IbcEndpoint,
    pub counterparty_endpoint: IbcEndpoint,
    pub order: IbcOrder,
    pub version: String,
    pub connection_id: String,
}

/// The counterparty that may open the channel.
#[derive(Clone, Debug, PartialEq, Eq)]
pub struct AuthorizedEndpoint {
    pub connection_id: String,
    pub port_id: String,
}

/// A protocol with its version, as the two sides exchange it.
#[derive(Clone, Debug, PartialEq, Eq)]
pub struct ProtocolVersion {
    pub protocol: String,
    pub version: String,
}

/// The first step of the handshake. The version that the counterparty
/// proposes is missing where its text could not be decoded.
#[derive(Clone, Debug, PartialEq, Eq)]
pub enum IbcChannelOpenMsg {
    /// This side is asked to initiate.
    OpenInit { channel: IbcChannel },
    /// This side is asked to respond.
    OpenTry { channel: IbcChannel, counterparty_version: Option<ProtocolVersion> },
}

/// The second step of the handshake.
#[derive(Clone, Debug, PartialEq, Eq)]
pub enum IbcChannelConnectMsg {
    /// The counterparty has answered this side's initiation.
    OpenAck { channel: IbcChannel, counterparty_version: String },
    /// The counterparty confirms the channel that this side responded to.
    OpenConfirm { channel: IbcChannel },
}

/// The answer to the first step: the version to go on with.
#[derive(Clone, Debug, PartialEq, Eq)]
pub struct Ibc3ChannelOpenResponse {
    pub version: ProtocolVersion,
}

/// An answer that carries attributes only.
#[derive(Clone, Debug, PartialEq, Eq)]
pub struct IbcBasicResponse {
    pub attributes: Vec<(String, String)>,
}

/// One validator of an addition packet.
#[derive(Clone, Debug, PartialEq, Eq)]
pub struct AddValidator {
    pub valoper: String,
    pub pub_key: String,
    pub start_height: u64,
    pub start_time: u64,
}

/// A packet from the remote chain.
#[derive(Clone, Debug, PartialEq, Eq)]
pub enum ConsumerPacket {
    AddValidators(Vec<AddValidator>),
    RemoveValidators(Vec<String>),
}

/// What a packet is acknowledged with. Every packet that could be decoded
/// is acknowledged as a success.
#[derive(Clone, Copy, Debug, PartialEq, Eq, Structural)]
pub enum Ack {
    AddValidators,
    RemoveValidators,
}

/// The answer to a packet.
#[derive(Clone, Copy, Debug, PartialEq, Eq, Structural)]
pub struct IbcReceiveResponse {
    pub acknowledgement: Ack,
}

/// What the handshake is held against.
#[derive(Clone, Debug, PartialEq, Eq)]
pub struct HandshakeConfig {
    /// Name of the protocol that both sides have to speak.
    pub protocol: String,
    /// The newest version that this side supports.
    pub supported_version: String,
    /// The oldest version that this side goes along with.
    pub min_version: String,
}

/// What this side keeps of the channel.
pub struct IbcState {
    /// The counterparty that may open the channel, once it is named.
    pub auth_endpoint: Option<AuthorizedEndpoint>,
    /// The channel, once it is open.
    pub channel: Option<IbcChannel>,
    /// The validator set that the packets feed.
    pub validators: CrdtState,
}

/// The version to go on with when `proposed` is proposed to a side that
/// supports `supported` and nothing older than `min`: the older of the
/// proposed and the supported one.
pub open spec fn negotiated(proposed: Version, supported: Version, min: Version) -> Result<
    Version,
    VersionError,
> {
    if proposed.major != supported.major {
        Err(VersionError::MajorMismatch)
    } else if proposed.older_than(min) {
        Err(VersionError::TooOld)
    } else if supported.older_than(proposed) {
        Ok(supported)
    } else {
        Ok(proposed)
    }
}

/// Picks the version to go on with.
pub fn negotiate(proposed: Version, supported: Version, min: Version) -> (res: Result<
    Version,
    VersionError,
>)
    ensures
        res == negotiated(proposed, supported, min),
{
    if proposed.major != supported.major {
        Err(VersionError::MajorMismatch)
    } else if proposed.is_older_than(&min) {
        Err(VersionError::TooOld)
    } else if supported.is_older_than(&proposed) {
        Ok(supported)
    } else {
        Ok(proposed)
    }
}

/// The version that `text` writes, if it writes one.
pub open spec fn version_of(text: Seq<char>) -> Option<Version> {
    if exists|v: Version| writes(vstd::utf8::encode_utf8(text), v) {
        Some(choose|v: Version| writes(vstd::utf8::encode_utf8(text), v))
    } else {
        None
    }
}

/// Reads a version, as `version_of` defines it.
fn read_version(text: &str) -> (res: Option<Version>)
    ensures
        res == version_of(text@),
{
    let res = parse_version(text);
    proof {
        let bytes = vstd::utf8::encode_utf8(text@);
        assert(text.spec_bytes() == bytes);
        match res {
            Some(v) => {
                assert(writes(bytes, v));
                let w = choose|w: Version| writes(bytes, w);
                crate::version::lemma_writes_one_version(bytes, v, w);
            },
            None => {
                assert forall|v: Version| !writes(bytes, v) by {
                    assert(!writes(text.spec_bytes(), v));
                }
            },
        }
    }
    res
}

/// What the proposal `proposed` is answered with under `config`.
pub open spec fn handshake_answer(config: HandshakeConfig, proposed: ProtocolVersion) -> Result<
    (Seq<char>, Seq<char>),
    VersionError,
> {
    if proposed.protocol@ != config.protocol@ {
        Err(VersionError::WrongProtocol)
    } else {
        match (
            version_of(config.supported_version@),
            version_of(config.min_version@),
            version_of(proposed.version@),
        ) {
            (Some(supported), Some(min), Some(p)) => match negotiated(p, supported, min) {
                Ok(v) => Ok(
                    (
                        config.protocol@,
                        if v == p {
                            proposed.version@
                        } else {
                            config.supported_version@
                        },
                    ),
                ),
                Err(e) => Err(e),
            },
            _ => Err(VersionError::Malformed),
        }
    }
}

/// What the first step `msg` of the handshake is answered with: the
/// protocol and the version to go on with. Refused are, in this order, a
/// second channel, the demand to initiate, an ordered channel, a handshake
/// before the counterparty is named, another counterparty than the
/// authorized one, a proposal that could not be decoded, and a version that
/// does not suit.
pub open spec fn channel_open_answer(
    config: HandshakeConfig,
    state: IbcState,
    msg: IbcChannelOpenMsg,
) -> Result<(Seq<char>, Seq<char>), ContractError> {
    if state.channel is Some {
        Err(ContractError::IbcChannelAlreadyOpen)
    } else {
        match msg {
            IbcChannelOpenMsg::OpenInit { .. } => Err(ContractError::IbcOpenInitDisallowed),
            IbcChannelOpenMsg::OpenTry { channel, counterparty_version } => if channel.order
                != IbcOrder::Unordered {
                Err(ContractError::InvalidChannelOrder)
            } else {
                match state.auth_endpoint {
                    None => Err(ContractError::Std(StdError::NotFound)),
                    Some(authorized) => if authorized.connection_id@ != channel.connection_id@
                        || authorized.port_id@ != channel.counterparty_endpoint.port_id@ {
                        Err(ContractError::Unauthorized {  })
                    } else {
                        match counterparty_version {
                            None => Err(ContractError::Std(StdError::ParseErr)),
                            Some(proposed) => match handshake_answer(config, proposed) {
                                Ok(v) => Ok(v),
                                Err(e) => Err(ContractError::Version(e)),
                            },
                        }
                    },
                }
            },
        }
    }
}

/// Answers a proposed version under `config`.
pub fn build_response(config: &HandshakeConfig, proposed: &ProtocolVersion) -> (res: Result<
    ProtocolVersion,
    VersionError,
>)
    ensures
        match res {
            Ok(v) => handshake_answer(*config, *proposed) == Ok::<
                (Seq<char>, Seq<char>),
                VersionError,
            >((v.protocol@, v.version@)),
            Err(e) => handshake_answer(*config, *proposed) == Err::<
                (Seq<char>, Seq<char>),
                VersionError,
            >(e),
        },
{
    if proposed.protocol != config.protocol {
        return Err(VersionError::WrongProtocol);
    }
    let supported = read_version(config.supported_version.as_str());
    let min = read_version(config.min_version.as_str());
    let p = read_version(proposed.version.as_str());
    match (supported, min, p) {
        (Some(supported), Some(min), Some(p)) => {
            let v = negotiate(p, supported, min)?;
            let version = if v == p {
                proposed.version.clone()
            } else {
                config.supported_version.clone()
            };
            Ok(ProtocolVersion { protocol: config.protocol.clone(), version })
        },
        _ => Err(VersionError::Malformed),
    }
}

/// The first step of the handshake: checks that no channel is open, that
/// this side is to respond, the order of the channel and the counterparty,
/// and answers with the version to go on with. Nothing is kept yet.
pub fn ibc_channel_open(config: &HandshakeConfig, state: &IbcState, msg: IbcChannelOpenMsg) -> (res:
    Result<Ibc3ChannelOpenResponse, ContractError>)
    ensures
        match res {
            Ok(r) => channel_open_answer(*config, *state, msg) == Ok::<
                (Seq<char>, Seq<char>),
                ContractError,
            >((r.version.protocol@, r.version.version@)),
            Err(e) => channel_open_answer(*config, *state, msg) == Err::<
                (Seq<char>, Seq<char>),
                ContractError,
            >(e),
        },
{
    // There is one channel only.
    if state.channel.is_some() {
        return Err(ContractError::IbcChannelAlreadyOpen);
    }
    // This side responds, it does not initiate.
    let (channel, counterparty_version) = match msg {
        IbcChannelOpenMsg::OpenInit { .. } => {
            return Err(ContractError::IbcOpenInitDisallowed);
        },
        IbcChannelOpenMsg::OpenTry { channel, counterparty_version } => (
            channel,
            counterparty_version,
        ),
    };
    match channel.order {
        IbcOrder::Unordered => {},
        IbcOrder::Ordered => {
            return Err(ContractError::InvalidChannelOrder);
        },
    }
    let authorized = match &state.auth_endpoint {
        Some(a) => a,
        None => {
            return Err(ContractError::Std(StdError::NotFound));
        },
    };
    if authorized.connection_id != channel.connection_id || authorized.port_id
        != channel.counterparty_endpoint.port_id {
        return Err(ContractError::Unauthorized {  });
    }
    let proposed = match counterparty_version {
        Some(v) => v,
        None => {
            return Err(ContractError::Std(StdError::ParseErr));
        },
    };
    match build_response(config, &proposed) {
        Ok(version) => Ok(Ibc3ChannelOpenResponse { version }),
        Err(e) => Err(ContractError::Version(e)),
    }
}

/// The second step of the handshake: the channel that the counterparty
/// confirms is kept. Refused are a second channel and the answer to an
/// initiation, which this side never sent.
pub fn ibc_channel_connect(state: &mut IbcState, msg: IbcChannelConnectMsg) -> (res: Result<
    IbcBasicResponse,
    ContractError,
>)
    ensures
        final(state).auth_endpoint == old(state).auth_endpoint,
        final(state).validators == old(state).validators,
        match res {
            Ok(r) => {
                &&& old(state).channel is None
                &&& msg matches IbcChannelConnectMsg::OpenConfirm { channel }
                &&& final(state).channel == Some(channel)
                &&& r.attributes@.len() == 0
            },
            Err(e) => {
                &&& final(state).channel == old(state).channel
                &&& e == if old(state).channel is Some {
                    ContractError::IbcChannelAlreadyOpen
                } else {
                    ContractError::IbcOpenInitDisallowed
                }
                &&& old(state).channel is Some || msg is OpenAck
            },
        },
{
    if state.channel.is_some() {
        return Err(ContractError::IbcChannelAlreadyOpen);
    }
    let channel = match msg {
        IbcChannelConnectMsg::OpenConfirm { channel } => channel,
        IbcChannelConnectMsg::OpenAck { .. } => {
            return Err(ContractError::IbcOpenInitDisallowed);
        },
    };
    state.channel = Some(channel);
    Ok(IbcBasicResponse { attributes: Vec::new() })
}

/// The updates that the additions `to_add` make, in their order.
pub open spec fn additions(to_add: Seq<AddValidator>) -> Seq<ValOp> {
    Seq::new(
        to_add.len(),
        |i: int|
            ValOp::Add(
                to_add[i].valoper@,
                crate::crdt::ValUpdateView {
                    pub_key: to_add[i].pub_key@,
                    start_height: to_add[i].start_height,
                    start_time: to_add[i].start_time,
                },
            ),
    )
}

/// The updates that the removals `to_remove` make, in their order.
pub open spec fn removals(to_remove: Seq<String>) -> Seq<ValOp> {
    Seq::new(to_remove.len(), |i: int| ValOp::Remove(to_remove[i]@))
}

/// The updates that `packet` makes, in their order.
pub open spec fn updates_of(packet: ConsumerPacket) -> Seq<ValOp> {
    match packet {
        ConsumerPacket::AddValidators(to_add) => additions(to_add@),
        ConsumerPacket::RemoveValidators(to_remove) => removals(to_remove@),
    }
}

/// Takes a packet in: each of its updates goes into the validator set, in
/// the packet's order, and the packet is acknowledged as a success. Only a
/// packet that could not be decoded, a missing one here, is refused, and
/// changes nothing.
pub fn ibc_packet_receive(state: &mut IbcState, packet: Option<ConsumerPacket>) -> (res: Result<
    IbcReceiveResponse,
    ContractError,
>)
    requires
        old(state).validators.wf(),
    ensures
        final(state).validators.wf(),
        final(state).auth_endpoint == old(state).auth_endpoint,
        final(state).channel == old(state).channel,
        match packet {
            Some(p) => {
                &&& final(state).validators@ == apply_all(old(state).validators@, updates_of(p))
                &&& res == Ok::<IbcReceiveResponse, ContractError>(
                    (IbcReceiveResponse {
                        acknowledgement: match p {
                            ConsumerPacket::AddValidators(_) => Ack::AddValidators,
                            ConsumerPacket::RemoveValidators(_) => Ack::RemoveValidators,
                        },
                    }),
                )
            },
            None => {
                &&& final(state).validators@ == old(state).validators@
                &&& res == Err::<IbcReceiveResponse, ContractError>(
                    ContractError::Std(StdError::ParseErr),
                )
            },
        },
{
    let packet = match packet {
        Some(p) => p,
        None => {
            return Err(ContractError::Std(StdError::ParseErr));
        },
    };
    let ghost before = state.validators@;
    let ghost ops = updates_of(packet);
    let acknowledgement = match packet {
        ConsumerPacket::AddValidators(to_add) => {
            let n = to_add.len();
            let mut i: usize = 0;
            assert(ops.take(0) =~= Seq::<ValOp>::empty());
            while i < n
                invariant
                    i <= n,
                    n == to_add@.len(),
                    ops == additions(to_add@),
                    state.validators.wf(),
                    state.auth_endpoint == old(state).auth_endpoint,
                    state.channel == old(state).channel,
                    state.validators@ == apply_all(before, ops.take(i as int)),
                decreases n - i,
            {
                let v = &to_add[i];
                let update = ValUpdate {
                    pub_key: v.pub_key.clone(),
                    start_height: v.start_height,
                    start_time: v.start_time,
                };
                state.validators.add_validator(v.valoper.as_str(), update);
                proof {
                    assert(ops.take(i + 1).drop_last() =~= ops.take(i as int));
                }
                i = i + 1;
            }
            assert(ops.take(n as int) =~= ops);
            Ack::AddValidators
        },
        ConsumerPacket::RemoveValidators(to_remove) => {
            let n = to_remove.len();
            let mut i: usize = 0;
            assert(ops.take(0) =~= Seq::<ValOp>::empty());
            while i < n
                invariant
                    i <= n,
                    n == to_remove@.len(),
                    ops == removals(to_remove@),
                    state.validators.wf(),
                    state.auth_endpoint == old(state).auth_endpoint,
                    state.channel == old(state).channel,
                    state.validators@ == apply_all(before, ops.take(i as int)),
                decreases n - i,
            {
                state.validators.remove_validator(to_remove[i].as_str());
                proof {
                    assert(ops.take(i + 1).drop_last() =~= ops.take(i as int));
                }
                i = i + 1;
            }
            assert(ops.take(n as int) =~= ops);
            Ack::RemoveValidators
        },
    };
    Ok(IbcReceiveResponse { acknowledgement })
}

/// The answer to an acknowledgement of a packet of this side. This side
/// sends no packets: the answer only names what happened.
pub fn ibc_packet_ack() -> (res: IbcBasicResponse)
    ensures
        res.attributes@.len() == 1,
        res.attributes@[0].0@ == "action"@,
        res.attributes@[0].1@ == "ibc_packet_ack"@,
{
    let mut attributes: Vec<(String, String)> = Vec::new();
    attributes.push(("action".to_owned(), "ibc_packet_ack".to_owned()));
    IbcBasicResponse { attributes }
}

/// The answer to the timeout of a packet of this side. This side sends no
/// packets: the answer only names what happened.
pub fn ibc_packet_timeout() -> (res: IbcBasicResponse)
    ensures
        res.attributes@.len() == 1,
        res.attributes@[0].0@ == "action"@,
        res.attributes@[0].1@ == "ibc_packet_timeout"@,
{
    let mut attributes: Vec<(String, String)> = Vec::new();
    attributes.push(("action".to_owned(), "ibc_packet_timeout".to_owned()));
    IbcBasicResponse { attributes }
}

} // verus!
