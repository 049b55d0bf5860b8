use mesh_security::crdt::{CrdtState, ValState, ValUpdate};
use mesh_security::error::{ContractError, StdError, VersionError};
use mesh_security::ibc::{
    build_response, ibc_channel_connect, ibc_channel_open, ibc_packet_ack, ibc_packet_receive,
    ibc_packet_timeout, negotiate, Ack, AddValidator, AuthorizedEndpoint, ConsumerPacket,
    HandshakeConfig, Ibc3ChannelOpenResponse, IbcChannel, IbcChannelConnectMsg, IbcChannelOpenMsg,
    IbcEndpoint, IbcOrder, IbcReceiveResponse, IbcState, ProtocolVersion,
};
use mesh_security::version::Version;

fn config() -> HandshakeConfig {
    HandshakeConfig {
        protocol: "mesh-security".to_owned(),
        supported_version: "1.0.0".to_owned(),
        min_version: "1.0.0".to_owned(),
    }
}

fn state() -> IbcState {
    IbcState {
        auth_endpoint: Some(AuthorizedEndpoint {
            connection_id: "connection-7".to_owned(),
            port_id: "wasm.consumer".to_owned(),
        }),
        channel: None,
        validators: CrdtState::new(),
    }
}

fn channel(order: IbcOrder) -> IbcChannel {
    IbcChannel {
        endpoint: IbcEndpoint {
            port_id: "wasm.provider".to_owned(),
            channel_id: "channel-1".to_owned(),
        },
        counterparty_endpoint: IbcEndpoint {
            port_id: "wasm.consumer".to_owned(),
            channel_id: "channel-9".to_owned(),
        },
        order,
        version: "".to_owned(),
        connection_id: "connection-7".to_owned(),
    }
}

fn proposal(version: &str) -> Option<ProtocolVersion> {
    Some(ProtocolVersion {
        protocol: "mesh-security".to_owned(),
        version: version.to_owned(),
    })
}

fn open_try(channel: IbcChannel, version: Option<ProtocolVersion>) -> IbcChannelOpenMsg {
    IbcChannelOpenMsg::OpenTry { channel, counterparty_version: version }
}

fn v(major: u64, minor: u64, patch: u64) -> Version {
    Version { major, minor, patch }
}

#[test]
fn open_try_is_answered_with_the_version() {
    let res = ibc_channel_open(
        &config(),
        &state(),
        open_try(channel(IbcOrder::Unordered), proposal("1.0.0")),
    );
    assert_eq!(
        res,
        Ok(Ibc3ChannelOpenResponse {
            version: ProtocolVersion {
                protocol: "mesh-security".to_owned(),
                version: "1.0.0".to_owned(),
            }
        })
    );
}

#[test]
fn second_channel_is_refused() {
    let mut st = state();
    st.channel = Some(channel(IbcOrder::Unordered));
    let res = ibc_channel_open(
        &config(),
        &st,
        open_try(channel(IbcOrder::Unordered), proposal("1.0.0")),
    );
    assert_eq!(res, Err(ContractError::IbcChannelAlreadyOpen));
    // Before anything else is looked at.
    let res = ibc_channel_open(
        &config(),
        &st,
        IbcChannelOpenMsg::OpenInit { channel: channel(IbcOrder::Ordered) },
    );
    assert_eq!(res, Err(ContractError::IbcChannelAlreadyOpen));
}

#[test]
fn open_init_is_refused() {
    let res = ibc_channel_open(
        &config(),
        &state(),
        IbcChannelOpenMsg::OpenInit { channel: channel(IbcOrder::Unordered) },
    );
    assert_eq!(res, Err(ContractError::IbcOpenInitDisallowed));
}

#[test]
fn ordered_channel_is_refused() {
    let res = ibc_channel_open(
        &config(),
        &state(),
        open_try(channel(IbcOrder::Ordered), proposal("1.0.0")),
    );
    assert_eq!(res, Err(ContractError::InvalidChannelOrder));
}

#[test]
fn other_counterparty_is_refused() {
    let mut wrong_connection = channel(IbcOrder::Unordered);
    wrong_connection.connection_id = "connection-8".to_owned();
    let res = ibc_channel_open(&config(), &state(), open_try(wrong_connection, proposal("1.0.0")));
    assert_eq!(res, Err(ContractError::Unauthorized {}));

    let mut wrong_port = channel(IbcOrder::Unordered);
    wrong_port.counterparty_endpoint.port_id = "wasm.other".to_owned();
    let res = ibc_channel_open(&config(), &state(), open_try(wrong_port, proposal("1.0.0")));
    assert_eq!(res, Err(ContractError::Unauthorized {}));
}

#[test]
fn handshake_needs_the_counterparty_named() {
    let mut st = state();
    st.auth_endpoint = None;
    let res =
        ibc_channel_open(&config(), &st, open_try(channel(IbcOrder::Unordered), proposal("1.0.0")));
    assert_eq!(res, Err(ContractError::Std(StdError::NotFound)));
    // The order of the channel is looked at first.
    let res =
        ibc_channel_open(&config(), &st, open_try(channel(IbcOrder::Ordered), proposal("1.0.0")));
    assert_eq!(res, Err(ContractError::InvalidChannelOrder));
}

#[test]
fn undecodable_proposal_is_refused() {
    let res = ibc_channel_open(&config(), &state(), open_try(channel(IbcOrder::Unordered), None));
    assert_eq!(res, Err(ContractError::Std(StdError::ParseErr)));
}

#[test]
fn unsuitable_versions_are_refused() {
    let open = |config: &HandshakeConfig, proposed: Option<ProtocolVersion>| {
        ibc_channel_open(config, &state(), open_try(channel(IbcOrder::Unordered), proposed))
    };
    let wrong_protocol = Some(ProtocolVersion {
        protocol: "other".to_owned(),
        version: "1.0.0".to_owned(),
    });
    assert_eq!(
        open(&config(), wrong_protocol),
        Err(ContractError::Version(VersionError::WrongProtocol))
    );
    assert_eq!(
        open(&config(), proposal("1.0")),
        Err(ContractError::Version(VersionError::Malformed))
    );
    assert_eq!(
        open(&config(), proposal("2.0.0")),
        Err(ContractError::Version(VersionError::MajorMismatch))
    );
    assert_eq!(
        open(&config(), proposal("0.9.9")),
        Err(ContractError::Version(VersionError::MajorMismatch))
    );
    let mut wide = config();
    wide.supported_version = "1.4.0".to_owned();
    wide.min_version = "1.2.0".to_owned();
    assert_eq!(
        open(&wide, proposal("1.1.9")),
        Err(ContractError::Version(VersionError::TooOld))
    );
    let mut broken = config();
    broken.min_version = "one".to_owned();
    assert_eq!(
        open(&broken, proposal("1.0.0")),
        Err(ContractError::Version(VersionError::Malformed))
    );
}

#[test]
fn the_older_of_proposed_and_supported_is_taken() {
    let mut wide = config();
    wide.supported_version = "1.4.0".to_owned();
    wide.min_version = "1.2.0".to_owned();
    let answer = |proposed: &str| {
        build_response(&wide, &proposal(proposed).unwrap()).map(|p| p.version)
    };
    assert_eq!(answer("1.2.0"), Ok("1.2.0".to_owned()));
    assert_eq!(answer("1.3.7"), Ok("1.3.7".to_owned()));
    assert_eq!(answer("1.4.0"), Ok("1.4.0".to_owned()));
    assert_eq!(answer("1.4.1"), Ok("1.4.0".to_owned()));
    assert_eq!(answer("1.10.0"), Ok("1.4.0".to_owned()));
}

#[test]
fn negotiate_on_numbers() {
    assert_eq!(negotiate(v(1, 3, 0), v(1, 4, 0), v(1, 2, 0)), Ok(v(1, 3, 0)));
    assert_eq!(negotiate(v(1, 5, 0), v(1, 4, 0), v(1, 2, 0)), Ok(v(1, 4, 0)));
    assert_eq!(negotiate(v(1, 4, 1), v(1, 4, 0), v(1, 2, 0)), Ok(v(1, 4, 0)));
    assert_eq!(negotiate(v(1, 2, 0), v(1, 4, 0), v(1, 2, 0)), Ok(v(1, 2, 0)));
    assert_eq!(negotiate(v(1, 1, 9), v(1, 4, 0), v(1, 2, 0)), Err(VersionError::TooOld));
    assert_eq!(negotiate(v(2, 0, 0), v(1, 4, 0), v(1, 2, 0)), Err(VersionError::MajorMismatch));
    assert!(v(1, 2, 3).is_older_than(&v(1, 2, 4)));
    assert!(v(1, 2, 3).is_older_than(&v(1, 3, 0)));
    assert!(v(1, 9, 9).is_older_than(&v(2, 0, 0)));
    assert!(!v(1, 2, 3).is_older_than(&v(1, 2, 3)));
    assert!(!v(2, 0, 0).is_older_than(&v(1, 9, 9)));
}

#[test]
fn confirmed_channel_is_kept() {
    let mut st = state();
    let res = ibc_channel_connect(
        &mut st,
        IbcChannelConnectMsg::OpenConfirm { channel: channel(IbcOrder::Unordered) },
    );
    assert_eq!(res.map(|r| r.attributes), Ok(vec![]));
    assert_eq!(st.channel, Some(channel(IbcOrder::Unordered)));

    // Only one channel is ever kept.
    let mut other = channel(IbcOrder::Unordered);
    other.endpoint.channel_id = "channel-2".to_owned();
    let res = ibc_channel_connect(&mut st, IbcChannelConnectMsg::OpenConfirm { channel: other });
    assert_eq!(res, Err(ContractError::IbcChannelAlreadyOpen));
    assert_eq!(st.channel, Some(channel(IbcOrder::Unordered)));
}

#[test]
fn open_ack_is_refused() {
    let mut st = state();
    let res = ibc_channel_connect(
        &mut st,
        IbcChannelConnectMsg::OpenAck {
            channel: channel(IbcOrder::Unordered),
            counterparty_version: "1.0.0".to_owned(),
        },
    );
    assert_eq!(res, Err(ContractError::IbcOpenInitDisallowed));
    assert_eq!(st.channel, None);
}

fn add(valoper: &str, height: u64) -> AddValidator {
    AddValidator {
        valoper: valoper.to_owned(),
        pub_key: format!("key-{valoper}"),
        start_height: height,
        start_time: 1_687_000_000 + height,
    }
}

fn active(valoper: &str, height: u64) -> ValState {
    ValState::Active(ValUpdate {
        pub_key: format!("key-{valoper}"),
        start_height: height,
        start_time: 1_687_000_000 + height,
    })
}

#[test]
fn packets_feed_the_validator_set() {
    let mut st = state();
    let res = ibc_packet_receive(
        &mut st,
        Some(ConsumerPacket::AddValidators(vec![add("alice", 1), add("bob", 2), add("alice", 3)])),
    );
    assert_eq!(res, Ok(IbcReceiveResponse { acknowledgement: Ack::AddValidators }));
    assert_eq!(st.validators.validator("alice"), Some(&active("alice", 1)));
    assert_eq!(st.validators.validator("bob"), Some(&active("bob", 2)));

    let res = ibc_packet_receive(
        &mut st,
        Some(ConsumerPacket::RemoveValidators(vec!["bob".to_owned(), "carol".to_owned()])),
    );
    assert_eq!(res, Ok(IbcReceiveResponse { acknowledgement: Ack::RemoveValidators }));
    assert_eq!(st.validators.validator("alice"), Some(&active("alice", 1)));
    assert_eq!(st.validators.validator("bob"), Some(&ValState::Tombstoned));
    assert_eq!(st.validators.validator("carol"), None);

    // A packet that comes again changes nothing and is acknowledged again.
    let res = ibc_packet_receive(
        &mut st,
        Some(ConsumerPacket::AddValidators(vec![add("alice", 1), add("bob", 2), add("alice", 3)])),
    );
    assert_eq!(res, Ok(IbcReceiveResponse { acknowledgement: Ack::AddValidators }));
    assert_eq!(st.validators.validator("bob"), Some(&ValState::Tombstoned));
    assert_eq!(st.validators.validator("alice"), Some(&active("alice", 1)));
}

#[test]
fn empty_packets_are_acknowledged() {
    let mut st = state();
    assert_eq!(
        ibc_packet_receive(&mut st, Some(ConsumerPacket::AddValidators(vec![]))),
        Ok(IbcReceiveResponse { acknowledgement: Ack::AddValidators })
    );
    assert_eq!(
        ibc_packet_receive(&mut st, Some(ConsumerPacket::RemoveValidators(vec![]))),
        Ok(IbcReceiveResponse { acknowledgement: Ack::RemoveValidators })
    );
}

#[test]
fn undecodable_packet_is_refused() {
    let mut st = state();
    st.validators.add_validator(
        "alice",
        ValUpdate { pub_key: "key-alice".to_owned(), start_height: 1, start_time: 1_687_000_001 },
    );
    let res = ibc_packet_receive(&mut st, None);
    assert_eq!(res, Err(ContractError::Std(StdError::ParseErr)));
    assert_eq!(st.validators.validator("alice"), Some(&active("alice", 1)));
}

#[test]
fn ack_and_timeout_only_name_themselves() {
    assert_eq!(
        ibc_packet_ack().attributes,
        vec![("action".to_owned(), "ibc_packet_ack".to_owned())]
    );
    assert_eq!(
        ibc_packet_timeout().attributes,
        vec![("action".to_owned(), "ibc_packet_timeout".to_owned())]
    );
}
