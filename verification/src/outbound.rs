//! The decisions of the outbound side of a client connection: whether
//! the connection can go ahead, and how its data is relayed.

use vstd::prelude::*;

verus! {

/// The length of the hexadecimal secret that the trojan protocol sends:
/// a SHA-224 digest written as 56 hexadecimal digits.
pub const HEX_SIZE: usize = 56;

/// Outbound proxy protocols.
#[allow(non_camel_case_types)]
pub enum SupportedProtocols {
    TROJAN,
    SOCKS,
    DIRECT,
}

/// The transport that the client asked for.
#[allow(non_camel_case_types)]
pub enum TransportProtocol {
    TCP,
    UDP,
}

/// How the data of an accepted connection is relayed once the trojan
/// handshake is done.
pub enum RelayPlan {
    /// Copy bytes both ways between the two streams.
    Stream,
    /// Frame the client's datagrams as trojan UDP packets, and back.
    Packets,
}

/// How connecting to the remote server, and the TLS handshake over the
/// connection, went.
pub enum ConnectOutcome {
    /// Connected, with TLS set up where it is configured.
    Connected,
    /// Connecting or the TLS handshake failed; the text says why.
    Failed(String),
}

/// Why an outbound connection does not go ahead.
pub enum OutboundError {
    /// Connecting or the TLS handshake failed; the error is passed on.
    Io(String),
    /// No remote server is configured (an I/O "not connected" error).
    MissingDestination,
    /// The trojan secret does not have `HEX_SIZE` bytes (an "invalid
    /// input" error).
    BadSecretLength,
    /// The protocol is not offered on the outbound side (an
    /// "unsupported" error).
    UnsupportedProtocol,
}

impl OutboundError {
    /// The text that goes with the error.
    pub fn message(&self) -> (m: String)
        ensures
            self matches OutboundError::Io(why) ==> m@ == why@,
            self is MissingDestination ==> m@ == "missing address of the remote server"@,
            self is BadSecretLength ==> m@ == "Hex in trojan protocol is not 56 bytes"@,
            self is UnsupportedProtocol ==> m@ == "Unsupported protocol"@,
    {
        match self {
            OutboundError::Io(why) => why.clone(),
            OutboundError::MissingDestination => "missing address of the remote server".to_owned(),
            OutboundError::BadSecretLength => "Hex in trojan protocol is not 56 bytes".to_owned(),
            OutboundError::UnsupportedProtocol => "Unsupported protocol".to_owned(),
        }
    }
}

/// The first step for a client connection: without a configured
/// destination it fails before anything else; with one, the caller
/// connects (and sets up TLS where configured) and then takes
/// `outbound_after_connect`.
pub fn outbound_start(has_destination: bool) -> (r: Result<(), OutboundError>)
    ensures
        has_destination <==> r is Ok,
        !has_destination ==> r matches Err(OutboundError::MissingDestination),
{
    if has_destination {
        Ok(())
    } else {
        Err(OutboundError::MissingDestination)
    }
}

/// The step after connecting: a failed connection or TLS handshake is
/// passed on; then only the trojan protocol goes ahead, and only with a
/// secret of `HEX_SIZE` bytes; a trojan connection is relayed as a byte
/// stream for TCP and as framed packets for UDP.
pub fn outbound_after_connect(
    connection: ConnectOutcome,
    protocol: &SupportedProtocols,
    secret_len: usize,
    transport: &TransportProtocol,
) -> (r: Result<RelayPlan, OutboundError>)
    ensures
        connection matches ConnectOutcome::Failed(why) ==> (r matches Err(OutboundError::Io(e))
            && e == why),
        connection is Connected && !(protocol is TROJAN) ==> r matches Err(
            OutboundError::UnsupportedProtocol,
        ),
        connection is Connected && protocol is TROJAN && secret_len != HEX_SIZE ==> r matches Err(
            OutboundError::BadSecretLength,
        ),
        connection is Connected && protocol is TROJAN && secret_len == HEX_SIZE ==> (r matches Ok(
            plan,
        ) && (plan is Stream <==> transport is TCP)),
{
    match connection {
        ConnectOutcome::Failed(why) => Err(OutboundError::Io(why)),
        ConnectOutcome::Connected => match protocol {
            SupportedProtocols::TROJAN => {
                if secret_len != HEX_SIZE {
                    return Err(OutboundError::BadSecretLength);
                }
                match transport {
                    TransportProtocol::TCP => Ok(RelayPlan::Stream),
                    TransportProtocol::UDP => Ok(RelayPlan::Packets),
                }
            },
            SupportedProtocols::SOCKS => Err(OutboundError::UnsupportedProtocol),
            SupportedProtocols::DIRECT => Err(OutboundError::UnsupportedProtocol),
        },
    }
}

} // verus!
