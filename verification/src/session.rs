use vstd::prelude::*;

use crate::addr::{v4_octets, v6_octets, IpAddress};

verus! {

/// SOCKS5 address types, coded 1, 3 and 4 on the wire.
#[derive(Clone, Copy, PartialEq, Eq, Structural, Debug)]
pub enum AddrType {
    IPv4,
    Domain,
    IPv6,
}

impl AddrType {
    pub open spec fn spec_code(&self) -> u8 {
        match self {
            AddrType::IPv4 => 1,
            AddrType::Domain => 3,
            AddrType::IPv6 => 4,
        }
    }

    #[verifier::when_used_as_spec(spec_code)]
    pub fn code(&self) -> (r: u8)
        ensures
            r == self.spec_code(),
    {
        match self {
            AddrType::IPv4 => 1,
            AddrType::Domain => 3,
            AddrType::IPv6 => 4,
        }
    }
}

/// SOCKS5 reply codes, as the second byte of the reply.
#[derive(Clone, Copy, PartialEq, Eq, Structural, Debug)]
pub enum ReplyCode {
    Success,
    GeneralSocksServerFailure,
    ConnectionRefused,
    TTLExpired,
    CommandNotSupported,
    AddressTypeNotSupported,
}

impl ReplyCode {
    pub open spec fn spec_code(&self) -> u8 {
        match self {
            ReplyCode::Success => 0,
            ReplyCode::GeneralSocksServerFailure => 1,
            ReplyCode::ConnectionRefused => 5,
            ReplyCode::TTLExpired => 6,
            ReplyCode::CommandNotSupported => 7,
            ReplyCode::AddressTypeNotSupported => 8,
        }
    }

    #[verifier::when_used_as_spec(spec_code)]
    pub fn code(&self) -> (r: u8)
        ensures
            r == self.spec_code(),
    {
        match self {
            ReplyCode::Success => 0,
            ReplyCode::GeneralSocksServerFailure => 1,
            ReplyCode::ConnectionRefused => 5,
            ReplyCode::TTLExpired => 6,
            ReplyCode::CommandNotSupported => 7,
            ReplyCode::AddressTypeNotSupported => 8,
        }
    }
}

/// How an outbound connect attempt failed, as far as the reply code
/// cares.
#[derive(Clone, Copy, PartialEq, Eq, Structural, Debug)]
pub enum ConnectErrorKind {
    Refused,
    TimedOut,
    Other,
}

/// Everything that can cut a session short.
#[derive(Clone, Copy, PartialEq, Eq, Structural, Debug)]
pub enum SessionError {
    Read,
    Write,
    Copy,
    Socket,
    Bind,
    Connect(ConnectErrorKind),
    NameResolution,
    Protocol,
    UnsupportedProtocolVersion(u8),
    UnsupportedAuthentication,
    UnsupportedCommand(u8),
    InvalidAddress(u8),
    DomainNotUtf8,
    NoTargetAddr,
    NoSuitableSourceAddr,
}

/// Checks the two-byte greeting head: the version must be 5 and the
/// method count must not be zero. Returns the number of method bytes
/// that follow.
pub fn check_greeting(ver: u8, nmethods: u8) -> (r: Result<usize, SessionError>)
    ensures
        ver != 5 ==> r == Err::<usize, SessionError>(
            SessionError::UnsupportedProtocolVersion(ver),
        ),
        ver == 5 && nmethods == 0 ==> r == Err::<usize, SessionError>(SessionError::Protocol),
        ver == 5 && nmethods >= 1 ==> r == Ok::<usize, SessionError>(nmethods as usize),
{
    if ver != 5 {
        Err(SessionError::UnsupportedProtocolVersion(ver))
    } else if nmethods == 0 {
        Err(SessionError::Protocol)
    } else {
        Ok(nmethods as usize)
    }
}

/// Picks the greeting reply: `[5, 0]` and proceed when the client
/// offers the no-authentication method, `[5, 255]` and stop
/// otherwise.
pub fn greeting_reply(methods: &Vec<u8>) -> (r: (Vec<u8>, bool))
    ensures
        r.1 == methods@.contains(0u8),
        r.1 ==> r.0@ == seq![5u8, 0u8],
        !r.1 ==> r.0@ == seq![5u8, 255u8],
{
    let mut has_no_auth = false;
    let mut i: usize = 0;
    while i < methods.len()
        invariant
            i <= methods@.len(),
            has_no_auth == exists|j: int| 0 <= j < i && methods@[j] == 0u8,
        decreases methods@.len() - i,
    {
        if methods[i] == 0 {
            has_no_auth = true;
        }
        i = i + 1;
    }
    proof {
        if methods@.contains(0u8) {
            let w = choose|w: int| 0 <= w < methods@.len() && methods@[w] == 0u8;
            assert(exists|j: int| 0 <= j < methods@.len() && methods@[j] == 0u8);
        }
    }
    let mut reply: Vec<u8> = Vec::new();
    reply.push(5);
    if has_no_auth {
        reply.push(0);
        proof {
            assert(reply@ =~= seq![5u8, 0u8]);
        }
    } else {
        reply.push(255);
        proof {
            assert(reply@ =~= seq![5u8, 255u8]);
        }
    }
    (reply, has_no_auth)
}

/// Checks the four-byte request head in wire order: version 5, the
/// CONNECT command, a zero reserved byte, then a known address type.
pub fn check_request_head(ver: u8, cmd: u8, rsv: u8, atyp: u8) -> (r: Result<
    AddrType,
    SessionError,
>)
    ensures
        ver != 5 ==> r == Err::<AddrType, SessionError>(
            SessionError::UnsupportedProtocolVersion(ver),
        ),
        ver == 5 && cmd != 1 ==> r == Err::<AddrType, SessionError>(
            SessionError::UnsupportedCommand(cmd),
        ),
        ver == 5 && cmd == 1 && rsv != 0 ==> r == Err::<AddrType, SessionError>(
            SessionError::Protocol,
        ),
        ver == 5 && cmd == 1 && rsv == 0 ==> r == (match atyp {
            1u8 => Ok::<AddrType, SessionError>(AddrType::IPv4),
            3u8 => Ok::<AddrType, SessionError>(AddrType::Domain),
            4u8 => Ok::<AddrType, SessionError>(AddrType::IPv6),
            _ => Err::<AddrType, SessionError>(SessionError::InvalidAddress(atyp)),
        }),
{
    if ver != 5 {
        Err(SessionError::UnsupportedProtocolVersion(ver))
    } else if cmd != 1 {
        Err(SessionError::UnsupportedCommand(cmd))
    } else if rsv != 0 {
        Err(SessionError::Protocol)
    } else if atyp == 1 {
        Ok(AddrType::IPv4)
    } else if atyp == 3 {
        Ok(AddrType::Domain)
    } else if atyp == 4 {
        Ok(AddrType::IPv6)
    } else {
        Err(SessionError::InvalidAddress(atyp))
    }
}

/// Reads a big-endian two-byte port number.
pub fn parse_port(hi: u8, lo: u8) -> (r: u16)
    ensures
        r == hi * 256 + lo,
{
    (hi as u16) * 256 + (lo as u16)
}

/// Which address families occur in the resolved target list.
pub fn needed_families(addrs: &Vec<IpAddress>) -> (r: (bool, bool))
    ensures
        r.0 == exists|i: int| 0 <= i < addrs@.len() && (#[trigger] addrs@[i]) is V4,
        r.1 == exists|i: int| 0 <= i < addrs@.len() && (#[trigger] addrs@[i]) is V6,
{
    let mut has_v4 = false;
    let mut has_v6 = false;
    let mut i: usize = 0;
    while i < addrs.len()
        invariant
            i <= addrs@.len(),
            has_v4 == exists|j: int| 0 <= j < i && (#[trigger] addrs@[j]) is V4,
            has_v6 == exists|j: int| 0 <= j < i && (#[trigger] addrs@[j]) is V6,
        decreases addrs@.len() - i,
    {
        if addrs[i].is_v4() {
            has_v4 = true;
        } else {
            has_v6 = true;
        }
        i = i + 1;
    }
    (has_v4, has_v6)
}

/// The first resolved target whose family matches the chosen source
/// address.
pub fn choose_target(addrs: &Vec<IpAddress>, source: &IpAddress) -> (r: Option<IpAddress>)
    ensures
        match r {
            Some(t) => {
                &&& (t is V4) == (source is V4)
                &&& exists|i: int|
                    0 <= i < addrs@.len() && (#[trigger] addrs@[i]) == t && forall|j: int|
                        0 <= j < i ==> ((#[trigger] addrs@[j]) is V4) != (source is V4)
            },
            None => forall|i: int|
                0 <= i < addrs@.len() ==> ((#[trigger] addrs@[i]) is V4) != (source is V4),
        },
{
    let mut i: usize = 0;
    while i < addrs.len()
        invariant
            i <= addrs@.len(),
            forall|j: int| 0 <= j < i ==> ((#[trigger] addrs@[j]) is V4) != (source is V4),
        decreases addrs@.len() - i,
    {
        if addrs[i].is_v4() == source.is_v4() {
            return Some(addrs[i]);
        }
        i = i + 1;
    }
    None
}

/// The reply code the session answers with: the outcome of the
/// request phase mapped as the protocol asks.
pub open spec fn spec_reply_code_for(outcome: Option<SessionError>) -> ReplyCode {
    match outcome {
        None => ReplyCode::Success,
        Some(e) => match e {
            SessionError::UnsupportedCommand(_) => ReplyCode::CommandNotSupported,
            SessionError::NoSuitableSourceAddr => ReplyCode::AddressTypeNotSupported,
            SessionError::NameResolution => ReplyCode::GeneralSocksServerFailure,
            SessionError::Connect(k) => match k {
                ConnectErrorKind::Refused => ReplyCode::ConnectionRefused,
                ConnectErrorKind::TimedOut => ReplyCode::TTLExpired,
                ConnectErrorKind::Other => ReplyCode::GeneralSocksServerFailure,
            },
            _ => ReplyCode::GeneralSocksServerFailure,
        },
    }
}

pub fn reply_code_for(outcome: &Option<SessionError>) -> (r: ReplyCode)
    ensures
        r == spec_reply_code_for(*outcome),
{
    match outcome {
        None => ReplyCode::Success,
        Some(e) => match e {
            SessionError::UnsupportedCommand(_) => ReplyCode::CommandNotSupported,
            SessionError::NoSuitableSourceAddr => ReplyCode::AddressTypeNotSupported,
            SessionError::NameResolution => ReplyCode::GeneralSocksServerFailure,
            SessionError::Connect(ConnectErrorKind::Refused) => ReplyCode::ConnectionRefused,
            SessionError::Connect(ConnectErrorKind::TimedOut) => ReplyCode::TTLExpired,
            _ => ReplyCode::GeneralSocksServerFailure,
        },
    }
}

/// Builds the single reply the session sends: version, reply code,
/// reserved zero, address type, the bind address octets, then the
/// bind port in network order. A failed session reports the
/// unspecified IPv4 address and port zero.
pub fn build_reply(code: ReplyCode, bind: &IpAddress, port: u16) -> (r: Vec<u8>)
    ensures
        match bind {
            IpAddress::V4(x) => r@ == seq![5u8, code.spec_code(), 0u8, 1u8] + v4_octets(*x)
                + seq![(port / 256) as u8, (port % 256) as u8],
            IpAddress::V6(x) => r@ == seq![5u8, code.spec_code(), 0u8, 4u8] + v6_octets(*x)
                + seq![(port / 256) as u8, (port % 256) as u8],
        },
{
    let mut r: Vec<u8> = Vec::new();
    r.push(5);
    r.push(code.code());
    r.push(0);
    match bind {
        IpAddress::V4(_) => r.push(AddrType::IPv4.code()),
        IpAddress::V6(_) => r.push(AddrType::IPv6.code()),
    }
    let mut octs = bind.octets();
    r.append(&mut octs);
    r.push((port / 256) as u8);
    r.push((port % 256) as u8);
    proof {
        match bind {
            IpAddress::V4(x) => {
                assert(r@ =~= seq![5u8, code.spec_code(), 0u8, 1u8] + v4_octets(*x)
                    + seq![(port / 256) as u8, (port % 256) as u8]);
            },
            IpAddress::V6(x) => {
                assert(r@ =~= seq![5u8, code.spec_code(), 0u8, 4u8] + v6_octets(*x)
                    + seq![(port / 256) as u8, (port % 256) as u8]);
            },
        }
    }
    r
}

} // verus!
