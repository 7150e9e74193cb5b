//! Where the daemon listens, and where it is reached.

use crate::config::TransportConfig;
use crate::text::{self, NumberError};
use vstd::prelude::*;
use vstd::string::*;

verus! {

/// An address, with its texts as characters.
pub enum TransportModel {
    Inet { host: Seq<char>, port: u16 },
    Unix { path: Seq<char> },
    Vsock { cid: u32, port: u32 },
}

/// The address of a daemon.
#[derive(Debug)]
pub enum Transport {
    /// A TCP socket.
    Inet { host: String, port: u16 },
    /// A socket in the file system.
    Unix { path: String },
    /// A socket between a virtual machine and its host.
    Vsock { cid: u32, port: u32 },
}

impl View for Transport {
    type V = TransportModel;

    open spec fn view(&self) -> TransportModel {
        match self {
            Transport::Inet { host, port } => TransportModel::Inet { host: host@, port: *port },
            Transport::Unix { path } => TransportModel::Unix { path: path@ },
            Transport::Vsock { cid, port } => TransportModel::Vsock { cid: *cid, port: *port },
        }
    }
}

/// Why there is no address.
#[derive(Debug, Clone, Copy, PartialEq, Eq, Structural)]
pub enum TransportError {
    /// The text begins with none of `inet://`, `unix://` and `vsock://`.
    UnknownScheme,
    /// Not exactly one colon stands between host and port, or between context and port.
    MissingPort,
    /// The port is not a number that fits.
    Port(NumberError),
    /// The context identifier is not a number that fits.
    Cid(NumberError),
    /// The configuration enables no address at all.
    NoneEnabled,
}

impl TransportError {
    /// The error in words.
    pub open spec fn text(self) -> Seq<char> {
        match self {
            TransportError::UnknownScheme => "Unknown transport scheme"@,
            TransportError::MissingPort => "Expected an address of the form host:port"@,
            TransportError::Port(e) => e.text(),
            TransportError::Cid(e) => e.text(),
            TransportError::NoneEnabled => "At least one transport must be enabled"@,
        }
    }

    /// The error in words.
    pub fn message(&self) -> (message: String)
        ensures
            message@ == self.text(),
    {
        match self {
            TransportError::UnknownScheme => "Unknown transport scheme".to_owned(),
            TransportError::MissingPort => "Expected an address of the form host:port".to_owned(),
            TransportError::Port(e) => e.message(),
            TransportError::Cid(e) => e.message(),
            TransportError::NoneEnabled => "At least one transport must be enabled".to_owned(),
        }
    }
}

/// An address as text.
pub open spec fn written(transport: TransportModel) -> Seq<char> {
    match transport {
        TransportModel::Inet { host, port } => "inet://"@ + (host.push(':') + text::decimal(
            port as nat,
        )),
        TransportModel::Unix { path } => "unix://"@ + path,
        TransportModel::Vsock { cid, port } => "vsock://"@ + (text::decimal(cid as nat).push(':')
            + text::decimal(port as nat)),
    }
}

/// `host:port` read as an address.
pub open spec fn read_inet(address: Seq<char>) -> Result<TransportModel, TransportError> {
    match text::around_colon(address) {
        None => Err(TransportError::MissingPort),
        Some((host, port)) => match text::parsed(port, u16::MAX as nat) {
            Err(e) => Err(TransportError::Port(e)),
            Ok(port) => Ok(TransportModel::Inet { host, port: port as u16 }),
        },
    }
}

/// `cid:port` read as an address.
pub open spec fn read_vsock(address: Seq<char>) -> Result<TransportModel, TransportError> {
    match text::around_colon(address) {
        None => Err(TransportError::MissingPort),
        Some((cid, port)) => match text::parsed(cid, u32::MAX as nat) {
            Err(e) => Err(TransportError::Cid(e)),
            Ok(cid) => match text::parsed(port, u32::MAX as nat) {
                Err(e) => Err(TransportError::Port(e)),
                Ok(port) => Ok(TransportModel::Vsock { cid: cid as u32, port: port as u32 }),
            },
        },
    }
}

/// A text read as an address.
pub open spec fn read(text: Seq<char>) -> Result<TransportModel, TransportError> {
    if "inet://"@.is_prefix_of(text) {
        read_inet(text.skip("inet://"@.len() as int))
    } else if "unix://"@.is_prefix_of(text) {
        Ok(TransportModel::Unix { path: text.skip("unix://"@.len() as int) })
    } else if "vsock://"@.is_prefix_of(text) {
        read_vsock(text.skip("vsock://"@.len() as int))
    } else {
        Err(TransportError::UnknownScheme)
    }
}

/// The result is that address, or that error.
pub open spec fn is_transport(
    expected: Result<TransportModel, TransportError>,
    result: Result<Transport, TransportError>,
) -> bool {
    match expected {
        Ok(t) => result matches Ok(r) && r@ == t,
        Err(e) => result matches Err(r) && r == e,
    }
}

/// Reads `host:port`.
fn parse_inet(address: &str) -> (result: Result<Transport, TransportError>)
    ensures
        is_transport(read_inet(address@), result),
{
    match text::split_at_colon(address) {
        None => Err(TransportError::MissingPort),
        Some((host, port)) => match text::parse_number(port.as_str(), 65535) {
            Err(e) => Err(TransportError::Port(e)),
            Ok(port) => Ok(Transport::Inet { host, port: port as u16 }),
        },
    }
}

/// Reads `cid:port`.
fn parse_vsock(address: &str) -> (result: Result<Transport, TransportError>)
    ensures
        is_transport(read_vsock(address@), result),
{
    match text::split_at_colon(address) {
        None => Err(TransportError::MissingPort),
        Some((cid, port)) => match text::parse_number(cid.as_str(), 4294967295) {
            Err(e) => Err(TransportError::Cid(e)),
            Ok(cid) => match text::parse_number(port.as_str(), 4294967295) {
                Err(e) => Err(TransportError::Port(e)),
                Ok(port) => Ok(Transport::Vsock { cid: cid as u32, port: port as u32 }),
            },
        },
    }
}

impl Transport {
    /// Reads an address: `inet://host:port`, `unix:///path` or `vsock://cid:port`.
    pub fn parse(text: &str) -> (result: Result<Transport, TransportError>)
        ensures
            is_transport(read(text@), result),
    {
        if let Some(address) = text::strip_prefix(text, "inet://") {
            return parse_inet(address.as_str());
        }
        if let Some(path) = text::strip_prefix(text, "unix://") {
            return Ok(Transport::Unix { path });
        }
        if let Some(address) = text::strip_prefix(text, "vsock://") {
            return parse_vsock(address.as_str());
        }
        Err(TransportError::UnknownScheme)
    }

    /// Writes the address, as `parse` reads it.
    pub fn to_text(&self) -> (text: String)
        ensures
            text@ == written(self@),
    {
        match self {
            Transport::Inet { host, port } => {
                let mut text: String = "inet://".to_owned();
                let address: String = socket_address(host.as_str(), *port);
                text.append(address.as_str());
                text
            },
            Transport::Unix { path } => {
                let mut text: String = "unix://".to_owned();
                text.append(path.as_str());
                text
            },
            Transport::Vsock { cid, port } => {
                let mut text: String = "vsock://".to_owned();
                let left: String = text::to_decimal(*cid as u128);
                let right: String = text::to_decimal(*port as u128);
                text.append(left.as_str());
                text.append(":");
                text.append(right.as_str());
                proof {
                    reveal_strlit(":");
                    assert(text@ =~= written(self@));
                }
                text
            },
        }
    }
}

/// Writes `host:port`.
pub fn socket_address(host: &str, port: u16) -> (address: String)
    ensures
        address@ == host@.push(':') + text::decimal(port as nat),
{
    let mut address: String = host.to_owned();
    let number: String = text::to_decimal(port as u128);
    address.append(":");
    address.append(number.as_str());
    proof {
        reveal_strlit(":");
        assert(address@ =~= host@.push(':') + text::decimal(port as nat));
    }
    address
}

/// A host that can be told from its port, or an address without a host.
pub open spec fn is_readable(transport: TransportModel) -> bool {
    transport matches TransportModel::Inet { host, port } ==> !host.contains(':')
}

/// What `to_text` writes is read back as the same address.
pub proof fn law_parse_undoes_to_text(transport: TransportModel)
    requires
        is_readable(transport),
    ensures
        read(written(transport)) == Ok::<TransportModel, TransportError>(transport),
{
    reveal_strlit("inet://");
    reveal_strlit("unix://");
    reveal_strlit("vsock://");
    let text = written(transport);
    match transport {
        TransportModel::Inet { host, port } => {
            let behind = text::decimal(port as nat);
            lemma_decimal_has_no_colon(port as nat);
            text::lemma_decimal(port as nat, u16::MAX as nat);
            text::lemma_around_colon(host, behind);
            assert(text.skip("inet://"@.len() as int) =~= host.push(':') + behind);
            assert("inet://"@.is_prefix_of(text)) by {
                assert(text.subrange(0, "inet://"@.len() as int) =~= "inet://"@);
            }
        },
        TransportModel::Unix { path } => {
            assert(text.skip("unix://"@.len() as int) =~= path);
            assert("unix://"@.is_prefix_of(text)) by {
                assert(text.subrange(0, "unix://"@.len() as int) =~= "unix://"@);
            }
            assert(text[0] == 'u');
            assert(!"inet://"@.is_prefix_of(text));
        },
        TransportModel::Vsock { cid, port } => {
            let before = text::decimal(cid as nat);
            let behind = text::decimal(port as nat);
            lemma_decimal_has_no_colon(cid as nat);
            lemma_decimal_has_no_colon(port as nat);
            text::lemma_decimal(cid as nat, u32::MAX as nat);
            text::lemma_decimal(port as nat, u32::MAX as nat);
            text::lemma_around_colon(before, behind);
            assert(text.skip("vsock://"@.len() as int) =~= before.push(':') + behind);
            assert("vsock://"@.is_prefix_of(text)) by {
                assert(text.subrange(0, "vsock://"@.len() as int) =~= "vsock://"@);
            }
            assert(text[0] == 'v');
            assert(!"inet://"@.is_prefix_of(text));
            assert(!"unix://"@.is_prefix_of(text));
        },
    }
}

/// Decimal notation holds no colon.
pub(crate) proof fn lemma_decimal_has_no_colon(n: nat)
    ensures
        !text::decimal(n).contains(':'),
{
    text::lemma_decimal(n, n);
    let digits = text::decimal(n);
    if digits.contains(':') {
        assert(text::is_digit(digits[digits.index_of(':')]));
    }
}

/// What the operating system offers.
#[derive(Debug, Clone, Copy)]
pub struct Platform {
    /// Sockets in the file system.
    pub unix: bool,
    /// Sockets between a virtual machine and its host.
    pub vsock: bool,
}

/// The addresses of a list.
pub open spec fn models(transports: Seq<Transport>) -> Seq<TransportModel> {
    Seq::new(transports.len(), |i: int| transports[i]@)
}

/// The socket in the file system, where it is enabled and there are such.
pub open spec fn enabled_unix(config: TransportConfig, platform: Platform) -> Seq<TransportModel> {
    if config.enable_unix && platform.unix {
        seq![TransportModel::Unix { path: config.unix_socket_path@ }]
    } else {
        Seq::empty()
    }
}

/// The TCP socket, where it is enabled. An address without exactly one colon counts for
/// nothing, but a port that is no number is an error.
pub open spec fn enabled_inet(config: TransportConfig) -> Result<
    Seq<TransportModel>,
    TransportError,
> {
    if config.enable_inet {
        match read_inet(config.inet_address@) {
            Ok(t) => Ok(seq![t]),
            Err(TransportError::MissingPort) => Ok(Seq::empty()),
            Err(e) => Err(e),
        }
    } else {
        Ok(Seq::empty())
    }
}

/// The socket to other machines, where it is enabled and there are such.
pub open spec fn enabled_vsock(config: TransportConfig, platform: Platform) -> Seq<
    TransportModel,
> {
    if config.enable_vsock && platform.vsock {
        seq![TransportModel::Vsock { cid: config.vsock_cid, port: config.vsock_port }]
    } else {
        Seq::empty()
    }
}

/// The addresses that a configuration enables, of which there must be one.
pub open spec fn enabled(config: TransportConfig, platform: Platform) -> Result<
    Seq<TransportModel>,
    TransportError,
> {
    match enabled_inet(config) {
        Err(e) => Err(e),
        Ok(inet) => {
            let all = enabled_unix(config, platform) + inet + enabled_vsock(config, platform);
            if all.len() == 0 {
                Err(TransportError::NoneEnabled)
            } else {
                Ok(all)
            }
        },
    }
}

/// The addresses that the daemon listens on: the one that was given, or else those of
/// the configuration.
pub open spec fn selected(
    given: Option<Seq<char>>,
    config: TransportConfig,
    platform: Platform,
) -> Result<Seq<TransportModel>, TransportError> {
    match given {
        Some(text) => match read(text) {
            Ok(t) => Ok(seq![t]),
            Err(e) => Err(e),
        },
        None => enabled(config, platform),
    }
}

/// Decides which addresses the daemon listens on.
pub fn select_transports(
    given: &Option<String>,
    config: &TransportConfig,
    platform: Platform,
) -> (result: Result<Vec<Transport>, TransportError>)
    ensures
        match selected(text::optional_text(*given), *config, platform) {
            Ok(all) => result matches Ok(r) && models(r@) == all,
            Err(e) => result matches Err(r) && r == e,
        },
{
    let mut transports: Vec<Transport> = Vec::new();
    if let Some(text) = given {
        match Transport::parse(text.as_str()) {
            Err(e) => {
                return Err(e);
            },
            Ok(transport) => {
                transports.push(transport);
                assert(models(transports@) =~= seq![transport@]);
                return Ok(transports);
            },
        }
    }
    if config.enable_unix && platform.unix {
        transports.push(Transport::Unix { path: config.unix_socket_path.clone() });
    }
    assert(models(transports@) =~= enabled_unix(*config, platform));
    let ghost unix = models(transports@);
    let ghost mut inet: Seq<TransportModel> = Seq::empty();
    if config.enable_inet {
        match parse_inet(config.inet_address.as_str()) {
            Ok(transport) => {
                proof {
                    inet = seq![transport@];
                }
                transports.push(transport);
            },
            Err(TransportError::MissingPort) => {},
            Err(e) => {
                return Err(e);
            },
        }
    }
    assert(models(transports@) =~= unix + inet);
    if config.enable_vsock && platform.vsock {
        transports.push(Transport::Vsock { cid: config.vsock_cid, port: config.vsock_port });
    }
    assert(models(transports@) =~= unix + inet + enabled_vsock(*config, platform));
    if transports.len() == 0 {
        return Err(TransportError::NoneEnabled);
    }
    Ok(transports)
}

/// Without an address on the command line, a configuration that says nothing about
/// addresses makes the daemon listen on its socket in the file system alone.
pub proof fn law_default_is_the_unix_socket(config: TransportConfig, platform: Platform)
    requires
        config.is_default(),
        platform.unix,
    ensures
        selected(None, config, platform) == Ok::<Seq<TransportModel>, TransportError>(
            seq![TransportModel::Unix { path: "/tmp/cirond.sock"@ }],
        ),
{
    let all = enabled_unix(config, platform) + Seq::<TransportModel>::empty() + enabled_vsock(
        config,
        platform,
    );
    assert(all =~= seq![TransportModel::Unix { path: "/tmp/cirond.sock"@ }]);
}

} // verus!
