//! Where the daemon listens.

use crate::config::TransportConfig;
use crate::text::{self, NumberError};
use crate::transport::{self, Platform, Transport, TransportError, TransportModel};
use vstd::prelude::*;

verus! {

/// The daemon listens at that address, among others.
pub open spec fn listens_at(transports: Seq<Transport>, address: TransportModel) -> bool {
    exists|i: int| 0 <= i < transports.len() && (#[trigger] transports[i])@ == address
}

/// Without an address on the command line the daemon listens at the configured path where
/// the Unix socket is enabled, at the configured host and port where the network is, and
/// with the configured context and port where vsock is, as far as the platform has them;
/// and nowhere else.
pub proof fn law_configured_addresses_are_used(
    config: TransportConfig,
    platform: Platform,
    result: Result<Vec<Transport>, TransportError>,
    host: Seq<char>,
    port: u16,
)
    requires
        call_ensures(transport::select_transports, (&None, &config, platform), result),
        !host.contains(':'),
        config.inet_address@ == host.push(':') + text::decimal(port as nat),
    ensures
        result is Ok <==> (config.enable_unix && platform.unix) || config.enable_inet || (
        config.enable_vsock && platform.vsock),
        result is Err ==> result->Err_0 is NoneEnabled,
        result matches Ok(transports) ==> {
            let unix = TransportModel::Unix { path: config.unix_socket_path@ };
            let inet = TransportModel::Inet { host, port };
            let vsock = TransportModel::Vsock { cid: config.vsock_cid, port: config.vsock_port };
            &&& listens_at(transports@, unix) <==> config.enable_unix && platform.unix
            &&& listens_at(transports@, inet) <==> config.enable_inet
            &&& listens_at(transports@, vsock) <==> config.enable_vsock && platform.vsock
            &&& forall|i: int|
                0 <= i < transports@.len() ==> (#[trigger] transports@[i])@ == unix
                    || transports@[i]@ == inet || transports@[i]@ == vsock
            &&& forall|i: int, j: int|
                0 <= i < j < transports@.len() ==> (#[trigger] transports@[i])@ != (
                #[trigger] transports@[j])@
        },
{
    lemma_inet(host, port);
    lemma_selected(config, platform, result);
    if result is Ok {
        let all = transport::models(result->Ok_0@);
        let unix = transport::enabled_unix(config, platform);
        let inet = transport::enabled_inet(config)->Ok_0;
        let vsock = transport::enabled_vsock(config, platform);
        if unix.len() > 0 {
            assert(all[0] == unix[0]);
        }
        if inet.len() > 0 {
            assert(all[unix.len() as int] == inet[0]);
        }
        if vsock.len() > 0 {
            assert(all[(unix.len() + inet.len()) as int] == vsock[0]);
        }
        assert forall|i: int| 0 <= i < all.len() implies {
            &&& i < unix.len() ==> #[trigger] all[i] == unix[0]
            &&& unix.len() <= i < unix.len() + inet.len() ==> all[i] == inet[0]
            &&& unix.len() + inet.len() <= i ==> all[i] == vsock[0]
        } by {}
    }
}

/// The list of addresses, taken apart.
proof fn lemma_selected(
    config: TransportConfig,
    platform: Platform,
    result: Result<Vec<Transport>, TransportError>,
)
    requires
        call_ensures(transport::select_transports, (&None, &config, platform), result),
    ensures
        result matches Ok(transports) ==> {
            let all = transport::models(transports@);
            &&& transport::enabled_inet(config) is Ok
            &&& all == transport::enabled_unix(config, platform) + transport::enabled_inet(
                config,
            )->Ok_0 + transport::enabled_vsock(config, platform)
            &&& forall|i: int|
                0 <= i < transports@.len() ==> (#[trigger] transports@[i])@ == all[i]
            &&& forall|m: TransportModel| #[trigger]
                listens_at(transports@, m) <==> all.contains(m)
            &&& transports@.len() == all.len()
        },
{
    if let Ok(transports) = result {
        let all = transport::models(transports@);
        assert forall|m: TransportModel| #[trigger]
            listens_at(transports@, m) <==> all.contains(m) by {
            if all.contains(m) {
                let i = all.index_of(m);
                assert(transports@[i]@ == m);
            }
            if listens_at(transports@, m) {
                let i = choose|i: int|
                    0 <= i < transports@.len() && (#[trigger] transports@[i])@ == m;
                assert(all[i] == m);
            }
        }
    }
}

/// `host:port` is read as host and port.
proof fn lemma_inet(host: Seq<char>, port: u16)
    requires
        !host.contains(':'),
    ensures
        transport::read_inet(host.push(':') + text::decimal(port as nat)) == Ok::<
            TransportModel,
            TransportError,
        >(TransportModel::Inet { host, port }),
{
    transport::lemma_decimal_has_no_colon(port as nat);
    text::lemma_decimal(port as nat, u16::MAX as nat);
    text::lemma_around_colon(host, text::decimal(port as nat));
}

/// Whatever the network address says, the configured path and the configured vsock address
/// are used where they are enabled and the daemon listens at all. Without the network it
/// listens if one of the two can be used.
pub proof fn law_other_addresses_do_not_depend_on_the_network(
    config: TransportConfig,
    platform: Platform,
    result: Result<Vec<Transport>, TransportError>,
)
    requires
        call_ensures(transport::select_transports, (&None, &config, platform), result),
    ensures
        result is Ok ==> {
            let unix = TransportModel::Unix { path: config.unix_socket_path@ };
            let vsock = TransportModel::Vsock { cid: config.vsock_cid, port: config.vsock_port };
            &&& config.enable_unix && platform.unix ==> listens_at(result->Ok_0@, unix)
            &&& config.enable_vsock && platform.vsock ==> listens_at(result->Ok_0@, vsock)
            &&& result->Ok_0@.len() > 0
        },
        !config.enable_inet ==> (result is Ok <==> (config.enable_unix && platform.unix) || (
        config.enable_vsock && platform.vsock)),
        result is Err ==> result->Err_0 is NoneEnabled || (config.enable_inet
            && result->Err_0 is Port),
{
    lemma_selected(config, platform, result);
    if result is Ok {
        let all = transport::models(result->Ok_0@);
        let unix = transport::enabled_unix(config, platform);
        let inet = transport::enabled_inet(config)->Ok_0;
        let vsock = transport::enabled_vsock(config, platform);
        if unix.len() > 0 {
            assert(all[0] == unix[0]);
        }
        if vsock.len() > 0 {
            assert(all[(unix.len() + inet.len()) as int] == vsock[0]);
        }
    }
}

/// A network address without a colon, or with several, is passed over.
pub proof fn law_address_without_a_port_is_passed_over(
    config: TransportConfig,
    other: TransportConfig,
    platform: Platform,
    result: Result<Vec<Transport>, TransportError>,
    without: Result<Vec<Transport>, TransportError>,
    i: int,
    j: int,
)
    requires
        call_ensures(transport::select_transports, (&None, &config, platform), result),
        call_ensures(transport::select_transports, (&None, &other, platform), without),
        !config.inet_address@.contains(':') || (0 <= i < j < config.inet_address@.len()
            && config.inet_address@[i] == ':' && config.inet_address@[j] == ':'),
        other == (TransportConfig { enable_inet: false, ..config }),
    ensures
        result is Ok <==> without is Ok,
        result is Ok ==> {
            &&& result->Ok_0@.len() == without->Ok_0@.len()
            &&& forall|k: int|
                0 <= k < result->Ok_0@.len() ==> (#[trigger] result->Ok_0@[k])@
                    == without->Ok_0@[k]@
        },
{
    lemma_no_single_colon(config.inet_address@, i, j);
    lemma_selected(config, platform, result);
    lemma_selected(other, platform, without);
}

/// No colon, or two of them, are not one.
proof fn lemma_no_single_colon(text: Seq<char>, i: int, j: int)
    requires
        !text.contains(':') || (0 <= i < j < text.len() && text[i] == ':' && text[j] == ':'),
    ensures
        text::around_colon(text) is None,
{
    if text.contains(':') {
        let k = text.index_of(':');
        if i < k {
            assert(text.take(k)[i] == ':');
        } else {
            assert(text.skip(k + 1)[j - k - 1] == ':');
        }
    }
}

/// An address on the command line is the only one used, whatever the configuration says,
/// and it is the one that the text is parsed as.
pub proof fn law_given_address_counts_alone(
    given: Option<String>,
    config: TransportConfig,
    platform: Platform,
    result: Result<Vec<Transport>, TransportError>,
    text: &str,
    parsed: Result<Transport, TransportError>,
)
    requires
        given is Some,
        given->0@ == text@,
        call_ensures(transport::select_transports, (&given, &config, platform), result),
        call_ensures(Transport::parse, (text,), parsed),
    ensures
        result is Ok <==> parsed is Ok,
        result is Ok ==> result->Ok_0@.len() == 1 && result->Ok_0@[0]@ == parsed->Ok_0@,
        result is Err ==> result->Err_0 == parsed->Err_0,
{
    if result is Ok {
        assert(transport::models(result->Ok_0@).len() == 1);
        assert(transport::models(result->Ok_0@)[0] == result->Ok_0@[0]@);
    }
}

/// `unix://` and a path, `inet://host:port` and `vsock://cid:port` are read as what they
/// say.
pub proof fn law_addresses_are_read(
    text: &str,
    result: Result<Transport, TransportError>,
    path: Seq<char>,
    host: Seq<char>,
    port: u16,
    cid: u32,
    far_port: u32,
)
    requires
        call_ensures(Transport::parse, (text,), result),
        !host.contains(':'),
    ensures
        text@ == "unix://"@ + path ==> (result matches Ok(t) && t@ == TransportModel::Unix { path }),
        text@ == "inet://"@ + (host.push(':') + text::decimal(port as nat)) ==> (result matches Ok(
            t,
        ) && t@ == TransportModel::Inet { host, port }),
        text@ == "vsock://"@ + (text::decimal(cid as nat).push(':') + text::decimal(
            far_port as nat,
        )) ==> (result matches Ok(t) && t@ == TransportModel::Vsock { cid, port: far_port }),
{
    transport::law_parse_undoes_to_text(TransportModel::Unix { path });
    transport::law_parse_undoes_to_text(TransportModel::Inet { host, port });
    transport::law_parse_undoes_to_text(TransportModel::Vsock { cid, port: far_port });
}

/// An address is written as what it is, and read back as the same.
pub proof fn law_addresses_are_written_and_read_back(
    address: Transport,
    text: String,
    again: &str,
    result: Result<Transport, TransportError>,
)
    requires
        call_ensures(Transport::to_text, (&address,), text),
        again@ == text@,
        call_ensures(Transport::parse, (again,), result),
    ensures
        address@ matches TransportModel::Unix { path } ==> text@ == "unix://"@ + path,
        address@ matches TransportModel::Inet { host, port } ==> text@ == "inet://"@ + (host.push(
            ':',
        ) + text::decimal(port as nat)),
        address@ matches TransportModel::Vsock { cid, port } ==> text@ == "vsock://"@ + (
        text::decimal(cid as nat).push(':') + text::decimal(port as nat)),
        (address@ matches TransportModel::Inet { host, port } ==> !host.contains(':')) ==> (
        result matches Ok(t) && t@ == address@),
{
    if address@ matches TransportModel::Inet { host, port } ==> !host.contains(':') {
        transport::law_parse_undoes_to_text(address@);
    }
}

/// A text that begins with none of the three schemes is no address, and a network address
/// without exactly one colon has no port.
pub proof fn law_other_texts_are_no_addresses(
    text: &str,
    result: Result<Transport, TransportError>,
    rest: Seq<char>,
    i: int,
    j: int,
)
    requires
        call_ensures(Transport::parse, (text,), result),
    ensures
        result matches Ok(t) ==> "inet://"@.is_prefix_of(text@) || "unix://"@.is_prefix_of(text@)
            || "vsock://"@.is_prefix_of(text@),
        result matches Ok(t) ==> (t@ is Inet ==> "inet://"@.is_prefix_of(text@)) && (t@ is Unix
            ==> "unix://"@.is_prefix_of(text@)) && (t@ is Vsock ==> "vsock://"@.is_prefix_of(text@)),
        result matches Err(TransportError::UnknownScheme) <==> !"inet://"@.is_prefix_of(text@)
            && !"unix://"@.is_prefix_of(text@) && !"vsock://"@.is_prefix_of(text@),
        text@ == "inet://"@ + rest && (!rest.contains(':') || (0 <= i < j < rest.len() && rest[i]
            == ':' && rest[j] == ':')) ==> (result matches Err(TransportError::MissingPort)),
{
    reveal_strlit("inet://");
    if text@ == "inet://"@ + rest && (!rest.contains(':') || (0 <= i < j < rest.len() && rest[i]
        == ':' && rest[j] == ':')) {
        assert(text@.skip("inet://"@.len() as int) =~= rest);
        assert("inet://"@.is_prefix_of(text@)) by {
            assert(text@.subrange(0, "inet://"@.len() as int) =~= "inet://"@);
        }
        lemma_no_single_colon(rest, i, j);
    }
}

/// Host and port are written with a colon between them.
pub proof fn law_socket_address(host: &str, port: u16, address: String)
    requires
        call_ensures(transport::socket_address, (host, port), address),
    ensures
        host@.is_prefix_of(address@),
        address@.len() > host@.len(),
        address@[host@.len() as int] == ':',
        text::parsed(address@.skip((host@.len() + 1) as int), u16::MAX as nat) == Ok::<nat, NumberError>(
            port as nat,
        ),
{
    text::lemma_decimal(port as nat, u16::MAX as nat);
    assert(address@.subrange(0, host@.len() as int) =~= host@);
    assert(address@.skip((host@.len() + 1) as int) =~= text::decimal(port as nat));
}

} // verus!
