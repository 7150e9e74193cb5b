//! What a configuration means.

use crate::config::{
    self, ConfigError, GlobalConfig, GlobalSettings, ProgramConfig, ProgramSettings,
    TransportConfig, TransportSettings,
};
use vstd::prelude::*;

verus! {

/// What is written about a program counts, and nothing is made up: a switch that is not
/// written is off, and a list that is not written is missing.
pub open spec fn says_what_was_written(config: ProgramConfig, written: ProgramSettings) -> bool {
    &&& written.command is Some && config.command@ == written.command->0@
    &&& config.autostart <==> written.autostart == Some(true)
    &&& config.log_forward <==> written.log_forward == Some(true)
    &&& config.restart == written.restart
    &&& config.env == written.env
    &&& config.after == written.after
    &&& config.wants == written.wants
}

/// A program is complete exactly if it has a command, and then it is what was written.
pub proof fn law_program_is_what_was_written(
    written: ProgramSettings,
    config: Option<ProgramConfig>,
)
    requires
        call_ensures(ProgramConfig::complete, (written,), config),
    ensures
        config is Some <==> written.command is Some,
        config matches Some(c) ==> says_what_was_written(c, written),
{
}

/// Each address that is written counts; those that are not have their defaults. Unless
/// they are turned on, the daemon is not reached by network or vsock; unless it is turned
/// off, it is reached by its Unix socket.
pub proof fn law_addresses_are_what_was_written(
    written: TransportSettings,
    config: TransportConfig,
)
    requires
        call_ensures(TransportConfig::complete, (written,), config),
    ensures
        config.enable_unix <==> written.enable_unix != Some(false),
        config.enable_inet <==> written.enable_inet == Some(true),
        config.enable_vsock <==> written.enable_vsock == Some(true),
        written.unix_socket_path matches Some(path) ==> config.unix_socket_path@ == path@,
        written.unix_socket_path is None ==> config.unix_socket_path@ == "/tmp/cirond.sock"@,
        written.inet_address matches Some(address) ==> config.inet_address@ == address@,
        written.inet_address is None ==> config.inet_address@ == "127.0.0.1:50051"@,
        written.vsock_cid matches Some(cid) ==> config.vsock_cid == cid,
        written.vsock_cid is None ==> config.vsock_cid == u32::MAX,
        written.vsock_port matches Some(port) ==> config.vsock_port == port,
        written.vsock_port is None ==> config.vsock_port == 50051,
{
}

/// No section about addresses means the same as an empty one.
pub proof fn law_missing_section_is_an_empty_one(
    written: TransportSettings,
    completed: TransportConfig,
    default: TransportConfig,
)
    requires
        call_ensures(TransportConfig::complete, (written,), completed),
        call_ensures(<TransportConfig as Default>::default, (), default),
        written.enable_unix is None,
        written.unix_socket_path is None,
        written.enable_inet is None,
        written.inet_address is None,
        written.enable_vsock is None,
        written.vsock_cid is None,
        written.vsock_port is None,
    ensures
        completed.enable_unix == default.enable_unix,
        completed.unix_socket_path@ == default.unix_socket_path@,
        completed.enable_inet == default.enable_inet,
        completed.inet_address@ == default.inet_address@,
        completed.enable_vsock == default.enable_vsock,
        completed.vsock_cid == default.vsock_cid,
        completed.vsock_port == default.vsock_port,
{
}

/// A configuration is accepted exactly if it has programs, each with a command. Then every
/// program is in it under its name, as it was written, in the same order, and nothing
/// else. Otherwise the first program without a command is named.
pub proof fn law_configuration_is_what_was_written(
    written: GlobalSettings,
    result: Result<GlobalConfig, ConfigError>,
)
    requires
        call_ensures(config::load_config, (written,), result),
    ensures
        result is Ok <==> written.program is Some && forall|i: int|
            0 <= i < written.program->0@.len() ==> (#[trigger] written.program->0@[i]).1.command is Some,
        result matches Ok(c) ==> {
            let programs = written.program->0@;
            &&& c.log_level == written.log_level
            &&& c.program@.len() == programs.len()
            &&& forall|i: int|
                0 <= i < programs.len() ==> (#[trigger] c.program@[i]).0@ == programs[i].0@
                    && says_what_was_written(c.program@[i].1, programs[i].1)
        },
        written.program is None ==> result matches Err(ConfigError::MissingPrograms),
        result matches Err(ConfigError::MissingCommand(name)) ==> exists|i: int|
            {
                &&& 0 <= i < written.program->0@.len()
                &&& (#[trigger] written.program->0@[i]).0@ == name@
                &&& written.program->0@[i].1.command is None
                &&& forall|j: int|
                    0 <= j < i ==> (#[trigger] written.program->0@[j]).1.command is Some
            },
{
    if let Ok(c) = result {
        let programs = written.program->0@;
        assert forall|i: int| 0 <= i < programs.len() implies (
        #[trigger] programs[i]).1.command is Some by {
            assert(c.program@[i].1.is_completed(programs[i].1));
        }
    }
    if let Err(ConfigError::MissingCommand(name)) = result {
        let all = written.program->0@;
        assert(config::first_without_command(all, name@));
    }
}

/// What is written about addresses reaches the configuration.
pub proof fn law_configuration_holds_the_addresses(
    written: GlobalSettings,
    result: Result<GlobalConfig, ConfigError>,
    section: TransportSettings,
    alone: TransportConfig,
    default: TransportConfig,
)
    requires
        call_ensures(config::load_config, (written,), result),
        call_ensures(TransportConfig::complete, (section,), alone),
        call_ensures(<TransportConfig as Default>::default, (), default),
        result is Ok,
    ensures
        written.transport == Some(section) ==> same_addresses(result->Ok_0.transport, alone),
        written.transport is None ==> same_addresses(result->Ok_0.transport, default),
{
}

/// The daemon is reached in the same way.
pub open spec fn same_addresses(one: TransportConfig, two: TransportConfig) -> bool {
    &&& one.enable_unix == two.enable_unix
    &&& one.unix_socket_path@ == two.unix_socket_path@
    &&& one.enable_inet == two.enable_inet
    &&& one.inet_address@ == two.inet_address@
    &&& one.enable_vsock == two.enable_vsock
    &&& one.vsock_cid == two.vsock_cid
    &&& one.vsock_port == two.vsock_port
}

} // verus!
