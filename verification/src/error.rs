//! Why a request on a process is refused.

use vstd::prelude::*;
use vstd::string::*;

verus! {

/// Why a request on a process is refused. Each variant carries the name of the
/// program in question.
#[derive(Debug)]
pub enum ProcessError {
    /// No program of that name is configured.
    NotFound(String),
    /// The command line cannot be read.
    CommandSyntax(String),
    /// The command line holds no command.
    EmptyCommand(String),
    /// The operating system did not start the process.
    Spawn(String),
    /// The output of the process is not kept.
    LogForwardDisabled(String),
}

impl Clone for ProcessError {
    fn clone(&self) -> (copy: Self)
        ensures
            copy == *self,
    {
        match self {
            ProcessError::NotFound(name) => ProcessError::NotFound(name.clone()),
            ProcessError::CommandSyntax(name) => ProcessError::CommandSyntax(name.clone()),
            ProcessError::EmptyCommand(name) => ProcessError::EmptyCommand(name.clone()),
            ProcessError::Spawn(name) => ProcessError::Spawn(name.clone()),
            ProcessError::LogForwardDisabled(name) => ProcessError::LogForwardDisabled(
                name.clone(),
            ),
        }
    }
}

impl ProcessError {
    /// The program of that name is not configured.
    pub open spec fn is_not_found(self, name: Seq<char>) -> bool {
        self matches ProcessError::NotFound(n) && n@ == name
    }

    /// The command line of that program cannot be read.
    pub open spec fn is_command_syntax(self, name: Seq<char>) -> bool {
        self matches ProcessError::CommandSyntax(n) && n@ == name
    }

    /// The command line of that program is empty.
    pub open spec fn is_empty_command(self, name: Seq<char>) -> bool {
        self matches ProcessError::EmptyCommand(n) && n@ == name
    }

    /// That program could not be spawned.
    pub open spec fn is_spawn(self, name: Seq<char>) -> bool {
        self matches ProcessError::Spawn(n) && n@ == name
    }

    /// The output of that program is not kept.
    pub open spec fn is_log_forward_disabled(self, name: Seq<char>) -> bool {
        self matches ProcessError::LogForwardDisabled(n) && n@ == name
    }

    /// The error in words.
    pub open spec fn text(self) -> Seq<char> {
        match self {
            ProcessError::NotFound(name) => "Program "@ + name@ + " not found"@,
            ProcessError::CommandSyntax(name) => "Failed to parse command for "@ + name@,
            ProcessError::EmptyCommand(name) => "Empty command for "@ + name@,
            ProcessError::Spawn(name) => "Failed to spawn process "@ + name@,
            ProcessError::LogForwardDisabled(name) => "Log forwarding is disabled for process '"@
                + name@
                + "': set log_forward = true in its configuration to enable GetLogs/cironctl logs"@,
        }
    }

    /// The error in words.
    pub fn message(&self) -> (message: String)
        ensures
            message@ == self.text(),
    {
        match self {
            ProcessError::NotFound(name) => {
                let mut message: String = "Program ".to_owned();
                message.append(name.as_str());
                message.append(" not found");
                message
            },
            ProcessError::CommandSyntax(name) => {
                let mut message: String = "Failed to parse command for ".to_owned();
                message.append(name.as_str());
                message
            },
            ProcessError::EmptyCommand(name) => {
                let mut message: String = "Empty command for ".to_owned();
                message.append(name.as_str());
                message
            },
            ProcessError::Spawn(name) => {
                let mut message: String = "Failed to spawn process ".to_owned();
                message.append(name.as_str());
                message
            },
            ProcessError::LogForwardDisabled(name) => {
                let mut message: String = "Log forwarding is disabled for process '".to_owned();
                message.append(name.as_str());
                message.append(
                    "': set log_forward = true in its configuration to enable GetLogs/cironctl logs",
                );
                message
            },
        }
    }
}

} // verus!
