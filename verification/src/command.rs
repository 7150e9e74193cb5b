//! From a configured command line to what is handed to the operating system.

use crate::config::ProgramConfig;
use crate::error::ProcessError;
use crate::text;
use vstd::prelude::*;

verus! {

/// The error that `shell_words::split` returns, carried through unread.
#[verifier::external_type_specification]
#[verifier::external_body]
pub struct ExParseError(shell_words::ParseError);

/// The words that `shell_words::split` makes of a command line, or `None` where it
/// reports an unmatched quote.
pub uninterp spec fn shell_words_of(line: Seq<char>) -> Option<Seq<Seq<char>>>;

/// What separates words.
pub open spec fn is_separator(c: char) -> bool {
    c == ' ' || c == '\t' || c == '\n'
}

/// Nothing but spaces, tabs and line ends.
pub open spec fn is_blank(line: Seq<char>) -> bool {
    forall|i: int| 0 <= i < line.len() ==> is_separator(#[trigger] line[i])
}

/// No quote, backslash or `#`: spaces, tabs and line ends alone decide about the words.
pub open spec fn is_simple(line: Seq<char>) -> bool {
    forall|i: int|
        0 <= i < line.len() ==> #[trigger] line[i] != '\'' && line[i] != '"' && line[i] != '\\'
            && line[i] != '#'
}

/// The longest runs without a separator, from left to right.
pub open spec fn separated(line: Seq<char>) -> Seq<Seq<char>>
    decreases line.len(),
{
    if line.len() == 0 {
        Seq::empty()
    } else {
        let front = separated(line.drop_last());
        let c = line.last();
        if is_separator(c) {
            front
        } else if line.len() == 1 || is_separator(line[line.len() - 2]) {
            front.push(seq![c])
        } else {
            front.drop_last().push(front.last().push(c))
        }
    }
}

/// `shell_words::split` splits a command line into words as a Unix shell would, and
/// fails on an unmatched quote, so never where there is no quote. Its result depends on
/// the line alone. A line without quote, backslash and `#` is split at its spaces, tabs
/// and line ends.
pub assume_specification[ shell_words::split ](s: &str) -> (words: Result<
    Vec<String>,
    shell_words::ParseError,
>)
    ensures
        match words {
            Ok(w) => shell_words_of(s@) == Some(text::texts(w@)),
            Err(_) => shell_words_of(s@) is None,
        },
        words is Err ==> s@.contains('\'') || s@.contains('"'),
        is_simple(s@) ==> words is Ok && text::texts(words->Ok_0@) == separated(s@),
;

/// A simple line has no words exactly if it is blank.
pub proof fn law_only_blank_lines_have_no_words(line: Seq<char>)
    ensures
        separated(line).len() == 0 <==> is_blank(line),
    decreases line.len(),
{
    if line.len() > 0 {
        let front = line.drop_last();
        law_only_blank_lines_have_no_words(front);
        if is_blank(front) && is_separator(line.last()) {
            assert forall|i: int| 0 <= i < line.len() implies is_separator(#[trigger] line[i]) by {
                if i < front.len() {
                    assert(line[i] == front[i]);
                }
            }
        }
        if is_blank(line) {
            assert forall|i: int| 0 <= i < front.len() implies is_separator(
                #[trigger] front[i],
            ) by {
                assert(front[i] == line[i]);
            }
            assert(is_separator(line[line.len() - 1]));
        }
    }
}

/// A line without separators is its own only word.
pub proof fn law_word_is_left_whole(line: Seq<char>)
    requires
        line.len() > 0,
        forall|i: int| 0 <= i < line.len() ==> !is_separator(#[trigger] line[i]),
    ensures
        separated(line) == seq![line],
    decreases line.len(),
{
    let front = line.drop_last();
    assert(!is_separator(line[line.len() - 1]));
    if line.len() > 1 {
        assert forall|i: int| 0 <= i < front.len() implies !is_separator(#[trigger] front[i]) by {
            assert(front[i] == line[i]);
        }
        law_word_is_left_whole(front);
        assert(!is_separator(line[line.len() - 2]));
        assert(front.push(line.last()) =~= line);
        assert(separated(line) =~= seq![line]);
    } else {
        assert(separated(front) =~= Seq::empty());
        assert(line =~= seq![line.last()]);
        assert(separated(line) =~= seq![line]);
    }
}

/// A process as the operating system is asked to start it.
#[derive(Debug)]
pub struct CommandSpec {
    pub program: String,
    pub args: Vec<String>,
    /// Variables to set in the environment of the process.
    pub env: Vec<(String, String)>,
}

/// The texts of a list of variables.
pub open spec fn variables(env: Seq<(String, String)>) -> Seq<(Seq<char>, Seq<char>)> {
    Seq::new(env.len(), |i: int| (env[i].0@, env[i].1@))
}

/// The variables that a program is configured with.
pub open spec fn configured_variables(config: ProgramConfig) -> Seq<(Seq<char>, Seq<char>)> {
    match config.env {
        Some(env) => variables(env@),
        None => Seq::empty(),
    }
}

impl CommandSpec {
    /// The first word is the program, the others are its arguments, and the
    /// configured variables are set.
    pub open spec fn runs(self, words: Seq<Seq<char>>, config: ProgramConfig) -> bool {
        &&& words.len() > 0
        &&& self.program@ == words[0]
        &&& text::texts(self.args@) == words.skip(1)
        &&& variables(self.env@) == configured_variables(config)
    }
}

/// What a command line that was split into `words` asks the operating system for.
pub open spec fn is_plan(
    name: Seq<char>,
    config: ProgramConfig,
    words: Option<Seq<Seq<char>>>,
    plan: Result<CommandSpec, ProcessError>,
) -> bool {
    match words {
        None => plan matches Err(e) && e.is_command_syntax(name),
        Some(w) => if w.len() == 0 {
            plan matches Err(e) && e.is_empty_command(name)
        } else {
            plan matches Ok(command) && command.runs(w, config)
        },
    }
}

/// The texts of the words, if there are any.
pub open spec fn optional_texts(words: Option<Vec<String>>) -> Option<Seq<Seq<char>>> {
    match words {
        Some(w) => Some(text::texts(w@)),
        None => None,
    }
}

/// Decides what to ask the operating system for, once the command line of the
/// program `name` has been split into `words` (`None`: it could not be split).
pub fn plan_command(name: &str, config: &ProgramConfig, words: Option<Vec<String>>) -> (plan:
    Result<CommandSpec, ProcessError>)
    ensures
        is_plan(name@, *config, optional_texts(words), plan),
{
    match words {
        None => Err(ProcessError::CommandSyntax(name.to_owned())),
        Some(parts) => {
            if parts.len() == 0 {
                return Err(ProcessError::EmptyCommand(name.to_owned()));
            }
            let program: String = parts[0].clone();
            let mut args: Vec<String> = Vec::new();
            let mut i: usize = 1;
            while i < parts.len()
                invariant
                    1 <= i <= parts.len(),
                    args.len() == i - 1,
                    forall|j: int| 0 <= j < args.len() ==> (#[trigger] args[j])@ == parts[j + 1]@,
                decreases parts.len() - i,
            {
                args.push(parts[i].clone());
                i = i + 1;
            }
            let mut env: Vec<(String, String)> = Vec::new();
            if let Some(configured) = &config.env {
                let mut k: usize = 0;
                while k < configured.len()
                    invariant
                        k <= configured.len(),
                        env.len() == k,
                        forall|j: int|
                            0 <= j < k ==> (#[trigger] env[j]).0@ == configured[j].0@ && env[j].1@
                                == configured[j].1@,
                    decreases configured.len() - k,
                {
                    env.push((configured[k].0.clone(), configured[k].1.clone()));
                    k = k + 1;
                }
                assert(variables(env@) =~= variables(configured@));
            } else {
                assert(variables(env@) =~= Seq::empty());
            }
            assert(text::texts(args@) =~= text::texts(parts@).skip(1));
            Ok(CommandSpec { program, args, env })
        },
    }
}

/// Decides what to ask the operating system for, to start the program `name`.
pub fn command_for(name: &str, config: &ProgramConfig) -> (plan: Result<CommandSpec, ProcessError>)
    ensures
        is_plan(name@, *config, shell_words_of(config.command@), plan),
        is_simple(config.command@) ==> is_plan(
            name@,
            *config,
            Some(separated(config.command@)),
            plan,
        ),
        plan matches Err(e) && e.is_command_syntax(name@) ==> config.command@.contains('\'')
            || config.command@.contains('"'),
{
    let words: Option<Vec<String>> = match shell_words::split(config.command.as_str()) {
        Ok(parts) => Some(parts),
        Err(_) => None,
    };
    plan_command(name, config, words)
}

} // verus!
