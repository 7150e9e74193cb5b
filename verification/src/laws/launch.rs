//! From a command line to a process.

use crate::command::{self, CommandSpec};
use crate::config::ProgramConfig;
use crate::error::ProcessError;
use crate::process::{Launch, ProcessManager};
use crate::text;
use vstd::prelude::*;

verus! {

/// The process gets exactly the variables that the program is configured with, each with
/// its value, in the order of the configuration.
pub open spec fn has_the_variables(command: CommandSpec, config: ProgramConfig) -> bool {
    match config.env {
        None => command.env@.len() == 0,
        Some(env) => {
            &&& command.env@.len() == env@.len()
            &&& forall|i: int|
                0 <= i < env@.len() ==> (#[trigger] command.env@[i]).0@ == env@[i].0@
                    && command.env@[i].1@ == env@[i].1@
        },
    }
}

/// The first word is the program, and the others are its arguments, in their order.
pub open spec fn has_the_words(command: CommandSpec, words: Seq<Seq<char>>) -> bool {
    &&& words.len() == command.args@.len() + 1
    &&& command.program@ == words[0]
    &&& forall|i: int| 0 <= i < command.args@.len() ==> (#[trigger] command.args@[i])@ == words[i + 1]
}

/// A command that runs some words has them, and the variables.
proof fn lemma_runs(command: CommandSpec, words: Seq<Seq<char>>, config: ProgramConfig)
    requires
        command.runs(words, config),
    ensures
        has_the_words(command, words),
        has_the_variables(command, config),
{
    let args = text::texts(command.args@);
    assert(args.len() == command.args@.len());
    assert forall|i: int| 0 <= i < command.args@.len() implies (#[trigger] command.args@[i])@
        == words[i + 1] by {
        assert(args[i] == words.skip(1)[i]);
    }
    let env = command::variables(command.env@);
    assert(env.len() == command.env@.len());
    if let Some(configured) = config.env {
        assert forall|i: int| 0 <= i < configured@.len() implies (
        #[trigger] command.env@[i]).0@ == configured@[i].0@ && command.env@[i].1@
            == configured@[i].1@ by {
            assert(env[i] == command::variables(configured@)[i]);
        }
    }
}

/// Words are launched as they are: the first is the program, the others are its
/// arguments, and every configured variable is set. Without words the command line is
/// called empty; one that could not be split is called wrong.
pub proof fn law_words_become_a_process(
    name: &str,
    config: ProgramConfig,
    words: Option<Vec<String>>,
    plan: Result<CommandSpec, ProcessError>,
)
    requires
        call_ensures(command::plan_command, (name, &config, words), plan),
    ensures
        plan is Ok <==> words is Some && words->0@.len() > 0,
        plan matches Ok(process) ==> {
            &&& process.args@.len() == words->0@.len() - 1
            &&& process.program@ == words->0@[0]@
            &&& forall|i: int|
                0 <= i < process.args@.len() ==> (#[trigger] process.args@[i])@ == words->0@[i
                    + 1]@
            &&& has_the_variables(process, config)
        },
        words is None ==> (plan matches Err(ProcessError::CommandSyntax(n)) && n@ == name@),
        words is Some && words->0@.len() == 0 ==> (plan matches Err(ProcessError::EmptyCommand(n))
            && n@ == name@),
{
    if let Ok(process) = plan {
        let texts = text::texts(words->0@);
        lemma_runs(process, texts, config);
        assert(texts.len() == words->0@.len());
        assert(texts[0] == words->0@[0]@);
        assert forall|i: int| 0 <= i < process.args@.len() implies (#[trigger] process.args@[i])@
            == words->0@[i + 1]@ by {
            assert(texts[i + 1] == words->0@[i + 1]@);
        }
    }
}

/// A word that a shell takes as it is.
pub open spec fn is_word(word: Seq<char>) -> bool {
    &&& word.len() > 0
    &&& forall|i: int|
        0 <= i < word.len() ==> #[trigger] word[i] != ' ' && word[i] != '\t' && word[i] != '\n'
            && word[i] != '\'' && word[i] != '"' && word[i] != '\\' && word[i] != '#'
}

/// The words, each with a space before it.
pub open spec fn spaced(words: Seq<Seq<char>>) -> Seq<char>
    decreases words.len(),
{
    if words.len() == 0 {
        Seq::empty()
    } else {
        spaced(words.drop_last()).push(' ') + words.last()
    }
}

/// One more word behind a space is one more word.
proof fn lemma_one_more_word(line: Seq<char>, word: Seq<char>)
    requires
        is_word(word),
    ensures
        command::separated(line.push(' ') + word) == command::separated(line).push(word),
    decreases word.len(),
{
    let whole = line.push(' ') + word;
    let front = word.drop_last();
    assert(whole.drop_last() =~= line.push(' ') + front);
    assert(whole.last() == word[word.len() - 1]);
    assert(!command::is_separator(whole.last()));
    if word.len() == 1 {
        assert(line.push(' ') + front =~= line.push(' '));
        assert(line.push(' ').drop_last() =~= line);
        assert(line.push(' ').last() == ' ');
        assert(command::separated(line.push(' ')) == command::separated(line));
        assert(whole[whole.len() - 2] == ' ');
        assert(seq![whole.last()] =~= word);
    } else {
        assert forall|i: int| 0 <= i < front.len() implies #[trigger] front[i] != ' ' && front[i]
            != '\t' && front[i] != '\n' && front[i] != '\'' && front[i] != '"' && front[i] != '\\'
            && front[i] != '#' by {
            assert(front[i] == word[i]);
        }
        lemma_one_more_word(line, front);
        let before = command::separated(line).push(front);
        assert(whole[whole.len() - 2] == word[word.len() - 2]);
        assert(!command::is_separator(whole[whole.len() - 2]));
        assert(before.drop_last() =~= command::separated(line));
        assert(front.push(word.last()) =~= word);
    }
}

/// Spaced words are simple, and split into themselves.
proof fn lemma_spaced(words: Seq<Seq<char>>)
    requires
        forall|i: int| 0 <= i < words.len() ==> is_word(#[trigger] words[i]),
    ensures
        command::is_simple(spaced(words)),
        command::separated(spaced(words)) == words,
    decreases words.len(),
{
    if words.len() == 0 {
        assert(command::separated(spaced(words)) =~= words);
    } else {
        let front = words.drop_last();
        let last = words.last();
        assert(last == words[words.len() - 1]);
        assert forall|i: int| 0 <= i < front.len() implies is_word(#[trigger] front[i]) by {
            assert(front[i] == words[i]);
        }
        lemma_spaced(front);
        lemma_one_more_word(spaced(front), last);
        assert(front.push(last) =~= words);
        let line = spaced(words);
        let before = spaced(front).push(' ');
        assert forall|i: int| 0 <= i < line.len() implies #[trigger] line[i] != '\'' && line[i]
            != '"' && line[i] != '\\' && line[i] != '#' by {
            if i < spaced(front).len() {
                assert(line[i] == spaced(front)[i]);
            } else if i > spaced(front).len() {
                assert(line[i] == last[i - before.len()]);
            }
        }
    }
}

/// A command line of plain words separated by spaces is launched word by word: the first
/// is the program, the others its arguments, and every configured variable is set.
pub proof fn law_plain_command_lines_are_launched_word_by_word(
    manager: ProcessManager,
    name: &str,
    launch: Result<Launch, ProcessError>,
    words: Seq<Seq<char>>,
)
    requires
        call_ensures(ProcessManager::start_process_single, (&manager, name), launch),
        manager@.contains_key(name@),
        !manager@[name@].running,
        words.len() > 0,
        forall|i: int| 0 <= i < words.len() ==> is_word(#[trigger] words[i]),
        manager@[name@].config.command@ == spaced(words),
    ensures
        launch matches Ok(Launch::Spawn(process)) && has_the_words(process, words)
            && has_the_variables(process, manager@[name@].config),
{
    lemma_spaced(words);
    if let Ok(Launch::Spawn(process)) = launch {
        lemma_runs(process, words, manager@[name@].config);
    }
}

/// Whatever is spawned gets the configured variables, and only a program that does not run
/// is spawned. A blank command line is called empty, and one without quotes never wrong.
pub proof fn law_launch(
    manager: ProcessManager,
    name: &str,
    launch: Result<Launch, ProcessError>,
)
    requires
        call_ensures(ProcessManager::start_process_single, (&manager, name), launch),
    ensures
        !manager@.contains_key(name@) ==> (launch matches Err(ProcessError::NotFound(n)) && n@
            == name@),
        manager@.contains_key(name@) && manager@[name@].running <==> (launch matches Ok(
            Launch::AlreadyRunning,
        )),
        launch matches Ok(Launch::Spawn(process)) ==> has_the_variables(
            process,
            manager@[name@].config,
        ),
        manager@.contains_key(name@) && !manager@[name@].running && (forall|i: int|
            0 <= i < manager@[name@].config.command@.len() ==> #[trigger]
            manager@[name@].config.command@[i] == ' ') ==> (launch matches Err(
            ProcessError::EmptyCommand(n),
        ) && n@ == name@),
        launch matches Err(ProcessError::CommandSyntax(n)) ==> n@ == name@ && (
        manager@[name@].config.command@.contains('\'') || manager@[name@].config.command@.contains(
            '"',
        )),
{
    if let Ok(Launch::Spawn(process)) = launch {
        let config = manager@[name@].config;
        lemma_runs(process, command::shell_words_of(config.command@)->0, config);
    }
    if manager@.contains_key(name@) {
        command::law_only_blank_lines_have_no_words(manager@[name@].config.command@);
    }
}

/// Splitting a simple line loses no character but the spaces, tabs and line ends, makes up
/// none, and makes no empty word.
pub proof fn law_words_hold_the_line(line: Seq<char>)
    ensures
        joined(command::separated(line)) == line.filter(|c: char| c != ' ' && c != '\t' && c != '\n'),
        forall|i: int|
            0 <= i < command::separated(line).len() ==> (#[trigger] command::separated(
                line,
            )[i]).len() > 0,
        line.len() > 0 && !command::is_separator(line.last()) ==> command::separated(line).len()
            > 0,
    decreases line.len(),
{
    reveal(Seq::filter);
    let keep = |c: char| c != ' ' && c != '\t' && c != '\n';
    let words = command::separated(line);
    if line.len() == 0 {
        assert(joined(words) =~= line.filter(keep));
    } else {
        let front = line.drop_last();
        let c = line.last();
        law_words_hold_the_line(front);
        let before = command::separated(front);
        if command::is_separator(c) {
        } else if line.len() == 1 || command::is_separator(line[line.len() - 2]) {
            assert(words.drop_last() =~= before);
            assert(joined(words) =~= joined(before).push(c));
        } else {
            assert(front.last() == line[line.len() - 2]);
            assert(before.len() > 0);
            assert(words.drop_last() =~= before.drop_last());
            assert(words.last() == before.last().push(c));
            assert(joined(words) =~= joined(before).push(c));
        }
    }
}

/// The words, one behind the other.
pub open spec fn joined(words: Seq<Seq<char>>) -> Seq<char>
    decreases words.len(),
{
    if words.len() == 0 {
        Seq::empty()
    } else {
        joined(words.drop_last()) + words.last()
    }
}

} // verus!
