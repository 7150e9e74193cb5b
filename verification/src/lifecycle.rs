//! What whole requests do to the table of programs.

use crate::command;
use crate::config::ProgramConfig;
use crate::error::ProcessError;
use crate::logs::LogLine;
use crate::process::{
    self, EventAction, ProcessEvent, ProcessModel, SpawnOutcome, StartModel, StartStep, Started,
};
use crate::start_order;
use vstd::prelude::*;

verus! {

/// The command line of the program can be read and is not empty.
pub open spec fn launchable(config: ProgramConfig) -> bool {
    command::shell_words_of(config.command@) matches Some(words) && words.len() > 0
}

/// The operating system did start the process.
pub open spec fn is_spawned(outcome: SpawnOutcome) -> bool {
    outcome is Spawned
}

/// The table after one program was dealt with in a request, where `spawn` says what
/// the operating system makes of each program.
pub open spec fn unit_started(
    programs: Map<Seq<char>, ProcessModel>,
    unit: Seq<char>,
    spawn: spec_fn(Seq<char>) -> SpawnOutcome,
) -> Map<Seq<char>, ProcessModel> {
    if programs.contains_key(unit) && !programs[unit].running && launchable(
        programs[unit].config,
    ) {
        match spawn(unit) {
            SpawnOutcome::Spawned(pid) => programs.insert(
                unit,
                process::started(programs[unit], pid),
            ),
            SpawnOutcome::Failed => programs,
        }
    } else {
        programs
    }
}

/// The table after all of `order` were dealt with.
pub open spec fn all_started(
    programs: Map<Seq<char>, ProcessModel>,
    order: Seq<Seq<char>>,
    spawn: spec_fn(Seq<char>) -> SpawnOutcome,
) -> Map<Seq<char>, ProcessModel>
    decreases order.len(),
{
    if order.len() == 0 {
        programs
    } else {
        unit_started(all_started(programs, order.drop_last(), spawn), order.last(), spawn)
    }
}

/// The table after a request to start `root`.
pub open spec fn request_done(
    programs: Map<Seq<char>, ProcessModel>,
    root: Seq<char>,
    spawn: spec_fn(Seq<char>) -> SpawnOutcome,
) -> Map<Seq<char>, ProcessModel> {
    all_started(programs, start_order::start_order(process::catalog(programs), root), spawn)
}

/// The program comes up if it is tried: it runs, or it can be launched and the
/// operating system starts it.
pub open spec fn comes_up(
    programs: Map<Seq<char>, ProcessModel>,
    name: Seq<char>,
    spawn: spec_fn(Seq<char>) -> SpawnOutcome,
) -> bool {
    programs[name].running || (launchable(programs[name].config) && is_spawned(spawn(name)))
}

/// A program once it was tried: as it was if it ran, could not be launched or was not
/// started by the operating system, and otherwise started, under the identifier that the
/// operating system gave it.
pub open spec fn tried(
    programs: Map<Seq<char>, ProcessModel>,
    name: Seq<char>,
    spawn: spec_fn(Seq<char>) -> SpawnOutcome,
) -> ProcessModel {
    match spawn(name) {
        SpawnOutcome::Spawned(pid) if !programs[name].running && launchable(
            programs[name].config,
        ) => process::started(programs[name], pid),
        _ => programs[name],
    }
}

/// Only what the processes do differs: the same programs of the same loadings, configured
/// alike, with the same lines kept.
pub open spec fn same_programs(
    programs: Map<Seq<char>, ProcessModel>,
    others: Map<Seq<char>, ProcessModel>,
) -> bool {
    &&& programs.dom() == others.dom()
    &&& forall|n: Seq<char>| #[trigger]
        programs.contains_key(n) ==> programs[n].config == others[n].config && programs[n].logs
            == others[n].logs && programs[n].generation == others[n].generation
}

/// Dealing with a list of programs brings up those that come up, and touches no other.
proof fn lemma_all_started(
    programs: Map<Seq<char>, ProcessModel>,
    order: Seq<Seq<char>>,
    spawn: spec_fn(Seq<char>) -> SpawnOutcome,
)
    requires
        order.no_duplicates(),
    ensures
        same_programs(programs, all_started(programs, order, spawn)),
        forall|n: Seq<char>| #[trigger]
            programs.contains_key(n) && !order.contains(n) ==> all_started(
                programs,
                order,
                spawn,
            )[n] == programs[n],
        forall|n: Seq<char>| #[trigger]
            programs.contains_key(n) && order.contains(n) ==> all_started(
                programs,
                order,
                spawn,
            )[n] == tried(programs, n, spawn),
    decreases order.len(),
{
    if order.len() > 0 {
        let front = order.drop_last();
        let last = order.last();
        lemma_all_started(programs, front, spawn);
        let before = all_started(programs, front, spawn);
        let after = all_started(programs, order, spawn);
        assert(order =~= front.push(last));
        assert(!front.contains(last));
        assert(programs.contains_key(last) <==> before.contains_key(last));
        assert(programs.dom() =~= after.dom());
        assert forall|n: Seq<char>| #[trigger] programs.contains_key(n) implies {
            &&& programs[n].config == after[n].config
            &&& programs[n].logs == after[n].logs
            &&& programs[n].generation == after[n].generation
            &&& !order.contains(n) ==> after[n] == programs[n]
            &&& order.contains(n) ==> after[n] == tried(programs, n, spawn)
        } by {
            start_order::lemma_push_contains(front, last, n);
        }
    }
}

/// Starting a program leaves everything that does not come with it as it was, and so
/// everything that runs already, which keeps its process. Whatever else comes with it is
/// tried, once: one that fails does not keep the others from starting.
pub proof fn law_start_request(
    programs: Map<Seq<char>, ProcessModel>,
    root: Seq<char>,
    spawn: spec_fn(Seq<char>) -> SpawnOutcome,
)
    requires
        programs.dom().finite(),
        programs.contains_key(root),
    ensures
        ({
            let units = process::catalog(programs);
            let after = request_done(programs, root, spawn);
            &&& same_programs(programs, after)
            &&& forall|n: Seq<char>| #[trigger]
                programs.contains_key(n) && !start_order::comes_with(units, root, n) ==> after[n]
                    == programs[n]
            &&& forall|n: Seq<char>| #[trigger]
                programs.contains_key(n) && start_order::comes_with(units, root, n)
                    ==> after[n] == tried(programs, n, spawn) && after[n].running == comes_up(
                    programs,
                    n,
                    spawn,
                )
            &&& forall|n: Seq<char>| #[trigger]
                programs.contains_key(n) && programs[n].running ==> after[n] == programs[n]
            &&& after[root] == tried(programs, root, spawn)
            &&& after[root].running == comes_up(programs, root, spawn)
        }),
{
    let units = process::catalog(programs);
    assert(units.dom() =~= programs.dom());
    start_order::law_start_order_is_complete(units, root);
    let order = start_order::start_order(units, root);
    lemma_all_started(programs, order, spawn);
    assert forall|n: Seq<char>| start_order::comes_with(units, root, n) == order.contains(n) by {}
}

/// The tables agree in everything but the lines that were kept.
pub open spec fn only_logs_differ(
    programs: Map<Seq<char>, ProcessModel>,
    others: Map<Seq<char>, ProcessModel>,
) -> bool {
    &&& programs.dom() == others.dom()
    &&& forall|n: Seq<char>| #[trigger]
        programs.contains_key(n) ==> others[n] == (ProcessModel {
            logs: others[n].logs,
            ..programs[n]
        })
}

/// Keeping a line changes nothing but the lines of that program.
pub proof fn law_lines_change_nothing_else(
    programs: Map<Seq<char>, ProcessModel>,
    name: Seq<char>,
    generation: u64,
    line: LogLine,
)
    ensures
        only_logs_differ(programs, process::with_line(programs, name, generation, line)),
        forall|n: Seq<char>|
            n != name ==> #[trigger] process::with_line(programs, name, generation, line)[n]
                == programs[n],
{
    assert(programs.dom() =~= process::with_line(programs, name, generation, line).dom());
}

/// Kept lines have no say in what one program of a request comes to.
proof fn lemma_unit_started_alike(
    programs: Map<Seq<char>, ProcessModel>,
    others: Map<Seq<char>, ProcessModel>,
    unit: Seq<char>,
    spawn: spec_fn(Seq<char>) -> SpawnOutcome,
)
    requires
        only_logs_differ(programs, others),
    ensures
        only_logs_differ(unit_started(programs, unit, spawn), unit_started(others, unit, spawn)),
{
    let one = unit_started(programs, unit, spawn);
    let two = unit_started(others, unit, spawn);
    assert(programs.contains_key(unit) <==> others.contains_key(unit));
    assert(one.dom() =~= two.dom());
    assert forall|n: Seq<char>| #[trigger] one.contains_key(n) implies two[n] == (ProcessModel {
        logs: two[n].logs,
        ..one[n]
    }) by {
        assert(programs.contains_key(n));
    }
}

/// Kept lines have no say in what a list of programs comes to.
proof fn lemma_all_started_alike(
    programs: Map<Seq<char>, ProcessModel>,
    others: Map<Seq<char>, ProcessModel>,
    order: Seq<Seq<char>>,
    spawn: spec_fn(Seq<char>) -> SpawnOutcome,
)
    requires
        only_logs_differ(programs, others),
    ensures
        only_logs_differ(all_started(programs, order, spawn), all_started(others, order, spawn)),
    decreases order.len(),
{
    if order.len() > 0 {
        let front = order.drop_last();
        lemma_all_started_alike(programs, others, front, spawn);
        lemma_unit_started_alike(
            all_started(programs, front, spawn),
            all_started(others, front, spawn),
            order.last(),
            spawn,
        );
    }
}

/// Kept lines have no say in what a request comes to.
proof fn lemma_request_done_alike(
    programs: Map<Seq<char>, ProcessModel>,
    others: Map<Seq<char>, ProcessModel>,
    root: Seq<char>,
    spawn: spec_fn(Seq<char>) -> SpawnOutcome,
)
    requires
        only_logs_differ(programs, others),
    ensures
        only_logs_differ(request_done(programs, root, spawn), request_done(others, root, spawn)),
{
    let units = process::catalog(programs);
    let same = process::catalog(others);
    assert(units.dom() =~= same.dom()) by {
        assert(units.dom() =~= programs.dom());
        assert(same.dom() =~= others.dom());
    }
    assert forall|n: Seq<char>| #[trigger] units.contains_key(n) implies units[n] == same[n] by {
        assert(programs.contains_key(n));
        assert(others.contains_key(n));
    }
    assert(units =~= same);
    lemma_all_started_alike(programs, others, start_order::start_order(units, root), spawn);
}

/// What agrees with a table that agrees with another agrees with that one.
proof fn lemma_only_logs_differ_chain(
    programs: Map<Seq<char>, ProcessModel>,
    between: Map<Seq<char>, ProcessModel>,
    others: Map<Seq<char>, ProcessModel>,
)
    requires
        only_logs_differ(programs, between),
        only_logs_differ(between, others),
    ensures
        only_logs_differ(programs, others),
{
    assert forall|n: Seq<char>| #[trigger] programs.contains_key(n) implies others[n] == (
    ProcessModel { logs: others[n].logs, ..programs[n] }) by {
        assert(between.contains_key(n));
    }
}

/// One round of a request under way: a step of the request and, where a process has to
/// be spawned, the report of what came of it. All the while lines may be kept.
pub open spec fn is_round(
    programs: Map<Seq<char>, ProcessModel>,
    session: StartModel,
    spawn: spec_fn(Seq<char>) -> SpawnOutcome,
    next_programs: Map<Seq<char>, ProcessModel>,
    next_session: StartModel,
) -> bool {
    let unit = session.order[session.next as int];
    exists|step: StartStep|
        #![trigger process::is_step(programs, unit, step)]
        process::is_step(programs, unit, step) && is_round_with(
            programs,
            session,
            spawn,
            step,
            next_programs,
            next_session,
        )
}

/// What a round leads to, whose step is that one.
pub open spec fn is_round_with(
    programs: Map<Seq<char>, ProcessModel>,
    session: StartModel,
    spawn: spec_fn(Seq<char>) -> SpawnOutcome,
    step: StartStep,
    next_programs: Map<Seq<char>, ProcessModel>,
    next_session: StartModel,
) -> bool {
    let unit = session.order[session.next as int];
    if step is Spawn {
        match spawn(unit) {
            SpawnOutcome::Spawned(pid) => only_logs_differ(
                programs.insert(unit, process::started(programs[unit], pid)),
                next_programs,
            ) && next_session == process::dealt_with(session, Ok(())),
            SpawnOutcome::Failed => only_logs_differ(programs, next_programs) && exists|
                e: ProcessError,
            | #[trigger]
                e.is_spawn(unit) && next_session == process::dealt_with(session, Err(e)),
        }
    } else {
        only_logs_differ(programs, next_programs) && next_session == process::after_step(
            session,
            step,
        )
    }
}

/// What `next_start` decides, carried out, is a round: where it calls for a process to be
/// spawned, `spawn_finished` has to be told what came of it. Lines may be kept in between
/// and afterwards.
pub proof fn law_steps_make_rounds(
    programs: Map<Seq<char>, ProcessModel>,
    session: StartModel,
    spawn: spec_fn(Seq<char>) -> SpawnOutcome,
    step: StartStep,
    stepped: StartModel,
    meanwhile: Map<Seq<char>, ProcessModel>,
    reported: Map<Seq<char>, ProcessModel>,
    done: Result<Started, ProcessError>,
    next_programs: Map<Seq<char>, ProcessModel>,
    next_session: StartModel,
)
    requires
        session.next < session.order.len(),
        process::is_next(programs, session, step, stepped),
        only_logs_differ(programs, meanwhile),
        if step is Spawn {
            process::is_report(
                meanwhile,
                stepped,
                spawn(session.order[session.next as int]),
                reported,
                next_session,
                done,
            )
        } else {
            reported == meanwhile && next_session == stepped
        },
        only_logs_differ(reported, next_programs),
    ensures
        is_round(programs, session, spawn, next_programs, next_session),
{
    let unit = session.order[session.next as int];
    assert(process::is_step(programs, unit, step));
    if step is Spawn {
        assert(programs.contains_key(unit));
        assert(meanwhile.contains_key(unit));
        match spawn(unit) {
            SpawnOutcome::Spawned(pid) => {
                let up = programs.insert(unit, process::started(programs[unit], pid));
                assert(up.dom() =~= reported.dom());
                assert forall|n: Seq<char>| #[trigger] up.contains_key(n) implies reported[n] == (
                ProcessModel { logs: reported[n].logs, ..up[n] }) by {
                    assert(programs.contains_key(n));
                }
                assert(only_logs_differ(up, reported));
                lemma_only_logs_differ_chain(up, reported, next_programs);
            },
            SpawnOutcome::Failed => {
                lemma_only_logs_differ_chain(programs, meanwhile, next_programs);
            },
        }
    } else {
        lemma_only_logs_differ_chain(programs, meanwhile, next_programs);
    }
    assert(is_round_with(programs, session, spawn, step, next_programs, next_session));
}

/// A request, gone through round by round from its beginning to its end. Between the
/// rounds nothing but the kept lines changes.
pub open spec fn is_request(
    programs: Map<Seq<char>, ProcessModel>,
    root: Seq<char>,
    spawn: spec_fn(Seq<char>) -> SpawnOutcome,
    tables: Seq<Map<Seq<char>, ProcessModel>>,
    sessions: Seq<StartModel>,
) -> bool {
    let order = start_order::start_order(process::catalog(programs), root);
    &&& tables.len() == order.len() + 1
    &&& sessions.len() == order.len() + 1
    &&& tables[0] == programs
    &&& sessions[0] == process::session_for(programs, root)
    &&& forall|i: int|
        0 <= i < order.len() ==> is_round(
            #[trigger] tables[i],
            sessions[i],
            spawn,
            tables[i + 1],
            sessions[i + 1],
        )
}

/// What a request to start `root` comes to. It succeeds if the program comes up. It fails
/// with the reason why it did not: its command line cannot be read, or is empty, or the
/// operating system did not start the process.
pub open spec fn is_result(
    programs: Map<Seq<char>, ProcessModel>,
    root: Seq<char>,
    spawn: spec_fn(Seq<char>) -> SpawnOutcome,
    result: Result<(), ProcessError>,
) -> bool {
    match result {
        Ok(_) => comes_up(programs, root, spawn),
        Err(e) => {
            &&& !programs[root].running
            &&& match command::shell_words_of(programs[root].config.command@) {
                None => e.is_command_syntax(root),
                Some(words) => if words.len() == 0 {
                    e.is_empty_command(root)
                } else {
                    !is_spawned(spawn(root)) && e.is_spawn(root)
                },
            }
        },
    }
}

/// What is known in the middle of a request.
proof fn lemma_rounds(
    programs: Map<Seq<char>, ProcessModel>,
    root: Seq<char>,
    spawn: spec_fn(Seq<char>) -> SpawnOutcome,
    tables: Seq<Map<Seq<char>, ProcessModel>>,
    sessions: Seq<StartModel>,
    k: int,
)
    requires
        programs.dom().finite(),
        programs.contains_key(root),
        is_request(programs, root, spawn, tables, sessions),
        0 <= k < tables.len(),
    ensures
        ({
            let order = start_order::start_order(process::catalog(programs), root);
            &&& only_logs_differ(all_started(programs, order.take(k), spawn), tables[k])
            &&& sessions[k].root == root
            &&& sessions[k].order == order
            &&& sessions[k].next == k
            &&& if order.take(k).contains(root) {
                &&& sessions[k].result matches Some(r)
                &&& r is Ok <==> tables[k][root].running
                &&& is_result(programs, root, spawn, r)
            } else {
                sessions[k].result is None
            }
        }),
    decreases k,
{
    let units = process::catalog(programs);
    assert(units.dom() =~= programs.dom());
    start_order::law_start_order_is_complete(units, root);
    let order = start_order::start_order(units, root);
    if k == 0 {
        assert(order.take(0) =~= Seq::empty());
    } else {
        lemma_rounds(programs, root, spawn, tables, sessions, k - 1);
        assert(is_round(tables[k - 1], sessions[k - 1], spawn, tables[k - 1 + 1], sessions[k]));
        let unit = order[k - 1];
        let front = order.take(k - 1);
        assert(order.take(k).drop_last() =~= front);
        assert(order.take(k) =~= front.push(unit));
        start_order::lemma_push_contains(front, unit, root);
        assert(!front.contains(unit));
        assert(order.contains(unit));
        assert(units.contains_key(unit));
        lemma_all_started(programs, front, spawn);
        let before = all_started(programs, front, spawn);
        let after = all_started(programs, order.take(k), spawn);
        assert(before.contains_key(unit));
        assert(tables[k - 1].contains_key(unit));
        let step = choose|step: StartStep|
            #![trigger process::is_step(tables[k - 1], unit, step)]
            process::is_step(tables[k - 1], unit, step) && is_round_with(
                tables[k - 1],
                sessions[k - 1],
                spawn,
                step,
                tables[k],
                sessions[k],
            );
        lemma_unit_started_alike(before, tables[k - 1], unit, spawn);
        let alike = unit_started(tables[k - 1], unit, spawn);
        assert(after == unit_started(before, unit, spawn));
        assert(only_logs_differ(alike, tables[k]));
        lemma_only_logs_differ_chain(after, alike, tables[k]);
        assert(after.contains_key(root));
        assert(programs.contains_key(root));
    }
}

/// Gone through to its end, a request leaves the table as the order of starting says, but
/// for lines that were kept meanwhile, and it succeeds exactly if the program that was asked for runs. Otherwise it fails with
/// the reason that concerns this program, whatever became of the others.
pub proof fn law_request_succeeds_if_the_program_runs(
    programs: Map<Seq<char>, ProcessModel>,
    root: Seq<char>,
    spawn: spec_fn(Seq<char>) -> SpawnOutcome,
    tables: Seq<Map<Seq<char>, ProcessModel>>,
    sessions: Seq<StartModel>,
)
    requires
        programs.dom().finite(),
        programs.contains_key(root),
        is_request(programs, root, spawn, tables, sessions),
    ensures
        only_logs_differ(request_done(programs, root, spawn), tables.last()),
        sessions.last().next == sessions.last().order.len(),
        ({
            &&& sessions.last().result matches Some(r)
            &&& r is Ok <==> tables.last()[root].running
            &&& is_result(programs, root, spawn, r)
        }),
{
    let units = process::catalog(programs);
    assert(units.dom() =~= programs.dom());
    start_order::law_start_order_is_complete(units, root);
    let order = start_order::start_order(units, root);
    lemma_rounds(programs, root, spawn, tables, sessions, order.len() as int);
    assert(order.take(order.len() as int) =~= order);
}

/// What the operating system makes of each program in the request of that number, where
/// it may make something else of it in another.
pub open spec fn in_request(
    spawn: spec_fn(int, Seq<char>) -> SpawnOutcome,
    request: int,
) -> spec_fn(Seq<char>) -> SpawnOutcome {
    |n: Seq<char>| spawn(request, n)
}

/// The table after the programs of `names` were started with the daemon, one after the
/// other; those that run by then are passed over. The request for `names[i]` has the
/// number `i`.
pub open spec fn autostarted(
    programs: Map<Seq<char>, ProcessModel>,
    names: Seq<Seq<char>>,
    spawn: spec_fn(int, Seq<char>) -> SpawnOutcome,
) -> Map<Seq<char>, ProcessModel>
    decreases names.len(),
{
    if names.len() == 0 {
        programs
    } else {
        let before = autostarted(programs, names.drop_last(), spawn);
        if process::runs(before, names.last()) {
            before
        } else {
            request_done(before, names.last(), in_request(spawn, names.len() - 1))
        }
    }
}

/// The operating system was asked to start `name` in the request for `names[k]`: that
/// request was made, `name` comes with it and did not run by then.
pub open spec fn attempted(
    programs: Map<Seq<char>, ProcessModel>,
    names: Seq<Seq<char>>,
    spawn: spec_fn(int, Seq<char>) -> SpawnOutcome,
    k: int,
    name: Seq<char>,
) -> bool {
    let before = autostarted(programs, names.take(k), spawn);
    &&& 0 <= k < names.len()
    &&& !process::runs(before, names[k])
    &&& start_order::comes_with(process::catalog(programs), names[k], name)
    &&& !before[name].running
    &&& launchable(programs[name].config)
}

/// Later requests have no say in earlier attempts.
proof fn lemma_attempted_earlier(
    programs: Map<Seq<char>, ProcessModel>,
    names: Seq<Seq<char>>,
    spawn: spec_fn(int, Seq<char>) -> SpawnOutcome,
    i: int,
    k: int,
    name: Seq<char>,
)
    requires
        k < i <= names.len(),
        0 <= i,
    ensures
        attempted(programs, names.take(i), spawn, k, name) == attempted(
            programs,
            names,
            spawn,
            k,
            name,
        ),
{
    if 0 <= k {
        assert(names.take(i).take(k) =~= names.take(k));
        assert(names.take(i)[k] == names[k]);
    }
}

/// Starting the programs that come up with the daemon changes neither their
/// configuration nor their lines.
proof fn lemma_autostarted_same(
    programs: Map<Seq<char>, ProcessModel>,
    names: Seq<Seq<char>>,
    spawn: spec_fn(int, Seq<char>) -> SpawnOutcome,
)
    requires
        programs.dom().finite(),
        forall|i: int| 0 <= i < names.len() ==> programs.contains_key(#[trigger] names[i]),
    ensures
        same_programs(programs, autostarted(programs, names, spawn)),
        process::catalog(autostarted(programs, names, spawn)) == process::catalog(programs),
    decreases names.len(),
{
    let after = autostarted(programs, names, spawn);
    if names.len() > 0 {
        let front = names.drop_last();
        let last = names.last();
        assert(last == names[names.len() - 1]);
        assert forall|i: int| 0 <= i < front.len() implies programs.contains_key(
            #[trigger] front[i],
        ) by {
            assert(front[i] == names[i]);
        }
        lemma_autostarted_same(programs, front, spawn);
        let before = autostarted(programs, front, spawn);
        assert(before.contains_key(last));
        if !process::runs(before, last) {
            law_start_request(before, last, in_request(spawn, names.len() - 1));
        }
        assert forall|n: Seq<char>| #[trigger] programs.contains_key(n) implies programs[n].config
            == after[n].config && programs[n].logs == after[n].logs && programs[n].generation
            == after[n].generation by {
            assert(before.contains_key(n));
        }
    }
    let units = process::catalog(programs);
    let same = process::catalog(after);
    assert(units.dom() =~= programs.dom());
    assert(same.dom() =~= after.dom());
    assert forall|n: Seq<char>| #[trigger] units.contains_key(n) implies units[n] == same[n] by {
        assert(programs.contains_key(n));
    }
    assert(same =~= units);
}

/// What the attempts to start one program come to.
proof fn lemma_attempts(
    programs: Map<Seq<char>, ProcessModel>,
    names: Seq<Seq<char>>,
    spawn: spec_fn(int, Seq<char>) -> SpawnOutcome,
    name: Seq<char>,
)
    requires
        programs.dom().finite(),
        forall|i: int| 0 <= i < names.len() ==> programs.contains_key(#[trigger] names[i]),
        programs.contains_key(name),
    ensures
        ({
            let after = autostarted(programs, names, spawn);
            &&& programs[name].running ==> after[name] == programs[name]
            &&& forall|k: int| #[trigger]
                attempted(programs, names, spawn, k, name) ==> (spawn(k, name) matches
                    SpawnOutcome::Spawned(pid) ==> after[name] == process::started(
                    programs[name],
                    pid,
                ))
            &&& (forall|k: int| #[trigger]
                attempted(programs, names, spawn, k, name) ==> spawn(k, name) is Failed)
                ==> after[name] == programs[name]
        }),
    decreases names.len(),
{
    if names.len() > 0 {
        let m = names.len() - 1;
        let front = names.drop_last();
        let last = names.last();
        assert(last == names[m]);
        assert(front =~= names.take(m));
        assert forall|i: int| 0 <= i < front.len() implies programs.contains_key(
            #[trigger] front[i],
        ) by {
            assert(front[i] == names[i]);
        }
        lemma_attempts(programs, front, spawn, name);
        lemma_autostarted_same(programs, front, spawn);
        let before = autostarted(programs, front, spawn);
        let after = autostarted(programs, names, spawn);
        assert(before.contains_key(last));
        assert(before.contains_key(name));
        assert forall|k: int| k != m implies #[trigger] attempted(programs, names, spawn, k, name)
            == attempted(programs, front, spawn, k, name) by {
            if k < m {
                lemma_attempted_earlier(programs, names, spawn, m, k, name);
            }
        }
        if !process::runs(before, last) {
            law_start_request(before, last, in_request(spawn, m));
        }
        if before[name].running {
            assert(after[name] == before[name]);
            assert(!attempted(programs, names, spawn, m, name));
        } else {
            assert forall|k: int| #[trigger] attempted(
                programs,
                front,
                spawn,
                k,
                name,
            ) implies spawn(k, name) is Failed by {}
            assert(before[name] == programs[name]);
            let now = attempted(programs, names, spawn, m, name);
            if !process::runs(before, last) && start_order::comes_with(
                process::catalog(programs),
                last,
                name,
            ) {
                assert(after[name] == tried(before, name, in_request(spawn, m)));
                assert(now == launchable(programs[name].config));
            } else {
                assert(after[name] == before[name]);
                assert(!now);
            }
        }
        if forall|k: int| #[trigger]
            attempted(programs, names, spawn, k, name) ==> spawn(k, name) is Failed {
            assert forall|k: int| #[trigger] attempted(
                programs,
                front,
                spawn,
                k,
                name,
            ) implies spawn(k, name) is Failed by {
                assert(attempted(programs, names, spawn, k, name));
            }
            assert(after[name] == programs[name]);
        }
    } else {
        assert forall|k: int| !#[trigger] attempted(programs, names, spawn, k, name) by {}
    }
}

/// When the daemon has come up, each program whose start was attempted runs if an attempt
/// succeeded, in the process that this attempt gave it; it is as it was if all failed. A
/// program that is to come up with the daemon and can be launched was attempted in its
/// own turn, unless it ran by then: if it does not run, its last attempt failed, as did
/// all before. What ran before still runs, in the same process. What is neither to come up
/// with the daemon nor pulled in by such a program was not touched.
pub proof fn law_autostart(
    programs: Map<Seq<char>, ProcessModel>,
    names: Seq<Seq<char>>,
    spawn: spec_fn(int, Seq<char>) -> SpawnOutcome,
)
    requires
        programs.dom().finite(),
        forall|i: int| 0 <= i < names.len() ==> programs.contains_key(#[trigger] names[i]),
    ensures
        ({
            let after = autostarted(programs, names, spawn);
            &&& same_programs(programs, after)
            &&& forall|n: Seq<char>| #[trigger]
                programs.contains_key(n) && programs[n].running ==> after[n] == programs[n]
            &&& forall|n: Seq<char>, k: int|
                programs.contains_key(n) && #[trigger] attempted(programs, names, spawn, k, n) ==> (
                spawn(k, n) matches SpawnOutcome::Spawned(pid) ==> after[n] == process::started(
                    programs[n],
                    pid,
                ))
            &&& forall|n: Seq<char>| #[trigger]
                programs.contains_key(n) && (forall|k: int| #[trigger]
                    attempted(programs, names, spawn, k, n) ==> spawn(k, n) is Failed) ==> after[n]
                    == programs[n]
            &&& forall|i: int|
                0 <= i < names.len() && launchable(programs[#[trigger] names[i]].config)
                    && !after[names[i]].running ==> attempted(programs, names, spawn, i, names[i])
                    && forall|k: int| #[trigger]
                    attempted(programs, names, spawn, k, names[i]) ==> spawn(k, names[i]) is Failed
            &&& forall|n: Seq<char>| #[trigger]
                programs.contains_key(n) && (forall|i: int|
                    0 <= i < names.len() ==> !start_order::comes_with(
                        process::catalog(programs),
                        #[trigger] names[i],
                        n,
                    )) ==> after[n] == programs[n]
        }),
{
    let after = autostarted(programs, names, spawn);
    let units = process::catalog(programs);
    lemma_autostarted_same(programs, names, spawn);
    assert forall|n: Seq<char>| #[trigger] programs.contains_key(n) implies {
        &&& programs[n].running ==> after[n] == programs[n]
        &&& (forall|k: int| #[trigger]
            attempted(programs, names, spawn, k, n) ==> spawn(k, n) is Failed) ==> after[n]
            == programs[n]
    } by {
        lemma_attempts(programs, names, spawn, n);
    }
    assert forall|n: Seq<char>, k: int|
        programs.contains_key(n) && #[trigger] attempted(programs, names, spawn, k, n) implies (
    spawn(k, n) matches SpawnOutcome::Spawned(pid) ==> after[n] == process::started(
        programs[n],
        pid,
    )) by {
        lemma_attempts(programs, names, spawn, n);
    }
    assert forall|i: int|
        0 <= i < names.len() && launchable(programs[#[trigger] names[i]].config)
            && !after[names[i]].running implies attempted(programs, names, spawn, i, names[i])
        && forall|k: int| #[trigger]
        attempted(programs, names, spawn, k, names[i]) ==> spawn(k, names[i]) is Failed by {
        let name = names[i];
        let some = names.take(i);
        lemma_attempts(programs, names, spawn, name);
        assert forall|j: int| 0 <= j < some.len() implies programs.contains_key(
            #[trigger] some[j],
        ) by {
            assert(some[j] == names[j]);
        }
        lemma_attempts(programs, some, spawn, name);
        assert forall|k: int| #[trigger] attempted(programs, some, spawn, k, name) implies spawn(
            k,
            name,
        ) is Failed by {
            lemma_attempted_earlier(programs, names, spawn, i, k, name);
            assert(attempted(programs, names, spawn, k, name));
        }
        assert(units.dom() =~= programs.dom());
        start_order::law_start_order_is_complete(units, name);
        assert(start_order::comes_with(units, name, name));
        assert(attempted(programs, names, spawn, i, name));
    }
    assert forall|n: Seq<char>| #[trigger]
        programs.contains_key(n) && (forall|i: int|
            0 <= i < names.len() ==> !start_order::comes_with(
                units,
                #[trigger] names[i],
                n,
            )) implies after[n] == programs[n] by {
        assert forall|k: int| !#[trigger] attempted(programs, names, spawn, k, n) by {
            if 0 <= k < names.len() {
                assert(!start_order::comes_with(units, names[k], n));
            }
        }
    }
}

/// Programs that run by now are passed over.
proof fn lemma_running_are_passed_over(
    programs: Map<Seq<char>, ProcessModel>,
    names: Seq<Seq<char>>,
    spawn: spec_fn(int, Seq<char>) -> SpawnOutcome,
    from: int,
    to: int,
)
    requires
        0 <= from <= to <= names.len(),
        forall|i: int|
            from <= i < to ==> process::runs(
                autostarted(programs, names.take(from), spawn),
                #[trigger] names[i],
            ),
    ensures
        autostarted(programs, names.take(to), spawn) == autostarted(
            programs,
            names.take(from),
            spawn,
        ),
    decreases to - from,
{
    if from < to {
        lemma_running_are_passed_over(programs, names, spawn, from, to - 1);
        assert(names.take(to).drop_last() =~= names.take(to - 1));
        assert(names.take(to).last() == names[to - 1]);
    }
}

/// The programs that come up with the daemon, gone through to the end: in each round the
/// next one that does not run yet is picked, up to the place `stops` says, and the
/// request to start it is carried out. All the while lines may be kept.
pub open spec fn is_autostart(
    programs: Map<Seq<char>, ProcessModel>,
    names: Seq<Seq<char>>,
    spawn: spec_fn(int, Seq<char>) -> SpawnOutcome,
    tables: Seq<Map<Seq<char>, ProcessModel>>,
    stops: Seq<int>,
) -> bool {
    &&& tables.len() == stops.len()
    &&& tables.len() > 0
    &&& tables[0] == programs
    &&& stops[0] == 0
    &&& forall|k: int|
        0 <= k < tables.len() - 1 ==> process::is_pick(
            #[trigger] tables[k],
            names,
            stops[k],
            stops[k + 1],
        ) && only_logs_differ(
            request_done(
                tables[k],
                names[stops[k + 1] - 1],
                in_request(spawn, stops[k + 1] - 1),
            ),
            tables[k + 1],
        )
    &&& forall|i: int|
        stops.last() <= i < names.len() ==> process::runs(tables.last(), #[trigger] names[i])
}

/// What is known in the middle of it.
proof fn lemma_autostart_rounds(
    programs: Map<Seq<char>, ProcessModel>,
    names: Seq<Seq<char>>,
    spawn: spec_fn(int, Seq<char>) -> SpawnOutcome,
    tables: Seq<Map<Seq<char>, ProcessModel>>,
    stops: Seq<int>,
    k: int,
)
    requires
        is_autostart(programs, names, spawn, tables, stops),
        0 <= k < tables.len(),
    ensures
        0 <= stops[k] <= names.len(),
        only_logs_differ(autostarted(programs, names.take(stops[k]), spawn), tables[k]),
    decreases k,
{
    if k == 0 {
        assert(names.take(0) =~= Seq::empty());
    } else {
        lemma_autostart_rounds(programs, names, spawn, tables, stops, k - 1);
        let from = stops[k - 1];
        let to = stops[k - 1 + 1];
        let before = autostarted(programs, names.take(from), spawn);
        assert(process::is_pick(tables[k - 1], names, from, to));
        assert forall|n: Seq<char>| #[trigger] process::runs(before, n) == process::runs(
            tables[k - 1],
            n,
        ) by {
            assert(before.contains_key(n) <==> tables[k - 1].contains_key(n));
        }
        assert forall|i: int| from <= i < to - 1 implies process::runs(
            before,
            #[trigger] names[i],
        ) by {
            assert(process::runs(tables[k - 1], names[i]));
        }
        lemma_running_are_passed_over(programs, names, spawn, from, to - 1);
        assert(names.take(to).drop_last() =~= names.take(to - 1));
        assert(names.take(to).last() == names[to - 1]);
        assert(!process::runs(before, names[to - 1]));
        let picked = in_request(spawn, to - 1);
        lemma_request_done_alike(before, tables[k - 1], names[to - 1], picked);
        lemma_only_logs_differ_chain(
            request_done(before, names[to - 1], picked),
            request_done(tables[k - 1], names[to - 1], picked),
            tables[k],
        );
    }
}

/// Gone through to the end, the programs that come up with the daemon leave the table as
/// if each had been dealt with in turn, but for lines that were kept meanwhile.
pub proof fn law_autostart_is_carried_out(
    programs: Map<Seq<char>, ProcessModel>,
    names: Seq<Seq<char>>,
    spawn: spec_fn(int, Seq<char>) -> SpawnOutcome,
    tables: Seq<Map<Seq<char>, ProcessModel>>,
    stops: Seq<int>,
)
    requires
        is_autostart(programs, names, spawn, tables, stops),
    ensures
        only_logs_differ(autostarted(programs, names, spawn), tables.last()),
{
    lemma_autostart_rounds(programs, names, spawn, tables, stops, tables.len() - 1);
    let before = autostarted(programs, names.take(stops.last()), spawn);
    assert forall|i: int| stops.last() <= i < names.len() implies process::runs(
        before,
        #[trigger] names[i],
    ) by {
        assert(process::runs(tables.last(), names[i]));
        assert(before.contains_key(names[i]) <==> tables.last().contains_key(names[i]));
    }
    lemma_running_are_passed_over(programs, names, spawn, stops.last(), names.len() as int);
    assert(names.take(names.len() as int) =~= names);
}

/// Whoever runs is waited for, and only who is waited for has an identifier.
pub open spec fn is_consistent(program: ProcessModel) -> bool {
    &&& program.running ==> program.monitored
    &&& program.pid is Some ==> program.monitored
}

/// Every program of the table is consistent.
pub open spec fn consistent(programs: Map<Seq<char>, ProcessModel>) -> bool {
    forall|n: Seq<char>| #[trigger] programs.contains_key(n) ==> is_consistent(programs[n])
}

/// Whatever happens to a process, it is waited for as long as it runs: the empty table
/// is consistent, and loading, starting, stopping, events and kept lines leave it so.
pub proof fn law_running_processes_are_monitored(
    programs: Map<Seq<char>, ProcessModel>,
    name: Seq<char>,
    pid: Option<u32>,
    event: ProcessEvent,
    added: Seq<(String, ProgramConfig)>,
    loads: u64,
    generation: u64,
    line: LogLine,
)
    requires
        consistent(programs),
    ensures
        consistent(Map::empty()),
        consistent(process::loaded(programs, added, loads)),
        programs.contains_key(name) ==> consistent(
            programs.insert(name, process::started(programs[name], pid)),
        ),
        programs.contains_key(name) ==> consistent(
            programs.insert(name, process::stopped(programs[name])),
        ),
        consistent(process::with_line(programs, name, generation, line)),
        consistent(process::after_event(programs, event)),
        consistent(process::all_stopped(programs)),
    decreases added.len(),
{
    if added.len() > 0 {
        law_running_processes_are_monitored(
            programs,
            name,
            pid,
            event,
            added.drop_last(),
            loads,
            generation,
            line,
        );
    }
    let halted = process::all_stopped(programs);
    assert forall|n: Seq<char>| #[trigger] halted.contains_key(n) implies is_consistent(
        halted[n],
    ) by {
        assert(programs.contains_key(n));
    }
}

/// After everything was stopped nothing runs, and stopping once more changes nothing.
pub proof fn law_stopping_is_final(programs: Map<Seq<char>, ProcessModel>)
    ensures
        forall|n: Seq<char>| !#[trigger] process::runs(process::all_stopped(programs), n),
        process::all_stopped(process::all_stopped(programs)) == process::all_stopped(programs),
        same_programs(programs, process::all_stopped(programs)),
{
    let once = process::all_stopped(programs);
    assert(programs.dom() =~= once.dom());
    assert(process::all_stopped(once) =~= once);
}

/// A process that crashes is started again if its policy is `always` or `on-failure`;
/// one that exits with 0 only if it is `always`; and without a policy never.
pub proof fn law_restart_policy(code: i32)
    ensures
        process::policy_restarts(Some("always"@), code),
        process::policy_restarts(Some("on-failure"@), code) <==> code != 0,
        !process::policy_restarts(None, code),
        forall|policy: Seq<char>|
            policy != "always"@ && policy != "on-failure"@ ==> !#[trigger]
            process::policy_restarts(Some(policy), code),
{
    reveal_strlit("always");
    reveal_strlit("on-failure");
    assert("always"@.len() != "on-failure"@.len());
}

/// An exit calls for a restart after two seconds under the policy `always`, whatever the
/// code, and under `on-failure` exactly if the code is not 0; otherwise for nothing.
pub proof fn law_exit_action(
    programs: Map<Seq<char>, ProcessModel>,
    name: String,
    code: i32,
    action: EventAction,
)
    requires
        programs.contains_key(name@),
        process::is_event_action(programs, ProcessEvent::Exited(name, code), action),
    ensures
        ({
            let policy = programs[name@].config.restart;
            let restarted = action matches EventAction::ScheduleRestart(n, secs) && n@ == name@
                && secs == 2;
            &&& policy is Some && policy->0@ == "always"@ ==> restarted
            &&& policy is Some && policy->0@ == "on-failure"@ ==> (if code != 0 {
                restarted
            } else {
                action is Nothing
            })
            &&& policy is None ==> action is Nothing
            &&& policy is Some && policy->0@ != "always"@ && policy->0@ != "on-failure"@
                ==> action is Nothing
        }),
{
    law_restart_policy(code);
}

/// No event changes what a program is configured with, which loading it is of, or the
/// lines that were kept of it.
pub proof fn law_events_change_no_program(
    programs: Map<Seq<char>, ProcessModel>,
    event: ProcessEvent,
)
    ensures
        same_programs(programs, process::after_event(programs, event)),
{
    assert(programs.dom() =~= process::after_event(programs, event).dom());
}

/// When the restart that the policy called for is requested, nothing stands in its way:
/// a program that exited does not run, and is launched like one that never ran.
pub proof fn law_exited_programs_can_be_started(
    programs: Map<Seq<char>, ProcessModel>,
    event: ProcessEvent,
    name: Seq<char>,
    spawn: spec_fn(Seq<char>) -> SpawnOutcome,
)
    requires
        programs.dom().finite(),
        programs.contains_key(name),
        match event {
            ProcessEvent::Exited(n, _) => n@ == name,
            ProcessEvent::Failed(n, _) => n@ == name,
            _ => false,
        },
    ensures
        !process::runs(process::after_event(programs, event), name),
        request_done(process::after_event(programs, event), name, spawn)[name] == tried(
            process::after_event(programs, event),
            name,
            spawn,
        ),
        request_done(process::after_event(programs, event), name, spawn)[name].running == (
        launchable(programs[name].config) && is_spawned(spawn(name))),
{
    let after = process::after_event(programs, event);
    law_start_request(after, name, spawn);
}

/// The table once the program `name` has been stopped for a restart, if it ran.
pub open spec fn brought_down(
    programs: Map<Seq<char>, ProcessModel>,
    name: Seq<char>,
) -> Map<Seq<char>, ProcessModel> {
    if programs[name].running {
        programs.insert(name, process::stopped(programs[name]))
    } else {
        programs
    }
}

/// A restart leaves the program running exactly if it could be launched anew, whether it
/// ran before or not, and then in the process that the operating system gave it. Every
/// other program that runs keeps its process, and what does not come with it is not
/// touched.
pub proof fn law_restart(
    programs: Map<Seq<char>, ProcessModel>,
    name: Seq<char>,
    spawn: spec_fn(Seq<char>) -> SpawnOutcome,
)
    requires
        programs.dom().finite(),
        programs.contains_key(name),
    ensures
        ({
            let down = brought_down(programs, name);
            let after = request_done(down, name, spawn);
            &&& same_programs(programs, after)
            &&& after[name] == tried(down, name, spawn)
            &&& after[name].running == (launchable(programs[name].config) && is_spawned(
                spawn(name),
            ))
            &&& forall|n: Seq<char>| #[trigger]
                programs.contains_key(n) && n != name && programs[n].running ==> after[n]
                    == programs[n]
            &&& forall|n: Seq<char>| #[trigger]
                programs.contains_key(n) && !start_order::comes_with(
                    process::catalog(programs),
                    name,
                    n,
                ) ==> after[n] == programs[n]
        }),
{
    let down = brought_down(programs, name);
    let units = process::catalog(programs);
    let after = request_done(down, name, spawn);
    assert(process::catalog(down) =~= units);
    assert(units.dom() =~= programs.dom());
    law_start_request(down, name, spawn);
    start_order::law_start_order_is_complete(units, name);
    assert(down.dom() =~= programs.dom());
    assert(start_order::comes_with(units, name, name));
    assert forall|n: Seq<char>| #[trigger] programs.contains_key(n) implies {
        &&& programs[n].config == after[n].config
        &&& programs[n].logs == after[n].logs
        &&& programs[n].generation == after[n].generation
        &&& n != name && programs[n].running ==> after[n] == programs[n]
        &&& !start_order::comes_with(units, name, n) ==> after[n] == programs[n]
    } by {
        assert(down.contains_key(n));
        if !start_order::comes_with(units, name, n) {
            assert(after[n] == down[n]);
        }
    }
}

/// Loading programs under different names puts each into the table, not running, and
/// leaves every other program as it was.
pub proof fn law_load(
    programs: Map<Seq<char>, ProcessModel>,
    added: Seq<(String, ProgramConfig)>,
    loads: u64,
)
    requires
        process::program_names(added).no_duplicates(),
    ensures
        forall|i: int|
            0 <= i < added.len() ==> process::loaded(programs, added, loads).contains_key(
                (#[trigger] added[i]).0@,
            ) && process::loaded(programs, added, loads)[added[i].0@] == process::fresh(
                added[i].1,
                process::loading((loads + i) as nat),
            ),
        forall|n: Seq<char>|
            !process::program_names(added).contains(n) ==> (#[trigger] process::loaded(
                programs,
                added,
                loads,
            ).contains_key(n) <==> programs.contains_key(n)) && process::loaded(
                programs,
                added,
                loads,
            )[n] == programs[n],
    decreases added.len(),
{
    if added.len() > 0 {
        let front = added.drop_last();
        let last = added.last();
        let names = process::program_names(added);
        assert(process::program_names(front) =~= names.drop_last());
        law_load(programs, front, loads);
        assert forall|i: int| 0 <= i < added.len() implies process::loaded(
            programs,
            added,
            loads,
        ).contains_key((#[trigger] added[i]).0@) && process::loaded(programs, added, loads)[added[i].0@]
            == process::fresh(
                added[i].1,
                process::loading((loads + i) as nat),
            ) by {
            if i < front.len() {
                assert(front[i] == added[i]);
                assert(names[i] != names[added.len() - 1]);
            }
        }
        assert(names =~= process::program_names(front).push(last.0@));
        assert forall|n: Seq<char>| !names.contains(n) implies (#[trigger] process::loaded(
            programs,
            added,
            loads,
        ).contains_key(n) <==> programs.contains_key(n)) && process::loaded(programs, added, loads)[n]
            == programs[n] by {
            start_order::lemma_push_contains(process::program_names(front), last.0@, n);
        }
    }
}

/// What a process prints that was spawned before its program was loaded anew is not kept
/// for the program that replaced it, whose lines stay as they are. The numbers of the two
/// loadings differ as long as fewer than 2^64 lie between them.
pub proof fn law_replaced_programs_leave_no_lines(
    programs: Map<Seq<char>, ProcessModel>,
    name: Seq<char>,
    earlier: nat,
    later: nat,
    line: LogLine,
)
    requires
        earlier < later,
        later - earlier < 0x1_0000_0000_0000_0000,
        programs.contains_key(name),
        programs[name].generation == process::loading(later),
    ensures
        process::loading(earlier) != process::loading(later),
        process::with_line(programs, name, process::loading(earlier), line) == programs,
        programs[name].config.log_forward ==> process::with_line(
            programs,
            name,
            process::loading(later),
            line,
        )[name].logs.last() == line,
{
}

} // verus!
