//! Starting, stopping and what happens in between.

use crate::config::{GlobalConfig, ProgramConfig};
use crate::error::ProcessError;
use crate::process::{
    self, AutostartSession, EventAction, Handled, Launch, ProcessEvent, ProcessManager,
    ProcessModel, Received, Restart, SpawnOutcome, StartSession, StartStep, Started, Termination,
    WaitOutcome,
};
use vstd::prelude::*;

verus! {

/// The two programs are configured alike, of the same loading, and keep the same lines.
pub open spec fn kept(before: ProcessModel, after: ProcessModel) -> bool {
    &&& after.config == before.config
    &&& after.logs == before.logs
    &&& after.generation == before.generation
}

/// Nothing but the program `name` differs.
pub open spec fn only_touches(
    before: Map<Seq<char>, ProcessModel>,
    after: Map<Seq<char>, ProcessModel>,
    name: Seq<char>,
) -> bool {
    &&& forall|n: Seq<char>| #[trigger] after.contains_key(n) <==> before.contains_key(n)
    &&& forall|n: Seq<char>| #[trigger]
        before.contains_key(n) && n != name ==> after[n] == before[n]
}

/// An identifier as a signal target stays what it is, and is told from every other.
proof fn lemma_signal_target(p: u32, q: u32)
    ensures
        p <= i32::MAX ==> (p as i32) as int == p as int,
        (p as i32) == (q as i32) ==> p == q,
{
    assert((p as i32) == (q as i32) ==> p == q) by (bit_vector);
}

/// A new table knows no program: none is listed, and none can be started, stopped or
/// restarted.
pub proof fn law_new_table_is_empty(
    manager: ProcessManager,
    name: &str,
    list: Vec<(String, bool)>,
    launch: Result<Launch, ProcessError>,
    session: Result<StartSession, ProcessError>,
    order: Result<Vec<String>, ProcessError>,
)
    requires
        call_ensures(ProcessManager::new, (), manager),
        call_ensures(ProcessManager::list_processes, (&manager,), list),
        call_ensures(ProcessManager::start_process_single, (&manager, name), launch),
        call_ensures(ProcessManager::start_process, (&manager, name), session),
        call_ensures(ProcessManager::resolve_start_order, (&manager, name), order),
    ensures
        list@.len() == 0,
        launch matches Err(ProcessError::NotFound(n)) && n@ == name@,
        session matches Err(ProcessError::NotFound(n)) && n@ == name@,
        order matches Err(ProcessError::NotFound(n)) && n@ == name@,
{
}

/// A program that was loaded is known under its name, with its configuration, does not
/// run and has printed nothing, unless a later entry of the configuration has the same
/// name. Programs that the configuration does not name are as before, and no others come
/// to be.
pub proof fn law_loading_installs_the_configuration(
    manager: &mut ProcessManager,
    config: GlobalConfig,
    i: int,
    other: Seq<char>,
)
    requires
        call_ensures(ProcessManager::load_from_config, (manager, config), ()),
        0 <= i < config.program@.len(),
        forall|j: int| i < j < config.program@.len() ==> (#[trigger] config.program@[j]).0@
            != config.program@[i].0@,
        forall|j: int| 0 <= j < config.program@.len() ==> (#[trigger] config.program@[j]).0@
            != other,
    ensures
        final(manager)@.contains_key(config.program@[i].0@),
        ({
            let program = final(manager)@[config.program@[i].0@];
            &&& program.config == config.program@[i].1
            &&& !program.running
            &&& !program.monitored
            &&& program.pid is None
            &&& program.logs == Seq::<crate::logs::LogLine>::empty()
        }),
        final(manager)@.contains_key(other) <==> old(manager)@.contains_key(other),
        final(manager)@[other] == old(manager)@[other],
{
    lemma_loaded(old(manager)@, config.program@, old(manager).loads(), i, other);
}

/// What a list of loadings leaves.
proof fn lemma_loaded(
    programs: Map<Seq<char>, ProcessModel>,
    added: Seq<(String, ProgramConfig)>,
    loads: u64,
    i: int,
    other: Seq<char>,
)
    ensures
        ({
            let after = process::loaded(programs, added, loads);
            &&& 0 <= i < added.len() && (forall|j: int|
                i < j < added.len() ==> (#[trigger] added[j]).0@ != added[i].0@)
                ==> after.contains_key(added[i].0@) && exists|g: u64|
                after[added[i].0@] == #[trigger] process::fresh(added[i].1, g)
            &&& (forall|j: int| 0 <= j < added.len() ==> (#[trigger] added[j]).0@ != other) ==> (
            after.contains_key(other) <==> programs.contains_key(other)) && after[other]
                == programs[other]
        }),
    decreases added.len(),
{
    if added.len() > 0 {
        let front = added.drop_last();
        lemma_loaded(programs, front, loads, i, other);
        assert(added.last() == added[added.len() - 1]);
        assert forall|j: int| 0 <= j < front.len() implies #[trigger] front[j] == added[j] by {}
        let last = process::loading((loads + added.len() - 1) as nat);
        assert(process::loaded(programs, added, loads)[added.last().0@] == process::fresh(
            added.last().1,
            last,
        ));
        if forall|j: int| 0 <= j < added.len() ==> (#[trigger] added[j]).0@ != other {
            assert forall|j: int| 0 <= j < front.len() implies (#[trigger] front[j]).0@
                != other by {
                assert(front[j] == added[j]);
            }
            assert(added[added.len() - 1].0@ != other);
        }
        if 0 <= i < front.len() && (forall|j: int|
            i < j < added.len() ==> (#[trigger] added[j]).0@ != added[i].0@) {
            assert forall|j: int| i < j < front.len() implies (#[trigger] front[j]).0@
                != front[i].0@ by {
                assert(front[j] == added[j]);
            }
            assert(front[i] == added[i]);
            assert(added[added.len() - 1].0@ != added[i].0@);
        }
    }
}

/// A program that was started under an identifier and is then stopped has the termination
/// signal sent to exactly that process, and to nobody if it has no identifier. Whoever
/// waits for it gives up.
pub proof fn law_stopping_signals_the_started_process(
    manager: &mut ProcessManager,
    name: &str,
    pid: Option<u32>,
    started: Result<Started, ProcessError>,
    later: &mut ProcessManager,
    stopped: Result<Option<Termination>, ProcessError>,
)
    requires
        call_ensures(
            ProcessManager::finish_start,
            (manager, name, SpawnOutcome::Spawned(pid)),
            started,
        ),
        started is Ok,
        *old(later) == *final(manager),
        call_ensures(ProcessManager::stop_process, (later, name), stopped),
    ensures
        ({
            &&& stopped matches Ok(Some(t))
            &&& t.abort_monitor
            &&& pid is None ==> t.signal is None
            &&& pid matches Some(p) ==> t.signal is Some && (p <= i32::MAX ==> t.signal->0 as int
                == p as int)
        }),
        !final(later)@[name@].running,
        final(later)@[name@].pid is None,
        !final(later)@[name@].monitored,
        kept(old(manager)@[name@], final(later)@[name@]),
        only_touches(old(manager)@, final(later)@, name@),
{
    if let Some(p) = pid {
        lemma_signal_target(p, p);
    }
}

/// Processes with different identifiers are never signalled as one.
pub proof fn law_different_processes_get_different_signals(
    one: &mut ProcessManager,
    one_name: &str,
    one_done: Result<Option<Termination>, ProcessError>,
    two: &mut ProcessManager,
    two_name: &str,
    two_done: Result<Option<Termination>, ProcessError>,
)
    requires
        call_ensures(ProcessManager::stop_process, (one, one_name), one_done),
        call_ensures(ProcessManager::stop_process, (two, two_name), two_done),
        one_done is Ok && one_done->Ok_0 is Some,
        two_done is Ok && two_done->Ok_0 is Some,
        old(one)@[one_name@].pid is Some,
        old(two)@[two_name@].pid is Some,
    ensures
        one_done->Ok_0->0.signal is Some,
        two_done->Ok_0->0.signal is Some,
        one_done->Ok_0->0.signal == two_done->Ok_0->0.signal ==> old(one)@[one_name@].pid
            == old(two)@[two_name@].pid,
{
    lemma_signal_target(old(one)@[one_name@].pid->0, old(two)@[two_name@].pid->0);
}

/// Stopping: an unknown program is refused; one that does not run is left alone; one that
/// runs does not run afterwards and is still configured as before, with its lines. No
/// other program is touched. Stopping once more does nothing.
pub proof fn law_stop(
    manager: &mut ProcessManager,
    name: &str,
    stopped: Result<Option<Termination>, ProcessError>,
    later: &mut ProcessManager,
    again: Result<Option<Termination>, ProcessError>,
)
    requires
        call_ensures(ProcessManager::stop_process, (manager, name), stopped),
        *old(later) == *final(manager),
        call_ensures(ProcessManager::stop_process, (later, name), again),
    ensures
        !old(manager)@.contains_key(name@) ==> (stopped matches Err(ProcessError::NotFound(n)) && n@
            == name@),
        old(manager)@.contains_key(name@) ==> stopped is Ok,
        old(manager)@.contains_key(name@) && old(manager)@[name@].running <==> (stopped matches Ok(
            Some(_),
        )),
        only_touches(old(manager)@, final(manager)@, name@),
        old(manager)@.contains_key(name@) ==> {
            &&& !final(manager)@[name@].running
            &&& kept(old(manager)@[name@], final(manager)@[name@])
            &&& again matches Ok(None)
        },
        final(later)@ == final(manager)@,
        old(manager)@.contains_key(name@) && !old(manager)@[name@].running ==> final(manager)@
            == old(manager)@,
{
}

/// A program that was started runs: a second start is called off, and the list shows it
/// as running. What it was configured with and what was kept of its output stays. A start
/// that failed changes nothing.
pub proof fn law_started_program_runs(
    manager: &mut ProcessManager,
    name: &str,
    outcome: SpawnOutcome,
    started: Result<Started, ProcessError>,
    launch: Result<Launch, ProcessError>,
    list: Vec<(String, bool)>,
    i: int,
)
    requires
        call_ensures(ProcessManager::finish_start, (manager, name, outcome), started),
        call_ensures(ProcessManager::start_process_single, (&*final(manager), name), launch),
        call_ensures(ProcessManager::list_processes, (&*final(manager),), list),
        0 <= i < list@.len(),
        list@[i].0@ == name@,
    ensures
        started is Ok <==> old(manager)@.contains_key(name@) && outcome is Spawned,
        started is Ok ==> {
            &&& launch matches Ok(Launch::AlreadyRunning)
            &&& list@[i].1
            &&& final(manager)@[name@].pid == outcome->Spawned_0
            &&& final(manager)@[name@].monitored
            &&& kept(old(manager)@[name@], final(manager)@[name@])
            &&& started->Ok_0.log_forward == old(manager)@[name@].config.log_forward
            &&& started->Ok_0.generation == old(manager)@[name@].generation
            &&& started->Ok_0.event matches ProcessEvent::Started(n) && n@ == name@
        },
        started is Err ==> final(manager)@ == old(manager)@,
        old(manager)@.contains_key(name@) && outcome is Failed ==> (started matches Err(
            ProcessError::Spawn(n),
        ) && n@ == name@),
        !old(manager)@.contains_key(name@) ==> (started matches Err(ProcessError::NotFound(n)) && n@
            == name@),
        only_touches(old(manager)@, final(manager)@, name@),
{
}

/// A restart stops the program as a stop would, and starting it afterwards is not called
/// off because it still runs. The pause before that is one second.
pub proof fn law_restart_stops_first(
    manager: &mut ProcessManager,
    name: &str,
    restart: Result<Restart, ProcessError>,
    twin: &mut ProcessManager,
    stopped: Result<Option<Termination>, ProcessError>,
    launch: Result<Launch, ProcessError>,
)
    requires
        call_ensures(ProcessManager::restart_process, (manager, name), restart),
        *old(twin) == *old(manager),
        call_ensures(ProcessManager::stop_process, (twin, name), stopped),
        call_ensures(ProcessManager::start_process_single, (&*final(manager), name), launch),
    ensures
        final(manager)@ == final(twin)@,
        restart is Ok <==> stopped is Ok,
        restart is Ok ==> {
            &&& restart->Ok_0.pause_secs == 1
            &&& restart->Ok_0.stop is Some <==> stopped->Ok_0 is Some
            &&& restart->Ok_0.stop is Some ==> restart->Ok_0.stop->0.signal
                == stopped->Ok_0->0.signal && restart->Ok_0.stop->0.abort_monitor
                == stopped->Ok_0->0.abort_monitor
            &&& !(launch matches Ok(Launch::AlreadyRunning))
            &&& old(manager)@.contains_key(name@)
        },
        restart is Err ==> (restart matches Err(ProcessError::NotFound(n)) && n@ == name@),
{
}

/// After everything was stopped nothing runs. Every process that ran is listed once, with
/// its own identifier to signal, and no other; nothing is forgotten of any program but
/// its process.
pub proof fn law_stop_all_reaches_every_process(
    manager: &mut ProcessManager,
    terminations: Vec<(String, Termination)>,
    name: Seq<char>,
)
    requires
        old(manager).wf(),
        call_ensures(ProcessManager::stop_all, (manager,), terminations),
        old(manager)@.contains_key(name),
    ensures
        final(manager)@.contains_key(name),
        !final(manager)@[name].running,
        kept(old(manager)@[name], final(manager)@[name]),
        old(manager)@[name].running <==> exists|i: int|
            0 <= i < terminations@.len() && (#[trigger] terminations@[i]).0@ == name,
        forall|i: int|
            0 <= i < terminations@.len() && (#[trigger] terminations@[i]).0@ == name ==> {
                &&& terminations@[i].1.abort_monitor == old(manager)@[name].monitored
                &&& terminations@[i].1.signal is Some <==> old(manager)@[name].pid is Some
                &&& old(manager)@[name].pid matches Some(p) ==> (p <= i32::MAX
                    ==> terminations@[i].1.signal->0 as int == p as int)
            },
        forall|i: int, j: int|
            0 <= i < j < terminations@.len() ==> (#[trigger] terminations@[i]).0@ != (
            #[trigger] terminations@[j]).0@,
{
    process::law_names_are_unique(*old(manager));
    let names = old(manager).names();
    let ran = |n: Seq<char>| old(manager)@[n].running;
    let listed = process::terminated_names(terminations@);
    crate::start_order::lemma_filter(names, ran);
    assert(listed == names.filter(ran));
    if old(manager)@[name].running {
        assert(names.contains(name));
        assert(listed.contains(name));
        let i = listed.index_of(name);
        assert(terminations@[i].0@ == name);
    }
    if let Some(p) = old(manager)@[name].pid {
        lemma_signal_target(p, p);
    }
    assert forall|i: int| 0 <= i < terminations@.len() implies listed.contains(
        (#[trigger] terminations@[i]).0@,
    ) by {
        assert(listed[i] == terminations@[i].0@);
    }
    assert forall|i: int, j: int| 0 <= i < j < terminations@.len() implies (
    #[trigger] terminations@[i]).0@ != (#[trigger] terminations@[j]).0@ by {
        assert(listed[i] != listed[j]);
    }
}

/// A process that exits is started again after two seconds if its policy is `always`,
/// whatever its code, and if it is `on-failure` exactly if the code is not 0. With any
/// other policy, with none, and where the program is unknown, nothing is called for.
pub proof fn law_exit_is_answered_by_the_policy(
    manager: &mut ProcessManager,
    name: String,
    code: i32,
    handled: Handled,
)
    requires
        call_ensures(
            ProcessManager::handle_single_event,
            (manager, Received::Event(ProcessEvent::Exited(name, code))),
            handled,
        ),
    ensures
        handled.handled,
        old(manager)@.contains_key(name@) ==> ({
            let policy = old(manager)@[name@].config.restart;
            let restarted = handled.action matches EventAction::ScheduleRestart(n, secs) && n@
                == name@ && secs == 2;
            &&& policy is Some && policy->0@ == "always"@ ==> restarted
            &&& policy is Some && policy->0@ == "on-failure"@ && code != 0 ==> restarted
            &&& policy is Some && policy->0@ == "on-failure"@ && code == 0
                ==> handled.action is Nothing
            &&& policy is Some && policy->0@ != "always"@ && policy->0@ != "on-failure"@
                ==> handled.action is Nothing
            &&& policy is None ==> handled.action is Nothing
        }),
        !old(manager)@.contains_key(name@) ==> handled.action is Nothing,
{
    reveal_strlit("always");
    reveal_strlit("on-failure");
    assert("always"@.len() != "on-failure"@.len());
}

/// An event changes nothing of any program but whether it runs, and that only for the
/// program that exited or could not be waited for: its lines are still there, and nobody
/// is signalled if it is stopped afterwards.
pub proof fn law_events_keep_the_output(
    manager: &mut ProcessManager,
    event: ProcessEvent,
    handled: Handled,
    name: &str,
    later: &mut ProcessManager,
    stopped: Result<Option<Termination>, ProcessError>,
    lines: usize,
    before: Result<Vec<crate::logs::LogLine>, ProcessError>,
    after: Result<Vec<crate::logs::LogLine>, ProcessError>,
)
    requires
        call_ensures(
            ProcessManager::handle_single_event,
            (manager, Received::Event(event)),
            handled,
        ),
        *old(later) == *final(manager),
        call_ensures(ProcessManager::stop_process, (later, name), stopped),
        call_ensures(ProcessManager::get_recent_logs, (&*old(manager), name, lines), before),
        call_ensures(ProcessManager::get_recent_logs, (&*final(manager), name, lines), after),
    ensures
        before is Ok <==> after is Ok,
        before is Ok ==> before->Ok_0@ == after->Ok_0@,
        old(manager)@.contains_key(name@) <==> final(manager)@.contains_key(name@),
        old(manager)@.contains_key(name@) ==> {
            let ended = match event {
                ProcessEvent::Exited(n, _) => n@ == name@,
                ProcessEvent::Failed(n, _) => n@ == name@,
                _ => false,
            };
            &&& kept(old(manager)@[name@], final(manager)@[name@])
            &&& final(manager)@[name@].pid == old(manager)@[name@].pid
            &&& final(manager)@[name@].monitored == old(manager)@[name@].monitored
            &&& ended ==> !final(manager)@[name@].running && (stopped matches Ok(None))
            &&& !ended ==> final(manager)@[name@] == old(manager)@[name@]
        },
{
}

/// A requested restart is carried out, no other event starts anything, and only an exit
/// has a restart scheduled. Without an event nothing happens.
pub proof fn law_other_events(
    manager: &mut ProcessManager,
    received: Received,
    handled: Handled,
)
    requires
        call_ensures(ProcessManager::handle_single_event, (manager, received), handled),
    ensures
        handled.handled <==> received is Event,
        !(received is Event) ==> handled.action is Nothing && final(manager)@ == old(manager)@,
        received matches Received::Event(ProcessEvent::RestartRequested(name)) ==> (
        handled.action matches EventAction::Start(n) && n@ == name@),
        received matches Received::Event(ProcessEvent::Started(_)) ==> handled.action is Nothing,
        received matches Received::Event(ProcessEvent::Failed(_, _)) ==> handled.action is Nothing,
{
}

/// Every program is listed once, with whether it runs; nothing else is listed.
pub proof fn law_list_shows_every_program_once(
    manager: ProcessManager,
    list: Vec<(String, bool)>,
    name: Seq<char>,
)
    requires
        manager.wf(),
        call_ensures(ProcessManager::list_processes, (&manager,), list),
    ensures
        manager@.contains_key(name) <==> exists|i: int|
            0 <= i < list@.len() && (#[trigger] list@[i]).0@ == name,
        forall|i: int|
            0 <= i < list@.len() && (#[trigger] list@[i]).0@ == name ==> list@[i].1
                == manager@[name].running,
        forall|i: int, j: int|
            0 <= i < j < list@.len() ==> (#[trigger] list@[i]).0@ != (#[trigger] list@[j]).0@,
{
    process::law_names_are_unique(manager);
    let names = manager.names();
    if manager@.contains_key(name) {
        let i = names.index_of(name);
        assert(names.contains(name));
        assert(list@[i].0@ == name);
    }
    assert forall|i: int, j: int| 0 <= i < j < list@.len() implies (#[trigger] list@[i]).0@ != (
    #[trigger] list@[j]).0@ by {
        assert(names[i] != names[j]);
    }
}

/// The programs that come up with the daemon are those configured to, each once, and the
/// first one handed out is the first of them that does not run. Where none is handed out,
/// all of them run.
pub proof fn law_autostart_programs_are_picked(
    manager: ProcessManager,
    begun: AutostartSession,
    session: &mut AutostartSession,
    picked: Option<String>,
    name: Seq<char>,
)
    requires
        manager.wf(),
        call_ensures(ProcessManager::start_all_autostart, (&manager,), begun),
        *old(session) == begun,
        call_ensures(ProcessManager::next_autostart, (&manager, session), picked),
    ensures
        begun.names().contains(name) <==> manager@.contains_key(name)
            && manager@[name].config.autostart,
        begun.names().no_duplicates(),
        picked matches Some(n) ==> manager@.contains_key(n@) && manager@[n@].config.autostart
            && !manager@[n@].running,
        picked is None && manager@.contains_key(name) && manager@[name].config.autostart
            ==> manager@[name].running,
        final(session).names() == begun.names(),
{
    process::law_names_are_unique(manager);
    let names = manager.names();
    let keep = |n: Seq<char>| manager@[n].config.autostart;
    crate::start_order::lemma_filter(names, keep);
    assert(begun.names() == names.filter(keep));
    if let Some(n) = picked {
        assert(begun.names().contains(n@));
    }
    if picked is None && begun.names().contains(name) {
        let i = begun.names().index_of(name);
        assert(process::runs(manager@, begun.names()[i]));
    }
}

/// Going on with the programs that come up with the daemon, the next one handed out is the
/// first, of those that are left, that does not run; where none is handed out, all that
/// are left run. Nothing is handed out twice.
pub proof fn law_autostart_goes_on(
    manager: ProcessManager,
    session: &mut AutostartSession,
    picked: Option<String>,
    i: int,
)
    requires
        call_ensures(ProcessManager::next_autostart, (&manager, session), picked),
        old(session).next() <= i < old(session).names().len(),
    ensures
        final(session).names() == old(session).names(),
        picked matches Some(n) ==> {
            &&& old(session).next() < final(session).next() <= old(session).names().len()
            &&& old(session).names()[final(session).next() - 1] == n@
            &&& !(manager@.contains_key(n@) && manager@[n@].running)
            &&& i < final(session).next() - 1 ==> manager@.contains_key(old(session).names()[i])
                && manager@[old(session).names()[i]].running
        },
        picked is None ==> manager@.contains_key(old(session).names()[i])
            && manager@[old(session).names()[i]].running,
{
    let names = old(session).names();
    if picked is None || i < final(session).next() - 1 {
        assert(process::runs(manager@, names[i]));
    }
}

/// An exit is announced with the name of the program and its code, and with -1 if a
/// signal killed it; a failed wait with the reason.
pub proof fn law_exit_is_announced_truly(name: &str, waited: WaitOutcome, event: ProcessEvent)
    requires
        call_ensures(process::monitor_event, (name, waited), event),
    ensures
        waited matches WaitOutcome::Exited(Some(code)) ==> (event matches ProcessEvent::Exited(
            n,
            c,
        ) && n@ == name@ && c == code),
        waited matches WaitOutcome::Exited(None) ==> (event matches ProcessEvent::Exited(n, c)
            && n@ == name@ && c == -1),
        waited matches WaitOutcome::Failed(reason) ==> (event matches ProcessEvent::Failed(n, r)
            && n@ == name@ && r@ == reason@),
{
}

/// `always` restarts on any code, `on-failure` on every code but 0, any other text and no
/// text never.
pub proof fn law_policies(policy: Option<String>, code: i32, restart: bool)
    requires
        call_ensures(process::should_restart, (&policy, code), restart),
    ensures
        policy is Some && policy->0@ == "always"@ ==> restart,
        policy is Some && policy->0@ == "on-failure"@ ==> (restart <==> code != 0),
        restart ==> policy is Some && (policy->0@ == "always"@ || policy->0@ == "on-failure"@),
{
    reveal_strlit("always");
    reveal_strlit("on-failure");
    assert("always"@.len() != "on-failure"@.len());
}

} // verus!
