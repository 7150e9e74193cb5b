//! In which order programs are started.

use crate::command::CommandSpec;
use crate::config::ProgramConfig;
use crate::error::ProcessError;
use crate::process::{
    self, Launch, ProcessManager, SpawnOutcome, StartSession, StartStep, Started,
};
use crate::start_order;
use crate::text;
use vstd::prelude::*;

verus! {

/// The list names that program.
pub open spec fn lists(list: Option<Vec<String>>, name: Seq<char>) -> bool {
    list is Some && exists|j: int| 0 <= j < list->0@.len() && (#[trigger] list->0@[j])@ == name
}

/// The name stands in that order.
pub open spec fn is_in(order: Seq<String>, name: Seq<char>) -> bool {
    exists|k: int| 0 <= k < order.len() && (#[trigger] order[k])@ == name
}

/// The texts of a list are what it names.
proof fn lemma_lists(list: Option<Vec<String>>, name: Seq<char>)
    ensures
        process::listed(list).contains(name) <==> lists(list, name),
{
    let texts = process::listed(list);
    if texts.contains(name) {
        let j = texts.index_of(name);
        assert(list->0@[j]@ == name);
    }
    if lists(list, name) {
        let j = choose|j: int| 0 <= j < list->0@.len() && (#[trigger] list->0@[j])@ == name;
        assert(texts[j] == name);
    }
}

/// The texts of an order are what stands in it.
proof fn lemma_is_in(order: Seq<String>, name: Seq<char>)
    ensures
        text::texts(order).contains(name) <==> is_in(order, name),
{
    let texts = text::texts(order);
    if texts.contains(name) {
        let k = texts.index_of(name);
        assert(order[k]@ == name);
    }
    if is_in(order, name) {
        let k = choose|k: int| 0 <= k < order.len() && (#[trigger] order[k])@ == name;
        assert(texts[k] == name);
    }
}

/// What a program pulls in is what its lists name, as far as it is configured.
proof fn lemma_pulled_in(manager: ProcessManager, unit: Seq<char>, name: Seq<char>)
    requires
        manager@.contains_key(unit),
    ensures
        start_order::pulled_in(process::catalog(manager@), unit).contains(name)
            <==> manager@.contains_key(name) && (lists(manager@[unit].config.after, name) || lists(
            manager@[unit].config.wants,
            name,
        )),
        start_order::predecessors(process::catalog(manager@), unit).contains(name)
            <==> manager@.contains_key(name) && lists(manager@[unit].config.after, name),
{
    let units = process::catalog(manager@);
    let config = manager@[unit].config;
    let keep = |n: Seq<char>| units.contains_key(n);
    let after = process::listed(config.after);
    let wants = process::listed(config.wants);
    assert(units[unit].after == after && units[unit].wants == wants);
    start_order::lemma_filter(after, keep);
    start_order::lemma_filter(after + wants, keep);
    start_order::lemma_add_contains(after, wants, name);
    lemma_lists(config.after, name);
    lemma_lists(config.wants, name);
}

/// Starting a program is refused exactly if it is not configured. Otherwise the order
/// holds it, holds configured programs only, each once; with a program it holds every
/// configured one that its lists name; and nothing is in it without being named by another
/// that is.
pub proof fn law_order_is_closed_and_minimal(
    manager: ProcessManager,
    name: &str,
    result: Result<Vec<String>, ProcessError>,
)
    requires
        manager.wf(),
        call_ensures(ProcessManager::resolve_start_order, (&manager, name), result),
    ensures
        result is Ok <==> manager@.contains_key(name@),
        result is Err ==> (result matches Err(ProcessError::NotFound(n)) && n@ == name@),
        result is Ok ==> {
            let order = result->Ok_0@;
            &&& is_in(order, name@)
            &&& forall|i: int| 0 <= i < order.len() ==> manager@.contains_key(
                (#[trigger] order[i])@,
            )
            &&& forall|i: int, j: int|
                0 <= i < j < order.len() ==> (#[trigger] order[i])@ != (#[trigger] order[j])@
            &&& forall|i: int, n: Seq<char>|
                0 <= i < order.len() && #[trigger] manager@.contains_key(n) && (lists(
                    manager@[(#[trigger] order[i])@].config.after,
                    n,
                ) || lists(manager@[order[i]@].config.wants, n)) ==> is_in(order, n)
            &&& forall|i: int|
                0 <= i < order.len() && (#[trigger] order[i])@ != name@ ==> exists|k: int|
                    0 <= k < order.len() && (lists(
                        manager@[(#[trigger] order[k])@].config.after,
                        order[i]@,
                    ) || lists(manager@[order[k]@].config.wants, order[i]@))
        },
{
    if result is Ok {
        let order = result->Ok_0@;
        let texts = text::texts(order);
        let units = process::catalog(manager@);
        process::law_names_are_unique(manager);
        assert(units.dom() =~= manager@.dom());
        start_order::law_start_order_is_complete(units, name@);
        start_order::lemma_discovered(units, name@);
        lemma_is_in(order, name@);
        assert forall|i: int, j: int| 0 <= i < j < order.len() implies (#[trigger] order[i])@ != (
        #[trigger] order[j])@ by {
            assert(texts[i] != texts[j]);
        }
        assert forall|i: int, n: Seq<char>|
            0 <= i < order.len() && #[trigger] manager@.contains_key(n) && (lists(
                manager@[(#[trigger] order[i])@].config.after,
                n,
            ) || lists(manager@[order[i]@].config.wants, n)) implies is_in(order, n) by {
            let unit = order[i]@;
            assert(texts[i] == unit);
            assert(texts.contains(unit));
            lemma_pulled_in(manager, unit, n);
            assert(start_order::comes_with(units, name@, unit));
            start_order::lemma_pulled_in_discovered(units, name@, unit, n);
            assert(start_order::comes_with(units, name@, n));
            lemma_is_in(order, n);
        }
        assert forall|i: int| 0 <= i < order.len() && (#[trigger] order[i])@ != name@ implies exists|
            k: int,
        |
            0 <= k < order.len() && (lists(
                manager@[(#[trigger] order[k])@].config.after,
                order[i]@,
            ) || lists(manager@[order[k]@].config.wants, order[i]@)) by {
            let n = order[i]@;
            assert(texts[i] == n);
            assert(texts.contains(n));
            assert(start_order::comes_with(units, name@, n));
            let walk = choose|walk: Seq<Seq<char>>|
                walk.len() > 0 && walk.first() == name@ && walk.last() == n
                    && #[trigger] start_order::pull_walk(units, walk);
            assert(walk.len() > 1);
            let front = walk.drop_last();
            let unit = front.last();
            assert(unit == walk[walk.len() - 2]);
            assert(start_order::pulled_in(units, walk[walk.len() - 2]).contains(
                walk[walk.len() - 2 + 1],
            ));
            assert forall|j: int| 0 <= j < front.len() - 1 implies start_order::pulled_in(
                units,
                #[trigger] front[j],
            ).contains(front[j + 1]) by {
                assert(front[j] == walk[j] && front[j + 1] == walk[j + 1]);
            }
            assert(start_order::pull_walk(units, front));
            assert(front.first() == name@);
            assert(start_order::comes_with(units, name@, unit));
            assert(texts.contains(unit));
            let k = texts.index_of(unit);
            assert(order[k]@ == unit);
            lemma_pulled_in(manager, unit, n);
        }
    }
}

/// Walks against the `after` lists go down in rank.
proof fn lemma_ranked_walk(
    manager: ProcessManager,
    rank: spec_fn(Seq<char>) -> nat,
    walk: Seq<Seq<char>>,
    i: int,
    j: int,
)
    requires
        forall|u: Seq<char>, v: Seq<char>|
            manager@.contains_key(u) && manager@.contains_key(v) && #[trigger] lists(
                manager@[u].config.after,
                v,
            ) ==> #[trigger] rank(v) < rank(u),
        start_order::after_walk(process::catalog(manager@), walk),
        walk.len() > 0,
        manager@.contains_key(walk[0]),
        0 <= i <= j < walk.len(),
    ensures
        manager@.contains_key(walk[j]),
        i < j ==> rank(walk[j]) < rank(walk[i]),
    decreases j,
{
    let units = process::catalog(manager@);
    if j > 0 {
        lemma_ranked_walk(manager, rank, walk, if i < j { i } else { j - 1 }, j - 1);
        assert(start_order::predecessors(units, walk[j - 1]).contains(walk[j - 1 + 1]));
        lemma_pulled_in(manager, walk[j - 1], walk[j]);
        assert(lists(manager@[walk[j - 1]].config.after, walk[j]));
        assert(rank(walk[j]) < rank(walk[j - 1]));
    }
}

/// Where the programs can be ranked so that each ranks above everything in its `after`
/// list, the order keeps every `after` list.
pub proof fn law_after_lists_are_kept(
    manager: ProcessManager,
    name: &str,
    result: Result<Vec<String>, ProcessError>,
    rank: spec_fn(Seq<char>) -> nat,
    i: int,
    j: int,
)
    requires
        manager.wf(),
        call_ensures(ProcessManager::resolve_start_order, (&manager, name), result),
        result is Ok,
        forall|u: Seq<char>, v: Seq<char>|
            manager@.contains_key(u) && manager@.contains_key(v) && #[trigger] lists(
                manager@[u].config.after,
                v,
            ) ==> #[trigger] rank(v) < rank(u),
        0 <= i < result->Ok_0@.len(),
        0 <= j < result->Ok_0@.len(),
        lists(manager@[result->Ok_0@[j]@].config.after, result->Ok_0@[i]@),
    ensures
        i < j,
{
    let order = result->Ok_0@;
    let texts = text::texts(order);
    let units = process::catalog(manager@);
    let later = order[j]@;
    let earlier = order[i]@;
    process::law_names_are_unique(manager);
    assert(units.dom() =~= manager@.dom());
    start_order::law_start_order_is_complete(units, name@);
    assert(texts[i] == earlier && texts[j] == later);
    assert(texts.contains(later) && texts.contains(earlier));
    assert(start_order::free_of_cycles(units, later)) by {
        assert forall|walk: Seq<Seq<char>>|
            walk.len() > 0 && walk.first() == later && #[trigger] start_order::after_walk(
                units,
                walk,
            ) implies walk.no_duplicates() by {
            assert forall|a: int, b: int|
                0 <= a < walk.len() && 0 <= b < walk.len() && a != b implies walk[a]
                != walk[b] by {
                if a < b {
                    lemma_ranked_walk(manager, rank, walk, a, b);
                } else {
                    lemma_ranked_walk(manager, rank, walk, b, a);
                }
            }
        }
    }
    lemma_lists(manager@[later].config.after, earlier);
    assert(units[later].after == process::listed(manager@[later].config.after));
    assert(start_order::comes_with(units, name@, later));
    start_order::law_after_is_kept(units, name@, later, earlier);
    let (a, b) = choose|a: int, b: int|
        0 <= a < b < texts.len() && #[trigger] texts[a] == earlier && #[trigger] texts[b] == later;
    if a != i {
        assert(texts[a] != texts[i]);
    }
    if b != j {
        assert(texts[b] != texts[j]);
    }
}

/// Where nothing in the order has a configured program in its `after` list, the program
/// that was asked for comes first: being wanted imposes no order.
pub proof fn law_wanted_programs_may_wait(
    manager: ProcessManager,
    name: &str,
    result: Result<Vec<String>, ProcessError>,
)
    requires
        manager.wf(),
        call_ensures(ProcessManager::resolve_start_order, (&manager, name), result),
        result is Ok,
        forall|i: int, n: Seq<char>|
            0 <= i < result->Ok_0@.len() && #[trigger] manager@.contains_key(n) ==> !lists(
                manager@[(#[trigger] result->Ok_0@[i])@].config.after,
                n,
            ),
    ensures
        result->Ok_0@.len() > 0,
        result->Ok_0@[0]@ == name@,
{
    let order = result->Ok_0@;
    let texts = text::texts(order);
    let units = process::catalog(manager@);
    process::law_names_are_unique(manager);
    assert(units.dom() =~= manager@.dom());
    start_order::law_start_order_is_complete(units, name@);
    assert forall|n: Seq<char>| #[trigger]
        start_order::comes_with(units, name@, n) implies start_order::predecessors(units, n).len()
        == 0 by {
        assert(texts.contains(n));
        let i = texts.index_of(n);
        assert(order[i]@ == n);
        let before = start_order::predecessors(units, n);
        if before.len() > 0 {
            assert(before.contains(before[0]));
            lemma_pulled_in(manager, n, before[0]);
            assert(manager@.contains_key(before[0]));
        }
    }
    start_order::law_wants_imposes_no_order(units, name@);
    assert(texts.contains(name@));
    assert(texts[0] == order[0]@);
}

/// A request goes through exactly the order that is resolved for its program, from its
/// beginning, with nothing decided yet.
pub proof fn law_request_follows_the_order(
    manager: ProcessManager,
    name: &str,
    session: Result<StartSession, ProcessError>,
    order: Result<Vec<String>, ProcessError>,
    i: int,
)
    requires
        call_ensures(ProcessManager::start_process, (&manager, name), session),
        call_ensures(ProcessManager::resolve_start_order, (&manager, name), order),
    ensures
        session is Ok <==> order is Ok,
        session is Ok ==> {
            &&& session->Ok_0@.root == name@
            &&& session->Ok_0@.next == 0
            &&& session->Ok_0@.result is None
            &&& session->Ok_0@.order.len() == order->Ok_0@.len()
            &&& 0 <= i < order->Ok_0@.len() ==> session->Ok_0@.order[i] == order->Ok_0@[i]@
        },
        session is Err ==> (session matches Err(ProcessError::NotFound(n)) && n@ == name@),
{
}

/// Two commands ask for the same.
pub open spec fn same_command(one: CommandSpec, two: CommandSpec) -> bool {
    &&& one.program@ == two.program@
    &&& one.args@.len() == two.args@.len()
    &&& forall|i: int| 0 <= i < one.args@.len() ==> (#[trigger] one.args@[i])@ == two.args@[i]@
    &&& one.env@.len() == two.env@.len()
    &&& forall|i: int|
        0 <= i < one.env@.len() ==> (#[trigger] one.env@[i]).0@ == two.env@[i].0@
            && one.env@[i].1@ == two.env@[i].1@
}

/// Each program of a request is dealt with as a start of this program alone would be: it
/// is passed over if it runs, refused if it cannot be launched, and otherwise spawned with
/// the same command, whereupon the request waits for the report. A refused program counts
/// as the result only if it is the one that was asked for.
pub proof fn law_each_program_is_dealt_with_as_if_alone(
    manager: ProcessManager,
    session: &mut StartSession,
    step: StartStep,
    unit: &str,
    launch: Result<Launch, ProcessError>,
)
    requires
        old(session)@.next < old(session)@.order.len(),
        unit@ == old(session)@.order[old(session)@.next as int],
        call_ensures(ProcessManager::next_start, (&manager, session), step),
        call_ensures(ProcessManager::start_process_single, (&manager, unit), launch),
    ensures
        final(session)@.root == old(session)@.root,
        final(session)@.order == old(session)@.order,
        launch matches Ok(Launch::AlreadyRunning) ==> {
            &&& step matches StartStep::Running(n) && n@ == unit@
            &&& final(session)@.next == old(session)@.next + 1
            &&& unit@ == old(session)@.root ==> (final(session)@.result matches Some(Ok(_)))
            &&& unit@ != old(session)@.root ==> final(session)@.result == old(session)@.result
        },
        launch matches Ok(Launch::Spawn(alone)) ==> {
            &&& step matches StartStep::Spawn(n, command) && n@ == unit@ && same_command(
                alone,
                command,
            )
            &&& final(session)@ == old(session)@
        },
        launch matches Err(reason) ==> {
            &&& step matches StartStep::Refused(n, e) && n@ == unit@ && e.text() == reason.text()
            &&& final(session)@.next == old(session)@.next + 1
            &&& unit@ == old(session)@.root ==> (final(session)@.result matches Some(Err(e))
                && e.text() == reason.text())
            &&& unit@ != old(session)@.root ==> final(session)@.result == old(session)@.result
        },
{
    if let Ok(Launch::Spawn(alone)) = launch {
        if let StartStep::Spawn(_, command) = step {
            lemma_same_command(
                alone,
                command,
                crate::command::shell_words_of(manager@[unit@].config.command@)->0,
                manager@[unit@].config,
            );
        }
    }
}

/// Two commands for the same words and the same program ask for the same.
proof fn lemma_same_command(
    one: CommandSpec,
    two: CommandSpec,
    words: Seq<Seq<char>>,
    config: ProgramConfig,
)
    requires
        one.runs(words, config),
        two.runs(words, config),
    ensures
        same_command(one, two),
{
    assert(text::texts(one.args@).len() == text::texts(two.args@).len());
    assert forall|i: int| 0 <= i < one.args@.len() implies (#[trigger] one.args@[i])@
        == two.args@[i]@ by {
        assert(text::texts(one.args@)[i] == text::texts(two.args@)[i]);
    }
    let a = crate::command::variables(one.env@);
    let b = crate::command::variables(two.env@);
    assert(a.len() == b.len());
    assert forall|i: int| 0 <= i < one.env@.len() implies (#[trigger] one.env@[i]).0@
        == two.env@[i].0@ && one.env@[i].1@ == two.env@[i].1@ by {
        assert(a[i] == b[i]);
    }
}

/// A request that has dealt with all programs hands out what came of the one that was
/// asked for, and nothing before.
pub proof fn law_request_ends_with_its_result(
    manager: ProcessManager,
    session: &mut StartSession,
    step: StartStep,
)
    requires
        call_ensures(ProcessManager::next_start, (&manager, session), step),
    ensures
        step is Finished <==> old(session)@.next >= old(session)@.order.len(),
        step matches StartStep::Finished(result) ==> old(session)@.result == Some(result)
            && final(session)@ == old(session)@,
{
}

/// The report on a spawned program does to the table what the same report on this program
/// alone would do, and moves the request on. It is the result exactly if the program is
/// the one that was asked for.
pub proof fn law_report_counts_for_its_program(
    manager: &mut ProcessManager,
    session: &mut StartSession,
    outcome: SpawnOutcome,
    done: Result<Started, ProcessError>,
    twin: &mut ProcessManager,
    unit: &str,
    alone: Result<Started, ProcessError>,
)
    requires
        call_ensures(ProcessManager::spawn_finished, (manager, session, outcome), done),
        *old(twin) == *old(manager),
        unit@ == old(session)@.order[old(session)@.next as int],
        call_ensures(ProcessManager::finish_start, (twin, unit, outcome), alone),
    ensures
        final(manager)@ == final(twin)@,
        done is Ok <==> alone is Ok,
        done is Ok ==> done->Ok_0.log_forward == alone->Ok_0.log_forward && done->Ok_0.generation
            == alone->Ok_0.generation,
        done is Err ==> done->Err_0.text() == alone->Err_0.text(),
        final(session)@.root == old(session)@.root,
        final(session)@.order == old(session)@.order,
        final(session)@.next == old(session)@.next + 1,
        unit@ != old(session)@.root ==> final(session)@.result == old(session)@.result,
        unit@ == old(session)@.root ==> final(session)@.result is Some && (
        final(session)@.result->0 is Ok <==> done is Ok),
{
}

/// An unknown name in a list of a program that is started is warned about, with both
/// names.
pub proof fn law_unknown_names_are_warned_about(
    manager: ProcessManager,
    name: &str,
    order: Result<Vec<String>, ProcessError>,
    warnings: Vec<String>,
    i: int,
    unknown: Seq<char>,
)
    requires
        manager.wf(),
        call_ensures(ProcessManager::resolve_start_order, (&manager, name), order),
        call_ensures(ProcessManager::start_warnings, (&manager, name), warnings),
        order is Ok,
        0 <= i < order->Ok_0@.len(),
        !manager@.contains_key(unknown),
        lists(manager@[order->Ok_0@[i]@].config.after, unknown) || lists(
            manager@[order->Ok_0@[i]@].config.wants,
            unknown,
        ),
    ensures
        exists|w: int|
            0 <= w < warnings@.len() && (#[trigger] warnings@[w])@ == "Process '"@
                + order->Ok_0@[i]@ + "' references unknown program '"@ + unknown
                + "' in after/wants"@,
{
    let units = process::catalog(manager@);
    let unit = order->Ok_0@[i]@;
    let texts = text::texts(order->Ok_0@);
    process::law_names_are_unique(manager);
    assert(units.dom() =~= manager@.dom());
    start_order::law_start_order_is_complete(units, name@);
    start_order::lemma_discovered(units, name@);
    assert(texts[i] == unit);
    assert(texts.contains(unit));
    assert(start_order::comes_with(units, name@, unit));
    let all = start_order::discovered(units, name@);
    assert(all.contains(unit));
    let config = manager@[unit].config;
    let after = process::listed(config.after);
    let wants = process::listed(config.wants);
    assert(units[unit].after == after && units[unit].wants == wants);
    lemma_lists(config.after, unknown);
    lemma_lists(config.wants, unknown);
    start_order::lemma_add_contains(after, wants, unknown);
    start_order::lemma_filter(after + wants, |n: Seq<char>| !units.contains_key(n));
    let missing = start_order::unknown(units, unit);
    assert(missing.contains(unknown));
    let words = process::unit_warnings(units, unit);
    let at = missing.index_of(unknown);
    assert(words[at] == process::unknown_warning(unit, unknown));
    lemma_unit_warned(units, all, all.index_of(unit), words[at]);
    let given = text::texts(warnings@);
    let some = process::unknown_warnings(units, all);
    assert(some.contains(words[at]));
    let w = some.index_of(words[at]);
    assert(0 <= w < some.len() && some[w] == words[at]);
    assert(given.len() == warnings@.len());
    assert(process::warnings_for(units, name@).len() >= some.len());
    assert(given[w] == some[w]);
    assert(given[w] == warnings@[w]@);
}

/// The warnings about one program are among those about all.
proof fn lemma_unit_warned(
    units: Map<Seq<char>, start_order::Links>,
    found: Seq<Seq<char>>,
    i: int,
    warning: Seq<char>,
)
    requires
        0 <= i < found.len(),
        process::unit_warnings(units, found[i]).contains(warning),
    ensures
        process::unknown_warnings(units, found).contains(warning),
    decreases found.len(),
{
    let front = found.drop_last();
    if i < front.len() {
        assert(front[i] == found[i]);
        lemma_unit_warned(units, front, i, warning);
    }
    start_order::lemma_add_contains(
        process::unknown_warnings(units, front),
        process::unit_warnings(units, found.last()),
        warning,
    );
}

/// Where the programs can be ranked so that each ranks above everything in its `after`
/// list, and no program that is started lists an unknown name, there is nothing to warn
/// about.
pub proof fn law_no_needless_warnings(
    manager: ProcessManager,
    name: &str,
    order: Result<Vec<String>, ProcessError>,
    warnings: Vec<String>,
    rank: spec_fn(Seq<char>) -> nat,
)
    requires
        manager.wf(),
        call_ensures(ProcessManager::resolve_start_order, (&manager, name), order),
        call_ensures(ProcessManager::start_warnings, (&manager, name), warnings),
        order is Ok,
        forall|u: Seq<char>, v: Seq<char>|
            manager@.contains_key(u) && manager@.contains_key(v) && #[trigger] lists(
                manager@[u].config.after,
                v,
            ) ==> #[trigger] rank(v) < rank(u),
        forall|i: int, n: Seq<char>|
            0 <= i < order->Ok_0@.len() && #[trigger] lists(
                manager@[(#[trigger] order->Ok_0@[i])@].config.after,
                n,
            ) ==> manager@.contains_key(n),
        forall|i: int, n: Seq<char>|
            0 <= i < order->Ok_0@.len() && #[trigger] lists(
                manager@[(#[trigger] order->Ok_0@[i])@].config.wants,
                n,
            ) ==> manager@.contains_key(n),
    ensures
        warnings@.len() == 0,
{
    let units = process::catalog(manager@);
    let texts = text::texts(order->Ok_0@);
    process::law_names_are_unique(manager);
    assert(units.dom() =~= manager@.dom());
    start_order::law_start_order_is_complete(units, name@);
    start_order::law_cycles_are_noticed(units, name@);
    start_order::lemma_discovered(units, name@);
    assert forall|n: Seq<char>| #[trigger]
        start_order::comes_with(units, name@, n) implies start_order::free_of_cycles(units, n) by {
        assert(texts.contains(n));
        assert forall|walk: Seq<Seq<char>>|
            walk.len() > 0 && walk.first() == n && #[trigger] start_order::after_walk(
                units,
                walk,
            ) implies walk.no_duplicates() by {
            assert forall|a: int, b: int|
                0 <= a < walk.len() && 0 <= b < walk.len() && a != b implies walk[a]
                != walk[b] by {
                if a < b {
                    lemma_ranked_walk(manager, rank, walk, a, b);
                } else {
                    lemma_ranked_walk(manager, rank, walk, b, a);
                }
            }
        }
    }
    let all = start_order::discovered(units, name@);
    assert forall|k: int| 0 <= k < all.len() implies start_order::unknown(
        units,
        #[trigger] all[k],
    ).len() == 0 by {
        let unit = all[k];
        assert(all.contains(unit));
        assert(start_order::comes_with(units, name@, unit));
        assert(texts.contains(unit));
        let i = texts.index_of(unit);
        assert(order->Ok_0@[i]@ == unit);
        let config = manager@[unit].config;
        let after = process::listed(config.after);
        let wants = process::listed(config.wants);
        assert(units[unit].after == after && units[unit].wants == wants);
        let missing = start_order::unknown(units, unit);
        start_order::lemma_filter(after + wants, |n: Seq<char>| !units.contains_key(n));
        if missing.len() > 0 {
            let n = missing[0];
            assert(missing.contains(n));
            start_order::lemma_add_contains(after, wants, n);
            lemma_lists(config.after, n);
            lemma_lists(config.wants, n);
            assert(manager@.contains_key(n));
        }
    }
    lemma_nothing_unknown(units, all);
    assert(text::texts(warnings@).len() == 0);
}

/// Programs that wait for each other in a circle, one of which is started, are warned
/// about, with the program that was asked for.
pub proof fn law_circles_are_warned_about(
    manager: ProcessManager,
    name: &str,
    order: Result<Vec<String>, ProcessError>,
    warnings: Vec<String>,
    circle: Seq<Seq<char>>,
)
    requires
        manager.wf(),
        call_ensures(ProcessManager::resolve_start_order, (&manager, name), order),
        call_ensures(ProcessManager::start_warnings, (&manager, name), warnings),
        order is Ok,
        circle.len() > 1,
        circle.first() == circle.last(),
        is_in(order->Ok_0@, circle.first()),
        forall|i: int| 0 <= i < circle.len() ==> manager@.contains_key(#[trigger] circle[i]),
        forall|i: int|
            0 <= i < circle.len() - 1 ==> lists(
                manager@[#[trigger] circle[i]].config.after,
                circle[i + 1],
            ),
    ensures
        warnings@.len() > 0,
        warnings@.last()@ == "Dependency cycle detected in 'after' configuration while starting '"@
            + name@ + "'; starting remaining processes in their original order"@,
{
    let units = process::catalog(manager@);
    let texts = text::texts(order->Ok_0@);
    process::law_names_are_unique(manager);
    assert(units.dom() =~= manager@.dom());
    start_order::law_start_order_is_complete(units, name@);
    start_order::law_cycles_are_noticed(units, name@);
    lemma_is_in(order->Ok_0@, circle.first());
    assert(texts.contains(circle.first()));
    assert(start_order::comes_with(units, name@, circle.first()));
    assert forall|i: int| 0 <= i < circle.len() - 1 implies start_order::predecessors(
        units,
        #[trigger] circle[i],
    ).contains(circle[i + 1]) by {
        lemma_pulled_in(manager, circle[i], circle[i + 1]);
    }
    assert(start_order::after_walk(units, circle));
    assert(circle[0] == circle[circle.len() - 1]);
    assert(!circle.no_duplicates());
    assert(!start_order::free_of_cycles(units, circle.first()));
    let given = text::texts(warnings@);
    assert(given.len() == warnings@.len());
    assert(given.last() == process::cycle_warning(name@));
    assert(given[given.len() - 1] == warnings@[warnings@.len() - 1]@);
}

/// Where no program lists an unknown name, there are no warnings about such.
proof fn lemma_nothing_unknown(units: Map<Seq<char>, start_order::Links>, found: Seq<Seq<char>>)
    requires
        forall|k: int|
            0 <= k < found.len() ==> start_order::unknown(units, #[trigger] found[k]).len() == 0,
    ensures
        process::unknown_warnings(units, found).len() == 0,
    decreases found.len(),
{
    if found.len() > 0 {
        let front = found.drop_last();
        assert forall|k: int| 0 <= k < front.len() implies start_order::unknown(
            units,
            #[trigger] front[k],
        ).len() == 0 by {
            assert(front[k] == found[k]);
        }
        lemma_nothing_unknown(units, front);
        assert(start_order::unknown(units, found[found.len() - 1]).len() == 0);
    }
}

} // verus!
