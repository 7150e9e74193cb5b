//! The table of supervised programs and what happens to it.
//!
//! The table knows what is configured, what runs, and what was printed. It decides;
//! starting processes, sending signals and waiting is left to its caller, who
//! reports back what came of it.

use crate::command::{self, CommandSpec};
use crate::config::{GlobalConfig, ProgramConfig};
use crate::error::ProcessError;
use crate::logs::{self, LogBuffer, LogLine};
use crate::resolver;
use crate::start_order::{self, Links};
use crate::text;
use vstd::prelude::*;
use vstd::string::*;

verus! {

/// What is known of one program.
pub struct ProcessModel {
    pub config: ProgramConfig,
    /// Whether somebody waits for the process to exit.
    pub monitored: bool,
    pub pid: Option<u32>,
    pub running: bool,
    /// The lines that were kept, oldest first.
    pub logs: Seq<LogLine>,
    /// Which loading put the program into the table.
    pub generation: u64,
}

/// The number of a loading, counted from the first one ever. It starts over after
/// 2^64 of them.
pub open spec fn loading(count: nat) -> u64 {
    (count % 0x1_0000_0000_0000_0000) as u64
}

/// A program that was never started, put into the table by that loading.
pub open spec fn fresh(config: ProgramConfig, generation: u64) -> ProcessModel {
    ProcessModel {
        config,
        monitored: false,
        pid: None,
        running: false,
        logs: Seq::empty(),
        generation,
    }
}

/// The texts of a list that may be missing.
pub open spec fn listed(list: Option<Vec<String>>) -> Seq<Seq<char>> {
    match list {
        Some(names) => text::texts(names@),
        None => Seq::empty(),
    }
}

/// The `after` and `wants` lists of a program.
pub open spec fn links(config: ProgramConfig) -> Links {
    Links { after: listed(config.after), wants: listed(config.wants) }
}

/// The lists of all programs.
pub open spec fn catalog(programs: Map<Seq<char>, ProcessModel>) -> Map<Seq<char>, Links> {
    Map::new(|n: Seq<char>| programs.contains_key(n), |n: Seq<char>| links(programs[n].config))
}

/// The table after all of `added` were put into it, one after the other, where the first
/// of them is loading number `loads`.
pub open spec fn loaded(
    programs: Map<Seq<char>, ProcessModel>,
    added: Seq<(String, ProgramConfig)>,
    loads: u64,
) -> Map<Seq<char>, ProcessModel>
    decreases added.len(),
{
    if added.len() == 0 {
        programs
    } else {
        loaded(programs, added.drop_last(), loads).insert(
            added.last().0@,
            fresh(added.last().1, loading((loads + added.len() - 1) as nat)),
        )
    }
}

/// The names of a list of programs.
pub open spec fn program_names(added: Seq<(String, ProgramConfig)>) -> Seq<Seq<char>> {
    Seq::new(added.len(), |i: int| added[i].0@)
}

/// One row of the table.
#[derive(Debug)]
struct ManagedProcess {
    name: String,
    config: ProgramConfig,
    monitored: bool,
    pid: Option<u32>,
    running: bool,
    log_buffer: LogBuffer,
    generation: u64,
}

impl ManagedProcess {
    /// No more lines are kept than there is room for, and none of output that is not
    /// forwarded.
    spec fn wf(self) -> bool {
        &&& self.log_buffer.wf()
        &&& !self.config.log_forward ==> self.log_buffer@.len() == 0
    }

    spec fn model(self) -> ProcessModel {
        ProcessModel {
            config: self.config,
            monitored: self.monitored,
            pid: self.pid,
            running: self.running,
            logs: self.log_buffer@,
            generation: self.generation,
        }
    }
}

/// The names of the rows.
spec fn row_names(rows: Seq<ManagedProcess>) -> Seq<Seq<char>> {
    Seq::new(rows.len(), |i: int| rows[i].name@)
}

/// The rows by name.
spec fn by_name(rows: Seq<ManagedProcess>) -> Map<Seq<char>, ProcessModel>
    decreases rows.len(),
{
    if rows.len() == 0 {
        Map::empty()
    } else {
        by_name(rows.drop_last()).insert(rows.last().name@, rows.last().model())
    }
}

/// Rows and names belong together.
proof fn lemma_by_name(rows: Seq<ManagedProcess>)
    requires
        row_names(rows).no_duplicates(),
    ensures
        by_name(rows).dom().finite(),
        forall|i: int|
            0 <= i < rows.len() ==> by_name(rows).contains_key((#[trigger] rows[i]).name@)
                && by_name(rows)[rows[i].name@] == rows[i].model(),
        forall|n: Seq<char>| #[trigger]
            by_name(rows).contains_key(n) <==> row_names(rows).contains(n),
    decreases rows.len(),
{
    if rows.len() > 0 {
        let front = rows.drop_last();
        assert(row_names(front) =~= row_names(rows).drop_last());
        lemma_by_name(front);
        let last = rows.last();
        assert forall|i: int| 0 <= i < rows.len() implies by_name(rows).contains_key(
            (#[trigger] rows[i]).name@,
        ) && by_name(rows)[rows[i].name@] == rows[i].model() by {
            if i < front.len() {
                assert(front[i] == rows[i]);
                assert(row_names(rows)[i] != row_names(rows)[rows.len() - 1]);
            }
        }
        assert(row_names(rows) =~= row_names(front).push(last.name@));
        assert forall|n: Seq<char>| #[trigger]
            by_name(rows).contains_key(n) <==> row_names(rows).contains(n) by {
            start_order::lemma_push_contains(row_names(front), last.name@, n);
        }
    }
}

/// Changing a row changes what its name stands for, and nothing else.
proof fn lemma_by_name_update(rows: Seq<ManagedProcess>, at: int, row: ManagedProcess)
    requires
        row_names(rows).no_duplicates(),
        0 <= at < rows.len(),
        row.name@ == rows[at].name@,
    ensures
        row_names(rows.update(at, row)) == row_names(rows),
        by_name(rows.update(at, row)) == by_name(rows).insert(row.name@, row.model()),
{
    let changed = rows.update(at, row);
    assert(row_names(changed) =~= row_names(rows));
    lemma_by_name(rows);
    lemma_by_name(changed);
    assert forall|n: Seq<char>| #[trigger] by_name(changed).contains_key(n) implies by_name(
        changed,
    )[n] == by_name(rows).insert(row.name@, row.model())[n] by {
        let i = row_names(changed).index_of(n);
        assert(row_names(changed).contains(n));
        assert(changed[i].name@ == n);
        assert(rows[i].name@ == n);
        if i == at {
            assert(changed[i] == row);
        } else {
            assert(row_names(rows)[i] != row_names(rows)[at]);
        }
    }
    assert(row_names(rows).contains(row.name@)) by {
        assert(row_names(rows)[at] == row.name@);
    }
    assert(by_name(changed) =~= by_name(rows).insert(row.name@, row.model()));
}

/// All supervised programs.
#[derive(Debug)]
pub struct ProcessManager {
    processes: Vec<ManagedProcess>,
    loads: u64,
}

impl View for ProcessManager {
    type V = Map<Seq<char>, ProcessModel>;

    closed spec fn view(&self) -> Map<Seq<char>, ProcessModel> {
        by_name(self.processes@)
    }
}

impl ProcessManager {
    /// The names of all programs, in the order in which they were first loaded.
    pub closed spec fn names(self) -> Seq<Seq<char>> {
        row_names(self.processes@)
    }

    /// The number of the next loading.
    pub closed spec fn loads(self) -> u64 {
        self.loads
    }

    /// No name occurs twice, and no program keeps more lines than it may.
    pub closed spec fn wf(self) -> bool {
        &&& row_names(self.processes@).no_duplicates()
        &&& forall|i: int| 0 <= i < self.processes.len() ==> (#[trigger] self.processes[i]).wf()
    }

    /// A table without programs.
    pub fn new() -> (manager: Self)
        ensures
            manager.wf(),
            manager@ == Map::<Seq<char>, ProcessModel>::empty(),
            manager.names() == Seq::<Seq<char>>::empty(),
            manager.loads() == 0,
    {
        let manager = ProcessManager { processes: Vec::new(), loads: 0 };
        assert(manager.names() =~= Seq::empty());
        manager
    }

    /// The row of the program `name`.
    fn position(&self, name: &str) -> (at: Option<usize>)
        requires
            self.wf(),
        ensures
            match at {
                Some(i) => {
                    &&& i < self.processes.len()
                    &&& self.processes[i as int].name@ == name@
                    &&& self@.contains_key(name@)
                    &&& self@[name@] == self.processes[i as int].model()
                },
                None => !self@.contains_key(name@),
            },
    {
        proof {
            lemma_by_name(self.processes@);
        }
        let mut i: usize = 0;
        while i < self.processes.len()
            invariant
                i <= self.processes.len(),
                self.wf(),
                forall|j: int| 0 <= j < i ==> (#[trigger] self.processes[j]).name@ != name@,
            decreases self.processes.len() - i,
        {
            if text::same_text(self.processes[i].name.as_str(), name) {
                proof {
                    lemma_by_name(self.processes@);
                }
                return Some(i);
            }
            i = i + 1;
        }
        proof {
            if self@.contains_key(name@) {
                let j = row_names(self.processes@).index_of(name@);
                assert(self.processes[j].name@ == name@);
            }
        }
        None
    }

    /// Puts all programs of the configuration into the table. A program that is in it
    /// already starts over with its new configuration.
    pub fn load_from_config(&mut self, config: GlobalConfig)
        requires
            old(self).wf(),
        ensures
            final(self).wf(),
            final(self)@ == loaded(old(self)@, config.program@, old(self).loads()),
            final(self).loads() == loading((old(self).loads() + config.program@.len()) as nat),
            final(self).names() == start_order::append_new(
                old(self).names(),
                program_names(config.program@),
            ),
    {
        let ghost added = config.program@;
        let ghost before = self.processes@;
        let ghost first = self.loads;
        assert(added.take(0) =~= Seq::empty());
        assert(program_names(added.take(0)) =~= Seq::empty());
        for entry in iter: config.program
            invariant
                iter.seq() == added,
                self.wf(),
                self@ == loaded(by_name(before), added.take(iter.index() as int), first),
                self.loads == loading((first + iter.index()) as nat),
                self.names() == start_order::append_new(
                    row_names(before),
                    program_names(added.take(iter.index() as int)),
                ),
        {
            let ghost at = iter.index() as int;
            let ghost rows = self.processes@;
            let (name, program) = entry;
            proof {
                assert(added.take(at + 1).drop_last() =~= added.take(at));
                assert(added.take(at + 1).last() == (name, program));
                assert(program_names(added.take(at + 1)) =~= program_names(added.take(at)).push(
                    name@,
                ));
                assert(program_names(added.take(at)).push(name@).drop_last() =~= program_names(
                    added.take(at),
                ));
                lemma_by_name(rows);
            }
            let position: Option<usize> = self.position(name.as_str());
            let row = ManagedProcess {
                name,
                config: program,
                monitored: false,
                pid: None,
                running: false,
                log_buffer: LogBuffer::new(),
                generation: self.loads,
            };
            assert(row.model() =~= fresh(program, self.loads));
            match position {
                Some(i) => {
                    proof {
                        lemma_by_name_update(rows, i as int, row);
                        assert(row_names(rows)[i as int] == name@);
                    }
                    self.processes.set(i, row);
                },
                None => {
                    self.processes.push(row);
                    proof {
                        assert(self.processes@.drop_last() =~= rows);
                        assert(row_names(self.processes@) =~= row_names(rows).push(name@));
                    }
                },
            }
            self.loads = self.loads.wrapping_add(1);
        }
        assert(added.take(added.len() as int) =~= added);
    }
}

/// The lists of all programs are known for exactly those programs.
proof fn lemma_catalog(rows: Seq<ManagedProcess>)
    requires
        row_names(rows).no_duplicates(),
    ensures
        catalog(by_name(rows)).dom().finite(),
        forall|n: Seq<char>| #[trigger]
            catalog(by_name(rows)).contains_key(n) <==> row_names(rows).contains(n),
        forall|i: int|
            0 <= i < rows.len() ==> catalog(by_name(rows)).contains_key(row_names(rows)[i])
                && catalog(by_name(rows))[row_names(rows)[i]] == links((#[trigger] rows[i]).config),
{
    lemma_by_name(rows);
    assert(catalog(by_name(rows)).dom() =~= by_name(rows).dom());
}

/// Reading a list through the places of a table.
proof fn lemma_places_known(
    units: Map<Seq<char>, Links>,
    table: Seq<Seq<char>>,
    names: Seq<Seq<char>>,
    places: Seq<usize>,
)
    requires
        resolver::names_at(table, places) == names.filter(|n: Seq<char>| table.contains(n)),
        forall|i: int|
            0 <= i < names.len() ==> (table.contains(#[trigger] names[i]) <==> units.contains_key(
                names[i],
            )),
    ensures
        resolver::names_at(table, places) == start_order::known(units, names),
{
    start_order::lemma_filter_same(
        names,
        |n: Seq<char>| table.contains(n),
        |n: Seq<char>| units.contains_key(n),
    );
}

impl ProcessManager {
    /// The places, within `among`, of those listed programs that stand there.
    fn places_of(&self, among: &Vec<usize>, list: &Option<Vec<String>>) -> (places: Vec<usize>)
        requires
            self.wf(),
            resolver::inside(among@, self.names().len()),
        ensures
            resolver::inside(places@, among.len() as nat),
            ({
                let table = resolver::names_at(self.names(), among@);
                resolver::names_at(table, places@) == listed(*list).filter(
                    |n: Seq<char>| table.contains(n),
                )
            }),
    {
        let ghost table = resolver::names_at(self.names(), among@);
        let ghost keep = |n: Seq<char>| table.contains(n);
        let mut places: Vec<usize> = Vec::new();
        match list {
            None => {
                assert(resolver::names_at(table, places@) =~= listed(*list).filter(keep)) by {
                    reveal(Seq::filter);
                }
            },
            Some(names) => {
                let ghost all = text::texts(names@);
                let mut k: usize = 0;
                assert(resolver::names_at(table, places@) =~= all.take(0).filter(keep)) by {
                    reveal(Seq::filter);
                }
                while k < names.len()
                    invariant
                        self.wf(),
                        resolver::inside(among@, self.names().len()),
                        table == resolver::names_at(self.names(), among@),
                        keep == (|n: Seq<char>| table.contains(n)),
                        all == text::texts(names@),
                        k <= names.len(),
                        resolver::inside(places@, among.len() as nat),
                        resolver::names_at(table, places@) == all.take(k as int).filter(keep),
                    decreases names.len() - k,
                {
                    let mut place: usize = 0;
                    while place < among.len() && !text::same_text(
                        self.processes[among[place]].name.as_str(),
                        names[k].as_str(),
                    )
                        invariant
                            resolver::inside(among@, self.names().len()),
                            self.names().len() == self.processes.len(),
                            table == resolver::names_at(self.names(), among@),
                            k < names.len(),
                            place <= among.len(),
                            forall|j: int| 0 <= j < place ==> #[trigger] table[j] != names[k as int]@,
                        decreases among.len() - place,
                    {
                        assert(self.names()[among[place as int] as int]
                            == self.processes[among[place as int] as int].name@);
                        place = place + 1;
                    }
                    proof {
                        resolver::lemma_filter_take(all, keep, k as int);
                        resolver::lemma_names_at_push(table, places@, place);
                    }
                    if place < among.len() {
                        proof {
                            assert(self.names()[among[place as int] as int]
                                == self.processes[among[place as int] as int].name@);
                            assert(table[place as int] == names[k as int]@);
                            assert(keep(all[k as int]));
                        }
                        places.push(place);
                    } else {
                        assert(!keep(all[k as int]));
                    }
                    k = k + 1;
                }
                assert(all.take(all.len() as int) =~= all);
            },
        }
        places
    }

    /// The places of all programs that come up with the one at `root`, in the order of
    /// finding.
    fn discover_from(&self, root: usize) -> (found: Vec<usize>)
        requires
            self.wf(),
            root < self.names().len(),
        ensures
            resolver::inside(found@, self.names().len()),
            resolver::names_at(self.names(), found@) == start_order::discovered(
                catalog(self@),
                self.names()[root as int],
            ),
    {
        let ghost rows = self.processes@;
        let ghost names = self.names();
        let ghost units = catalog(self@);
        let total: usize = self.processes.len();
        proof {
            lemma_catalog(rows);
        }
        let mut everyone: Vec<usize> = Vec::new();
        let mut i: usize = 0;
        while i < total
            invariant
                i <= total,
                everyone.len() == i,
                forall|j: int| 0 <= j < i ==> #[trigger] everyone[j] == j,
            decreases total - i,
        {
            everyone.push(i);
            i = i + 1;
        }
        assert(resolver::names_at(names, everyone@) =~= names);
        let mut pulls: Vec<Vec<usize>> = Vec::new();
        let mut u: usize = 0;
        while u < total
            invariant
                self.wf(),
                rows == self.processes@,
                names == row_names(rows),
                names == self.names(),
                units == catalog(by_name(rows)),
                total == self.processes.len(),
                everyone.len() == total,
                resolver::inside(everyone@, names.len()),
                resolver::names_at(names, everyone@) == names,
                u <= total,
                pulls.len() == u,
                forall|i: int|
                    0 <= i < u ==> resolver::inside(#[trigger] pulls[i]@, names.len()),
                forall|i: int|
                    0 <= i < u ==> resolver::names_at(names, #[trigger] pulls[i]@)
                        == start_order::pulled_in(units, names[i]),
            decreases total - u,
        {
            let mut pulled: Vec<usize> = self.places_of(
                &everyone,
                &self.processes[u].config.after,
            );
            let mut wanted: Vec<usize> = self.places_of(
                &everyone,
                &self.processes[u].config.wants,
            );
            proof {
                lemma_catalog(rows);
                let after = listed(rows[u as int].config.after);
                let wants = listed(rows[u as int].config.wants);
                lemma_places_known(units, names, after, pulled@);
                lemma_places_known(units, names, wants, wanted@);
                Seq::filter_distributes_over_add(
                    after,
                    wants,
                    |n: Seq<char>| units.contains_key(n),
                );
                assert(resolver::names_at(names, pulled@ + wanted@) =~= resolver::names_at(
                    names,
                    pulled@,
                ) + resolver::names_at(names, wanted@));
            }
            pulled.append(&mut wanted);
            pulls.push(pulled);
            u = u + 1;
        }
        resolver::discover(&pulls, root, Ghost(units), Ghost(names))
    }

    /// The places, within `found`, of those that come up in an order that keeps every
    /// `after` list.
    fn line_up_found(&self, root: usize, found: &Vec<usize>) -> (line: Vec<usize>)
        requires
            self.wf(),
            root < self.names().len(),
            resolver::inside(found@, self.names().len()),
            resolver::names_at(self.names(), found@) == start_order::discovered(
                catalog(self@),
                self.names()[root as int],
            ),
        ensures
            resolver::inside(line@, found.len() as nat),
            ({
                let all = resolver::names_at(self.names(), found@);
                resolver::names_at(all, line@) == start_order::ordered(catalog(self@), all)
            }),
    {
        let ghost rows = self.processes@;
        let ghost names = self.names();
        let ghost name = names[root as int];
        let ghost units = catalog(self@);
        let ghost all = resolver::names_at(names, found@);
        proof {
            lemma_catalog(rows);
            start_order::lemma_discovered(units, name);
        }
        let mut waits: Vec<Vec<usize>> = Vec::new();
        let mut p: usize = 0;
        while p < found.len()
            invariant
                self.wf(),
                rows == self.processes@,
                names == row_names(rows),
                names == self.names(),
                units == catalog(by_name(rows)),
                units.contains_key(name),
                resolver::inside(found@, names.len()),
                all == resolver::names_at(names, found@),
                all == start_order::discovered(units, name),
                p <= found.len(),
                waits.len() == p,
                forall|i: int|
                    0 <= i < p ==> resolver::inside(#[trigger] waits[i]@, all.len()),
                forall|i: int|
                    0 <= i < p ==> resolver::names_at(all, #[trigger] waits[i]@)
                        == start_order::predecessors(units, all[i]),
            decreases found.len() - p,
        {
            assert(found@[p as int] < names.len());
            let places: Vec<usize> = self.places_of(
                found,
                &self.processes[found[p]].config.after,
            );
            proof {
                lemma_catalog(rows);
                start_order::lemma_discovered(units, name);
                let unit = all[p as int];
                let row = rows[found[p as int] as int];
                assert(unit == row.name@);
                assert(units[unit] == links(row.config));
                let after = listed(row.config.after);
                assert forall|i: int| 0 <= i < after.len() implies (all.contains(
                    #[trigger] after[i],
                ) <==> units.contains_key(after[i])) by {
                    if all.contains(after[i]) {
                        assert(units.contains_key(all[all.index_of(after[i])]));
                    }
                    if units.contains_key(after[i]) {
                        start_order::lemma_filter(after, |n: Seq<char>| units.contains_key(n));
                        assert(after.contains(after[i]));
                        assert(all.contains(unit));
                        start_order::lemma_predecessor_discovered(units, name, unit, after[i]);
                    }
                }
                lemma_places_known(units, all, after, places@);
            }
            waits.push(places);
            p = p + 1;
        }
        resolver::line_up(&waits, Ghost(units), Ghost(all))
    }

    /// Resolves which programs must be started for `name` to come up, in the order
    /// in which they must be started.
    ///
    /// From `name` on it follows the `after` and `wants` lists to find every program
    /// that comes up alongside, and then sorts what it found so that each program
    /// stands behind its `after` list. Names that are not configured are skipped.
    /// Programs that an `after` cycle holds back are started last, as they were found:
    /// neither list is a hard requirement.
    pub fn resolve_start_order(&self, name: &str) -> (res: Result<Vec<String>, ProcessError>)
        requires
            self.wf(),
        ensures
            match res {
                Ok(order) => {
                    &&& self@.contains_key(name@)
                    &&& text::texts(order@) == start_order::start_order(catalog(self@), name@)
                    &&& text::texts(order@).no_duplicates()
                    &&& text::texts(order@).contains(name@)
                    &&& forall|i: int|
                        0 <= i < order.len() ==> self@.contains_key((#[trigger] order[i])@)
                },
                Err(e) => !self@.contains_key(name@) && e.is_not_found(name@),
            },
    {
        let root: usize = match self.position(name) {
            Some(i) => i,
            None => {
                return Err(ProcessError::NotFound(name.to_owned()));
            },
        };
        let ghost rows = self.processes@;
        let ghost names = self.names();
        let ghost units = catalog(self@);
        let found: Vec<usize> = self.discover_from(root);
        let ghost all = resolver::names_at(names, found@);
        let line: Vec<usize> = self.line_up_found(root, &found);
        proof {
            lemma_catalog(rows);
            assert(names[root as int] == name@);
            start_order::lemma_discovered(units, name@);
        }
        let ghost ordered = start_order::ordered(units, all);
        let mut order: Vec<String> = Vec::new();
        let mut k: usize = 0;
        while k < line.len()
            invariant
                names == row_names(self.processes@),
                resolver::inside(found@, names.len()),
                resolver::inside(line@, found.len() as nat),
                all == resolver::names_at(names, found@),
                k <= line.len(),
                order.len() == k,
                forall|j: int| 0 <= j < k ==> (#[trigger] order[j])@ == all[line[j] as int],
            decreases line.len() - k,
        {
            assert(line@[k as int] < found.len());
            assert(found@[line[k as int] as int] < names.len());
            order.push(self.processes[found[line[k]]].name.clone());
            k = k + 1;
        }
        assert(text::texts(order@) =~= ordered);
        let ghost held_back = |n: Seq<char>| !ordered.contains(n);
        proof {
            start_order::lemma_ordered(units, all);
            start_order::law_start_order_is_complete(units, name@);
            assert(start_order::start_order(units, name@) == ordered + all.filter(held_back));
        }
        if line.len() != found.len() {
            let mut q: usize = 0;
            assert(text::texts(order@) =~= ordered + all.take(0).filter(held_back)) by {
                reveal(Seq::filter);
            }
            while q < found.len()
                invariant
                    all.no_duplicates(),
                    names == row_names(self.processes@),
                    resolver::inside(found@, names.len()),
                    resolver::inside(line@, all.len()),
                    all == resolver::names_at(names, found@),
                    ordered == resolver::names_at(all, line@),
                    held_back == (|n: Seq<char>| !ordered.contains(n)),
                    q <= found.len(),
                    text::texts(order@) == ordered + all.take(q as int).filter(held_back),
                decreases found.len() - q,
            {
                proof {
                    resolver::lemma_filter_take(all, held_back, q as int);
                    resolver::lemma_names_at_contains(all, line@, q);
                    assert(found@[q as int] < names.len());
                }
                if !resolver::contains_place(&line, q) {
                    let ghost before = order@;
                    order.push(self.processes[found[q]].name.clone());
                    assert(text::texts(order@) =~= text::texts(before).push(all[q as int]));
                    assert(text::texts(before).push(all[q as int]) =~= ordered + all.take(
                        q as int,
                    ).filter(held_back).push(all[q as int]));
                }
                q = q + 1;
            }
            assert(all.take(all.len() as int) =~= all);
        } else {
            proof {
                start_order::lemma_all_covered(ordered, all);
                start_order::lemma_filter(all, held_back);
                let rest = all.filter(held_back);
                if rest.len() > 0 {
                    assert(rest.contains(rest[0]));
                    assert(all.contains(rest[0]));
                }
                assert(ordered + rest =~= ordered);
            }
        }
        proof {
            let texts = text::texts(order@);
            assert forall|i: int| 0 <= i < order.len() implies self@.contains_key(
                (#[trigger] order[i])@,
            ) by {
                assert(texts.contains(texts[i]));
                assert(units.contains_key(order[i]@));
            }
        }
        Ok(order)
    }
}

/// The warning about a program that `unit` lists and nobody configured.
pub open spec fn unknown_warning(unit: Seq<char>, listed: Seq<char>) -> Seq<char> {
    "Process '"@ + unit + "' references unknown program '"@ + listed + "' in after/wants"@
}

/// The warning about programs that wait for each other.
pub open spec fn cycle_warning(root: Seq<char>) -> Seq<char> {
    "Dependency cycle detected in 'after' configuration while starting '"@ + root
        + "'; starting remaining processes in their original order"@
}

/// The warnings about the names that one program lists and nobody configured.
pub open spec fn unit_warnings(units: Map<Seq<char>, Links>, unit: Seq<char>) -> Seq<Seq<char>> {
    start_order::unknown(units, unit).map_values(|n: Seq<char>| unknown_warning(unit, n))
}

/// The warnings about the names that these programs list and nobody configured.
pub open spec fn unknown_warnings(
    units: Map<Seq<char>, Links>,
    found: Seq<Seq<char>>,
) -> Seq<Seq<char>>
    decreases found.len(),
{
    if found.len() == 0 {
        Seq::empty()
    } else {
        unknown_warnings(units, found.drop_last()) + unit_warnings(units, found.last())
    }
}

/// The warnings that a request to start `root` gives rise to: one for each unknown name
/// that a program lists, as the programs are found, and one if a cycle holds any back.
pub open spec fn warnings_for(units: Map<Seq<char>, Links>, root: Seq<char>) -> Seq<Seq<char>> {
    unknown_warnings(units, start_order::discovered(units, root)) + (if start_order::has_cycle(
        units,
        root,
    ) {
        seq![cycle_warning(root)]
    } else {
        Seq::empty()
    })
}

impl ProcessManager {
    /// Warns about the names of a list of `unit` that nobody configured.
    fn warn_about_list(
        &self,
        warnings: &mut Vec<String>,
        unit: &str,
        list: &Option<Vec<String>>,
    )
        requires
            self.wf(),
        ensures
            text::texts(final(warnings)@) == text::texts(old(warnings)@) + listed(*list).filter(
                |n: Seq<char>| !self@.contains_key(n),
            ).map_values(|n: Seq<char>| unknown_warning(unit@, n)),
    {
        let ghost before = text::texts(warnings@);
        let ghost keep = |n: Seq<char>| !self@.contains_key(n);
        let ghost words = |n: Seq<char>| unknown_warning(unit@, n);
        let ghost all = listed(*list);
        proof {
            reveal(Seq::filter);
            assert(before =~= before + all.take(0).filter(keep).map_values(words));
        }
        if let Some(names) = list {
            let mut k: usize = 0;
            while k < names.len()
                invariant
                    self.wf(),
                    keep == (|n: Seq<char>| !self@.contains_key(n)),
                    words == (|n: Seq<char>| unknown_warning(unit@, n)),
                    all == text::texts(names@),
                    k <= names.len(),
                    text::texts(warnings@) == before + all.take(k as int).filter(keep).map_values(
                        words,
                    ),
                decreases names.len() - k,
            {
                proof {
                    resolver::lemma_filter_take(all, keep, k as int);
                }
                if self.position(names[k].as_str()).is_none() {
                    let ghost given = warnings@;
                    let ghost picked = all.take(k as int).filter(keep);
                    let mut warning: String = "Process '".to_owned();
                    warning.append(unit);
                    warning.append("' references unknown program '");
                    warning.append(names[k].as_str());
                    warning.append("' in after/wants");
                    warnings.push(warning);
                    proof {
                        assert(warning@ == words(all[k as int]));
                        assert(text::texts(warnings@) =~= text::texts(given).push(warning@));
                        assert(picked.push(all[k as int]).map_values(words)
                            =~= picked.map_values(words).push(words(all[k as int])));
                        assert(text::texts(warnings@) =~= before + picked.push(
                            all[k as int],
                        ).map_values(words));
                    }
                }
                k = k + 1;
            }
        }
        assert(all.take(all.len() as int) =~= all);
    }

    /// What to warn about before `name` and everything it pulls in are started. Names
    /// that nobody configured and cycles are no errors, but rarely what was meant.
    pub fn start_warnings(&self, name: &str) -> (warnings: Vec<String>)
        requires
            self.wf(),
        ensures
            text::texts(warnings@) == (if self@.contains_key(name@) {
                warnings_for(catalog(self@), name@)
            } else {
                Seq::empty()
            }),
    {
        let mut warnings: Vec<String> = Vec::new();
        assert(text::texts(warnings@) =~= Seq::empty());
        let root: usize = match self.position(name) {
            Some(i) => i,
            None => {
                return warnings;
            },
        };
        let ghost rows = self.processes@;
        let ghost names = self.names();
        let ghost units = catalog(self@);
        assert(names[root as int] == name@);
        let found: Vec<usize> = self.discover_from(root);
        let ghost all = resolver::names_at(names, found@);
        let mut k: usize = 0;
        assert(all.take(0) =~= Seq::empty());
        while k < found.len()
            invariant
                self.wf(),
                rows == self.processes@,
                names == row_names(rows),
                names == self.names(),
                units == catalog(by_name(rows)),
                units == catalog(self@),
                resolver::inside(found@, names.len()),
                all == resolver::names_at(names, found@),
                k <= found.len(),
                text::texts(warnings@) == unknown_warnings(units, all.take(k as int)),
            decreases found.len() - k,
        {
            assert(found@[k as int] < names.len());
            let ghost before = text::texts(warnings@);
            let place: usize = found[k];
            let unit: &str = self.processes[place].name.as_str();
            self.warn_about_list(&mut warnings, unit, &self.processes[place].config.after);
            self.warn_about_list(&mut warnings, unit, &self.processes[place].config.wants);
            proof {
                lemma_catalog(rows);
                let row = rows[place as int];
                assert(all[k as int] == row.name@);
                assert(units[unit@] == links(row.config));
                let after = listed(row.config.after);
                let wants = listed(row.config.wants);
                let table = |n: Seq<char>| !self@.contains_key(n);
                let keep = |n: Seq<char>| !units.contains_key(n);
                let words = |n: Seq<char>| unknown_warning(unit@, n);
                assert(table =~= keep);
                Seq::filter_distributes_over_add(after, wants, keep);
                assert((after.filter(keep) + wants.filter(keep)).map_values(words)
                    =~= after.filter(keep).map_values(words) + wants.filter(keep).map_values(words));
                assert(text::texts(warnings@) =~= before + unit_warnings(units, unit@));
                assert(all.take(k + 1).drop_last() =~= all.take(k as int));
                assert(all.take(k + 1).last() == unit@);
            }
            k = k + 1;
        }
        assert(all.take(all.len() as int) =~= all);
        let line: Vec<usize> = self.line_up_found(root, &found);
        let ghost before = text::texts(warnings@);
        if line.len() != found.len() {
            let mut warning: String =
                "Dependency cycle detected in 'after' configuration while starting '".to_owned();
            warning.append(name);
            warning.append("'; starting remaining processes in their original order");
            warnings.push(warning);
            assert(text::texts(warnings@) =~= before + seq![cycle_warning(name@)]);
        } else {
            assert(before =~= before + Seq::empty());
        }
        warnings
    }
}

/// A program that lists an unknown name, among those found, is warned about.
proof fn lemma_unknown_warned(units: Map<Seq<char>, Links>, found: Seq<Seq<char>>, i: int)
    requires
        0 <= i < found.len(),
        start_order::unknown(units, found[i]).len() > 0,
    ensures
        unknown_warnings(units, found).len() > 0,
    decreases found.len(),
{
    if i < found.len() - 1 {
        lemma_unknown_warned(units, found.drop_last(), i);
    }
}

/// Where there is nothing to warn about, every program that is started stands behind its
/// whole `after` list, and everything that it wants is started too.
pub proof fn law_without_warnings_lists_are_kept(
    units: Map<Seq<char>, Links>,
    root: Seq<char>,
    name: Seq<char>,
    other: Seq<char>,
)
    requires
        units.contains_key(root),
        units.dom().finite(),
        warnings_for(units, root).len() == 0,
        start_order::start_order(units, root).contains(name),
    ensures
        units[name].after.contains(other) ==> start_order::precedes(
            start_order::start_order(units, root),
            other,
            name,
        ),
        units[name].wants.contains(other) ==> start_order::start_order(units, root).contains(other),
{
    let all = start_order::discovered(units, root);
    start_order::lemma_discovered(units, root);
    start_order::law_start_order_is_complete(units, root);
    start_order::law_cycles_are_noticed(units, root);
    assert(start_order::comes_with(units, root, name));
    assert(all.contains(name));
    let i = all.index_of(name);
    let listed = units[name].after + units[name].wants;
    start_order::lemma_filter(listed, |n: Seq<char>| !units.contains_key(n));
    if listed.contains(other) && !units.contains_key(other) {
        assert(start_order::unknown(units, all[i]).contains(other));
        lemma_unknown_warned(units, all, i);
    }
    start_order::lemma_add_contains(units[name].after, units[name].wants, other);
    if units[name].after.contains(other) {
        start_order::law_after_is_kept(units, root, name, other);
    }
    if units[name].wants.contains(other) {
        start_order::lemma_filter(listed, |n: Seq<char>| units.contains_key(n));
        start_order::lemma_pulled_in_discovered(units, root, name, other);
        assert(start_order::comes_with(units, root, other));
    }
}

/// What came of a process.
#[derive(Debug)]
pub enum ProcessEvent {
    /// It was started.
    Started(String),
    /// It exited with that code.
    Exited(String, i32),
    /// Waiting for it failed, with the reason.
    Failed(String, String),
    /// It is to be started again.
    RestartRequested(String),
}

impl Clone for ProcessEvent {
    fn clone(&self) -> (copy: Self)
        ensures
            copy == *self,
    {
        match self {
            ProcessEvent::Started(name) => ProcessEvent::Started(name.clone()),
            ProcessEvent::Exited(name, code) => ProcessEvent::Exited(name.clone(), *code),
            ProcessEvent::Failed(name, reason) => ProcessEvent::Failed(
                name.clone(),
                reason.clone(),
            ),
            ProcessEvent::RestartRequested(name) => ProcessEvent::RestartRequested(name.clone()),
        }
    }
}

/// What the operating system made of the request to start a process.
#[derive(Debug, Clone, Copy)]
pub enum SpawnOutcome {
    /// It runs, under the identifier if that is known.
    Spawned(Option<u32>),
    /// It could not be started.
    Failed,
}

/// What starting one program calls for.
#[derive(Debug)]
pub enum Launch {
    /// Nothing: it runs.
    AlreadyRunning,
    /// This process has to be spawned.
    Spawn(CommandSpec),
}

/// What is left to do once a process has been spawned.
#[derive(Debug)]
pub struct Started {
    /// Whether the output is forwarded, or merely drained.
    pub log_forward: bool,
    /// Which loading of the program the process belongs to, and with it what it prints.
    pub generation: u64,
    /// The event to announce.
    pub event: ProcessEvent,
}

/// What is left to do to bring a process down.
#[derive(Debug)]
pub struct Termination {
    /// The process to send the termination signal to.
    pub signal: Option<i32>,
    /// Whether somebody waits for the process to exit and has to give up.
    pub abort_monitor: bool,
}

/// A program that has just been started.
pub open spec fn started(program: ProcessModel, pid: Option<u32>) -> ProcessModel {
    ProcessModel { monitored: true, pid, running: true, ..program }
}

/// A program that has just been stopped.
pub open spec fn stopped(program: ProcessModel) -> ProcessModel {
    ProcessModel { monitored: false, pid: None, running: false, ..program }
}

/// A program that has just exited by itself.
pub open spec fn exited(program: ProcessModel) -> ProcessModel {
    ProcessModel { running: false, ..program }
}

/// What starting the program calls for, where its command line was split into `words`.
pub open spec fn is_launch(
    name: Seq<char>,
    program: ProcessModel,
    words: Option<Seq<Seq<char>>>,
    launch: Result<Launch, ProcessError>,
) -> bool {
    if program.running {
        launch == Ok::<Launch, ProcessError>(Launch::AlreadyRunning)
    } else {
        match launch {
            Ok(Launch::AlreadyRunning) => false,
            Ok(Launch::Spawn(spec)) => command::is_plan(name, program.config, words, Ok(spec)),
            Err(e) => command::is_plan(name, program.config, words, Err(e)),
        }
    }
}

/// What is left to do for the started program.
pub open spec fn is_started(
    name: Seq<char>,
    program: ProcessModel,
    done: Result<Started, ProcessError>,
) -> bool {
    &&& done matches Ok(s)
    &&& s.log_forward == program.config.log_forward
    &&& s.generation == program.generation
    &&& s.event matches ProcessEvent::Started(n)
    &&& n@ == name
}

/// What is left to do for the stopped program.
pub open spec fn is_termination(program: ProcessModel, termination: Termination) -> bool {
    &&& termination.signal == (match program.pid {
        Some(pid) => Some(pid as i32),
        None => None,
    })
    &&& termination.abort_monitor == program.monitored
}

impl ProcessManager {
    /// Decides what starting the program `name`, and it alone, calls for.
    pub fn start_process_single(&self, name: &str) -> (launch: Result<Launch, ProcessError>)
        requires
            self.wf(),
        ensures
            if self@.contains_key(name@) {
                is_launch(
                    name@,
                    self@[name@],
                    command::shell_words_of(self@[name@].config.command@),
                    launch,
                ) && (command::is_simple(self@[name@].config.command@) ==> is_launch(
                    name@,
                    self@[name@],
                    Some(command::separated(self@[name@].config.command@)),
                    launch,
                )) && (launch matches Err(e) && e.is_command_syntax(name@)
                    ==> self@[name@].config.command@.contains('\'')
                    || self@[name@].config.command@.contains('"'))
            } else {
                launch matches Err(e) && e.is_not_found(name@)
            },
    {
        match self.position(name) {
            None => Err(ProcessError::NotFound(name.to_owned())),
            Some(i) => {
                if self.processes[i].running {
                    return Ok(Launch::AlreadyRunning);
                }
                match command::command_for(name, &self.processes[i].config) {
                    Ok(spec) => Ok(Launch::Spawn(spec)),
                    Err(e) => Err(e),
                }
            },
        }
    }

    /// Takes note of what came of spawning the program `name`.
    pub fn finish_start(&mut self, name: &str, outcome: SpawnOutcome) -> (done: Result<
        Started,
        ProcessError,
    >)
        requires
            old(self).wf(),
        ensures
            final(self).wf(),
            final(self).names() == old(self).names(),
            final(self).loads() == old(self).loads(),
            if old(self)@.contains_key(name@) {
                match outcome {
                    SpawnOutcome::Spawned(pid) => {
                        &&& final(self)@ == old(self)@.insert(
                            name@,
                            started(old(self)@[name@], pid),
                        )
                        &&& is_started(name@, old(self)@[name@], done)
                    },
                    SpawnOutcome::Failed => {
                        &&& final(self)@ == old(self)@
                        &&& done matches Err(e) && e.is_spawn(name@)
                    },
                }
            } else {
                &&& final(self)@ == old(self)@
                &&& done matches Err(e) && e.is_not_found(name@)
            },
    {
        match self.position(name) {
            None => Err(ProcessError::NotFound(name.to_owned())),
            Some(i) => {
                match outcome {
                    SpawnOutcome::Failed => Err(ProcessError::Spawn(name.to_owned())),
                    SpawnOutcome::Spawned(pid) => {
                        let ghost rows = self.processes@;
                        self.processes[i].pid = pid;
                        self.processes[i].monitored = true;
                        self.processes[i].running = true;
                        proof {
                            let row = self.processes@[i as int];
                            assert(self.processes@ =~= rows.update(i as int, row));
                            lemma_by_name_update(rows, i as int, row);
                            assert(row.model() =~= started(rows[i as int].model(), pid));
                        }
                        Ok(
                            Started {
                                log_forward: self.processes[i].config.log_forward,
                                generation: self.processes[i].generation,
                                event: ProcessEvent::Started(name.to_owned()),
                            },
                        )
                    },
                }
            },
        }
    }

    /// Stops the program `name`. Nothing is left to do where it does not run.
    pub fn stop_process(&mut self, name: &str) -> (done: Result<Option<Termination>, ProcessError>)
        requires
            old(self).wf(),
        ensures
            final(self).wf(),
            final(self).names() == old(self).names(),
            final(self).loads() == old(self).loads(),
            if !old(self)@.contains_key(name@) {
                &&& final(self)@ == old(self)@
                &&& done matches Err(e) && e.is_not_found(name@)
            } else if !old(self)@[name@].running {
                &&& final(self)@ == old(self)@
                &&& done matches Ok(None)
            } else {
                &&& final(self)@ == old(self)@.insert(name@, stopped(old(self)@[name@]))
                &&& done matches Ok(Some(t)) && is_termination(old(self)@[name@], t)
            },
    {
        match self.position(name) {
            None => Err(ProcessError::NotFound(name.to_owned())),
            Some(i) => {
                if !self.processes[i].running {
                    return Ok(None);
                }
                let ghost rows = self.processes@;
                let termination = Termination {
                    signal: match self.processes[i].pid {
                        Some(pid) => Some(#[verifier::truncate] (pid as i32)),
                        None => None,
                    },
                    abort_monitor: self.processes[i].monitored,
                };
                self.processes[i].monitored = false;
                self.processes[i].running = false;
                self.processes[i].pid = None;
                proof {
                    let row = self.processes@[i as int];
                    assert(self.processes@ =~= rows.update(i as int, row));
                    lemma_by_name_update(rows, i as int, row);
                    assert(row.model() =~= stopped(rows[i as int].model()));
                }
                Ok(Some(termination))
            },
        }
    }
}

/// How far a request to start a program has come.
pub struct StartModel {
    /// The program that was asked for.
    pub root: Seq<char>,
    /// What is started, in this order.
    pub order: Seq<Seq<char>>,
    /// How many have been dealt with.
    pub next: nat,
    /// What came of `root`, once it has been dealt with.
    pub result: Option<Result<(), ProcessError>>,
}

/// A request to start `name` that has just begun.
pub open spec fn session_for(
    programs: Map<Seq<char>, ProcessModel>,
    name: Seq<char>,
) -> StartModel {
    StartModel {
        root: name,
        order: start_order::start_order(catalog(programs), name),
        next: 0,
        result: None,
    }
}

/// The program that is to be dealt with next has been dealt with, with that result.
pub open spec fn dealt_with(session: StartModel, result: Result<(), ProcessError>) -> StartModel {
    StartModel {
        next: session.next + 1,
        result: if session.order[session.next as int] == session.root {
            Some(result)
        } else {
            session.result
        },
        ..session
    }
}

/// A request to start a program and everything it pulls in, under way.
#[derive(Debug)]
pub struct StartSession {
    root: String,
    order: Vec<String>,
    next: usize,
    result: Option<Result<(), ProcessError>>,
}

impl View for StartSession {
    type V = StartModel;

    closed spec fn view(&self) -> StartModel {
        StartModel {
            root: self.root@,
            order: text::texts(self.order@),
            next: self.next as nat,
            result: self.result,
        }
    }
}

impl StartSession {
    /// The program that was asked for is among those to start, each of which is dealt
    /// with once, and its result is known as soon as it has been dealt with.
    pub open spec fn wf(self) -> bool {
        &&& self@.next <= self@.order.len()
        &&& self@.order.no_duplicates()
        &&& self@.order.contains(self@.root)
        &&& self@.result is Some <==> self@.order.take(self@.next as int).contains(self@.root)
    }

    /// Moves on to the next program.
    fn report(&mut self, result: Result<(), ProcessError>)
        requires
            old(self).wf(),
            old(self)@.next < old(self)@.order.len(),
        ensures
            final(self).wf(),
            final(self)@ == dealt_with(old(self)@, result),
    {
        let ghost before = self@;
        if text::same_text(self.order[self.next].as_str(), self.root.as_str()) {
            self.result = Some(result);
        }
        assert(self.next < self.order.len());
        self.next = self.next + 1;
        proof {
            assert(before.order.take((before.next + 1) as int) =~= before.order.take(
                before.next as int,
            ).push(before.order[before.next as int]));
            start_order::lemma_push_contains(
                before.order.take(before.next as int),
                before.order[before.next as int],
                before.root,
            );
        }
    }
}

/// What is next in a request to start a program.
#[derive(Debug)]
pub enum StartStep {
    /// This program runs; nothing has to be done for it.
    Running(String),
    /// This program cannot be started, for that reason.
    Refused(String, ProcessError),
    /// This program has to be spawned. What comes of it has to be reported.
    Spawn(String, CommandSpec),
    /// All programs have been dealt with; this came of the one that was asked for.
    Finished(Result<(), ProcessError>),
}

/// What is next for one program of a request, given the table.
pub open spec fn is_step(
    programs: Map<Seq<char>, ProcessModel>,
    unit: Seq<char>,
    step: StartStep,
) -> bool {
    if !programs.contains_key(unit) {
        step matches StartStep::Refused(n, e) && n@ == unit && e.is_not_found(unit)
    } else if programs[unit].running {
        step matches StartStep::Running(n) && n@ == unit
    } else {
        let config = programs[unit].config;
        let words = command::shell_words_of(config.command@);
        let simple = command::is_simple(config.command@);
        let separated = Some(command::separated(config.command@));
        match step {
            StartStep::Refused(n, e) => {
                &&& n@ == unit
                &&& command::is_plan(unit, config, words, Err(e))
                &&& simple ==> command::is_plan(unit, config, separated, Err(e))
            },
            StartStep::Spawn(n, spec) => {
                &&& n@ == unit
                &&& command::is_plan(unit, config, words, Ok(spec))
                &&& simple ==> command::is_plan(unit, config, separated, Ok(spec))
            },
            _ => false,
        }
    }
}

/// Where a request stands after a step.
pub open spec fn after_step(session: StartModel, step: StartStep) -> StartModel {
    match step {
        StartStep::Running(_) => dealt_with(session, Ok(())),
        StartStep::Refused(_, e) => dealt_with(session, Err(e)),
        StartStep::Spawn(_, _) => session,
        StartStep::Finished(_) => session,
    }
}

/// What is next in a request, and where it stands then.
pub open spec fn is_next(
    programs: Map<Seq<char>, ProcessModel>,
    session: StartModel,
    step: StartStep,
    next_session: StartModel,
) -> bool {
    &&& next_session == after_step(session, step)
    &&& if session.next < session.order.len() {
        is_step(programs, session.order[session.next as int], step)
    } else {
        step matches StartStep::Finished(r) && session.result == Some(r)
    }
}

/// What the report of how spawning the next program of a request came out leads to.
pub open spec fn is_report(
    programs: Map<Seq<char>, ProcessModel>,
    session: StartModel,
    outcome: SpawnOutcome,
    next_programs: Map<Seq<char>, ProcessModel>,
    next_session: StartModel,
    done: Result<Started, ProcessError>,
) -> bool {
    let unit = session.order[session.next as int];
    &&& if programs.contains_key(unit) {
        match outcome {
            SpawnOutcome::Spawned(pid) => {
                &&& next_programs == programs.insert(unit, started(programs[unit], pid))
                &&& is_started(unit, programs[unit], done)
            },
            SpawnOutcome::Failed => {
                &&& next_programs == programs
                &&& done matches Err(e) && e.is_spawn(unit)
            },
        }
    } else {
        &&& next_programs == programs
        &&& done matches Err(e) && e.is_not_found(unit)
    }
    &&& match done {
        Ok(_) => next_session == dealt_with(session, Ok(())),
        Err(e) => next_session == dealt_with(session, Err(e)),
    }
}

impl ProcessManager {
    /// Begins to start `name` and, before or after it as their lists say, every program
    /// that it wants or comes after.
    pub fn start_process(&self, name: &str) -> (session: Result<StartSession, ProcessError>)
        requires
            self.wf(),
        ensures
            match session {
                Ok(s) => {
                    &&& self@.contains_key(name@)
                    &&& s.wf()
                    &&& s@ == session_for(self@, name@)
                },
                Err(e) => !self@.contains_key(name@) && e.is_not_found(name@),
            },
    {
        match self.resolve_start_order(name) {
            Err(e) => Err(e),
            Ok(order) => {
                let session = StartSession { root: name.to_owned(), order, next: 0, result: None };
                assert(session@.order.take(0) =~= Seq::empty());
                Ok(session)
            },
        }
    }

    /// Decides what is next in a request to start a program. A program that cannot be
    /// started does not stop the others.
    pub fn next_start(&self, session: &mut StartSession) -> (step: StartStep)
        requires
            self.wf(),
            old(session).wf(),
        ensures
            final(session).wf(),
            is_next(self@, old(session)@, step, final(session)@),
    {
        if session.next >= session.order.len() {
            assert(session@.order.take(session@.next as int) =~= session@.order);
            let result: Result<(), ProcessError> = match &session.result {
                Some(Ok(done)) => Ok(*done),
                Some(Err(e)) => Err(e.clone()),
                None => Ok(()),
            };
            return StartStep::Finished(result);
        }
        let unit: String = session.order[session.next].clone();
        match self.start_process_single(unit.as_str()) {
            Ok(Launch::AlreadyRunning) => {
                session.report(Ok(()));
                StartStep::Running(unit)
            },
            Ok(Launch::Spawn(spec)) => StartStep::Spawn(unit, spec),
            Err(e) => {
                session.report(Err(e.clone()));
                StartStep::Refused(unit, e)
            },
        }
    }

    /// Takes note of what came of the program that had to be spawned in a request.
    pub fn spawn_finished(&mut self, session: &mut StartSession, outcome: SpawnOutcome) -> (done:
        Result<Started, ProcessError>)
        requires
            old(self).wf(),
            old(session).wf(),
            old(session)@.next < old(session)@.order.len(),
        ensures
            final(self).wf(),
            final(self).names() == old(self).names(),
            final(self).loads() == old(self).loads(),
            final(session).wf(),
            is_report(
                old(self)@,
                old(session)@,
                outcome,
                final(self)@,
                final(session)@,
                done,
            ),
    {
        let unit: String = session.order[session.next].clone();
        match self.finish_start(unit.as_str(), outcome) {
            Ok(started) => {
                session.report(Ok(()));
                Ok(started)
            },
            Err(e) => {
                session.report(Err(e.clone()));
                Err(e)
            },
        }
    }
}

/// Seconds between stopping and starting again when a restart is asked for.
pub const RESTART_PAUSE_SECS: u64 = 1;

/// Seconds between the exit of a process and its restart by policy.
pub const RESTART_DELAY_SECS: u64 = 2;

/// What a restart calls for before the program is started again.
#[derive(Debug)]
pub struct Restart {
    /// What is left to do to bring the process down, if it runs.
    pub stop: Option<Termination>,
    /// How long to wait before the program is started.
    pub pause_secs: u64,
}

/// The programs that come up with the daemon, under way.
#[derive(Debug)]
pub struct AutostartSession {
    names: Vec<String>,
    next: usize,
}

impl AutostartSession {
    /// The programs to start, in this order.
    pub closed spec fn names(self) -> Seq<Seq<char>> {
        text::texts(self.names@)
    }

    /// How many have been dealt with.
    pub closed spec fn next(self) -> int {
        self.next as int
    }

    /// No more have been dealt with than there are.
    pub open spec fn wf(self) -> bool {
        0 <= self.next() <= self.names().len()
    }
}

/// The program of that name runs.
pub open spec fn runs(programs: Map<Seq<char>, ProcessModel>, name: Seq<char>) -> bool {
    programs.contains_key(name) && programs[name].running
}

/// Among the programs from `from` on, the one before `to` is the first that does not run.
pub open spec fn is_pick(
    programs: Map<Seq<char>, ProcessModel>,
    names: Seq<Seq<char>>,
    from: int,
    to: int,
) -> bool {
    &&& from < to <= names.len()
    &&& !runs(programs, names[to - 1])
    &&& forall|i: int| from <= i < to - 1 ==> runs(programs, #[trigger] names[i])
}

/// The table once every program has been stopped.
pub open spec fn all_stopped(programs: Map<Seq<char>, ProcessModel>) -> Map<
    Seq<char>,
    ProcessModel,
> {
    Map::new(
        |n: Seq<char>| programs.contains_key(n),
        |n: Seq<char>|
            if programs[n].running {
                stopped(programs[n])
            } else {
                programs[n]
            },
    )
}

/// Whether the restart policy has a process started again that exited with `code`.
pub open spec fn policy_restarts(policy: Option<Seq<char>>, code: i32) -> bool {
    match policy {
        Some(p) => p == "always"@ || (p == "on-failure"@ && code != 0),
        None => false,
    }
}

/// Whether the restart policy has a process started again that exited with `code`:
/// `always` on any exit, `on-failure` on any but 0, and otherwise never.
pub fn should_restart(policy: &Option<String>, code: i32) -> (restart: bool)
    ensures
        restart == policy_restarts(text::optional_text(*policy), code),
{
    match policy {
        Some(p) => text::same_text(p.as_str(), "always") || (text::same_text(
            p.as_str(),
            "on-failure",
        ) && code != 0),
        None => false,
    }
}

/// What the event queue had to offer.
#[derive(Debug)]
pub enum Received {
    Event(ProcessEvent),
    /// There is no event at the moment.
    Empty,
    /// There will be no event any more.
    Disconnected,
}

/// What an event calls for.
#[derive(Debug)]
pub enum EventAction {
    Nothing,
    /// After so many seconds, request a restart of the program.
    ScheduleRestart(String, u64),
    /// Start the program.
    Start(String),
}

/// What came of looking for an event.
#[derive(Debug)]
pub struct Handled {
    /// Whether there was one.
    pub handled: bool,
    pub action: EventAction,
}

/// The table after an event.
pub open spec fn after_event(
    programs: Map<Seq<char>, ProcessModel>,
    event: ProcessEvent,
) -> Map<Seq<char>, ProcessModel> {
    match event {
        ProcessEvent::Exited(name, _) | ProcessEvent::Failed(name, _) => if programs.contains_key(
            name@,
        ) {
            programs.insert(name@, exited(programs[name@]))
        } else {
            programs
        },
        _ => programs,
    }
}

/// What an event calls for, given the table before it.
pub open spec fn is_event_action(
    programs: Map<Seq<char>, ProcessModel>,
    event: ProcessEvent,
    action: EventAction,
) -> bool {
    match event {
        ProcessEvent::Exited(name, code) => if programs.contains_key(name@) && policy_restarts(
            text::optional_text(programs[name@].config.restart),
            code,
        ) {
            action matches EventAction::ScheduleRestart(n, secs) && n@ == name@ && secs
                == RESTART_DELAY_SECS
        } else {
            action == EventAction::Nothing
        },
        ProcessEvent::RestartRequested(name) => action matches EventAction::Start(n) && n@ == name@,
        _ => action == EventAction::Nothing,
    }
}

/// What waiting for a process to exit came to.
#[derive(Debug)]
pub enum WaitOutcome {
    /// It exited, with a code unless a signal killed it.
    Exited(Option<i32>),
    /// Waiting failed, with the reason.
    Failed(String),
}

/// The event that the exit of the process `name` is announced with. A process that a
/// signal killed counts as having exited with -1.
pub fn monitor_event(name: &str, waited: WaitOutcome) -> (event: ProcessEvent)
    ensures
        match waited {
            WaitOutcome::Exited(code) => event matches ProcessEvent::Exited(n, c) && n@ == name@ && c
                == (match code {
                Some(c) => c,
                None => -1i32,
            }),
            WaitOutcome::Failed(reason) => event matches ProcessEvent::Failed(n, r) && n@ == name@
                && r == reason,
        },
{
    match waited {
        WaitOutcome::Exited(code) => {
            let code: i32 = match code {
                Some(c) => c,
                None => -1,
            };
            ProcessEvent::Exited(name.to_owned(), code)
        },
        WaitOutcome::Failed(reason) => ProcessEvent::Failed(name.to_owned(), reason),
    }
}

impl ProcessManager {
    /// Stops the program `name` so that it can be started again after a pause.
    pub fn restart_process(&mut self, name: &str) -> (done: Result<Restart, ProcessError>)
        requires
            old(self).wf(),
        ensures
            final(self).wf(),
            final(self).names() == old(self).names(),
            final(self).loads() == old(self).loads(),
            if !old(self)@.contains_key(name@) {
                &&& final(self)@ == old(self)@
                &&& done matches Err(e) && e.is_not_found(name@)
            } else if !old(self)@[name@].running {
                &&& final(self)@ == old(self)@
                &&& done == Ok::<Restart, ProcessError>(
                    (Restart { stop: None, pause_secs: RESTART_PAUSE_SECS }),
                )
            } else {
                &&& final(self)@ == old(self)@.insert(name@, stopped(old(self)@[name@]))
                &&& done matches Ok(Restart { stop: Some(t), pause_secs })
                &&& pause_secs == RESTART_PAUSE_SECS
                &&& is_termination(old(self)@[name@], t)
            },
    {
        match self.stop_process(name) {
            Ok(stop) => Ok(Restart { stop, pause_secs: RESTART_PAUSE_SECS }),
            Err(e) => Err(e),
        }
    }

    /// Takes note of an event, if there was one, and decides what it calls for.
    pub fn handle_single_event(&mut self, received: Received) -> (res: Handled)
        requires
            old(self).wf(),
        ensures
            final(self).wf(),
            final(self).names() == old(self).names(),
            final(self).loads() == old(self).loads(),
            match received {
                Received::Event(event) => {
                    &&& res.handled
                    &&& final(self)@ == after_event(old(self)@, event)
                    &&& is_event_action(old(self)@, event, res.action)
                },
                _ => {
                    &&& !res.handled
                    &&& final(self)@ == old(self)@
                    &&& res.action == EventAction::Nothing
                },
            },
    {
        match received {
            Received::Event(ProcessEvent::Started(_)) => Handled {
                handled: true,
                action: EventAction::Nothing,
            },
            Received::Event(ProcessEvent::Exited(name, code)) => {
                let restart: bool = match self.position(name.as_str()) {
                    Some(i) => should_restart(&self.processes[i].config.restart, code),
                    None => false,
                };
                self.mark_exited(name.as_str());
                let action: EventAction = if restart {
                    EventAction::ScheduleRestart(name, RESTART_DELAY_SECS)
                } else {
                    EventAction::Nothing
                };
                Handled { handled: true, action }
            },
            Received::Event(ProcessEvent::Failed(name, _)) => {
                self.mark_exited(name.as_str());
                Handled { handled: true, action: EventAction::Nothing }
            },
            Received::Event(ProcessEvent::RestartRequested(name)) => Handled {
                handled: true,
                action: EventAction::Start(name),
            },
            Received::Empty => Handled { handled: false, action: EventAction::Nothing },
            Received::Disconnected => Handled { handled: false, action: EventAction::Nothing },
        }
    }

    /// Takes note that a process no longer runs.
    fn mark_exited(&mut self, name: &str)
        requires
            old(self).wf(),
        ensures
            final(self).wf(),
            final(self).names() == old(self).names(),
            final(self).loads() == old(self).loads(),
            final(self)@ == (if old(self)@.contains_key(name@) {
                old(self)@.insert(name@, exited(old(self)@[name@]))
            } else {
                old(self)@
            }),
    {
        if let Some(i) = self.position(name) {
            let ghost rows = self.processes@;
            self.processes[i].running = false;
            proof {
                let row = self.processes@[i as int];
                assert(self.processes@ =~= rows.update(i as int, row));
                lemma_by_name_update(rows, i as int, row);
                assert(row.model() =~= exited(rows[i as int].model()));
            }
        }
    }

    /// All programs, and whether they run.
    pub fn list_processes(&self) -> (list: Vec<(String, bool)>)
        requires
            self.wf(),
        ensures
            list.len() == self.names().len(),
            forall|i: int|
                0 <= i < list.len() ==> (#[trigger] list[i]).0@ == self.names()[i]
                    && self@.contains_key(list[i].0@) && list[i].1 == self@[list[i].0@].running,
    {
        let mut list: Vec<(String, bool)> = Vec::new();
        let mut i: usize = 0;
        proof {
            lemma_by_name(self.processes@);
        }
        while i < self.processes.len()
            invariant
                self.wf(),
                forall|j: int|
                    0 <= j < self.processes.len() ==> self@.contains_key(
                        (#[trigger] self.processes[j]).name@,
                    ) && self@[self.processes[j].name@] == self.processes[j].model(),
                i <= self.processes.len(),
                list.len() == i,
                forall|j: int|
                    0 <= j < i ==> (#[trigger] list[j]).0@ == self.processes[j].name@ && list[j].1
                        == self.processes[j].running,
            decreases self.processes.len() - i,
        {
            list.push((self.processes[i].name.clone(), self.processes[i].running));
            i = i + 1;
        }
        proof {
            assert forall|i: int| 0 <= i < list.len() implies (#[trigger] list[i]).0@
                == self.names()[i] && self@.contains_key(list[i].0@) && list[i].1
                == self@[list[i].0@].running by {
                assert(self@.contains_key(self.processes[i].name@));
            }
        }
        list
    }

    /// Begins to start the programs that come up with the daemon.
    pub fn start_all_autostart(&self) -> (session: AutostartSession)
        requires
            self.wf(),
        ensures
            session.wf(),
            session.next() == 0,
            session.names() == self.names().filter(|n: Seq<char>| self@[n].config.autostart),
    {
        let ghost keep = |n: Seq<char>| self@[n].config.autostart;
        let ghost all = self.names();
        let mut names: Vec<String> = Vec::new();
        let mut i: usize = 0;
        proof {
            lemma_by_name(self.processes@);
            assert(text::texts(names@) =~= all.take(0).filter(keep)) by {
                reveal(Seq::filter);
            }
        }
        while i < self.processes.len()
            invariant
                forall|j: int|
                    0 <= j < self.processes.len() ==> self@.contains_key(
                        (#[trigger] self.processes[j]).name@,
                    ) && self@[self.processes[j].name@] == self.processes[j].model(),
                keep == (|n: Seq<char>| self@[n].config.autostart),
                all == row_names(self.processes@),
                i <= self.processes.len(),
                text::texts(names@) == all.take(i as int).filter(keep),
            decreases self.processes.len() - i,
        {
            proof {
                resolver::lemma_filter_take(all, keep, i as int);
                assert(self@.contains_key(self.processes[i as int].name@));
            }
            if self.processes[i].config.autostart {
                let ghost before = names@;
                names.push(self.processes[i].name.clone());
                assert(text::texts(names@) =~= text::texts(before).push(all[i as int]));
            }
            i = i + 1;
        }
        assert(all.take(all.len() as int) =~= all);
        AutostartSession { names, next: 0 }
    }

    /// The next program that has to be started. Those that run by now, because an
    /// earlier one pulled them in, are passed over.
    pub fn next_autostart(&self, session: &mut AutostartSession) -> (name: Option<String>)
        requires
            self.wf(),
            old(session).wf(),
        ensures
            final(session).wf(),
            final(session).names() == old(session).names(),
            match name {
                Some(n) => {
                    &&& n@ == old(session).names()[final(session).next() - 1]
                    &&& is_pick(
                        self@,
                        old(session).names(),
                        old(session).next(),
                        final(session).next(),
                    )
                },
                None => {
                    &&& final(session).next() == old(session).names().len()
                    &&& forall|i: int|
                        old(session).next() <= i < old(session).names().len() ==> runs(
                            self@,
                            #[trigger] old(session).names()[i],
                        )
                },
            },
    {
        let ghost from = session.next();
        let ghost all = session.names();
        while session.next < session.names.len()
            invariant
                self.wf(),
                all == old(session).names(),
                from == old(session).next(),
                session.names() == all,
                0 <= from <= session.next() <= all.len(),
                forall|i: int| from <= i < session.next() ==> runs(self@, #[trigger] all[i]),
            decreases session.names.len() - session.next,
        {
            let name: String = session.names[session.next].clone();
            session.next = session.next + 1;
            let running: bool = match self.position(name.as_str()) {
                Some(i) => self.processes[i].running,
                None => false,
            };
            if !running {
                return Some(name);
            }
        }
        None
    }

    /// Stops every program. What is left to do is listed for those that ran.
    pub fn stop_all(&mut self) -> (terminations: Vec<(String, Termination)>)
        requires
            old(self).wf(),
        ensures
            final(self).wf(),
            final(self).names() == old(self).names(),
            final(self).loads() == old(self).loads(),
            final(self)@ == all_stopped(old(self)@),
            terminated_names(terminations@) == old(self).names().filter(
                |n: Seq<char>| old(self)@[n].running,
            ),
            forall|i: int|
                0 <= i < terminations.len() ==> is_termination(
                    old(self)@[(#[trigger] terminations[i]).0@],
                    terminations[i].1,
                ),
    {
        let ghost before = self@;
        let ghost all = self.names();
        let ghost ran = |n: Seq<char>| before[n].running;
        let mut terminations: Vec<(String, Termination)> = Vec::new();
        let mut i: usize = 0;
        let total: usize = self.processes.len();
        proof {
            lemma_by_name(self.processes@);
            assert(terminated_names(terminations@) =~= all.take(0).filter(ran)) by {
                reveal(Seq::filter);
            }
        }
        while i < total
            invariant
                self.wf(),
                total == self.processes.len(),
                self.names() == all,
                self.loads() == old(self).loads(),
                all.no_duplicates(),
                i <= total,
                ran == (|n: Seq<char>| before[n].running),
                self@.dom() == before.dom(),
                forall|n: Seq<char>| #[trigger] before.contains_key(n) <==> all.contains(n),
                forall|j: int|
                    0 <= j < all.len() ==> self@[#[trigger] all[j]] == (if j < i && before[all[j]].running {
                        stopped(before[all[j]])
                    } else {
                        before[all[j]]
                    }),
                terminated_names(terminations@) == all.take(i as int).filter(ran),
                forall|j: int|
                    0 <= j < terminations.len() ==> is_termination(
                        before[(#[trigger] terminations[j]).0@],
                        terminations[j].1,
                    ),
            decreases total - i,
        {
            let name: String = self.processes[i].name.clone();
            proof {
                assert(all[i as int] == name@);
                assert(all.contains(name@));
                resolver::lemma_filter_take(all, ran, i as int);
            }
            let ghost table = self@;
            let stopping: Result<Option<Termination>, ProcessError> = self.stop_process(
                name.as_str(),
            );
            proof {
                assert(table[all[i as int]] == before[all[i as int]]);
                assert forall|j: int| 0 <= j < all.len() implies self@[#[trigger] all[j]] == (if j
                    < i + 1 && before[all[j]].running {
                    stopped(before[all[j]])
                } else {
                    before[all[j]]
                }) by {
                    if j != i {
                        assert(all[j] != all[i as int]);
                        assert(self@[all[j]] == table[all[j]]);
                    }
                }
                assert(self@.dom() =~= before.dom());
            }
            if let Ok(Some(termination)) = stopping {
                let ghost listed = terminations@;
                terminations.push((name, termination));
                assert(terminated_names(terminations@) =~= terminated_names(listed).push(all[i as int]));
            }
            i = i + 1;
        }
        proof {
            assert(all.take(all.len() as int) =~= all);
            assert forall|n: Seq<char>| #[trigger] before.contains_key(n) implies self@[n]
                == all_stopped(before)[n] by {
                let j = all.index_of(n);
                assert(all.contains(n));
                assert(all[j] == n);
            }
            assert(self@ =~= all_stopped(before));
        }
        terminations
    }

    /// Up to `lines` most recent lines that the process printed, or all that were kept
    /// if `lines` is 0.
    pub fn get_recent_logs(&self, name: &str, lines: usize) -> (recent: Result<
        Vec<LogLine>,
        ProcessError,
    >)
        requires
            self.wf(),
        ensures
            if !self@.contains_key(name@) {
                recent matches Err(e) && e.is_not_found(name@)
            } else if !self@[name@].config.log_forward {
                recent matches Err(e) && e.is_log_forward_disabled(name@)
            } else {
                &&& recent matches Ok(r)
                &&& r@ == logs::requested_lines(self@[name@].logs, lines as nat)
                &&& r.len() <= logs::LOG_BUFFER_CAPACITY
            },
    {
        match self.position(name) {
            None => Err(ProcessError::NotFound(name.to_owned())),
            Some(i) => {
                if !self.processes[i].config.log_forward {
                    return Err(ProcessError::LogForwardDisabled(name.to_owned()));
                }
                Ok(self.processes[i].log_buffer.recent(lines))
            },
        }
    }

    /// Whether new lines of the process can be followed.
    pub fn subscribe_logs(&self, name: &str) -> (allowed: Result<(), ProcessError>)
        requires
            self.wf(),
        ensures
            if !self@.contains_key(name@) {
                allowed matches Err(e) && e.is_not_found(name@)
            } else if !self@[name@].config.log_forward {
                allowed matches Err(e) && e.is_log_forward_disabled(name@)
            } else {
                allowed is Ok
            },
    {
        match self.position(name) {
            None => Err(ProcessError::NotFound(name.to_owned())),
            Some(i) => {
                if !self.processes[i].config.log_forward {
                    return Err(ProcessError::LogForwardDisabled(name.to_owned()));
                }
                Ok(())
            },
        }
    }

    /// Keeps a line that a process of the program `name` printed, if its output is
    /// forwarded. A process that was
    /// spawned before the program was loaded anew belongs to the program that was
    /// replaced, and so does what it prints.
    pub fn record_log(&mut self, name: &str, generation: u64, line: LogLine)
        requires
            old(self).wf(),
        ensures
            final(self).wf(),
            final(self).names() == old(self).names(),
            final(self).loads() == old(self).loads(),
            final(self)@ == with_line(old(self)@, name@, generation, line),
    {
        if let Some(i) = self.position(name) {
            if !self.processes[i].config.log_forward || self.processes[i].generation != generation {
                return;
            }
            let ghost rows = self.processes@;
            self.processes[i].log_buffer.record(line);
            proof {
                let row = self.processes@[i as int];
                assert(self.processes@ =~= rows.update(i as int, row));
                lemma_by_name_update(rows, i as int, row);
            }
        }
    }
}

/// The table once it has kept a line that a process of the program `name` printed, where
/// that process was spawned for the loading `generation` of the program.
pub open spec fn with_line(
    programs: Map<Seq<char>, ProcessModel>,
    name: Seq<char>,
    generation: u64,
    line: LogLine,
) -> Map<Seq<char>, ProcessModel> {
    if programs.contains_key(name) && programs[name].config.log_forward
        && programs[name].generation == generation {
        programs.insert(
            name,
            ProcessModel {
                logs: logs::last_lines(
                    programs[name].logs.push(line),
                    logs::LOG_BUFFER_CAPACITY as nat,
                ),
                ..programs[name]
            },
        )
    } else {
        programs
    }
}

/// The names of the programs for which something is left to do.
pub open spec fn terminated_names(terminations: Seq<(String, Termination)>) -> Seq<Seq<char>> {
    Seq::new(terminations.len(), |i: int| terminations[i].0@)
}

/// A program keeps no more lines than there is room for, and none at all if its output is
/// not forwarded.
pub proof fn law_kept_lines_are_bounded(manager: ProcessManager)
    requires
        manager.wf(),
    ensures
        forall|n: Seq<char>| #[trigger]
            manager@.contains_key(n) ==> manager@[n].logs.len() <= logs::LOG_BUFFER_CAPACITY,
        forall|n: Seq<char>| #[trigger]
            manager@.contains_key(n) && !manager@[n].config.log_forward ==> manager@[n].logs
                == Seq::<LogLine>::empty(),
{
    let rows = manager.processes@;
    lemma_by_name(rows);
    assert forall|n: Seq<char>| #[trigger] manager@.contains_key(n) implies manager@[n].logs.len()
        <= logs::LOG_BUFFER_CAPACITY && (!manager@[n].config.log_forward ==> manager@[n].logs
        =~= Seq::<LogLine>::empty()) by {
        let i = row_names(rows).index_of(n);
        assert(row_names(rows).contains(n));
        assert(rows[i].name@ == n);
        assert(rows[i].wf());
        assert(manager@[rows[i].name@] == rows[i].model());
    }
}

/// Every program of the table has exactly one place in the list of names.
pub proof fn law_names_are_unique(manager: ProcessManager)
    requires
        manager.wf(),
    ensures
        manager@.dom().finite(),
        manager.names().no_duplicates(),
        forall|n: Seq<char>| #[trigger] manager@.contains_key(n) <==> manager.names().contains(n),
{
    lemma_by_name(manager.processes@);
}

} // verus!
