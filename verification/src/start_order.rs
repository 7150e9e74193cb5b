//! The order in which a program and everything it pulls in are started.
//!
//! Programs name each other in two lists. `after` says which programs come up
//! earlier, `wants` says which programs come up alongside. Both lists may name
//! programs that nobody configured; such names count for nothing.

use vstd::prelude::*;

verus! {

/// The two lists of one program.
pub struct Links {
    pub after: Seq<Seq<char>>,
    pub wants: Seq<Seq<char>>,
}

/// The names of the list that are configured, in the order of the list.
pub open spec fn known(units: Map<Seq<char>, Links>, names: Seq<Seq<char>>) -> Seq<Seq<char>> {
    names.filter(|n: Seq<char>| units.contains_key(n))
}

/// What `name` pulls in directly: first its `after` list, then its `wants` list.
pub open spec fn pulled_in(units: Map<Seq<char>, Links>, name: Seq<char>) -> Seq<Seq<char>> {
    known(units, units[name].after + units[name].wants)
}

/// What has to come up before `name`.
pub open spec fn predecessors(units: Map<Seq<char>, Links>, name: Seq<char>) -> Seq<Seq<char>> {
    known(units, units[name].after)
}

/// `seen`, followed by those of `names` that it does not hold yet, each once.
pub open spec fn append_new(seen: Seq<Seq<char>>, names: Seq<Seq<char>>) -> Seq<Seq<char>>
    decreases names.len(),
{
    if names.len() == 0 {
        seen
    } else {
        let before = append_new(seen, names.drop_last());
        if before.contains(names.last()) {
            before
        } else {
            before.push(names.last())
        }
    }
}

/// What has been found from `root` once the first `k` finds have been looked at,
/// in the order of finding.
pub open spec fn found(units: Map<Seq<char>, Links>, root: Seq<char>, k: nat) -> Seq<Seq<char>>
    decreases k,
{
    if k == 0 {
        seq![root]
    } else {
        let before = found(units, root, (k - 1) as nat);
        if k - 1 < before.len() {
            append_new(before, pulled_in(units, before[k - 1]))
        } else {
            before
        }
    }
}

/// Everything that comes up with `root`, in the order of finding. No more than
/// all configured programs can be found.
pub open spec fn discovered(units: Map<Seq<char>, Links>, root: Seq<char>) -> Seq<Seq<char>> {
    found(units, root, units.dom().len())
}

/// Each of `names` occurs in `placed`.
pub open spec fn all_in(placed: Seq<Seq<char>>, names: Seq<Seq<char>>) -> bool {
    forall|i: int| 0 <= i < names.len() ==> placed.contains(#[trigger] names[i])
}

/// Not in line yet, while all that has to come before is among the first `k` in line.
pub open spec fn joins(
    units: Map<Seq<char>, Links>,
    line: Seq<Seq<char>>,
    k: int,
    name: Seq<char>,
) -> bool {
    !line.contains(name) && all_in(line.take(k), predecessors(units, name))
}

/// The line of programs that are free to start once the first `k` in line have
/// been placed. The line opens with the programs of `units_found` that wait for
/// nothing; each placement lets in those it was the last to hold back, in the
/// order of `units_found`.
pub open spec fn line_up(
    units: Map<Seq<char>, Links>,
    units_found: Seq<Seq<char>>,
    k: nat,
) -> Seq<Seq<char>>
    decreases k,
{
    if k == 0 {
        units_found.filter(|n: Seq<char>| joins(units, Seq::empty(), 0, n))
    } else {
        let before = line_up(units, units_found, (k - 1) as nat);
        if k - 1 < before.len() {
            before + units_found.filter(|n: Seq<char>| joins(units, before, k as int, n))
        } else {
            before
        }
    }
}

/// Those of `units_found` that come up in an order that keeps every `after` list.
pub open spec fn ordered(units: Map<Seq<char>, Links>, units_found: Seq<Seq<char>>) -> Seq<
    Seq<char>,
> {
    line_up(units, units_found, units_found.len())
}

/// The order in which `root` and everything it pulls in are started: first all
/// that can be ordered by `after`, then, as they were found, the programs that
/// an `after` cycle holds back.
pub open spec fn start_order(units: Map<Seq<char>, Links>, root: Seq<char>) -> Seq<Seq<char>> {
    let all = discovered(units, root);
    let line = ordered(units, all);
    line + all.filter(|n: Seq<char>| !line.contains(n))
}

/// The names that a program lists and nobody configured, in the order of its lists.
pub open spec fn unknown(units: Map<Seq<char>, Links>, name: Seq<char>) -> Seq<Seq<char>> {
    (units[name].after + units[name].wants).filter(|n: Seq<char>| !units.contains_key(n))
}

/// An `after` cycle holds back a program that comes up with `root`.
pub open spec fn has_cycle(units: Map<Seq<char>, Links>, root: Seq<char>) -> bool {
    let all = discovered(units, root);
    ordered(units, all).len() != all.len()
}

/// A walk that goes, step by step, from a program to one that it pulls in.
pub open spec fn pull_walk(units: Map<Seq<char>, Links>, walk: Seq<Seq<char>>) -> bool {
    forall|i: int|
        0 <= i < walk.len() - 1 ==> pulled_in(units, #[trigger] walk[i]).contains(walk[i + 1])
}

/// `name` is `root`, or is pulled in by it, directly or through others.
pub open spec fn comes_with(
    units: Map<Seq<char>, Links>,
    root: Seq<char>,
    name: Seq<char>,
) -> bool {
    exists|walk: Seq<Seq<char>>|
        walk.len() > 0 && walk.first() == root && walk.last() == name && #[trigger] pull_walk(
            units,
            walk,
        )
}

/// A walk that goes, step by step, from a program to one that has to come before it.
pub open spec fn after_walk(units: Map<Seq<char>, Links>, walk: Seq<Seq<char>>) -> bool {
    forall|i: int|
        0 <= i < walk.len() - 1 ==> predecessors(units, #[trigger] walk[i]).contains(walk[i + 1])
}

/// No walk against the `after` lists that sets out from `name` meets a program twice.
pub open spec fn free_of_cycles(units: Map<Seq<char>, Links>, name: Seq<char>) -> bool {
    forall|walk: Seq<Seq<char>>|
        walk.len() > 0 && walk.first() == name && #[trigger] after_walk(units, walk)
            ==> walk.no_duplicates()
}

/// `earlier` stands before `later` in `order`.
pub open spec fn precedes(order: Seq<Seq<char>>, earlier: Seq<char>, later: Seq<char>) -> bool {
    exists|i: int, j: int|
        0 <= i < j < order.len() && #[trigger] order[i] == earlier && #[trigger] order[j] == later
}

/// What a filter keeps.
pub(crate) proof fn lemma_filter<A>(s: Seq<A>, keep: spec_fn(A) -> bool)
    ensures
        forall|x: A| #[trigger] s.filter(keep).contains(x) <==> s.contains(x) && keep(x),
        s.filter(keep).len() <= s.len(),
        s.no_duplicates() ==> s.filter(keep).no_duplicates(),
    decreases s.len(),
{
    reveal(Seq::filter);
    if s.len() > 0 {
        let front = s.drop_last();
        lemma_filter(front, keep);
        assert(s == front.push(s.last()));
        let kept = front.filter(keep);
        assert forall|x: A| #[trigger] s.contains(x) <==> front.contains(x) || x == s.last() by {
            if s.contains(x) {
                let i = s.index_of(x);
                if i < front.len() {
                    assert(front[i] == x);
                }
            }
            if front.contains(x) {
                assert(s[front.index_of(x)] == x);
            }
            assert(s[s.len() - 1] == s.last());
        }
        assert forall|x: A| #[trigger] s.filter(keep).contains(x) <==> s.contains(x) && keep(x) by {
            if keep(s.last()) {
                lemma_push_contains(kept, s.last(), x);
            }
        }
        if s.no_duplicates() {
            assert(front.no_duplicates());
            assert(!front.contains(s.last()));
            assert(!kept.contains(s.last()));
        }
    }
}

/// Membership after a push.
pub(crate) proof fn lemma_push_contains<A>(s: Seq<A>, last: A, x: A)
    ensures
        s.push(last).contains(x) <==> s.contains(x) || x == last,
{
    if s.contains(x) {
        assert(s.push(last)[s.index_of(x)] == x);
    }
    assert(s.push(last)[s.len() as int] == last);
    if s.push(last).contains(x) {
        let i = s.push(last).index_of(x);
        if i < s.len() {
            assert(s[i] == x);
        }
    }
}

/// Membership in a concatenation.
pub(crate) proof fn lemma_add_contains<A>(a: Seq<A>, b: Seq<A>, x: A)
    ensures
        (a + b).contains(x) <==> a.contains(x) || b.contains(x),
{
    if a.contains(x) {
        assert((a + b)[a.index_of(x)] == x);
    }
    if b.contains(x) {
        assert((a + b)[a.len() + b.index_of(x)] == x);
    }
    if (a + b).contains(x) {
        let i = (a + b).index_of(x);
        if i < a.len() {
            assert(a[i] == x);
        } else {
            assert(b[i - a.len()] == x);
        }
    }
}

/// A sequence without duplicates, drawn from a finite set, is no longer than the set.
pub(crate) proof fn lemma_bounded<A>(s: Seq<A>, from: Set<A>)
    requires
        s.no_duplicates(),
        from.finite(),
        forall|i: int| 0 <= i < s.len() ==> from.contains(#[trigger] s[i]),
    ensures
        s.len() <= from.len(),
{
    s.unique_seq_to_set();
    assert(s.to_set().subset_of(from));
    vstd::set_lib::lemma_len_subset(s.to_set(), from);
}

/// If both lack duplicates and the part is as long as the whole, nothing is left out.
pub(crate) proof fn lemma_all_covered<A>(part: Seq<A>, whole: Seq<A>)
    requires
        part.no_duplicates(),
        whole.no_duplicates(),
        forall|i: int| 0 <= i < part.len() ==> whole.contains(#[trigger] part[i]),
        part.len() == whole.len(),
    ensures
        forall|i: int| 0 <= i < whole.len() ==> part.contains(#[trigger] whole[i]),
{
    part.unique_seq_to_set();
    whole.unique_seq_to_set();
    assert(part.to_set().subset_of(whole.to_set()));
    vstd::set_lib::lemma_subset_equality(part.to_set(), whole.to_set());
    assert forall|i: int| 0 <= i < whole.len() implies part.contains(#[trigger] whole[i]) by {
        assert(whole.to_set().contains(whole[i]));
    }
}

/// `append_new` keeps what was there in place, holds both lists, and repeats nothing.
pub(crate) proof fn lemma_append_new(seen: Seq<Seq<char>>, names: Seq<Seq<char>>)
    requires
        seen.no_duplicates(),
    ensures
        append_new(seen, names).no_duplicates(),
        seen.len() <= append_new(seen, names).len(),
        append_new(seen, names).take(seen.len() as int) == seen,
        forall|x: Seq<char>| #[trigger]
            append_new(seen, names).contains(x) <==> seen.contains(x) || names.contains(x),
    decreases names.len(),
{
    if names.len() == 0 {
        assert(seen.take(seen.len() as int) =~= seen);
    } else {
        let front = names.drop_last();
        lemma_append_new(seen, front);
        let before = append_new(seen, front);
        assert(names == front.push(names.last()));
        let result = append_new(seen, names);
        assert(result.take(seen.len() as int) =~= before.take(seen.len() as int));
        assert forall|x: Seq<char>| #[trigger]
            append_new(seen, names).contains(x) <==> seen.contains(x) || names.contains(x) by {
            lemma_push_contains(front, names.last(), x);
            lemma_push_contains(before, names.last(), x);
        }
    }
}

/// What is found is configured, found once, and reached from the root.
pub(crate) proof fn lemma_found(units: Map<Seq<char>, Links>, root: Seq<char>, k: nat)
    requires
        units.contains_key(root),
    ensures
        found(units, root, k).no_duplicates(),
        found(units, root, k).len() > 0,
        found(units, root, k)[0] == root,
        forall|i: int|
            0 <= i < found(units, root, k).len() ==> units.contains_key(
                #[trigger] found(units, root, k)[i],
            ),
        forall|i: int|
            0 <= i < found(units, root, k).len() ==> comes_with(
                units,
                root,
                #[trigger] found(units, root, k)[i],
            ),
    decreases k,
{
    let all = found(units, root, k);
    if k == 0 {
        let walk = seq![root];
        assert(pull_walk(units, walk));
        assert(walk.first() == root && walk.last() == root);
        assert(comes_with(units, root, root));
    } else {
        let before = found(units, root, (k - 1) as nat);
        lemma_found(units, root, (k - 1) as nat);
        if k - 1 < before.len() {
            let from = before[k - 1];
            let names = pulled_in(units, from);
            lemma_append_new(before, names);
            assert(all[0] == all.take(before.len() as int)[0]);
            assert forall|i: int| 0 <= i < all.len() implies units.contains_key(#[trigger] all[i])
                && comes_with(units, root, all[i]) by {
                assert(all.contains(all[i]));
                if before.contains(all[i]) {
                    let j = before.index_of(all[i]);
                    assert(before[j] == all[i]);
                } else {
                    assert(names.contains(all[i]));
                    lemma_filter(
                        units[from].after + units[from].wants,
                        |n: Seq<char>| units.contains_key(n),
                    );
                    let walk = choose|walk: Seq<Seq<char>>|
                        walk.len() > 0 && walk.first() == root && walk.last() == from
                            && #[trigger] pull_walk(units, walk);
                    let longer = walk.push(all[i]);
                    assert forall|j: int| 0 <= j < longer.len() - 1 implies pulled_in(
                        units,
                        #[trigger] longer[j],
                    ).contains(longer[j + 1]) by {
                        if j < walk.len() - 1 {
                            assert(longer[j] == walk[j] && longer[j + 1] == walk[j + 1]);
                        }
                    }
                    assert(pull_walk(units, longer));
                    assert(longer.first() == root && longer.last() == all[i]);
                }
            }
        }
    }
}

/// More looking leaves what was found in place.
pub(crate) proof fn lemma_found_grows(
    units: Map<Seq<char>, Links>,
    root: Seq<char>,
    k: nat,
    later: nat,
)
    requires
        units.contains_key(root),
        k <= later,
    ensures
        found(units, root, k).len() <= found(units, root, later).len(),
        found(units, root, later).take(found(units, root, k).len() as int) == found(units, root, k),
    decreases later,
{
    let first = found(units, root, k);
    if k == later {
        assert(first.take(first.len() as int) =~= first);
    } else {
        let before = found(units, root, (later - 1) as nat);
        lemma_found_grows(units, root, k, (later - 1) as nat);
        lemma_found(units, root, (later - 1) as nat);
        if later - 1 < before.len() {
            lemma_append_new(before, pulled_in(units, before[later - 1]));
            let after = found(units, root, later);
            assert(after.take(first.len() as int) =~= after.take(before.len() as int).take(
                first.len() as int,
            ));
        }
    }
}

/// What a find that has been looked at pulls in has been found too.
pub(crate) proof fn lemma_found_closed(
    units: Map<Seq<char>, Links>,
    root: Seq<char>,
    k: nat,
    i: int,
    name: Seq<char>,
)
    requires
        units.contains_key(root),
        0 <= i < k,
        i < found(units, root, k).len(),
        pulled_in(units, found(units, root, k)[i]).contains(name),
    ensures
        found(units, root, k).contains(name),
{
    lemma_found_grows(units, root, (i + 1) as nat, k);
    lemma_found_grows(units, root, i as nat, k);
    let at = found(units, root, i as nat);
    let next = found(units, root, (i + 1) as nat);
    let all = found(units, root, k);
    if i < at.len() {
        assert(at[i] == all.take(at.len() as int)[i]);
        lemma_found(units, root, i as nat);
        lemma_append_new(at, pulled_in(units, at[i]));
        assert(next.contains(name));
        assert(all[next.index_of(name)] == all.take(next.len() as int)[next.index_of(name)]);
    } else {
        lemma_found_stops(units, root, i as nat, k);
    }
}

/// Once every find has been looked at, nothing more is found.
pub(crate) proof fn lemma_found_stops(
    units: Map<Seq<char>, Links>,
    root: Seq<char>,
    k: nat,
    later: nat,
)
    requires
        found(units, root, k).len() <= k <= later,
    ensures
        found(units, root, later) == found(units, root, k),
    decreases later,
{
    if k < later {
        lemma_found_stops(units, root, k, (later - 1) as nat);
    }
}

/// Looking at every configured program finds everything there is.
pub(crate) proof fn lemma_discovered(units: Map<Seq<char>, Links>, root: Seq<char>)
    requires
        units.contains_key(root),
        units.dom().finite(),
    ensures
        discovered(units, root).no_duplicates(),
        discovered(units, root).len() > 0,
        discovered(units, root)[0] == root,
        discovered(units, root).len() <= units.dom().len(),
        forall|i: int|
            0 <= i < discovered(units, root).len() ==> units.contains_key(
                #[trigger] discovered(units, root)[i],
            ),
        forall|n: Seq<char>| #[trigger]
            discovered(units, root).contains(n) <==> comes_with(units, root, n),
{
    let all = discovered(units, root);
    lemma_found(units, root, units.dom().len());
    lemma_bounded(all, units.dom());
    assert forall|n: Seq<char>| #[trigger] all.contains(n) <==> comes_with(units, root, n) by {
        if all.contains(n) {
            assert(all[all.index_of(n)] == n);
        }
        if comes_with(units, root, n) {
            let walk = choose|walk: Seq<Seq<char>>|
                walk.len() > 0 && walk.first() == root && walk.last() == n && #[trigger] pull_walk(
                    units,
                    walk,
                );
            lemma_walk_found(units, root, walk, walk.len() - 1);
        }
    }
}

/// A walk from the root never leaves what is found.
pub(crate) proof fn lemma_walk_found(
    units: Map<Seq<char>, Links>,
    root: Seq<char>,
    walk: Seq<Seq<char>>,
    i: int,
)
    requires
        units.contains_key(root),
        units.dom().finite(),
        pull_walk(units, walk),
        0 <= i < walk.len(),
        walk[0] == root,
    ensures
        discovered(units, root).contains(walk[i]),
    decreases i,
{
    let all = discovered(units, root);
    lemma_found(units, root, units.dom().len());
    lemma_bounded(all, units.dom());
    if i == 0 {
        assert(all[0] == root);
    } else {
        lemma_walk_found(units, root, walk, i - 1);
        let j = all.index_of(walk[i - 1]);
        assert(all[j] == walk[i - 1]);
        assert(pulled_in(units, walk[i - 1]).contains(walk[i - 1 + 1]));
        lemma_found_closed(units, root, units.dom().len(), j, walk[i]);
    }
}

/// What is in a short list is in a longer one.
pub(crate) proof fn lemma_all_in_more(few: Seq<Seq<char>>, more: Seq<Seq<char>>, names: Seq<Seq<char>>)
    requires
        all_in(few, names),
        few.len() <= more.len(),
        more.take(few.len() as int) == few,
    ensures
        all_in(more, names),
{
    assert forall|i: int| 0 <= i < names.len() implies more.contains(#[trigger] names[i]) by {
        let j = few.index_of(names[i]);
        assert(few.contains(names[i]));
        assert(more.take(few.len() as int)[j] == more[j]);
    }
}

/// The line holds finds only, each once. Whoever is in it stands behind all that
/// has to come before. A find is out of it exactly as long as it waits for a
/// program that has not been placed.
pub(crate) proof fn lemma_line(units: Map<Seq<char>, Links>, all: Seq<Seq<char>>, k: nat)
    requires
        all.no_duplicates(),
    ensures
        ({
            let line = line_up(units, all, k);
            let placed = if k < line.len() {
                k as int
            } else {
                line.len() as int
            };
            &&& line.no_duplicates()
            &&& forall|i: int| 0 <= i < line.len() ==> all.contains(#[trigger] line[i])
            &&& forall|i: int|
                0 <= i < line.len() ==> all_in(line.take(i), predecessors(units, #[trigger] line[i]))
            &&& forall|i: int|
                0 <= i < all.len() ==> (line.contains(#[trigger] all[i]) <==> all_in(
                    line.take(placed),
                    predecessors(units, all[i]),
                ))
        }),
    decreases k,
{
    let line = line_up(units, all, k);
    if k == 0 {
        let none = Seq::<Seq<char>>::empty();
        let keep = |n: Seq<char>| joins(units, none, 0, n);
        lemma_filter(all, keep);
        assert(none.take(0) =~= none);
        assert forall|i: int| 0 <= i < line.len() implies all.contains(#[trigger] line[i]) && all_in(
            line.take(i),
            predecessors(units, line[i]),
        ) by {
            assert(line.contains(line[i]));
            assert(keep(line[i]));
            let names = predecessors(units, line[i]);
            if names.len() > 0 {
                assert(none.contains(names[0]));
            }
        }
        assert forall|i: int| 0 <= i < all.len() implies (line.contains(#[trigger] all[i])
            <==> all_in(line.take(0), predecessors(units, all[i]))) by {
            assert(all.contains(all[i]));
            assert(line.contains(all[i]) <==> keep(all[i]));
            assert(line.take(0) =~= none);
        }
    } else {
        let before = line_up(units, all, (k - 1) as nat);
        lemma_line(units, all, (k - 1) as nat);
        if k - 1 < before.len() {
            let keep = |n: Seq<char>| joins(units, before, k as int, n);
            let batch = all.filter(keep);
            lemma_filter(all, keep);
            assert(line == before + batch);
            assert forall|i: int| 0 <= i < batch.len() implies !before.contains(#[trigger] batch[i])
                && all.contains(batch[i]) && all_in(
                before.take(k as int),
                predecessors(units, batch[i]),
            ) by {
                assert(batch.contains(batch[i]));
                assert(keep(batch[i]));
            }
            assert(line.no_duplicates()) by {
                assert forall|i: int, j: int|
                    0 <= i < line.len() && 0 <= j < line.len() && i != j implies line[i]
                    != line[j] by {
                    if i < before.len() && j >= before.len() {
                        assert(!before.contains(batch[j - before.len()]));
                        assert(before[i] == line[i]);
                    }
                    if j < before.len() && i >= before.len() {
                        assert(!before.contains(batch[i - before.len()]));
                        assert(before[j] == line[j]);
                    }
                }
            }
            assert forall|i: int| 0 <= i < line.len() implies all.contains(#[trigger] line[i])
                && all_in(line.take(i), predecessors(units, line[i])) by {
                if i < before.len() {
                    assert(line[i] == before[i]);
                    assert(line.take(i) =~= before.take(i));
                } else {
                    assert(line[i] == batch[i - before.len()]);
                    assert(line.take(i).take(k as int) =~= before.take(k as int));
                    lemma_all_in_more(
                        before.take(k as int),
                        line.take(i),
                        predecessors(units, line[i]),
                    );
                }
            }
            assert forall|i: int| 0 <= i < all.len() implies (line.contains(#[trigger] all[i])
                <==> all_in(line.take(k as int), predecessors(units, all[i]))) by {
                lemma_add_contains(before, batch, all[i]);
                assert(all.contains(all[i]));
                assert(batch.contains(all[i]) <==> keep(all[i]));
                assert(line.take(k as int) =~= before.take(k as int));
                if before.contains(all[i]) {
                    assert(line.take(k as int).take(k - 1) =~= before.take(k - 1));
                    lemma_all_in_more(
                        before.take(k - 1),
                        line.take(k as int),
                        predecessors(units, all[i]),
                    );
                }
            }
        }
    }
}

/// Once everyone in line has been placed, nobody joins.
pub(crate) proof fn lemma_line_stops(
    units: Map<Seq<char>, Links>,
    all: Seq<Seq<char>>,
    k: nat,
    later: nat,
)
    requires
        line_up(units, all, k).len() <= k <= later,
    ensures
        line_up(units, all, later) == line_up(units, all, k),
    decreases later,
{
    if k < later {
        lemma_line_stops(units, all, k, (later - 1) as nat);
    }
}

/// The order of all finds, taken apart.
pub(crate) proof fn lemma_ordered(units: Map<Seq<char>, Links>, all: Seq<Seq<char>>)
    requires
        all.no_duplicates(),
    ensures
        ordered(units, all).no_duplicates(),
        ordered(units, all).len() <= all.len(),
        forall|i: int|
            0 <= i < ordered(units, all).len() ==> all.contains(#[trigger] ordered(units, all)[i]),
        forall|i: int|
            0 <= i < ordered(units, all).len() ==> all_in(
                ordered(units, all).take(i),
                predecessors(units, #[trigger] ordered(units, all)[i]),
            ),
        forall|i: int|
            0 <= i < all.len() && !ordered(units, all).contains(#[trigger] all[i]) ==> !all_in(
                ordered(units, all),
                predecessors(units, all[i]),
            ),
{
    let line = ordered(units, all);
    lemma_line(units, all, all.len());
    all.unique_seq_to_set();
    lemma_bounded(line, all.to_set());
    assert(line.take(line.len() as int) =~= line);
}

/// What has to come before a find is itself a find.
pub(crate) proof fn lemma_predecessor_discovered(
    units: Map<Seq<char>, Links>,
    root: Seq<char>,
    name: Seq<char>,
    earlier: Seq<char>,
)
    requires
        units.contains_key(root),
        units.dom().finite(),
        discovered(units, root).contains(name),
        predecessors(units, name).contains(earlier),
    ensures
        discovered(units, root).contains(earlier),
{
    let keep = |n: Seq<char>| units.contains_key(n);
    lemma_filter(units[name].after, keep);
    lemma_filter(units[name].after + units[name].wants, keep);
    lemma_add_contains(units[name].after, units[name].wants, earlier);
    lemma_pulled_in_discovered(units, root, name, earlier);
}

/// What a find pulls in is found.
pub(crate) proof fn lemma_pulled_in_discovered(
    units: Map<Seq<char>, Links>,
    root: Seq<char>,
    name: Seq<char>,
    other: Seq<char>,
)
    requires
        units.contains_key(root),
        units.dom().finite(),
        discovered(units, root).contains(name),
        pulled_in(units, name).contains(other),
    ensures
        discovered(units, root).contains(other),
{
    let all = discovered(units, root);
    lemma_discovered(units, root);
    let i = all.index_of(name);
    assert(all[i] == name);
    lemma_found_closed(units, root, units.dom().len(), i, other);
}

/// From a program that is held back, a walk of any length stays among those held back.
pub(crate) proof fn lemma_held_back_walk(
    units: Map<Seq<char>, Links>,
    root: Seq<char>,
    name: Seq<char>,
    steps: nat,
) -> (walk: Seq<Seq<char>>)
    requires
        units.contains_key(root),
        units.dom().finite(),
        discovered(units, root).contains(name),
        !ordered(units, discovered(units, root)).contains(name),
    ensures
        walk.len() == steps + 1,
        walk.first() == name,
        after_walk(units, walk),
        forall|i: int|
            0 <= i < walk.len() ==> discovered(units, root).contains(#[trigger] walk[i]),
        !ordered(units, discovered(units, root)).contains(walk.last()),
    decreases steps,
{
    let all = discovered(units, root);
    let line = ordered(units, all);
    if steps == 0 {
        seq![name]
    } else {
        let walk = lemma_held_back_walk(units, root, name, (steps - 1) as nat);
        let at = walk.last();
        lemma_discovered(units, root);
        lemma_ordered(units, all);
        assert(all.contains(walk[walk.len() - 1]));
        assert(all[all.index_of(at)] == at);
        assert(!all_in(line, predecessors(units, at)));
        let i = choose|i: int|
            0 <= i < predecessors(units, at).len() && !line.contains(
                #[trigger] predecessors(units, at)[i],
            );
        let next = predecessors(units, at)[i];
        assert(predecessors(units, at).contains(next));
        lemma_predecessor_discovered(units, root, at, next);
        let longer = walk.push(next);
        assert forall|j: int| 0 <= j < longer.len() - 1 implies predecessors(
            units,
            #[trigger] longer[j],
        ).contains(longer[j + 1]) by {
            if j < walk.len() - 1 {
                assert(longer[j] == walk[j] && longer[j + 1] == walk[j + 1]);
            }
        }
        longer
    }
}

/// Along a walk against the `after` lists, places in line go strictly down.
pub(crate) proof fn lemma_walk_goes_down(
    units: Map<Seq<char>, Links>,
    all: Seq<Seq<char>>,
    walk: Seq<Seq<char>>,
    i: int,
    j: int,
)
    requires
        all.no_duplicates(),
        after_walk(units, walk),
        0 <= i <= j < walk.len(),
        ordered(units, all).contains(walk[i]),
    ensures
        ordered(units, all).contains(walk[j]),
        i < j ==> ordered(units, all).index_of(walk[j]) < ordered(units, all).index_of(walk[i]),
    decreases j - i,
{
    let line = ordered(units, all);
    if i < j {
        lemma_walk_goes_down(units, all, walk, i, j - 1);
        lemma_ordered(units, all);
        let at = line.index_of(walk[j - 1]);
        assert(line[at] == walk[j - 1]);
        let names = predecessors(units, walk[j - 1]);
        assert(names.contains(walk[j - 1 + 1]));
        let m = names.index_of(walk[j]);
        assert(all_in(line.take(at), names));
        assert(line.take(at).contains(names[m]));
        let p = line.take(at).index_of(walk[j]);
        assert(line[p] == walk[j]);
        assert(line.index_of(walk[j]) == p);
    }
}

/// A find gets a place in line exactly if it is free of cycles.
pub(crate) proof fn lemma_ordered_iff_free(units: Map<Seq<char>, Links>, root: Seq<char>, name: Seq<char>)
    requires
        units.contains_key(root),
        units.dom().finite(),
        discovered(units, root).contains(name),
    ensures
        ordered(units, discovered(units, root)).contains(name) <==> free_of_cycles(units, name),
{
    let all = discovered(units, root);
    let line = ordered(units, all);
    lemma_discovered(units, root);
    if line.contains(name) {
        assert forall|walk: Seq<Seq<char>>|
            walk.len() > 0 && walk.first() == name && #[trigger] after_walk(
                units,
                walk,
            ) implies walk.no_duplicates() by {
            assert forall|i: int, j: int|
                0 <= i < walk.len() && 0 <= j < walk.len() && i != j implies walk[i]
                != walk[j] by {
                if i < j {
                    lemma_walk_goes_down(units, all, walk, 0, i);
                    lemma_walk_goes_down(units, all, walk, i, j);
                } else {
                    lemma_walk_goes_down(units, all, walk, 0, j);
                    lemma_walk_goes_down(units, all, walk, j, i);
                }
            }
        }
    } else {
        let walk = lemma_held_back_walk(units, root, name, all.len());
        if walk.no_duplicates() {
            all.unique_seq_to_set();
            lemma_bounded(walk, all.to_set());
        }
        assert(!walk.no_duplicates());
    }
}

/// Starting a program starts exactly the program itself and everything that it
/// pulls in, directly or through others, each once.
pub proof fn law_start_order_is_complete(units: Map<Seq<char>, Links>, root: Seq<char>)
    requires
        units.contains_key(root),
        units.dom().finite(),
    ensures
        start_order(units, root).no_duplicates(),
        start_order(units, root).contains(root),
        forall|n: Seq<char>| #[trigger]
            start_order(units, root).contains(n) <==> comes_with(units, root, n),
        forall|n: Seq<char>| #[trigger]
            start_order(units, root).contains(n) ==> units.contains_key(n),
{
    let all = discovered(units, root);
    let line = ordered(units, all);
    let keep = |n: Seq<char>| !line.contains(n);
    let rest = all.filter(keep);
    lemma_discovered(units, root);
    lemma_ordered(units, all);
    lemma_filter(all, keep);
    assert(start_order(units, root) == line + rest);
    assert forall|n: Seq<char>| #[trigger] start_order(units, root).contains(n) <==> all.contains(
        n,
    ) by {
        lemma_add_contains(line, rest, n);
        if line.contains(n) {
            assert(all.contains(line[line.index_of(n)]));
        }
    }
    let order = start_order(units, root);
    assert forall|i: int, j: int|
        0 <= i < order.len() && 0 <= j < order.len() && i != j implies order[i] != order[j] by {
        if i < line.len() && j >= line.len() {
            assert(rest.contains(rest[j - line.len()]));
            assert(line[i] == order[i]);
        }
        if j < line.len() && i >= line.len() {
            assert(rest.contains(rest[i - line.len()]));
            assert(line[j] == order[j]);
        }
    }
    assert(all[0] == root);
    assert(all.contains(root));
    assert forall|n: Seq<char>| #[trigger] order.contains(n) implies units.contains_key(n) by {
        assert(units.contains_key(all[all.index_of(n)]));
    }
}

/// A program is started after everything in its `after` list that is configured,
/// unless a cycle of `after` lists can be reached from it.
pub proof fn law_after_is_kept(
    units: Map<Seq<char>, Links>,
    root: Seq<char>,
    name: Seq<char>,
    earlier: Seq<char>,
)
    requires
        units.contains_key(root),
        units.dom().finite(),
        comes_with(units, root, name),
        free_of_cycles(units, name),
        units.contains_key(earlier),
        units[name].after.contains(earlier),
    ensures
        precedes(start_order(units, root), earlier, name),
{
    let all = discovered(units, root);
    let line = ordered(units, all);
    lemma_discovered(units, root);
    lemma_ordered_iff_free(units, root, name);
    lemma_ordered(units, all);
    lemma_filter(units[name].after, |n: Seq<char>| units.contains_key(n));
    let names = predecessors(units, name);
    assert(names.contains(earlier));
    let j = line.index_of(name);
    assert(line[j] == name);
    assert(all_in(line.take(j), names));
    assert(line.take(j).contains(names[names.index_of(earlier)]));
    let i = line.take(j).index_of(earlier);
    let order = start_order(units, root);
    assert(order[i] == earlier && order[j] == name);
}

/// Programs from which an `after` cycle can be reached are not lost: they are
/// started behind all others.
pub proof fn law_cycles_come_last(
    units: Map<Seq<char>, Links>,
    root: Seq<char>,
    name: Seq<char>,
    held_back: Seq<char>,
)
    requires
        units.contains_key(root),
        units.dom().finite(),
        comes_with(units, root, name),
        comes_with(units, root, held_back),
        free_of_cycles(units, name),
        !free_of_cycles(units, held_back),
    ensures
        precedes(start_order(units, root), name, held_back),
{
    let all = discovered(units, root);
    let line = ordered(units, all);
    lemma_discovered(units, root);
    lemma_ordered_iff_free(units, root, name);
    lemma_ordered_iff_free(units, root, held_back);
    let keep = |n: Seq<char>| !line.contains(n);
    let rest = all.filter(keep);
    lemma_filter(all, keep);
    assert(rest.contains(held_back));
    let order = start_order(units, root);
    let i = line.index_of(name);
    let j = line.len() + rest.index_of(held_back);
    assert(order[i] == name && order[j] == held_back);
}

/// A cycle is noticed exactly if one can be reached, against the `after` lists, from a
/// program that is started.
pub proof fn law_cycles_are_noticed(units: Map<Seq<char>, Links>, root: Seq<char>)
    requires
        units.contains_key(root),
        units.dom().finite(),
    ensures
        has_cycle(units, root) <==> exists|n: Seq<char>| #[trigger]
            comes_with(units, root, n) && !free_of_cycles(units, n),
{
    let all = discovered(units, root);
    let line = ordered(units, all);
    lemma_discovered(units, root);
    lemma_ordered(units, all);
    if has_cycle(units, root) {
        if forall|i: int| 0 <= i < all.len() ==> line.contains(#[trigger] all[i]) {
            line.unique_seq_to_set();
            assert forall|i: int| 0 <= i < all.len() implies line.to_set().contains(
                #[trigger] all[i],
            ) by {
                assert(line.contains(all[i]));
            }
            lemma_bounded(all, line.to_set());
        }
        let i = choose|i: int| 0 <= i < all.len() && !line.contains(#[trigger] all[i]);
        assert(all.contains(all[i]));
        lemma_ordered_iff_free(units, root, all[i]);
        assert(comes_with(units, root, all[i]));
    } else {
        lemma_all_covered(line, all);
        assert forall|n: Seq<char>| #[trigger] comes_with(units, root, n) implies free_of_cycles(
            units,
            n,
        ) by {
            assert(all.contains(n));
            lemma_ordered_iff_free(units, root, n);
            assert(line.contains(all[all.index_of(n)]));
        }
    }
}

/// `wants` alone imposes no order: where no `after` list holds anything back, the
/// programs are started as they are found, the requested one first.
pub proof fn law_wants_imposes_no_order(units: Map<Seq<char>, Links>, root: Seq<char>)
    requires
        units.contains_key(root),
        units.dom().finite(),
        forall|n: Seq<char>| #[trigger]
            comes_with(units, root, n) ==> predecessors(units, n).len() == 0,
    ensures
        start_order(units, root) == discovered(units, root),
        start_order(units, root)[0] == root,
{
    let all = discovered(units, root);
    lemma_discovered(units, root);
    let none = Seq::<Seq<char>>::empty();
    let keep = |n: Seq<char>| joins(units, none, 0, n);
    assert forall|i: int| 0 <= i < all.len() implies keep(#[trigger] all[i]) by {
        assert(all.contains(all[i]));
        assert(comes_with(units, root, all[i]));
    }
    lemma_filter_all(all, keep);
    assert(line_up(units, all, 0) == all);
    assert(line_up(units, all, all.len()) == all) by {
        lemma_line_full(units, all, all.len());
    }
    let line = ordered(units, all);
    let drop = |n: Seq<char>| !line.contains(n);
    lemma_filter(all, drop);
    let rest = all.filter(drop);
    if rest.len() > 0 {
        assert(rest.contains(rest[0]));
    }
    assert(start_order(units, root) =~= all);
}

/// A filter that refuses nothing changes nothing.
pub(crate) proof fn lemma_filter_all<A>(s: Seq<A>, keep: spec_fn(A) -> bool)
    requires
        forall|i: int| 0 <= i < s.len() ==> keep(#[trigger] s[i]),
    ensures
        s.filter(keep) == s,
    decreases s.len(),
{
    reveal(Seq::filter);
    if s.len() > 0 {
        lemma_filter_all(s.drop_last(), keep);
        assert(s =~= s.drop_last().push(s.last()));
    }
}

/// If all are in line from the outset, the line never changes.
pub(crate) proof fn lemma_line_full(units: Map<Seq<char>, Links>, all: Seq<Seq<char>>, k: nat)
    requires
        line_up(units, all, 0) == all,
    ensures
        line_up(units, all, k) == all,
    decreases k,
{
    if k > 0 {
        lemma_line_full(units, all, (k - 1) as nat);
        let before = line_up(units, all, (k - 1) as nat);
        let keep = |n: Seq<char>| joins(units, before, k as int, n);
        lemma_filter(all, keep);
        let batch = all.filter(keep);
        if batch.len() > 0 {
            assert(batch.contains(batch[0]));
        }
        if k - 1 < before.len() {
            assert(before + batch =~= before);
        }
    }
}

/// Names that nobody configured do not matter: two configurations that differ only
/// in such names start the same programs in the same order.
pub proof fn law_unknown_names_do_not_matter(
    units: Map<Seq<char>, Links>,
    others: Map<Seq<char>, Links>,
    root: Seq<char>,
)
    requires
        units.contains_key(root),
        units.dom() == others.dom(),
        forall|n: Seq<char>| #[trigger]
            units.contains_key(n) ==> known(units, units[n].after) == known(units, others[n].after)
                && known(units, units[n].wants) == known(units, others[n].wants),
    ensures
        start_order(units, root) == start_order(others, root),
{
    let keep = |n: Seq<char>| units.contains_key(n);
    let keep_others = |n: Seq<char>| others.contains_key(n);
    assert(keep =~= keep_others);
    lemma_found_same(units, others, root, units.dom().len());
    let all = discovered(units, root);
    lemma_found(units, root, units.dom().len());
    lemma_line_same(units, others, all, all.len());
}

/// What a program pulls in, where only unknown names differ.
pub(crate) proof fn lemma_pulled_in_same(
    units: Map<Seq<char>, Links>,
    others: Map<Seq<char>, Links>,
    name: Seq<char>,
)
    requires
        units.dom() == others.dom(),
        known(units, units[name].after) == known(units, others[name].after),
        known(units, units[name].wants) == known(units, others[name].wants),
    ensures
        pulled_in(units, name) == pulled_in(others, name),
        predecessors(units, name) == predecessors(others, name),
{
    let keep = |n: Seq<char>| units.contains_key(n);
    let keep_others = |n: Seq<char>| others.contains_key(n);
    assert(keep =~= keep_others);
    Seq::filter_distributes_over_add(units[name].after, units[name].wants, keep);
    Seq::filter_distributes_over_add(others[name].after, others[name].wants, keep);
}

/// What is found, where only unknown names differ.
pub(crate) proof fn lemma_found_same(
    units: Map<Seq<char>, Links>,
    others: Map<Seq<char>, Links>,
    root: Seq<char>,
    k: nat,
)
    requires
        units.contains_key(root),
        units.dom() == others.dom(),
        forall|n: Seq<char>| #[trigger]
            units.contains_key(n) ==> known(units, units[n].after) == known(units, others[n].after)
                && known(units, units[n].wants) == known(units, others[n].wants),
    ensures
        found(units, root, k) == found(others, root, k),
    decreases k,
{
    if k > 0 {
        lemma_found_same(units, others, root, (k - 1) as nat);
        let before = found(units, root, (k - 1) as nat);
        lemma_found(units, root, (k - 1) as nat);
        if k - 1 < before.len() {
            assert(units.contains_key(before[k - 1]));
            lemma_pulled_in_same(units, others, before[k - 1]);
        }
    }
}

/// The line, where only unknown names differ.
pub(crate) proof fn lemma_line_same(
    units: Map<Seq<char>, Links>,
    others: Map<Seq<char>, Links>,
    all: Seq<Seq<char>>,
    k: nat,
)
    requires
        units.dom() == others.dom(),
        forall|n: Seq<char>| #[trigger]
            units.contains_key(n) ==> known(units, units[n].after) == known(units, others[n].after)
                && known(units, units[n].wants) == known(units, others[n].wants),
        forall|i: int| 0 <= i < all.len() ==> units.contains_key(#[trigger] all[i]),
    ensures
        line_up(units, all, k) == line_up(others, all, k),
    decreases k,
{
    let before = if k == 0 {
        Seq::<Seq<char>>::empty()
    } else {
        lemma_line_same(units, others, all, (k - 1) as nat);
        line_up(units, all, (k - 1) as nat)
    };
    let keep = |n: Seq<char>| joins(units, before, k as int, n);
    let keep_others = |n: Seq<char>| joins(others, before, k as int, n);
    assert forall|i: int| 0 <= i < all.len() implies keep(#[trigger] all[i]) == keep_others(
        all[i],
    ) by {
        assert(units.contains_key(all[i]));
        lemma_pulled_in_same(units, others, all[i]);
    }
    lemma_filter_same(all, keep, keep_others);
}

/// Two filters that agree on every element keep the same.
pub(crate) proof fn lemma_filter_same<A>(s: Seq<A>, keep: spec_fn(A) -> bool, also: spec_fn(A) -> bool)
    requires
        forall|i: int| 0 <= i < s.len() ==> keep(#[trigger] s[i]) == also(s[i]),
    ensures
        s.filter(keep) == s.filter(also),
    decreases s.len(),
{
    reveal(Seq::filter);
    if s.len() > 0 {
        lemma_filter_same(s.drop_last(), keep, also);
    }
}

} // verus!
