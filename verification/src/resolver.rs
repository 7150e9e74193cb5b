//! Finding what comes up with a program, and lining it up.
//!
//! Programs are handled by their place in a table. The names they stand for
//! are carried along for the proofs only.

use crate::start_order::{self, Links};
use vstd::prelude::*;

verus! {

/// The names at the given places of the table.
pub open spec fn names_at(names: Seq<Seq<char>>, places: Seq<usize>) -> Seq<Seq<char>> {
    Seq::new(places.len(), |i: int| names[places[i] as int])
}

/// Every place lies inside a table of `len` rows.
pub open spec fn inside(places: Seq<usize>, len: nat) -> bool {
    forall|i: int| 0 <= i < places.len() ==> (#[trigger] places[i]) < len
}

/// Names at places, one place more.
pub(crate) proof fn lemma_names_at_push(names: Seq<Seq<char>>, places: Seq<usize>, place: usize)
    ensures
        names_at(names, places.push(place)) == names_at(names, places).push(names[place as int]),
{
    assert(names_at(names, places.push(place)) =~= names_at(names, places).push(
        names[place as int],
    ));
}

/// In a table without duplicates, a place is listed exactly if its name is.
pub(crate) proof fn lemma_names_at_contains(names: Seq<Seq<char>>, places: Seq<usize>, place: usize)
    requires
        names.no_duplicates(),
        inside(places, names.len()),
        place < names.len(),
    ensures
        names_at(names, places).contains(names[place as int]) <==> places.contains(place),
{
    if places.contains(place) {
        let i = places.index_of(place);
        assert(names_at(names, places)[i] == names[place as int]);
    }
    if names_at(names, places).contains(names[place as int]) {
        let i = names_at(names, places).index_of(names[place as int]);
        assert(names[places[i] as int] == names[place as int]);
        assert(places[i] == place);
    }
}

/// Whether a place is listed.
pub(crate) fn contains_place(places: &Vec<usize>, place: usize) -> (found: bool)
    ensures
        found == places@.contains(place),
{
    let mut i: usize = 0;
    while i < places.len()
        invariant
            i <= places.len(),
            forall|j: int| 0 <= j < i ==> places[j] != place,
        decreases places.len() - i,
    {
        if places[i] == place {
            return true;
        }
        i = i + 1;
    }
    false
}

/// Everything that comes up with the program at `root`, in the order of finding.
/// `pulls` lists, for each program, the places of those that it pulls in.
pub(crate) fn discover(
    pulls: &Vec<Vec<usize>>,
    root: usize,
    Ghost(units): Ghost<Map<Seq<char>, Links>>,
    Ghost(names): Ghost<Seq<Seq<char>>>,
) -> (found: Vec<usize>)
    requires
        names.no_duplicates(),
        pulls.len() == names.len(),
        root < pulls.len(),
        units.dom().finite(),
        forall|i: int| 0 <= i < names.len() ==> units.contains_key(#[trigger] names[i]),
        forall|i: int| 0 <= i < pulls.len() ==> inside(#[trigger] pulls[i]@, names.len()),
        forall|i: int|
            0 <= i < pulls.len() ==> names_at(names, #[trigger] pulls[i]@) == start_order::pulled_in(
                units,
                names[i],
            ),
    ensures
        found@.no_duplicates(),
        inside(found@, names.len()),
        names_at(names, found@) == start_order::discovered(units, names[root as int]),
{
    let ghost root_name = names[root as int];
    let mut seen: Vec<bool> = Vec::new();
    let total: usize = pulls.len();
    let mut i: usize = 0;
    while i < total
        invariant
            i <= total,
            seen.len() == i,
            forall|j: int| 0 <= j < i ==> !seen[j],
        decreases total - i,
    {
        seen.push(false);
        i = i + 1;
    }
    let mut found: Vec<usize> = Vec::new();
    found.push(root);
    seen.set(root, true);
    let mut next: usize = 0;
    proof {
        assert(names_at(names, found@) =~= seq![root_name]);
        start_order::lemma_found(units, root_name, 0);
        start_order::lemma_bounded(names_at(names, found@), units.dom());
    }
    while next < found.len()
        invariant
            names.no_duplicates(),
            pulls.len() == names.len(),
            total == pulls.len(),
            root < total,
            root_name == names[root as int],
            units.dom().finite(),
            forall|i: int| 0 <= i < names.len() ==> units.contains_key(#[trigger] names[i]),
            forall|i: int| 0 <= i < pulls.len() ==> inside(#[trigger] pulls[i]@, names.len()),
            forall|i: int|
                0 <= i < pulls.len() ==> names_at(names, #[trigger] pulls[i]@)
                    == start_order::pulled_in(units, names[i]),
            next <= found.len(),
            found.len() <= units.dom().len(),
            inside(found@, names.len()),
            found@.no_duplicates(),
            names_at(names, found@) == start_order::found(units, root_name, next as nat),
            seen.len() == total,
            forall|j: usize| j < total ==> (#[trigger] seen[j as int] <==> found@.contains(j)),
        decreases units.dom().len() - next,
    {
        let current: usize = found[next];
        let list: &Vec<usize> = &pulls[current];
        let ghost before = names_at(names, found@);
        let mut k: usize = 0;
        proof {
            assert(names_at(names, list@.take(0)) =~= Seq::empty());
            assert(before[next as int] == names[current as int]);
        }
        while k < list.len()
            invariant
                names.no_duplicates(),
                total == names.len(),
                inside(list@, names.len()),
                k <= list.len(),
                inside(found@, names.len()),
                found@.no_duplicates(),
                next < found.len(),
                seen.len() == total,
                forall|j: usize| j < total ==> (#[trigger] seen[j as int] <==> found@.contains(j)),
                names_at(names, found@) == start_order::append_new(
                    before,
                    names_at(names, list@.take(k as int)),
                ),
            decreases list.len() - k,
        {
            let dep: usize = list[k];
            proof {
                assert(list@.take(k + 1) =~= list@.take(k as int).push(dep));
                lemma_names_at_push(names, list@.take(k as int), dep);
                let shorter = names_at(names, list@.take(k as int));
                assert(shorter.push(names[dep as int]).drop_last() =~= shorter);
                lemma_names_at_contains(names, found@, dep);
                lemma_names_at_push(names, found@, dep);
                assert(inside(list@, names.len()));
                assert(list@[k as int] < names.len());
            }
            if !seen[dep] {
                proof {
                    assert forall|j: usize| j < total implies (found@.push(dep).contains(j)
                        <==> found@.contains(j) || j == dep) by {
                        start_order::lemma_push_contains(found@, dep, j);
                    }
                }
                found.push(dep);
                seen.set(dep, true);
            }
            k = k + 1;
        }
        proof {
            assert(list@.take(list.len() as int) =~= list@);
            start_order::lemma_found(units, root_name, (next + 1) as nat);
            start_order::lemma_bounded(names_at(names, found@), units.dom());
        }
        next = next + 1;
    }
    proof {
        start_order::lemma_found_stops(units, root_name, next as nat, units.dom().len());
    }
    found
}

/// How often `x` occurs.
spec fn count(s: Seq<usize>, x: usize) -> nat
    decreases s.len(),
{
    if s.len() == 0 {
        0
    } else {
        count(s.drop_last(), x) + (if s.last() == x {
            1nat
        } else {
            0nat
        })
    }
}

/// One element more.
proof fn lemma_count_take(s: Seq<usize>, x: usize, t: int)
    requires
        0 <= t < s.len(),
    ensures
        count(s.take(t + 1), x) == count(s.take(t), x) + (if s[t] == x {
            1nat
        } else {
            0nat
        }),
{
    assert(s.take(t + 1).drop_last() =~= s.take(t));
}

/// A prefix holds no more than the whole.
proof fn lemma_count_prefix(s: Seq<usize>, x: usize, t: int, u: int)
    requires
        0 <= t <= u <= s.len(),
    ensures
        count(s.take(t), x) <= count(s.take(u), x),
        u == s.len() ==> count(s.take(u), x) == count(s, x),
    decreases u - t,
{
    if u == s.len() {
        assert(s.take(u) =~= s);
    }
    if t < u {
        lemma_count_prefix(s, x, t, u - 1);
        lemma_count_take(s, x, u - 1);
    }
}

/// If a prefix holds all occurrences, the rest holds none.
proof fn lemma_count_exhausted(s: Seq<usize>, x: usize, t: int, later: int)
    requires
        0 <= t <= later < s.len(),
        count(s.take(t), x) == count(s, x),
    ensures
        s[later] != x,
{
    lemma_count_prefix(s, x, t, later);
    lemma_count_take(s, x, later);
    lemma_count_prefix(s, x, later + 1, s.len() as int);
}

/// In a sorted list, everything below the element at `t` lies before it.
proof fn lemma_count_sorted(s: Seq<usize>, x: usize, t: int)
    requires
        0 <= t < s.len(),
        forall|i: int, j: int| 0 <= i <= j < s.len() ==> s[i] <= s[j],
        x < s[t],
    ensures
        count(s.take(t), x) == count(s, x),
{
    lemma_count_none_after(s, x, t, s.len() as int);
    lemma_count_prefix(s, x, t, s.len() as int);
}

/// What does not occur from a place on is not counted from there on.
proof fn lemma_count_none_after(s: Seq<usize>, x: usize, t: int, u: int)
    requires
        0 <= t <= u <= s.len(),
        forall|i: int| t <= i < s.len() ==> s[i] != x,
    ensures
        count(s.take(t), x) == count(s.take(u), x),
    decreases u - t,
{
    if t < u {
        lemma_count_none_after(s, x, t, u - 1);
        lemma_count_take(s, x, u - 1);
    }
}

/// How many entries of `waits` have not been placed.
spec fn pending(waits: Seq<usize>, placed: Seq<usize>) -> nat
    decreases waits.len(),
{
    if waits.len() == 0 {
        0
    } else {
        pending(waits.drop_last(), placed) + (if placed.contains(waits.last()) {
            0nat
        } else {
            1nat
        })
    }
}

/// Before anything is placed, every entry is pending.
proof fn lemma_pending_start(waits: Seq<usize>)
    ensures
        pending(waits, Seq::empty()) == waits.len(),
    decreases waits.len(),
{
    if waits.len() > 0 {
        lemma_pending_start(waits.drop_last());
    }
}

/// Placing one program settles its occurrences.
proof fn lemma_pending_step(waits: Seq<usize>, placed: Seq<usize>, next: usize)
    requires
        !placed.contains(next),
    ensures
        pending(waits, placed) == pending(waits, placed.push(next)) + count(waits, next),
    decreases waits.len(),
{
    if waits.len() > 0 {
        lemma_pending_step(waits.drop_last(), placed, next);
        start_order::lemma_push_contains(placed, next, waits.last());
    }
}

/// Nothing is pending exactly if every entry has been placed.
proof fn lemma_pending_none(waits: Seq<usize>, placed: Seq<usize>)
    ensures
        pending(waits, placed) == 0 <==> forall|i: int|
            0 <= i < waits.len() ==> placed.contains(#[trigger] waits[i]),
    decreases waits.len(),
{
    if waits.len() > 0 {
        let front = waits.drop_last();
        lemma_pending_none(front, placed);
        assert(waits.last() == waits[waits.len() - 1]);
        if forall|i: int| 0 <= i < waits.len() ==> placed.contains(#[trigger] waits[i]) {
            assert forall|i: int| 0 <= i < front.len() implies placed.contains(
                #[trigger] front[i],
            ) by {
                assert(front[i] == waits[i]);
            }
        }
        if pending(waits, placed) == 0 {
            assert forall|i: int| 0 <= i < waits.len() implies placed.contains(
                #[trigger] waits[i],
            ) by {
                if i < front.len() {
                    assert(front[i] == waits[i]);
                }
            }
        }
    }
}

/// Counting what is pending decides whether all predecessors have been placed.
proof fn lemma_pending_names(
    all: Seq<Seq<char>>,
    waits: Seq<usize>,
    placed: Seq<usize>,
)
    requires
        all.no_duplicates(),
        inside(waits, all.len()),
        inside(placed, all.len()),
    ensures
        pending(waits, placed) == 0 <==> start_order::all_in(
            names_at(all, placed),
            names_at(all, waits),
        ),
{
    lemma_pending_none(waits, placed);
    assert forall|i: int| 0 <= i < waits.len() implies (placed.contains(#[trigger] waits[i])
        <==> names_at(all, placed).contains(names_at(all, waits)[i])) by {
        lemma_names_at_contains(all, placed, waits[i]);
    }
    if start_order::all_in(names_at(all, placed), names_at(all, waits)) {
        assert forall|i: int| 0 <= i < waits.len() implies placed.contains(#[trigger] waits[i]) by {
            assert(names_at(all, placed).contains(names_at(all, waits)[i]));
        }
    }
}

/// For each program, those that wait for it, as often as they list it and in the
/// order of the table.
fn dependents_of(waits: &Vec<Vec<usize>>) -> (dependents: Vec<Vec<usize>>)
    requires
        forall|p: int| 0 <= p < waits.len() ==> inside(#[trigger] waits[p]@, waits.len() as nat),
    ensures
        dependents.len() == waits.len(),
        forall|q: int|
            0 <= q < dependents.len() ==> inside(#[trigger] dependents[q]@, waits.len() as nat),
        forall|q: int, i: int, j: int|
            0 <= q < dependents.len() && 0 <= i <= j < dependents[q].len() ==> #[trigger]
            dependents[q][i] <= #[trigger] dependents[q][j],
        forall|q: usize, p: usize|
            q < waits.len() && p < waits.len() ==> #[trigger] count(dependents[q as int]@, p)
                == count(waits[p as int]@, q),
{
    let total: usize = waits.len();
    let mut dependents: Vec<Vec<usize>> = Vec::new();
    let mut i: usize = 0;
    while i < total
        invariant
            i <= total,
            dependents.len() == i,
            forall|q: int| 0 <= q < i ==> (#[trigger] dependents[q])@ == Seq::<usize>::empty(),
        decreases total - i,
    {
        dependents.push(Vec::new());
        i = i + 1;
    }
    let mut p: usize = 0;
    while p < total
        invariant
            total == waits.len(),
            p <= total,
            forall|p: int| 0 <= p < waits.len() ==> inside(#[trigger] waits[p]@, total as nat),
            dependents.len() == total,
            forall|q: int| 0 <= q < total ==> inside(#[trigger] dependents[q]@, p as nat),
            forall|q: int, i: int, j: int|
                0 <= q < total && 0 <= i <= j < dependents[q].len() ==> #[trigger] dependents[q][i]
                    <= #[trigger] dependents[q][j],
            forall|q: usize, u: usize|
                q < total && u < p ==> #[trigger] count(dependents[q as int]@, u) == count(
                    waits[u as int]@,
                    q,
                ),
        decreases total - p,
    {
        let list: &Vec<usize> = &waits[p];
        let mut k: usize = 0;
        proof {
            assert forall|q: usize| q < total implies #[trigger] count(dependents[q as int]@, p)
                == 0 by {
                lemma_count_absent(dependents[q as int]@, p);
            }
            assert(list@.take(0) =~= Seq::empty());
            assert forall|q: int| 0 <= q < total implies inside(
                #[trigger] dependents[q]@,
                (p + 1) as nat,
            ) by {
                assert(inside(dependents[q]@, p as nat));
            }
        }
        while k < list.len()
            invariant
                p < total,
                total == waits.len(),
                inside(list@, total as nat),
                list@ == waits[p as int]@,
                k <= list.len(),
                dependents.len() == total,
                forall|q: int| 0 <= q < total ==> inside(#[trigger] dependents[q]@, (p + 1) as nat),
                forall|q: int, i: int, j: int|
                    0 <= q < total && 0 <= i <= j < dependents[q].len() ==> #[trigger]
                    dependents[q][i] <= #[trigger] dependents[q][j],
                forall|q: usize, u: usize|
                    q < total && u < p ==> #[trigger] count(dependents[q as int]@, u) == count(
                        waits[u as int]@,
                        q,
                    ),
                forall|q: usize|
                    q < total ==> #[trigger] count(dependents[q as int]@, p) == count(
                        list@.take(k as int),
                        q,
                    ),
            decreases list.len() - k,
        {
            let dep: usize = list[k];
            let ghost before = dependents@;
            proof {
                assert(list@[k as int] < total);
            }
            dependents[dep].push(p);
            proof {
                let pushed = before[dep as int]@.push(p);
                assert(dependents[dep as int]@ == pushed);
                assert(pushed.drop_last() =~= before[dep as int]@);
                assert forall|q: int| 0 <= q < total implies inside(
                    #[trigger] dependents[q]@,
                    (p + 1) as nat,
                ) by {
                    assert(inside(before[q]@, (p + 1) as nat));
                }
                assert forall|q: int, i: int, j: int|
                    0 <= q < total && 0 <= i <= j < dependents[q].len() implies #[trigger]
                    dependents[q][i] <= #[trigger] dependents[q][j] by {
                    assert(inside(before[q]@, (p + 1) as nat));
                    if q == dep {
                        if j < before[q].len() {
                            assert(before[q][i] <= before[q][j]);
                        } else if i < before[q].len() {
                            assert(before[q]@[i] < p + 1);
                        }
                    } else {
                        assert(before[q][i] <= before[q][j]);
                    }
                }
                assert forall|q: usize, u: usize| q < total && u < p implies #[trigger] count(
                    dependents[q as int]@,
                    u,
                ) == count(waits[u as int]@, q) by {
                    assert(count(before[q as int]@, u) == count(waits[u as int]@, q));
                }
                assert forall|q: usize| q < total implies #[trigger] count(
                    dependents[q as int]@,
                    p,
                ) == count(list@.take(k + 1), q) by {
                    assert(count(before[q as int]@, p) == count(list@.take(k as int), q));
                    lemma_count_take(list@, q, k as int);
                }
            }
            k = k + 1;
        }
        proof {
            assert(list@.take(list.len() as int) =~= list@);
        }
        p = p + 1;
    }
    dependents
}

/// What lies outside a list does not occur in it.
proof fn lemma_count_absent(s: Seq<usize>, x: usize)
    requires
        inside(s, x as nat),
    ensures
        count(s, x) == 0,
    decreases s.len(),
{
    if s.len() > 0 {
        assert(s[s.len() - 1] < x);
        assert(inside(s.drop_last(), x as nat)) by {
            assert forall|i: int| 0 <= i < s.len() - 1 implies (#[trigger] s.drop_last()[i]) < x by {
                assert(s[i] < x);
            }
        }
        lemma_count_absent(s.drop_last(), x);
    }
}

/// A filter, one element further.
pub(crate) proof fn lemma_filter_take<A>(s: Seq<A>, keep: spec_fn(A) -> bool, p: int)
    requires
        0 <= p < s.len(),
    ensures
        s.take(p + 1).filter(keep) == (if keep(s[p]) {
            s.take(p).filter(keep).push(s[p])
        } else {
            s.take(p).filter(keep)
        }),
{
    reveal(Seq::filter);
    assert(s.take(p + 1).drop_last() =~= s.take(p));
}

/// A filter over a stretch of which nothing is kept.
proof fn lemma_filter_gap<A>(s: Seq<A>, keep: spec_fn(A) -> bool, b: int, p: int)
    requires
        0 <= b <= p <= s.len(),
        forall|x: int| b <= x < p ==> !keep(#[trigger] s[x]),
    ensures
        s.take(p).filter(keep) == s.take(b).filter(keep),
    decreases p - b,
{
    if b < p {
        lemma_filter_gap(s, keep, b, p - 1);
        lemma_filter_take(s, keep, p - 1);
    }
}

/// The table of those that wait, as the names see it.
spec fn waits_match(
    units: Map<Seq<char>, Links>,
    all: Seq<Seq<char>>,
    waits: Seq<Vec<usize>>,
) -> bool {
    &&& all.no_duplicates()
    &&& waits.len() == all.len()
    &&& forall|p: int| 0 <= p < waits.len() ==> inside(#[trigger] waits[p]@, all.len())
    &&& forall|p: int|
        0 <= p < waits.len() ==> names_at(all, #[trigger] waits[p]@) == start_order::predecessors(
            units,
            all[p],
        )
}

/// Who joins the line when the program at `i` is placed: those for whom it was the
/// last one pending.
proof fn lemma_joins(
    units: Map<Seq<char>, Links>,
    all: Seq<Seq<char>>,
    waits: Seq<Vec<usize>>,
    base: Seq<usize>,
    i: int,
    p: int,
)
    requires
        waits_match(units, all, waits),
        inside(base, all.len()),
        0 <= i < base.len(),
        names_at(all, base) == start_order::line_up(units, all, i as nat),
        0 <= p < all.len(),
    ensures
        start_order::joins(units, names_at(all, base), i + 1, all[p]) <==> pending(
            waits[p]@,
            base.take(i),
        ) > 0 && pending(waits[p]@, base.take(i + 1)) == 0,
{
    start_order::lemma_line(units, all, i as nat);
    assert(names_at(all, base).take(i) =~= names_at(all, base.take(i)));
    assert(names_at(all, base).take(i + 1) =~= names_at(all, base.take(i + 1)));
    assert(inside(base.take(i), all.len()));
    assert(inside(base.take(i + 1), all.len()));
    assert(inside(waits[p]@, all.len()));
    lemma_pending_names(all, waits[p]@, base.take(i));
    lemma_pending_names(all, waits[p]@, base.take(i + 1));
}

/// Lines up programs so that each stands behind those that it waits for. `waits`
/// lists, for each program, the places of those. Whoever waits, directly or
/// through others, for itself gets no place.
pub(crate) fn line_up(
    waits: &Vec<Vec<usize>>,
    Ghost(units): Ghost<Map<Seq<char>, Links>>,
    Ghost(all): Ghost<Seq<Seq<char>>>,
) -> (line: Vec<usize>)
    requires
        all.no_duplicates(),
        waits.len() == all.len(),
        forall|p: int| 0 <= p < waits.len() ==> inside(#[trigger] waits[p]@, all.len()),
        forall|p: int|
            0 <= p < waits.len() ==> names_at(all, #[trigger] waits[p]@)
                == start_order::predecessors(units, all[p]),
    ensures
        line@.no_duplicates(),
        inside(line@, all.len()),
        names_at(all, line@) == start_order::ordered(units, all),
{
    let total: usize = waits.len();
    let dependents: Vec<Vec<usize>> = dependents_of(waits);
    let mut in_degree: Vec<usize> = Vec::new();
    let mut line: Vec<usize> = Vec::new();
    let ghost none = Seq::<Seq<char>>::empty();
    let ghost open = |n: Seq<char>| start_order::joins(units, none, 0, n);
    let mut p: usize = 0;
    proof {
        assert(names_at(all, line@) =~= all.take(0).filter(open)) by {
            reveal(Seq::filter);
        }
    }
    while p < total
        invariant
            waits_match(units, all, waits@),
            none == Seq::<Seq<char>>::empty(),
            open == (|n: Seq<char>| start_order::joins(units, none, 0, n)),
            total == waits.len(),
            p <= total,
            in_degree.len() == p,
            forall|u: int| 0 <= u < p ==> #[trigger] in_degree[u] == waits[u].len(),
            inside(line@, all.len()),
            names_at(all, line@) == all.take(p as int).filter(open),
        decreases total - p,
    {
        proof {
            lemma_filter_take(all, open, p as int);
            lemma_names_at_push(all, line@, p);
            let names = start_order::predecessors(units, all[p as int]);
            assert(names_at(all, waits[p as int]@) == names);
            assert(names.len() == waits[p as int].len());
            assert(none.take(0) =~= none);
            if names.len() > 0 {
                assert(!none.contains(names[0]));
            }
            assert(open(all[p as int]) <==> names.len() == 0);
        }
        in_degree.push(waits[p].len());
        if waits[p].len() == 0 {
            line.push(p);
        }
        p = p + 1;
    }
    let mut i: usize = 0;
    proof {
        assert(all.take(total as int) =~= all);
        assert forall|u: int| 0 <= u < total implies #[trigger] in_degree[u] == pending(
            waits[u]@,
            line@.take(0),
        ) by {
            lemma_pending_start(waits[u]@);
            assert(line@.take(0) =~= Seq::empty());
        }
        lemma_line_len(units, all, line@, 0);
    }
    while i < line.len()
        invariant
            waits_match(units, all, waits@),
            total == waits.len(),
            in_degree.len() == total,
            dependents.len() == total,
            forall|q: int|
                0 <= q < dependents.len() ==> inside(#[trigger] dependents[q]@, total as nat),
            forall|q: int, i: int, j: int|
                0 <= q < dependents.len() && 0 <= i <= j < dependents[q].len() ==> #[trigger]
                dependents[q][i] <= #[trigger] dependents[q][j],
            forall|q: usize, p: usize|
                q < total && p < total ==> #[trigger] count(dependents[q as int]@, p) == count(
                    waits[p as int]@,
                    q,
                ),
            i <= line.len() <= total,
            inside(line@, all.len()),
            line@.no_duplicates(),
            names_at(all, line@) == start_order::line_up(units, all, i as nat),
            forall|u: int|
                0 <= u < total ==> #[trigger] in_degree[u] == pending(
                    waits[u]@,
                    line@.take(i as int),
                ),
        decreases total - i,
    {
        let unit: usize = line[i];
        let ghost base = line@;
        let ghost keep = |n: Seq<char>|
            start_order::joins(units, names_at(all, base), i + 1, n);
        let ghost mut passed: int = 0;
        let list: &Vec<usize> = &dependents[unit];
        let mut t: usize = 0;
        proof {
            assert(list@.take(0) =~= Seq::empty());
            assert(base.take(i + 1) =~= base.take(i as int).push(unit));
            assert(!base.take(i as int).contains(unit));
            assert forall|u: int| 0 <= u < total implies pending(waits[u]@, base.take(i as int))
                == #[trigger] pending(waits[u]@, base.take(i + 1)) + count(list@, u as usize) by {
                lemma_pending_step(waits[u]@, base.take(i as int), unit);
                assert(count(list@, u as usize) == count(waits[u]@, unit));
            }
            assert(names_at(all, base) + all.take(0).filter(keep) =~= names_at(all, base)) by {
                reveal(Seq::filter);
            }
        }
        while t < list.len()
            invariant
                waits_match(units, all, waits@),
                total == waits.len(),
                in_degree.len() == total,
                inside(list@, total as nat),
                forall|i: int, j: int| 0 <= i <= j < list.len() ==> list[i] <= list[j],
                t <= list.len(),
                i < base.len(),
                inside(base, all.len()),
                names_at(all, base) == start_order::line_up(units, all, i as nat),
                keep == (|n: Seq<char>|
                    start_order::joins(units, names_at(all, base), i + 1, n)),
                forall|u: int|
                    0 <= u < total ==> pending(waits[u]@, base.take(i as int))
                        == #[trigger] pending(waits[u]@, base.take(i + 1)) + count(
                        list@,
                        u as usize,
                    ),
                forall|u: int|
                    0 <= u < total ==> #[trigger] in_degree[u] + count(
                        list@.take(t as int),
                        u as usize,
                    ) == pending(waits[u]@, base.take(i as int)),
                0 <= passed <= total,
                forall|later: int| t <= later < list.len() ==> passed <= #[trigger] list[later],
                forall|u: int|
                    passed <= u < total && #[trigger] in_degree[u] == 0 ==> pending(
                        waits[u]@,
                        base.take(i as int),
                    ) == 0,
                inside(line@, all.len()),
                base.len() <= line.len(),
                line@.take(base.len() as int) == base,
                names_at(all, line@) == names_at(all, base) + all.take(passed).filter(keep),
            decreases list.len() - t,
        {
            let dependent: usize = list[t];
            proof {
                assert(list@[t as int] < total);
                assert forall|u: usize| u < total implies #[trigger] count(list@.take(t + 1), u)
                    == count(list@.take(t as int), u) + (if u == dependent {
                    1nat
                } else {
                    0nat
                }) by {
                    lemma_count_take(list@, u, t as int);
                }
                lemma_count_prefix(list@, dependent, t + 1, list.len() as int);
                assert(pending(waits[dependent as int]@, base.take(i as int)) == pending(
                    waits[dependent as int]@,
                    base.take(i + 1),
                ) + count(list@, dependent));
                assert(in_degree[dependent as int] + count(list@.take(t as int), dependent)
                    == pending(waits[dependent as int]@, base.take(i as int)));
            }
            let ghost degrees = in_degree@;
            let degree: usize = in_degree[dependent] - 1;
            in_degree.set(dependent, degree);
            proof {
                assert forall|u: int| 0 <= u < total implies #[trigger] in_degree[u] + count(
                    list@.take(t + 1),
                    u as usize,
                ) == pending(waits[u]@, base.take(i as int)) by {
                    assert(degrees[u] + count(list@.take(t as int), u as usize) == pending(
                        waits[u]@,
                        base.take(i as int),
                    ));
                }
            }
            if degree == 0 {
                proof {
                    let d = dependent as int;
                    assert(passed <= d);
                    assert(count(list@.take(t + 1), dependent) == count(list@, dependent));
                    assert forall|x: int| passed <= x < d implies !keep(#[trigger] all[x]) by {
                        lemma_joins(units, all, waits@, base, i as int, x);
                        lemma_count_sorted(list@, x as usize, t as int);
                        assert(degrees[x] + count(list@.take(t as int), x as usize) == pending(
                            waits[x]@,
                            base.take(i as int),
                        ));
                        assert(pending(waits[x]@, base.take(i as int)) == pending(
                            waits[x]@,
                            base.take(i + 1),
                        ) + count(list@, x as usize));
                    }
                    lemma_filter_gap(all, keep, passed, d);
                    lemma_joins(units, all, waits@, base, i as int, d);
                    assert(keep(all[d]));
                    lemma_filter_take(all, keep, d);
                    lemma_names_at_push(all, line@, dependent);
                    assert forall|later: int| t + 1 <= later < list.len() implies d + 1
                        <= #[trigger] list[later] by {
                        lemma_count_exhausted(list@, dependent, t + 1, later);
                        assert(list[t as int] <= list[later]);
                    }
                }
                line.push(dependent);
                proof {
                    let old_passed = passed;
                    passed = dependent + 1;
                    assert(line@.take(base.len() as int) =~= base);
                    assert((names_at(all, base) + all.take(old_passed).filter(keep)).push(
                        all[dependent as int],
                    ) =~= names_at(all, base) + all.take(passed).filter(keep));
                }
            }
            t = t + 1;
        }
        proof {
            assert(list@.take(list.len() as int) =~= list@);
            assert forall|x: int| passed <= x < total implies !keep(#[trigger] all[x]) by {
                lemma_joins(units, all, waits@, base, i as int, x);
                assert(in_degree[x] + count(list@.take(t as int), x as usize) == pending(
                    waits[x]@,
                    base.take(i as int),
                ));
                assert(pending(waits[x]@, base.take(i as int)) == pending(
                    waits[x]@,
                    base.take(i + 1),
                ) + count(list@, x as usize));
            }
            lemma_filter_gap(all, keep, passed, total as int);
            assert(all.take(total as int) =~= all);
            let before = names_at(all, base);
            let next = |n: Seq<char>| start_order::joins(units, before, (i + 1) as nat as int, n);
            assert(keep =~= next);
            assert(names_at(all, line@) == start_order::line_up(units, all, (i + 1) as nat));
            lemma_line_len(units, all, line@, (i + 1) as nat);
            assert(line@.take(i + 1) =~= base.take(i + 1));
            assert forall|u: int| 0 <= u < total implies #[trigger] in_degree[u] == pending(
                waits[u]@,
                line@.take(i + 1),
            ) by {
                assert(in_degree[u] + count(list@.take(t as int), u as usize) == pending(
                    waits[u]@,
                    base.take(i as int),
                ));
                assert(pending(waits[u]@, base.take(i as int)) == pending(
                    waits[u]@,
                    base.take(i + 1),
                ) + count(list@, u as usize));
            }
        }
        i = i + 1;
    }
    proof {
        start_order::lemma_line_stops(units, all, i as nat, all.len());
    }
    line
}

/// A line of names without duplicates is a line of places without duplicates, and
/// no longer than the table.
proof fn lemma_line_len(
    units: Map<Seq<char>, Links>,
    all: Seq<Seq<char>>,
    line: Seq<usize>,
    k: nat,
)
    requires
        all.no_duplicates(),
        inside(line, all.len()),
        names_at(all, line) == start_order::line_up(units, all, k),
    ensures
        line.no_duplicates(),
        line.len() <= all.len(),
{
    start_order::lemma_line(units, all, k);
    let names = names_at(all, line);
    all.unique_seq_to_set();
    start_order::lemma_bounded(names, all.to_set());
    assert forall|i: int, j: int|
        0 <= i < line.len() && 0 <= j < line.len() && i != j implies line[i] != line[j] by {
        assert(names[i] != names[j]);
    }
}

} // verus!
