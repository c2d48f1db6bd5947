//! Zeroth-law bookkeeping of thermal equilibrium between entities. Entities
//! are identified by the 64-bit value of their id.
use vstd::prelude::*;

verus! {

broadcast use {
    vstd::seq_lib::seq_to_set_is_finite,
    vstd::seq_lib::group_seq_properties,
    vstd::set::group_set_axioms,
};

/// Every endpoint of a list of relationships: first components, then second ones.
pub open spec fn endpoints(rels: Seq<(u64, u64)>) -> Seq<u64> {
    Seq::new(
        2 * rels.len(),
        |k: int|
            if k < rels.len() {
                rels[k].0
            } else {
                rels[k - rels.len()].1
            },
    )
}

/// A set of entities that each relationship either enters with both ends or
/// not at all.
pub open spec fn closed_set(members: Set<u64>, rels: Seq<(u64, u64)>) -> bool {
    forall|i: int|
        0 <= i < rels.len() ==> (members.contains(#[trigger] rels[i].0) <==> members.contains(
            rels[i].1,
        ))
}

/// `y` is in the equilibrium group of `x`: every set that contains `x` and is
/// closed under the relationships contains `y`.
pub open spec fn same_group(rels: Seq<(u64, u64)>, x: u64, y: u64) -> bool {
    forall|g: Set<u64>| #[trigger] closed_set(g, rels) && g.contains(x) ==> g.contains(y)
}

/// A repetition-free sequence whose elements all occur in `u` is no longer than `u`.
proof fn lemma_distinct_within<T>(r: Seq<T>, u: Seq<T>)
    requires
        r.no_duplicates(),
        forall|i: int| 0 <= i < r.len() ==> u.contains(#[trigger] r[i]),
    ensures
        r.len() <= u.len(),
{
    assert(r.to_set().subset_of(u.to_set()));
    vstd::set_lib::lemma_len_subset(r.to_set(), u.to_set());
    r.unique_seq_to_set();
    u.lemma_cardinality_of_set();
}

/// Whether `v` holds `x`.
fn contains_entity(v: &Vec<u64>, x: u64) -> (found: bool)
    ensures
        found == v@.contains(x),
{
    let mut i: usize = 0;
    while i < v.len()
        invariant
            i <= v.len(),
            forall|j: int| 0 <= j < i ==> v@[j] != x,
        decreases v.len() - i,
    {
        if v[i] == x {
            return true;
        }
        i = i + 1;
    }
    false
}

/// All the relationships through which `x` has a partner in `members`, among
/// the first `upto` ones.
pub open spec fn partners_within(rels: Seq<(u64, u64)>, x: u64, members: Seq<u64>, upto: int) -> bool {
    forall|j: int|
        0 <= j < upto ==> (#[trigger] rels[j].0 == x ==> members.contains(rels[j].1)) && (rels[j].1
            == x ==> members.contains(rels[j].0))
}

/// The partner of `current` in the relationship `rel`, if `current` is one of its ends.
pub open spec fn partner_of(rel: (u64, u64), current: u64) -> Option<u64> {
    if rel.0 == current {
        Some(rel.1)
    } else if rel.1 == current {
        Some(rel.0)
    } else {
        None
    }
}

/// A scan of the relationships from index `i` on for the partners of
/// `current`: each partner not yet in `group` is appended to `group` and to
/// `pending`, in the order of the relationships.
pub open spec fn scan_partners(
    rels: Seq<(u64, u64)>,
    current: u64,
    i: nat,
    group: Seq<u64>,
    pending: Seq<u64>,
) -> (Seq<u64>, Seq<u64>)
    decreases rels.len() - i,
{
    if i >= rels.len() {
        (group, pending)
    } else {
        let next = match partner_of(rels[i as int], current) {
            Some(p) => if group.contains(p) {
                (group, pending)
            } else {
                (group.push(p), pending.push(p))
            },
            None => (group, pending),
        };
        scan_partners(rels, current, (i + 1) as nat, next.0, next.1)
    }
}

/// The depth-first exploration of an equilibrium group: while entities are
/// pending, the last pending one is taken off and its partners are scanned.
/// `steps` bounds the number of entities taken off.
pub open spec fn explore(rels: Seq<(u64, u64)>, group: Seq<u64>, pending: Seq<u64>, steps: nat) -> Seq<
    u64,
>
    decreases steps,
{
    if steps == 0 || pending.len() == 0 {
        group
    } else {
        let next = scan_partners(rels, pending.last(), 0, group, pending.drop_last());
        explore(rels, next.0, next.1, (steps - 1) as nat)
    }
}

/// The group of `entity` in the order in which `find_equilibrium_group` finds
/// it: depth-first from `entity`, with a bound on the steps that the
/// exploration never reaches.
pub open spec fn group_in_search_order(rels: Seq<(u64, u64)>, entity: u64) -> Seq<u64> {
    explore(rels, seq![entity], seq![entity], (endpoints(rels).len() + 2) as nat)
}

/// Find all entities in the same equilibrium group as `entity`, `entity` first
/// and the others in the depth-first order of `group_in_search_order`.
pub fn find_equilibrium_group(entity: u64, equilibrium_relationships: &[(u64, u64)]) -> (group: Vec<u64>)
    ensures
        group@.len() >= 1,
        group@[0] == entity,
        group@.no_duplicates(),
        forall|y: u64| group@.contains(y) <==> same_group(equilibrium_relationships@, entity, y),
        group@ == group_in_search_order(equilibrium_relationships@, entity),
{
    let ghost rels = equilibrium_relationships@;
    let ghost universe = endpoints(rels).push(entity);
    let mut group: Vec<u64> = Vec::new();
    group.push(entity);
    let mut to_process: Vec<u64> = Vec::new();
    to_process.push(entity);
    assert(universe[universe.len() - 1] == entity);
    let ghost mut steps: nat = (endpoints(rels).len() + 2) as nat;
    assert(group@ == seq![entity] && to_process@ == seq![entity]);
    loop
        invariant_except_break
            explore(rels, group@, to_process@, steps) == group_in_search_order(rels, entity),
            steps > to_process@.len() + universe.len() - group@.len(),
            rels == equilibrium_relationships@,
            universe == endpoints(rels).push(entity),
            group@.len() >= 1,
            group@[0] == entity,
            group@.no_duplicates(),
            group@.len() <= universe.len(),
            forall|i: int| 0 <= i < group@.len() ==> universe.contains(#[trigger] group@[i]),
            forall|i: int| 0 <= i < to_process@.len() ==> group@.contains(#[trigger] to_process@[i]),
            forall|x: u64|
                #[trigger] group@.contains(x) && !to_process@.contains(x) ==> partners_within(
                    rels,
                    x,
                    group@,
                    rels.len() as int,
                ),
            forall|g: Set<u64>|
                #[trigger] closed_set(g, rels) && g.contains(entity) ==> forall|i: int|
                    0 <= i < group@.len() ==> g.contains(#[trigger] group@[i]),
        ensures
            group@.len() >= 1,
            group@[0] == entity,
            group@.no_duplicates(),
            closed_set(group@.to_set(), rels),
            group@ == group_in_search_order(rels, entity),
            forall|g: Set<u64>|
                #[trigger] closed_set(g, rels) && g.contains(entity) ==> forall|i: int|
                    0 <= i < group@.len() ==> g.contains(#[trigger] group@[i]),
        decreases 2 * (universe.len() - group@.len()) + to_process@.len(),
    {
        proof {
            lemma_distinct_within(group@, universe);
        }
        let ghost before = to_process@;
        let ghost group_len0 = group@.len();
        match to_process.pop() {
            None => {
                assert forall|i: int| 0 <= i < rels.len() implies (group@.to_set().contains(
                    #[trigger] rels[i].0,
                ) <==> group@.to_set().contains(rels[i].1)) by {
                    if group@.contains(rels[i].0) {
                        assert(partners_within(rels, rels[i].0, group@, rels.len() as int));
                    }
                    if group@.contains(rels[i].1) {
                        assert(partners_within(rels, rels[i].1, group@, rels.len() as int));
                    }
                }
                break;
            },
            Some(current) => {
                let ghost popped = to_process@;
                assert(before == popped.push(current));
                assert(group@.contains(before[before.len() - 1]));
                let ghost cur_idx = choose|k: int| 0 <= k < group@.len() && group@[k] == current;
                let ghost group0 = group@;
                assert(before.last() == current);
                assert(before.drop_last() == popped);
                assert forall|x: u64| #[trigger]
                    group@.contains(x) && !to_process@.contains(x) && x != current implies partners_within(
                    rels,
                    x,
                    group@,
                    rels.len() as int,
                ) by {
                    assert(!before.contains(x));
                }
                let n = equilibrium_relationships.len();
                for i in 0..n
                    invariant
                        n == rels.len(),
                        rels == equilibrium_relationships@,
                        universe == endpoints(rels).push(entity),
                        group@.len() >= 1,
                        group@[0] == entity,
                        group@.no_duplicates(),
                        group@.len() <= universe.len(),
                        0 <= cur_idx < group@.len(),
                        group@[cur_idx] == current,
                        forall|i: int| 0 <= i < group@.len() ==> universe.contains(#[trigger] group@[i]),
                        forall|i: int|
                            0 <= i < to_process@.len() ==> group@.contains(#[trigger] to_process@[i]),
                        forall|x: u64|
                            #[trigger] group@.contains(x) && !to_process@.contains(x) && x != current
                                ==> partners_within(rels, x, group@, rels.len() as int),
                        partners_within(rels, current, group@, i as int),
                        forall|g: Set<u64>|
                            #[trigger] closed_set(g, rels) && g.contains(entity) ==> forall|i: int|
                                0 <= i < group@.len() ==> g.contains(#[trigger] group@[i]),
                        2 * (universe.len() - group@.len()) + to_process@.len() <= 2 * (
                        universe.len() - group_len0) + popped.len(),
                        to_process@.len() + group_len0 == popped.len() + group@.len(),
                        scan_partners(rels, current, i as nat, group@, to_process@) == scan_partners(
                            rels,
                            current,
                            0,
                            group0,
                            popped,
                        ),
                {
                    let (a, b) = equilibrium_relationships[i];
                    assert(universe[i as int] == a);
                    assert(universe[n + i] == b);
                    let connected = if a == current {
                        Some(b)
                    } else if b == current {
                        Some(a)
                    } else {
                        None
                    };
                    assert(connected == partner_of(rels[i as int], current));
                    if let Some(partner) = connected {
                        if !contains_entity(&group, partner) {
                            proof {
                                lemma_distinct_within(group@.push(partner), universe);
                            }
                            group.push(partner);
                            to_process.push(partner);
                        }
                    }
                }
                proof {
                    steps = (steps - 1) as nat;
                }
            },
        }
    }
    proof {
        assert forall|y: u64| group@.contains(y) <==> same_group(rels, entity, y) by {
            if group@.contains(y) {
                assert forall|g: Set<u64>| #[trigger] closed_set(g, rels) && g.contains(entity) implies g.contains(y) by {
                    let k = choose|k: int| 0 <= k < group@.len() && group@[k] == y;
                }
            }
            if same_group(rels, entity, y) {
                assert(closed_set(group@.to_set(), rels));
                assert(group@.to_set().contains(entity)) by {
                    assert(group@[0] == entity);
                }
            }
        }
    }
    group
}

/// A relationship written with the smaller id first.
pub open spec fn ordered_pair(a: u64, b: u64) -> (u64, u64) {
    if a < b {
        (a, b)
    } else {
        (b, a)
    }
}

/// A list of relationships in which any two relationships `(a, c)`, `(b, c)`
/// with `a != b` come with the relationship between `a` and `b`.
pub open spec fn transitively_closed(rels: Seq<(u64, u64)>) -> bool {
    forall|i: int, j: int|
        0 <= i < rels.len() && 0 <= j < rels.len() && #[trigger] rels[i].1 == #[trigger] rels[j].1
            && rels[i].0 != rels[j].0 ==> rels.contains(ordered_pair(rels[i].0, rels[j].0))
}

/// A set of relationships closed under the same rule.
pub open spec fn closed_relation(g: Set<(u64, u64)>) -> bool {
    forall|p: (u64, u64), q: (u64, u64)|
        #[trigger] g.contains(p) && #[trigger] g.contains(q) && p.1 == q.1 && p.0 != q.0 ==> g.contains(
            ordered_pair(p.0, q.0),
        )
}

/// `g` holds every relationship of `rels`.
pub open spec fn holds_all(g: Set<(u64, u64)>, rels: Seq<(u64, u64)>) -> bool {
    forall|i: int| 0 <= i < rels.len() ==> g.contains(#[trigger] rels[i])
}

/// All pairs of values of `vals`.
pub open spec fn pair_universe(vals: Seq<u64>) -> Seq<(u64, u64)> {
    Seq::new(
        (vals.len() * vals.len()) as nat,
        |k: int| (vals[k / (vals.len() as int)], vals[k % (vals.len() as int)]),
    )
}

proof fn lemma_pair_in_universe(vals: Seq<u64>, x: u64, y: u64)
    requires
        vals.contains(x),
        vals.contains(y),
    ensures
        pair_universe(vals).contains((x, y)),
{
    let n = vals.len() as int;
    let i = choose|i: int| 0 <= i < n && vals[i] == x;
    let j = choose|j: int| 0 <= j < n && vals[j] == y;
    let k = i * n + j;
    assert(0 <= k < n * n) by (nonlinear_arith)
        requires
            0 <= i < n,
            0 <= j < n,
            k == i * n + j,
    ;
    vstd::arithmetic::div_mod::lemma_fundamental_div_mod_converse(k, n, i, j);
    assert(pair_universe(vals)[k] == (x, y));
}

proof fn lemma_bounded_by_universe(r: Seq<(u64, u64)>, vals: Seq<u64>)
    requires
        forall|i: int|
            0 <= i < r.len() ==> vals.contains((#[trigger] r[i]).0) && vals.contains(r[i].1),
    ensures
        r.to_set().len() <= pair_universe(vals).len(),
{
    let universe = pair_universe(vals);
    assert forall|x: (u64, u64)| r.to_set().contains(x) implies universe.to_set().contains(x) by {
        let k = choose|k: int| 0 <= k < r.len() && r[k] == x;
        lemma_pair_in_universe(vals, r[k].0, r[k].1);
    }
    vstd::set_lib::lemma_len_subset(r.to_set(), universe.to_set());
    universe.lemma_cardinality_of_set();
}

/// Whether `v` holds the relationship `p`.
fn contains_relationship(v: &Vec<(u64, u64)>, p: (u64, u64)) -> (found: bool)
    ensures
        found == v@.contains(p),
{
    let mut i: usize = 0;
    while i < v.len()
        invariant
            i <= v.len(),
            forall|j: int| 0 <= j < i ==> v@[j] != p,
        decreases v.len() - i,
    {
        let (a, b) = v[i];
        if a == p.0 && b == p.1 {
            assert(v@[i as int] == p);
            return true;
        }
        i = i + 1;
    }
    false
}

/// The relationships `cur` after looking at the pair of relationships `i`,
/// `j` of `snap`: if they share their second end and differ in their first,
/// the relationship between the first ends is appended unless `cur` has it.
pub open spec fn derive_step(snap: Seq<(u64, u64)>, cur: Seq<(u64, u64)>, i: int, j: int) -> Seq<
    (u64, u64),
> {
    let p = ordered_pair(snap[i].0, snap[j].0);
    if snap[i].1 == snap[j].1 && snap[i].0 != snap[j].0 && !cur.contains(p) {
        cur.push(p)
    } else {
        cur
    }
}

/// `derive_step` on the pairs `(i, j)`, `(i, j + 1)`, ... of `snap`.
pub open spec fn pass_row(snap: Seq<(u64, u64)>, cur: Seq<(u64, u64)>, i: int, j: int) -> Seq<
    (u64, u64),
>
    decreases snap.len() - j,
{
    if j >= snap.len() {
        cur
    } else {
        pass_row(snap, derive_step(snap, cur, i, j), i, j + 1)
    }
}

/// `pass_row` from row `i` on: one round over all pairs of `snap`, in order.
pub open spec fn pass_rows(snap: Seq<(u64, u64)>, cur: Seq<(u64, u64)>, i: int) -> Seq<(u64, u64)>
    decreases snap.len() - i,
{
    if i >= snap.len() {
        cur
    } else {
        pass_rows(snap, pass_row(snap, cur, i, 0), i + 1)
    }
}

/// Rounds over the relationships until one adds nothing; `rounds` bounds them.
pub open spec fn close_rounds(rels: Seq<(u64, u64)>, rounds: nat) -> Seq<(u64, u64)>
    decreases rounds,
{
    if rounds == 0 {
        rels
    } else {
        let next = pass_rows(rels, rels, 0);
        if next.len() == rels.len() {
            next
        } else {
            close_rounds(next, (rounds - 1) as nat)
        }
    }
}

/// The relationships in the order in which `apply_equilibrium_transitivity`
/// leaves them, with a bound on the rounds that is never reached.
pub open spec fn closure_in_derivation_order(rels: Seq<(u64, u64)>) -> Seq<(u64, u64)> {
    close_rounds(rels, (endpoints(rels).len() * endpoints(rels).len() + 1) as nat)
}

/// Zeroth law: applies transitivity to thermal equilibrium relationships until
/// no new relationship appears. If A is in equilibrium with C and B is in
/// equilibrium with C (as `(A, C)` and `(B, C)`), then `(min(A, B), max(A, B))`
/// is added. The existing relationships stay in place, in their order; the new
/// ones are appended, each once, and only those the rule derives are added,
/// round by round in the order of `closure_in_derivation_order`.
pub fn apply_equilibrium_transitivity(equilibrium_relationships: &mut Vec<(u64, u64)>)
    ensures
        final(equilibrium_relationships)@.len() >= old(equilibrium_relationships)@.len(),
        final(equilibrium_relationships)@.take(old(equilibrium_relationships)@.len() as int)
            == old(equilibrium_relationships)@,
        forall|i: int, j: int|
            old(equilibrium_relationships)@.len() <= i < final(equilibrium_relationships)@.len()
                && 0 <= j < i ==> final(equilibrium_relationships)@[j]
                != final(equilibrium_relationships)@[i],
        transitively_closed(final(equilibrium_relationships)@),
        forall|g: Set<(u64, u64)>|
            #[trigger] closed_relation(g) && holds_all(g, old(equilibrium_relationships)@)
                ==> holds_all(g, final(equilibrium_relationships)@),
        final(equilibrium_relationships)@ == closure_in_derivation_order(
            old(equilibrium_relationships)@,
        ),
{
    let ghost start = equilibrium_relationships@;
    let ghost vals = endpoints(start);
    let ghost universe = pair_universe(vals);
    let mut changed = true;
    let ghost mut rounds: nat = (vals.len() * vals.len() + 1) as nat;
    proof {
        assert forall|i: int| 0 <= i < start.len() implies vals.contains((#[trigger] start[i]).0)
            && vals.contains(start[i].1) by {
            assert(vals[i] == start[i].0);
            assert(vals[start.len() + i] == start[i].1);
        }
        lemma_bounded_by_universe(start, vals);
    }
    while changed
        invariant
            universe == pair_universe(vals),
            universe.len() == vals.len() * vals.len(),
            changed ==> close_rounds(equilibrium_relationships@, rounds)
                == closure_in_derivation_order(start),
            !changed ==> equilibrium_relationships@ == closure_in_derivation_order(start),
            changed ==> rounds > universe.len() - equilibrium_relationships@.to_set().len(),
            equilibrium_relationships@.len() >= start.len(),
            equilibrium_relationships@.take(start.len() as int) == start,
            forall|i: int, j: int|
                start.len() <= i < equilibrium_relationships@.len() && 0 <= j < i
                    ==> equilibrium_relationships@[j] != equilibrium_relationships@[i],
            forall|i: int|
                0 <= i < equilibrium_relationships@.len() ==> vals.contains(
                    (#[trigger] equilibrium_relationships@[i]).0,
                ) && vals.contains(equilibrium_relationships@[i].1),
            equilibrium_relationships@.to_set().len() <= universe.len(),
            !changed ==> transitively_closed(equilibrium_relationships@),
            forall|g: Set<(u64, u64)>|
                #[trigger] closed_relation(g) && holds_all(g, start) ==> holds_all(
                    g,
                    equilibrium_relationships@,
                ),
        decreases 2 * (universe.len() - equilibrium_relationships@.to_set().len()) + if changed {
            1int
        } else {
            0int
        },
    {
        changed = false;
        let ghost card0 = equilibrium_relationships@.to_set().len();
        let ghost snapshot = equilibrium_relationships@;
        let n = equilibrium_relationships.len();
        for i in 0..n
            invariant
                n == snapshot.len(),
                changed == (equilibrium_relationships@.len() > n),
                pass_rows(snapshot, equilibrium_relationships@, i as int) == pass_rows(
                    snapshot,
                    snapshot,
                    0,
                ),
                universe == pair_universe(vals),
                card0 == snapshot.to_set().len(),
                equilibrium_relationships@.len() >= n,
                equilibrium_relationships@.take(n as int) == snapshot,
                snapshot.len() >= start.len(),
                snapshot.take(start.len() as int) == start,
                forall|i: int, j: int|
                    start.len() <= i < equilibrium_relationships@.len() && 0 <= j < i
                        ==> equilibrium_relationships@[j] != equilibrium_relationships@[i],
                forall|i: int|
                    0 <= i < equilibrium_relationships@.len() ==> vals.contains(
                        (#[trigger] equilibrium_relationships@[i]).0,
                    ) && vals.contains(equilibrium_relationships@[i].1),
                equilibrium_relationships@.to_set().len() <= universe.len(),
                changed ==> equilibrium_relationships@.to_set().len() > card0,
                !changed ==> equilibrium_relationships@ == snapshot,
                forall|i2: int, j2: int|
                    0 <= i2 < i && 0 <= j2 < n && #[trigger] snapshot[i2].1 == #[trigger] snapshot[j2].1
                        && snapshot[i2].0 != snapshot[j2].0 ==> equilibrium_relationships@.contains(
                        ordered_pair(snapshot[i2].0, snapshot[j2].0),
                    ),
                forall|g: Set<(u64, u64)>|
                    #[trigger] closed_relation(g) && holds_all(g, start) ==> holds_all(
                        g,
                        equilibrium_relationships@,
                    ),
        {
            let (a, c) = equilibrium_relationships[i];
            let ghost row0 = equilibrium_relationships@;
            for j in 0..n
                invariant
                    n == snapshot.len(),
                    changed == (equilibrium_relationships@.len() > n),
                    pass_row(snapshot, equilibrium_relationships@, i as int, j as int) == pass_row(
                        snapshot,
                        row0,
                        i as int,
                        0,
                    ),
                    pass_rows(snapshot, row0, i as int) == pass_rows(snapshot, snapshot, 0),
                    universe == pair_universe(vals),
                    card0 == snapshot.to_set().len(),
                    0 <= i < n,
                    snapshot[i as int] == (a, c),
                    equilibrium_relationships@.len() >= n,
                    equilibrium_relationships@.take(n as int) == snapshot,
                    snapshot.len() >= start.len(),
                    snapshot.take(start.len() as int) == start,
                    forall|i: int, j: int|
                        start.len() <= i < equilibrium_relationships@.len() && 0 <= j < i
                            ==> equilibrium_relationships@[j] != equilibrium_relationships@[i],
                    forall|i: int|
                        0 <= i < equilibrium_relationships@.len() ==> vals.contains(
                            (#[trigger] equilibrium_relationships@[i]).0,
                        ) && vals.contains(equilibrium_relationships@[i].1),
                    equilibrium_relationships@.to_set().len() <= universe.len(),
                    changed ==> equilibrium_relationships@.to_set().len() > card0,
                    !changed ==> equilibrium_relationships@ == snapshot,
                    forall|i2: int, j2: int|
                        0 <= i2 < i && 0 <= j2 < n && #[trigger] snapshot[i2].1
                            == #[trigger] snapshot[j2].1 && snapshot[i2].0 != snapshot[j2].0
                            ==> equilibrium_relationships@.contains(
                            ordered_pair(snapshot[i2].0, snapshot[j2].0),
                        ),
                    forall|j2: int|
                        0 <= j2 < j && #[trigger] snapshot[j2].1 == c && snapshot[j2].0 != a
                            ==> equilibrium_relationships@.contains(ordered_pair(a, snapshot[j2].0)),
                    forall|g: Set<(u64, u64)>|
                        #[trigger] closed_relation(g) && holds_all(g, start) ==> holds_all(
                            g,
                            equilibrium_relationships@,
                        ),
            {
                let (b, c2) = equilibrium_relationships[j];
                assert(equilibrium_relationships@[i as int] == snapshot[i as int]);
                assert(equilibrium_relationships@[j as int] == snapshot[j as int]);
                let ghost cur0 = equilibrium_relationships@;
                if c == c2 && a != b {
                    let new_relationship = if a < b {
                        (a, b)
                    } else {
                        (b, a)
                    };
                    if !contains_relationship(equilibrium_relationships, new_relationship) {
                        let ghost before = equilibrium_relationships@;
                        let ghost grown = before.push(new_relationship);
                        proof {
                            lemma_pair_in_universe(vals, new_relationship.0, new_relationship.1);
                            assert forall|k: int| 0 <= k < grown.len() implies vals.contains(
                                (#[trigger] grown[k]).0,
                            ) && vals.contains(grown[k].1) by {
                                if k < before.len() {
                                    assert(grown[k] == before[k]);
                                } else {
                                    assert(grown[k] == new_relationship);
                                }
                            }
                            lemma_bounded_by_universe(grown, vals);
                            assert(!before.to_set().contains(new_relationship));
                            assert(grown.to_set() =~= before.to_set().insert(new_relationship));
                            assert(grown.to_set().len() == before.to_set().len() + 1);
                            assert forall|g: Set<(u64, u64)>|
                                #[trigger] closed_relation(g) && holds_all(g, start) implies holds_all(
                                g,
                                grown,
                            ) by {
                                assert(g.contains(before[i as int]));
                                assert(g.contains(before[j as int]));
                            }
                        }
                        equilibrium_relationships.push(new_relationship);
                        assert(equilibrium_relationships@ == grown);
                        assert(equilibrium_relationships@.to_set().len() == before.to_set().len() + 1);
                        changed = true;
                    }
                }
                assert(equilibrium_relationships@ == derive_step(snapshot, cur0, i as int, j as int));
            }
        }
        proof {
            assert(pass_rows(snapshot, equilibrium_relationships@, n as int) == equilibrium_relationships@);
            assert(rounds >= 1);
            if changed {
                rounds = (rounds - 1) as nat;
            }
            if !changed {
                assert forall|i: int, j: int|
                    0 <= i < equilibrium_relationships@.len() && 0 <= j
                        < equilibrium_relationships@.len() && #[trigger] equilibrium_relationships@[i].1
                        == #[trigger] equilibrium_relationships@[j].1
                        && equilibrium_relationships@[i].0 != equilibrium_relationships@[j].0
                        implies equilibrium_relationships@.contains(
                    ordered_pair(equilibrium_relationships@[i].0, equilibrium_relationships@[j].0),
                ) by {
                    assert(snapshot[i].1 == snapshot[j].1);
                }
            }
        }
    }
}

/// Closing the relationships under transitivity does not change any
/// equilibrium group: for a list `closed` that extends `rels` and holds only
/// relationships derivable from `rels` (as `apply_equilibrium_transitivity`
/// guarantees), two entities share a group under `closed` exactly when they
/// share one under `rels`.
pub proof fn lemma_transitivity_preserves_groups(
    rels: Seq<(u64, u64)>,
    closed: Seq<(u64, u64)>,
    x: u64,
    y: u64,
)
    requires
        closed.len() >= rels.len(),
        closed.take(rels.len() as int) == rels,
        forall|g: Set<(u64, u64)>| #[trigger] closed_relation(g) && holds_all(g, rels) ==> holds_all(g, closed),
    ensures
        same_group(rels, x, y) == same_group(closed, x, y),
{
    let agree = Set::new(
        |p: (u64, u64)|
            forall|g: Set<u64>| #[trigger] closed_set(g, rels) ==> (g.contains(p.0) <==> g.contains(p.1)),
    );
    assert forall|p: (u64, u64), q: (u64, u64)|
        #[trigger] agree.contains(p) && #[trigger] agree.contains(q) && p.1 == q.1 && p.0 != q.0 implies agree.contains(
        ordered_pair(p.0, q.0),
    ) by {
        assert forall|g: Set<u64>| #[trigger] closed_set(g, rels) implies (g.contains(
            ordered_pair(p.0, q.0).0,
        ) <==> g.contains(ordered_pair(p.0, q.0).1)) by {
            assert(g.contains(p.0) <==> g.contains(p.1));
            assert(g.contains(q.0) <==> g.contains(q.1));
        }
    }
    assert(closed_relation(agree));
    assert forall|i: int| 0 <= i < rels.len() implies agree.contains(#[trigger] rels[i]) by {
        assert forall|g: Set<u64>| #[trigger] closed_set(g, rels) implies (g.contains(rels[i].0)
            <==> g.contains(rels[i].1)) by {}
    }
    assert(holds_all(agree, rels));
    assert(holds_all(agree, closed));
    assert forall|g: Set<u64>| closed_set(g, rels) implies #[trigger] closed_set(g, closed) by {
        assert forall|i: int| 0 <= i < closed.len() implies (g.contains(#[trigger] closed[i].0)
            <==> g.contains(closed[i].1)) by {
            assert(agree.contains(closed[i]));
        }
    }
    assert forall|g: Set<u64>| closed_set(g, closed) implies #[trigger] closed_set(g, rels) by {
        assert forall|i: int| 0 <= i < rels.len() implies (g.contains(#[trigger] rels[i].0)
            <==> g.contains(rels[i].1)) by {
            assert(rels[i] == closed[i]);
        }
    }
    if same_group(rels, x, y) {
        assert forall|g: Set<u64>| #[trigger] closed_set(g, closed) && g.contains(x) implies g.contains(y) by {
            assert(closed_set(g, rels));
        }
    }
    if same_group(closed, x, y) {
        assert forall|g: Set<u64>| #[trigger] closed_set(g, rels) && g.contains(x) implies g.contains(y) by {
            assert(closed_set(g, closed));
        }
    }
}

/// Every entity is in its own equilibrium group.
pub proof fn lemma_same_group_reflexive(rels: Seq<(u64, u64)>, x: u64)
    ensures
        same_group(rels, x, x),
{
}

/// Equilibrium grouping is symmetric: if `y` is in the group of `x`, then `x`
/// is in the group of `y`.
pub proof fn lemma_same_group_symmetric(rels: Seq<(u64, u64)>, x: u64, y: u64)
    requires
        same_group(rels, x, y),
    ensures
        same_group(rels, y, x),
{
    assert forall|g: Set<u64>| #[trigger] closed_set(g, rels) && g.contains(y) implies g.contains(x) by {
        if !g.contains(x) {
            let h = g.complement();
            assert(closed_set(h, rels));
            assert(h.contains(x));
            assert(h.contains(y));
        }
    }
}

/// Zeroth law: if A shares a group with C and C shares a group with B, then A
/// shares a group with B.
pub proof fn lemma_same_group_transitive(rels: Seq<(u64, u64)>, a: u64, b: u64, c: u64)
    requires
        same_group(rels, a, c),
        same_group(rels, c, b),
    ensures
        same_group(rels, a, b),
{
}

/// Two related entities share a group.
pub proof fn lemma_related_share_group(rels: Seq<(u64, u64)>, i: int)
    requires
        0 <= i < rels.len(),
    ensures
        same_group(rels, rels[i].0, rels[i].1),
{
}

} // verus!
