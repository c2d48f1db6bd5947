//! Frequency tables of discrete samples, the counting step of the Shannon
//! entropy and mutual-information estimators.
use std::collections::HashMap;
use vstd::prelude::*;

verus! {

broadcast use vstd::seq_lib::group_seq_properties;

/// The number of times `x` occurs in `s`.
pub open spec fn occurrences<T>(s: Seq<T>, x: T) -> nat
    decreases s.len(),
{
    if s.len() == 0 {
        0
    } else {
        occurrences(s.drop_last(), x) + if s.last() == x {
            1nat
        } else {
            0nat
        }
    }
}

/// The sample of pairs `(x[i], y[i])`.
pub open spec fn paired(x: Seq<i32>, y: Seq<i32>) -> Seq<(i32, i32)> {
    Seq::new(x.len(), |i: int| (x[i], y[i]))
}

/// The position of the first occurrence of `x` in `s`, or -1.
pub open spec fn first_index<T>(s: Seq<T>, x: T) -> int
    decreases s.len(),
{
    if s.len() == 0 {
        -1
    } else if s.drop_last().contains(x) {
        first_index(s.drop_last(), x)
    } else if s.last() == x {
        s.len() - 1
    } else {
        -1
    }
}

/// The entries of `table` come in the order in which their values first occur in `s`.
pub open spec fn in_first_occurrence_order<T>(table: Seq<(T, usize)>, s: Seq<T>) -> bool {
    forall|i: int, j: int|
        0 <= i < j < table.len() ==> first_index(s, #[trigger] table[i].0) < first_index(
            s,
            #[trigger] table[j].0,
        )
}

proof fn lemma_first_index_push<T>(s: Seq<T>, v: T, x: T)
    ensures
        s.contains(x) ==> first_index(s.push(v), x) == first_index(s, x),
        !s.contains(x) && v == x ==> first_index(s.push(v), x) == s.len(),
{
    assert(s.push(v).drop_last() == s);
}

/// The sum of the counts of a frequency table.
pub open spec fn total_count<T>(table: Seq<(T, usize)>) -> nat
    decreases table.len(),
{
    if table.len() == 0 {
        0
    } else {
        total_count(table.drop_last()) + table.last().1 as nat
    }
}

/// `table` is the frequency table of `s`: each distinct value of `s` appears
/// exactly once, with the number of its occurrences, and nothing else appears.
pub open spec fn is_frequency_table<T>(table: Seq<(T, usize)>, s: Seq<T>) -> bool {
    &&& forall|i: int, j: int|
        0 <= i < table.len() && 0 <= j < table.len() && i != j ==> #[trigger] table[i].0
            != #[trigger] table[j].0
    &&& forall|i: int|
        0 <= i < table.len() ==> #[trigger] table[i].1 as nat == occurrences(s, table[i].0)
            && table[i].1 > 0
    &&& forall|x: T| #[trigger] s.contains(x) ==> exists|i: int| 0 <= i < table.len() && table[i].0 == x
}

proof fn lemma_total_count_update<T>(table: Seq<(T, usize)>, k: int, entry: (T, usize))
    requires
        0 <= k < table.len(),
    ensures
        total_count(table.update(k, entry)) + table[k].1 == total_count(table) + entry.1,
    decreases table.len(),
{
    let t2 = table.update(k, entry);
    if k < table.len() - 1 {
        assert(t2.drop_last() == table.drop_last().update(k, entry));
        lemma_total_count_update(table.drop_last(), k, entry);
    } else {
        assert(t2.drop_last() == table.drop_last());
    }
}

proof fn lemma_occurrences_push<T>(s: Seq<T>, v: T, x: T)
    ensures
        occurrences(s.push(v), x) == occurrences(s, x) + if v == x {
            1nat
        } else {
            0nat
        },
{
    assert(s.push(v).drop_last() == s);
}

proof fn lemma_occurrences_absent<T>(s: Seq<T>, x: T)
    requires
        !s.contains(x),
    ensures
        occurrences(s, x) == 0,
    decreases s.len(),
{
    if s.len() > 0 {
        assert(!s.drop_last().contains(x)) by {
            if s.drop_last().contains(x) {
                let k = choose|k: int| 0 <= k < s.drop_last().len() && s.drop_last()[k] == x;
                assert(s[k] == x);
            }
        }
        lemma_occurrences_absent(s.drop_last(), x);
    }
}

/// Builds the frequency table of `items`, values in order of first
/// occurrence. `keys[i]` stands for `items[i]` in a hash map from each value
/// seen so far to its entry of the table: equal keys for equal items, and
/// only for them.
fn count_by_key<T: Copy>(items: &[T], keys: &[u64]) -> (table: Vec<(T, usize)>)
    requires
        items@.len() == keys@.len(),
        forall|i: int, j: int|
            0 <= i < items@.len() && 0 <= j < items@.len() ==> (#[trigger] keys@[i]
                == #[trigger] keys@[j] <==> items@[i] == items@[j]),
    ensures
        is_frequency_table(table@, items@),
        in_first_occurrence_order(table@, items@),
        total_count(table@) == items@.len(),
{
    broadcast use vstd::std_specs::hash::group_hash_axioms;

    let mut table: Vec<(T, usize)> = Vec::new();
    let mut positions: HashMap<u64, usize> = HashMap::new();
    let n = items.len();
    for i in 0..n
        invariant
            n == items@.len(),
            n == keys@.len(),
            forall|i: int, j: int|
                0 <= i < items@.len() && 0 <= j < items@.len() ==> (#[trigger] keys@[i]
                    == #[trigger] keys@[j] <==> items@[i] == items@[j]),
            is_frequency_table(table@, items@.take(i as int)),
            in_first_occurrence_order(table@, items@.take(i as int)),
            total_count(table@) == i,
            forall|p: int| 0 <= p < i ==> positions@.contains_key(#[trigger] keys@[p]),
            forall|key: u64|
                #[trigger] positions@.contains_key(key) ==> positions@[key] < table@.len()
                    && exists|p: int|
                    0 <= p < i && #[trigger] keys@[p] == key && items@[p]
                        == table@[positions@[key] as int].0,
    {
        let v = items[i];
        let key = keys[i];
        let ghost prefix = items@.take(i as int);
        let ghost old_table = table@;
        assert(items@.take(i + 1) == prefix.push(v));
        match positions.get(&key) {
            Some(found) => {
                let k = *found;
                let (item, count) = table[k];
                proof {
                    let p = choose|p: int|
                        0 <= p < i && #[trigger] keys@[p] == key && items@[p] == table@[k as int].0;
                    assert(keys@[p] == keys@[i as int]);
                }
                assert(item == v);
                assert(count as nat == occurrences(prefix, item));
                assert(count <= i) by {
                    lemma_count_bounded(prefix, item);
                }
                table.set(k, (item, count + 1));
                proof {
                    lemma_total_count_update(old_table, k as int, (item, (count + 1) as usize));
                    assert forall|a: int, b: int| 0 <= a < b < table@.len() implies first_index(
                        prefix.push(v),
                        #[trigger] table@[a].0,
                    ) < first_index(prefix.push(v), #[trigger] table@[b].0) by {
                        assert(prefix.contains(table@[a].0)) by {
                            lemma_key_occurs(old_table, prefix, a);
                        }
                        assert(prefix.contains(table@[b].0)) by {
                            lemma_key_occurs(old_table, prefix, b);
                        }
                        lemma_first_index_push(prefix, v, table@[a].0);
                        lemma_first_index_push(prefix, v, table@[b].0);
                        assert(first_index(prefix, old_table[a].0) < first_index(
                            prefix,
                            old_table[b].0,
                        ));
                    }
                    assert forall|j: int| 0 <= j < table@.len() implies #[trigger] table@[j].1 as nat
                        == occurrences(prefix.push(v), table@[j].0) && table@[j].1 > 0 by {
                        lemma_occurrences_push(prefix, v, table@[j].0);
                    }
                    assert forall|x: T| #[trigger] prefix.push(v).contains(x) implies exists|j: int|
                        0 <= j < table@.len() && table@[j].0 == x by {
                        if x != v {
                            assert(prefix.contains(x));
                            let j = choose|j: int| 0 <= j < old_table.len() && old_table[j].0 == x;
                            assert(table@[j].0 == x);
                        } else {
                            assert(table@[k as int].0 == x);
                        }
                    }
                    assert forall|key2: u64| #[trigger] positions@.contains_key(key2) implies positions@[key2]
                        < table@.len() && exists|p: int|
                        0 <= p < i + 1 && #[trigger] keys@[p] == key2 && items@[p]
                            == table@[positions@[key2] as int].0 by {
                        let p = choose|p: int|
                            0 <= p < i && #[trigger] keys@[p] == key2 && items@[p]
                                == old_table[positions@[key2] as int].0;
                        assert(table@[positions@[key2] as int].0 == old_table[positions@[key2] as int].0);
                    }
                }
            },
            None => {
                proof {
                    assert(!prefix.contains(v)) by {
                        if prefix.contains(v) {
                            let p = choose|p: int| 0 <= p < prefix.len() && prefix[p] == v;
                            assert(items@[p] == items@[i as int]);
                            assert(keys@[p] == keys@[i as int]);
                            assert(positions@.contains_key(keys@[p]));
                        }
                    }
                    lemma_occurrences_absent(prefix, v);
                }
                let ghost old_positions = positions@;
                positions.insert(key, table.len());
                table.push((v, 1));
                proof {
                    assert(table@.drop_last() == old_table);
                    assert forall|a: int, b: int| 0 <= a < b < table@.len() implies first_index(
                        prefix.push(v),
                        #[trigger] table@[a].0,
                    ) < first_index(prefix.push(v), #[trigger] table@[b].0) by {
                        assert(prefix.contains(table@[a].0)) by {
                            lemma_key_occurs(old_table, prefix, a);
                        }
                        lemma_first_index_push(prefix, v, table@[a].0);
                        lemma_first_index_bounds(prefix, table@[a].0);
                        if b < old_table.len() {
                            assert(prefix.contains(table@[b].0)) by {
                                lemma_key_occurs(old_table, prefix, b);
                            }
                            lemma_first_index_push(prefix, v, table@[b].0);
                            assert(first_index(prefix, old_table[a].0) < first_index(
                                prefix,
                                old_table[b].0,
                            ));
                        } else {
                            lemma_first_index_push(prefix, v, v);
                        }
                    }
                    assert forall|j: int| 0 <= j < table@.len() implies #[trigger] table@[j].1 as nat
                        == occurrences(prefix.push(v), table@[j].0) && table@[j].1 > 0 by {
                        lemma_occurrences_push(prefix, v, table@[j].0);
                    }
                    assert forall|x: T| #[trigger] prefix.push(v).contains(x) implies exists|j: int|
                        0 <= j < table@.len() && table@[j].0 == x by {
                        if x != v {
                            assert(prefix.contains(x));
                            let j = choose|j: int| 0 <= j < old_table.len() && old_table[j].0 == x;
                            assert(table@[j].0 == x);
                        } else {
                            assert(table@[table@.len() - 1].0 == x);
                        }
                    }
                    assert forall|p: int| 0 <= p < i + 1 implies positions@.contains_key(
                        #[trigger] keys@[p],
                    ) by {
                        if p < i {
                            assert(old_positions.contains_key(keys@[p]));
                        }
                    }
                    assert forall|key2: u64| #[trigger] positions@.contains_key(key2) implies positions@[key2]
                        < table@.len() && exists|p: int|
                        0 <= p < i + 1 && #[trigger] keys@[p] == key2 && items@[p]
                            == table@[positions@[key2] as int].0 by {
                        if key2 == key {
                            assert(keys@[i as int] == key2);
                        } else {
                            assert(old_positions.contains_key(key2));
                            let p = choose|p: int|
                                0 <= p < i && #[trigger] keys@[p] == key2 && items@[p]
                                    == old_table[old_positions[key2] as int].0;
                            assert(table@[positions@[key2] as int].0
                                == old_table[old_positions[key2] as int].0);
                        }
                    }
                }
            },
        }
    }
    assert(items@.take(n as int) == items@);
    table
}

/// The hash-map key of a label: its value shifted to be non-negative.
pub open spec fn label_key(x: i32) -> u64 {
    (x + 2147483648) as u64
}

/// The hash-map key of a pair of labels: the two label keys side by side.
pub open spec fn pair_key(p: (i32, i32)) -> u64 {
    (label_key(p.0) * 4294967296 + label_key(p.1)) as u64
}

fn compute_label_key(x: i32) -> (key: u64)
    ensures
        key == label_key(x),
{
    (x as i64 + 2147483648i64) as u64
}

fn compute_pair_key(x: i32, y: i32) -> (key: u64)
    ensures
        key == pair_key((x, y)),
{
    compute_label_key(x) * 4294967296u64 + compute_label_key(y)
}

proof fn lemma_pair_key_injective(p: (i32, i32), q: (i32, i32))
    ensures
        pair_key(p) == pair_key(q) <==> p == q,
{
    let (hp, lp) = (label_key(p.0) as int, label_key(p.1) as int);
    let (hq, lq) = (label_key(q.0) as int, label_key(q.1) as int);
    if pair_key(p) == pair_key(q) {
        assert(hp * 4294967296 + lp == hq * 4294967296 + lq);
        if hp < hq {
            assert(hp * 4294967296 + lp < hq * 4294967296);
        } else if hq < hp {
            assert(hq * 4294967296 + lq < hp * 4294967296);
        }
    }
}

/// The frequency table of a sample of discrete labels, values in order of
/// first occurrence. The counts add up to the sample size.
pub fn value_counts(values: &[i32]) -> (table: Vec<(i32, usize)>)
    ensures
        is_frequency_table(table@, values@),
        in_first_occurrence_order(table@, values@),
        total_count(table@) == values@.len(),
{
    let n = values.len();
    let mut keys: Vec<u64> = Vec::new();
    for i in 0..n
        invariant
            n == values@.len(),
            keys@.len() == i,
            forall|k: int| 0 <= k < i ==> #[trigger] keys@[k] == label_key(values@[k]),
    {
        keys.push(compute_label_key(values[i]));
    }
    count_by_key(values, keys.as_slice())
}

/// The joint frequency table of two equally long samples of discrete labels:
/// each distinct pair `(x[i], y[i])` with its count, in order of first
/// occurrence. The counts add up to the sample size.
pub fn joint_counts(x_values: &[i32], y_values: &[i32]) -> (table: Vec<((i32, i32), usize)>)
    requires
        x_values@.len() == y_values@.len(),
    ensures
        is_frequency_table(table@, paired(x_values@, y_values@)),
        in_first_occurrence_order(table@, paired(x_values@, y_values@)),
        total_count(table@) == x_values@.len(),
{
    let n = x_values.len();
    let mut pairs: Vec<(i32, i32)> = Vec::new();
    let mut keys: Vec<u64> = Vec::new();
    for i in 0..n
        invariant
            n == x_values@.len(),
            n == y_values@.len(),
            pairs@.len() == i,
            keys@.len() == i,
            forall|k: int| 0 <= k < i ==> #[trigger] pairs@[k] == (x_values@[k], y_values@[k]),
            forall|k: int| 0 <= k < i ==> #[trigger] keys@[k] == pair_key(pairs@[k]),
    {
        let (x, y) = (x_values[i], y_values[i]);
        pairs.push((x, y));
        keys.push(compute_pair_key(x, y));
    }
    assert(pairs@ == paired(x_values@, y_values@));
    assert forall|i: int, j: int| 0 <= i < pairs@.len() && 0 <= j < pairs@.len() implies (
    #[trigger] keys@[i] == #[trigger] keys@[j] <==> pairs@[i] == pairs@[j]) by {
        lemma_pair_key_injective(pairs@[i], pairs@[j]);
    }
    count_by_key(pairs.as_slice(), keys.as_slice())
}

/// A frequency table has one entry per distinct value of the sample.
pub proof fn lemma_table_len_is_distinct_count<T>(table: Seq<(T, usize)>, s: Seq<T>)
    requires
        is_frequency_table(table, s),
    ensures
        table.len() == s.to_set().len(),
{
    let keys = table.map_values(|e: (T, usize)| e.0);
    assert(keys.no_duplicates()) by {
        assert forall|i: int, j: int| 0 <= i < keys.len() && 0 <= j < keys.len() && i != j implies keys[i]
            != keys[j] by {
            assert(table[i].0 != table[j].0);
        }
    }
    assert forall|x: T| keys.to_set().contains(x) <==> s.to_set().contains(x) by {
        if keys.contains(x) {
            let i = choose|i: int| 0 <= i < keys.len() && keys[i] == x;
            assert(table[i].1 > 0);
            if !s.contains(x) {
                lemma_occurrences_absent(s, x);
            }
        }
        if s.contains(x) {
            let i = choose|i: int| 0 <= i < table.len() && table[i].0 == x;
            assert(keys[i] == x);
        }
    }
    assert(keys.to_set() =~= s.to_set());
    keys.unique_seq_to_set();
}

/// The number of distinct joint states `(x[i], y[i])` of two equally long samples.
pub fn distinct_joint_states(x_values: &[i32], y_values: &[i32]) -> (count: usize)
    requires
        x_values@.len() == y_values@.len(),
    ensures
        count == paired(x_values@, y_values@).to_set().len(),
{
    let table = joint_counts(x_values, y_values);
    proof {
        lemma_table_len_is_distinct_count(table@, paired(x_values@, y_values@));
    }
    table.len()
}

proof fn lemma_key_occurs<T>(table: Seq<(T, usize)>, s: Seq<T>, k: int)
    requires
        is_frequency_table(table, s),
        0 <= k < table.len(),
    ensures
        s.contains(table[k].0),
{
    assert(table[k].1 > 0);
    if !s.contains(table[k].0) {
        lemma_occurrences_absent(s, table[k].0);
    }
}

proof fn lemma_first_index_bounds<T>(s: Seq<T>, x: T)
    requires
        s.contains(x),
    ensures
        0 <= first_index(s, x) < s.len(),
    decreases s.len(),
{
    if s.drop_last().contains(x) {
        lemma_first_index_bounds(s.drop_last(), x);
    } else {
        let k = choose|k: int| 0 <= k < s.len() && s[k] == x;
        if k < s.len() - 1 {
            assert(s.drop_last()[k] == x);
        }
    }
}

proof fn lemma_count_bounded<T>(s: Seq<T>, x: T)
    ensures
        occurrences(s, x) <= s.len(),
    decreases s.len(),
{
    if s.len() > 0 {
        lemma_count_bounded(s.drop_last(), x);
    }
}

} // verus!
