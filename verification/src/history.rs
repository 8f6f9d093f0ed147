//! Grouping a generation's job results by individual.

use std::collections::BTreeMap;
use vstd::std_specs::iter::IteratorSpec;

use vstd::prelude::*;

verus! {

/// Which individual a result belongs to, and on which course it was earned.
#[derive(Clone, Copy, Debug, PartialEq, Eq, Structural)]
pub struct ResultKey {
    pub individual_id: u64,
    pub course_index: usize,
}

/// The results of one individual, as positions in the list of results.
pub struct ResultGroup {
    pub individual_id: u64,
    pub members: Vec<usize>,
}

/// Result `a` comes before result `b`: by course index, and in their
/// input order when the course index is the same.
pub open spec fn ordered_before(keys: Seq<ResultKey>, a: int, b: int) -> bool {
    ||| keys[a].course_index < keys[b].course_index
    ||| keys[a].course_index == keys[b].course_index && a < b
}

/// `groups` groups the first `n` results: one group per individual, in
/// increasing order of id; each group lists exactly the results of its
/// individual, ordered by course index and, for equal course indices, in
/// their input order.
pub open spec fn is_grouping(keys: Seq<ResultKey>, n: int, groups: Seq<ResultGroup>) -> bool {
    &&& forall|g1: int, g2: int|
        0 <= g1 < g2 < groups.len() ==> #[trigger] groups[g1].individual_id
            < #[trigger] groups[g2].individual_id
    &&& forall|g: int| 0 <= g < groups.len() ==> (#[trigger] groups[g]).members@.len() >= 1
    &&& forall|g: int, m: int|
        0 <= g < groups.len() && 0 <= m < groups[g].members@.len() ==> {
            &&& #[trigger] groups[g].members@[m] < n
            &&& keys[groups[g].members@[m] as int].individual_id == groups[g].individual_id
        }
    &&& forall|g: int, m1: int, m2: int|
        0 <= g < groups.len() && 0 <= m1 < m2 < groups[g].members@.len() ==> ordered_before(
            keys,
            #[trigger] groups[g].members@[m1] as int,
            #[trigger] groups[g].members@[m2] as int,
        )
    &&& forall|i: int| 0 <= i < n ==> #[trigger] is_member(groups, i)
}

/// Result `i` is listed in some group.
pub open spec fn is_member(groups: Seq<ResultGroup>, i: int) -> bool {
    exists|g: int, m: int|
        0 <= g < groups.len() && 0 <= m < groups[g].members@.len() && #[trigger] groups[g].members@[m]
            == i
}

/// Adds result `i` to a group whose members all come before it in the list.
fn insert_member(keys: &Vec<ResultKey>, members: &mut Vec<usize>, i: usize)
    requires
        i < keys@.len(),
        forall|m: int| 0 <= m < old(members)@.len() ==> #[trigger] old(members)@[m] < i,
        forall|m1: int, m2: int|
            0 <= m1 < m2 < old(members)@.len() ==> ordered_before(
                keys@,
                #[trigger] old(members)@[m1] as int,
                #[trigger] old(members)@[m2] as int,
            ),
    ensures
        exists|p: int| 0 <= p <= old(members)@.len() && final(members)@ == old(members)@.insert(p, i),
        forall|m1: int, m2: int|
            0 <= m1 < m2 < final(members)@.len() ==> ordered_before(
                keys@,
                #[trigger] final(members)@[m1] as int,
                #[trigger] final(members)@[m2] as int,
            ),
{
    let course = keys[i].course_index;
    let mut p: usize = 0;
    while p < members.len() && keys[members[p]].course_index <= course
        invariant
            i < keys@.len(),
            p <= members@.len(),
            members@ == old(members)@,
            forall|m: int| 0 <= m < members@.len() ==> #[trigger] members@[m] < i,
            forall|m: int| 0 <= m < p ==> keys@[#[trigger] members@[m] as int].course_index <= course,
        decreases members@.len() - p,
    {
        p = p + 1;
    }
    let ghost before = members@;
    members.insert(p, i);
    proof {
        let after = members@;
        assert forall|m1: int, m2: int| 0 <= m1 < m2 < after.len() implies ordered_before(
            keys@,
            #[trigger] after[m1] as int,
            #[trigger] after[m2] as int,
        ) by {
            if m2 < p {
                assert(after[m1] == before[m1] && after[m2] == before[m2]);
            } else if m2 == p {
                assert(after[m1] == before[m1]);
            } else if m1 < p {
                assert(after[m1] == before[m1] && after[m2] == before[m2 - 1]);
                assert(ordered_before(keys@, before[p as int] as int, before[m2 - 1] as int) || m2 - 1 == p);
            } else if m1 == p {
                assert(after[m2] == before[m2 - 1]);
                assert(keys@[before[p as int] as int].course_index > course);
                assert(ordered_before(keys@, before[p as int] as int, before[m2 - 1] as int) || m2 - 1 == p);
            } else {
                assert(after[m1] == before[m1 - 1] && after[m2] == before[m2 - 1]);
            }
        }
    }
}

/// Result `j` is listed in `members`.
pub open spec fn lists(members: Seq<usize>, j: int) -> bool {
    exists|k: int| 0 <= k < members.len() && members[k] == j
}

/// `m` groups the first `n` results, keyed by individual id: each list holds
/// exactly that individual's results among them, ordered by course index
/// and, for equal course indices, in input order.
pub open spec fn is_keyed_grouping(keys: Seq<ResultKey>, n: int, m: Map<u64, Vec<usize>>) -> bool {
    &&& forall|id: u64|
        #[trigger] m.contains_key(id) ==> {
            &&& m[id]@.len() >= 1
            &&& forall|k: int|
                0 <= k < m[id]@.len() ==> #[trigger] m[id]@[k] < n && keys[m[id]@[k] as int].individual_id
                    == id
            &&& forall|k1: int, k2: int|
                0 <= k1 < k2 < m[id]@.len() ==> ordered_before(
                    keys,
                    #[trigger] m[id]@[k1] as int,
                    #[trigger] m[id]@[k2] as int,
                )
        }
    &&& forall|j: int|
        0 <= j < n ==> m.contains_key((#[trigger] keys[j]).individual_id) && lists(
            m[keys[j].individual_id]@,
            j,
        )
}

/// A copy of `members`.
fn copy_members(members: &Vec<usize>) -> (copy: Vec<usize>)
    ensures
        copy@ == members@,
{
    let mut copy: Vec<usize> = Vec::with_capacity(members.len());
    let mut k: usize = 0;
    while k < members.len()
        invariant
            k <= members@.len(),
            copy@ == members@.take(k as int),
        decreases members@.len() - k,
    {
        copy.push(members[k]);
        k = k + 1;
    }
    assert(members@.take(k as int) == members@);
    copy
}

/// Groups results by individual: one group per distinct id, in increasing
/// order of id, each listing the positions of that individual's results in
/// order of course index (ties keep the order of `keys`).
pub fn group_by_individual(keys: &Vec<ResultKey>) -> (groups: Vec<ResultGroup>)
    ensures
        is_grouping(keys@, keys@.len() as int, groups@),
{
    proof {
        self::lemma_u64_keys_ordered();
    }
    let mut grouped: BTreeMap<u64, Vec<usize>> = BTreeMap::new();
    let mut i: usize = 0;
    while i < keys.len()
        invariant
            i <= keys@.len(),
            is_keyed_grouping(keys@, i as int, grouped@),
        decreases keys@.len() - i,
    {
        let key = keys[i];
        let ghost before = grouped@;
        let mut members = match grouped.remove(&key.individual_id) {
            Some(members) => members,
            None => Vec::new(),
        };
        let ghost old_members = members@;
        proof {
            if before.contains_key(key.individual_id) {
                assert(old_members == before[key.individual_id]@);
            } else {
                assert(old_members.len() == 0);
            }
        }
        insert_member(keys, &mut members, i);
        let ghost new_members = members@;
        grouped.insert(key.individual_id, members);
        proof {
            let p = choose|p: int| 0 <= p <= old_members.len() && new_members == old_members.insert(p, i);
            assert(grouped@ == before.insert(key.individual_id, grouped@[key.individual_id]));
            self::lemma_keyed_grouping_extend(keys@, i, before, grouped@, old_members, p);
        }
        i = i + 1;
    }
    let mut groups: Vec<ResultGroup> = Vec::new();
    let entries = grouped.iter();
    let ghost listed = entries.remaining();
    proof {
        self::lemma_listed_keys_increase(listed);
    }
    for entry in it: entries
        invariant
            it.seq() == listed,
            groups@.len() == it.index(),
            forall|t: int|
                0 <= t < groups@.len() ==> {
                    &&& (#[trigger] groups@[t]).individual_id == *listed[t].0
                    &&& groups@[t].members@ == (*listed[t].1)@
                },
    {
        let (id, members) = entry;
        let copy = copy_members(members);
        groups.push(ResultGroup { individual_id: *id, members: copy });
    }
    proof {
        self::lemma_keyed_grouping_listed(keys@, grouped@, listed, groups@);
    }
    groups
}

/// Keys of type `u64` follow their total order, as a `BTreeMap` needs.
proof fn lemma_u64_keys_ordered()
    ensures
        vstd::std_specs::btree::key_obeys_cmp_spec::<u64>(),
{
    broadcast use vstd::laws_cmp::group_laws_cmp;

}

/// Entries listed in increasing key order have strictly increasing keys.
proof fn lemma_listed_keys_increase(listed: Seq<(&u64, &Vec<usize>)>)
    requires
        vstd::std_specs::btree::increasing_seq(listed.map_values(|kv: (&u64, &Vec<usize>)| *kv.0)),
    ensures
        forall|t1: int, t2: int|
            0 <= t1 < t2 < listed.len() ==> *(#[trigger] listed[t1]).0 < *(#[trigger] listed[t2]).0,
{
    broadcast use vstd::laws_cmp::group_laws_cmp;

    let ids = listed.map_values(|kv: (&u64, &Vec<usize>)| *kv.0);
    assert(vstd::laws_cmp::obeys_cmp::<u64>());
    assert forall|t1: int, t2: int| 0 <= t1 < t2 < listed.len() implies *(#[trigger] listed[t1]).0
        < *(#[trigger] listed[t2]).0 by {
        assert(ids[t1] == *listed[t1].0);
        assert(ids[t2] == *listed[t2].0);
        assert(vstd::std_specs::cmp::OrdSpec::cmp_spec(&ids[t1], &ids[t2]) is Less);
    }
}

proof fn lemma_keyed_grouping_extend(
    keys: Seq<ResultKey>,
    i: usize,
    before: Map<u64, Vec<usize>>,
    after: Map<u64, Vec<usize>>,
    old_members: Seq<usize>,
    p: int,
)
    requires
        0 <= i < keys.len(),
        is_keyed_grouping(keys, i as int, before),
        before.contains_key(keys[i as int].individual_id) ==> old_members
            == before[keys[i as int].individual_id]@,
        !before.contains_key(keys[i as int].individual_id) ==> old_members.len() == 0,
        after == before.insert(keys[i as int].individual_id, after[keys[i as int].individual_id]),
        0 <= p <= old_members.len(),
        after[keys[i as int].individual_id]@ == old_members.insert(p, i),
        forall|m1: int, m2: int|
            0 <= m1 < m2 < after[keys[i as int].individual_id]@.len() ==> ordered_before(
                keys,
                #[trigger] after[keys[i as int].individual_id]@[m1] as int,
                #[trigger] after[keys[i as int].individual_id]@[m2] as int,
            ),
    ensures
        is_keyed_grouping(keys, i + 1, after),
{
    let id = keys[i as int].individual_id;
    let nm = after[id]@;
    assert forall|other: u64| #[trigger] after.contains_key(other) implies {
        &&& after[other]@.len() >= 1
        &&& forall|k: int|
            0 <= k < after[other]@.len() ==> #[trigger] after[other]@[k] < i + 1
                && keys[after[other]@[k] as int].individual_id == other
        &&& forall|k1: int, k2: int|
            0 <= k1 < k2 < after[other]@.len() ==> ordered_before(
                keys,
                #[trigger] after[other]@[k1] as int,
                #[trigger] after[other]@[k2] as int,
            )
    } by {
        if other != id {
            assert(before.contains_key(other));
            assert(after[other] == before[other]);
        } else {
            assert forall|k: int| 0 <= k < nm.len() implies #[trigger] nm[k] < i + 1
                && keys[nm[k] as int].individual_id == id by {
                if k < p {
                    assert(nm[k] == old_members[k]);
                    assert(before[id]@[k] < i);
                } else if k > p {
                    assert(nm[k] == old_members[k - 1]);
                    assert(before[id]@[k - 1] < i);
                }
            }
        }
    }
    assert forall|j: int| 0 <= j < i + 1 implies after.contains_key((#[trigger] keys[j]).individual_id) && lists(
        after[keys[j].individual_id]@,
        j,
    ) by {
        let other = keys[j].individual_id;
        if j == i {
            assert(nm[p] == i);
        } else if other != id {
            assert(before.contains_key(other) && lists(before[other]@, j));
            assert(after[other] == before[other]);
        } else {
            assert(lists(before[id]@, j));
            let k = choose|k: int| 0 <= k < before[id]@.len() && before[id]@[k] == j;
            if k < p {
                assert(nm[k] == j);
            } else {
                assert(nm[k + 1] == j);
            }
        }
    }
}

proof fn lemma_keyed_grouping_listed(
    keys: Seq<ResultKey>,
    m: Map<u64, Vec<usize>>,
    listed: Seq<(&u64, &Vec<usize>)>,
    groups: Seq<ResultGroup>,
)
    requires
        is_keyed_grouping(keys, keys.len() as int, m),
        forall|t: int|
            #![trigger listed[t]]
            0 <= t < listed.len() ==> m.contains_key(*listed[t].0) && m[*listed[t].0] == *listed[t].1,
        forall|k: u64| #[trigger] m.contains_key(k) ==> listed.contains((&k, &m[k])),
        forall|t1: int, t2: int|
            0 <= t1 < t2 < listed.len() ==> *(#[trigger] listed[t1]).0 < *(#[trigger] listed[t2]).0,
        groups.len() == listed.len(),
        forall|t: int|
            0 <= t < groups.len() ==> {
                &&& (#[trigger] groups[t]).individual_id == *listed[t].0
                &&& groups[t].members@ == (*listed[t].1)@
            },
    ensures
        is_grouping(keys, keys.len() as int, groups),
{
    let n = keys.len() as int;
    assert forall|g1: int, g2: int|
        0 <= g1 < g2 < groups.len() implies #[trigger] groups[g1].individual_id
            < #[trigger] groups[g2].individual_id by {
        assert(*listed[g1].0 < *listed[g2].0);
    }
    assert forall|g: int| 0 <= g < groups.len() implies (#[trigger] groups[g]).members@.len() >= 1 by {
        assert(m.contains_key(*listed[g].0));
    }
    assert forall|g: int, k: int| 0 <= g < groups.len() && 0 <= k < groups[g].members@.len() implies {
        &&& #[trigger] groups[g].members@[k] < n
        &&& keys[groups[g].members@[k] as int].individual_id == groups[g].individual_id
    } by {
        let id = *listed[g].0;
        assert(m.contains_key(id));
        assert(groups[g].members@ == m[id]@);
        assert(m[id]@[k] < n);
    }
    assert forall|g: int, k1: int, k2: int|
        0 <= g < groups.len() && 0 <= k1 < k2 < groups[g].members@.len() implies ordered_before(
            keys,
            #[trigger] groups[g].members@[k1] as int,
            #[trigger] groups[g].members@[k2] as int,
        ) by {
        let id = *listed[g].0;
        assert(m.contains_key(id));
        assert(groups[g].members@ == m[id]@);
        assert(ordered_before(keys, m[id]@[k1] as int, m[id]@[k2] as int));
    }
    assert forall|j: int| 0 <= j < n implies #[trigger] is_member(groups, j) by {
        let id = keys[j].individual_id;
        assert(m.contains_key(id) && lists(m[id]@, j));
        assert(listed.contains((&id, &m[id])));
        let t = choose|t: int| 0 <= t < listed.len() && listed[t] == (&id, &m[id]);
        let k = choose|k: int| 0 <= k < m[id]@.len() && m[id]@[k] == j;
        assert(groups[t].members@ == m[id]@);
        assert(groups[t].members@[k] == j);
    }
}

/// Each result is listed once: two listings of the same result are the same
/// place in the same group.
pub proof fn law_grouping_lists_each_once(
    keys: Seq<ResultKey>,
    groups: Seq<ResultGroup>,
    g1: int,
    m1: int,
    g2: int,
    m2: int,
)
    requires
        is_grouping(keys, keys.len() as int, groups),
        0 <= g1 < groups.len(),
        0 <= g2 < groups.len(),
        0 <= m1 < groups[g1].members@.len(),
        0 <= m2 < groups[g2].members@.len(),
        groups[g1].members@[m1] == groups[g2].members@[m2],
    ensures
        g1 == g2,
        m1 == m2,
{
    if g1 < g2 {
        assert(groups[g1].individual_id < groups[g2].individual_id);
    } else if g2 < g1 {
        assert(groups[g2].individual_id < groups[g1].individual_id);
    } else if m1 < m2 {
        assert(ordered_before(keys, groups[g1].members@[m1] as int, groups[g1].members@[m2] as int));
    } else if m2 < m1 {
        assert(ordered_before(keys, groups[g1].members@[m2] as int, groups[g1].members@[m1] as int));
    }
}

/// How many of `reached_goal` are true.
pub open spec fn solved_in(reached_goal: Seq<bool>) -> nat
    decreases reached_goal.len(),
{
    if reached_goal.len() == 0 {
        0
    } else {
        solved_in(reached_goal.drop_last()) + if reached_goal.last() {
            1nat
        } else {
            0nat
        }
    }
}

/// The number of courses an individual solved: how many of its results
/// reached the goal.
pub fn solved_course_count(reached_goal: &Vec<bool>) -> (count: usize)
    ensures
        count == solved_in(reached_goal@),
{
    let mut count: usize = 0;
    let mut k: usize = 0;
    while k < reached_goal.len()
        invariant
            k <= reached_goal@.len(),
            count <= k,
            count == solved_in(reached_goal@.take(k as int)),
        decreases reached_goal@.len() - k,
    {
        assert(reached_goal@.take(k + 1).drop_last() == reached_goal@.take(k as int));
        if reached_goal[k] {
            count = count + 1;
        }
        k = k + 1;
    }
    assert(reached_goal@.take(k as int) == reached_goal@);
    count
}

/// The sum of `counts`.
pub open spec fn sum_of(counts: Seq<usize>) -> nat
    decreases counts.len(),
{
    if counts.len() == 0 {
        0
    } else {
        sum_of(counts.drop_last()) + counts.last() as nat
    }
}

/// The number of courses solved in a generation, from each individual's
/// count of solved courses.
pub fn total_courses_solved(solved_counts: &Vec<usize>) -> (total: usize)
    requires
        sum_of(solved_counts@) <= usize::MAX,
    ensures
        total == sum_of(solved_counts@),
{
    let mut total: usize = 0;
    let mut k: usize = 0;
    while k < solved_counts.len()
        invariant
            k <= solved_counts@.len(),
            sum_of(solved_counts@) <= usize::MAX,
            total == sum_of(solved_counts@.take(k as int)),
        decreases solved_counts@.len() - k,
    {
        proof {
            assert(solved_counts@.take(k + 1).drop_last() == solved_counts@.take(k as int));
            lemma_sum_of_prefix(solved_counts@, k + 1);
        }
        total = total + solved_counts[k];
        k = k + 1;
    }
    assert(solved_counts@.take(k as int) == solved_counts@);
    total
}

/// A prefix sums to no more than the whole.
proof fn lemma_sum_of_prefix(counts: Seq<usize>, k: int)
    requires
        0 <= k <= counts.len(),
    ensures
        sum_of(counts.take(k)) <= sum_of(counts),
    decreases counts.len(),
{
    if k < counts.len() {
        assert(counts.drop_last().take(k) == counts.take(k));
        lemma_sum_of_prefix(counts.drop_last(), k);
    } else {
        assert(counts.take(k) == counts);
    }
}

} // verus!
