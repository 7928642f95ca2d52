//! Splitting a list into groups, given the group leader of every item.
//!
//! The leader of an item is the index of the first item of its group, so a
//! group is identified by the index of its leader.
use vstd::prelude::*;

verus! {

/// The items among the first `upto` whose leader is `leader`, in input order.
pub open spec fn members<T>(items: Seq<T>, lead: Seq<usize>, leader: int, upto: int) -> Seq<T>
    decreases upto,
{
    if upto <= 0 {
        Seq::empty()
    } else {
        let prev = members(items, lead, leader, upto - 1);
        if lead[upto - 1] == leader {
            prev.push(items[upto - 1])
        } else {
            prev
        }
    }
}

/// How many of the first `upto` leaders equal `leader`.
pub open spec fn member_count(lead: Seq<usize>, leader: int, upto: int) -> nat
    decreases upto,
{
    if upto <= 0 {
        0
    } else if lead[upto - 1] == leader {
        member_count(lead, leader, upto - 1) + 1
    } else {
        member_count(lead, leader, upto - 1)
    }
}

/// A group has as many members as its leader occurs in the leader list.
pub proof fn lemma_members_len<T>(items: Seq<T>, lead: Seq<usize>, leader: int, upto: int)
    ensures
        members(items, lead, leader, upto).len() == member_count(lead, leader, upto),
    decreases upto,
{
    if upto > 0 {
        lemma_members_len(items, lead, leader, upto - 1);
    }
}

/// The first index from `from` on (and before `j`) whose item is related to
/// item `j`; `j` itself where there is none.
pub open spec fn first_related<T>(s: Seq<T>, related: spec_fn(T, T) -> bool, j: int, from: int) -> int
    decreases j - from,
{
    if from >= j {
        j
    } else if related(s[from], s[j]) {
        from
    } else {
        first_related(s, related, j, from + 1)
    }
}

/// `first_related` lies between `from` and `j`, points at a related item
/// where it is before `j`, and no item before it is related.
pub proof fn lemma_first_related<T>(s: Seq<T>, related: spec_fn(T, T) -> bool, j: int, from: int)
    requires
        0 <= from <= j,
    ensures
        from <= first_related(s, related, j, from) <= j,
        first_related(s, related, j, from) < j ==> related(s[first_related(s, related, j, from)], s[j]),
        forall|l: int| from <= l < first_related(s, related, j, from) ==> !related(#[trigger] s[l], s[j]),
    decreases j - from,
{
    if from < j {
        lemma_first_related(s, related, j, from + 1);
    }
}

/// Where the leader of item `i` is `i` exactly for the items `pred` holds
/// of, the group of `i` is `items` filtered by `pred`.
pub proof fn lemma_members_filter<T>(
    s: Seq<T>,
    lead: Seq<usize>,
    i: int,
    pred: spec_fn(T) -> bool,
    upto: int,
)
    requires
        0 <= upto <= s.len(),
        lead.len() == s.len(),
        forall|j: int| 0 <= j < s.len() ==> (lead[j] == i <==> #[trigger] pred(s[j])),
    ensures
        members(s, lead, i, upto) == s.take(upto).filter(pred),
    decreases upto,
{
    reveal(Seq::filter);
    if upto > 0 {
        lemma_members_filter(s, lead, i, pred, upto - 1);
        assert(s.take(upto).drop_last() =~= s.take(upto - 1));
        assert(s.take(upto).last() == s[upto - 1]);
        assert(pred(s[upto - 1]) == (lead[upto - 1] == i));
    } else {
        assert(s.take(0) =~= Seq::<T>::empty());
    }
}

/// An item whose leader is `leader` is a member of its group.
pub proof fn lemma_members_contains<T>(items: Seq<T>, lead: Seq<usize>, leader: int, upto: int, j: int)
    requires
        0 <= j < upto <= items.len(),
        lead.len() == items.len(),
        lead[j] == leader,
    ensures
        members(items, lead, leader, upto).contains(items[j]),
    decreases upto,
{
    let m = members(items, lead, leader, upto);
    if j == upto - 1 {
        assert(m[m.len() - 1] == items[j]);
    } else {
        lemma_members_contains(items, lead, leader, upto - 1, j);
        let prev = members(items, lead, leader, upto - 1);
        let q = choose|q: int| 0 <= q < prev.len() && prev[q] == items[j];
        if lead[upto - 1] == leader {
            assert(m[q] == items[j]);
        }
    }
}

/// Two different items with the same leader make a group of at least two.
pub proof fn lemma_member_count_two(lead: Seq<usize>, leader: int, upto: int, j1: int, j2: int)
    requires
        0 <= j1 < j2 < upto <= lead.len(),
        lead[j1] == leader,
        lead[j2] == leader,
    ensures
        member_count(lead, leader, upto) >= 2,
    decreases upto,
{
    if j2 < upto - 1 {
        lemma_member_count_two(lead, leader, upto - 1, j1, j2);
    } else {
        lemma_member_count_one(lead, leader, upto - 1, j1);
    }
}

proof fn lemma_member_count_one(lead: Seq<usize>, leader: int, upto: int, j: int)
    requires
        0 <= j < upto <= lead.len(),
        lead[j] == leader,
    ensures
        member_count(lead, leader, upto) >= 1,
    decreases upto,
{
    if j < upto - 1 {
        lemma_member_count_one(lead, leader, upto - 1, j);
    }
}

/// A group starts with its leader, where no item before the leader has it
/// as leader.
pub proof fn lemma_members_first<T>(items: Seq<T>, lead: Seq<usize>, leader: int, upto: int)
    requires
        0 <= leader < upto <= items.len(),
        lead.len() == items.len(),
        lead[leader] == leader,
        forall|j: int| 0 <= j < leader ==> lead[j] != leader,
    ensures
        members(items, lead, leader, upto).len() >= 1,
        members(items, lead, leader, upto)[0] == items[leader],
    decreases upto,
{
    if upto - 1 > leader {
        lemma_members_first(items, lead, leader, upto - 1);
    } else {
        lemma_members_none(items, lead, leader, leader);
    }
}

proof fn lemma_members_none<T>(items: Seq<T>, lead: Seq<usize>, leader: int, upto: int)
    requires
        0 <= upto <= leader,
        leader < items.len(),
        lead.len() == items.len(),
        forall|j: int| 0 <= j < leader ==> lead[j] != leader,
    ensures
        members(items, lead, leader, upto).len() == 0,
    decreases upto,
{
    if upto > 0 {
        lemma_members_none(items, lead, leader, upto - 1);
    }
}

/// Counts, for every index below `n`, how often it occurs as a leader.
pub fn group_sizes(lead: &Vec<usize>, n: usize) -> (sizes: Vec<usize>)
    requires
        lead@.len() <= n,
        forall|j: int| 0 <= j < lead@.len() ==> #[trigger] lead@[j] < n,
    ensures
        sizes@.len() == n,
        forall|x: int| 0 <= x < n ==> #[trigger] sizes@[x] == member_count(lead@, x, lead@.len() as int),
{
    let mut sizes: Vec<usize> = Vec::new();
    let mut x: usize = 0;
    while x < n
        invariant
            x <= n,
            sizes@.len() == x,
            forall|y: int| 0 <= y < x ==> #[trigger] sizes@[y] == 0,
        decreases n - x,
    {
        sizes.push(0);
        x = x + 1;
    }
    let m = lead.len();
    let mut j: usize = 0;
    while j < m
        invariant
            j <= m,
            m == lead@.len(),
            m <= n,
            sizes@.len() == n,
            forall|k: int| 0 <= k < lead@.len() ==> #[trigger] lead@[k] < n,
            forall|y: int| 0 <= y < n ==> #[trigger] sizes@[y] == member_count(lead@, y, j as int),
            forall|y: int| 0 <= y < n ==> #[trigger] sizes@[y] <= j,
        decreases m - j,
    {
        let l = lead[j];
        let c = sizes[l];
        sizes.set(l, c + 1);
        j = j + 1;
        assert forall|y: int| 0 <= y < n implies #[trigger] sizes@[y] == member_count(
            lead@,
            y,
            j as int,
        ) by {}
    }
    sizes
}

/// Moves every item into the group of its leader. `order` lists the leaders
/// whose groups are wanted, each once; items of other groups are dropped.
pub fn distribute<T>(items: Vec<T>, lead: &Vec<usize>, order: &Vec<usize>) -> (groups: Vec<
    Vec<T>,
>)
    requires
        lead@.len() == items@.len(),
        forall|j: int| 0 <= j < lead@.len() ==> #[trigger] lead@[j] < items@.len(),
        forall|k: int| 0 <= k < order@.len() ==> #[trigger] order@[k] < items@.len(),
        forall|k: int, l: int| 0 <= k < l < order@.len() ==> order@[k] != order@[l],
    ensures
        groups@.len() == order@.len(),
        forall|k: int|
            0 <= k < order@.len() ==> (#[trigger] groups@[k])@ == members(
                items@,
                lead@,
                order@[k] as int,
                items@.len() as int,
            ),
{
    let n = items.len();
    let m = order.len();
    let ghost all = items@;
    // pos[x] is the place of leader x in `order`, or m where x is not wanted
    let mut pos: Vec<usize> = Vec::new();
    let mut x: usize = 0;
    while x < n
        invariant
            x <= n,
            pos@.len() == x,
            forall|y: int| 0 <= y < x ==> #[trigger] pos@[y] == m,
        decreases n - x,
    {
        pos.push(m);
        x = x + 1;
    }
    let mut k: usize = 0;
    while k < m
        invariant
            k <= m,
            m == order@.len(),
            pos@.len() == n,
            forall|q: int| 0 <= q < order@.len() ==> #[trigger] order@[q] < n,
            forall|q: int, l: int| 0 <= q < l < order@.len() ==> order@[q] != order@[l],
            forall|q: int| 0 <= q < k ==> #[trigger] pos@[order@[q] as int] == q,
            forall|y: int| 0 <= y < n ==> (#[trigger] pos@[y] == m || pos@[y] < k),
            forall|y: int| 0 <= y < n && pos@[y] < k ==> order@[#[trigger] pos@[y] as int] == y,
        decreases m - k,
    {
        let o = order[k];
        pos.set(o, k);
        k = k + 1;
    }
    let mut groups: Vec<Vec<T>> = Vec::new();
    let mut q: usize = 0;
    while q < m
        invariant
            q <= m,
            groups@.len() == q,
            forall|r: int| 0 <= r < q ==> (#[trigger] groups@[r])@ == Seq::<T>::empty(),
        decreases m - q,
    {
        groups.push(Vec::new());
        q = q + 1;
    }
    let mut rest = items;
    let mut j: usize = 0;
    while j < n
        invariant
            j <= n,
            n == all.len(),
            m == order@.len(),
            lead@.len() == n,
            rest@ == all.skip(j as int),
            pos@.len() == n,
            groups@.len() == m,
            forall|i: int| 0 <= i < lead@.len() ==> #[trigger] lead@[i] < n,
            forall|r: int| 0 <= r < order@.len() ==> #[trigger] pos@[order@[r] as int] == r,
            forall|y: int| 0 <= y < n ==> (#[trigger] pos@[y] == m || pos@[y] < m),
            forall|y: int| 0 <= y < n && pos@[y] < m ==> order@[#[trigger] pos@[y] as int] == y,
            forall|r: int|
                0 <= r < m ==> (#[trigger] groups@[r])@ == members(all, lead@, order@[r] as int, j as int),
        decreases n - j,
    {
        let item = rest.remove(0);
        assert(all.skip(j as int).remove(0) =~= all.skip(j + 1));
        let p = pos[lead[j]];
        if p < m {
            groups[p].push(item);
        }
        assert forall|r: int| 0 <= r < m implies (#[trigger] groups@[r])@ == members(
            all,
            lead@,
            order@[r] as int,
            j + 1,
        ) by {
            if lead@[j as int] == order@[r] {
                assert(pos@[order@[r] as int] == r);
            }
        }
        j = j + 1;
    }
    groups
}

} // verus!
