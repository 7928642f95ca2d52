//! Finding the episodes and movies that exist in more than one file.
use vstd::multiset::Multiset;
use vstd::prelude::*;

use crate::grouping::{
    distribute, first_related, group_sizes, lemma_first_related, lemma_member_count_two,
    lemma_members_contains, lemma_members_filter, lemma_members_first, lemma_members_len,
    member_count, members,
};
use crate::models::{Episode, MediaSource, Movie};

verus! {

// ---------------------------------------------------------------- episodes

/// Two episodes cover the same slot: both carry a season and an episode
/// number, and these are equal.
pub open spec fn same_slot(a: Episode, b: Episode) -> bool {
    &&& a.season_number is Some
    &&& a.episode_number is Some
    &&& a.season_number == b.season_number
    &&& a.episode_number == b.episode_number
}

/// An episode that carries both a season and an episode number.
pub open spec fn is_numbered(e: Episode) -> bool {
    e.season_number is Some && e.episode_number is Some
}

/// `same_slot` as a relation.
pub open spec fn slot_relation() -> spec_fn(Episode, Episode) -> bool {
    |a: Episode, b: Episode| same_slot(a, b)
}

/// The group leader of episode `j`: the first episode of its slot, or the
/// episode itself when it has no season/episode number.
pub open spec fn slot_leader(s: Seq<Episode>, j: int) -> int {
    first_related(s, slot_relation(), j, 0)
}

/// The group leader of every episode.
pub open spec fn slot_leaders(s: Seq<Episode>) -> Seq<usize> {
    Seq::new(s.len(), |j: int| slot_leader(s, j) as usize)
}

/// The group led by episode `i`: every episode of its slot in input order,
/// or the episode alone when it has no season/episode number.
pub open spec fn episode_group(s: Seq<Episode>, i: int) -> Seq<Episode> {
    members(s, slot_leaders(s), i, s.len() as int)
}

/// An item that carries more than one media source.
pub open spec fn has_multiple_sources(sources: Option<Vec<MediaSource>>) -> bool {
    sources matches Some(v) && v@.len() > 1
}

/// Episode `i` leads a group that is reported: the group holds more than one
/// episode, or its first episode holds more than one file.
pub open spec fn is_reported_episode(s: Seq<Episode>, i: int) -> bool {
    &&& 0 <= i < s.len()
    &&& slot_leader(s, i) == i
    &&& (episode_group(s, i).len() > 1 || has_multiple_sources(s[i].media_sources))
}

/// The sort key of an episode: season and episode number, missing ones last.
pub open spec fn sort_season(e: Episode) -> int {
    match e.season_number {
        Some(x) => x as int,
        None => u32::MAX as int,
    }
}

pub open spec fn sort_number(e: Episode) -> int {
    match e.episode_number {
        Some(x) => x as int,
        None => u32::MAX as int,
    }
}

/// The group led by `i` comes before the one led by `j`: by season, then by
/// episode number; on a tie numbered groups come first, then input order.
pub open spec fn episode_precedes(s: Seq<Episode>, i: int, j: int) -> bool {
    let (a0, a1, b0, b1) = (sort_season(s[i]), sort_number(s[i]), sort_season(s[j]), sort_number(s[j]));
    ||| a0 < b0
    ||| a0 == b0 && a1 < b1
    ||| a0 == b0 && a1 == b1 && is_numbered(s[i]) && !is_numbered(s[j])
    ||| a0 == b0 && a1 == b1 && is_numbered(s[i]) == is_numbered(s[j]) && i < j
}

/// `idx` lists the leaders of the reported groups, each once, in the order
/// of `episode_precedes`.
pub open spec fn is_report_order(s: Seq<Episode>, idx: Seq<usize>) -> bool {
    &&& forall|k: int| 0 <= k < idx.len() ==> is_reported_episode(s, #[trigger] idx[k] as int)
    &&& forall|i: int| is_reported_episode(s, i) ==> exists|k: int| 0 <= k < idx.len() && #[trigger] idx[k] == i
    &&& forall|k: int, l: int| 0 <= k < l < idx.len() ==> episode_precedes(s, #[trigger] idx[k] as int, #[trigger] idx[l] as int)
}

/// `out` holds the reported groups, each in input order, sorted by season and
/// episode number.
pub open spec fn is_duplicate_episode_report(s: Seq<Episode>, out: Seq<Seq<Episode>>) -> bool {
    exists|idx: Seq<usize>|
        {
            &&& is_report_order(s, idx)
            &&& out.len() == idx.len()
            &&& forall|k: int| 0 <= k < idx.len() ==> #[trigger] out[k] == episode_group(s, idx[k] as int)
        }
}

/// An episode without a season/episode number leads a group of its own,
/// which holds that episode alone.
pub proof fn lemma_unnumbered_episode_alone(s: Seq<Episode>, i: int)
    requires
        0 <= i < s.len() <= usize::MAX,
        !is_numbered(s[i]),
    ensures
        slot_leader(s, i) == i,
        episode_group(s, i) == seq![s[i]],
{
    lemma_first_related(s, slot_relation(), i, 0);
    let lead = slot_leaders(s);
    assert forall|j: int| 0 <= j < s.len() && j != i implies lead[j] != i by {
        lemma_first_related(s, slot_relation(), j, 0);
        assert(lead[j] == slot_leader(s, j));
    }
    assert(lead[i] == i);
    assert forall|upto: int| 0 <= upto <= s.len() implies #[trigger] members(s, lead, i, upto) == (
    if upto > i {
        seq![s[i]]
    } else {
        Seq::<Episode>::empty()
    }) by {
        lemma_members_unnumbered(s, lead, i, upto);
    }
    assert(members(s, lead, i, s.len() as int) == seq![s[i]]);
}

proof fn lemma_members_unnumbered(s: Seq<Episode>, lead: Seq<usize>, i: int, upto: int)
    requires
        0 <= i < s.len(),
        0 <= upto <= s.len(),
        lead.len() == s.len(),
        lead[i] == i,
        forall|j: int| 0 <= j < s.len() && j != i ==> lead[j] != i,
    ensures
        members(s, lead, i, upto) == (if upto > i {
            seq![s[i]]
        } else {
            Seq::<Episode>::empty()
        }),
    decreases upto,
{
    if upto > 0 {
        lemma_members_unnumbered(s, lead, i, upto - 1);
        if upto - 1 == i {
            assert(Seq::<Episode>::empty().push(s[i]) =~= seq![s[i]]);
        }
    }
}

/// The group led by a numbered episode holds exactly the episodes of its
/// season/episode number, in input order.
pub proof fn lemma_slot_group_is_filter(s: Seq<Episode>, i: int)
    requires
        0 <= i < s.len() <= usize::MAX,
        is_numbered(s[i]),
        slot_leader(s, i) == i,
    ensures
        episode_group(s, i) == s.filter(|e: Episode| same_slot(e, s[i])),
{
    let lead = slot_leaders(s);
    let pred = |e: Episode| same_slot(e, s[i]);
    assert forall|j: int| 0 <= j < s.len() implies (lead[j] == i <==> #[trigger] pred(s[j])) by {
        lemma_first_related(s, slot_relation(), j, 0);
        lemma_first_related(s, slot_relation(), i, 0);
        let r = slot_leader(s, j);
        assert(lead[j] == r);
        if same_slot(s[j], s[i]) {
            if j < i {
                assert(!same_slot(s[j], s[i]));
            } else if j > i {
                assert(same_slot(s[i], s[j]));
                if r < i {
                    assert(same_slot(s[r], s[j]));
                    assert(same_slot(s[r], s[i]));
                    assert(!same_slot(s[r], s[i]));
                }
                assert(r == i);
            }
        }
    }
    lemma_members_filter(s, lead, i, pred, s.len() as int);
    assert(s.take(s.len() as int) =~= s);
}

/// Episodes reported together are the same episode: any two episodes of a
/// reported group carry equal season numbers and equal episode numbers; a
/// group of several episodes holds numbered episodes only; and every
/// numbered episode with the season and episode number of a group is in it.
pub proof fn lemma_episode_groups_share_numbers(s: Seq<Episode>, out: Seq<Seq<Episode>>, k: int)
    requires
        s.len() <= usize::MAX,
        is_duplicate_episode_report(s, out),
        0 <= k < out.len(),
    ensures
        out[k].len() > 0,
        forall|x: int, y: int|
            0 <= x < out[k].len() && 0 <= y < out[k].len() ==> (#[trigger] out[k][x]).season_number
                == (#[trigger] out[k][y]).season_number && out[k][x].episode_number
                == out[k][y].episode_number,
        out[k].len() > 1 ==> forall|x: int|
            0 <= x < out[k].len() ==> (#[trigger] out[k][x]).season_number is Some
                && out[k][x].episode_number is Some,
        forall|j: int|
            0 <= j < s.len() && (#[trigger] s[j]).season_number is Some && s[j].episode_number is Some
                && s[j].season_number == out[k][0].season_number && s[j].episode_number
                == out[k][0].episode_number ==> out[k].contains(s[j]),
{
    broadcast use vstd::seq_lib::group_filter_ensures;

    let idx = choose|idx: Seq<usize>|
        {
            &&& is_report_order(s, idx)
            &&& out.len() == idx.len()
            &&& forall|q: int| 0 <= q < idx.len() ==> #[trigger] out[q] == episode_group(s, idx[q] as int)
        };
    let i = idx[k] as int;
    assert(is_reported_episode(s, i));
    let g = out[k];
    assert(g == episode_group(s, i));
    if is_numbered(s[i]) {
        lemma_slot_group_is_filter(s, i);
        let p = |e: Episode| same_slot(e, s[i]);
        assert(g == s.filter(p));
        assert(s.filter(p).contains(s[i])) by {
            s.lemma_filter_contains(p, i);
        }
        assert forall|x: int| 0 <= x < g.len() implies same_slot(#[trigger] g[x], s[i]) by {
            s.lemma_filter_pred(p, x);
        }
        assert(g.len() > 0);
        assert forall|j: int|
            0 <= j < s.len() && (#[trigger] s[j]).season_number is Some && s[j].episode_number is Some
                && s[j].season_number == g[0].season_number && s[j].episode_number
                == g[0].episode_number implies g.contains(s[j]) by {
            assert(same_slot(g[0], s[i]));
            s.lemma_filter_contains(p, j);
        }
    } else {
        lemma_unnumbered_episode_alone(s, i);
        assert(g == seq![s[i]]);
    }
}

proof fn lemma_slot_leader_is_leader(s: Seq<Episode>, j: int)
    requires
        0 <= j < s.len(),
    ensures
        0 <= slot_leader(s, j) <= j,
        slot_leader(s, slot_leader(s, j)) == slot_leader(s, j),
        slot_leader(s, j) < j ==> same_slot(s[slot_leader(s, j)], s[j]),
{
    lemma_first_related(s, slot_relation(), j, 0);
    let r = slot_leader(s, j);
    lemma_first_related(s, slot_relation(), r, 0);
    let r2 = slot_leader(s, r);
    if r2 < r {
        assert(same_slot(s[r2], s[r]));
        assert(same_slot(s[r2], s[j]));
        assert(!same_slot(s[r2], s[j]));
    }
}

proof fn lemma_same_slot_same_leader(s: Seq<Episode>, j: int, j2: int)
    requires
        0 <= j < j2 < s.len(),
        same_slot(s[j], s[j2]),
    ensures
        slot_leader(s, j) == slot_leader(s, j2),
{
    lemma_first_related(s, slot_relation(), j, 0);
    lemma_first_related(s, slot_relation(), j2, 0);
    let r1 = slot_leader(s, j);
    let r2 = slot_leader(s, j2);
    if r1 < j {
        assert(same_slot(s[r1], s[j2]));
    }
    if r2 < r1 {
        assert(same_slot(s[r2], s[j2]));
        assert(same_slot(s[r2], s[j]));
        assert(!same_slot(s[r2], s[j]));
    }
    if r1 < r2 {
        assert(!same_slot(s[r1], s[j2]));
        assert(r1 == j);
    }
}

/// Which episodes are reported: every reported group holds more than one
/// episode, or one episode with more than one file; every episode with more
/// than one file is in a reported group; and so is every numbered episode
/// that shares its season and episode number with another episode.
pub proof fn lemma_episode_report_selection(s: Seq<Episode>, out: Seq<Seq<Episode>>)
    requires
        s.len() <= usize::MAX,
        is_duplicate_episode_report(s, out),
    ensures
        forall|k: int|
            0 <= k < out.len() ==> (#[trigger] out[k]).len() > 1 || (out[k].len() == 1 && (
            out[k][0].media_sources matches Some(v) && v@.len() > 1)),
        forall|j: int|
            0 <= j < s.len() && ((#[trigger] s[j]).media_sources matches Some(v) && v@.len() > 1)
                ==> exists|k: int| 0 <= k < out.len() && out[k].contains(s[j]),
        forall|j: int, j2: int|
            0 <= j < s.len() && 0 <= j2 < s.len() && j != j2 && (#[trigger] s[j]).season_number is Some
                && s[j].episode_number is Some && s[j].season_number == (#[trigger] s[j2]).season_number
                && s[j].episode_number == s[j2].episode_number ==> exists|k: int|
                0 <= k < out.len() && out[k].contains(s[j]),
{
    let n = s.len() as int;
    let lead = slot_leaders(s);
    let idx = choose|idx: Seq<usize>|
        {
            &&& is_report_order(s, idx)
            &&& out.len() == idx.len()
            &&& forall|q: int| 0 <= q < idx.len() ==> #[trigger] out[q] == episode_group(s, idx[q] as int)
        };
    assert forall|r: int| 0 <= r < n && slot_leader(s, r) == r implies #[trigger] episode_group(s, r).len()
        >= 1 && episode_group(s, r)[0] == s[r] by {
        assert forall|j: int| 0 <= j < r implies lead[j] != r by {
            lemma_first_related(s, slot_relation(), j, 0);
        }
        lemma_members_first(s, lead, r, n);
    }
    assert forall|k: int| 0 <= k < out.len() implies (#[trigger] out[k]).len() > 1 || (out[k].len() == 1
        && (out[k][0].media_sources matches Some(v) && v@.len() > 1)) by {
        let r = idx[k] as int;
        assert(is_reported_episode(s, r));
        assert(episode_group(s, r)[0] == s[r]);
    }
    assert forall|j: int|
        0 <= j < s.len() && ((#[trigger] s[j]).media_sources matches Some(v) && v@.len() > 1) implies exists|k: int|
        0 <= k < out.len() && out[k].contains(s[j]) by {
        lemma_slot_leader_is_leader(s, j);
        let r = slot_leader(s, j);
        lemma_members_contains(s, lead, r, n, j);
        if r < j {
            lemma_member_count_two(lead, r, n, r, j);
            lemma_members_len(s, lead, r, n);
        }
        assert(is_reported_episode(s, r));
        let k = choose|k: int| 0 <= k < idx.len() && #[trigger] idx[k] == r;
        assert(out[k] == episode_group(s, r));
    }
    assert forall|j: int, j2: int|
        0 <= j < s.len() && 0 <= j2 < s.len() && j != j2 && (#[trigger] s[j]).season_number is Some
            && s[j].episode_number is Some && s[j].season_number == (#[trigger] s[j2]).season_number
            && s[j].episode_number == s[j2].episode_number implies exists|k: int|
        0 <= k < out.len() && out[k].contains(s[j]) by {
        if j < j2 {
            lemma_same_slot_same_leader(s, j, j2);
        } else {
            lemma_same_slot_same_leader(s, j2, j);
        }
        lemma_slot_leader_is_leader(s, j);
        let r = slot_leader(s, j);
        let (a, b) = if j < j2 { (j, j2) } else { (j2, j) };
        lemma_member_count_two(lead, r, n, a, b);
        lemma_members_len(s, lead, r, n);
        lemma_members_contains(s, lead, r, n, j);
        assert(is_reported_episode(s, r));
        let k = choose|k: int| 0 <= k < idx.len() && #[trigger] idx[k] == r;
        assert(out[k] == episode_group(s, r));
    }
}

/// The reported groups come sorted by season number, then by episode number,
/// a missing number counting as the largest.
pub proof fn lemma_episode_report_sorted(s: Seq<Episode>, out: Seq<Seq<Episode>>)
    requires
        s.len() <= usize::MAX,
        is_duplicate_episode_report(s, out),
    ensures
        forall|k: int, l: int|
            0 <= k < l < out.len() ==> {
                let sa = match (#[trigger] out[k])[0].season_number {
                    Some(x) => x as int,
                    None => u32::MAX as int,
                };
                let ea = match out[k][0].episode_number {
                    Some(x) => x as int,
                    None => u32::MAX as int,
                };
                let sb = match (#[trigger] out[l])[0].season_number {
                    Some(x) => x as int,
                    None => u32::MAX as int,
                };
                let eb = match out[l][0].episode_number {
                    Some(x) => x as int,
                    None => u32::MAX as int,
                };
                sa < sb || (sa == sb && ea <= eb)
            },
{
    let n = s.len() as int;
    let lead = slot_leaders(s);
    let idx = choose|idx: Seq<usize>|
        {
            &&& is_report_order(s, idx)
            &&& out.len() == idx.len()
            &&& forall|q: int| 0 <= q < idx.len() ==> #[trigger] out[q] == episode_group(s, idx[q] as int)
        };
    assert forall|k: int| 0 <= k < out.len() implies (#[trigger] out[k])[0] == s[idx[k] as int] by {
        let r = idx[k] as int;
        assert(is_reported_episode(s, r));
        assert forall|j: int| 0 <= j < r implies lead[j] != r by {
            lemma_first_related(s, slot_relation(), j, 0);
        }
        lemma_members_first(s, lead, r, n);
    }
    assert forall|k: int, l: int| 0 <= k < l < out.len() implies episode_precedes(s, idx[k] as int, idx[l] as int) by {
        assert(episode_precedes(s, idx[k] as int, idx[l] as int));
    }
}

/// Strictly increasing in the order of `episode_precedes`.
pub open spec fn strictly_ordered(s: Seq<Episode>, idx: Seq<usize>) -> bool {
    forall|k: int, l: int| 0 <= k < l < idx.len() ==> episode_precedes(s, #[trigger] idx[k] as int, #[trigger] idx[l] as int)
}

/// `x` occurs in `idx`.
pub open spec fn lists(idx: Seq<usize>, x: int) -> bool {
    exists|k: int| 0 <= k < idx.len() && #[trigger] idx[k] == x
}

proof fn lemma_ordered_lists_equal(s: Seq<Episode>, a: Seq<usize>, b: Seq<usize>)
    requires
        strictly_ordered(s, a),
        strictly_ordered(s, b),
        forall|x: int| lists(a, x) <==> lists(b, x),
    ensures
        a == b,
    decreases a.len(),
{
    if a.len() == 0 {
        if b.len() > 0 {
            assert(lists(b, b[0] as int));
        }
        assert(a =~= b);
    } else {
        assert(lists(a, a[0] as int));
        let kb = choose|k: int| 0 <= k < b.len() && #[trigger] b[k] == a[0];
        assert(lists(b, b[0] as int));
        let ka = choose|k: int| 0 <= k < a.len() && #[trigger] a[k] == b[0];
        if kb > 0 && ka > 0 {
            assert(episode_precedes(s, b[0] as int, b[kb] as int));
            assert(episode_precedes(s, a[0] as int, a[ka] as int));
        } else if kb > 0 {
            assert(episode_precedes(s, b[0] as int, b[kb] as int));
        } else if ka > 0 {
            assert(episode_precedes(s, a[0] as int, a[ka] as int));
        }
        assert(a[0] == b[0]);
        let a1 = a.drop_first();
        let b1 = b.drop_first();
        assert forall|x: int| lists(a1, x) <==> lists(b1, x) by {
            if lists(a1, x) {
                let k = choose|k: int| 0 <= k < a1.len() && #[trigger] a1[k] == x;
                assert(a[k + 1] == x);
                assert(episode_precedes(s, a[0] as int, a[k + 1] as int));
                assert(lists(a, x));
                let m = choose|m: int| 0 <= m < b.len() && #[trigger] b[m] == x;
                assert(m != 0);
                assert(b1[m - 1] == x);
            }
            if lists(b1, x) {
                let k = choose|k: int| 0 <= k < b1.len() && #[trigger] b1[k] == x;
                assert(b[k + 1] == x);
                assert(episode_precedes(s, b[0] as int, b[k + 1] as int));
                assert(lists(b, x));
                let m = choose|m: int| 0 <= m < a.len() && #[trigger] a[m] == x;
                assert(m != 0);
                assert(a1[m - 1] == x);
            }
        }
        lemma_ordered_lists_equal(s, a1, b1);
        assert(a =~= seq![a[0]] + a1);
        assert(b =~= seq![b[0]] + b1);
    }
}

/// The report is a function of the input: whatever order the groups were
/// found in, there is exactly one way to list them, so two runs on the same
/// episodes give the same groups in the same order.
pub proof fn lemma_duplicate_episode_report_unique(
    s: Seq<Episode>,
    a: Seq<Seq<Episode>>,
    b: Seq<Seq<Episode>>,
)
    requires
        is_duplicate_episode_report(s, a),
        is_duplicate_episode_report(s, b),
    ensures
        a == b,
{
    let ia = choose|idx: Seq<usize>|
        {
            &&& is_report_order(s, idx)
            &&& a.len() == idx.len()
            &&& forall|k: int| 0 <= k < idx.len() ==> #[trigger] a[k] == episode_group(s, idx[k] as int)
        };
    let ib = choose|idx: Seq<usize>|
        {
            &&& is_report_order(s, idx)
            &&& b.len() == idx.len()
            &&& forall|k: int| 0 <= k < idx.len() ==> #[trigger] b[k] == episode_group(s, idx[k] as int)
        };
    assert forall|x: int| lists(ia, x) <==> lists(ib, x) by {
        if lists(ia, x) {
            let k = choose|k: int| 0 <= k < ia.len() && #[trigger] ia[k] == x;
            assert(is_reported_episode(s, ia[k] as int));
        }
        if lists(ib, x) {
            let k = choose|k: int| 0 <= k < ib.len() && #[trigger] ib[k] == x;
            assert(is_reported_episode(s, ib[k] as int));
        }
    }
    lemma_ordered_lists_equal(s, ia, ib);
    assert(a =~= b);
}

fn same_slot_exec(a: &Episode, b: &Episode) -> (res: bool)
    ensures
        res == same_slot(*a, *b),
{
    match (a.season_number, a.episode_number, b.season_number, b.episode_number) {
        (Some(s1), Some(e1), Some(s2), Some(e2)) => s1 == s2 && e1 == e2,
        _ => false,
    }
}

/// Whether an episode carries more than one media source.
pub fn has_multiple_versions_episode(episode: &Episode) -> (res: bool)
    ensures
        res == has_multiple_sources(episode.media_sources),
{
    match &episode.media_sources {
        Some(media_sources) => media_sources.len() > 1,
        None => false,
    }
}

fn slot_leaders_exec(episodes: &Vec<Episode>) -> (lead: Vec<usize>)
    ensures
        lead@ == slot_leaders(episodes@),
        forall|j: int| 0 <= j < lead@.len() ==> #[trigger] lead@[j] <= j,
{
    let n = episodes.len();
    let mut lead: Vec<usize> = Vec::new();
    let mut j: usize = 0;
    while j < n
        invariant
            j <= n,
            n == episodes@.len(),
            lead@.len() == j,
            forall|q: int| 0 <= q < j ==> #[trigger] lead@[q] == slot_leader(episodes@, q),
            forall|q: int| 0 <= q < j ==> #[trigger] lead@[q] <= q,
        decreases n - j,
    {
        let mut l: usize = 0;
        while l < j && !same_slot_exec(&episodes[l], &episodes[j])
            invariant
                l <= j < n,
                n == episodes@.len(),
                first_related(episodes@, slot_relation(), j as int, 0) == first_related(episodes@, slot_relation(), j as int, l as int),
            decreases j - l,
        {
            l = l + 1;
        }
        proof {
            lemma_first_related(episodes@, slot_relation(), j as int, l as int);
        }
        lead.push(l);
        j = j + 1;
    }
    assert(lead@ =~= slot_leaders(episodes@));
    lead
}

fn sort_season_exec(e: &Episode) -> (r: u32)
    ensures
        r == sort_season(*e),
{
    match e.season_number {
        Some(x) => x,
        None => u32::MAX,
    }
}

fn sort_number_exec(e: &Episode) -> (r: u32)
    ensures
        r == sort_number(*e),
{
    match e.episode_number {
        Some(x) => x,
        None => u32::MAX,
    }
}

fn episode_precedes_exec(episodes: &Vec<Episode>, i: usize, j: usize) -> (res: bool)
    requires
        i < episodes@.len(),
        j < episodes@.len(),
    ensures
        res == episode_precedes(episodes@, i as int, j as int),
{
    let a0 = sort_season_exec(&episodes[i]);
    let a1 = sort_number_exec(&episodes[i]);
    let b0 = sort_season_exec(&episodes[j]);
    let b1 = sort_number_exec(&episodes[j]);
    let ni = episodes[i].season_number.is_some() && episodes[i].episode_number.is_some();
    let nj = episodes[j].season_number.is_some() && episodes[j].episode_number.is_some();
    if a0 != b0 {
        a0 < b0
    } else if a1 != b1 {
        a1 < b1
    } else if ni != nj {
        ni
    } else {
        i < j
    }
}

/// Groups episodes covering the same season/episode number, returning only the groups
/// that hold more than one episode, or one episode with several files. Duplicates show up two different ways depending on how
/// the files were matched: merged into one item with several media sources, or as
/// separate items sharing a season/episode number. Episodes without a season/episode
/// number are never grouped with others; they are reported alone when they hold
/// several files. The groups come sorted by season and episode number.
pub fn filter_duplicate_episodes(episodes: Vec<Episode>) -> (groups: Vec<Vec<Episode>>)
    ensures
        is_duplicate_episode_report(episodes@, groups@.map_values(|g: Vec<Episode>| g@)),
{
    let ghost s = episodes@;
    let n = episodes.len();
    let lead = slot_leaders_exec(&episodes);
    let sizes = group_sizes(&lead, n);
    let mut order: Vec<usize> = Vec::new();
    let mut i: usize = 0;
    while i < n
        invariant
            i <= n,
            n == s.len(),
            s == episodes@,
            lead@ == slot_leaders(s),
            sizes@.len() == n,
            forall|x: int| 0 <= x < n ==> #[trigger] sizes@[x] == member_count(lead@, x, n as int),
            forall|k: int| 0 <= k < order@.len() ==> #[trigger] order@[k] < i,
            forall|k: int| 0 <= k < order@.len() ==> is_reported_episode(s, #[trigger] order@[k] as int),
            forall|x: int| 0 <= x < i && is_reported_episode(s, x) ==> exists|k: int| 0 <= k < order@.len() && #[trigger] order@[k] == x,
            forall|k: int, l: int| 0 <= k < l < order@.len() ==> episode_precedes(s, #[trigger] order@[k] as int, #[trigger] order@[l] as int),
        decreases n - i,
    {
        proof {
            lemma_members_len(s, lead@, i as int, n as int);
            lemma_first_related(s, slot_relation(), i as int, 0);
        }
        let reported = lead[i] == i && (sizes[i] > 1 || has_multiple_versions_episode(&episodes[i]));
        assert(reported == is_reported_episode(s, i as int));
        if reported {
            let m = order.len();
            let mut p: usize = 0;
            while p < m && !episode_precedes_exec(&episodes, i, order[p])
                invariant
                    p <= m,
                    m == order@.len(),
                    i < n,
                    n == episodes@.len(),
                    s == episodes@,
                    forall|k: int| 0 <= k < order@.len() ==> #[trigger] order@[k] < i,
                    forall|k: int| 0 <= k < p ==> !episode_precedes(s, i as int, #[trigger] order@[k] as int),
                decreases m - p,
            {
                p = p + 1;
            }
            let ghost old_order = order@;
            order.insert(p, i);
            assert forall|k: int, l: int| 0 <= k < l < order@.len() implies episode_precedes(
                s,
                #[trigger] order@[k] as int,
                #[trigger] order@[l] as int,
            ) by {
                if l < p {
                    assert(order@[k] == old_order[k] && order@[l] == old_order[l]);
                } else if l == p {
                    assert(!episode_precedes(s, i as int, old_order[k] as int));
                    assert(old_order[k] < i);
                } else if k == p {
                    assert(episode_precedes(s, i as int, old_order[p as int] as int));
                    if l - 1 > p {
                        assert(episode_precedes(s, old_order[p as int] as int, old_order[l - 1] as int));
                    }
                } else if k < p {
                    assert(order@[k] == old_order[k] && order@[l] == old_order[l - 1]);
                } else {
                    assert(order@[k] == old_order[k - 1] && order@[l] == old_order[l - 1]);
                }
            }
            assert forall|x: int| 0 <= x < i + 1 && is_reported_episode(s, x) implies exists|k: int|
                0 <= k < order@.len() && #[trigger] order@[k] == x by {
                if x == i {
                    assert(order@[p as int] == i);
                } else {
                    let k0 = choose|k: int| 0 <= k < old_order.len() && #[trigger] old_order[k] == x;
                    if k0 < p {
                        assert(order@[k0] == x);
                    } else {
                        assert(order@[k0 + 1] == x);
                    }
                }
            }
            assert forall|k: int| 0 <= k < order@.len() implies is_reported_episode(s, #[trigger] order@[k] as int) && order@[k] < i + 1 by {
                if k < p {
                    assert(order@[k] == old_order[k]);
                } else if k > p {
                    assert(order@[k] == old_order[k - 1]);
                }
            }
        }
        i = i + 1;
    }
    assert forall|k: int, l: int| 0 <= k < l < order@.len() implies order@[k] != order@[l] by {
        assert(episode_precedes(s, order@[k] as int, order@[l] as int));
    }
    let groups = distribute(episodes, &lead, &order);
    let ghost out = groups@.map_values(|g: Vec<Episode>| g@);
    assert(is_report_order(s, order@));
    assert(out.len() == order@.len());
    assert forall|k: int| 0 <= k < order@.len() implies #[trigger] out[k] == episode_group(s, order@[k] as int) by {}
    groups
}

// ------------------------------------------------------------------ movies

/// What makes movies copies of each other: the same name and the same year
/// (where neither year is known, the years are the same).
pub open spec fn title_key(m: Movie) -> (Seq<char>, Option<u32>) {
    (m.name@, m.year)
}

/// Two movies are copies of each other.
pub open spec fn same_title(a: Movie, b: Movie) -> bool {
    title_key(a) == title_key(b)
}

/// `same_title` as a relation.
pub open spec fn title_relation() -> spec_fn(Movie, Movie) -> bool {
    |a: Movie, b: Movie| same_title(a, b)
}

/// The group leader of movie `j`: the first copy of it in the input.
pub open spec fn title_leader(s: Seq<Movie>, j: int) -> int {
    first_related(s, title_relation(), j, 0)
}

/// The group leader of every movie.
pub open spec fn title_leaders(s: Seq<Movie>) -> Seq<usize> {
    Seq::new(s.len(), |j: int| title_leader(s, j) as usize)
}

/// The group led by movie `i`: every copy of it, in input order.
pub open spec fn movie_group(s: Seq<Movie>, i: int) -> Seq<Movie> {
    members(s, title_leaders(s), i, s.len() as int)
}

/// Movie `i` leads a group that is reported: the group holds more than one
/// movie, or its one movie holds more than one file.
pub open spec fn is_reported_movie(s: Seq<Movie>, i: int) -> bool {
    &&& 0 <= i < s.len()
    &&& title_leader(s, i) == i
    &&& (movie_group(s, i).len() > 1 || has_multiple_sources(s[i].media_sources))
}

/// `out` holds the reported movie groups, each in input order, listed in the
/// order in which their first copy appears in the input.
pub open spec fn is_duplicate_movie_report(s: Seq<Movie>, out: Seq<Seq<Movie>>) -> bool {
    exists|idx: Seq<usize>|
        {
            &&& forall|k: int| 0 <= k < idx.len() ==> is_reported_movie(s, #[trigger] idx[k] as int)
            &&& forall|i: int| is_reported_movie(s, i) ==> lists(idx, i)
            &&& forall|k: int, l: int| 0 <= k < l < idx.len() ==> #[trigger] idx[k] < #[trigger] idx[l]
            &&& out.len() == idx.len()
            &&& forall|k: int| 0 <= k < idx.len() ==> #[trigger] out[k] == movie_group(s, idx[k] as int)
        }
}

/// The group led by a movie holds exactly the movies with its title and year,
/// in input order.
pub proof fn lemma_title_group_is_filter(s: Seq<Movie>, i: int)
    requires
        0 <= i < s.len() <= usize::MAX,
        title_leader(s, i) == i,
    ensures
        movie_group(s, i) == s.filter(|m: Movie| same_title(m, s[i])),
{
    let lead = title_leaders(s);
    let pred = |m: Movie| same_title(m, s[i]);
    assert forall|j: int| 0 <= j < s.len() implies (lead[j] == i <==> #[trigger] pred(s[j])) by {
        lemma_first_related(s, title_relation(), j, 0);
        lemma_first_related(s, title_relation(), i, 0);
        let r = title_leader(s, j);
        assert(lead[j] == r);
        if same_title(s[j], s[i]) {
            if j < i {
                assert(!same_title(s[j], s[i]));
            } else if j > i {
                if r < i {
                    assert(same_title(s[r], s[i]));
                    assert(!same_title(s[r], s[i]));
                }
                assert(!same_title(s[i], s[j]) ==> r > i);
                assert(r == i);
            }
        }
    }
    lemma_members_filter(s, lead, i, pred, s.len() as int);
    assert(s.take(s.len() as int) =~= s);
}

fn same_title_exec(a: &Movie, b: &Movie) -> (res: bool)
    ensures
        res == same_title(*a, *b),
{
    let same_year = match (a.year, b.year) {
        (Some(x), Some(y)) => x == y,
        (None, None) => true,
        _ => false,
    };
    a.name == b.name && same_year
}

/// Whether a movie carries more than one media source.
pub fn has_multiple_versions_movie(movie: &Movie) -> (res: bool)
    ensures
        res == has_multiple_sources(movie.media_sources),
{
    match &movie.media_sources {
        Some(media_sources) => media_sources.len() > 1,
        None => false,
    }
}

fn title_leaders_exec(movies: &Vec<Movie>) -> (lead: Vec<usize>)
    ensures
        lead@ == title_leaders(movies@),
        forall|j: int| 0 <= j < lead@.len() ==> #[trigger] lead@[j] <= j,
{
    let n = movies.len();
    let mut lead: Vec<usize> = Vec::new();
    let mut j: usize = 0;
    while j < n
        invariant
            j <= n,
            n == movies@.len(),
            lead@.len() == j,
            forall|q: int| 0 <= q < j ==> #[trigger] lead@[q] == title_leader(movies@, q),
            forall|q: int| 0 <= q < j ==> #[trigger] lead@[q] <= q,
        decreases n - j,
    {
        let mut l: usize = 0;
        while l < j && !same_title_exec(&movies[l], &movies[j])
            invariant
                l <= j < n,
                n == movies@.len(),
                first_related(movies@, title_relation(), j as int, 0) == first_related(movies@, title_relation(), j as int, l as int),
            decreases j - l,
        {
            l = l + 1;
        }
        proof {
            lemma_first_related(movies@, title_relation(), j as int, l as int);
        }
        lead.push(l);
        j = j + 1;
    }
    assert(lead@ =~= title_leaders(movies@));
    lead
}

/// Groups movies that share title and year, returning only the groups that
/// hold more than one movie, or one movie with more than one file. Each group
/// keeps input order; the groups come in the order of their first movie.
pub fn filter_duplicate_movies(movies: Vec<Movie>) -> (groups: Vec<Vec<Movie>>)
    ensures
        is_duplicate_movie_report(movies@, groups@.map_values(|g: Vec<Movie>| g@)),
{
    let ghost s = movies@;
    let n = movies.len();
    let lead = title_leaders_exec(&movies);
    let sizes = group_sizes(&lead, n);
    let mut order: Vec<usize> = Vec::new();
    let mut i: usize = 0;
    while i < n
        invariant
            i <= n,
            n == s.len(),
            s == movies@,
            lead@ == title_leaders(s),
            sizes@.len() == n,
            forall|x: int| 0 <= x < n ==> #[trigger] sizes@[x] == member_count(lead@, x, n as int),
            forall|k: int| 0 <= k < order@.len() ==> #[trigger] order@[k] < i,
            forall|k: int| 0 <= k < order@.len() ==> is_reported_movie(s, #[trigger] order@[k] as int),
            forall|x: int| 0 <= x < i && is_reported_movie(s, x) ==> lists(order@, x),
            forall|k: int, l: int| 0 <= k < l < order@.len() ==> #[trigger] order@[k] < #[trigger] order@[l],
        decreases n - i,
    {
        proof {
            lemma_members_len(s, lead@, i as int, n as int);
            lemma_first_related(s, title_relation(), i as int, 0);
        }
        let reported = lead[i] == i && (sizes[i] > 1 || has_multiple_versions_movie(&movies[i]));
        assert(reported == is_reported_movie(s, i as int));
        if reported {
            let ghost old_order = order@;
            order.push(i);
            assert forall|x: int| 0 <= x < i + 1 && is_reported_movie(s, x) implies lists(order@, x) by {
                if x == i {
                    assert(order@[old_order.len() as int] == i);
                } else {
                    let k0 = choose|k: int| 0 <= k < old_order.len() && #[trigger] old_order[k] == x;
                    assert(order@[k0] == x);
                }
            }
        }
        i = i + 1;
    }
    let groups = distribute(movies, &lead, &order);
    let ghost out = groups@.map_values(|g: Vec<Movie>| g@);
    assert forall|k: int| 0 <= k < order@.len() implies #[trigger] out[k] == movie_group(s, order@[k] as int) by {}
    groups
}

/// Movies reported together are copies of each other: any two movies of a
/// reported group carry the same name and the same year, and every movie with
/// the name and year of a group is in it.
pub proof fn lemma_movie_groups_share_title(s: Seq<Movie>, out: Seq<Seq<Movie>>, k: int)
    requires
        s.len() <= usize::MAX,
        is_duplicate_movie_report(s, out),
        0 <= k < out.len(),
    ensures
        out[k].len() > 0,
        forall|x: int, y: int|
            0 <= x < out[k].len() && 0 <= y < out[k].len() ==> (#[trigger] out[k][x]).name@
                == (#[trigger] out[k][y]).name@ && out[k][x].year == out[k][y].year,
        forall|j: int|
            0 <= j < s.len() && (#[trigger] s[j]).name@ == out[k][0].name@ && s[j].year
                == out[k][0].year ==> out[k].contains(s[j]),
{
    broadcast use vstd::seq_lib::group_filter_ensures;

    let idx = choose|idx: Seq<usize>|
        {
            &&& forall|q: int| 0 <= q < idx.len() ==> is_reported_movie(s, #[trigger] idx[q] as int)
            &&& forall|i: int| is_reported_movie(s, i) ==> lists(idx, i)
            &&& forall|q: int, l: int| 0 <= q < l < idx.len() ==> #[trigger] idx[q] < #[trigger] idx[l]
            &&& out.len() == idx.len()
            &&& forall|q: int| 0 <= q < idx.len() ==> #[trigger] out[q] == movie_group(s, idx[q] as int)
        };
    let i = idx[k] as int;
    assert(is_reported_movie(s, i));
    let g = out[k];
    lemma_title_group_is_filter(s, i);
    let p = |m: Movie| same_title(m, s[i]);
    assert(g == s.filter(p));
    s.lemma_filter_contains(p, i);
    assert forall|x: int| 0 <= x < g.len() implies same_title(#[trigger] g[x], s[i]) by {
        s.lemma_filter_pred(p, x);
    }
    assert(g.len() > 0);
    assert forall|j: int|
        0 <= j < s.len() && (#[trigger] s[j]).name@ == g[0].name@ && s[j].year == g[0].year implies g.contains(
        s[j],
    ) by {
        assert(same_title(g[0], s[i]));
        s.lemma_filter_contains(p, j);
    }
}

proof fn lemma_same_title_same_leader(s: Seq<Movie>, j: int, j2: int)
    requires
        0 <= j < j2 < s.len(),
        same_title(s[j], s[j2]),
    ensures
        title_leader(s, j) == title_leader(s, j2),
{
    lemma_first_related(s, title_relation(), j, 0);
    lemma_first_related(s, title_relation(), j2, 0);
    let r1 = title_leader(s, j);
    let r2 = title_leader(s, j2);
    if r1 < j {
        assert(same_title(s[r1], s[j2]));
    }
    if r2 < r1 {
        assert(same_title(s[r2], s[j2]));
        assert(same_title(s[r2], s[j]));
        assert(!same_title(s[r2], s[j]));
    }
    if r1 < r2 {
        assert(!same_title(s[r1], s[j2]));
        assert(r1 == j);
    }
}

/// Which movies are reported: every reported group holds more than one
/// movie, or one movie with more than one file; every movie with more than
/// one file, and every movie that shares name and year with another, is in
/// a reported group.
pub proof fn lemma_movie_report_selection(s: Seq<Movie>, out: Seq<Seq<Movie>>)
    requires
        s.len() <= usize::MAX,
        is_duplicate_movie_report(s, out),
    ensures
        forall|k: int|
            0 <= k < out.len() ==> (#[trigger] out[k]).len() > 1 || (out[k].len() == 1 && (
            out[k][0].media_sources matches Some(v) && v@.len() > 1)),
        forall|j: int|
            0 <= j < s.len() && ((#[trigger] s[j]).media_sources matches Some(v) && v@.len() > 1)
                ==> exists|k: int| 0 <= k < out.len() && out[k].contains(s[j]),
        forall|j: int, j2: int|
            0 <= j < s.len() && 0 <= j2 < s.len() && j != j2 && (#[trigger] s[j]).name@ == (
            #[trigger] s[j2]).name@ && s[j].year == s[j2].year ==> exists|k: int|
                0 <= k < out.len() && out[k].contains(s[j]),
{
    let n = s.len() as int;
    let lead = title_leaders(s);
    let idx = choose|idx: Seq<usize>|
        {
            &&& forall|q: int| 0 <= q < idx.len() ==> is_reported_movie(s, #[trigger] idx[q] as int)
            &&& forall|i: int| is_reported_movie(s, i) ==> lists(idx, i)
            &&& forall|q: int, l: int| 0 <= q < l < idx.len() ==> #[trigger] idx[q] < #[trigger] idx[l]
            &&& out.len() == idx.len()
            &&& forall|q: int| 0 <= q < idx.len() ==> #[trigger] out[q] == movie_group(s, idx[q] as int)
        };
    assert forall|r: int| 0 <= r < n && title_leader(s, r) == r implies #[trigger] movie_group(s, r).len()
        >= 1 && movie_group(s, r)[0] == s[r] && forall|q: int|
        0 <= q < r ==> !same_title(#[trigger] s[q], s[r]) by {
        assert forall|j: int| 0 <= j < r implies lead[j] != r by {
            lemma_first_related(s, title_relation(), j, 0);
        }
        lemma_members_first(s, lead, r, n);
        lemma_first_related(s, title_relation(), r, 0);
    }
    assert forall|k: int| 0 <= k < out.len() implies (#[trigger] out[k]).len() > 1 || (out[k].len() == 1
        && (out[k][0].media_sources matches Some(v) && v@.len() > 1)) by {
        let r = idx[k] as int;
        assert(is_reported_movie(s, r));
        assert(movie_group(s, r)[0] == s[r]);
    }
    assert forall|j: int|
        0 <= j < s.len() && ((#[trigger] s[j]).media_sources matches Some(v) && v@.len() > 1) implies exists|k: int|
        0 <= k < out.len() && out[k].contains(s[j]) by {
        lemma_leader_of_leader(s, j);
        let r = title_leader(s, j);
        lemma_members_contains(s, lead, r, n, j);
        if r < j {
            lemma_member_count_two(lead, r, n, r, j);
            lemma_members_len(s, lead, r, n);
        }
        assert(is_reported_movie(s, r));
        let k = choose|k: int| 0 <= k < idx.len() && #[trigger] idx[k] == r;
        assert(out[k] == movie_group(s, r));
    }
    assert forall|j: int, j2: int|
        0 <= j < s.len() && 0 <= j2 < s.len() && j != j2 && (#[trigger] s[j]).name@ == (
        #[trigger] s[j2]).name@ && s[j].year == s[j2].year implies exists|k: int|
        0 <= k < out.len() && out[k].contains(s[j]) by {
        if j < j2 {
            lemma_same_title_same_leader(s, j, j2);
        } else {
            lemma_same_title_same_leader(s, j2, j);
        }
        lemma_leader_of_leader(s, j);
        let r = title_leader(s, j);
        let (a, b) = if j < j2 { (j, j2) } else { (j2, j) };
        lemma_member_count_two(lead, r, n, a, b);
        lemma_members_len(s, lead, r, n);
        lemma_members_contains(s, lead, r, n, j);
        assert(is_reported_movie(s, r));
        let k = choose|k: int| 0 <= k < idx.len() && #[trigger] idx[k] == r;
        assert(out[k] == movie_group(s, r));
    }
}

/// The order of the reported movies: each group starts with a movie of the
/// input, and the groups come in the order in which their first movies'
/// names and years first appear in the input.
pub proof fn lemma_movie_report_order(s: Seq<Movie>, out: Seq<Seq<Movie>>)
    requires
        s.len() <= usize::MAX,
        is_duplicate_movie_report(s, out),
    ensures
        forall|k: int| 0 <= k < out.len() ==> s.contains(#[trigger] out[k][0]),
        forall|k: int, l: int, a: int, b: int|
            #![trigger out[k][0], out[l][0], s[a], s[b]]
            0 <= k < l < out.len() && 0 <= a < s.len() && 0 <= b < s.len() && s[a] == out[k][0]
                && s[b] == out[l][0] && (forall|q: int|
                0 <= q < a ==> !((#[trigger] s[q]).name@ == s[a].name@ && s[q].year == s[a].year))
                && (forall|q: int|
                0 <= q < b ==> !((#[trigger] s[q]).name@ == s[b].name@ && s[q].year == s[b].year))
                ==> a < b,
{
    let n = s.len() as int;
    let lead = title_leaders(s);
    let idx = choose|idx: Seq<usize>|
        {
            &&& forall|q: int| 0 <= q < idx.len() ==> is_reported_movie(s, #[trigger] idx[q] as int)
            &&& forall|i: int| is_reported_movie(s, i) ==> lists(idx, i)
            &&& forall|q: int, l: int| 0 <= q < l < idx.len() ==> #[trigger] idx[q] < #[trigger] idx[l]
            &&& out.len() == idx.len()
            &&& forall|q: int| 0 <= q < idx.len() ==> #[trigger] out[q] == movie_group(s, idx[q] as int)
        };
    assert forall|r: int| 0 <= r < n && title_leader(s, r) == r implies #[trigger] movie_group(s, r).len()
        >= 1 && movie_group(s, r)[0] == s[r] && forall|q: int|
        0 <= q < r ==> !same_title(#[trigger] s[q], s[r]) by {
        assert forall|j: int| 0 <= j < r implies lead[j] != r by {
            lemma_first_related(s, title_relation(), j, 0);
        }
        lemma_members_first(s, lead, r, n);
        lemma_first_related(s, title_relation(), r, 0);
    }
    assert forall|k: int| 0 <= k < out.len() implies s.contains(#[trigger] out[k][0]) by {
        let a = idx[k] as int;
        assert(is_reported_movie(s, a));
        assert(movie_group(s, a)[0] == s[a]);
    }
    assert forall|k: int, l: int, a: int, b: int|
        #![trigger out[k][0], out[l][0], s[a], s[b]]
        0 <= k < l < out.len() && 0 <= a < s.len() && 0 <= b < s.len() && s[a] == out[k][0]
            && s[b] == out[l][0] && (forall|q: int|
            0 <= q < a ==> !((#[trigger] s[q]).name@ == s[a].name@ && s[q].year == s[a].year))
            && (forall|q: int|
            0 <= q < b ==> !((#[trigger] s[q]).name@ == s[b].name@ && s[q].year == s[b].year))
            implies a < b by {
        let ia = idx[k] as int;
        let ib = idx[l] as int;
        assert(is_reported_movie(s, ia));
        assert(is_reported_movie(s, ib));
        assert(movie_group(s, ia)[0] == s[ia]);
        assert(movie_group(s, ib)[0] == s[ib]);
        if a < ia {
            assert(!same_title(s[a], s[ia]));
        }
        if ia < a {
            assert(!((s[ia]).name@ == s[a].name@ && s[ia].year == s[a].year));
        }
        if b < ib {
            assert(!same_title(s[b], s[ib]));
        }
        if ib < b {
            assert(!((s[ib]).name@ == s[b].name@ && s[ib].year == s[b].year));
        }
        assert(ia < ib);
    }
}

// ------------------------------------------------- movies, order of input

/// The movies of `s` with title key `k`, as a multiset.
pub open spec fn title_bag(s: Seq<Movie>, k: (Seq<char>, Option<u32>)) -> Multiset<Movie> {
    s.filter(|m: Movie| title_key(m) == k).to_multiset()
}

/// A group of copies is reported: it holds more than one movie, or one movie
/// with more than one file.
pub open spec fn bag_reported(b: Multiset<Movie>) -> bool {
    b.len() > 1 || (b.len() == 1 && exists|m: Movie| b.contains(m) && has_multiple_sources(m.media_sources))
}

/// Each group taken as a multiset of movies.
pub open spec fn report_bags(out: Seq<Seq<Movie>>) -> Seq<Multiset<Movie>> {
    out.map_values(|g: Seq<Movie>| g.to_multiset())
}

/// The reported groups, each taken as a multiset of movies, as a multiset.
pub open spec fn group_bags(out: Seq<Seq<Movie>>) -> Multiset<Multiset<Movie>> {
    report_bags(out).to_multiset()
}

proof fn lemma_filter_count(s: Seq<Movie>, p: spec_fn(Movie) -> bool, x: Movie)
    ensures
        s.filter(p).to_multiset().count(x) == if p(x) {
            s.to_multiset().count(x)
        } else {
            0
        },
    decreases s.len(),
{
    broadcast use vstd::multiset::group_multiset_axioms;

    reveal(Seq::filter);
    if s.len() == 0 {
        s.to_multiset_ensures();
        assert(s.filter(p) =~= s);
    } else {
        let r = s.drop_last();
        lemma_filter_count(r, p, x);
        assert(r.push(s.last()) =~= s);
        vstd::seq_lib::to_multiset_build(r, s.last());
        vstd::seq_lib::to_multiset_build(r.filter(p), s.last());
    }
}

proof fn lemma_filter_bags_equal(s1: Seq<Movie>, s2: Seq<Movie>, p: spec_fn(Movie) -> bool)
    requires
        s1.to_multiset() == s2.to_multiset(),
    ensures
        s1.filter(p).to_multiset() == s2.filter(p).to_multiset(),
{
    assert forall|x: Movie| s1.filter(p).to_multiset().count(x) == s2.filter(p).to_multiset().count(x) by {
        lemma_filter_count(s1, p, x);
        lemma_filter_count(s2, p, x);
    }
    assert(s1.filter(p).to_multiset() =~= s2.filter(p).to_multiset());
}

proof fn lemma_leader_of_leader(s: Seq<Movie>, j: int)
    requires
        0 <= j < s.len(),
    ensures
        0 <= title_leader(s, j) <= j,
        title_key(s[title_leader(s, j)]) == title_key(s[j]),
        title_leader(s, title_leader(s, j)) == title_leader(s, j),
{
    lemma_first_related(s, title_relation(), j, 0);
    let r = title_leader(s, j);
    lemma_first_related(s, title_relation(), r, 0);
    let r2 = title_leader(s, r);
    if r2 < r {
        assert(same_title(s[r2], s[r]));
        assert(!same_title(s[r2], s[j]));
    }
}

proof fn lemma_leader_group_bag(s: Seq<Movie>, i: int)
    requires
        0 <= i < s.len() <= usize::MAX,
        title_leader(s, i) == i,
    ensures
        movie_group(s, i).to_multiset() == title_bag(s, title_key(s[i])),
        is_reported_movie(s, i) <==> bag_reported(title_bag(s, title_key(s[i]))),
{
    broadcast use vstd::seq_lib::group_to_multiset_ensures;

    lemma_title_group_is_filter(s, i);
    let p1 = |m: Movie| same_title(m, s[i]);
    let p2 = |m: Movie| title_key(m) == title_key(s[i]);
    assert(p1 =~= p2);
    let g = movie_group(s, i);
    let b = title_bag(s, title_key(s[i]));
    assert(g == s.filter(p2));
    assert(g.to_multiset() == b);
    lemma_filter_count(s, p2, s[i]);
    assert(s.contains(s[i]));
    assert(b.count(s[i]) > 0);
    assert(g.contains(s[i]));
    assert(g.len() == b.len());
    assert(b.contains(s[i]));
    if g.len() == 1 {
        assert(g[0] == s[i]);
        assert forall|m: Movie| b.contains(m) implies m == s[i] by {
            assert(g.contains(m));
        }
    }
}

proof fn lemma_report_bags(s: Seq<Movie>, out: Seq<Seq<Movie>>)
    requires
        s.len() <= usize::MAX,
        is_duplicate_movie_report(s, out),
    ensures
        report_bags(out).no_duplicates(),
        forall|x: Multiset<Movie>|
            #[trigger] report_bags(out).contains(x) <==> exists|j: int|
                0 <= j < s.len() && x == title_bag(s, title_key(#[trigger] s[j])) && bag_reported(x),
{
    broadcast use vstd::seq_lib::group_to_multiset_ensures;

    let idx = choose|idx: Seq<usize>|
        {
            &&& forall|k: int| 0 <= k < idx.len() ==> is_reported_movie(s, #[trigger] idx[k] as int)
            &&& forall|i: int| is_reported_movie(s, i) ==> lists(idx, i)
            &&& forall|k: int, l: int| 0 <= k < l < idx.len() ==> #[trigger] idx[k] < #[trigger] idx[l]
            &&& out.len() == idx.len()
            &&& forall|k: int| 0 <= k < idx.len() ==> #[trigger] out[k] == movie_group(s, idx[k] as int)
        };
    let bags = report_bags(out);
    assert forall|k: int| 0 <= k < bags.len() implies #[trigger] bags[k] == title_bag(s, title_key(s[idx[k] as int]))
        && bag_reported(bags[k]) by {
        assert(is_reported_movie(s, idx[k] as int));
        lemma_leader_group_bag(s, idx[k] as int);
    }
    assert forall|k: int, l: int| 0 <= k < bags.len() && 0 <= l < bags.len() && k != l implies bags[k] != bags[l] by {
        let (a, c) = if k < l { (k, l) } else { (l, k) };
        let ia = idx[a] as int;
        let ic = idx[c] as int;
        assert(ia < ic);
        assert(is_reported_movie(s, ic));
        lemma_first_related(s, title_relation(), ic, 0);
        assert(!same_title(s[ia], s[ic]));
        let pa = |m: Movie| title_key(m) == title_key(s[ia]);
        let pc = |m: Movie| title_key(m) == title_key(s[ic]);
        lemma_filter_count(s, pa, s[ia]);
        lemma_filter_count(s, pc, s[ia]);
        assert(s.contains(s[ia]));
        assert(bags[a].count(s[ia]) > 0);
        assert(bags[c].count(s[ia]) == 0);
    }
    assert forall|x: Multiset<Movie>| #[trigger] bags.contains(x) <==> exists|j: int|
        0 <= j < s.len() && x == title_bag(s, title_key(#[trigger] s[j])) && bag_reported(x) by {
        if bags.contains(x) {
            let k = choose|k: int| 0 <= k < bags.len() && bags[k] == x;
            let j = idx[k] as int;
            assert(x == title_bag(s, title_key(s[j])) && bag_reported(x));
        }
        if exists|j: int| 0 <= j < s.len() && x == title_bag(s, title_key(#[trigger] s[j])) && bag_reported(x) {
            let j = choose|j: int| 0 <= j < s.len() && x == title_bag(s, title_key(#[trigger] s[j])) && bag_reported(x);
            lemma_leader_of_leader(s, j);
            let r = title_leader(s, j);
            lemma_leader_group_bag(s, r);
            assert(is_reported_movie(s, r));
            let k = choose|k: int| 0 <= k < idx.len() && #[trigger] idx[k] == r;
            assert(bags[k] == x);
        }
    }
}

/// The order of the input does not matter: two lists of the same movies in
/// any order give the same groups, each with the same movies; only the order
/// of the groups and of the movies within a group can differ.
pub proof fn lemma_movie_report_ignores_input_order(
    s1: Seq<Movie>,
    s2: Seq<Movie>,
    out1: Seq<Seq<Movie>>,
    out2: Seq<Seq<Movie>>,
)
    requires
        s1.len() <= usize::MAX,
        s1.to_multiset() == s2.to_multiset(),
        is_duplicate_movie_report(s1, out1),
        is_duplicate_movie_report(s2, out2),
    ensures
        group_bags(out1) == group_bags(out2),
{
    broadcast use vstd::seq_lib::group_to_multiset_ensures;

    s1.to_multiset_ensures();
    s2.to_multiset_ensures();
    assert(s1.len() == s2.len()) by {
        assert(s1.to_multiset().len() == s2.to_multiset().len());
    }
    lemma_report_bags(s1, out1);
    lemma_report_bags(s2, out2);
    let b1 = report_bags(out1);
    let b2 = report_bags(out2);
    assert forall|k: (Seq<char>, Option<u32>)| title_bag(s1, k) == title_bag(s2, k) by {
        lemma_filter_bags_equal(s1, s2, |m: Movie| title_key(m) == k);
    }
    assert forall|x: Multiset<Movie>| #[trigger] b1.contains(x) <==> b2.contains(x) by {
        if b1.contains(x) {
            let j = choose|j: int| 0 <= j < s1.len() && x == title_bag(s1, title_key(#[trigger] s1[j])) && bag_reported(x);
            assert(s1.contains(s1[j]));
            assert(s1.to_multiset().count(s1[j]) > 0);
            assert(s2.to_multiset().count(s1[j]) > 0);
            assert(s2.contains(s1[j]));
            let j2 = choose|j2: int| 0 <= j2 < s2.len() && s2[j2] == s1[j];
            assert(x == title_bag(s2, title_key(s2[j2])));
        }
        if b2.contains(x) {
            let j = choose|j: int| 0 <= j < s2.len() && x == title_bag(s2, title_key(#[trigger] s2[j])) && bag_reported(x);
            assert(s2.contains(s2[j]));
            assert(s2.to_multiset().count(s2[j]) > 0);
            assert(s1.to_multiset().count(s2[j]) > 0);
            assert(s1.contains(s2[j]));
            let j1 = choose|j1: int| 0 <= j1 < s1.len() && s1[j1] == s2[j];
            assert(x == title_bag(s1, title_key(s1[j1])));
        }
    }
    b1.lemma_multiset_has_no_duplicates();
    b2.lemma_multiset_has_no_duplicates();
    assert forall|x: Multiset<Movie>| b1.to_multiset().count(x) == b2.to_multiset().count(x) by {
        if b1.contains(x) {
            assert(b1.to_multiset().contains(x));
            assert(b2.to_multiset().contains(x));
        } else {
            assert(!b1.to_multiset().contains(x));
            assert(!b2.to_multiset().contains(x));
        }
    }
    assert(b1.to_multiset() =~= b2.to_multiset());
}

} // verus!
