//! What to show for each group of duplicates and which files to remove.
use vstd::prelude::*;
use vstd::string::*;

use crate::models::{Episode, FileToDelete, MediaSource, Movie};
use crate::selector::{
    declared_height, get_declared_height, get_codec, is_first_best, outranks, select_best_source,
    video_codec,
};
use crate::text::{append_decimal, append_signed_decimal, decimal, signed_decimal};

verus! {

// ------------------------------------------------------------ sources

/// The sources of several items, one list after the other (a missing list
/// counts as empty).
pub open spec fn flatten_sources(lists: Seq<Option<Vec<MediaSource>>>) -> Seq<MediaSource>
    decreases lists.len(),
{
    if lists.len() == 0 {
        Seq::empty()
    } else {
        let rest = flatten_sources(lists.drop_last());
        match lists.last() {
            Some(v) => rest + v@,
            None => rest,
        }
    }
}

/// The source has the path `p`.
pub open spec fn has_path(source: MediaSource, p: Seq<char>) -> bool {
    source.path matches Some(q) && q@ == p
}

/// Some source of `kept` has the path `p`.
pub open spec fn path_taken(kept: Seq<MediaSource>, p: Seq<char>) -> bool {
    exists|k: int| 0 <= k < kept.len() && has_path(#[trigger] kept[k], p)
}

/// The sources that have a path, keeping only the first source of each path.
pub open spec fn unique_by_path(s: Seq<MediaSource>) -> Seq<MediaSource>
    decreases s.len(),
{
    if s.len() == 0 {
        Seq::empty()
    } else {
        let kept = unique_by_path(s.drop_last());
        match s.last().path {
            Some(p) => if path_taken(kept, p@) {
                kept
            } else {
                kept.push(s.last())
            },
            None => kept,
        }
    }
}

fn path_is_taken(kept: &Vec<MediaSource>, p: &String) -> (res: bool)
    ensures
        res == path_taken(kept@, p@),
{
    let n = kept.len();
    let mut k: usize = 0;
    while k < n
        invariant
            k <= n,
            n == kept@.len(),
            forall|q: int| 0 <= q < k ==> !has_path(#[trigger] kept@[q], p@),
        decreases n - k,
    {
        match &kept[k].path {
            Some(r) => {
                if *r == *p {
                    assert(has_path(kept@[k as int], p@));
                    return true;
                }
            },
            None => {},
        }
        k = k + 1;
    }
    false
}

/// Flattens media sources from several items into one list, skipping sources
/// without a path and sources whose path was seen before.
pub fn collect_unique_sources(lists: Vec<Option<Vec<MediaSource>>>) -> (all_sources: Vec<
    MediaSource,
>)
    ensures
        all_sources@ == unique_by_path(flatten_sources(lists@)),
{
    let ghost ls = lists@;
    let n = lists.len();
    let mut rest = lists;
    let mut all_sources: Vec<MediaSource> = Vec::new();
    let mut i: usize = 0;
    assert(ls.take(0) =~= Seq::<Option<Vec<MediaSource>>>::empty());
    while i < n
        invariant
            i <= n,
            n == ls.len(),
            rest@ == ls.skip(i as int),
            all_sources@ == unique_by_path(flatten_sources(ls.take(i as int))),
        decreases n - i,
    {
        let entry = rest.remove(0);
        assert(ls.skip(i as int).remove(0) =~= ls.skip(i + 1));
        assert(ls.take(i + 1).drop_last() =~= ls.take(i as int));
        assert(entry == ls[i as int]);
        match entry {
            Some(sources) => {
                let ghost vs = sources@;
                let ghost base = flatten_sources(ls.take(i as int));
                let m = sources.len();
                let mut items = sources;
                let mut j: usize = 0;
                assert(base + vs.take(0) =~= base);
                while j < m
                    invariant
                        j <= m,
                        m == vs.len(),
                        items@ == vs.skip(j as int),
                        all_sources@ == unique_by_path(base + vs.take(j as int)),
                    decreases m - j,
                {
                    let source = items.remove(0);
                    assert(vs.skip(j as int).remove(0) =~= vs.skip(j + 1));
                    assert((base + vs.take(j + 1)).drop_last() =~= base + vs.take(j as int));
                    assert((base + vs.take(j + 1)).last() == source);
                    let keep = match &source.path {
                        Some(p) => !path_is_taken(&all_sources, p),
                        None => false,
                    };
                    if keep {
                        all_sources.push(source);
                    }
                    j = j + 1;
                }
                assert(vs.take(m as int) =~= vs);
            },
            None => {},
        }
        i = i + 1;
    }
    assert(ls.take(n as int) =~= ls);
    all_sources
}

/// The path of a source as text (empty where it has none).
pub open spec fn path_text(source: MediaSource) -> Seq<char> {
    match source.path {
        Some(p) => p@,
        None => Seq::empty(),
    }
}

/// Every kept source has a path, no two kept sources share a path, every
/// path of the input is kept, and each kept source is the first source of
/// the input with its path.
pub proof fn lemma_unique_by_path(s: Seq<MediaSource>)
    ensures
        forall|k: int| 0 <= k < unique_by_path(s).len() ==> (#[trigger] unique_by_path(s)[k]).path is Some,
        forall|k: int, l: int|
            0 <= k < l < unique_by_path(s).len() ==> path_text(#[trigger] unique_by_path(s)[k]) != path_text(
                #[trigger] unique_by_path(s)[l],
            ),
        forall|i: int| 0 <= i < s.len() && (#[trigger] s[i]).path is Some ==> path_taken(unique_by_path(s), path_text(s[i])),
        forall|k: int|
            0 <= k < unique_by_path(s).len() ==> exists|i: int|
                0 <= i < s.len() && s[i] == #[trigger] unique_by_path(s)[k] && forall|j: int|
                    0 <= j < i ==> !has_path(#[trigger] s[j], path_text(s[i])),
    decreases s.len(),
{
    if s.len() > 0 {
        let r = s.drop_last();
        lemma_unique_by_path(r);
        let u0 = unique_by_path(r);
        let u = unique_by_path(s);
        let x = s.last();
        let n = s.len() - 1;
        assert forall|i: int| 0 <= i < s.len() && (#[trigger] s[i]).path is Some implies path_taken(u, path_text(s[i])) by {
            if i < n {
                assert(r[i] == s[i]);
                let k = choose|k: int| 0 <= k < u0.len() && has_path(#[trigger] u0[k], path_text(r[i]));
                if u != u0 {
                    assert(u[k] == u0[k]);
                }
            } else {
                if u != u0 {
                    assert(u[u0.len() as int] == x);
                }
            }
        }
        assert forall|k: int| 0 <= k < u.len() implies exists|i: int|
            0 <= i < s.len() && s[i] == #[trigger] u[k] && forall|j: int|
                0 <= j < i ==> !has_path(#[trigger] s[j], path_text(s[i])) by {
            if k < u0.len() {
                assert(u[k] == u0[k]);
                let i = choose|i: int|
                    0 <= i < r.len() && r[i] == #[trigger] u0[k] && forall|j: int|
                        0 <= j < i ==> !has_path(#[trigger] r[j], path_text(r[i]));
                assert(s[i] == r[i]);
                assert forall|j: int| 0 <= j < i implies !has_path(#[trigger] s[j], path_text(s[i])) by {
                    assert(s[j] == r[j]);
                }
            } else {
                assert(u[k] == x);
                assert(s[n] == x);
                assert forall|j: int| 0 <= j < n implies !has_path(#[trigger] s[j], path_text(s[n])) by {
                    assert(s[j] == r[j]);
                    if has_path(r[j], path_text(x)) {
                        assert(path_taken(u0, path_text(r[j])));
                    }
                }
            }
        }
        if u != u0 {
            assert forall|k: int, l: int| 0 <= k < l < u.len() implies path_text(#[trigger] u[k]) != path_text(#[trigger] u[l]) by {
                assert(u[k] == u0[k]);
                if l < u0.len() {
                    assert(u[l] == u0[l]);
                } else {
                    assert(u[l] == x);
                    if path_text(u0[k]) == path_text(x) {
                        assert(has_path(u0[k], path_text(x)));
                    }
                }
            }
        }
    }
}

/// Sources that all have different paths.
pub open spec fn distinct_paths(s: Seq<MediaSource>) -> bool {
    &&& forall|k: int| 0 <= k < s.len() ==> (#[trigger] s[k]).path is Some
    &&& forall|k: int, l: int| 0 <= k < l < s.len() ==> path_text(#[trigger] s[k]) != path_text(#[trigger] s[l])
}

/// Among versions with different paths, every version but the kept one is
/// marked for removal, and the kept file is never marked.
pub proof fn lemma_plan_removes_all_but_kept(s: Seq<MediaSource>, best: int, upto: int)
    requires
        distinct_paths(s),
        0 <= best < s.len(),
        0 <= upto <= s.len(),
    ensures
        deletions(s, best, upto).len() == (if best < upto {
            upto - 1
        } else {
            upto
        }),
        forall|k: int| 0 <= k < deletions(s, best, upto).len() ==> (#[trigger] deletions(s, best, upto)[k]).path@ != path_text(s[best]),
    decreases upto,
{
    if upto > 0 {
        lemma_plan_removes_all_but_kept(s, best, upto - 1);
        let j = upto - 1;
        assert(s[j].path is Some);
        if j != best {
            if j < best {
                assert(path_text(s[j]) != path_text(s[best]));
            } else {
                assert(path_text(s[best]) != path_text(s[j]));
            }
        }
        let prev = deletions(s, best, upto - 1);
        let d = deletions(s, best, upto);
        assert forall|k: int| 0 <= k < d.len() implies (#[trigger] d[k]).path@ != path_text(s[best]) by {
            if k < prev.len() {
                assert(d[k] == prev[k]);
            }
        }
    }
}

/// Every source of every list is in the flattened list (a missing list
/// adds nothing), nothing else is, and the first list comes first.
pub proof fn lemma_flatten_sources(lists: Seq<Option<Vec<MediaSource>>>)
    ensures
        forall|i: int, j: int|
            0 <= i < lists.len() && lists[i] is Some && 0 <= j < lists[i]->0@.len()
                ==> #[trigger] flatten_sources(lists).contains(#[trigger] lists[i]->0@[j]),
        forall|k: int|
            #![trigger flatten_sources(lists)[k]]
            0 <= k < flatten_sources(lists).len() ==> exists|i: int|
                0 <= i < lists.len() && (#[trigger] lists[i]) is Some && lists[i]->0@.contains(
                    flatten_sources(lists)[k],
                ),
        lists.len() > 0 ==> flatten_sources(lists.take(1)) == (match lists[0] {
            Some(v) => v@,
            None => Seq::<MediaSource>::empty(),
        }),
    decreases lists.len(),
{
    if lists.len() > 0 {
        let rest = lists.drop_last();
        lemma_flatten_sources(rest);
        let fr = flatten_sources(rest);
        let f = flatten_sources(lists);
        assert forall|i: int, j: int|
            0 <= i < lists.len() && lists[i] is Some && 0 <= j < lists[i]->0@.len()
                implies #[trigger] f.contains(#[trigger] lists[i]->0@[j]) by {
            let v = lists[i]->0;
            if i < rest.len() {
                assert(rest[i] == lists[i]);
                assert(fr.contains(rest[i]->0@[j]));
                let k = choose|k: int| 0 <= k < fr.len() && fr[k] == v@[j];
                assert(f[k] == fr[k]);
            } else {
                assert(f == fr + v@);
                assert(f[fr.len() + j] == v@[j]);
            }
        }
        assert forall|k: int| #![trigger f[k]] 0 <= k < f.len() implies exists|i: int|
            0 <= i < lists.len() && (#[trigger] lists[i]) is Some && lists[i]->0@.contains(f[k]) by {
            if k < fr.len() {
                assert(f[k] == fr[k]);
                let i = choose|i: int|
                    0 <= i < rest.len() && (#[trigger] rest[i]) is Some && rest[i]->0@.contains(fr[k]);
                assert(rest[i] == lists[i]);
            } else {
                let v = lists.last()->0;
                assert(f == fr + v@);
                assert(v@[k - fr.len()] == f[k]);
                assert(lists[lists.len() - 1] == lists.last());
            }
        }
        let one = lists.take(1);
        assert(one.drop_last() =~= Seq::<Option<Vec<MediaSource>>>::empty());
        assert(flatten_sources(one.drop_last()) == Seq::<MediaSource>::empty());
        assert(one.len() == 1);
        assert(one.last() == lists[0]);
        if lists[0] is Some {
            assert(Seq::<MediaSource>::empty() + lists[0]->0@ =~= lists[0]->0@);
        }
    }
}

/// The files to remove when `best` is kept: each other source with a path
/// gives one, with that path and its size (0 where unknown), and each file
/// listed comes from such a source.
pub proof fn lemma_deletions_are_other_sources(s: Seq<MediaSource>, best: int, upto: int)
    requires
        0 <= upto <= s.len(),
    ensures
        forall|j: int|
            0 <= j < upto && j != best && (#[trigger] s[j]).path is Some ==> exists|k: int|
                0 <= k < deletions(s, best, upto).len() && (#[trigger] deletions(s, best, upto)[k]).path
                    == s[j].path->0 && deletions(s, best, upto)[k].size == s[j].size.unwrap_or(0),
        forall|k: int|
            #![trigger deletions(s, best, upto)[k]]
            0 <= k < deletions(s, best, upto).len() ==> exists|j: int|
                0 <= j < upto && j != best && (#[trigger] s[j]).path == Some(
                    deletions(s, best, upto)[k].path,
                ) && deletions(s, best, upto)[k].size == s[j].size.unwrap_or(0),
        deletions(s, best, upto).len() <= upto,
    decreases upto,
{
    if upto > 0 {
        lemma_deletions_are_other_sources(s, best, upto - 1);
        let prev = deletions(s, best, upto - 1);
        let d = deletions(s, best, upto);
        let last = upto - 1;
        assert forall|j: int|
            0 <= j < upto && j != best && (#[trigger] s[j]).path is Some implies exists|k: int|
                0 <= k < d.len() && (#[trigger] d[k]).path == s[j].path->0 && d[k].size == s[j].size.unwrap_or(0) by {
            if j < last {
                let p = s[j].path->0;
                let k = choose|k: int|
                    0 <= k < prev.len() && (#[trigger] prev[k]).path == p && prev[k].size == s[j].size.unwrap_or(0);
                assert(d[k] == prev[k]);
            } else {
                assert(d[prev.len() as int].path == s[j].path->0);
            }
        }
        assert forall|k: int| #![trigger d[k]] 0 <= k < d.len() implies exists|j: int|
            0 <= j < upto && j != best && (#[trigger] s[j]).path == Some(d[k].path) && d[k].size == s[j].size.unwrap_or(0) by {
            if k < prev.len() {
                assert(d[k] == prev[k]);
                let j = choose|j: int|
                    0 <= j < upto - 1 && j != best && (#[trigger] s[j]).path == Some(prev[k].path) && prev[k].size == s[j].size.unwrap_or(0);
            } else {
                assert(s[last].path == Some(d[k].path));
            }
        }
    }
}

// ------------------------------------------------------------ versions

/// The files to remove among `s` when `best` is kept: every other source
/// that has a path, in order, with its size (0 where unknown).
pub open spec fn deletions(s: Seq<MediaSource>, best: int, upto: int) -> Seq<FileToDelete>
    decreases upto,
{
    if upto <= 0 {
        Seq::empty()
    } else {
        let prev = deletions(s, best, upto - 1);
        let j = upto - 1;
        match s[j].path {
            Some(p) => if j != best {
                prev.push(
                    FileToDelete {
                        path: p,
                        size: match s[j].size {
                            Some(z) => z,
                            None => 0,
                        },
                    },
                )
            } else {
                prev
            },
            None => prev,
        }
    }
}

/// Which version of a media is kept and which files go.
pub struct VersionPlan {
    /// The index of the version kept; `None` where there is no version.
    pub selected: Option<usize>,
    /// The other versions that have a path, in order.
    pub to_delete: Vec<FileToDelete>,
}

/// `plan` keeps the first best of `sources` and removes the others.
pub open spec fn is_version_plan(sources: Seq<MediaSource>, plan: VersionPlan) -> bool {
    match plan.selected {
        None => sources.len() == 0 && plan.to_delete@.len() == 0,
        Some(b) => is_first_best(sources, b as int) && plan.to_delete@ == deletions(
            sources,
            b as int,
            sources.len() as int,
        ),
    }
}

/// Marks the best version as selected and the rest for deletion.
pub fn plan_versions(media_sources: &[MediaSource]) -> (plan: VersionPlan)
    ensures
        is_version_plan(media_sources@, plan),
{
    let mut files_to_delete: Vec<FileToDelete> = Vec::new();
    let best = select_best_source(media_sources);
    match best {
        Some(best_idx) => {
            let n = media_sources.len();
            let mut idx: usize = 0;
            while idx < n
                invariant
                    idx <= n,
                    n == media_sources@.len(),
                    files_to_delete@ == deletions(media_sources@, best_idx as int, idx as int),
                decreases n - idx,
            {
                if idx != best_idx {
                    match &media_sources[idx].path {
                        Some(path) => {
                            let size = match media_sources[idx].size {
                                Some(z) => z,
                                None => 0,
                            };
                            files_to_delete.push(FileToDelete { path: path.clone(), size });
                        },
                        None => {},
                    }
                }
                idx = idx + 1;
            }
        },
        None => {},
    }
    VersionPlan { selected: best, to_delete: files_to_delete }
}

// ------------------------------------------------------------ episodes

/// The name of the first episode that carries one.
pub open spec fn first_episode_name(group: Seq<Episode>) -> Option<String>
    decreases group.len(),
{
    if group.len() == 0 {
        None
    } else {
        match group[0].name {
            Some(n) => Some(n),
            None => first_episode_name(group.drop_first()),
        }
    }
}

/// The name shown for a group of episodes.
pub open spec fn episode_title(group: Seq<Episode>) -> Seq<char> {
    match first_episode_name(group) {
        Some(n) => n@,
        None => "Unknown Episode"@,
    }
}

/// The source lists of the episodes of a group, in order.
pub open spec fn episode_source_lists(group: Seq<Episode>) -> Seq<Option<Vec<MediaSource>>> {
    group.map_values(|e: Episode| e.media_sources)
}

/// What is shown for one group of episodes of the same slot.
pub struct EpisodeReport {
    /// Season number of the first episode (0 where unknown).
    pub season: u32,
    /// Episode number of the first episode (0 where unknown).
    pub episode: u32,
    /// The first name any episode of the group carries, or "Unknown Episode".
    pub name: String,
    /// The files of all episodes of the group, one per path.
    pub sources: Vec<MediaSource>,
    /// Which of `sources` is kept and which files go.
    pub plan: VersionPlan,
}

/// `r` is the report of a non-empty group of episodes.
pub open spec fn is_episode_report(group: Seq<Episode>, r: EpisodeReport) -> bool {
    &&& group.len() > 0
    &&& r.season == (match group[0].season_number {
        Some(x) => x,
        None => 0,
    })
    &&& r.episode == (match group[0].episode_number {
        Some(x) => x,
        None => 0,
    })
    &&& r.name@ == episode_title(group)
    &&& r.sources@ == unique_by_path(flatten_sources(episode_source_lists(group)))
    &&& is_version_plan(r.sources@, r.plan)
}

proof fn lemma_first_episode_name_at(group: Seq<Episode>, i: int)
    requires
        0 <= i < group.len(),
        group[i].name is Some,
        forall|j: int| 0 <= j < i ==> (#[trigger] group[j]).name is None,
    ensures
        first_episode_name(group) == group[i].name,
    decreases i,
{
    if i > 0 {
        let rest = group.drop_first();
        assert forall|j: int| 0 <= j < i - 1 implies (#[trigger] rest[j]).name is None by {
            assert(group[j + 1].name is None);
        }
        assert(group[0].name is None);
        lemma_first_episode_name_at(rest, i - 1);
    }
}

proof fn lemma_first_episode_name_none(group: Seq<Episode>)
    requires
        forall|j: int| 0 <= j < group.len() ==> (#[trigger] group[j]).name is None,
    ensures
        first_episode_name(group) is None,
    decreases group.len(),
{
    if group.len() > 0 {
        let rest = group.drop_first();
        assert forall|j: int| 0 <= j < rest.len() implies (#[trigger] rest[j]).name is None by {
            assert(group[j + 1].name is None);
        }
        assert(group[0].name is None);
        lemma_first_episode_name_none(rest);
    }
}

/// The name shown for a group of episodes is the name of its first episode
/// (in group order) that carries one, and "Unknown Episode" where none does.
pub proof fn lemma_episode_report_name(group: Seq<Episode>, r: EpisodeReport, i: int)
    requires
        is_episode_report(group, r),
    ensures
        0 <= i < group.len() && (group[i].name matches Some(n) && forall|j: int|
            0 <= j < i ==> (#[trigger] group[j]).name is None) ==> r.name@ == group[i].name->0@,
        (forall|j: int| 0 <= j < group.len() ==> (#[trigger] group[j]).name is None) ==> r.name@
            == "Unknown Episode"@,
{
    if 0 <= i < group.len() && group[i].name is Some && forall|j: int|
        0 <= j < i ==> (#[trigger] group[j]).name is None {
        lemma_first_episode_name_at(group, i);
    }
    if forall|j: int| 0 <= j < group.len() ==> (#[trigger] group[j]).name is None {
        lemma_first_episode_name_none(group);
    }
}

fn find_episode_name(group: &Vec<Episode>) -> (res: Option<String>)
    ensures
        res == first_episode_name(group@),
{
    let n = group.len();
    let mut i: usize = 0;
    assert(group@.skip(0) =~= group@);
    while i < n
        invariant
            i <= n,
            n == group@.len(),
            first_episode_name(group@) == first_episode_name(group@.skip(i as int)),
        decreases n - i,
    {
        assert(group@.skip(i as int)[0] == group@[i as int]);
        assert(group@.skip(i as int).drop_first() =~= group@.skip(i + 1));
        match &group[i].name {
            Some(name) => {
                return Some(name.clone());
            },
            None => {},
        }
        i = i + 1;
    }
    None
}

/// Builds the report of a group of episodes; `None` for an empty group.
pub fn episode_report(group: Vec<Episode>) -> (res: Option<EpisodeReport>)
    ensures
        res is None <==> group@.len() == 0,
        res matches Some(r) ==> is_episode_report(group@, r),
{
    if group.len() == 0 {
        return None;
    }
    let season = match group[0].season_number {
        Some(x) => x,
        None => 0,
    };
    let episode = match group[0].episode_number {
        Some(x) => x,
        None => 0,
    };
    let name = match find_episode_name(&group) {
        Some(n) => n,
        None => String::from_str("Unknown Episode"),
    };
    let ghost g = group@;
    let n = group.len();
    let mut rest = group;
    let mut lists: Vec<Option<Vec<MediaSource>>> = Vec::new();
    let mut i: usize = 0;
    while i < n
        invariant
            i <= n,
            n == g.len(),
            rest@ == g.skip(i as int),
            lists@ == episode_source_lists(g.take(i as int)),
        decreases n - i,
    {
        let e = rest.remove(0);
        assert(g.skip(i as int).remove(0) =~= g.skip(i + 1));
        assert(e == g[i as int]);
        lists.push(e.media_sources);
        assert(lists@ =~= episode_source_lists(g.take(i + 1)));
        i = i + 1;
    }
    assert(g.take(n as int) =~= g);
    let sources = collect_unique_sources(lists);
    let plan = plan_versions(sources.as_slice());
    Some(EpisodeReport { season, episode, name, sources, plan })
}

/// The files of several reports, one report after the other.
pub open spec fn episode_report_files(reports: Seq<EpisodeReport>) -> Seq<FileToDelete>
    decreases reports.len(),
{
    if reports.len() == 0 {
        Seq::empty()
    } else {
        episode_report_files(reports.drop_last()) + reports.last().plan.to_delete@
    }
}

/// The groups of duplicate episodes of one show, and the files to remove.
pub struct ShowPlan {
    /// One report per non-empty group, in order.
    pub reports: Vec<EpisodeReport>,
    /// The files to remove, report after report.
    pub files_to_delete: Vec<FileToDelete>,
}

/// The non-empty groups among `groups`.
pub open spec fn non_empty_groups<T>(groups: Seq<Seq<T>>) -> Seq<Seq<T>> {
    groups.filter(|g: Seq<T>| g.len() > 0)
}


fn append_files(out: &mut Vec<FileToDelete>, files: &Vec<FileToDelete>)
    ensures
        final(out)@ == old(out)@ + files@,
{
    let n = files.len();
    let mut i: usize = 0;
    while i < n
        invariant
            i <= n,
            n == files@.len(),
            out@ == old(out)@ + files@.take(i as int),
        decreases n - i,
    {
        out.push(files[i].copy());
        assert(old(out)@ + files@.take(i + 1) =~= old(out)@ + files@.take(i as int) + seq![files@[i as int]]);
        i = i + 1;
    }
    assert(files@.take(n as int) =~= files@);
}

/// Builds the report of every group of duplicate episodes of a show, and
/// lists the files to remove.
pub fn plan_show(episode_groups: Vec<Vec<Episode>>) -> (plan: ShowPlan)
    ensures
        plan.reports@.len() == non_empty_groups(episode_groups@.map_values(|g: Vec<Episode>| g@)).len(),
        forall|k: int|
            0 <= k < plan.reports@.len() ==> is_episode_report(
                non_empty_groups(episode_groups@.map_values(|g: Vec<Episode>| g@))[k],
                #[trigger] plan.reports@[k],
            ),
        plan.files_to_delete@ == episode_report_files(plan.reports@),
{
    let ghost gs = episode_groups@.map_values(|g: Vec<Episode>| g@);
    let n = episode_groups.len();
    let mut rest = episode_groups;
    let mut reports: Vec<EpisodeReport> = Vec::new();
    let mut files: Vec<FileToDelete> = Vec::new();
    let mut i: usize = 0;
    while i < n
        invariant
            i <= n,
            n == gs.len(),
            rest@.len() == n - i,
            forall|q: int| 0 <= q < rest@.len() ==> (#[trigger] rest@[q])@ == gs[q + i],
            reports@.len() == non_empty_groups(gs.take(i as int)).len(),
            forall|k: int|
                0 <= k < reports@.len() ==> is_episode_report(
                    non_empty_groups(gs.take(i as int))[k],
                    #[trigger] reports@[k],
                ),
            files@ == episode_report_files(reports@),
        decreases n - i,
    {
        let group = rest.remove(0);
        assert(group@ == gs[i as int]);
        proof {
            reveal(Seq::filter);
            assert(gs.take(i + 1).drop_last() =~= gs.take(i as int));
        }
        let ghost before = reports@;
        match episode_report(group) {
            Some(r) => {
                append_files(&mut files, &r.plan.to_delete);
                reports.push(r);
                assert(reports@.drop_last() =~= before);
            },
            None => {},
        }
        i = i + 1;
    }
    assert(gs.take(n as int) =~= gs);
    ShowPlan { reports, files_to_delete: files }
}

// ------------------------------------------------------------ movies

/// The title shown for a movie: "name (year)", or the name alone.
pub open spec fn movie_title(m: Movie) -> Seq<char> {
    match m.year {
        Some(y) => m.name@ + " ("@ + decimal(y as nat) + ")"@,
        None => m.name@,
    }
}

/// Formats the title of a movie as "name (year)", or the name alone.
pub fn format_movie_title(movie: &Movie) -> (res: String)
    ensures
        res@ == movie_title(*movie),
{
    match movie.year {
        Some(year) => {
            let mut s = movie.name.clone();
            s.append(" (");
            append_decimal(&mut s, year);
            s.append(")");
            s
        },
        None => movie.name.clone(),
    }
}

/// What is shown for one group of copies of a movie.
pub struct MovieReport {
    /// The title of the first movie of the group.
    pub title: String,
    /// How many movies the group holds.
    pub copies: usize,
    /// The versions to show: for a lone movie its own sources (if it lists
    /// them); for several movies the files of all of them, one per path,
    /// where there is at least one.
    pub sources: Option<Vec<MediaSource>>,
    /// Which of `sources` is kept and which files go.
    pub plan: VersionPlan,
}

/// The source lists of the movies of a group, in order.
pub open spec fn movie_source_lists(group: Seq<Movie>) -> Seq<Option<Vec<MediaSource>>> {
    group.map_values(|m: Movie| m.media_sources)
}

/// `r` is the report of a non-empty group of movies.
pub open spec fn is_movie_report(group: Seq<Movie>, r: MovieReport) -> bool {
    &&& group.len() > 0
    &&& r.title@ == movie_title(group[0])
    &&& r.copies == group.len()
    &&& if group.len() == 1 {
        match (group[0].media_sources, r.sources) {
            (Some(v), Some(w)) => w@ == v@,
            (None, None) => true,
            _ => false,
        }
    } else {
        let all = unique_by_path(flatten_sources(movie_source_lists(group)));
        match r.sources {
            Some(w) => all.len() > 0 && w@ == all,
            None => all.len() == 0,
        }
    }
    &&& match r.sources {
        Some(w) => is_version_plan(w@, r.plan),
        None => r.plan.selected is None && r.plan.to_delete@.len() == 0,
    }
}

/// Builds the report of a group of movies; `None` for an empty group.
pub fn movie_report(movie_group: Vec<Movie>) -> (res: Option<MovieReport>)
    ensures
        res is None <==> movie_group@.len() == 0,
        res matches Some(r) ==> is_movie_report(movie_group@, r),
{
    if movie_group.len() == 0 {
        return None;
    }
    let title = format_movie_title(&movie_group[0]);
    let copies = movie_group.len();
    let ghost g = movie_group@;
    let sources: Option<Vec<MediaSource>> = if copies == 1 {
        let mut rest = movie_group;
        let movie = rest.remove(0);
        assert(movie == g[0]);
        movie.media_sources
    } else {
        let n = movie_group.len();
        let mut rest = movie_group;
        let mut lists: Vec<Option<Vec<MediaSource>>> = Vec::new();
        let mut i: usize = 0;
        while i < n
            invariant
                i <= n,
                n == g.len(),
                rest@ == g.skip(i as int),
                lists@ == movie_source_lists(g.take(i as int)),
            decreases n - i,
        {
            let m = rest.remove(0);
            assert(g.skip(i as int).remove(0) =~= g.skip(i + 1));
            assert(m == g[i as int]);
            lists.push(m.media_sources);
            assert(lists@ =~= movie_source_lists(g.take(i + 1)));
            i = i + 1;
        }
        assert(g.take(n as int) =~= g);
        let all_sources = collect_unique_sources(lists);
        if all_sources.len() > 0 {
            Some(all_sources)
        } else {
            None
        }
    };
    let plan = match &sources {
        Some(v) => plan_versions(v.as_slice()),
        None => VersionPlan { selected: None, to_delete: Vec::new() },
    };
    Some(MovieReport { title, copies, sources, plan })
}

/// The files of several movie reports, one report after the other.
pub open spec fn movie_report_files(reports: Seq<MovieReport>) -> Seq<FileToDelete>
    decreases reports.len(),
{
    if reports.len() == 0 {
        Seq::empty()
    } else {
        movie_report_files(reports.drop_last()) + reports.last().plan.to_delete@
    }
}

/// The groups of copies of movies, and the files to remove.
pub struct MoviesPlan {
    /// One report per non-empty group, in order.
    pub reports: Vec<MovieReport>,
    /// The files to remove, report after report.
    pub files_to_delete: Vec<FileToDelete>,
}

/// `plan` reports every non-empty group of `groups`, in order, and lists
/// their files to remove one report after the other.
pub open spec fn is_movies_plan(groups: Seq<Seq<Movie>>, plan: MoviesPlan) -> bool {
    &&& plan.reports@.len() == non_empty_groups(groups).len()
    &&& forall|k: int|
        0 <= k < plan.reports@.len() ==> is_movie_report(
            non_empty_groups(groups)[k],
            #[trigger] plan.reports@[k],
        )
    &&& plan.files_to_delete@ == movie_report_files(plan.reports@)
}

/// Builds the report of every group of copies of movies, and lists the files
/// to remove.
pub fn plan_movies(movie_groups: Vec<Vec<Movie>>) -> (plan: MoviesPlan)
    ensures
        is_movies_plan(movie_groups@.map_values(|g: Vec<Movie>| g@), plan),
{
    let ghost gs = movie_groups@.map_values(|g: Vec<Movie>| g@);
    let n = movie_groups.len();
    let mut rest = movie_groups;
    let mut reports: Vec<MovieReport> = Vec::new();
    let mut files: Vec<FileToDelete> = Vec::new();
    let mut i: usize = 0;
    while i < n
        invariant
            i <= n,
            n == gs.len(),
            rest@.len() == n - i,
            forall|q: int| 0 <= q < rest@.len() ==> (#[trigger] rest@[q])@ == gs[q + i],
            reports@.len() == non_empty_groups(gs.take(i as int)).len(),
            forall|k: int|
                0 <= k < reports@.len() ==> is_movie_report(
                    non_empty_groups(gs.take(i as int))[k],
                    #[trigger] reports@[k],
                ),
            files@ == movie_report_files(reports@),
        decreases n - i,
    {
        let group = rest.remove(0);
        assert(group@ == gs[i as int]);
        proof {
            reveal(Seq::filter);
            assert(gs.take(i + 1).drop_last() =~= gs.take(i as int));
        }
        let ghost before = reports@;
        match movie_report(group) {
            Some(r) => {
                append_files(&mut files, &r.plan.to_delete);
                reports.push(r);
                assert(reports@.drop_last() =~= before);
            },
            None => {},
        }
        i = i + 1;
    }
    assert(gs.take(n as int) =~= gs);
    MoviesPlan { reports, files_to_delete: files }
}

/// The versions shown for a group of movies (see `MovieReport::sources`).
pub open spec fn shown_sources(group: Seq<Movie>) -> Option<Seq<MediaSource>> {
    if group.len() == 1 {
        match group[0].media_sources {
            Some(v) => Some(v@),
            None => None,
        }
    } else {
        let all = unique_by_path(flatten_sources(movie_source_lists(group)));
        if all.len() > 0 {
            Some(all)
        } else {
            None
        }
    }
}

/// The files a group of movies has removed (none for an empty group).
pub open spec fn group_removals(group: Seq<Movie>) -> Seq<FileToDelete> {
    match shown_sources(group) {
        Some(w) => if w.len() > 0 {
            deletions(w, choose|b: int| is_first_best(w, b), w.len() as int)
        } else {
            Seq::empty()
        },
        None => Seq::empty(),
    }
}

/// The files several groups of movies have removed, group after group.
pub open spec fn removals_of(groups: Seq<Seq<Movie>>) -> Seq<FileToDelete>
    decreases groups.len(),
{
    if groups.len() == 0 {
        Seq::empty()
    } else {
        removals_of(groups.drop_last()) + group_removals(groups.last())
    }
}

proof fn lemma_first_best_unique(w: Seq<MediaSource>, b1: int, b2: int)
    requires
        is_first_best(w, b1),
        is_first_best(w, b2),
    ensures
        b1 == b2,
{
    if b1 < b2 {
        assert(outranks(w[b2], w[b1]));
    } else if b2 < b1 {
        assert(outranks(w[b1], w[b2]));
    }
}

proof fn lemma_movie_report_removals(group: Seq<Movie>, r: MovieReport)
    requires
        is_movie_report(group, r),
    ensures
        r.plan.to_delete@ == group_removals(group),
{
    match r.sources {
        Some(w) => {
            assert(shown_sources(group) == Some(w@));
            match r.plan.selected {
                Some(b) => {
                    let c = choose|c: int| is_first_best(w@, c);
                    lemma_first_best_unique(w@, b as int, c);
                },
                None => {},
            }
        },
        None => {},
    }
}

proof fn lemma_report_files_removals(reports: Seq<MovieReport>, groups: Seq<Seq<Movie>>)
    requires
        reports.len() == groups.len(),
        forall|k: int| 0 <= k < reports.len() ==> is_movie_report(groups[k], #[trigger] reports[k]),
    ensures
        movie_report_files(reports) == removals_of(groups),
    decreases reports.len(),
{
    if reports.len() > 0 {
        let n = reports.len() - 1;
        lemma_report_files_removals(reports.drop_last(), groups.drop_last());
        assert(is_movie_report(groups[n], reports[n]));
        lemma_movie_report_removals(groups[n], reports[n]);
    }
}

proof fn lemma_removals_skip_empty(groups: Seq<Seq<Movie>>)
    ensures
        removals_of(non_empty_groups(groups)) == removals_of(groups),
    decreases groups.len(),
{
    reveal(Seq::filter);
    if groups.len() > 0 {
        lemma_removals_skip_empty(groups.drop_last());
        if groups.last().len() == 0 {
            let g = groups.last();
            assert(movie_source_lists(g) =~= Seq::<Option<Vec<MediaSource>>>::empty());
            assert(group_removals(g) =~= Seq::<FileToDelete>::empty());
            assert(removals_of(groups) =~= removals_of(groups.drop_last()));
        } else {
            let ne = non_empty_groups(groups);
            assert(ne.drop_last() == non_empty_groups(groups.drop_last()));
        }
    }
}

proof fn lemma_removals_concat(a: Seq<Seq<Movie>>, b: Seq<Seq<Movie>>)
    ensures
        removals_of(a + b) == removals_of(a) + removals_of(b),
    decreases b.len(),
{
    if b.len() == 0 {
        assert(a + b =~= a);
        assert(removals_of(a) + removals_of(b) =~= removals_of(a));
    } else {
        lemma_removals_concat(a, b.drop_last());
        assert((a + b).drop_last() =~= a + b.drop_last());
        assert((a + b).last() == b.last());
        assert(removals_of(a) + removals_of(b.drop_last()) + group_removals(b.last()) =~= removals_of(a)
            + (removals_of(b.drop_last()) + group_removals(b.last())));
    }
}

/// The files a movie plan removes are those of its groups, group after group
/// (empty groups remove nothing).
pub proof fn lemma_movies_plan_files(groups: Seq<Seq<Movie>>, plan: MoviesPlan)
    requires
        is_movies_plan(groups, plan),
    ensures
        plan.files_to_delete@ == removals_of(groups),
{
    lemma_report_files_removals(plan.reports@, non_empty_groups(groups));
    lemma_removals_skip_empty(groups);
}

/// Planning two lists of movie groups together removes the files of the
/// first list followed by those of the second.
pub proof fn lemma_movies_plan_joins(
    first: Seq<Seq<Movie>>,
    second: Seq<Seq<Movie>>,
    plan_first: MoviesPlan,
    plan_second: MoviesPlan,
    plan_both: MoviesPlan,
)
    requires
        is_movies_plan(first, plan_first),
        is_movies_plan(second, plan_second),
        is_movies_plan(first + second, plan_both),
    ensures
        plan_both.files_to_delete@ == plan_first.files_to_delete@ + plan_second.files_to_delete@,
{
    lemma_movies_plan_files(first, plan_first);
    lemma_movies_plan_files(second, plan_second);
    lemma_movies_plan_files(first + second, plan_both);
    lemma_removals_concat(first, second);
}

// ------------------------------------------------------------ fields

/// The text shown for a path or a container: the value, or "Unknown".
pub open spec fn text_or_unknown(value: Option<String>) -> Seq<char> {
    match value {
        Some(s) => s@,
        None => "Unknown"@,
    }
}

/// The container shown for a file.
pub fn format_container(container: &Option<String>) -> (res: &str)
    ensures
        res@ == text_or_unknown(*container),
{
    match container {
        Some(s) => s.as_str(),
        None => "Unknown",
    }
}

/// The path shown for a file.
pub fn format_path(path: &Option<String>) -> (res: &str)
    ensures
        res@ == text_or_unknown(*path),
{
    match path {
        Some(s) => s.as_str(),
        None => "Unknown",
    }
}

/// The resolution shown for a file: its declared height followed by "p", or "Unknown".
pub open spec fn resolution_text(source: MediaSource) -> Seq<char> {
    match declared_height(source) {
        Some(h) => signed_decimal(h as int) + "p"@,
        None => "Unknown"@,
    }
}

/// Formats the resolution of a file, such as "1080p".
pub fn format_resolution(source: &MediaSource) -> (res: String)
    ensures
        res@ == resolution_text(*source),
{
    match get_declared_height(source) {
        Some(h) => {
            let mut s = String::new();
            append_signed_decimal(&mut s, h);
            s.append("p");
            assert(s@ =~= resolution_text(*source));
            s
        },
        None => String::from_str("Unknown"),
    }
}

/// The codec shown for a file: the codec of its first video stream, or "Unknown".
pub open spec fn codec_text(source: MediaSource) -> Seq<char> {
    match video_codec(source) {
        Some(c) => c,
        None => "Unknown"@,
    }
}

/// Formats the video codec of a file.
pub fn format_codec(source: &MediaSource) -> (res: String)
    ensures
        res@ == codec_text(*source),
{
    match get_codec(source) {
        Some(c) => c.clone(),
        None => String::from_str("Unknown"),
    }
}

} // verus!
