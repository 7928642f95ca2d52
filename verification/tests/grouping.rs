use jelly_dedup::analyzer::{filter_duplicate_episodes, filter_duplicate_movies};
use jelly_dedup::models::{Episode, MediaSource, Movie};

fn src(path: &str) -> MediaSource {
    MediaSource {
        path: Some(path.to_string()),
        container: None,
        size: Some(10),
        bitrate: Some(1),
        height: Some(1080),
        media_streams: None,
    }
}

fn ep(name: &str, season: Option<u32>, number: Option<u32>, paths: &[&str]) -> Episode {
    Episode {
        name: Some(name.to_string()),
        episode_number: number,
        season_number: season,
        media_sources: Some(paths.iter().map(|p| src(p)).collect()),
    }
}

fn names(groups: &[Vec<Episode>]) -> Vec<Vec<String>> {
    groups
        .iter()
        .map(|g| g.iter().map(|e| e.name.clone().unwrap()).collect())
        .collect()
}

#[test]
fn episodes_sharing_a_slot_are_grouped() {
    let episodes = vec![
        ep("a1", Some(1), Some(2), &["/a1.mkv"]),
        ep("b", Some(1), Some(3), &["/b.mkv"]),
        ep("a2", Some(1), Some(2), &["/a2.mkv"]),
    ];
    let groups = filter_duplicate_episodes(episodes);
    assert_eq!(names(&groups), vec![vec!["a1".to_string(), "a2".to_string()]]);
}

#[test]
fn merged_episode_with_several_files_is_reported() {
    let episodes = vec![
        ep("one", Some(2), Some(1), &["/x.mkv", "/y.mkv"]),
        ep("two", Some(2), Some(2), &["/z.mkv"]),
    ];
    let groups = filter_duplicate_episodes(episodes);
    assert_eq!(names(&groups), vec![vec!["one".to_string()]]);
}

#[test]
fn unnumbered_episodes_are_never_grouped() {
    let episodes = vec![
        ep("special", None, Some(1), &["/s1.mkv"]),
        ep("special", None, Some(1), &["/s2.mkv"]),
        ep("extra", Some(0), None, &["/e1.mkv", "/e2.mkv"]),
    ];
    let groups = filter_duplicate_episodes(episodes);
    assert_eq!(names(&groups), vec![vec!["extra".to_string()]]);
}

#[test]
fn groups_are_sorted_by_season_and_episode() {
    let episodes = vec![
        ep("unnumbered", None, None, &["/u1", "/u2"]),
        ep("s2e1", Some(2), Some(1), &["/a"]),
        ep("s1e5", Some(1), Some(5), &["/b", "/c"]),
        ep("s2e1b", Some(2), Some(1), &["/d"]),
        ep("s1e9", Some(1), Some(9), &["/e"]),
        ep("s1e9b", Some(1), Some(9), &["/f"]),
        ep("s1 no number", Some(1), None, &["/g", "/h"]),
    ];
    let groups = filter_duplicate_episodes(episodes);
    assert_eq!(
        names(&groups),
        vec![
            vec!["s1e5".to_string()],
            vec!["s1e9".to_string(), "s1e9b".to_string()],
            vec!["s1 no number".to_string()],
            vec!["s2e1".to_string(), "s2e1b".to_string()],
            vec!["unnumbered".to_string()],
        ]
    );
}

#[test]
fn no_duplicates_gives_no_groups() {
    let episodes = vec![
        ep("a", Some(1), Some(1), &["/a"]),
        ep("b", Some(1), Some(2), &["/b"]),
        Episode { name: None, episode_number: Some(3), season_number: Some(1), media_sources: None },
    ];
    assert!(filter_duplicate_episodes(episodes).is_empty());
    assert!(filter_duplicate_episodes(Vec::new()).is_empty());
}

fn movie(id: &str, name: &str, year: Option<u32>, paths: &[&str]) -> Movie {
    Movie {
        _id: id.to_string(),
        name: name.to_string(),
        year,
        media_sources: Some(paths.iter().map(|p| src(p)).collect()),
    }
}

fn ids(groups: &[Vec<Movie>]) -> Vec<Vec<String>> {
    groups.iter().map(|g| g.iter().map(|m| m._id.clone()).collect()).collect()
}

#[test]
fn movies_with_same_title_and_year_are_grouped() {
    let movies = vec![
        movie("1", "Alien", Some(1979), &["/a1"]),
        movie("2", "Aliens", Some(1986), &["/b"]),
        movie("3", "Alien", Some(1979), &["/a2"]),
        movie("4", "Alien", Some(2003), &["/a3"]),
        movie("5", "Heat", Some(1995), &["/h1", "/h2"]),
    ];
    let groups = filter_duplicate_movies(movies);
    assert_eq!(ids(&groups), vec![vec!["1".to_string(), "3".to_string()], vec!["5".to_string()]]);
}

#[test]
fn unknown_year_is_not_year_zero() {
    let movies = vec![
        movie("1", "Old", None, &["/o1"]),
        movie("2", "Old", Some(0), &["/o2"]),
        movie("3", "Old", Some(1), &["/o3"]),
        movie("4", "Old", None, &["/o4"]),
    ];
    let groups = filter_duplicate_movies(movies);
    assert_eq!(ids(&groups), vec![vec!["1".to_string(), "4".to_string()]]);
}

#[test]
fn input_order_does_not_change_the_groups() {
    let a = vec![
        movie("1", "Alien", Some(1979), &["/a1"]),
        movie("2", "Heat", Some(1995), &["/h1", "/h2"]),
        movie("3", "Alien", Some(1979), &["/a2"]),
    ];
    let b = vec![a[2].clone(), a[1].clone(), a[0].clone()];
    let mut ga: Vec<Vec<String>> = filter_duplicate_movies(a)
        .iter()
        .map(|g| {
            let mut v: Vec<String> = g.iter().map(|m| m._id.clone()).collect();
            v.sort();
            v
        })
        .collect();
    let mut gb: Vec<Vec<String>> = filter_duplicate_movies(b)
        .iter()
        .map(|g| {
            let mut v: Vec<String> = g.iter().map(|m| m._id.clone()).collect();
            v.sort();
            v
        })
        .collect();
    ga.sort();
    gb.sort();
    assert_eq!(ga, gb);
}

#[test]
fn lone_movie_with_one_file_is_not_reported() {
    let movies = vec![movie("1", "Solo", Some(2018), &["/s"])];
    assert!(filter_duplicate_movies(movies).is_empty());
    let no_sources = vec![Movie { _id: "2".to_string(), name: "X".to_string(), year: None, media_sources: None }];
    assert!(filter_duplicate_movies(no_sources).is_empty());
}
