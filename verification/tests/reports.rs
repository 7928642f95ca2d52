use jelly_dedup::models::{Episode, FileToDelete, MediaSource, MediaStream, Movie};
use jelly_dedup::report::{
    collect_unique_sources, episode_report, format_codec, format_container, format_movie_title,
    format_path, format_resolution, movie_report, plan_movies, plan_show, plan_versions,
};
use jelly_dedup::text::decimal_string;

fn src(path: Option<&str>, height: i32, bitrate: i64, size: Option<i64>) -> MediaSource {
    MediaSource {
        path: path.map(|p| p.to_string()),
        container: Some("mkv".to_string()),
        size,
        bitrate: Some(bitrate),
        height: Some(height),
        media_streams: None,
    }
}

fn paths(sources: &[MediaSource]) -> Vec<Option<String>> {
    sources.iter().map(|s| s.path.clone()).collect()
}

#[test]
fn unique_sources_skip_repeated_and_missing_paths() {
    let lists = vec![
        Some(vec![src(Some("/a"), 1080, 1, None), src(None, 1080, 1, None)]),
        None,
        Some(vec![src(Some("/b"), 720, 1, None), src(Some("/a"), 480, 1, None)]),
    ];
    let all = collect_unique_sources(lists);
    assert_eq!(paths(&all), vec![Some("/a".to_string()), Some("/b".to_string())]);
    assert_eq!(all[0].height, Some(1080));
}

#[test]
fn plan_keeps_best_and_removes_the_rest() {
    let sources = vec![
        src(Some("/low"), 720, 5, Some(100)),
        src(Some("/best"), 1080, 5, Some(200)),
        src(None, 480, 5, Some(300)),
        src(Some("/other"), 1080, 4, None),
    ];
    let plan = plan_versions(&sources);
    assert_eq!(plan.selected, Some(1));
    assert_eq!(
        plan.to_delete,
        vec![
            FileToDelete { path: "/low".to_string(), size: 100 },
            FileToDelete { path: "/other".to_string(), size: 0 },
        ]
    );
    let empty = plan_versions(&[]);
    assert_eq!(empty.selected, None);
    assert!(empty.to_delete.is_empty());
}

fn ep(name: Option<&str>, season: Option<u32>, number: Option<u32>, sources: Vec<MediaSource>) -> Episode {
    Episode {
        name: name.map(|n| n.to_string()),
        episode_number: number,
        season_number: season,
        media_sources: Some(sources),
    }
}

#[test]
fn episode_report_merges_the_files_of_a_group() {
    let group = vec![
        ep(None, Some(3), Some(7), vec![src(Some("/x"), 720, 1, Some(5))]),
        ep(Some("Pilot"), Some(3), Some(7), vec![src(Some("/y"), 1080, 1, Some(6)), src(Some("/x"), 720, 1, Some(5))]),
    ];
    let r = episode_report(group).unwrap();
    assert_eq!((r.season, r.episode), (3, 7));
    assert_eq!(r.name, "Pilot");
    assert_eq!(paths(&r.sources), vec![Some("/x".to_string()), Some("/y".to_string())]);
    assert_eq!(r.plan.selected, Some(1));
    assert_eq!(r.plan.to_delete, vec![FileToDelete { path: "/x".to_string(), size: 5 }]);
    assert!(episode_report(Vec::new()).is_none());
}

#[test]
fn episode_report_defaults() {
    let group = vec![ep(None, None, None, vec![src(Some("/x"), 720, 1, None)])];
    let r = episode_report(group).unwrap();
    assert_eq!((r.season, r.episode), (0, 0));
    assert_eq!(r.name, "Unknown Episode");
}

#[test]
fn show_plan_collects_files_of_every_group() {
    let groups = vec![
        vec![ep(Some("a"), Some(1), Some(1), vec![src(Some("/a1"), 720, 1, Some(1)), src(Some("/a2"), 1080, 1, Some(2))])],
        Vec::new(),
        vec![
            ep(Some("b"), Some(1), Some(2), vec![src(Some("/b1"), 1080, 9, Some(3))]),
            ep(Some("b"), Some(1), Some(2), vec![src(Some("/b2"), 1080, 1, Some(4))]),
        ],
    ];
    let plan = plan_show(groups);
    assert_eq!(plan.reports.len(), 2);
    assert_eq!(
        plan.files_to_delete,
        vec![
            FileToDelete { path: "/a1".to_string(), size: 1 },
            FileToDelete { path: "/b2".to_string(), size: 4 },
        ]
    );
}

fn movie(name: &str, year: Option<u32>, sources: Option<Vec<MediaSource>>) -> Movie {
    Movie { _id: "id".to_string(), name: name.to_string(), year, media_sources: sources }
}

#[test]
fn movie_titles() {
    assert_eq!(format_movie_title(&movie("Heat", Some(1995), None)), "Heat (1995)");
    assert_eq!(format_movie_title(&movie("Heat", None, None)), "Heat");
    assert_eq!(format_movie_title(&movie("Zero", Some(0), None)), "Zero (0)");
}

#[test]
fn lone_movie_report_shows_its_own_versions() {
    let group = vec![movie(
        "Heat",
        Some(1995),
        Some(vec![src(Some("/h1"), 720, 1, Some(1)), src(Some("/h1"), 1080, 1, Some(2))]),
    )];
    let r = movie_report(group).unwrap();
    assert_eq!(r.title, "Heat (1995)");
    assert_eq!(r.copies, 1);
    assert_eq!(r.sources.as_ref().unwrap().len(), 2);
    assert_eq!(r.plan.selected, Some(1));
    assert_eq!(r.plan.to_delete, vec![FileToDelete { path: "/h1".to_string(), size: 1 }]);
    let bare = movie_report(vec![movie("Bare", None, None)]).unwrap();
    assert!(bare.sources.is_none());
    assert!(bare.plan.to_delete.is_empty());
}

#[test]
fn copies_report_merges_files_by_path() {
    let group = vec![
        movie("Heat", Some(1995), Some(vec![src(Some("/h1"), 1080, 3, Some(1))])),
        movie("Heat", Some(1995), Some(vec![src(Some("/h2"), 1080, 9, Some(2)), src(Some("/h1"), 1080, 3, Some(1))])),
    ];
    let r = movie_report(group).unwrap();
    assert_eq!(r.copies, 2);
    assert_eq!(paths(r.sources.as_ref().unwrap()), vec![Some("/h1".to_string()), Some("/h2".to_string())]);
    assert_eq!(r.plan.selected, Some(1));
    assert_eq!(r.plan.to_delete, vec![FileToDelete { path: "/h1".to_string(), size: 1 }]);
    let pathless = vec![movie("P", None, None), movie("P", None, Some(vec![src(None, 1, 1, None)]))];
    let r = movie_report(pathless).unwrap();
    assert!(r.sources.is_none());
    assert!(movie_report(Vec::new()).is_none());
}

#[test]
fn field_texts() {
    let mut s = src(Some("/p.mkv"), 1080, 1, None);
    assert_eq!(format_resolution(&s), "1080p");
    s.height = Some(-5);
    assert_eq!(format_resolution(&s), "-5p");
    s.height = None;
    assert_eq!(format_resolution(&s), "Unknown");
    s.media_streams = Some(vec![MediaStream {
        stream_type: Some("Video".to_string()),
        height: Some(2160),
        codec: Some("hevc".to_string()),
    }]);
    assert_eq!(format_resolution(&s), "2160p");
    assert_eq!(format_codec(&s), "hevc");
    s.media_streams = None;
    assert_eq!(format_codec(&s), "Unknown");
    assert_eq!(format_container(&Some("mp4".to_string())), "mp4");
    assert_eq!(format_container(&None), "Unknown");
    assert_eq!(format_path(&Some("/x".to_string())), "/x");
    assert_eq!(format_path(&None), "Unknown");
}

#[test]
fn decimal_strings() {
    assert_eq!(decimal_string(0), "0");
    assert_eq!(decimal_string(7), "7");
    assert_eq!(decimal_string(2024), "2024");
    assert_eq!(decimal_string(u32::MAX), "4294967295");
}

#[test]
fn movies_plan_joins_the_files_of_its_groups() {
    let first = vec![vec![
        movie("A", Some(1), Some(vec![src(Some("/a1"), 720, 1, Some(1))])),
        movie("A", Some(1), Some(vec![src(Some("/a2"), 1080, 1, Some(2))])),
    ]];
    let second = vec![
        Vec::new(),
        vec![movie("B", None, Some(vec![src(Some("/b1"), 1080, 9, Some(3)), src(Some("/b2"), 1080, 1, Some(4))]))],
    ];
    let pa = plan_movies(first.clone());
    let pb = plan_movies(second.clone());
    let mut both = first.clone();
    both.extend(second.clone());
    let p = plan_movies(both);
    assert_eq!(pa.files_to_delete, vec![FileToDelete { path: "/a1".to_string(), size: 1 }]);
    assert_eq!(pb.files_to_delete, vec![FileToDelete { path: "/b2".to_string(), size: 4 }]);
    let mut joined = pa.files_to_delete.clone();
    joined.extend(pb.files_to_delete.clone());
    assert_eq!(p.files_to_delete, joined);
    assert_eq!(p.reports.len(), 2);
    assert_eq!(p.reports[1].title, "B");
}
