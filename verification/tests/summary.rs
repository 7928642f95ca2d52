use jelly_dedup::endpoints::{episodes_url, movies_url, shows_url};
use jelly_dedup::models::FileToDelete;
use jelly_dedup::summary::{
    path_le_exec, removal_commands, rm_command, strip_path_prefix, Quoting, Statistics,
};

fn file(path: &str, size: i64) -> FileToDelete {
    FileToDelete { path: path.to_string(), size }
}

#[test]
fn statistics_count_each_file_once() {
    let mut stats = Statistics::new();
    stats.record_show(2, vec![file("/b", 10), file("/a", 5)]);
    stats.record_show(1, vec![file("/a", 5), file("/a", 6), file("/c", 1)]);
    assert_eq!(stats.total_duplicate_episodes(), 3);
    assert_eq!(stats.total_duplicate_files(), 5);
    let sorted = stats.sorted_files();
    assert_eq!(sorted.len(), 4);
    let ps: Vec<&str> = sorted.iter().map(|f| f.path.as_str()).collect();
    assert_eq!(ps, vec!["/a", "/a", "/b", "/c"]);
    assert_eq!(stats.total_space_bytes(), 22);
}

#[test]
fn empty_statistics() {
    let stats = Statistics::new();
    assert_eq!(stats.total_duplicate_episodes(), 0);
    assert!(stats.sorted_files().is_empty());
    assert_eq!(stats.total_space_bytes(), 0);
}

#[test]
fn paths_order_by_bytes() {
    assert!(path_le_exec("/a", "/b"));
    assert!(path_le_exec("/a", "/a"));
    assert!(path_le_exec("/a", "/ab"));
    assert!(!path_le_exec("/ab", "/a"));
    assert!(path_le_exec("/Z", "/a"));
    assert!(path_le_exec("/z", "/é"));
}

#[test]
fn prefix_is_removed_only_where_present() {
    assert_eq!(strip_path_prefix("/mnt/media/x.mkv", Some("/mnt/media")), "/x.mkv");
    assert_eq!(strip_path_prefix("/other/x.mkv", Some("/mnt/media")), "/other/x.mkv");
    assert_eq!(strip_path_prefix("/mnt", Some("/mnt/media")), "/mnt");
    assert_eq!(strip_path_prefix("/x.mkv", None), "/x.mkv");
}

#[test]
fn commands_are_escaped_for_the_shell() {
    let q = Quoting::Posix;
    assert_eq!(rm_command("/tv/show/s01e01.mkv", None, &q), "rm /tv/show/s01e01.mkv");
    assert_eq!(rm_command("/tv/My Show/e1.mkv", None, &q), "rm '/tv/My Show/e1.mkv'");
    assert_eq!(rm_command("/tv/it's!.mkv", None, &q), "rm '/tv/it'\\''s'\\!'.mkv'");
    assert_eq!(rm_command("/mnt/media/a b.mkv", Some("/mnt/media"), &q), "rm '/a b.mkv'");
    assert_eq!(rm_command("/mnt/media", Some("/mnt/media"), &q), "rm ''");
    let cmds = removal_commands(&vec![file("/x", 1), file("/y z", 2)], None, &q);
    assert_eq!(cmds, vec!["rm /x".to_string(), "rm '/y z'".to_string()]);
}

#[test]
fn commands_are_escaped_for_cmd() {
    let q = Quoting::WindowsCmd;
    assert_eq!(rm_command("--aaa=bbb-ccc", None, &q), "rm --aaa=bbb-ccc");
    assert_eq!(rm_command("linker=gcc -L/foo -Wl,bar", None, &q), "rm \"linker=gcc -L/foo -Wl,bar\"");
    assert_eq!(rm_command("--features=\"default\"", None, &q), "rm \"--features=\\\"default\\\"\"");
    assert_eq!(
        rm_command("\\path\\to\\my documents\\", None, &q),
        "rm \"\\path\\to\\my documents\\\\\""
    );
    assert_eq!(rm_command("C:\\it's", None, &q), "rm C:\\it's");
    assert_eq!(rm_command("", None, &q), "rm \"\"");
}

#[test]
fn query_addresses() {
    assert_eq!(
        shows_url("http://localhost:8096", "KEY"),
        "http://localhost:8096/Items?IncludeItemTypes=Series&Recursive=true&api_key=KEY"
    );
    assert_eq!(
        episodes_url("http://h", "abc", "K"),
        "http://h/Shows/abc/Episodes?Fields=Path,MediaSources&api_key=K"
    );
    assert_eq!(
        movies_url("http://h", "K"),
        "http://h/Items?IncludeItemTypes=Movie&Recursive=true&Fields=Path,MediaSources&api_key=K"
    );
}
