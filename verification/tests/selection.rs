use jelly_dedup::models::{MediaSource, MediaStream};
use jelly_dedup::selector::{
    calculate_effective_bitrate, contains_ignoring_case, get_codec_efficiency_halves, get_height,
    is_better_source, normalize_height, select_best_source,
};

fn video(height: Option<i32>, codec: &str) -> MediaStream {
    MediaStream {
        stream_type: Some("Video".to_string()),
        height,
        codec: Some(codec.to_string()),
    }
}

fn source(path: &str, height: Option<i32>, bitrate: Option<i64>, codec: &str) -> MediaSource {
    MediaSource {
        path: Some(path.to_string()),
        container: Some("mkv".to_string()),
        size: Some(1000),
        bitrate,
        height,
        media_streams: Some(vec![video(None, codec)]),
    }
}

#[test]
fn normalizes_cropped_resolutions() {
    assert_eq!(normalize_height(2076), 2160);
    assert_eq!(normalize_height(2000), 2160);
    assert_eq!(normalize_height(2160), 2160);
    assert_eq!(normalize_height(1038), 1080);
    assert_eq!(normalize_height(960), 1080);
    assert_eq!(normalize_height(1088), 1080);
    assert_eq!(normalize_height(694), 720);
    assert_eq!(normalize_height(540), 576);
    assert_eq!(normalize_height(460), 480);
    assert_eq!(normalize_height(1440), 1440);
    assert_eq!(normalize_height(0), 0);
    assert_eq!(normalize_height(-3), -3);
}

#[test]
fn codec_efficiency_in_half_units() {
    assert_eq!(get_codec_efficiency_halves("av1"), 4);
    assert_eq!(get_codec_efficiency_halves("AV1"), 4);
    assert_eq!(get_codec_efficiency_halves("hevc"), 3);
    assert_eq!(get_codec_efficiency_halves("HEVC"), 3);
    assert_eq!(get_codec_efficiency_halves("x-h265-main"), 3);
    assert_eq!(get_codec_efficiency_halves("h264"), 2);
    assert_eq!(get_codec_efficiency_halves(""), 2);
    assert!(contains_ignoring_case("Main HeVc 10", "hevc"));
    assert!(!contains_ignoring_case("hev", "hevc"));
}

#[test]
fn effective_bitrate_scales_with_codec() {
    let hevc = source("/a.mkv", Some(1080), Some(6_000_000), "hevc");
    assert_eq!(calculate_effective_bitrate(&hevc), 18_000_000);
    let h264 = source("/b.mkv", Some(1080), Some(8_000_000), "h264");
    assert_eq!(calculate_effective_bitrate(&h264), 16_000_000);
    let unknown = source("/c.mkv", Some(1080), None, "av1");
    assert_eq!(calculate_effective_bitrate(&unknown), 0);
    let mut no_streams = source("/d.mkv", Some(1080), Some(5), "av1");
    no_streams.media_streams = None;
    assert_eq!(calculate_effective_bitrate(&no_streams), 10);
}

#[test]
fn height_falls_back_to_the_video_stream() {
    let mut s = source("/a.mkv", None, Some(1), "h264");
    s.media_streams = Some(vec![
        MediaStream { stream_type: Some("Audio".to_string()), height: Some(5), codec: None },
        video(Some(720), "h264"),
        video(Some(1080), "h264"),
    ]);
    assert_eq!(get_height(&s), 720);
    s.height = Some(2160);
    assert_eq!(get_height(&s), 2160);
    s.height = None;
    s.media_streams = None;
    assert_eq!(get_height(&s), 0);
}

#[test]
fn readme_example_prefers_efficient_codec() {
    // 1080p H.264 @ 8 Mbps = 8.0, 1080p H.265 @ 6 Mbps = 9.0
    let a = source("/a.mkv", Some(1080), Some(8_000_000), "h264");
    let b = source("/b.mkv", Some(1080), Some(6_000_000), "hevc");
    let c = source("/c.mkv", Some(1080), Some(4_000_000), "hevc");
    assert_eq!(select_best_source(&[a.clone(), b.clone()]), Some(1));
    assert_eq!(select_best_source(&[a.clone(), c.clone()]), Some(0));
    assert!(is_better_source(&b, &a));
    assert!(!is_better_source(&c, &a));
}

#[test]
fn resolution_always_wins() {
    let low = source("/low.mkv", Some(720), Some(50_000_000), "av1");
    let high = source("/high.mkv", Some(1080), Some(1_000_000), "h264");
    assert_eq!(select_best_source(&[low.clone(), high.clone()]), Some(1));
    let cropped = source("/crop.mkv", Some(1038), Some(2_000_000), "h264");
    assert_eq!(select_best_source(&[high.clone(), cropped.clone()]), Some(1));
}

#[test]
fn first_of_equals_is_kept() {
    let a = source("/a.mkv", Some(1080), Some(1_000), "h264");
    let b = source("/b.mkv", Some(1080), Some(1_000), "h264");
    assert_eq!(select_best_source(&[a, b]), Some(0));
    assert_eq!(select_best_source(&[]), None);
}
