//! Picks the best of several versions of the same media.
//!
//! Resolution comes first: a higher (normalized) resolution always wins. At
//! equal resolution the effective bitrate decides, that is the bitrate scaled
//! by how efficient the video codec is (AV1 2.0, H.265/HEVC 1.5, anything
//! else 1.0). Effective bitrates are kept in half units (bitrate times 4, 3
//! or 2), so that they are exact integers.
use vstd::prelude::*;
use vstd::string::*;

use crate::models::{MediaSource, MediaStream};

verus! {

/// A stream is the video stream when its type is exactly "Video".
pub open spec fn is_video_stream(st: MediaStream) -> bool {
    st.stream_type matches Some(t) && t@ == "Video"@
}

/// The first video stream of a list of streams.
pub open spec fn first_video_stream(streams: Seq<MediaStream>) -> Option<MediaStream>
    decreases streams.len(),
{
    if streams.len() == 0 {
        None
    } else if is_video_stream(streams[0]) {
        Some(streams[0])
    } else {
        first_video_stream(streams.drop_first())
    }
}

/// The first video stream of a media file, if it lists its streams.
pub open spec fn source_video_stream(source: MediaSource) -> Option<MediaStream> {
    match source.media_streams {
        Some(streams) => first_video_stream(streams@),
        None => None,
    }
}

/// The height a media file declares itself, else the height of its first video stream.
pub open spec fn declared_height(source: MediaSource) -> Option<i32> {
    match source.height {
        Some(h) => Some(h),
        None => match source_video_stream(source) {
            Some(st) => st.height,
            None => None,
        },
    }
}

/// The height used to compare files: the declared height, or 0 where none is known.
pub open spec fn source_height(source: MediaSource) -> i32 {
    match declared_height(source) {
        Some(h) => h,
        None => 0,
    }
}

/// The codec of the first video stream, if it names one.
pub open spec fn video_codec(source: MediaSource) -> Option<Seq<char>> {
    match source_video_stream(source) {
        Some(st) => match st.codec {
            Some(c) => Some(c@),
            None => None,
        },
        None => None,
    }
}

/// Maps cropped variants of the common resolutions to their standard height.
pub open spec fn normalized_height(height: i32) -> i32 {
    if 2000 <= height && height <= 2160 {
        2160
    } else if 960 <= height && height <= 1088 {
        1080
    } else if 690 <= height && height <= 720 {
        720
    } else if 540 <= height && height <= 576 {
        576
    } else if 460 <= height && height <= 480 {
        480
    } else {
        height
    }
}

/// ASCII lower case of a character; every other character is left alone.
pub open spec fn ascii_lower(c: char) -> char {
    if 'A' <= c && c <= 'Z' {
        ((c as int) + 32) as char
    } else {
        c
    }
}

/// `needle` occurs in `hay` at position `i` once `hay` is put in lower case.
pub open spec fn matches_lowered_at(hay: Seq<char>, needle: Seq<char>, i: int) -> bool {
    &&& 0 <= i
    &&& i + needle.len() <= hay.len()
    &&& forall|k: int| 0 <= k < needle.len() ==> #[trigger] ascii_lower(hay[i + k]) == needle[k]
}

/// `needle` occurs somewhere in the lower-cased `hay`.
pub open spec fn contains_lowered(hay: Seq<char>, needle: Seq<char>) -> bool {
    exists|i: int| matches_lowered_at(hay, needle, i)
}

/// A character that lower-casing leaves alone: a lower-case ASCII letter or a digit.
pub open spec fn is_lower_or_digit(c: char) -> bool {
    ('a' <= c && c <= 'z') || ('0' <= c && c <= '9')
}

/// Codec efficiency in half units: AV1 4, H.265/HEVC 3, anything else 2.
pub open spec fn codec_efficiency_halves(codec: Seq<char>) -> int {
    if contains_lowered(codec, "av1"@) {
        4
    } else if contains_lowered(codec, "hevc"@) || contains_lowered(codec, "h265"@) {
        3
    } else {
        2
    }
}

/// Effective bitrate in half units: the bitrate (0 where unknown) times the
/// codec efficiency in half units (a file without a video codec counts as H.264).
pub open spec fn effective_bitrate_halves(source: MediaSource) -> int {
    let bitrate: int = match source.bitrate {
        Some(b) => b as int,
        None => 0,
    };
    let codec: Seq<char> = match video_codec(source) {
        Some(c) => c,
        None => Seq::empty(),
    };
    bitrate * codec_efficiency_halves(codec)
}

/// `candidate` beats `current`: higher normalized resolution, or the same
/// resolution and a higher effective bitrate.
pub open spec fn outranks(candidate: MediaSource, current: MediaSource) -> bool {
    let hc = normalized_height(source_height(candidate));
    let hb = normalized_height(source_height(current));
    hc > hb || (hc == hb && effective_bitrate_halves(candidate) > effective_bitrate_halves(
        current,
    ))
}

/// `best` is the first of the sources that no other source outranks.
pub open spec fn is_first_best(sources: Seq<MediaSource>, best: int) -> bool {
    &&& 0 <= best < sources.len()
    &&& forall|j: int| 0 <= j < sources.len() ==> !outranks(#[trigger] sources[j], sources[best])
    &&& forall|j: int| 0 <= j < best ==> outranks(sources[best], #[trigger] sources[j])
}

/// Resolution first: the version kept has the highest normalized resolution
/// of all, and among the versions of that resolution the highest effective
/// bitrate; every version before it is strictly worse.
pub proof fn lemma_best_source_is_highest(sources: Seq<MediaSource>, best: int)
    requires
        is_first_best(sources, best),
    ensures
        forall|j: int|
            0 <= j < sources.len() ==> normalized_height(source_height(#[trigger] sources[j]))
                <= normalized_height(source_height(sources[best])),
        forall|j: int|
            0 <= j < sources.len() && normalized_height(source_height(#[trigger] sources[j]))
                == normalized_height(source_height(sources[best])) ==> effective_bitrate_halves(
                sources[j],
            ) <= effective_bitrate_halves(sources[best]),
        forall|j: int|
            0 <= j < best ==> (normalized_height(source_height(#[trigger] sources[j]))
                < normalized_height(source_height(sources[best])) || effective_bitrate_halves(
                sources[j],
            ) < effective_bitrate_halves(sources[best])),
{
    assert forall|j: int| 0 <= j < sources.len() implies normalized_height(source_height(#[trigger] sources[j]))
        <= normalized_height(source_height(sources[best])) by {
        assert(!outranks(sources[j], sources[best]));
    }
}

/// Normalizing never reorders resolutions: a higher height never normalizes
/// below a lower one; the standard heights keep their value; and each
/// cropped range maps to its standard height.
pub proof fn lemma_normalized_height_monotone(h1: i32, h2: i32)
    ensures
        h1 <= h2 ==> normalized_height(h1) <= normalized_height(h2),
        normalized_height(480) == 480 && normalized_height(576) == 576 && normalized_height(720) == 720
            && normalized_height(1080) == 1080 && normalized_height(2160) == 2160,
        460 <= h1 <= 480 ==> normalized_height(h1) == 480,
        540 <= h1 <= 576 ==> normalized_height(h1) == 576,
        690 <= h1 <= 720 ==> normalized_height(h1) == 720,
        960 <= h1 <= 1088 ==> normalized_height(h1) == 1080,
        2000 <= h1 <= 2160 ==> normalized_height(h1) == 2160,
        (h1 < 460 || (480 < h1 < 540) || (576 < h1 < 690) || (720 < h1 < 960) || (1088 < h1 < 2000)
            || 2160 < h1) ==> normalized_height(h1) == h1,
{
}

/// Higher resolution always wins: between two files whose heights are
/// standard heights (480, 576, 720, 1080, 2160), the taller one outranks
/// the other whatever their bitrates and codecs.
pub proof fn lemma_higher_standard_resolution_wins(a: MediaSource, b: MediaSource)
    requires
        source_height(a) == 480 || source_height(a) == 576 || source_height(a) == 720
            || source_height(a) == 1080 || source_height(a) == 2160,
        source_height(b) == 480 || source_height(b) == 576 || source_height(b) == 720
            || source_height(b) == 1080 || source_height(b) == 2160,
        source_height(a) > source_height(b),
    ensures
        outranks(a, b),
        !outranks(b, a),
{
}

/// `c` is the letter `lower` in either case.
pub open spec fn either_case(c: char, lower: char, upper: char) -> bool {
    c == lower || c == upper
}

proof fn lemma_ascii_lower_is(c: char, d: char)
    requires
        ascii_lower(c) == d,
    ensures
        'a' <= d <= 'z' ==> (c == d || c as int == d as int - 32),
        '0' <= d <= '9' ==> c == d,
{
}

/// Codec efficiency, read off the codec name itself: a name holding "av1"
/// in any case counts 4 half units (AV1, 2.0); one holding "hevc" or "h265"
/// in any case and no letter `a` counts 3 (H.265, 1.5); one with no `v` and
/// no `6` at all counts 2 (H.264 and anything else, 1.0).
pub proof fn lemma_codec_efficiency(codec: Seq<char>)
    ensures
        (exists|i: int|
            0 <= i && i + 3 <= codec.len() && either_case(#[trigger] codec[i], 'a', 'A')
                && either_case(codec[i + 1], 'v', 'V') && codec[i + 2] == '1')
            ==> codec_efficiency_halves(codec) == 4,
        (forall|i: int| 0 <= i < codec.len() ==> !either_case(#[trigger] codec[i], 'a', 'A'))
            && (exists|i: int|
            0 <= i && i + 4 <= codec.len() && either_case(#[trigger] codec[i], 'h', 'H')
                && ((either_case(codec[i + 1], 'e', 'E') && either_case(codec[i + 2], 'v', 'V')
                && either_case(codec[i + 3], 'c', 'C')) || (codec[i + 1] == '2' && codec[i + 2]
                == '6' && codec[i + 3] == '5'))) ==> codec_efficiency_halves(codec) == 3,
        (forall|i: int|
            0 <= i < codec.len() ==> !either_case(#[trigger] codec[i], 'v', 'V') && codec[i]
                != '6') ==> codec_efficiency_halves(codec) == 2,
{
    reveal_strlit("av1");
    reveal_strlit("hevc");
    reveal_strlit("h265");
    let av1 = "av1"@;
    let hevc = "hevc"@;
    let h265 = "h265"@;
    if exists|i: int|
        0 <= i && i + 3 <= codec.len() && either_case(#[trigger] codec[i], 'a', 'A')
            && either_case(codec[i + 1], 'v', 'V') && codec[i + 2] == '1' {
        let i = choose|i: int|
            0 <= i && i + 3 <= codec.len() && either_case(#[trigger] codec[i], 'a', 'A')
                && either_case(codec[i + 1], 'v', 'V') && codec[i + 2] == '1';
        assert(ascii_lower(codec[i + 0]) == av1[0]);
        assert(ascii_lower(codec[i + 1]) == av1[1]);
        assert(ascii_lower(codec[i + 2]) == av1[2]);
        assert(matches_lowered_at(codec, av1, i));
    }
    if forall|i: int| 0 <= i < codec.len() ==> !either_case(#[trigger] codec[i], 'a', 'A') {
        assert forall|p: int| !matches_lowered_at(codec, av1, p) by {
            if matches_lowered_at(codec, av1, p) {
                assert(ascii_lower(codec[p + 0]) == av1[0]);
                lemma_ascii_lower_is(codec[p + 0], 'a');
                assert(either_case(codec[p], 'a', 'A'));
            }
        }
        if exists|i: int|
            0 <= i && i + 4 <= codec.len() && either_case(#[trigger] codec[i], 'h', 'H')
                && ((either_case(codec[i + 1], 'e', 'E') && either_case(codec[i + 2], 'v', 'V')
                && either_case(codec[i + 3], 'c', 'C')) || (codec[i + 1] == '2' && codec[i + 2]
                == '6' && codec[i + 3] == '5')) {
            let i = choose|i: int|
                0 <= i && i + 4 <= codec.len() && either_case(#[trigger] codec[i], 'h', 'H')
                    && ((either_case(codec[i + 1], 'e', 'E') && either_case(codec[i + 2], 'v', 'V')
                    && either_case(codec[i + 3], 'c', 'C')) || (codec[i + 1] == '2' && codec[i
                    + 2] == '6' && codec[i + 3] == '5'));
            if codec[i + 1] == '2' {
                assert(ascii_lower(codec[i + 0]) == h265[0]);
                assert(ascii_lower(codec[i + 1]) == h265[1]);
                assert(ascii_lower(codec[i + 2]) == h265[2]);
                assert(ascii_lower(codec[i + 3]) == h265[3]);
                assert(matches_lowered_at(codec, h265, i));
            } else {
                assert(ascii_lower(codec[i + 0]) == hevc[0]);
                assert(ascii_lower(codec[i + 1]) == hevc[1]);
                assert(ascii_lower(codec[i + 2]) == hevc[2]);
                assert(ascii_lower(codec[i + 3]) == hevc[3]);
                assert(matches_lowered_at(codec, hevc, i));
            }
        }
    }
    if forall|i: int|
        0 <= i < codec.len() ==> !either_case(#[trigger] codec[i], 'v', 'V') && codec[i] != '6' {
        assert forall|p: int| !matches_lowered_at(codec, av1, p) by {
            if matches_lowered_at(codec, av1, p) {
                assert(ascii_lower(codec[p + 1]) == av1[1]);
                lemma_ascii_lower_is(codec[p + 1], 'v');
                assert(either_case(codec[p + 1], 'v', 'V'));
            }
        }
        assert forall|p: int| !matches_lowered_at(codec, hevc, p) by {
            if matches_lowered_at(codec, hevc, p) {
                assert(ascii_lower(codec[p + 2]) == hevc[2]);
                lemma_ascii_lower_is(codec[p + 2], 'v');
                assert(either_case(codec[p + 2], 'v', 'V'));
            }
        }
        assert forall|p: int| !matches_lowered_at(codec, h265, p) by {
            if matches_lowered_at(codec, h265, p) {
                assert(ascii_lower(codec[p + 2]) == h265[2]);
                lemma_ascii_lower_is(codec[p + 2], '6');
            }
        }
    }
}

/// At equal normalized resolution the codec-weighted bitrate decides: a
/// file outranks another exactly when its bitrate (0 where unknown) times
/// its codec's efficiency is the larger, so an H.265 file at 6 Mbps (9
/// effective) beats an H.264 file at 8 Mbps (8 effective) and one at 4 Mbps
/// (6 effective) does not.
pub proof fn lemma_same_resolution_weighs_bitrate(a: MediaSource, b: MediaSource)
    requires
        normalized_height(source_height(a)) == normalized_height(source_height(b)),
    ensures
        outranks(a, b) <==> (match a.bitrate {
            Some(x) => x as int,
            None => 0int,
        }) * codec_efficiency_halves(video_codec(a).unwrap_or(Seq::empty())) > (match b.bitrate {
            Some(x) => x as int,
            None => 0int,
        }) * codec_efficiency_halves(video_codec(b).unwrap_or(Seq::empty())),
        !outranks(a, b) || !outranks(b, a),
{
}

/// The video stream of a file is the first of its streams whose type is
/// exactly "Video"; where none is, there is none.
pub proof fn lemma_first_video_stream(streams: Seq<MediaStream>)
    ensures
        first_video_stream(streams) matches Some(st) ==> exists|i: int|
            0 <= i < streams.len() && #[trigger] streams[i] == st && (st.stream_type matches Some(
                t,
            ) && t@ == "Video"@) && forall|j: int|
                0 <= j < i ==> !(#[trigger] streams[j].stream_type matches Some(t) && t@
                    == "Video"@),
        first_video_stream(streams) is None ==> forall|i: int|
            0 <= i < streams.len() ==> !(#[trigger] streams[i].stream_type matches Some(t) && t@
                == "Video"@),
    decreases streams.len(),
{
    if streams.len() > 0 {
        let rest = streams.drop_first();
        lemma_first_video_stream(rest);
        if !is_video_stream(streams[0]) {
            if let Some(st) = first_video_stream(rest) {
                let k = choose|k: int|
                    0 <= k < rest.len() && #[trigger] rest[k] == st && (st.stream_type matches Some(
                        t,
                    ) && t@ == "Video"@) && forall|j: int|
                        0 <= j < k ==> !(#[trigger] rest[j].stream_type matches Some(t) && t@
                            == "Video"@);
                assert(streams[k + 1] == st);
                assert forall|j: int| 0 <= j < k + 1 implies !(#[trigger] streams[j].stream_type matches Some(
                    t,
                ) && t@ == "Video"@) by {
                    if j > 0 {
                        assert(streams[j] == rest[j - 1]);
                    }
                }
            } else {
                assert forall|i: int| 0 <= i < streams.len() implies !(#[trigger] streams[i].stream_type matches Some(
                    t,
                ) && t@ == "Video"@) by {
                    if i > 0 {
                        assert(streams[i] == rest[i - 1]);
                    }
                }
            }
        } else {
            assert(streams[0] == streams[0]);
        }
    }
}

/// The height a file is ranked by: its own height where it declares one,
/// else that of its video stream, else 0.
pub proof fn lemma_source_height(source: MediaSource)
    ensures
        source.height matches Some(h) ==> source_height(source) == h,
        source.height is None && source.media_streams is None ==> source_height(source) == 0,
        source.height is None ==> source_height(source) == match source_video_stream(source) {
            Some(st) => st.height.unwrap_or(0),
            None => 0,
        },
{
}

/// Finds the first video stream of a list of streams.
pub fn find_video_stream(streams: &Vec<MediaStream>) -> (res: Option<&MediaStream>)
    ensures
        res is Some <==> first_video_stream(streams@) is Some,
        res matches Some(st) ==> first_video_stream(streams@) == Some(*st),
{
    let n = streams.len();
    let video = String::from_str("Video");
    let mut i: usize = 0;
    assert(streams@.skip(0) =~= streams@);
    while i < n
        invariant
            i <= n,
            n == streams@.len(),
            video@ == "Video"@,
            first_video_stream(streams@) == first_video_stream(streams@.skip(i as int)),
        decreases n - i,
    {
        let st = &streams[i];
        assert(streams@.skip(i as int)[0] == streams@[i as int]);
        assert(streams@.skip(i as int).drop_first() =~= streams@.skip(i + 1));
        match &st.stream_type {
            Some(t) => {
                if *t == video {
                    return Some(st);
                }
            },
            None => {},
        }
        i = i + 1;
    }
    None
}

/// The height a media file declares itself, else the height of its first video stream.
pub fn get_declared_height(source: &MediaSource) -> (res: Option<i32>)
    ensures
        res == declared_height(*source),
{
    match source.height {
        Some(h) => Some(h),
        None => match &source.media_streams {
            Some(streams) => match find_video_stream(streams) {
                Some(st) => st.height,
                None => None,
            },
            None => None,
        },
    }
}

/// The height used to compare files (0 where none is known).
pub fn get_height(source: &MediaSource) -> (res: i32)
    ensures
        res == source_height(*source),
{
    match get_declared_height(source) {
        Some(h) => h,
        None => 0,
    }
}

/// The codec named by the first video stream; `None` where there is none.
pub fn get_codec(source: &MediaSource) -> (res: Option<&String>)
    ensures
        res is Some <==> video_codec(*source) is Some,
        res matches Some(c) ==> video_codec(*source) == Some(c@),
{
    match &source.media_streams {
        Some(streams) => match find_video_stream(streams) {
            Some(st) => match &st.codec {
                Some(c) => Some(c),
                None => None,
            },
            None => None,
        },
        None => None,
    }
}

/// Maps cropped variants of the common resolutions to their standard height.
pub fn normalize_height(height: i32) -> (res: i32)
    ensures
        res == normalized_height(height),
{
    if height >= 2000 && height <= 2160 {
        return 2160;
    }
    if height >= 960 && height <= 1088 {
        return 1080;
    }
    if height >= 690 && height <= 720 {
        return 720;
    }
    if height >= 540 && height <= 576 {
        return 576;
    }
    if height >= 460 && height <= 480 {
        return 480;
    }
    height
}

/// Whether `needle` (lower-case letters and digits) occurs in `hay` once
/// `hay` is put in lower case. Only ASCII letters are lowered: no other
/// character lowers to an ASCII letter other than `k` or `i`, so for the
/// codec names searched here this agrees with full Unicode lower-casing.
pub fn contains_ignoring_case(hay: &str, needle: &str) -> (res: bool)
    requires
        forall|k: int| 0 <= k < needle@.len() ==> is_lower_or_digit(#[trigger] needle@[k]),
    ensures
        res == contains_lowered(hay@, needle@),
{
    let hn = hay.unicode_len();
    let nn = needle.unicode_len();
    if nn > hn {
        assert forall|i: int| !matches_lowered_at(hay@, needle@, i) by {}
        return false;
    }
    let mut i: usize = 0;
    while i <= hn - nn
        invariant
            nn <= hn,
            hn == hay@.len(),
            nn == needle@.len(),
            forall|k: int| 0 <= k < needle@.len() ==> is_lower_or_digit(#[trigger] needle@[k]),
            forall|p: int| 0 <= p < i ==> !matches_lowered_at(hay@, needle@, p),
        decreases hn - nn + 1 - i,
    {
        let mut k: usize = 0;
        let mut all = true;
        while k < nn
            invariant
                k <= nn,
                i + nn <= hn,
                hn == hay@.len(),
                nn == needle@.len(),
                forall|q: int| 0 <= q < needle@.len() ==> is_lower_or_digit(#[trigger] needle@[q]),
                all == (forall|q: int| 0 <= q < k ==> #[trigger] ascii_lower(hay@[i + q]) == needle@[q]),
            decreases nn - k,
        {
            let c = hay.get_char(i + k);
            let d = needle.get_char(k);
            let same = c == d || ('a' <= d && d <= 'z' && (c as u32) + 32 == (d as u32));
            assert(same == (ascii_lower(c) == d)) by {
                assert(is_lower_or_digit(needle@[k as int]));
            }
            if !same {
                all = false;
            }
            k = k + 1;
        }
        if all {
            assert(matches_lowered_at(hay@, needle@, i as int));
            return true;
        }
        assert(!matches_lowered_at(hay@, needle@, i as int));
        i = i + 1;
    }
    assert forall|p: int| !matches_lowered_at(hay@, needle@, p) by {
        if 0 <= p && p < i {
        }
    }
    false
}

/// Codec efficiency in half units: AV1 4, H.265/HEVC 3, anything else 2.
pub fn get_codec_efficiency_halves(codec: &str) -> (res: i128)
    ensures
        res == codec_efficiency_halves(codec@),
{
    proof {
        reveal_strlit("av1");
        reveal_strlit("hevc");
        reveal_strlit("h265");
    }
    if contains_ignoring_case(codec, "av1") {
        4
    } else if contains_ignoring_case(codec, "hevc") || contains_ignoring_case(codec, "h265") {
        3
    } else {
        2
    }
}

/// Effective bitrate in half units (see `effective_bitrate_halves`): twice
/// the bitrate times the codec multiplier, computed exactly in integers.
pub fn calculate_effective_bitrate(source: &MediaSource) -> (res: i128)
    ensures
        res == effective_bitrate_halves(*source),
{
    let bitrate: i128 = match source.bitrate {
        Some(b) => b as i128,
        None => 0,
    };
    let weight = match get_codec(source) {
        Some(c) => get_codec_efficiency_halves(c.as_str()),
        None => {
            proof {
                reveal_strlit("av1");
                reveal_strlit("hevc");
                reveal_strlit("h265");
                assert(!contains_lowered(Seq::<char>::empty(), "av1"@));
                assert(!contains_lowered(Seq::<char>::empty(), "hevc"@));
                assert(!contains_lowered(Seq::<char>::empty(), "h265"@));
            }
            2
        },
    };
    assert(-0x8000_0000_0000_0000 <= bitrate < 0x8000_0000_0000_0000);
    assert(2 <= weight <= 4);
    assert(bitrate * weight <= 4 * 0x8000_0000_0000_0000) by (nonlinear_arith)
        requires
            -0x8000_0000_0000_0000 <= bitrate < 0x8000_0000_0000_0000,
            2 <= weight <= 4,
    ;
    assert(bitrate * weight >= -4 * 0x8000_0000_0000_0000) by (nonlinear_arith)
        requires
            -0x8000_0000_0000_0000 <= bitrate < 0x8000_0000_0000_0000,
            2 <= weight <= 4,
    ;
    bitrate * weight
}

/// Whether `candidate` outranks `current_best`.
pub fn is_better_source(candidate: &MediaSource, current_best: &MediaSource) -> (res: bool)
    ensures
        res == outranks(*candidate, *current_best),
{
    let candidate_height = normalize_height(get_height(candidate));
    let best_height = normalize_height(get_height(current_best));
    if candidate_height > best_height {
        return true;
    }
    if candidate_height < best_height {
        return false;
    }
    let candidate_effective_bitrate = calculate_effective_bitrate(candidate);
    let best_effective_bitrate = calculate_effective_bitrate(current_best);
    candidate_effective_bitrate > best_effective_bitrate
}

/// The index of the version to keep: the first source that no other source
/// outranks; `None` for an empty list.
pub fn select_best_source(sources: &[MediaSource]) -> (res: Option<usize>)
    ensures
        res is None <==> sources@.len() == 0,
        res matches Some(b) ==> is_first_best(sources@, b as int),
{
    if sources.len() == 0 {
        return None;
    }
    let n = sources.len();
    let mut best_idx: usize = 0;
    let mut idx: usize = 1;
    while idx < n
        invariant
            1 <= idx <= n,
            n == sources@.len(),
            best_idx < idx,
            forall|j: int| 0 <= j < idx ==> !outranks(#[trigger] sources@[j], sources@[best_idx as int]),
            forall|j: int| 0 <= j < best_idx ==> outranks(sources@[best_idx as int], #[trigger] sources@[j]),
        decreases n - idx,
    {
        if is_better_source(&sources[idx], &sources[best_idx]) {
            best_idx = idx;
        }
        idx = idx + 1;
    }
    Some(best_idx)
}

} // verus!
