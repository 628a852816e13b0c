use aoc22::{_find_marker, day_6_1, day_6_2, find_marker_hashset, find_marker_pairwise, AppError};

#[test]
fn test_find_marker() {
    let bytestream = "mjqjpqmgbljsphdztnvjfqwrcgsmlb";
    let marker_pos = 7;
    assert_eq!(_find_marker(bytestream), Some(marker_pos));

    let bytestream = "bvwbjplbgvbhsrlpgdmjqwftvncz";
    let marker_pos = 5;
    assert_eq!(_find_marker(bytestream), Some(marker_pos));

    let bytestream = "nppdvjthqldpwncqszvftbrmjlhg";
    let marker_pos = 6;
    assert_eq!(_find_marker(bytestream), Some(marker_pos));

    let bytestream = "nznrnfrfntjfmvfwmzdfjlvtqnbhcprsg";
    let marker_pos = 10;
    assert_eq!(_find_marker(bytestream), Some(marker_pos));

    let bytestream = "zcfzfwzzqfrljwzlrfnpqdbhtmscgvjw";
    let marker_pos = 11;
    assert_eq!(_find_marker(bytestream), Some(marker_pos));
}

#[test]
fn test_find_marker_hashset() {
    let bytestream = "mjqjpqmgbljsphdztnvjfqwrcgsmlb";
    let marker_pos = 7;
    assert_eq!(find_marker_hashset(bytestream.as_bytes(), 4), Some(marker_pos));
    let marker_pos = 19;
    assert_eq!(find_marker_hashset(bytestream.as_bytes(), 14), Some(marker_pos));

    let bytestream = "bvwbjplbgvbhsrlpgdmjqwftvncz";
    let marker_pos = 5;
    assert_eq!(find_marker_hashset(bytestream.as_bytes(), 4), Some(marker_pos));
    let marker_pos = 23;
    assert_eq!(find_marker_hashset(bytestream.as_bytes(), 14), Some(marker_pos));

    let bytestream = "nppdvjthqldpwncqszvftbrmjlhg";
    let marker_pos = 6;
    assert_eq!(find_marker_hashset(bytestream.as_bytes(), 4), Some(marker_pos));
    let marker_pos = 23;
    assert_eq!(find_marker_hashset(bytestream.as_bytes(), 14), Some(marker_pos));

    let bytestream = "nznrnfrfntjfmvfwmzdfjlvtqnbhcprsg";
    let marker_pos = 10;
    assert_eq!(find_marker_hashset(bytestream.as_bytes(), 4), Some(marker_pos));
    let marker_pos = 29;
    assert_eq!(find_marker_hashset(bytestream.as_bytes(), 14), Some(marker_pos));

    let bytestream = "zcfzfwzzqfrljwzlrfnpqdbhtmscgvjw";
    let marker_pos = 11;
    assert_eq!(find_marker_hashset(bytestream.as_bytes(), 4), Some(marker_pos));
    let marker_pos = 26;
    assert_eq!(find_marker_hashset(bytestream.as_bytes(), 14), Some(marker_pos));
}

#[test]
fn sliding_window_agrees_with_pairwise_check() {
    let streams = [
        "mjqjpqmgbljsphdztnvjfqwrcgsmlb",
        "aaaaaaaa",
        "abcabcabcd",
        "abab",
        "",
        "a",
        "zyxwvutsrqponmlkjihgfedcba",
        "abcdeabcdefg",
    ];
    for s in streams.iter() {
        for w in 0..16 {
            assert_eq!(
                find_marker_hashset(s.as_bytes(), w),
                find_marker_pairwise(s.as_bytes(), w),
                "stream {} width {}",
                s,
                w
            );
        }
    }
}

#[test]
fn marker_absent_or_stream_too_short() {
    assert_eq!(find_marker_hashset(b"abc", 4), None);
    assert_eq!(find_marker_hashset(b"aaaaaaa", 2), None);
    assert_eq!(find_marker_hashset(b"", 1), None);
    assert_eq!(find_marker_pairwise(b"abc", 4), None);
    assert_eq!(_find_marker("abc"), None);
    assert_eq!(_find_marker("aaaaaaaa"), None);
}

#[test]
fn marker_edge_widths() {
    assert_eq!(find_marker_hashset(b"abcd", 0), Some(0));
    assert_eq!(find_marker_hashset(b"abcd", 4), Some(4));
    assert_eq!(find_marker_hashset(b"aab", 1), Some(1));
    assert_eq!(find_marker_pairwise(b"ABCD", 4), Some(4));
}

#[test]
fn day_six_parts_on_a_line() {
    assert_eq!(day_6_1("mjqjpqmgbljsphdztnvjfqwrcgsmlb"), Ok(7));
    assert_eq!(day_6_2("mjqjpqmgbljsphdztnvjfqwrcgsmlb"), Ok(19));
    assert_eq!(day_6_1("bvwbjplbgvbhsrlpgdmjqwftvncz"), Ok(5));
    assert_eq!(day_6_2("bvwbjplbgvbhsrlpgdmjqwftvncz"), Ok(23));
}

#[test]
fn day_six_bad_input() {
    assert_eq!(day_6_1("aaaaaaaaaa"), Err(AppError::BadInput));
    assert_eq!(day_6_1("abcD"), Err(AppError::BadInput));
    assert_eq!(day_6_1("ab cd"), Err(AppError::BadInput));
    assert_eq!(day_6_2("abcdefghijklm"), Err(AppError::BadInput));
}
