use ytmp3::classify::classify;
use ytmp3::classify::is_blank;
use ytmp3::classify::parse_progress;
use ytmp3::classify::LineClass;

#[test]
fn percent_token_with_marker() {
    assert_eq!(parse_progress(b"[download]  45.2% of 10MiB".as_slice()), Some(452));
}

#[test]
fn percent_token_whole_number() {
    assert_eq!(parse_progress(b"[download] 100% of 3.5MiB in 00:02".as_slice()), Some(1000));
}

#[test]
fn percent_token_zero() {
    assert_eq!(parse_progress(b"[download]   0.0%".as_slice()), Some(0));
}

#[test]
fn percent_extra_fraction_digits_truncate_to_tenths() {
    assert_eq!(parse_progress(b"[download] 45.25%".as_slice()), Some(452));
}

#[test]
fn percent_trailing_point() {
    assert_eq!(parse_progress(b"[download] 45.%".as_slice()), Some(450));
}

#[test]
fn percent_doubled_sign() {
    assert_eq!(parse_progress(b"[download] 45.2%%".as_slice()), Some(452));
}

#[test]
fn percent_first_token_wins() {
    assert_eq!(parse_progress(b"[download] 12.5% then 90%".as_slice()), Some(125));
}

#[test]
fn percent_bare_sign_is_not_a_token() {
    assert_eq!(parse_progress(b"[download] %".as_slice()), None);
}

#[test]
fn percent_non_numeric_word() {
    assert_eq!(parse_progress(b"[download] abc% def".as_slice()), None);
}

#[test]
fn no_marker_no_progress() {
    assert_eq!(parse_progress(b"  45.2% of 10MiB".as_slice()), None);
}

#[test]
fn no_marker_not_classified_as_progress() {
    assert_eq!(classify(b"45.2% done".as_slice(), false), LineClass::NoMatch);
}

#[test]
fn frag_token() {
    assert_eq!(parse_progress(b"[download] (frag 3/10)".as_slice()), Some(300));
}

#[test]
fn frag_token_bare() {
    assert_eq!(parse_progress(b"[download] frag 3/10".as_slice()), Some(300));
}

#[test]
fn frag_token_mid_line() {
    assert_eq!(parse_progress(b"[download] frag 3/10 of x".as_slice()), Some(300));
    assert_eq!(parse_progress(b"[download] part (frag 5/10) remains".as_slice()), Some(500));
}

#[test]
fn frag_zero_total() {
    assert_eq!(parse_progress(b"[download] frag 3/0".as_slice()), None);
}

#[test]
fn frag_rounds_down() {
    assert_eq!(parse_progress(b"[download] frag 1/3".as_slice()), Some(333));
}

#[test]
fn percent_beats_frag() {
    assert_eq!(parse_progress(b"[download] 12.5% (frag 1/4)".as_slice()), Some(125));
}

#[test]
fn frag_without_slash() {
    assert_eq!(parse_progress(b"[download] frag ten".as_slice()), None);
}

#[test]
fn classify_extract_audio() {
    assert_eq!(classify(b"[ExtractAudio] Destination: song.mp3".as_slice(), false), LineClass::ExtractAudio);
}

#[test]
fn classify_source_tag() {
    assert_eq!(classify(b"[youtube] extracting info".as_slice(), false), LineClass::Fetching);
}

#[test]
fn classify_stream_preparation() {
    assert_eq!(classify(b"[hlsnative] Downloading m3u8 manifest".as_slice(), false), LineClass::Preparing);
}

#[test]
fn classify_info_line() {
    assert_eq!(classify(b"[info] Writing video metadata".as_slice(), false), LineClass::Preparing);
}

#[test]
fn classify_cleanup() {
    assert_eq!(classify(b"Deleting original file song.webm".as_slice(), false), LineClass::Finishing);
}

#[test]
fn classify_empty_line() {
    assert_eq!(classify(b"".as_slice(), false), LineClass::NoMatch);
}

#[test]
fn classify_progress_line() {
    assert_eq!(classify(b"[download]  10.0% of ~4MiB".as_slice(), false), LineClass::Progress(100));
}

#[test]
fn latched_source_tag_is_suppressed() {
    assert_eq!(classify(b"[youtube] tag after extraction".as_slice(), true), LineClass::NoMatch);
    assert_eq!(classify(b"[info] late info".as_slice(), true), LineClass::NoMatch);
}

#[test]
fn latched_line_falls_through_to_cleanup() {
    assert_eq!(
        classify(b"[info] Deleting original file song.webm".as_slice(), true),
        LineClass::Finishing
    );
    assert_eq!(
        classify(b"[info] Deleting original file song.webm".as_slice(), false),
        LineClass::Preparing
    );
}

#[test]
fn blank_lines() {
    assert!(is_blank(b"".as_slice()));
    assert!(is_blank(b" \t \r\n".as_slice()));
    assert!(!is_blank(b" a ".as_slice()));
}
