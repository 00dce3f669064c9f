use stream_autodj::errors::DjError;
use stream_autodj::segment::{detect_file_type, get_song_name, parse_segment, FileType, SongSegment};

#[test]
fn test_is_loop() {
    assert!(SongSegment::new("loop", "wav").is_loop());
    assert!(SongSegment::new("loop0", "wav").is_loop());
    assert!(SongSegment::new("loop1", "wav").is_loop());
    assert!(!SongSegment::new("loop0-to-1", "wav").is_loop());
    assert!(!SongSegment::new("start", "wav").is_loop());
    assert!(!SongSegment::new("end", "wav").is_loop());
}

#[test]
fn test_is_dedicated_transition() {
    assert!(!SongSegment::new("loop", "wav").is_dedicated_transition());
    assert!(!SongSegment::new("loop0", "wav").is_dedicated_transition());
    assert!(SongSegment::new("loop0-to-1", "wav").is_dedicated_transition());
}

#[test]
fn test_is_end() {
    assert!(SongSegment::new("end", "wav").is_end());
    assert!(SongSegment::new("loop0-end", "wav").is_end());
}

#[test]
fn is_loop_reads_the_end_of_the_name() {
    assert!(SongSegment::new("loop12", "ogg").is_loop());
    assert!(SongSegment::new("myloop7", "ogg").is_loop());
    assert!(!SongSegment::new("loop0-end", "ogg").is_loop());
    assert!(!SongSegment::new("loop1x", "ogg").is_loop());
    assert!(!SongSegment::new("loo", "ogg").is_loop());
    assert!(!SongSegment::new("", "ogg").is_loop());
    assert!(!SongSegment::new("loop1-to-2loop3", "ogg").is_loop());
}

#[test]
fn dedicated_transition_needs_both_numbers() {
    assert!(SongSegment::new("loop10-to-12", "ogg").is_dedicated_transition());
    assert!(SongSegment::new("xloop1-to-2y", "ogg").is_dedicated_transition());
    assert!(!SongSegment::new("loop-to-1", "ogg").is_dedicated_transition());
    assert!(!SongSegment::new("loop1-to-", "ogg").is_dedicated_transition());
    assert!(!SongSegment::new("loop1-to", "ogg").is_dedicated_transition());
    assert!(!SongSegment::new("loop1to2", "ogg").is_dedicated_transition());
    assert!(!SongSegment::new("start", "ogg").is_dedicated_transition());
}

#[test]
fn is_end_needs_the_whole_word() {
    assert!(!SongSegment::new("en", "ogg").is_end());
    assert!(!SongSegment::new("ending", "ogg").is_end());
    assert!(!SongSegment::new("start", "ogg").is_end());
    assert!(SongSegment::new("weekend", "ogg").is_end());
}

#[test]
fn new_segment_has_no_transitions() {
    let segment = SongSegment::new("loop3", "flac");
    assert_eq!(segment.id(), "loop3");
    assert_eq!(segment.format(), "flac");
    assert!(segment.allowed_transitions().is_empty());
    assert_eq!(segment.duplicate(), segment);
}

#[test]
fn detect_file_type_by_extension() {
    assert_eq!(detect_file_type("song_1_start.wav"), Ok(FileType::SegmentFormat));
    assert_eq!(detect_file_type("song_1_start.ogg"), Ok(FileType::SegmentFormat));
    assert_eq!(detect_file_type("song_1_start.mp3"), Ok(FileType::SegmentFormat));
    assert_eq!(detect_file_type("song_1_start.flac"), Ok(FileType::SegmentFormat));
    assert_eq!(detect_file_type("song_1.zip"), Ok(FileType::SongArchiveFormat));
    assert_eq!(detect_file_type("a.b.zip"), Ok(FileType::SongArchiveFormat));
    assert_eq!(detect_file_type("ogg"), Ok(FileType::SegmentFormat));
}

#[test]
fn detect_file_type_rejects_other_extensions() {
    assert_eq!(
        detect_file_type("notes.txt"),
        Err(DjError::UnrecognizedSongFormat("notes.txt".to_string()))
    );
    assert_eq!(
        detect_file_type("song_1_start"),
        Err(DjError::UnrecognizedSongFormat("song_1_start".to_string()))
    );
    assert_eq!(
        detect_file_type("song.ogg."),
        Err(DjError::UnrecognizedSongFormat("song.ogg.".to_string()))
    );
    assert_eq!(
        detect_file_type("song.OGG"),
        Err(DjError::UnrecognizedSongFormat("song.OGG".to_string()))
    );
}

#[test]
fn song_name_is_all_but_the_last_token() {
    assert_eq!(get_song_name("song_1_start.ogg"), Ok("song_1".to_string()));
    assert_eq!(get_song_name("y3_loop0-to-1.ogg"), Ok("y3".to_string()));
    assert_eq!(get_song_name("a__b.ogg"), Ok("a_".to_string()));
}

#[test]
fn song_name_must_not_be_empty() {
    assert_eq!(
        get_song_name("start.ogg"),
        Err(DjError::InvalidFileName("start.ogg".to_string()))
    );
    assert_eq!(
        get_song_name("_start.ogg"),
        Err(DjError::InvalidFileName("_start.ogg".to_string()))
    );
    assert_eq!(get_song_name(""), Err(DjError::InvalidFileName("".to_string())));
}

#[test]
fn parse_segment_takes_the_last_token() {
    assert_eq!(parse_segment("song_1_loop0.ogg"), Ok(SongSegment::new("loop0", "ogg")));
    assert_eq!(parse_segment("start.wav"), Ok(SongSegment::new("start", "wav")));
    assert_eq!(parse_segment("s_loop.tar.gz"), Ok(SongSegment::new("loop", "tar")));
    assert_eq!(parse_segment("s_loop."), Ok(SongSegment::new("loop", "")));
    assert_eq!(parse_segment("a.b_.ogg"), Ok(SongSegment::new("", "ogg")));
}

#[test]
fn parse_segment_needs_a_format() {
    assert_eq!(
        parse_segment("song_1_loop0"),
        Err(DjError::UnrecognizedSongFormat("song_1_loop0".to_string()))
    );
    assert_eq!(
        parse_segment("song.ogg_loop"),
        Err(DjError::UnrecognizedSongFormat("song.ogg_loop".to_string()))
    );
    assert_eq!(parse_segment("song_"), Err(DjError::UnrecognizedSongFormat("song_".to_string())));
}

#[test]
fn error_messages() {
    assert_eq!(DjError::NoOutputDeviceAvailable.message(), "no output device is available");
    assert_eq!(DjError::MaxRepeatsInvalidValue.message(), "invalid value for max-repeats");
    assert_eq!(
        DjError::UnrecognizedSongFormat("a.txt".to_string()).message(),
        "'a.txt' - unrecognized song format. Only wav, flac, ogg, mp3 and zip are supported"
    );
    assert_eq!(
        DjError::PathNotValidUnicode.message(),
        "one or several files have non Unicode characters in their path or filename"
    );
    assert_eq!(
        DjError::InvalidFileName("x".to_string()).message(),
        "'x' - invalid file name. Files should be named in this format: song_1_start"
    );
    assert_eq!(
        DjError::MultipleSegmentsWithSameId("s".to_string(), "loop".to_string()).message(),
        "found multiple segments with same ID: Song: s Segment: loop"
    );
    assert_eq!(DjError::PlanTooLong.message(), "plan too long");
}
