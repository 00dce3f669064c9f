use std::collections::HashSet;
use stream_autodj::catalog::{find_song, initialize_songs, PathEntry};
use stream_autodj::errors::DjError;
use stream_autodj::graph::initialize_transitions;
use stream_autodj::segment::SongSegment;
use stream_autodj::song::Song;

fn files(paths: &[&str]) -> Vec<PathEntry> {
    paths.iter().map(|p| PathEntry::file(p)).collect()
}

fn song_of(id: &str, is_archive: bool, segments: &[(&str, &str)]) -> Song {
    let mut song = Song::new(id, is_archive);
    for (segment, format) in segments {
        song.insert_segment(SongSegment::new(segment, format)).unwrap();
    }
    song
}

fn get<'a>(songs: &'a Vec<Song>, id: &str) -> &'a Song {
    &songs[find_song(songs, id).unwrap()]
}

fn next_of(song: &Song, segment: &str) -> HashSet<String> {
    song.segment(segment).unwrap().allowed_transitions().iter().cloned().collect()
}

fn set_of(ids: &[&str]) -> HashSet<String> {
    ids.iter().map(|s| s.to_string()).collect()
}

fn flags(song: &Song) -> (bool, bool, bool, bool, bool) {
    (
        song.has_end(),
        song.has_global_ending(),
        song.has_multiple_loops(),
        song.has_dedicated_transitions(),
        song.is_archive(),
    )
}

#[test]
fn test_song_archive() {
    let paths = vec![PathEntry::archive(
        "test-data/test_song_archive/song_archive.zip",
        vec!["start.wav".to_string(), "loop.wav".to_string()],
    )];
    let songs = initialize_songs(&paths).unwrap();
    let song = get(&songs, "song_archive");
    assert_eq!(*song, song_of("song_archive", true, &[("start", "wav"), ("loop", "wav")]));
    assert_eq!(song.id(), "song_archive");
    assert_eq!(flags(song), (false, false, false, false, true));
    assert!(song.segment("start").unwrap().allowed_transitions().is_empty());
    assert!(song.segment("loop").unwrap().allowed_transitions().is_empty());
}

#[test]
fn test_initialize_songs() {
    let paths = files(&[
        "songs/song_1_start.ogg",
        "songs/song_1_loop.ogg",
        "songs/song_1_end.ogg",
        "songs/song_2_start.ogg",
        "songs/song_2_loop0.ogg",
        "songs/song_2_loop1.ogg",
        "songs/song_2_end.ogg",
        "songs/y3_start.ogg",
        "songs/y3_loop0.ogg",
        "songs/y3_loop0-to-1.ogg",
        "songs/y3_loop1.ogg",
        "songs/y3_end.ogg",
        "songs/song_wav_start.wav",
        "songs/song_wav_loop.wav",
        "songs/song_wav_end.wav",
    ]);
    let songs = initialize_songs(&paths).unwrap();
    assert_eq!(songs.len(), 4);
    assert_eq!(
        *get(&songs, "song_1"),
        song_of("song_1", false, &[("start", "ogg"), ("loop", "ogg"), ("end", "ogg")])
    );
    assert_eq!(flags(get(&songs, "song_1")), (true, true, false, false, false));
    assert_eq!(
        *get(&songs, "song_2"),
        song_of(
            "song_2",
            false,
            &[("start", "ogg"), ("loop0", "ogg"), ("loop1", "ogg"), ("end", "ogg")]
        )
    );
    assert_eq!(flags(get(&songs, "song_2")), (true, true, true, false, false));
    assert_eq!(
        *get(&songs, "y3"),
        song_of(
            "y3",
            false,
            &[
                ("start", "ogg"),
                ("loop0", "ogg"),
                ("loop0-to-1", "ogg"),
                ("loop1", "ogg"),
                ("end", "ogg")
            ]
        )
    );
    assert_eq!(flags(get(&songs, "y3")), (true, true, true, true, false));
    assert_eq!(
        *get(&songs, "song_wav"),
        song_of("song_wav", false, &[("start", "wav"), ("loop", "wav"), ("end", "wav")])
    );
    assert_eq!(flags(get(&songs, "song_wav")), (true, true, false, false, false));
    for song in &songs {
        for segment in song.segments() {
            assert!(segment.allowed_transitions().is_empty());
        }
    }
}

#[test]
#[should_panic(
    expected = "called `Result::unwrap()` on an `Err` value: MultipleSegmentsWithSameId(\"song_format\", \"loop\")"
)]
fn test_detect_duplicate_segment() {
    let paths = files(&[
        "song_format_start.wav",
        "song_format_end.wav",
        "song_format_loop.wav",
        "song_format_loop.ogg",
    ]);
    initialize_songs(&paths).unwrap();
}

#[test]
fn test_initialize_transitions() {
    let mut songs = vec![
        song_of("1", false, &[("start", "ogg"), ("loop", "ogg"), ("end", "ogg")]),
        song_of(
            "2",
            false,
            &[("start", "ogg"), ("loop0", "ogg"), ("loop1", "ogg"), ("end", "ogg")],
        ),
        song_of(
            "3",
            false,
            &[
                ("start", "ogg"),
                ("loop0", "ogg"),
                ("loop0-to-1", "ogg"),
                ("loop1", "ogg"),
                ("end", "ogg"),
            ],
        ),
    ];
    assert_eq!(flags(&songs[0]), (true, true, false, false, false));
    assert_eq!(flags(&songs[1]), (true, true, true, false, false));
    assert_eq!(flags(&songs[2]), (true, true, true, true, false));

    initialize_transitions(&mut songs);

    assert_eq!(next_of(get(&songs, "1"), "start"), set_of(&["loop"]));
    assert_eq!(next_of(get(&songs, "1"), "loop"), set_of(&["end"]));
    assert_eq!(next_of(get(&songs, "1"), "end"), HashSet::new());

    assert_eq!(next_of(get(&songs, "2"), "start"), set_of(&["loop0"]));
    assert_eq!(next_of(get(&songs, "2"), "loop0"), set_of(&["loop1", "end"]));
    assert_eq!(next_of(get(&songs, "2"), "loop1"), set_of(&["loop0", "end"]));
    assert_eq!(next_of(get(&songs, "2"), "end"), HashSet::new());

    assert_eq!(next_of(get(&songs, "3"), "start"), set_of(&["loop0"]));
    assert_eq!(next_of(get(&songs, "3"), "loop0"), set_of(&["loop0-to-1", "end"]));
    assert_eq!(next_of(get(&songs, "3"), "loop0-to-1"), set_of(&["loop1"]));
    assert_eq!(next_of(get(&songs, "3"), "loop1"), set_of(&["end"]));
    assert_eq!(next_of(get(&songs, "3"), "end"), HashSet::new());
}

#[test]
fn transitions_come_in_a_fixed_order() {
    let mut songs = vec![song_of(
        "s",
        false,
        &[("start", "ogg"), ("loop0", "ogg"), ("loop1", "ogg"), ("loop2", "ogg"), ("end", "ogg")],
    )];
    initialize_transitions(&mut songs);
    let song = &songs[0];
    assert_eq!(
        *song.segment("loop1").unwrap().allowed_transitions(),
        vec!["end".to_string(), "loop0".to_string(), "loop2".to_string()]
    );
    assert_eq!(song.segment("loop1").unwrap().format(), "ogg");
    assert_eq!(flags(song), (true, true, true, false, false));
}

#[test]
fn single_loop_with_end_graph() {
    let mut songs =
        initialize_songs(&files(&["song_1_start.ogg", "song_1_loop.ogg", "song_1_end.ogg"]))
            .unwrap();
    let song = get(&songs, "song_1");
    assert!(song.has_end());
    assert!(!song.has_multiple_loops());
    assert!(!song.has_dedicated_transitions());
    initialize_transitions(&mut songs);
    let song = get(&songs, "song_1");
    assert_eq!(next_of(song, "start"), set_of(&["loop"]));
    assert_eq!(next_of(song, "loop"), set_of(&["end"]));
    assert_eq!(next_of(song, "end"), HashSet::new());
}

#[test]
fn two_loops_with_end_graph() {
    let mut songs = initialize_songs(&files(&[
        "song_2_start.ogg",
        "song_2_loop0.ogg",
        "song_2_loop1.ogg",
        "song_2_end.ogg",
    ]))
    .unwrap();
    assert!(get(&songs, "song_2").has_multiple_loops());
    initialize_transitions(&mut songs);
    let song = get(&songs, "song_2");
    assert_eq!(next_of(song, "loop0"), set_of(&["loop1", "end"]));
    assert_eq!(next_of(song, "loop1"), set_of(&["loop0", "end"]));
}

#[test]
fn dedicated_transition_graph() {
    let mut songs = initialize_songs(&files(&[
        "y3_start.ogg",
        "y3_loop0.ogg",
        "y3_loop0-to-1.ogg",
        "y3_loop1.ogg",
        "y3_end.ogg",
    ]))
    .unwrap();
    assert!(get(&songs, "y3").has_dedicated_transitions());
    initialize_transitions(&mut songs);
    let song = get(&songs, "y3");
    assert_eq!(next_of(song, "loop0"), set_of(&["loop0-to-1", "end"]));
    assert_eq!(next_of(song, "loop0-to-1"), set_of(&["loop1"]));
    assert_eq!(next_of(song, "loop1"), set_of(&["end"]));
}

#[test]
fn transition_target_is_the_second_number() {
    let mut songs = vec![song_of(
        "s",
        false,
        &[("start", "ogg"), ("loop10", "ogg"), ("loop10-to-23", "ogg"), ("loop23", "ogg")],
    )];
    initialize_transitions(&mut songs);
    assert_eq!(
        *songs[0].segment("loop10-to-23").unwrap().allowed_transitions(),
        vec!["loop23".to_string()]
    );
    assert_eq!(
        *songs[0].segment("loop10").unwrap().allowed_transitions(),
        vec!["loop10-to-23".to_string()]
    );
    assert!(songs[0].segment("loop23").unwrap().allowed_transitions().is_empty());
}

#[test]
fn loop_specific_endings() {
    let mut songs = vec![song_of(
        "s",
        false,
        &[("start", "ogg"), ("loop0", "ogg"), ("loop1", "ogg"), ("loop1-end", "ogg")],
    )];
    assert_eq!(flags(&songs[0]), (true, false, true, false, false));
    initialize_transitions(&mut songs);
    assert_eq!(next_of(&songs[0], "loop0"), set_of(&["loop1"]));
    assert_eq!(next_of(&songs[0], "loop1"), set_of(&["loop0", "loop1-end"]));
    assert_eq!(next_of(&songs[0], "loop1-end"), HashSet::new());
}

#[test]
fn first_ending_decides_the_global_ending() {
    let first_end = song_of("s", false, &[("end", "ogg"), ("loop0-end", "ogg")]);
    assert!(first_end.has_end());
    assert!(first_end.has_global_ending());
    let first_own = song_of("s", false, &[("loop0-end", "ogg"), ("end", "ogg")]);
    assert!(first_own.has_end());
    assert!(!first_own.has_global_ending());
}

#[test]
fn duplicate_segment_of_another_format() {
    let paths = files(&["songs/a_loop.wav", "songs/a_loop.ogg"]);
    assert_eq!(
        initialize_songs(&paths),
        Err(DjError::MultipleSegmentsWithSameId("a".to_string(), "loop".to_string()))
    );
}

#[test]
fn duplicate_segment_in_an_archive() {
    let paths = vec![
        PathEntry::file("songs/a_loop.wav"),
        PathEntry::archive("songs/a.zip", vec!["start.ogg".to_string(), "loop.ogg".to_string()]),
    ];
    assert_eq!(
        initialize_songs(&paths),
        Err(DjError::MultipleSegmentsWithSameId("a".to_string(), "loop".to_string()))
    );
}

#[test]
fn insert_segment_refuses_a_second_of_a_name() {
    let mut song = song_of("s", false, &[("start", "ogg")]);
    let before = song.clone();
    assert_eq!(
        song.insert_segment(SongSegment::new("start", "wav")),
        Err(DjError::MultipleSegmentsWithSameId("s".to_string(), "start".to_string()))
    );
    assert_eq!(song, before);
    assert_eq!(song.find_segment("start"), Some(0));
    assert_eq!(song.find_segment("loop"), None);
    assert!(song.segment("loop").is_none());
}

#[test]
fn unknown_extensions_are_passed_over() {
    let paths = files(&["songs/readme.txt", "songs/a_start.ogg", "songs/cover", "songs/.."]);
    let songs = initialize_songs(&paths).unwrap();
    assert_eq!(songs.len(), 1);
    assert_eq!(songs[0], song_of("a", false, &[("start", "ogg")]));
}

#[test]
fn file_without_a_song_ends_the_build() {
    let paths = files(&["songs/a_start.ogg", "songs/start.ogg", "songs/a_start.ogg"]);
    assert_eq!(
        initialize_songs(&paths),
        Err(DjError::InvalidFileName("start.ogg".to_string()))
    );
}

#[test]
fn file_without_a_format_behind_the_song_ends_the_build() {
    let paths = files(&["songs/a.ogg_start"]);
    assert_eq!(initialize_songs(&paths), Ok(vec![]));
    let paths = files(&["songs/a.b_start.ogg", "songs/x.y_z.ogg"]);
    let songs = initialize_songs(&paths).unwrap();
    assert_eq!(songs.len(), 2);
    let paths = vec![PathEntry::archive("songs/a.zip", vec!["start".to_string()])];
    assert_eq!(
        initialize_songs(&paths),
        Err(DjError::UnrecognizedSongFormat("start".to_string()))
    );
}

#[test]
fn empty_archive_makes_an_empty_song() {
    let paths = vec![PathEntry::archive("a.b.zip", vec![])];
    let songs = initialize_songs(&paths).unwrap();
    assert_eq!(songs, vec![Song::new("a", true)]);
    assert!(find_song(&songs, "b").is_none());
}

#[test]
fn multiloop_song_never_refers_to_plain_loop() {
    for loop_count in 2..10 {
        let mut paths: Vec<String> = vec!["songs/abc1_start.ogg".to_string()];
        for i in 0..loop_count {
            paths.push(format!("songs/abc1_loop{}.ogg", i));
        }
        let entries: Vec<PathEntry> = paths.iter().map(|p| PathEntry::file(p)).collect();
        let mut songs = initialize_songs(&entries).unwrap();
        initialize_transitions(&mut songs);
        for song in &songs {
            for segment in song.segments() {
                assert_ne!(segment.id(), "loop");
                assert_ne!(segment.id(), "start-never");
                for transition in segment.allowed_transitions() {
                    assert_ne!(transition, "loop");
                    assert_ne!(transition, "start");
                }
            }
        }
    }
}
