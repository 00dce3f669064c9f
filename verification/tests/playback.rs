use stream_autodj::playback::{choose_rendering, Rendering, MIN_REPEATS};
use stream_autodj::repeat::{repeat_with_count, Frame, RepeatCount, SILENT_CHANNELS, SILENT_RATE};
use stream_autodj::segment::SongSegment;
use stream_autodj::song::Song;

fn drain<T: Copy>(stream: &mut RepeatCount<T>) -> Vec<T> {
    let mut out = Vec::new();
    while let Some(sample) = stream.next() {
        out.push(sample);
    }
    out
}

#[test]
fn repeating_a_thousand_samples_three_times() {
    let data: Vec<i16> = (0..1000).map(|i| i as i16).collect();
    let mut stream =
        repeat_with_count(vec![Frame { channels: 2, rate: 48000, data: data.clone() }], 3);
    let out = drain(&mut stream);
    assert_eq!(out.len(), 3000);
    for (i, sample) in out.iter().enumerate() {
        assert_eq!(*sample, data[i % 1000]);
    }
    assert_eq!(stream.next(), None);
    assert_eq!(stream.next(), None);
}

#[test]
fn repeating_float_samples_over_several_frames() {
    let frames = vec![
        Frame { channels: 1, rate: 44100, data: vec![0.5f32, -0.5] },
        Frame { channels: 2, rate: 22050, data: vec![] },
        Frame { channels: 2, rate: 48000, data: vec![0.25f32] },
    ];
    let mut stream = repeat_with_count(frames, 2);
    assert_eq!(drain(&mut stream), vec![0.5, -0.5, 0.25, 0.5, -0.5, 0.25]);
}

#[test]
fn count_below_one_plays_once() {
    for count in [1, 0, -4] {
        let mut stream =
            repeat_with_count(vec![Frame { channels: 1, rate: 8000, data: vec![7u16, 8, 9] }], count);
        assert_eq!(drain(&mut stream), vec![7, 8, 9]);
    }
}

#[test]
fn empty_segment_yields_nothing() {
    let mut stream = repeat_with_count(Vec::<Frame<i16>>::new(), 5);
    assert_eq!(stream.next(), None);
    assert_eq!(stream.current_frame_len(), 0);
    assert_eq!(stream.channels(), SILENT_CHANNELS);
    assert_eq!(stream.sample_rate(), SILENT_RATE);
    assert_eq!(SILENT_CHANNELS, 1);
    assert_eq!(SILENT_RATE, 44100);
}

#[test]
fn format_is_that_of_the_frame_of_the_next_sample() {
    let frames = vec![
        Frame { channels: 1, rate: 44100, data: vec![1i16, 2] },
        Frame { channels: 2, rate: 48000, data: vec![3i16, 4, 5] },
    ];
    let mut stream = repeat_with_count(frames, 2);
    assert_eq!((stream.channels(), stream.sample_rate(), stream.current_frame_len()), (1, 44100, 2));
    assert_eq!(stream.next(), Some(1));
    assert_eq!(stream.current_frame_len(), 1);
    assert_eq!(stream.next(), Some(2));
    assert_eq!((stream.channels(), stream.sample_rate(), stream.current_frame_len()), (2, 48000, 3));
    assert_eq!(stream.next(), Some(3));
    assert_eq!(stream.next(), Some(4));
    assert_eq!(stream.next(), Some(5));
    assert_eq!((stream.channels(), stream.sample_rate(), stream.current_frame_len()), (1, 44100, 2));
    assert_eq!(stream.next(), Some(1));
    assert_eq!(drain(&mut stream), vec![2, 3, 4, 5]);
    assert_eq!((stream.channels(), stream.sample_rate(), stream.current_frame_len()), (1, 44100, 2));
    assert_eq!(stream.next(), None);
}

#[test]
fn copies_have_places_of_their_own() {
    let mut stream =
        repeat_with_count(vec![Frame { channels: 1, rate: 8000, data: vec![1i16, 2, 3] }], 2);
    assert_eq!(stream.next(), Some(1));
    let mut copy = stream.duplicate();
    assert_eq!(stream.next(), Some(2));
    assert_eq!(drain(&mut copy), vec![2, 3, 1, 2, 3]);
    assert_eq!(drain(&mut stream), vec![3, 1, 2, 3]);
}

#[test]
fn loops_are_repeated_and_other_segments_are_not() {
    let mut rng = rand::thread_rng();
    assert_eq!(MIN_REPEATS, 5);
    for id in ["start", "end", "loop0-to-1", "loop0-end"] {
        assert_eq!(choose_rendering(&SongSegment::new(id, "ogg"), &mut rng, 13), Rendering::Once);
        assert_eq!(choose_rendering(&SongSegment::new(id, "ogg"), &mut rng, 0), Rendering::Once);
    }
    let mut seen = [false; 13];
    for _ in 0..2000 {
        for id in ["loop", "loop4"] {
            match choose_rendering(&SongSegment::new(id, "ogg"), &mut rng, 13) {
                Rendering::Repeated(n) => {
                    assert!((5..13).contains(&n));
                    seen[n as usize] = true;
                }
                Rendering::Once => panic!("a loop is repeated"),
            }
        }
    }
    assert_eq!(seen.iter().filter(|s| **s).count(), 8);
    assert_eq!(
        choose_rendering(&SongSegment::new("loop", "ogg"), &mut rng, 6),
        Rendering::Repeated(5)
    );
}

#[test]
fn paths_of_segment_files() {
    let mut plain = Song::new("song_1", false);
    plain.insert_segment(SongSegment::new("loop0", "ogg")).unwrap();
    let segment = plain.segment("loop0").unwrap();
    assert_eq!(plain.file_path(segment, "./songs"), "./songs/song_1_loop0.ogg");
    assert_eq!(segment.member_name(), "loop0.ogg");
    let mut packed = Song::new("song_archive", true);
    packed.insert_segment(SongSegment::new("start", "wav")).unwrap();
    let segment = packed.segment("start").unwrap();
    assert_eq!(packed.file_path(segment, "songs"), "songs/song_archive.zip");
    assert_eq!(segment.member_name(), "start.wav");
}
