use regex::Regex;
use stream_autodj::segment::SongSegment;
use stream_autodj::song::Song;

const PIECES: [&str; 12] =
    ["loop", "-to-", "-end", "0", "12", "x", "-", "to", "l", "end", "start", "9"];

fn names() -> Vec<String> {
    let mut all = vec![String::new()];
    let mut last = vec![String::new()];
    for _ in 0..4 {
        let mut next = Vec::new();
        for name in &last {
            for piece in PIECES {
                next.push(format!("{}{}", name, piece));
            }
        }
        all.extend(next.iter().cloned());
        last = next;
    }
    all
}

#[test]
fn loop_shape_is_the_pattern_of_a_loop() {
    let loop_pattern = Regex::new(r"loop(\d+)?$").unwrap();
    let transition_pattern = Regex::new(r"loop(\d+)-to-(\d+)").unwrap();
    for name in names() {
        let segment = SongSegment::new(&name, "ogg");
        assert_eq!(
            segment.is_loop(),
            loop_pattern.is_match(&name) && !transition_pattern.is_match(&name),
            "{}",
            name
        );
    }
}

#[test]
fn transition_shape_is_the_pattern_of_a_transition() {
    let transition_pattern = Regex::new(r"loop(\d+)-to-(\d+)").unwrap();
    for name in names() {
        let segment = SongSegment::new(&name, "ogg");
        assert_eq!(segment.is_dedicated_transition(), transition_pattern.is_match(&name), "{}", name);
    }
}

#[test]
fn transition_target_is_the_second_group_of_the_pattern() {
    let transition_pattern = Regex::new(r"loop(\d+)-to-(\d+)").unwrap();
    for name in names() {
        if let Some(groups) = transition_pattern.captures(&name) {
            let mut song = Song::new("s", false);
            song.insert_segment(SongSegment::new(&name, "ogg")).unwrap();
            song.build_transitions();
            assert_eq!(
                *song.segment(&name).unwrap().allowed_transitions(),
                vec![format!("loop{}", groups.get(2).unwrap().as_str())],
                "{}",
                name
            );
        }
    }
}

#[test]
fn end_shape_is_the_suffix() {
    for name in names() {
        assert_eq!(SongSegment::new(&name, "ogg").is_end(), name.ends_with("end"), "{}", name);
    }
}
