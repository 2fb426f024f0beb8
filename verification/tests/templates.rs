use dust::template::rest_then_chord;
use dust::{
    gen_timing, parse_pattern, ChordParseError, ChordSpec, Duration, Mode, ModeTemplate,
    ProgressionTemplate, RandomSource, Scripted, ThreadRandom,
};

fn chord(text: &str) -> ChordSpec {
    ChordSpec::from_str(text).unwrap()
}

fn chords(texts: &[&str]) -> Vec<ChordSpec> {
    texts.iter().map(|text| chord(text)).collect()
}

fn lines(texts: &[&str]) -> Vec<String> {
    texts.iter().map(|text| text.to_string()).collect()
}

fn template() -> ProgressionTemplate {
    ProgressionTemplate::new(
        ModeTemplate::from_patterns(&lines(&["I V vi IV", "I IV", "ii"])).unwrap(),
        ModeTemplate::from_patterns(&lines(&["i VI III v"])).unwrap(),
    )
}

#[test]
fn patterns_are_chords_parted_by_spaces() {
    assert_eq!(parse_pattern("I ii:7 VI"), Ok(chords(&["I", "ii:7", "VI"])));
    assert_eq!(parse_pattern("I"), Ok(chords(&["I"])));
    assert_eq!(parse_pattern(""), Err(ChordParseError::InvalidChord("".to_string())));
    assert_eq!(parse_pattern("I  V"), Err(ChordParseError::InvalidChord("".to_string())));
    assert_eq!(parse_pattern("I V "), Err(ChordParseError::InvalidChord("".to_string())));
    assert_eq!(parse_pattern("I V7 x"), Err(ChordParseError::InvalidTriadSymbol("7".to_string())));
    assert_eq!(
        ModeTemplate::from_patterns(&lines(&["I V", "I x", "y"])),
        Err(ChordParseError::InvalidChord("x".to_string()))
    );
}

#[test]
fn transitions_list_the_chord_and_its_neighbours_in_the_ring() {
    let template = ModeTemplate::from_patterns(&lines(&["I V vi IV"])).unwrap();
    assert_eq!(template.next(&chord("I")), chords(&["I", "IV", "V"]));
    assert_eq!(template.next(&chord("V")), chords(&["V", "I", "vi"]));
    assert_eq!(template.next(&chord("vi")), chords(&["vi", "V", "IV"]));
    assert_eq!(template.next(&chord("IV")), chords(&["IV", "I", "vi"]));
    assert_eq!(template.next(&chord("ii")), chords(&[]));
}

#[test]
fn transitions_accumulate_over_patterns() {
    let template = template();
    assert_eq!(
        template.next(&chord("I"), &Mode::Major),
        chords(&["I", "IV", "V", "I", "IV", "IV"])
    );
    assert_eq!(
        template.next(&chord("IV"), &Mode::Major),
        chords(&["IV", "I", "vi", "IV", "I", "I"])
    );
    assert_eq!(template.next(&chord("ii"), &Mode::Major), chords(&["ii", "ii", "ii"]));
    assert_eq!(template.next(&chord("ii"), &Mode::Minor), chords(&[]));
    assert_eq!(template.next(&chord("v"), &Mode::Minor), chords(&["v", "i", "III"]));
}

#[test]
fn chords_with_one_notation_share_their_transitions() {
    // A root on degree 8 is written like one on degree 1.
    let mut template = ModeTemplate::new(vec![
        vec![ChordSpec::new(8, Mode::Major), chord("V")],
        vec![chord("I"), chord("vi")],
    ]);
    template.update_transitions();
    assert_eq!(
        template.next(&chord("I")),
        vec![
            ChordSpec::new(8, Mode::Major),
            chord("V"),
            chord("V"),
            chord("I"),
            chord("vi"),
            chord("vi")
        ]
    );
}

#[test]
fn updating_transitions_again_rebuilds_them() {
    let mut template = ModeTemplate::from_patterns(&lines(&["I V"])).unwrap();
    template.patterns = vec![chords(&["ii", "V", "I"])];
    assert_eq!(template.next(&chord("ii")), chords(&[]));
    template.update_transitions();
    assert_eq!(template.next(&chord("ii")), chords(&["ii", "I", "V"]));
    assert_eq!(template.next(&chord("V")), chords(&["V", "ii", "I"]));
    assert_eq!(template.next(&chord("I")), chords(&["I", "ii", "V"]));
    assert!(template.can_draw());
    template.patterns.push(vec![]);
    assert!(!template.can_draw());
    assert!(!ModeTemplate::new(vec![]).can_draw());
}

#[test]
fn a_scripted_source_replays_its_draws() {
    let mut source = Scripted::new(vec![5, 0, 12]);
    assert_eq!(source.below(4), 1);
    assert_eq!(source.below(4), 0);
    assert_eq!(source.below(5), 2);
    assert_eq!(source.below(4), 1);
    assert_eq!(source.below(1), 0);
    assert_eq!(Scripted::new(vec![]).below(9), 0);
}

#[test]
fn the_thread_source_draws_below_the_bound() {
    let mut source = ThreadRandom;
    for bound in 1..40 {
        for _ in 0..20 {
            assert!(source.below(bound) < bound);
        }
    }
    assert_eq!(source.below(1), 0);
}

#[test]
fn the_thread_source_picks_an_item_of_the_list() {
    let mut source = ThreadRandom;
    let items = vec![3, 5, 8, 13];
    let mut seen = vec![false; 4];
    for _ in 0..400 {
        let picked = source.pick(&items).unwrap();
        let at = items.iter().position(|item| item == picked).unwrap();
        seen[at] = true;
    }
    assert_eq!(seen, vec![true; 4]);
    assert_eq!(source.pick(&vec![7]), Some(&7));
    assert_eq!(source.pick(&Vec::<usize>::new()), None);
}

#[test]
fn a_scripted_source_picks_the_item_at_its_draw() {
    let mut source = Scripted::new(vec![6, 1]);
    let items = vec!["a", "b", "c", "d"];
    assert_eq!(source.pick(&items), Some(&"c"));
    assert_eq!(source.pick(&items), Some(&"b"));
    assert_eq!(source.pick(&Vec::<usize>::new()), None);
    assert_eq!(source.pick(&items), Some(&"c"));
}

#[test]
fn a_rest_and_its_chord_fill_the_room_there_is() {
    let mut timing = vec![true];
    rest_then_chord(&mut timing, 2, 8);
    assert_eq!(timing, vec![true, false, false, true]);
    rest_then_chord(&mut timing, 0, 8);
    assert_eq!(timing, vec![true, false, false, true, true]);
    rest_then_chord(&mut timing, 2, 8);
    assert_eq!(timing, vec![true, false, false, true, true, false, false, true]);
    rest_then_chord(&mut timing, 1, 8);
    assert_eq!(timing.len(), 8);
    let mut short = vec![true, true];
    rest_then_chord(&mut short, 3, 4);
    assert_eq!(short, vec![true, true, false, false]);
    let mut exact = vec![true];
    rest_then_chord(&mut exact, 3, 4);
    assert_eq!(exact, vec![true, false, false, false]);
}

#[test]
fn a_rhythm_follows_the_rests_drawn() {
    let mut source = Scripted::new(vec![2, 0, 1]);
    assert_eq!(
        gen_timing(8, 4, &mut source),
        vec![true, false, false, true, true, false, true, false]
    );
    let mut source = Scripted::new(vec![0]);
    assert_eq!(gen_timing(3, 4, &mut source), vec![true, true, true]);
    let mut source = Scripted::new(vec![3]);
    assert_eq!(gen_timing(6, 4, &mut source), vec![true, false, false, false, true, false]);
    assert_eq!(gen_timing(0, 4, &mut source), vec![]);
    assert_eq!(gen_timing(1, 4, &mut source), vec![true]);
}

#[test]
fn every_rhythm_starts_with_a_chord_and_rests_less_than_a_bar() {
    let mut source = ThreadRandom;
    for resolution in [Duration::Quarter, Duration::Eighth, Duration::Sixteenth, Duration::ThirtySecond] {
        let per_bar = resolution.ticks_per_bar();
        for bars in 0..5 {
            let timing = gen_timing(bars * per_bar, per_bar, &mut source);
            assert_eq!(timing.len(), bars * per_bar);
            if bars > 0 {
                assert!(timing[0]);
            }
            for window in timing.windows(per_bar) {
                assert!(window.iter().any(|tick| *tick));
            }
        }
    }
}

#[test]
fn a_progression_walks_the_transitions_from_its_seed() {
    let template = template();
    let mut source = Scripted::new(vec![1, 2, 0, 3, 1]);
    let progression = template.gen_progression_from_seed_with(
        &chord("V"),
        &Mode::Major,
        2,
        &Duration::Quarter,
        &mut source,
    );
    // Rests drawn: 1, 2, then chords drawn in between from the same script.
    assert_eq!(progression.sequence.len(), 8);
    assert_eq!(progression.chord(0), Some(&chord("V")));
    assert_eq!(progression.chord_index.len(), progression.chords().len());
    let played = progression.chords();
    for pair in played.windows(2) {
        assert!(template.next(pair[0], &Mode::Major).contains(pair[1]));
    }
}

#[test]
fn generated_progressions_have_the_shape_asked_for() {
    let template = template();
    for resolution in [Duration::Quarter, Duration::Eighth, Duration::Sixteenth, Duration::ThirtySecond] {
        for bars in 0..4 {
            for mode in [Mode::Major, Mode::Minor] {
                let progression = template.gen_progression(&mode, bars, &resolution);
                assert_eq!(progression.sequence.len(), bars * resolution.ticks_per_bar());
                assert_eq!(progression.bars(), bars);
                assert_eq!(progression.resolution, resolution);
                assert_eq!(progression.sequence.first().map(|slot| slot.is_some()), if bars > 0 { Some(true) } else { None });
            }
        }
    }
}

#[test]
fn every_generated_chord_follows_the_one_before() {
    let template = template();
    for mode in [Mode::Major, Mode::Minor] {
        for _ in 0..20 {
            let progression = template.gen_progression(&mode, 4, &Duration::Sixteenth);
            let played = progression.chords();
            for pair in played.windows(2) {
                assert!(template.next(pair[0], &mode).contains(pair[1]));
            }
        }
    }
}

#[test]
fn a_seed_without_transitions_is_followed_by_a_chord_of_the_patterns() {
    let template = template();
    let pool = chords(&["i", "VI", "III", "v"]);
    for _ in 0..20 {
        let progression =
            template.gen_progression_from_seed(&chord("IV:7"), &Mode::Minor, 2, &Duration::Eighth);
        let played = progression.chords();
        assert_eq!(played[0], &chord("IV:7"));
        if played.len() > 1 {
            assert!(pool.contains(played[1]));
        }
        for pair in played.windows(2).skip(1) {
            assert!(template.next(pair[0], &Mode::Minor).contains(pair[1]));
        }
    }
}

#[test]
fn patterns_and_chords_are_drawn_from_the_mode() {
    let template = template();
    let mut source = Scripted::new(vec![1, 1]);
    assert_eq!(template.rand_pattern_with(&Mode::Major, &mut source), chords(&["I", "IV"]));
    let mut source = Scripted::new(vec![0, 2]);
    assert_eq!(template.rand_chord_for_mode_with(&Mode::Major, &mut source), chord("vi"));
    let major = [chords(&["I", "V", "vi", "IV"]), chords(&["I", "IV"]), chords(&["ii"])];
    for _ in 0..20 {
        assert!(major.contains(&template.rand_pattern(&Mode::Major)));
        assert!(major.concat().contains(&template.rand_chord_for_mode(&Mode::Major)));
        assert_eq!(template.rand_pattern(&Mode::Minor), chords(&["i", "VI", "III", "v"]));
    }
}

#[test]
fn generated_chords_start_on_the_first_tick_and_rest_less_than_a_bar() {
    let template = template();
    for resolution in [Duration::Quarter, Duration::Eighth, Duration::Sixteenth] {
        let per_bar = resolution.ticks_per_bar();
        for _ in 0..10 {
            let progression =
                template.gen_progression_from_seed(&chord("vi"), &Mode::Major, 3, &resolution);
            assert_eq!(progression.sequence[0], Some(chord("vi")));
            let ticks = &progression.chord_index;
            assert_eq!(ticks[0], 0);
            for pair in ticks.windows(2) {
                assert!(pair[1] - pair[0] <= per_bar);
                let before = progression.sequence[pair[0]].as_ref().unwrap();
                let chord = progression.sequence[pair[1]].as_ref().unwrap();
                assert!(template.next(before, &Mode::Major).contains(chord));
            }
        }
    }
}
