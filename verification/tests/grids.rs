use dust::{index_chords, ChordSpec, Duration, Key, Mode, Note, Progression};

fn chord(text: &str) -> ChordSpec {
    ChordSpec::from_str(text).unwrap()
}

fn grid() -> Progression {
    Progression::new(
        vec![None, Some(chord("I")), None, None, Some(chord("V")), Some(chord("vi")), None, None],
        Duration::Eighth,
    )
}

fn filled(progression: &Progression) -> Vec<usize> {
    progression
        .sequence
        .iter()
        .enumerate()
        .filter(|(_, slot)| slot.is_some())
        .map(|(tick, _)| tick)
        .collect()
}

#[test]
fn the_chord_index_lists_the_filled_ticks() {
    let progression = grid();
    assert_eq!(progression.chord_index, vec![1, 4, 5]);
    assert_eq!(index_chords(&progression.sequence), vec![1, 4, 5]);
    assert_eq!(index_chords(&vec![]), vec![]);
    assert_eq!(index_chords(&vec![None, None]), vec![]);
}

#[test]
fn mutations_keep_the_chord_index_in_step() {
    let mut progression = grid();
    progression.insert_chord_at(0, chord("IV"));
    assert_eq!(progression.chord_index, filled(&progression));
    assert_eq!(progression.chord_index, vec![0, 1, 4, 5]);
    progression.insert_chord_at(4, chord("ii"));
    assert_eq!(progression.chord_index, vec![0, 1, 4, 5]);
    assert_eq!(progression.sequence[4], Some(chord("ii")));
    progression.delete_chord_at(1);
    assert_eq!(progression.chord_index, filled(&progression));
    assert_eq!(progression.chord_index, vec![0, 4, 5]);
    progression.delete_chord_at(7);
    assert_eq!(progression.chord_index, vec![0, 4, 5]);
    progression.set_chord(2, chord("iii:7"));
    assert_eq!(progression.chord_index, filled(&progression));
    assert_eq!(progression.sequence[5], Some(chord("iii:7")));
    progression.insert_chord_at(7, chord("V"));
    assert_eq!(progression.chord_index, vec![0, 4, 5, 7]);
    progression.sequence[0] = None;
    progression.update_chords();
    assert_eq!(progression.chord_index, vec![4, 5, 7]);
}

#[test]
fn chords_are_found_by_their_position_among_the_chords() {
    let progression = grid();
    assert_eq!(progression.chord(0), Some(&chord("I")));
    assert_eq!(progression.chord(2), Some(&chord("vi")));
    assert_eq!(progression.chord(3), None);
    assert_eq!(progression.chords(), vec![&chord("I"), &chord("V"), &chord("vi")]);
    assert_eq!(Progression::new(vec![None, None], Duration::Quarter).chord(0), None);
}

#[test]
fn the_chord_before_the_first_is_the_last() {
    let progression = grid();
    assert_eq!(progression.prev_chord(0), &chord("vi"));
    assert_eq!(progression.prev_chord(1), &chord("I"));
    assert_eq!(progression.prev_chord(2), &chord("V"));
    assert_eq!(progression.prev_chord(3), &chord("vi"));
    assert_eq!(progression.prev_chord(4), &chord("I"));
}

#[test]
fn a_tick_maps_to_the_number_of_chords_before_it() {
    let progression = grid();
    let expected = [0, 0, 1, 1, 1, 2, 3, 3, 3, 3];
    for (tick, count) in expected.iter().enumerate() {
        assert_eq!(progression.seq_idx_to_chord_idx(tick), *count);
    }
    assert_eq!(progression.seq_idx_to_chord_idx(1000), 3);
}

#[test]
fn bars_are_whole_bars_of_ticks() {
    assert_eq!(grid().bars(), 1);
    assert_eq!(Progression::new(vec![None, None, None, None, None], Duration::Quarter).bars(), 1);
    assert_eq!(Progression::new(vec![None, None, None], Duration::Quarter).bars(), 0);
    assert_eq!(grid().resolution, Duration::Eighth);
}

#[test]
fn a_grid_resolves_in_a_key_with_its_rests() {
    let key = Key { root: Note { semitones: 27 }, mode: Mode::Major };
    let resolved = grid().in_key(&key);
    assert_eq!(resolved.len(), 8);
    let pitches: Vec<Option<Vec<isize>>> = resolved
        .iter()
        .map(|slot| slot.as_ref().map(|c| c.notes().iter().map(|n| n.semitones).collect()))
        .collect();
    assert_eq!(pitches[0], None);
    assert_eq!(pitches[1], Some(vec![27, 31, 34]));
    assert_eq!(pitches[4], Some(vec![34, 38, 41]));
    assert_eq!(pitches[5], Some(vec![36, 39, 43]));
    assert_eq!(pitches[7], None);
}

#[test]
fn voice_leading_a_grid_keeps_its_rests() {
    let led = grid().voice_lead();
    assert_eq!(filled(&led), vec![1, 4, 5]);
    assert_eq!(led.chord_index, vec![1, 4, 5]);
    assert_eq!(led.sequence.len(), 8);
    assert_eq!(led.chord(0), Some(&chord("I")));
    assert_eq!(led.chord(1), Some(&chord("V/3<1")));
    let empty = Progression::new(vec![None, None], Duration::Quarter).voice_lead();
    assert_eq!(empty.sequence, vec![None, None]);
}
