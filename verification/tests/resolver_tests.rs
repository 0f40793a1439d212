use notelang::music::{resolve_duration, semitones_from_a4, Ratio, ResolutionError};
use notelang::token::Decimal;

/// The frequency in Hertz of a semitone offset from the 440 Hz reference.
fn freq_of(semitones: i32) -> f64 {
    440.0 * 2f64.powf(semitones as f64 / 12.0)
}

fn seconds_of(r: Ratio) -> f64 {
    r.num as f64 / r.den as f64
}

#[test]
fn a4_resolves_to_exactly_440_hz() {
    let s = semitones_from_a4("A4").unwrap();
    assert_eq!(s, 0);
    assert_eq!(freq_of(s), 440.0);
}

#[test]
fn c4_resolves_to_middle_c() {
    let s = semitones_from_a4("C4").unwrap();
    assert_eq!(s, -9);
    assert!((freq_of(s) - 261.626).abs() < 1e-3);
}

#[test]
fn sharp_and_flat_aliases_resolve_equal() {
    let sharp = semitones_from_a4("A#3").unwrap();
    let flat = semitones_from_a4("Bb3").unwrap();
    assert_eq!(sharp, flat);
    assert_eq!(sharp, -11);
    assert_eq!(freq_of(sharp), freq_of(flat));
    for octave in 0..=8 {
        for (s, f) in [("A#", "Bb"), ("C#", "Db"), ("D#", "Eb"), ("F#", "Gb"), ("G#", "Ab")] {
            let sharp = semitones_from_a4(&format!("{}{}", s, octave)).unwrap();
            let flat = semitones_from_a4(&format!("{}{}", f, octave)).unwrap();
            assert_eq!(sharp, flat);
        }
    }
}

#[test]
fn frequency_rises_with_the_octave_for_a_fixed_name() {
    for name in ["A", "B", "C", "D", "E", "F", "G", "C#", "Bb"] {
        let mut last = semitones_from_a4(&format!("{}0", name)).unwrap();
        for octave in 1..=8 {
            let next = semitones_from_a4(&format!("{}{}", name, octave)).unwrap();
            assert!(next == last + 12);
            assert!(freq_of(next) > freq_of(last));
            last = next;
        }
    }
}

#[test]
fn the_whole_semitone_table_is_honoured() {
    let table = [
        ("A", 0),
        ("A#", 1),
        ("Bb", 1),
        ("B", 2),
        ("C", -9),
        ("C#", -8),
        ("Db", -8),
        ("D", -7),
        ("D#", -6),
        ("Eb", -6),
        ("E", -5),
        ("F", -4),
        ("F#", -3),
        ("Gb", -3),
        ("G", -2),
        ("G#", -1),
        ("Ab", -1),
    ];
    for (name, half_steps) in table {
        let s = semitones_from_a4(&format!("{}4", name)).unwrap();
        assert_eq!(s, half_steps);
    }
}

#[test]
fn enharmonic_ghost_names_are_resolution_errors() {
    for p in ["B#4", "Cb4", "E#2", "Fb7"] {
        assert_eq!(semitones_from_a4(p).unwrap_err(), ResolutionError::UnknownNoteName);
    }
}

#[test]
fn pitch_without_a_digit_is_a_resolution_error() {
    assert_eq!(semitones_from_a4("A").unwrap_err(), ResolutionError::UnknownNoteName);
    assert_eq!(semitones_from_a4("").unwrap_err(), ResolutionError::UnknownNoteName);
    assert_eq!(semitones_from_a4("H4").unwrap_err(), ResolutionError::UnknownNoteName);
}

#[test]
fn duration_of_one_beat_at_120_bpm_is_half_a_second() {
    let bpm = Decimal { mantissa: 120, scale: 0 };
    let mult = Decimal { mantissa: 1, scale: 0 };
    let r = resolve_duration(&bpm, &mult).unwrap();
    assert_eq!(seconds_of(r), 0.5);
}

#[test]
fn duration_of_two_beats_at_60_bpm_is_two_seconds() {
    let bpm = Decimal { mantissa: 60, scale: 0 };
    let mult = Decimal { mantissa: 2, scale: 0 };
    let r = resolve_duration(&bpm, &mult).unwrap();
    assert_eq!(seconds_of(r), 2.0);
}

#[test]
fn fractional_tempo_and_multiplier_resolve_exactly() {
    // 120.5 beats per minute, half a beat: 60 / 120.5 * 0.5 seconds
    let bpm = Decimal { mantissa: 1205, scale: 1 };
    let mult = Decimal { mantissa: 5, scale: 1 };
    let r = resolve_duration(&bpm, &mult).unwrap();
    assert_eq!(r.num, 60 * 5 * 10);
    assert_eq!(r.den, 1205 * 10);
    assert!((seconds_of(r) - 60.0 / 120.5 * 0.5).abs() < 1e-12);
}

#[test]
fn zero_tempo_is_a_resolution_error() {
    let bpm = Decimal { mantissa: 0, scale: 0 };
    let mult = Decimal { mantissa: 1, scale: 0 };
    assert_eq!(resolve_duration(&bpm, &mult).unwrap_err(), ResolutionError::NonPositiveTempo);
}
