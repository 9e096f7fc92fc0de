use devfest_synth::event::NoteEvent;
use devfest_synth::voice::{EnvelopeTarget, Voice};

fn note_on(timing: u32, note: u8, velocity: f32) -> NoteEvent<f32> {
    NoteEvent::NoteOn { timing, note, velocity }
}

fn note_off(timing: u32, note: u8) -> NoteEvent<f32> {
    NoteEvent::NoteOff { timing, note }
}

fn pressure(timing: u32, note: u8, pressure: f32) -> NoteEvent<f32> {
    NoteEvent::PolyPressure { timing, note, pressure }
}

#[test]
fn timing_reads_the_offset_of_every_kind() {
    assert_eq!(note_on(3, 60, 1.0).timing(), 3);
    assert_eq!(note_off(4, 60).timing(), 4);
    assert_eq!(pressure(5, 60, 0.5).timing(), 5);
    assert_eq!(NoteEvent::<f32>::Other { timing: u32::MAX }.timing(), u32::MAX);
}

#[test]
fn voice_starts_idle() {
    assert_eq!(Voice::new().active_note(), None);
    assert_eq!(Voice::default().active_note(), None);
    assert!(!Voice::new().holds(0));
}

#[test]
fn note_on_takes_the_voice_and_sets_its_velocity() {
    let mut voice = Voice::new();
    let change = voice.apply(&note_on(0, 69, 0.75));
    assert_eq!(change, Some(EnvelopeTarget::Level(0.75)));
    assert_eq!(voice.active_note(), Some(69));
    assert!(voice.holds(69));
    assert!(!voice.holds(68));
}

#[test]
fn note_on_steals_whatever_the_velocity() {
    let mut voice = Voice::new();
    voice.apply(&note_on(0, 60, 1.0));
    let change = voice.apply(&note_on(1, 64, 0.0));
    assert_eq!(change, Some(EnvelopeTarget::Level(0.0)));
    assert_eq!(voice.active_note(), Some(64));
}

#[test]
fn note_on_for_the_sounding_note_sets_the_target_again() {
    let mut voice = Voice::new();
    voice.apply(&note_on(0, 60, 1.0));
    let change = voice.apply(&note_on(1, 60, 0.25));
    assert_eq!(change, Some(EnvelopeTarget::Level(0.25)));
    assert_eq!(voice.active_note(), Some(60));
}

#[test]
fn note_off_for_the_active_note_silences() {
    let mut voice = Voice::new();
    voice.apply(&note_on(0, 60, 1.0));
    let change = voice.apply(&note_off(1, 60));
    assert_eq!(change, Some(EnvelopeTarget::Silence));
    assert_eq!(voice.active_note(), Some(60));
}

#[test]
fn note_off_for_another_note_is_ignored() {
    let mut voice = Voice::new();
    voice.apply(&note_on(0, 60, 1.0));
    let change = voice.apply(&note_off(1, 61));
    assert_eq!(change, None);
    assert_eq!(voice.active_note(), Some(60));
}

#[test]
fn stolen_note_cannot_release_the_voice() {
    let mut voice = Voice::new();
    assert_eq!(voice.apply(&note_on(0, 60, 1.0)), Some(EnvelopeTarget::Level(1.0)));
    assert_eq!(voice.apply(&note_on(0, 64, 1.0)), Some(EnvelopeTarget::Level(1.0)));
    assert_eq!(voice.apply(&note_off(0, 60)), None);
    assert_eq!(voice.active_note(), Some(64));
    assert_eq!(voice.apply(&note_off(0, 64)), Some(EnvelopeTarget::Silence));
    assert_eq!(voice.active_note(), Some(64));
}

#[test]
fn pressure_for_the_active_note_sets_the_target() {
    let mut voice = Voice::new();
    voice.apply(&note_on(0, 60, 1.0));
    let change = voice.apply(&pressure(1, 60, 0.4));
    assert_eq!(change, Some(EnvelopeTarget::Level(0.4)));
    assert_eq!(voice.active_note(), Some(60));
}

#[test]
fn pressure_for_another_note_is_ignored() {
    let mut voice = Voice::new();
    voice.apply(&note_on(0, 60, 1.0));
    voice.apply(&note_on(0, 64, 1.0));
    assert_eq!(voice.apply(&pressure(1, 60, 0.4)), None);
    assert_eq!(voice.active_note(), Some(64));
}

#[test]
fn other_events_change_nothing() {
    let mut voice = Voice::new();
    assert_eq!(voice.apply(&NoteEvent::<f32>::Other { timing: 0 }), None);
    assert_eq!(voice.active_note(), None);
    voice.apply(&note_on(0, 60, 1.0));
    assert_eq!(voice.apply(&NoteEvent::<f32>::Other { timing: 1 }), None);
    assert_eq!(voice.active_note(), Some(60));
}

#[test]
fn reset_puts_the_voice_back_to_idle() {
    let mut voice = Voice::new();
    voice.apply(&note_on(0, 60, 1.0));
    voice.reset();
    assert_eq!(voice.active_note(), None);
    assert_eq!(voice, Voice::new());
}

#[test]
fn idle_voice_is_held_by_no_note_not_even_the_lowest() {
    let mut voice = Voice::new();
    assert_eq!(voice.apply(&note_off(0, 0)), None);
    assert_eq!(voice.apply(&pressure(0, 0, 0.9)), None);
    assert_eq!(voice.active_note(), None);
}

#[test]
fn lowest_and_highest_notes_can_hold_the_voice() {
    let mut voice = Voice::new();
    voice.apply(&note_on(0, 0, 1.0));
    assert_eq!(voice.active_note(), Some(0));
    assert_eq!(voice.apply(&note_off(1, 0)), Some(EnvelopeTarget::Silence));
    voice.apply(&note_on(2, 127, 1.0));
    assert_eq!(voice.active_note(), Some(127));
    assert_eq!(voice.apply(&note_off(3, 0)), None);
}

#[test]
fn levels_of_any_representation_pass_through() {
    let mut voice = Voice::new();
    let change = voice.apply(&NoteEvent::NoteOn { timing: 0, note: 60, velocity: 1000u16 });
    assert_eq!(change, Some(EnvelopeTarget::Level(1000u16)));
}
