use blackjack::driver::{Playback, StepProgress};
use blackjack::event::Event;
use blackjack::motion::{Patch, SoundCue, StepKind, TimedStep};

fn step(kind: StepKind, duration_ms: u32, patch_at_turn: bool, patch: Patch, sound: Option<SoundCue>) -> TimedStep {
    TimedStep { kind, duration_ms, patch_at_turn, patch, sound }
}

fn queue() -> Vec<TimedStep> {
    vec![
        step(StepKind::Pause, 0, false, Patch::NoChange, None),
        step(StepKind::Shimmer, 100, false, Patch::Event(Event::ShoeShuffled), Some(SoundCue::Riffle)),
        step(StepKind::Pause, 200, true, Patch::Event(Event::HoleCardDealt), Some(SoundCue::CardSlide)),
    ]
}

#[test]
fn an_empty_queue_is_at_rest() {
    let mut p = Playback::new();
    assert!(p.is_idle());
    let f = p.tick(5);
    assert!(f.patches.is_empty());
    assert!(f.sounds.is_empty());
    assert_eq!(f.progress, None);
    assert!(!f.running);
}

#[test]
fn instant_steps_land_at_once_and_the_first_lasting_one_starts() {
    let mut p = Playback::new();
    p.enqueue(queue());
    assert!(!p.is_idle());
    let f = p.tick(1000);
    assert_eq!(f.patches, vec![Patch::NoChange]);
    assert_eq!(f.sounds, vec![SoundCue::Riffle]);
    assert_eq!(f.progress, Some(StepProgress { kind: StepKind::Shimmer, elapsed_ms: 0, duration_ms: 100 }));
    assert!(f.running);
    assert_eq!(p.queue.len(), 1);
}

#[test]
fn a_step_patches_when_it_lands_and_the_next_begins_that_frame() {
    let mut p = Playback::new();
    p.enqueue(queue());
    p.tick(1000);
    let f = p.tick(1050);
    assert!(f.patches.is_empty());
    assert!(f.sounds.is_empty());
    assert_eq!(f.progress, Some(StepProgress { kind: StepKind::Shimmer, elapsed_ms: 50, duration_ms: 100 }));
    let f = p.tick(1100);
    assert_eq!(f.patches, vec![Patch::Event(Event::ShoeShuffled)]);
    assert!(f.sounds.is_empty());
    assert_eq!(f.progress, Some(StepProgress { kind: StepKind::Pause, elapsed_ms: 0, duration_ms: 200 }));
    assert_eq!(p.current.as_ref().map(|c| c.start_ms), Some(1100));
}

#[test]
fn a_turn_patch_lands_halfway_and_the_landing_sound_at_the_end() {
    let mut p = Playback::new();
    p.enqueue(queue());
    p.tick(1000);
    p.tick(1100);
    let f = p.tick(1199);
    assert!(f.patches.is_empty());
    let f = p.tick(1200);
    assert_eq!(f.patches, vec![Patch::Event(Event::HoleCardDealt)]);
    assert!(f.sounds.is_empty());
    assert!(f.running);
    let f = p.tick(1250);
    assert!(f.patches.is_empty());
    let f = p.tick(1300);
    assert!(f.patches.is_empty());
    assert_eq!(f.sounds, vec![SoundCue::CardSlide]);
    assert_eq!(f.progress, None);
    assert!(!f.running);
    assert!(p.is_idle());
}

#[test]
fn a_late_frame_plays_every_due_step_in_order() {
    let mut p = Playback::new();
    p.enqueue(queue());
    p.tick(0);
    let f = p.tick(10_000);
    assert_eq!(f.patches, vec![Patch::Event(Event::ShoeShuffled)]);
    assert_eq!(f.progress, Some(StepProgress { kind: StepKind::Pause, elapsed_ms: 0, duration_ms: 200 }));
    let f = p.tick(20_000);
    assert_eq!(f.patches, vec![Patch::Event(Event::HoleCardDealt)]);
    assert_eq!(f.sounds, vec![SoundCue::CardSlide]);
    assert!(!f.running);
}
