use lumino_gpu_synth::midi::MidiEvent;
use lumino_gpu_synth::synth::voices::{
    route_event, EventAction, Keep, MixCc, NewVoice, VoicePool, VoiceRec, NO_RELEASE,
};

fn zones(n: usize) -> Vec<NewVoice> {
    vec![NewVoice { exclusive_class: None }; n]
}

fn release_of(pool: &VoicePool) -> Vec<u64> {
    pool.voices.iter().map(|v| v.release_at).collect()
}

#[test]
fn routing_of_events() {
    assert_eq!(route_event(MidiEvent::NoteOn { key: 60, vel: 1 }), EventAction::Ignore);
    assert_eq!(route_event(MidiEvent::NoteOn { key: 60, vel: 0 }), EventAction::Ignore);
    assert_eq!(
        route_event(MidiEvent::NoteOn { key: 60, vel: 2 }),
        EventAction::Spawn { key: 60, vel: 2 }
    );
    assert_eq!(route_event(MidiEvent::NoteOff { key: 9 }), EventAction::Release { key: 9 });
    for cc in [0x07u8, 0x0B, 0x0A, 0x08] {
        assert_eq!(
            route_event(MidiEvent::ControlChange { controller: cc, value: 3 }),
            EventAction::MixController { controller: cc, value: 3 }
        );
    }
    assert_eq!(
        route_event(MidiEvent::ControlChange { controller: 0x40, value: 3 }),
        EventAction::Controller { controller: 0x40, value: 3 }
    );
    assert_eq!(
        route_event(MidiEvent::ProgramChange { program: 200 }),
        EventAction::Program { program: 127 }
    );
    assert_eq!(
        route_event(MidiEvent::PitchBend { value: 100 }),
        EventAction::PitchBend { value: 100 }
    );
}

#[test]
fn note_off_releases_the_oldest_note_first() {
    let mut pool = VoicePool::new(0);
    pool.note_on(0, 60, 100, 2, &zones(2));
    pool.note_on(0, 60, 90, 1, &zones(1));
    assert_eq!(pool.voice_count(), 3);
    pool.note_off(0, 60, 1_000);
    // Both zone voices of the first note release together.
    assert_eq!(release_of(&pool), vec![1_000, 1_000, NO_RELEASE]);
    pool.note_off(0, 60, 2_000);
    assert_eq!(release_of(&pool), vec![1_000, 1_000, 2_000]);
    // Nothing left to release.
    pool.note_off(0, 60, 3_000);
    assert_eq!(release_of(&pool), vec![1_000, 1_000, 2_000]);
    // Voice ids are fresh and increasing; notes are numbered.
    let ids: Vec<u32> = pool.voices.iter().map(|v| v.id).collect();
    assert_eq!(ids, vec![0, 1, 2]);
    let notes: Vec<u64> = pool.voices.iter().map(|v| v.note_id).collect();
    assert_eq!(notes, vec![1, 1, 2]);
}

#[test]
fn note_with_no_zone_changes_nothing() {
    let mut pool = VoicePool::new(0);
    pool.note_on(0, 60, 100, 3, &zones(0));
    assert_eq!(pool.voice_count(), 0);
    assert_eq!(pool.note_counter, 0);
}

#[test]
fn damper_holds_releases_until_lifted() {
    let mut pool = VoicePool::new(0);
    pool.control_change(1, 0x40, 127, 0, 0);
    assert!(pool.channels[1].damper);
    pool.note_on(1, 50, 100, 1, &zones(1));
    pool.note_off(1, 50, 100);
    assert_eq!(release_of(&pool), vec![NO_RELEASE]);
    pool.control_change(1, 0x40, 0, 500, 512);
    assert!(!pool.channels[1].damper);
    assert_eq!(release_of(&pool), vec![512]);
}

#[test]
fn damper_lift_spares_keys_still_down() {
    let mut pool = VoicePool::new(0);
    pool.control_change(0, 0x40, 127, 0, 0);
    pool.note_on(0, 60, 100, 1, &zones(1));
    pool.note_on(0, 62, 100, 1, &zones(1));
    pool.note_on(3, 60, 100, 1, &zones(1));
    pool.note_off(0, 60, 100);
    assert!(pool.voices[0].held);
    assert!(!pool.voices[1].held);
    pool.control_change(0, 0x40, 0, 700, 768);
    assert_eq!(release_of(&pool), vec![768, NO_RELEASE, NO_RELEASE]);
    // Key 62 is released by its own note-off, now that the pedal is up.
    pool.note_off(0, 62, 900);
    assert_eq!(release_of(&pool), vec![768, 900, NO_RELEASE]);
}

#[test]
fn note_offs_under_the_damper_go_to_successive_notes() {
    let mut pool = VoicePool::new(0);
    pool.control_change(0, 0x40, 127, 0, 0);
    pool.note_on(0, 60, 100, 1, &zones(1));
    pool.note_on(0, 60, 90, 1, &zones(1));
    pool.note_off(0, 60, 10);
    pool.note_off(0, 60, 20);
    let held: Vec<bool> = pool.voices.iter().map(|v| v.held).collect();
    assert_eq!(held, vec![true, true]);
    pool.control_change(0, 0x40, 0, 0, 30);
    assert_eq!(release_of(&pool), vec![30, 30]);
}

#[test]
fn all_notes_off_and_all_sounds_off() {
    let mut pool = VoicePool::new(0);
    pool.note_on(2, 40, 100, 1, &zones(1));
    pool.note_on(3, 41, 100, 1, &zones(1));
    pool.control_change(2, 0x7B, 0, 0, 64);
    assert_eq!(release_of(&pool), vec![64, NO_RELEASE]);
    pool.control_change(3, 0x78, 0, 0, 64);
    assert_eq!(pool.voice_count(), 1);
    assert_eq!(pool.voices[0].channel, 2);
}

#[test]
fn attack_release_controllers_and_reset() {
    let mut pool = VoicePool::new(0);
    pool.note_on(0, 40, 100, 1, &zones(1));
    pool.control_change(0, 0x48, 10, 0, 0);
    pool.control_change(0, 0x49, 20, 0, 0);
    assert_eq!(pool.voices[0].env_release, Some(10));
    assert_eq!(pool.voices[0].env_attack, Some(20));
    pool.note_on(0, 41, 100, 1, &zones(1));
    assert_eq!(pool.voices[1].env_release, Some(10));
    assert_eq!(pool.voices[1].env_attack, Some(20));
    pool.control_change(0, 0x79, 0, 0, 0);
    assert_eq!(pool.channels[0].env_attack, None);
    assert_eq!(pool.channels[0].env_release, None);
    assert!(!pool.channels[0].damper);
    // Other controllers change nothing.
    pool.control_change(0, 0x01, 5, 0, 0);
    assert_eq!(pool.voice_count(), 2);
}

#[test]
fn mix_controllers_are_deferred_and_ordered() {
    let mut pool = VoicePool::new(0);
    pool.control_change(0, 0x07, 100, 300, 0);
    pool.control_change(1, 0x0A, 10, 100, 0);
    pool.control_change(2, 0x0B, 20, 1_000, 0);
    pool.control_change(3, 0x08, 30, 100, 0);
    let due = pool.take_mix_events(512);
    assert_eq!(
        due,
        vec![
            MixCc { sample: 100, channel: 1, controller: 0x0A, value: 10 },
            MixCc { sample: 100, channel: 3, controller: 0x08, value: 30 },
            MixCc { sample: 300, channel: 0, controller: 0x07, value: 100 },
        ]
    );
    assert_eq!(pool.pending_mix, vec![MixCc { sample: 1_000, channel: 2, controller: 0x0B, value: 20 }]);
}

#[test]
fn per_key_limit_steals_the_oldest_note() {
    let mut pool = VoicePool::new(2);
    pool.note_on(0, 60, 100, 1, &zones(1));
    pool.note_on(0, 60, 50, 1, &zones(1));
    pool.note_on(0, 60, 80, 1, &zones(1));
    let ended: Vec<bool> = pool.voices.iter().map(|v| v.ended).collect();
    assert_eq!(ended, vec![true, false, false]);
    assert!(!pool.voices[0].listed);
    // Another key is not affected.
    pool.note_on(0, 61, 10, 1, &zones(1));
    assert!(!pool.voices[3].ended);
}

#[test]
fn exclusive_class_cuts_the_previous_voices() {
    let mut pool = VoicePool::new(0);
    let hat = vec![NewVoice { exclusive_class: Some(1) }];
    pool.note_on(9, 42, 100, 1, &hat);
    pool.note_on(9, 38, 100, 1, &zones(1));
    pool.note_on(9, 46, 100, 1, &hat);
    let keys: Vec<u8> = pool.voices.iter().map(|v| v.key).collect();
    assert_eq!(keys, vec![38, 46]);
}

#[test]
fn reported_ends_are_applied_and_pruned() {
    let mut pool = VoicePool::new(0);
    pool.note_on(0, 60, 100, 3, &zones(3));
    pool.sync_ended(&vec![(0, false), (1, true), (7, true)]);
    let ended: Vec<bool> = pool.voices.iter().map(|v| v.ended).collect();
    assert_eq!(ended, vec![false, true, false]);
    assert!(pool.voices[1].released);
    pool.prune_ended();
    let ids: Vec<u32> = pool.voices.iter().map(|v| v.id).collect();
    assert_eq!(ids, vec![0, 2]);
    pool.retain(Keep::OffChannel(0));
    assert_eq!(pool.voice_count(), 0);
}

#[test]
fn program_change_is_clamped() {
    let mut pool = VoicePool::new(0);
    pool.program_change(4, 12);
    assert_eq!(pool.channels[4].program, 12);
    pool.program_change(4, 250);
    assert_eq!(pool.channels[4].program, 127);
}

#[test]
fn channel_word_flags_releasing_voices() {
    let mut pool = VoicePool::new(0);
    pool.note_on(5, 60, 100, 1, &zones(1));
    let v: VoiceRec = pool.voices[0];
    assert_eq!(v.channel_word(), 5);
    pool.note_off(5, 60, 10);
    assert_eq!(pool.voices[0].channel_word(), 5 | 128);
    let reported = VoiceRec { released: true, ..v };
    assert_eq!(reported.channel_word(), 133);
}

#[test]
fn lifecycle_counts_track_releases_and_ends() {
    let mut pool = VoicePool::new(0);
    pool.note_on(0, 60, 100, 2, &zones(2));
    pool.note_on(0, 61, 100, 1, &zones(1));
    assert_eq!(pool.lifecycle_counts(), (3, 0, 0));
    pool.note_off(0, 60, 5);
    assert_eq!(pool.lifecycle_counts(), (3, 2, 0));
    pool.sync_ended(&vec![(2, true)]);
    assert_eq!(pool.lifecycle_counts(), (3, 3, 1));
}
