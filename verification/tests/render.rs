use lumino_gpu_synth::midi::{MidiEvent, TimedEvent};
use lumino_gpu_synth::synth::render::{
    render_horizon, split_14bit, EventClock, OfflineRender, RenderPhase, MAX_RENDER_FRAMES,
};

#[test]
fn horizon_is_events_plus_tail_capped() {
    assert_eq!(render_horizon(1_000, 500), 1_500);
    assert_eq!(render_horizon(0, 0), 0);
    assert_eq!(render_horizon(u64::MAX, 5), MAX_RENDER_FRAMES);
    assert_eq!(render_horizon(MAX_RENDER_FRAMES - 1, 1), MAX_RENDER_FRAMES);
    assert_eq!(MAX_RENDER_FRAMES, 1u64 << 31);
}

/// Runs a render over blocks of `block` frames; `sound(frame)` says
/// whether the block ending at `frame` has sound, the events end at block
/// `events_blocks`, the voices never die. Returns the kept block ends and
/// the final phase.
fn run(mut r: OfflineRender, block: u64, events_blocks: u64, sound: impl Fn(u64) -> bool) -> (Vec<u64>, RenderPhase) {
    let mut frame = 0;
    let mut kept = Vec::new();
    for _ in 0..10_000 {
        let events_done = frame >= events_blocks * block;
        if !r.before_block(events_done, false) {
            break;
        }
        frame += block;
        let keep = r.after_block(events_done, !sound(frame), frame, block);
        if keep > 0 {
            kept.push(frame - block + keep);
        }
    }
    (kept, r.phase)
}

#[test]
fn stuck_voice_times_out_at_the_horizon() {
    // Events end at 0, the tail budget is 100 frames, the voice never fades.
    let r = OfflineRender::new(0, 100, None);
    let (kept, phase) = run(r, 16, 0, |_| true);
    assert_eq!(phase, RenderPhase::TimedOut);
    assert_eq!(kept, vec![16, 32, 48, 64, 80, 96]);
}

#[test]
fn limited_render_keeps_exactly_the_first_frames() {
    let r = OfflineRender::new(0, 10_000, Some(64));
    let (kept, phase) = run(r, 16, 100, |_| true);
    assert_eq!(phase, RenderPhase::Finished);
    assert_eq!(kept, vec![16, 32, 48, 64]);
    // A limit inside a block cuts that block and ends the render.
    let r = OfflineRender::new(0, 10_000, Some(1_000));
    let (kept, phase) = run(r, 512, 100, |_| true);
    assert_eq!(phase, RenderPhase::Finished);
    assert_eq!(kept, vec![512, 1_000]);
    // A render that ends before the limit keeps what the full render keeps.
    let r = OfflineRender::new(32, 10_000, Some(10_000));
    let (kept, _) = run(r, 16, 2, |f| f <= 64);
    assert_eq!(kept, vec![16, 32, 48, 64]);
    assert_eq!(kept, run(OfflineRender::new(32, 10_000, None), 16, 2, |f| f <= 64).0);
}

#[test]
fn limited_render_stops_where_the_full_render_gives_up() {
    let (full, full_phase) = run(OfflineRender::new(0, 100, None), 16, 0, |_| true);
    assert_eq!(full_phase, RenderPhase::TimedOut);
    let (kept, phase) = run(OfflineRender::new(0, 100, Some(1_000)), 16, 0, |_| true);
    assert_eq!(phase, RenderPhase::Finished);
    assert_eq!(kept, full);
}

#[test]
fn render_ends_after_sound_fades() {
    let r = OfflineRender::new(32, 10_000, None);
    // Sound until frame 64, then silence.
    let (kept, phase) = run(r, 16, 2, |f| f <= 64);
    assert_eq!(phase, RenderPhase::Finished);
    // 16, 32 while events run; 48 and 64 still sound after them; 80 is
    // silent (ends the events phase), 96 silent (ends the tail), the flush
    // block at 112 is silent and dropped.
    assert_eq!(kept, vec![16, 32, 48, 64]);
}

#[test]
fn no_voices_after_events_skips_to_the_tail() {
    let mut r = OfflineRender::new(0, 100, None);
    assert!(r.before_block(true, true));
    assert_eq!(r.phase, RenderPhase::Tail);
    assert_eq!(r.after_block(true, true, 16, 16), 0);
    assert_eq!(r.phase, RenderPhase::Flush);
    assert_eq!(r.after_block(true, false, 32, 16), 16);
    assert!(r.is_done());
    assert!(!r.timed_out());
    assert!(!r.before_block(true, true));
}

#[test]
fn timed_out_render_reports_it() {
    let mut r = OfflineRender::new(0, 16, None);
    assert_eq!(r.after_block(false, false, 16, 16), 0);
    assert!(r.timed_out());
    assert!(r.is_done());
    assert_eq!(r.after_block(true, true, 32, 16), 0);
}

#[test]
fn clock_delivers_realtime_then_scheduled_events_per_block() {
    let mut c = EventClock::new();
    let sched = vec![
        TimedEvent { sample: 0, channel: 0, event: MidiEvent::NoteOn { key: 60, vel: 100 } },
        TimedEvent { sample: 15, channel: 0, event: MidiEvent::NoteOff { key: 60 } },
        TimedEvent { sample: 16, channel: 1, event: MidiEvent::NoteOn { key: 61, vel: 90 } },
    ];
    c.load_offline(sched.clone());
    assert_eq!(c.events_end(), 16);
    assert!(!c.events_done());
    c.note_on(20, 70, 1);
    let first = c.due_events(16);
    assert_eq!(
        first,
        vec![
            TimedEvent { sample: 0, channel: 15, event: MidiEvent::NoteOn { key: 70, vel: 1 } },
            sched[0],
            sched[1],
        ]
    );
    c.advance(16);
    assert_eq!(c.rendered_frames(), 16);
    assert_eq!(c.due_events(32), vec![sched[2]]);
    assert!(c.events_done());
    assert_eq!(c.due_events(48), vec![]);
}

#[test]
fn clock_convenience_events() {
    let mut c = EventClock::new();
    c.advance(128);
    c.note_off(3, 60);
    c.control_change(3, 7, 100);
    c.program_change(3, 5);
    c.pitch_bend(3, 8192);
    c.damper(3, true);
    c.damper(3, false);
    c.all_notes_off(3);
    c.all_sounds_off(3);
    c.reset_controllers(3);
    c.send_event(2, MidiEvent::NoteOn { key: 1, vel: 2 });
    let cc = |controller, value| MidiEvent::ControlChange { controller, value };
    let got: Vec<MidiEvent> = c.due_events(0).iter().map(|e| e.event).collect();
    assert_eq!(
        got,
        vec![
            MidiEvent::NoteOff { key: 60 },
            cc(7, 100),
            MidiEvent::ProgramChange { program: 5 },
            MidiEvent::PitchBend { value: 8192 },
            cc(0x40, 127),
            cc(0x40, 0),
            cc(0x7B, 0),
            cc(0x78, 0),
            cc(0x79, 0),
            MidiEvent::NoteOn { key: 1, vel: 2 },
        ]
    );
}

#[test]
fn fourteen_bit_controller_split() {
    assert_eq!(split_14bit(0x3FFF), (0x7F, 0x7F));
    assert_eq!(split_14bit(8192), (64, 0));
    assert_eq!(split_14bit(300), (2, 44));
    assert_eq!(split_14bit(0xFFFF), (0x7F, 0x7F));
    let mut c = EventClock::new();
    c.control_change_14bit(0, 1, 33, 300);
    let evs = c.due_events(1);
    assert_eq!(evs[0].event, MidiEvent::ControlChange { controller: 1, value: 2 });
    assert_eq!(evs[1].event, MidiEvent::ControlChange { controller: 33, value: 44 });
    // Lossless for 14-bit values.
    let (hi, lo) = split_14bit(12_345);
    assert_eq!(hi as u16 * 128 + lo as u16, 12_345);
}

#[test]
fn full_render_keeps_at_most_the_horizon_and_one_block() {
    // Horizon 100, blocks of 16: the stuck render keeps 96 frames.
    let (kept, _) = run(OfflineRender::new(0, 100, None), 16, 0, |_| true);
    assert_eq!(*kept.last().unwrap(), 96);
    assert!(96 <= 100 + 16);
    // A render that falls silent after its horizon would have been reached
    // keeps its flush block too, and no more than one block past it.
    let mut r = OfflineRender::new(0, 20, None);
    assert!(r.before_block(true, false));
    assert_eq!(r.after_block(true, false, 16, 16), 16);
    assert_eq!(r.after_block(true, true, 32, 16), 0);
    assert_eq!(r.phase, RenderPhase::Tail);
    assert_eq!(r.after_block(true, true, 48, 16), 0);
    assert_eq!(r.phase, RenderPhase::Flush);
    assert_eq!(r.after_block(true, false, 64, 16), 16);
    assert!(r.is_done() && !r.timed_out());
    assert!(16 + 16 <= 20 + 16);
}
