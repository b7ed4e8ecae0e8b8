use arpfisch::{
    ArpApplication, ArpeggiatorInstance, ArpeggioData, Channel, ClockMode, EngineError, Entry, LoadError, Note,
    NoteEvent, RepeatMode, TimestampedMidiEvent, ONE,
};
use arpfisch::application::check_routing_matrix;

fn empty_outputs(n: usize) -> Vec<heapless::Vec<(u64, NoteEvent), 32>> {
    (0..n).map(|_| heapless::Vec::new()).collect()
}

fn one_step(entry: Entry) -> ArpeggioData {
    let mut pattern = ArpeggioData::empty(RepeatMode::Repeat(12), 1);
    pattern.set(0, entry).unwrap();
    pattern
}

#[test]
fn routing_matrix_validity() {
    assert!(check_routing_matrix(&vec![vec![false, true], vec![false, false]]));
    assert!(!check_routing_matrix(&vec![vec![false, false], vec![true, false]]));
    assert!(!check_routing_matrix(&vec![vec![true, false], vec![false, false]]));
    assert!(!check_routing_matrix(&vec![vec![false, true], vec![false]]));
    assert!(check_routing_matrix(&vec![]));
}

#[test]
fn cut_route_releases_pending_notes_once() {
    let mut app = ArpApplication::new(2);
    app.arp_instances[0].add_pending_event(500, NoteEvent::NoteOff(Note(60), Channel(0))).unwrap();
    app.arp_instances[0].add_pending_event(400, NoteEvent::Clock).unwrap();
    app.arp_instances[1].arp.note_on(Note(60), 0).unwrap();
    app.arp_instances[1].arp.note_on(Note(62), 0).unwrap();
    app.old_routing_matrix[0][1] = true;

    app.release_cut_routes(0);
    assert_eq!(app.arp_instances[1].arp.chord(), &[Note(62)]);
    assert!(!app.old_routing_matrix[0][1]);

    app.arp_instances[1].arp.note_on(Note(60), 1).unwrap();
    app.release_cut_routes(0);
    assert_eq!(app.arp_instances[1].arp.chord(), &[Note(60), Note(62)]);
}

#[test]
fn a_buffer_plays_a_step_on_the_internal_clock() {
    let mut app = ArpApplication::new(1);
    app.clock_mode = ClockMode::Internal;
    app.out_channel = Channel(5);
    app.arp_instances[0].patterns[0] = one_step(Entry { note: 0, len_steps: 1, intensity: ONE / 2, transpose: 0 });
    let inputs = vec![vec![TimestampedMidiEvent { time: 0, event: NoteEvent::NoteOn(Note(60), 100, Channel(0)) }]];
    let mut outputs = empty_outputs(1);
    assert_eq!(app.process(6000, &inputs, &mut outputs), Ok(()));
    assert_eq!(app.time, 6000);
    assert_eq!(app.next_midiclock_to_send, 6000);
    let out = outputs[0].as_slice();
    assert_eq!(out.len(), 8);
    for (k, e) in out[..6].iter().enumerate() {
        assert_eq!(*e, (k as u64 * 1000, NoteEvent::Clock));
    }
    assert_eq!(out[6], (5000, NoteEvent::NoteOff(Note(60), Channel(5))));
    assert_eq!(out[7], (5000, NoteEvent::NoteOn(Note(60), 64, Channel(5))));
}

#[test]
fn input_on_another_channel_is_ignored() {
    let mut app = ArpApplication::new(1);
    app.clock_mode = ClockMode::Internal;
    let inputs = vec![vec![TimestampedMidiEvent { time: 3, event: NoteEvent::NoteOn(Note(60), 100, Channel(1)) }]];
    let mut outputs = empty_outputs(1);
    app.process(100, &inputs, &mut outputs).unwrap();
    assert_eq!(app.arp_instances[0].arp.chord(), &[]);
    app.in_channel = Channel(1);
    app.process(100, &inputs, &mut outputs).unwrap();
    assert_eq!(app.arp_instances[0].arp.chord(), &[Note(60)]);
}

#[test]
fn routed_output_feeds_the_later_voice() {
    let mut app = ArpApplication::new(2);
    app.clock_mode = ClockMode::Internal;
    app.routing_matrix[0][1] = true;
    app.arp_instances[0].ticks_per_step = 1;
    app.arp_instances[0].patterns[0] = one_step(Entry { note: 0, len_steps: 4, intensity: ONE, transpose: 0 });
    let inputs = vec![
        vec![TimestampedMidiEvent { time: 0, event: NoteEvent::NoteOn(Note(60), 100, Channel(0)) }],
        vec![],
    ];
    let mut outputs = empty_outputs(2);
    app.process(500, &inputs, &mut outputs).unwrap();
    assert!(outputs[0].iter().any(|e| e.1 == NoteEvent::NoteOn(Note(60), 127, Channel(0))));
    assert_eq!(app.arp_instances[1].arp.chord(), &[Note(60)]);
    assert!(app.old_routing_matrix[0][1]);
}

#[test]
fn external_clock_and_start() {
    let mut app = ArpApplication::new(1);
    app.clock_mode = ClockMode::External;
    let inputs = vec![vec![
        TimestampedMidiEvent { time: 10, event: NoteEvent::Start },
        TimestampedMidiEvent { time: 20, event: NoteEvent::Clock },
    ]];
    let mut outputs = empty_outputs(1);
    app.time = 1000;
    app.process(100, &inputs, &mut outputs).unwrap();
    assert_eq!(app.last_midiclock_received, 1000);
    assert_eq!(outputs[0].as_slice(), &[(1010, NoteEvent::Start), (1020, NoteEvent::Clock)]);
    assert_eq!(app.clock_source(), (true, true));
}

#[test]
fn auto_clock_falls_back_to_internal() {
    let mut app = ArpApplication::new(1);
    assert_eq!(app.clock_source(), (true, true));
    app.time = 48001;
    assert_eq!(app.clock_source(), (false, false));
    app.clock_mode = ClockMode::External;
    assert_eq!(app.clock_source(), (false, true));
}

#[test]
fn restart_pending_starts_the_buffer() {
    let mut app = ArpApplication::new(1);
    app.clock_mode = ClockMode::External;
    app.restart_transport_pending = true;
    let mut outputs = empty_outputs(1);
    app.process(100, &vec![vec![]], &mut outputs).unwrap();
    assert!(!app.restart_transport_pending);
    assert_eq!(outputs[0].as_slice(), &[(0, NoteEvent::Start)]);
}

#[test]
fn an_invalid_routing_matrix_is_fatal() {
    let mut app = ArpApplication::new(2);
    app.routing_matrix[1][0] = true;
    let mut outputs = empty_outputs(2);
    assert_eq!(app.process(100, &vec![vec![], vec![]], &mut outputs), Err(EngineError::InvalidRoutingMatrix));
    assert_eq!(app.time, 0);
}

#[test]
fn a_chord_overflow_in_input_is_fatal() {
    let mut app = ArpApplication::new(1);
    let input: Vec<TimestampedMidiEvent> = (0..17u8)
        .map(|n| TimestampedMidiEvent { time: 0, event: NoteEvent::NoteOn(Note(40 + n), 100, Channel(0)) })
        .collect();
    let mut outputs = empty_outputs(1);
    assert_eq!(app.process(100, &vec![input], &mut outputs), Err(EngineError::ChordFull));
}

#[test]
fn saved_state_is_checked() {
    let ok = ArpApplication::from_saved_state(
        Channel(0),
        Channel(1),
        1000,
        ClockMode::Auto,
        vec![vec![false, true], vec![false, false]],
        0,
        vec![ArpeggiatorInstance::new(), ArpeggiatorInstance::new()],
    );
    assert!(ok.is_ok());
    assert_eq!(ok.unwrap().n_arps(), 2);

    let none = ArpApplication::from_saved_state(Channel(0), Channel(0), 1000, ClockMode::Auto, vec![], 0, vec![]);
    assert_eq!(none.err(), Some(LoadError::NoInstances));

    let matrix = ArpApplication::from_saved_state(
        Channel(0),
        Channel(0),
        1000,
        ClockMode::Auto,
        vec![vec![false]],
        0,
        vec![ArpeggiatorInstance::new(), ArpeggiatorInstance::new()],
    );
    assert_eq!(matrix.err(), Some(LoadError::RoutingMatrix));

    let mut broken = ArpeggiatorInstance::new();
    broken.active_pattern = 8;
    let instance = ArpApplication::from_saved_state(
        Channel(0),
        Channel(0),
        1000,
        ClockMode::Auto,
        vec![vec![false]],
        0,
        vec![broken],
    );
    assert_eq!(instance.err(), Some(LoadError::InvalidInstance));

    let clock = ArpApplication::from_saved_state(
        Channel(0),
        Channel(0),
        0,
        ClockMode::Auto,
        vec![vec![false]],
        0,
        vec![ArpeggiatorInstance::new()],
    );
    assert_eq!(clock.err(), Some(LoadError::ClockInterval));
}

#[test]
fn successive_buffers_deliver_in_order() {
    let mut app = ArpApplication::new(1);
    app.clock_mode = ClockMode::Internal;
    app.arp_instances[0].ticks_per_step = 1;
    app.arp_instances[0].patterns[0] = one_step(Entry { note: 0, len_steps: 3, intensity: ONE, transpose: 0 });
    let inputs = vec![vec![TimestampedMidiEvent { time: 0, event: NoteEvent::NoteOn(Note(60), 100, Channel(0)) }]];
    let mut delivered: Vec<(u64, NoteEvent)> = Vec::new();
    for buffer in 0..8u64 {
        let mut outputs = empty_outputs(1);
        let input = if buffer == 0 { inputs.clone() } else { vec![vec![]] };
        app.process(700, &input, &mut outputs).unwrap();
        for e in outputs[0].iter() {
            assert!(e.0 >= buffer * 700 && e.0 < (buffer + 1) * 700);
        }
        delivered.extend_from_slice(outputs[0].as_slice());
    }
    for w in delivered.windows(2) {
        assert!(w[0].0 <= w[1].0);
    }
    assert!(delivered.iter().any(|e| matches!(e.1, NoteEvent::NoteOff(Note(60), _))));
}

#[test]
fn transport_beyond_sixteen_messages_is_dropped() {
    let mut app = ArpApplication::new(1);
    app.clock_mode = ClockMode::External;
    app.arp_instances[0].ticks_per_step = 1000;
    let input: Vec<TimestampedMidiEvent> =
        (0..20u32).map(|k| TimestampedMidiEvent { time: k, event: NoteEvent::Clock }).collect();
    let mut outputs = empty_outputs(1);
    app.process(100, &vec![input], &mut outputs).unwrap();
    assert_eq!(outputs[0].len(), 16);
    assert_eq!(outputs[0][15], (15, NoteEvent::Clock));
}

#[test]
fn fresh_voices_and_equal_times_keep_queue_order() {
    let mut inst = ArpeggiatorInstance::new();
    assert_eq!(inst.arp.step(), 0);
    assert_eq!(inst.arp.chord(), &[]);
    inst.add_pending_event(7, NoteEvent::NoteOff(Note(60), Channel(0))).unwrap();
    inst.add_pending_event(3, NoteEvent::Clock).unwrap();
    inst.add_pending_event(7, NoteEvent::NoteOn(Note(60), 64, Channel(0))).unwrap();
    let due = inst.process_pending_events(10);
    assert_eq!(
        due.as_slice(),
        &[
            (3, NoteEvent::Clock),
            (7, NoteEvent::NoteOff(Note(60), Channel(0))),
            (7, NoteEvent::NoteOn(Note(60), 64, Channel(0))),
        ]
    );
}
