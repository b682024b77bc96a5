use battito::measure::Event;
use battito::note::{AlternateNote, MaxEvent, MaxNote, Note};
use battito::pattern::{OutputFormat, Pattern, TimedEvent};
use battito::sequence::{ParsedSequence, Sequence};
use battito::text::decimal_string;
use battito::transform;
use battito::parser::parse;

#[test]
fn steps_as_text() {
    let out = transform("1 2 3", None).unwrap();
    assert_eq!("1 1 100, 641 2 100, 1281 3 100", out.format_steps());
    assert_eq!("641 2 100", out.steps[1].max_format());
    assert_eq!("", transform("~", None).unwrap().format_steps());
    assert_eq!("1 a 7", transform("a?7", None).unwrap().format_steps());
    assert!(OutputFormat::Max != OutputFormat::Json);
}

#[test]
fn numbers_in_decimal_digits() {
    assert_eq!("0", decimal_string(0));
    assert_eq!("9", decimal_string(9));
    assert_eq!("10", decimal_string(10));
    assert_eq!("1920", decimal_string(1920));
    assert_eq!("4294967295", decimal_string(4294967295));
}

#[test]
fn filled_grid_has_one_event_for_each_tick() {
    let out = transform("1 ~ 3 4", Some(4)).unwrap();
    let grid = out.fill();
    let rest = Event::empty();
    let expected = vec![
        Event { value: "1".to_string(), probability: 100 },
        rest,
        Event { value: "3".to_string(), probability: 100 },
        Event { value: "4".to_string(), probability: 100 },
    ];
    assert_eq!(expected, grid);
    let two = transform("1 | 2?5", Some(3)).unwrap();
    let grid = two.fill();
    assert_eq!(6, grid.len());
    assert_eq!("2", grid[3].value);
    assert_eq!(5, grid[3].probability);
    assert_eq!(Event::empty(), grid[1]);
}

#[test]
fn later_step_on_a_tick_stays() {
    let pattern = Pattern {
        steps: vec![TimedEvent::new(2, "a", 100), TimedEvent::new(2, "b", 50)],
        length: 1,
        subdivision: 2,
    };
    let grid = pattern.fill();
    assert_eq!(vec![Event::empty(), Event { value: "b".to_string(), probability: 50 }], grid);
}

#[test]
fn message_of_a_sequence() {
    let parsed: ParsedSequence = parse("1 <2,3> / 4").unwrap();
    assert_eq!(Some(4), parsed.length);
    let sequence = parsed.to_sequence();
    assert_eq!(4, sequence.length);
    assert_eq!(1920, sequence.subdivision);
    assert_eq!(2, sequence.measures.len());
    assert_eq!(sequence, Sequence::from_parsed_sequence(&parsed, None));
    let message = sequence.to_max_message();
    assert_eq!(4, message.length);
    assert_eq!("1 1 100, 1921 2 100, 3841 1 100, 5761 3 100", message.steps);
    assert_eq!(message.steps, sequence.to_pattern().format_steps());
}

#[test]
fn event_advances_to_its_last_tick() {
    let e = Event { value: "1".to_string(), probability: 100 };
    assert_eq!(10, e.advance(10, 0));
    assert_eq!(10, e.advance(10, 1));
    assert_eq!(489, e.advance(10, 480));
}

#[test]
fn text_to_message() {
    let message = battito::interpret("1 <2,3>").unwrap();
    assert_eq!(2, message.length);
    assert_eq!("1 1 100, 961 2 100, 1921 1 100, 2881 3 100", message.steps);
    assert!(battito::interpret("1 <2,3").is_err());
}

#[test]
fn notes_with_velocity_and_duration() {
    let a = Note { value: "60".to_string(), velocity: 120, duration: 114 };
    let b = Note { value: "62".to_string(), velocity: 59, duration: 63 };
    assert_eq!(10, a.advance(10, 0));
    assert_eq!(489, a.advance(10, 480));
    let cycle = AlternateNote { notes: vec![a.clone(), b.clone()] };
    assert_eq!(a, cycle.next(0));
    assert_eq!(b, cycle.next(3));
    assert_eq!("641 62 59 63", MaxNote { index: 641, note: b }.display());
    let event = MaxEvent { index: 7, event: Event { value: "x".to_string(), probability: 25 } };
    assert_eq!("7 x 100 90 25", event.display(100, 90));
    let out = transform("1 2?40", None).unwrap();
    assert_eq!("1 1 100 90 100, 961 2 100 90 40", out.serialize(100, 90));
    assert_eq!("", transform("~", None).unwrap().serialize(1, 2));
    assert_eq!(8, Sequence::new(&vec![], None, Some(8)).subdivision());
}
