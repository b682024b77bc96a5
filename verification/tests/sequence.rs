use battito::measure::{Event, Measure};

fn note(value: &str) -> Measure {
    Measure::Event(Event {
        value: value.to_string(),
        probability: 100,
    })
}

#[test]
fn three_level_nesting() {
    // [[60 61 [62 63]] 65 [66 67] 68]
    let elements = Measure::Group(vec![
        Measure::Group(vec![
            note("60"),
            note("61"),
            Measure::Group(vec![note("62"), note("63")]),
        ]),
        note("65"),
        Measure::Group(vec![note("66"), note("67")]),
        note("68"),
    ]);
    println!("{:?}", elements.timed_events(1, 1, 1, 24));
    assert_eq!(24, elements.subdivision());
}

#[test]
fn three_level_nesting_shuffled() {
    // [68 65 [66 67] [60 61 [62 63]]]
    let elements = Measure::Group(vec![
        note("68"),
        note("65"),
        Measure::Group(vec![note("66"), note("67")]),
        Measure::Group(vec![
            note("60"),
            note("61"),
            Measure::Group(vec![note("62"), note("63")]),
        ]),
    ]);
    assert_eq!(24, elements.subdivision());
}

#[test]
fn odd_nesting() {
    // [1 2 [3 0] 4 [5 0 1] 6 7]
    let elements = Measure::Group(vec![
        note("61"),
        note("62"),
        Measure::Group(vec![note("73"), note("70")]),
        note("64"),
        Measure::Group(vec![note("65"), note("60"), note("61")]),
        note("66"),
        note("67"),
    ]);
    assert_eq!(42, elements.subdivision());
    println!("{:?}", elements.timed_events(1, 1, 1, 42));
}

#[test]
fn odd_deeply_nested() {
    // [[0 1 [2 3 4 [5 6 8 9 0]]] 2]
    let elements = Measure::Group(vec![
        Measure::Group(vec![
            note("0"),
            note("1"),
            Measure::Group(vec![
                note("3"),
                note("4"),
                Measure::Group(vec![note("5"), note("6"), note("8"), note("9"), note("0")]),
            ]),
        ]),
        Measure::Group(vec![note("2"), note("3")]),
        note("3"),
    ]);
    assert_eq!(270, elements.subdivision());
}

#[test]
fn grid_of_a_single_event_is_one_tick() {
    assert_eq!(1, note("60").subdivision());
    assert_eq!(Some(1), note("60").checked_subdivision());
}

#[test]
fn events_fall_on_the_grid_of_the_measure() {
    // [[60 61] 65] on a grid of 4: 60 at 1, 61 at 2, 65 at 3
    let elements = Measure::Group(vec![Measure::Group(vec![note("60"), note("61")]), note("65")]);
    assert_eq!(4, elements.subdivision());
    let steps = elements.timed_events(1, 1, 1, 4);
    let places: Vec<u32> = steps.iter().map(|s| s.index).collect();
    assert_eq!(vec![1, 2, 3], places);
}
