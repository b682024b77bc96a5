use battito::display::Fmt;
use battito::parsed_measure::Single;
use battito::parser::parse;
use battito::primitives::{Alternate, ParsedEvent, PrimitiveGroup};

#[test]
fn primitive() {
    let a = PrimitiveGroup::Group(vec![
        PrimitiveGroup::Single(ParsedEvent {
            value: "10".to_string(),
            probability: 100,
        }),
        PrimitiveGroup::Group(vec![
            PrimitiveGroup::Single(ParsedEvent {
                value: "20".to_string(),
                probability: 100,
            }),
            PrimitiveGroup::Single(ParsedEvent {
                value: "30".to_string(),
                probability: 100,
            }),
        ]),
    ]);
    let mut w = String::new();
    a.fmt(0, &mut w);
    println!("{}", w);
    let expected = "PrimitiveGroup: [\n    Event: 10 - 100,\n    PrimitiveGroup: [\n        Event: 20 - 100,\n        Event: 30 - 100,\n    ],\n],\n";
    assert_eq!(expected, w);
}

#[test]
fn single() {
    let p = PrimitiveGroup::Group(vec![
        PrimitiveGroup::Single(ParsedEvent {
            value: "10".to_string(),
            probability: 100,
        }),
        PrimitiveGroup::Group(vec![
            PrimitiveGroup::Single(ParsedEvent {
                value: "20".to_string(),
                probability: 100,
            }),
            PrimitiveGroup::Single(ParsedEvent {
                value: "30".to_string(),
                probability: 100,
            }),
        ]),
    ]);
    let a = Single::Alternate(Alternate(vec![
        p,
        PrimitiveGroup::Single(ParsedEvent {
            value: "50".to_string(),
            probability: 100,
        }),
    ]));
    let mut w = String::new();
    a.fmt(0, &mut w);
    println!("{}", w);
    let expected = "Alternate: [\n    PrimitiveGroup: [\n        Event: 10 - 100,\n        PrimitiveGroup: [\n            Event: 20 - 100,\n            Event: 30 - 100,\n        ],\n    ],\n    Event: 50 - 100,\n],\n";
    assert_eq!(expected, w);
}

#[test]
fn display_of_parsed_group() {
    let parsed = parse("1 [2 ~]").unwrap();
    let mut w = String::new();
    parsed.measures[0].fmt(1, &mut w);
    let expected = "    Group: [\n        Event: 1 - 100,\n        Group: [\n            Event: 2 - 100,\n            Event: 0 - 0,\n        ],\n    ],\n";
    assert_eq!(expected, w);
}

#[test]
fn display_of_polymetric() {
    let parsed = parse("{1 <2,3?7>}%12").unwrap();
    let mut w = String::new();
    parsed.measures[0].fmt(0, &mut w);
    let expected = "Polymetric(12): [\n    Event: 1 - 100,\n    Alternate: [\n        Event: 2 - 100,\n        Event: 3 - 7,\n    ],\n],\n";
    assert_eq!(expected, w);
}
