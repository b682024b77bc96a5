use battito::error::{Error, EuclideanError, ParsingError};
use battito::euclidean::{Euclidean, EuclideanPrimitive};
use battito::measure::{Event, Measure};
use battito::parsed_measure::{Parsed, ParsedMeasure, Single};
use battito::parser::parse;
use battito::pattern::{Pattern, TimedEvent};
use battito::primitives::{Alternate, ParsedEvent, PrimitiveGroup};
use battito::sequence::{compile, Sequence};
use battito::transform;
use battito::utils::{checked_lcm, checked_lcm_vec, lcm, lcm_vec};

fn onset(value: &str) -> PrimitiveGroup {
    PrimitiveGroup::Single(ParsedEvent {
        value: value.to_string(),
        probability: 100,
    })
}

#[test]
fn second_equal_measure_is_first_one_grid_later() {
    let one = transform("1 2 3", None).unwrap();
    let two = transform("1 2 3 | 1 2 3", None).unwrap();
    assert_eq!(2, two.length);
    assert_eq!(6, two.steps.len());
    for k in 0..3 {
        assert_eq!(one.steps[k], two.steps[k]);
        assert_eq!(one.steps[k].index + 1920, two.steps[k + 3].index);
        assert_eq!(one.steps[k].event, two.steps[k + 3].event);
    }
}

#[test]
fn once_replicated_is_itself_once_repeated_is_wrapped() {
    assert_eq!(transform("b!1 s", None), transform("b s", None));
    assert_eq!(transform("[b s]!1 h", None), transform("[b s] h", None));
    assert_eq!(transform("b*1 s", None), transform("[b] s", None));
    assert_eq!(parse("<a,b>*1").unwrap(), parse("[<a,b>]").unwrap());
    assert_eq!(parse("<a,b>!1").unwrap(), parse("<a,b>").unwrap());
}

#[test]
fn alternation_unrolls_in_written_order() {
    assert_eq!(transform("<a,b>", None), transform("a | b", None));
    assert_eq!(transform("<a,b,c>", None), transform("a | b | c", None));
    let out = transform("<a,b>", None).unwrap();
    assert_eq!(2, out.length);
    assert_eq!(vec![TimedEvent::new(1, "a", 100), TimedEvent::new(1921, "b", 100)], out.steps);
}

#[test]
fn euclidean_boundary_values() {
    assert_eq!(transform("b(1,2)", None), transform("b ~", None));
    assert_eq!(transform("b(3,4)", None), transform("b ~ b b", None));
    assert_eq!(transform("b(5,6)", None), transform("b ~ b b b b", None));
    let e = Euclidean {
        value: onset("b"),
        n: EuclideanPrimitive::Single(5),
        m: EuclideanPrimitive::Single(6),
        r: EuclideanPrimitive::Single(0),
    };
    let rest = PrimitiveGroup::Single(ParsedEvent::empty());
    let expected = PrimitiveGroup::Group(vec![
        onset("b"),
        rest,
        onset("b"),
        onset("b"),
        onset("b"),
        onset("b"),
    ]);
    assert_eq!(Ok(expected), e.to_primitive_group());
}

#[test]
fn silent_event_keeps_its_ticks() {
    let loud = transform("1 2?25 3 4", None).unwrap();
    let places: Vec<(u32, u32)> = loud.steps.iter().map(|s| (s.index, s.event.probability)).collect();
    assert_eq!(vec![(1, 100), (481, 25), (961, 100), (1441, 100)], places);
    let silent = transform("1 2?0 3 4", None).unwrap();
    let places: Vec<(u32, u32)> = silent.steps.iter().map(|s| (s.index, s.event.probability)).collect();
    assert_eq!(vec![(1, 100), (961, 100), (1441, 100)], places);
    assert_eq!(transform("1 ~ 3 4", None), transform("1 9?0 3 4", None));
}

#[test]
fn polymeter_drifts_by_one_place_each_measure() {
    let out = transform("{1 2 3 4}%5", None).unwrap();
    assert_eq!(4, out.length);
    assert_eq!(20, out.steps.len());
    let rows = ["1 2 3 4", "2 3 4 1", "3 4 1 2", "4 1 2 3"];
    for (m, row) in rows.iter().enumerate() {
        let values: Vec<String> = out.steps[m * 5..m * 5 + 4].iter().map(|s| s.event.value.clone()).collect();
        assert_eq!(*row, values.join(" "));
        assert_eq!(1 + 1920 * m as u32, out.steps[m * 5].index);
        assert_eq!(1 + 1920 * m as u32 + 384, out.steps[m * 5 + 1].index);
    }
}

#[test]
fn construction_is_validated() {
    let more_pulses = Euclidean::create(
        onset("x"),
        EuclideanPrimitive::Single(5),
        EuclideanPrimitive::Single(4),
        None,
    );
    assert_eq!(
        Err(Error::DSLParsingError(ParsingError::EuclideanError(EuclideanError::NGreaterThanM))),
        more_pulses
    );
    let full_turn = Euclidean::create(
        onset("x"),
        EuclideanPrimitive::Single(3),
        EuclideanPrimitive::Single(8),
        Some(EuclideanPrimitive::Single(8)),
    );
    assert_eq!(
        Err(Error::DSLParsingError(ParsingError::EuclideanError(EuclideanError::RGreaterEqualThanM))),
        full_turn
    );
    let by_greatest = Euclidean::create(
        onset("x"),
        EuclideanPrimitive::Alternate(vec![1, 9]),
        EuclideanPrimitive::Alternate(vec![8, 4]),
        None,
    );
    assert_eq!(
        Err(Error::DSLParsingError(ParsingError::EuclideanError(EuclideanError::NGreaterThanM))),
        by_greatest
    );
    let empty = Euclidean::create(
        onset("x"),
        EuclideanPrimitive::Alternate(vec![]),
        EuclideanPrimitive::Single(8),
        None,
    );
    assert_eq!(Err(Error::UnexpectedError), empty);
    let fine = Euclidean::create(
        onset("x"),
        EuclideanPrimitive::Single(8),
        EuclideanPrimitive::Single(8),
        Some(EuclideanPrimitive::Single(7)),
    )
    .unwrap();
    assert_eq!(EuclideanPrimitive::Single(7), fine.r);
    assert_eq!(onset("x"), fine.value);
    let unturned = Euclidean::create(
        onset("x"),
        EuclideanPrimitive::Single(3),
        EuclideanPrimitive::Single(8),
        None,
    )
    .unwrap();
    assert_eq!(EuclideanPrimitive::Single(0), unturned.r);
}

#[test]
fn errors_of_a_text() {
    let euclid = Error::DSLParsingError(ParsingError::EuclideanError(EuclideanError::NGreaterThanM));
    assert_eq!(Err(euclid), transform("b(5,4)", None));
    let turn = Error::DSLParsingError(ParsingError::EuclideanError(EuclideanError::RGreaterEqualThanM));
    assert_eq!(Err(turn), transform("b(3,4,4) h", None));
    let grammar = Error::DSLParsingError(ParsingError::Generic);
    assert_eq!(Err(grammar), transform("1 2 ]", None));
    assert_eq!(Err(grammar), transform("1 2 3\n", None));
    assert_eq!(Err(grammar), transform("1  2", None));
    assert_eq!(Err(grammar), transform("<>", None));
    assert_eq!(Err(Error::EventParsingError), transform("a?300", None));
    assert_eq!(Err(Error::EventParsingError), transform("a*99999999999", None));
    assert_eq!(Err(Error::EventParsingError), transform("1 2 / 99999999999", None));
    assert_eq!(Err(Error::EventParsingError), transform("{1 2}%4294967296", None));
    assert_eq!(Err(Error::UnexpectedError), transform("b(0,4)", None));
    assert_eq!(Err(Error::UnexpectedError), transform("~(3,8)", None));
    assert_eq!(Err(Error::UnexpectedError), transform("b(<1,5>,<6,2>)", None));
    assert_eq!(Err(Error::UnexpectedError), transform("{}%4", None));
    assert_eq!(Err(Error::UnexpectedError), transform("{1 2}%0", None));
    assert_eq!(Err(Error::UnexpectedError), transform("binary(5,40)", None));
    assert_eq!(Err(Error::UnexpectedError), transform("harmonic(4000000000,2)", None));
}

#[test]
fn empty_text_is_one_empty_measure() {
    let out = transform("", None);
    assert_eq!(Ok(Pattern { steps: vec![], length: 1, subdivision: 1920 }), out);
    assert_eq!(transform("[]", None).unwrap().steps, vec![]);
}

#[test]
fn asked_length_stretches_the_sequence() {
    let out = transform("1 2 / 2", None).unwrap();
    assert_eq!(2, out.length);
    assert_eq!(vec![TimedEvent::new(1, "1", 100), TimedEvent::new(1921, "2", 100)], out.steps);
    let out = transform("1 2 | 3 4 / 3", None).unwrap();
    assert_eq!(3, out.length);
    let places: Vec<u32> = out.steps.iter().map(|s| s.index).collect();
    assert_eq!(vec![1, 1441, 2881, 4321], places);
    let out = transform("1 2 | 3 4 / 1", None).unwrap();
    assert_eq!(2, out.length);
    let places: Vec<u32> = out.steps.iter().map(|s| s.index).collect();
    assert_eq!(vec![1, 961, 1921, 2881], places);
}

#[test]
fn subdivision_sets_the_grid() {
    let out = transform("1 [2 3] | 4", Some(8)).unwrap();
    assert_eq!(8, out.subdivision);
    assert_eq!(
        vec![
            TimedEvent::new(1, "1", 100),
            TimedEvent::new(5, "2", 100),
            TimedEvent::new(7, "3", 100),
            TimedEvent::new(9, "4", 100),
        ],
        out.steps
    );
}

#[test]
fn span_that_shrinks_to_nothing_keeps_the_start() {
    let out = transform("1 2 3", Some(2)).unwrap();
    let places: Vec<u32> = out.steps.iter().map(|s| s.index).collect();
    assert_eq!(vec![1, 1, 1], places);
    let out = transform("1 2 3 | 4", Some(1)).unwrap();
    let places: Vec<u32> = out.steps.iter().map(|s| s.index).collect();
    assert_eq!(vec![1, 1, 1, 2], places);
}

#[test]
fn child_starts_at_its_place_whatever_stands_before_it() {
    let out = transform("a [b c d e f g h] i", None).unwrap();
    assert_eq!(9, out.steps.len());
    let places: Vec<u32> = out.steps.iter().map(|s| s.index).collect();
    assert_eq!(vec![1, 641, 732, 823, 914, 1005, 1096, 1187, 1281], places);
    assert_eq!("i", out.steps[8].event.value);
    let e = |v: &str| Measure::Event(Event { value: v.to_string(), probability: 100 });
    let m = Measure::Group(vec![
        e("a"),
        Measure::Group(vec![e("b"), e("c"), e("d"), e("e"), e("f"), e("g"), e("h")]),
        e("i"),
    ]);
    let direct = m.timed_events(1, 1, 1, 1920);
    assert_eq!(out.steps, direct);
    let silent = transform("a [b?0 c?0 d e f g h] ~ i", None).unwrap();
    let places: Vec<u32> = silent.steps.iter().map(|s| s.index).collect();
    assert_eq!(vec![1, 481 + 2 * 68, 481 + 3 * 68, 481 + 4 * 68, 481 + 5 * 68, 481 + 6 * 68, 1441], places);
}

#[test]
fn index_beyond_32_bits_is_an_error() {
    assert_eq!(Err(Error::UnexpectedError), transform("1 | 2 | 3", Some(4294967295)));
    let e = |v: &str| Measure::Event(Event { value: v.to_string(), probability: 100 });
    let one = Measure::Group(vec![e("1")]);
    let last = one.checked_timed_events(4294967295, 1, 1, 10).unwrap();
    assert_eq!(vec![TimedEvent::new(4294967295, "1", 100)], last);
    let two = Measure::Group(vec![e("1"), e("2")]);
    assert_eq!(None, two.checked_timed_events(4294967295, 1, 1, 10));
    assert_eq!(None, one.checked_timed_events(4294967295, 2, 1, 10));
    let sequence = Sequence::new(&vec![one.clone(), one], None, Some(4294967295));
    assert_eq!(None, sequence.checked_pattern());
}

#[test]
fn least_common_multiples() {
    assert_eq!(12, lcm(4, 6));
    assert_eq!(0, lcm(0, 6));
    assert_eq!(35, lcm(5, 7));
    assert_eq!(Some(4294967295), checked_lcm(4294967295, 1));
    assert_eq!(None, checked_lcm(65536, 65537));
    assert_eq!(Some(65536), checked_lcm(65536, 65536));
    assert_eq!(1, lcm_vec(&vec![]));
    assert_eq!(12, lcm_vec(&vec![2, 3, 4]));
    assert_eq!(Some(0), checked_lcm_vec(&vec![65537, 65539, 0]));
    assert_eq!(None, checked_lcm_vec(&vec![65537, 65539]));
}

#[test]
fn measures_of_a_parsed_measure() {
    let parsed = parse("<1,2> <3,4,5>").unwrap();
    match &parsed.measures[0] {
        Parsed::ParsedMeasure(pm) => {
            assert_eq!(Some(6), pm.checked_cycle());
            assert_eq!(vec![2, 3], pm.count_replications());
            assert_eq!(6, pm.to_measures().len());
        }
        Parsed::Polymetric(_) => panic!("a group was written"),
    }
    assert_eq!(6, parsed.to_measures().len());
    assert_eq!(compile(&parsed, None), transform("1 3 | 2 4 | 1 5 | 2 3 | 1 4 | 2 5", None));
}

#[test]
fn constructors_of_events() {
    let rest = ParsedMeasure::Single(Single::empty());
    assert_eq!(rest, ParsedMeasure::event("~"));
    assert_eq!(rest, ParsedMeasure::event_with_probability("~", 40));
    let loud = ParsedMeasure::Single(Single::Event(ParsedEvent { value: "a".to_string(), probability: 100 }));
    assert_eq!(loud, ParsedMeasure::event("a"));
    let soft = ParsedMeasure::Single(Single::Event(ParsedEvent { value: "a".to_string(), probability: 40 }));
    assert_eq!(soft, ParsedMeasure::event_with_probability("a", 40));
    let alternate = ParsedMeasure::alternate(vec![("a", None), ("~", Some(9)), ("b", Some(40))]);
    let expected = ParsedMeasure::Single(Single::Alternate(Alternate(vec![
        onset("a"),
        PrimitiveGroup::Single(ParsedEvent::empty()),
        PrimitiveGroup::Single(ParsedEvent { value: "b".to_string(), probability: 40 }),
    ])));
    assert_eq!(expected, alternate);
    assert_eq!(parse("<a,~,b?40>").unwrap().measures[0], Parsed::ParsedMeasure(ParsedMeasure::Group(vec![expected])));
}

#[test]
fn primitive_groups_and_parsed_measures() {
    let group = PrimitiveGroup::Group(vec![onset("a"), PrimitiveGroup::Group(vec![onset("b")])]);
    let measure = group.to_parsed_measure();
    assert_eq!(group, PrimitiveGroup::from_parsed_measure(&measure));
    let alternate = Alternate::from_parsed_measures(&vec![measure.clone(), ParsedMeasure::event("c")]);
    assert_eq!(Alternate(vec![group.clone(), onset("c")]), alternate);
    assert_eq!(group, alternate.next(0));
    assert_eq!(onset("c"), alternate.next(1));
    assert_eq!(group, alternate.next(2));
    assert!(onset("0").to_parsed_measure() != ParsedMeasure::event("~"));
    assert!(PrimitiveGroup::Single(ParsedEvent::empty()).is_rest());
    assert!(!onset("0").is_rest());
}

#[test]
fn euclidean_parameters() {
    let cycle = EuclideanPrimitive::Alternate(vec![4, 9, 2]);
    assert_eq!(4, cycle.next(0));
    assert_eq!(9, cycle.next(4));
    assert_eq!(3, cycle.replications());
    assert_eq!(Ok(&9), cycle.max_value());
    assert_eq!(Err(Error::UnexpectedError), cycle.get_value());
    let one = EuclideanPrimitive::Single(7);
    assert_eq!(7, one.next(5));
    assert_eq!(1, one.replications());
    assert_eq!(Ok(&7), one.max_value());
    assert_eq!(Ok(&7), one.get_value());
    assert_eq!(Err(Error::UnexpectedError), EuclideanPrimitive::Alternate(vec![]).max_value());
}

#[test]
fn rhythm_on_an_infeasible_turn_is_an_error() {
    let e = Euclidean {
        value: onset("x"),
        n: EuclideanPrimitive::Single(0),
        m: EuclideanPrimitive::Single(4),
        r: EuclideanPrimitive::Single(0),
    };
    assert_eq!(Err(Error::UnexpectedError), e.to_primitive_group());
    assert_eq!(Err(Error::UnexpectedError), e.to_single_pattern());
    let cycle = Euclidean {
        value: onset("x"),
        n: EuclideanPrimitive::Alternate(vec![1, 2]),
        m: EuclideanPrimitive::Single(4),
        r: EuclideanPrimitive::Single(0),
    };
    assert_eq!(Err(Error::UnexpectedError), cycle.to_primitive_group());
    let options = match cycle.to_single_pattern().unwrap() {
        Single::Alternate(a) => a.0,
        Single::Event(_) => panic!("a cycle gives an alternation"),
    };
    assert_eq!(2, options.len());
    assert_eq!(transform("x(<1,2>,4)", None), transform("x ~ ~ ~ | x ~ x ~", None));
}

#[test]
fn full_turn_of_the_rotation_changes_nothing() {
    let turned = Euclidean {
        value: onset("x"),
        n: EuclideanPrimitive::Single(3),
        m: EuclideanPrimitive::Single(8),
        r: EuclideanPrimitive::Single(8),
    };
    let plain = Euclidean {
        value: onset("x"),
        n: EuclideanPrimitive::Single(3),
        m: EuclideanPrimitive::Single(8),
        r: EuclideanPrimitive::Single(0),
    };
    assert_eq!(plain.to_primitive_group(), turned.to_primitive_group());
}

#[test]
fn target_is_named_before_the_sequence() {
    let read = battito::parser::parse_targeted("kick > 1 2 | 3").unwrap();
    assert_eq!("kick", read.target);
    assert_eq!(parse("1 2 | 3").unwrap(), read.sequence);
    let grammar = Error::DSLParsingError(ParsingError::Generic);
    assert_eq!(Err(grammar), battito::parser::parse_targeted("kick $ 1 2 | 3"));
    assert_eq!(Err(grammar), battito::parser::parse_targeted("1 2 | 3"));
    assert_eq!(Err(grammar), battito::parser::parse_targeted(" > 1 2"));
    assert_eq!(Err(Error::EventParsingError), battito::parser::parse_targeted("kick > 1?999"));
}

#[test]
fn steps_ascend_by_index() {
    let out = transform("1 [2 <3,4>] b(3,8) | {5 6 7}%2 / 9", None).unwrap();
    assert!(out.steps.windows(2).all(|w| w[0].index <= w[1].index));
    let crowded = transform("1 2 3 4 | 5", Some(2)).unwrap();
    let places: Vec<u32> = crowded.steps.iter().map(|s| s.index).collect();
    assert_eq!(vec![1, 1, 1, 1, 3], places);
    let nested = transform("[1 2 3 4 5 6 7] 8 | [9 [10 11 12]] 13 / 5", Some(100)).unwrap();
    assert!(nested.steps.windows(2).all(|w| w[0].index <= w[1].index));
    assert!(nested.steps.iter().all(|s| s.index >= 1 && s.event.probability != 0));
}

#[test]
fn long_measure_is_read() {
    let text = vec!["1"; 20000].join(" ");
    let out = transform(&text, None).unwrap();
    assert_eq!(20000, out.steps.len());
    assert_eq!(1, out.steps[19999].index);
    let wide = transform(&text, Some(40000)).unwrap();
    assert_eq!(1 + 19999 * 2, wide.steps[19999].index);
    let measures = vec!["1 2"; 3000].join(" | ");
    let out = transform(&measures, Some(4)).unwrap();
    assert_eq!(3000, out.length);
    assert_eq!(6000, out.steps.len());
    assert_eq!(1 + 2999 * 4 + 2, out.steps[5999].index);
}

#[test]
fn rhythm_has_as_many_onsets_as_pulses() {
    for m in 1..=16u32 {
        for n in 1..=m {
            for r in [0, m / 2, m] {
                let e = Euclidean {
                    value: onset("x"),
                    n: EuclideanPrimitive::Single(n),
                    m: EuclideanPrimitive::Single(m),
                    r: EuclideanPrimitive::Single(r),
                };
                let slots = match e.to_primitive_group().unwrap() {
                    PrimitiveGroup::Group(slots) => slots,
                    PrimitiveGroup::Single(_) => panic!("a rhythm is a group"),
                };
                assert_eq!(m as usize, slots.len());
                assert_eq!(n as usize, slots.iter().filter(|s| **s == onset("x")).count());
                assert_eq!((m - n) as usize, slots.iter().filter(|s| s.is_rest()).count());
            }
        }
    }
}

#[test]
fn silenced_event_leaves_the_others_where_they_are() {
    let loud = transform("a [b [c d] e] f | g", Some(700)).unwrap();
    let texts = [
        "a?0 [b [c d] e] f | g",
        "a [b?0 [c d] e] f | g",
        "a [b [c?0 d] e] f | g",
        "a [b [c d?0] e] f | g",
        "a [b [c d] e?0] f | g",
        "a [b [c d] e] f?0 | g",
        "a [b [c d] e] f | g?0",
    ];
    for (k, text) in texts.iter().enumerate() {
        let hushed = transform(text, Some(700)).unwrap();
        let mut expected: Vec<TimedEvent> = loud.steps.clone();
        expected.remove(k);
        assert_eq!(expected, hushed.steps);
    }
}

#[test]
fn least_common_multiple_divides_every_common_multiple() {
    for a in 1..=12u32 {
        for b in 1..=12u32 {
            let l = lcm(a, b);
            assert_eq!(0, l % a);
            assert_eq!(0, l % b);
            for c in 1..l {
                assert!(c % a != 0 || c % b != 0);
            }
            assert_eq!(0, (a * b) % l);
        }
    }
}

#[test]
fn quiet_text_written_twice() {
    for text in ["1 [2 3] b(3,8) x*2 y!3", "harmonic(50,3) ~ a?40", "[[a b] c(5,6,2)]*2"] {
        let once = transform(text, Some(960)).unwrap();
        let twice = transform(&format!("{} | {}", text, text), Some(960)).unwrap();
        assert_eq!(1, once.length);
        assert_eq!(2, twice.length);
        let k = once.steps.len();
        assert_eq!(2 * k, twice.steps.len());
        assert_eq!(once.steps[..], twice.steps[..k]);
        for j in 0..k {
            assert_eq!(once.steps[j].index + 960, twice.steps[k + j].index);
            assert_eq!(once.steps[j].event, twice.steps[k + j].event);
        }
    }
}
