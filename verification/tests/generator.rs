use battito::expansion::HarmonicGenerator;
use battito::generator::{g, h, harmonic, Binary, Harmonic};
use battito::parsed_measure::ParsedMeasure;
use battito::transform;

#[test]
fn test() {
    let mut iter = Harmonic::new(50);
    for _ in 0..20 {
        println!("{}", iter.next().unwrap())
    }
}

#[test]
fn harmonic_series_values() {
    let mut iter = Harmonic::new(50);
    let mut seen = Vec::new();
    for _ in 0..4 {
        seen.push(iter.next().unwrap());
    }
    assert_eq!(vec![50, 100, 150, 200], seen);
    assert_eq!(12, harmonic(3, 4));
}

#[test]
fn binary_digits_most_significant_first() {
    assert_eq!(vec![0, 1, 0, 1], Binary { number: 5, length: 4 }.generate());
    assert_eq!(vec![1, 1, 0], Binary { number: 6, length: 3 }.generate());
    assert_eq!(Vec::<u32>::new(), Binary { number: 6, length: 0 }.generate());
    let all = Binary { number: 1, length: 32 }.generate();
    assert_eq!(32, all.len());
    assert_eq!(1, all[31]);
    assert_eq!(0, all[0]);
}

#[test]
fn binary_expands_to_events_and_rests() {
    let out = Binary { number: 5, length: 4 }.expand().unwrap();
    let expected = vec![
        ParsedMeasure::event("~"),
        ParsedMeasure::event("0"),
        ParsedMeasure::event("~"),
        ParsedMeasure::event("0"),
    ];
    assert_eq!(expected, out);
    assert!(Binary { number: 5, length: 33 }.expand().is_err());
}

#[test]
fn harmonic_generator_expands_to_events() {
    let out = HarmonicGenerator { fundamental: 50, steps: 3 }.expand().unwrap();
    let expected = vec![
        ParsedMeasure::event("50"),
        ParsedMeasure::event("100"),
        ParsedMeasure::event("150"),
    ];
    assert_eq!(expected, out);
    assert!(HarmonicGenerator { fundamental: 4000000000, steps: 2 }.expand().is_err());
}

#[test]
fn generators_in_text() {
    assert_eq!(transform("harmonic(50,3) 7", None), transform("50 100 150 7", None));
    assert_eq!(transform("binary(5,4)", None), transform("~ 0 ~ 0", None));
    assert_eq!(transform("harmonic(7,0) 1", None), transform("1", None));
}

#[test]
fn trail_sequences() {
    let gs: Vec<u8> = (0..10).map(g).collect();
    assert_eq!(vec![0, 1, 1, 2, 3, 3, 4, 4, 5, 6], gs);
    let hs: Vec<u8> = (0..10).map(h).collect();
    assert_eq!(vec![0, 1, 1, 2, 3, 4, 4, 5, 5, 6], hs);
}
