use battito::euclidean::{Euclidean, EuclideanPrimitive};
use battito::primitives::{ParsedEvent, PrimitiveGroup};

fn note(value: String, velocity: u8, duration: u8) -> ParsedEvent {
    let _ = velocity;
    ParsedEvent {
        value,
        probability: duration,
    }
}

#[test]
fn expansion() {
    let e = Euclidean {
        value: PrimitiveGroup::Single(note("x".to_string(), 100, 100)),
        n: EuclideanPrimitive::Single(3),
        m: EuclideanPrimitive::Alternate(vec![4, 8]),
        r: EuclideanPrimitive::Alternate(vec![0, 1, 2]),
    };
    let out = e.expand_alternate();
    let expected = vec![
        Euclidean {
            value: PrimitiveGroup::Single(note("x".to_string(), 100, 100)),
            n: EuclideanPrimitive::Single(3),
            m: EuclideanPrimitive::Single(4),
            r: EuclideanPrimitive::Single(0),
        },
        Euclidean {
            value: PrimitiveGroup::Single(note("x".to_string(), 100, 100)),
            n: EuclideanPrimitive::Single(3),
            m: EuclideanPrimitive::Single(8),
            r: EuclideanPrimitive::Single(1),
        },
        Euclidean {
            value: PrimitiveGroup::Single(note("x".to_string(), 100, 100)),
            n: EuclideanPrimitive::Single(3),
            m: EuclideanPrimitive::Single(4),
            r: EuclideanPrimitive::Single(2),
        },
        Euclidean {
            value: PrimitiveGroup::Single(note("x".to_string(), 100, 100)),
            n: EuclideanPrimitive::Single(3),
            m: EuclideanPrimitive::Single(8),
            r: EuclideanPrimitive::Single(0),
        },
        Euclidean {
            value: PrimitiveGroup::Single(note("x".to_string(), 100, 100)),
            n: EuclideanPrimitive::Single(3),
            m: EuclideanPrimitive::Single(4),
            r: EuclideanPrimitive::Single(1),
        },
        Euclidean {
            value: PrimitiveGroup::Single(note("x".to_string(), 100, 100)),
            n: EuclideanPrimitive::Single(3),
            m: EuclideanPrimitive::Single(8),
            r: EuclideanPrimitive::Single(2),
        },
    ];
    assert_eq!(expected, out);
}

#[test]
fn transformation() {
    let e = Euclidean {
        value: PrimitiveGroup::Single(note("x".to_string(), 100, 100)),
        n: EuclideanPrimitive::Single(3),
        m: EuclideanPrimitive::Single(8),
        r: EuclideanPrimitive::Single(0),
    };
    let expected = Ok(PrimitiveGroup::Group(vec![
        PrimitiveGroup::Single(note("x".to_string(), 100, 100)),
        PrimitiveGroup::Single(note("0".to_string(), 0, 0)),
        PrimitiveGroup::Single(note("0".to_string(), 0, 0)),
        PrimitiveGroup::Single(note("x".to_string(), 100, 100)),
        PrimitiveGroup::Single(note("0".to_string(), 0, 0)),
        PrimitiveGroup::Single(note("0".to_string(), 0, 0)),
        PrimitiveGroup::Single(note("x".to_string(), 100, 100)),
        PrimitiveGroup::Single(note("0".to_string(), 0, 0)),
    ]));
    assert_eq!(expected, e.to_primitive_group());

    let e = Euclidean {
        value: PrimitiveGroup::Single(note("x".to_string(), 100, 100)),
        n: EuclideanPrimitive::Single(2),
        m: EuclideanPrimitive::Single(4),
        r: EuclideanPrimitive::Single(0),
    };
    let expected = Ok(PrimitiveGroup::Group(vec![
        PrimitiveGroup::Single(note("x".to_string(), 100, 100)),
        PrimitiveGroup::Single(note("0".to_string(), 0, 0)),
        PrimitiveGroup::Single(note("x".to_string(), 100, 100)),
        PrimitiveGroup::Single(note("0".to_string(), 0, 0)),
    ]));
    assert_eq!(expected, e.to_primitive_group());

    let e = Euclidean {
        value: PrimitiveGroup::Single(note("x".to_string(), 100, 100)),
        n: EuclideanPrimitive::Single(4),
        m: EuclideanPrimitive::Single(4),
        r: EuclideanPrimitive::Single(0),
    };
    let expected = Ok(PrimitiveGroup::Group(vec![
        PrimitiveGroup::Single(note("x".to_string(), 100, 100)),
        PrimitiveGroup::Single(note("x".to_string(), 100, 100)),
        PrimitiveGroup::Single(note("x".to_string(), 100, 100)),
        PrimitiveGroup::Single(note("x".to_string(), 100, 100)),
    ]));
    assert_eq!(expected, e.to_primitive_group());

    let e = Euclidean {
        value: PrimitiveGroup::Single(note("x".to_string(), 100, 100)),
        n: EuclideanPrimitive::Single(7),
        m: EuclideanPrimitive::Single(8),
        r: EuclideanPrimitive::Single(0),
    };
    let expected = Ok(PrimitiveGroup::Group(vec![
        PrimitiveGroup::Single(note("x".to_string(), 100, 100)),
        PrimitiveGroup::Single(note("0".to_string(), 0, 0)),
        PrimitiveGroup::Single(note("x".to_string(), 100, 100)),
        PrimitiveGroup::Single(note("x".to_string(), 100, 100)),
        PrimitiveGroup::Single(note("x".to_string(), 100, 100)),
        PrimitiveGroup::Single(note("x".to_string(), 100, 100)),
        PrimitiveGroup::Single(note("x".to_string(), 100, 100)),
        PrimitiveGroup::Single(note("x".to_string(), 100, 100)),
    ]));
    assert_eq!(expected, e.to_primitive_group());
}

#[test]
fn transformation_nested() {
    let value = PrimitiveGroup::Group(vec![
        PrimitiveGroup::Group(vec![
            PrimitiveGroup::Single(note("a".to_string(), 120, 114)),
            PrimitiveGroup::Single(note("ll".to_string(), 59, 63)),
        ]),
        PrimitiveGroup::Single(note("b".to_string(), 100, 100)),
    ]);
    let e = Euclidean {
        value: value.clone(),
        n: EuclideanPrimitive::Single(2),
        m: EuclideanPrimitive::Single(4),
        r: EuclideanPrimitive::Single(0),
    };
    let expected = Ok(PrimitiveGroup::Group(vec![
        value.clone(),
        PrimitiveGroup::Single(note("0".to_string(), 0, 0)),
        value.clone(),
        PrimitiveGroup::Single(note("0".to_string(), 0, 0)),
    ]));
    assert_eq!(expected, e.to_primitive_group());
}

#[test]
fn transformation_rotation() {
    let e = Euclidean {
        value: PrimitiveGroup::Single(note("x".to_string(), 100, 100)),
        n: EuclideanPrimitive::Single(3),
        m: EuclideanPrimitive::Single(8),
        r: EuclideanPrimitive::Single(1),
    };
    let expected = Ok(PrimitiveGroup::Group(vec![
        PrimitiveGroup::Single(note("0".to_string(), 0, 0)),
        PrimitiveGroup::Single(note("x".to_string(), 100, 100)),
        PrimitiveGroup::Single(note("0".to_string(), 0, 0)),
        PrimitiveGroup::Single(note("0".to_string(), 0, 0)),
        PrimitiveGroup::Single(note("x".to_string(), 100, 100)),
        PrimitiveGroup::Single(note("0".to_string(), 0, 0)),
        PrimitiveGroup::Single(note("0".to_string(), 0, 0)),
        PrimitiveGroup::Single(note("x".to_string(), 100, 100)),
    ]));
    assert_eq!(expected, e.to_primitive_group());

    let e = Euclidean {
        value: PrimitiveGroup::Single(note("x".to_string(), 100, 100)),
        n: EuclideanPrimitive::Single(2),
        m: EuclideanPrimitive::Single(4),
        r: EuclideanPrimitive::Single(2),
    };
    let expected = Ok(PrimitiveGroup::Group(vec![
        PrimitiveGroup::Single(note("x".to_string(), 100, 100)),
        PrimitiveGroup::Single(note("0".to_string(), 0, 0)),
        PrimitiveGroup::Single(note("x".to_string(), 100, 100)),
        PrimitiveGroup::Single(note("0".to_string(), 0, 0)),
    ]));
    assert_eq!(expected, e.to_primitive_group());

    let e = Euclidean {
        value: PrimitiveGroup::Single(note("x".to_string(), 100, 100)),
        n: EuclideanPrimitive::Single(4),
        m: EuclideanPrimitive::Single(4),
        r: EuclideanPrimitive::Single(3),
    };
    let expected = Ok(PrimitiveGroup::Group(vec![
        PrimitiveGroup::Single(note("x".to_string(), 100, 100)),
        PrimitiveGroup::Single(note("x".to_string(), 100, 100)),
        PrimitiveGroup::Single(note("x".to_string(), 100, 100)),
        PrimitiveGroup::Single(note("x".to_string(), 100, 100)),
    ]));
    assert_eq!(expected, e.to_primitive_group());
}
