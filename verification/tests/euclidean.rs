use battito::euclidean::{Euclidean, EuclideanPrimitive};
use battito::primitives::{ParsedEvent, PrimitiveGroup};

#[test]
fn euclidean_expansion() {
    let e = Euclidean {
        value: PrimitiveGroup::Single(ParsedEvent {
            value: "x".to_string(),
            probability: 100,
        }),
        n: EuclideanPrimitive::Single(3),
        m: EuclideanPrimitive::Alternate(vec![4, 8]),
        r: EuclideanPrimitive::Alternate(vec![0, 1, 2]),
    };
    let out = e.expand_alternate();
    let expected = vec![
        Euclidean {
            value: PrimitiveGroup::Single(ParsedEvent {
                value: "x".to_string(),
                probability: 100,
            }),
            n: EuclideanPrimitive::Single(3),
            m: EuclideanPrimitive::Single(4),
            r: EuclideanPrimitive::Single(0),
        },
        Euclidean {
            value: PrimitiveGroup::Single(ParsedEvent {
                value: "x".to_string(),
                probability: 100,
            }),
            n: EuclideanPrimitive::Single(3),
            m: EuclideanPrimitive::Single(8),
            r: EuclideanPrimitive::Single(1),
        },
        Euclidean {
            value: PrimitiveGroup::Single(ParsedEvent {
                value: "x".to_string(),
                probability: 100,
            }),
            n: EuclideanPrimitive::Single(3),
            m: EuclideanPrimitive::Single(4),
            r: EuclideanPrimitive::Single(2),
        },
        Euclidean {
            value: PrimitiveGroup::Single(ParsedEvent {
                value: "x".to_string(),
                probability: 100,
            }),
            n: EuclideanPrimitive::Single(3),
            m: EuclideanPrimitive::Single(8),
            r: EuclideanPrimitive::Single(0),
        },
        Euclidean {
            value: PrimitiveGroup::Single(ParsedEvent {
                value: "x".to_string(),
                probability: 100,
            }),
            n: EuclideanPrimitive::Single(3),
            m: EuclideanPrimitive::Single(4),
            r: EuclideanPrimitive::Single(1),
        },
        Euclidean {
            value: PrimitiveGroup::Single(ParsedEvent {
                value: "x".to_string(),
                probability: 100,
            }),
            n: EuclideanPrimitive::Single(3),
            m: EuclideanPrimitive::Single(8),
            r: EuclideanPrimitive::Single(2),
        },
    ];
    assert_eq!(expected, out);
}

#[test]
fn euclidean_transformation() {
    let e = Euclidean {
        value: PrimitiveGroup::Single(ParsedEvent {
            value: "x".to_string(),
            probability: 100,
        }),
        n: EuclideanPrimitive::Single(3),
        m: EuclideanPrimitive::Single(8),
        r: EuclideanPrimitive::Single(0),
    };
    let expected = Ok(PrimitiveGroup::Group(vec![
        PrimitiveGroup::Single(ParsedEvent {
            value: "x".to_string(),
            probability: 100,
        }),
        PrimitiveGroup::Single(ParsedEvent {
            value: "0".to_string(),
            probability: 0,
        }),
        PrimitiveGroup::Single(ParsedEvent {
            value: "0".to_string(),
            probability: 0,
        }),
        PrimitiveGroup::Single(ParsedEvent {
            value: "x".to_string(),
            probability: 100,
        }),
        PrimitiveGroup::Single(ParsedEvent {
            value: "0".to_string(),
            probability: 0,
        }),
        PrimitiveGroup::Single(ParsedEvent {
            value: "0".to_string(),
            probability: 0,
        }),
        PrimitiveGroup::Single(ParsedEvent {
            value: "x".to_string(),
            probability: 100,
        }),
        PrimitiveGroup::Single(ParsedEvent {
            value: "0".to_string(),
            probability: 0,
        }),
    ]));
    assert_eq!(expected, e.to_primitive_group());

    let e = Euclidean {
        value: PrimitiveGroup::Single(ParsedEvent {
            value: "x".to_string(),
            probability: 100,
        }),
        n: EuclideanPrimitive::Single(2),
        m: EuclideanPrimitive::Single(4),
        r: EuclideanPrimitive::Single(0),
    };
    let expected = Ok(PrimitiveGroup::Group(vec![
        PrimitiveGroup::Single(ParsedEvent {
            value: "x".to_string(),
            probability: 100,
        }),
        PrimitiveGroup::Single(ParsedEvent {
            value: "0".to_string(),
            probability: 0,
        }),
        PrimitiveGroup::Single(ParsedEvent {
            value: "x".to_string(),
            probability: 100,
        }),
        PrimitiveGroup::Single(ParsedEvent {
            value: "0".to_string(),
            probability: 0,
        }),
    ]));
    assert_eq!(expected, e.to_primitive_group());

    let e = Euclidean {
        value: PrimitiveGroup::Single(ParsedEvent {
            value: "x".to_string(),
            probability: 100,
        }),
        n: EuclideanPrimitive::Single(4),
        m: EuclideanPrimitive::Single(4),
        r: EuclideanPrimitive::Single(0),
    };
    let expected = Ok(PrimitiveGroup::Group(vec![
        PrimitiveGroup::Single(ParsedEvent {
            value: "x".to_string(),
            probability: 100,
        }),
        PrimitiveGroup::Single(ParsedEvent {
            value: "x".to_string(),
            probability: 100,
        }),
        PrimitiveGroup::Single(ParsedEvent {
            value: "x".to_string(),
            probability: 100,
        }),
        PrimitiveGroup::Single(ParsedEvent {
            value: "x".to_string(),
            probability: 100,
        }),
    ]));
    assert_eq!(expected, e.to_primitive_group());

    let e = Euclidean {
        value: PrimitiveGroup::Single(ParsedEvent {
            value: "x".to_string(),
            probability: 100,
        }),
        n: EuclideanPrimitive::Single(7),
        m: EuclideanPrimitive::Single(8),
        r: EuclideanPrimitive::Single(0),
    };
    let expected = Ok(PrimitiveGroup::Group(vec![
        PrimitiveGroup::Single(ParsedEvent {
            value: "x".to_string(),
            probability: 100,
        }),
        PrimitiveGroup::Single(ParsedEvent {
            value: "0".to_string(),
            probability: 0,
        }),
        PrimitiveGroup::Single(ParsedEvent {
            value: "x".to_string(),
            probability: 100,
        }),
        PrimitiveGroup::Single(ParsedEvent {
            value: "x".to_string(),
            probability: 100,
        }),
        PrimitiveGroup::Single(ParsedEvent {
            value: "x".to_string(),
            probability: 100,
        }),
        PrimitiveGroup::Single(ParsedEvent {
            value: "x".to_string(),
            probability: 100,
        }),
        PrimitiveGroup::Single(ParsedEvent {
            value: "x".to_string(),
            probability: 100,
        }),
        PrimitiveGroup::Single(ParsedEvent {
            value: "x".to_string(),
            probability: 100,
        }),
    ]));
    assert_eq!(expected, e.to_primitive_group());
}

#[test]
fn euclidean_transformation_nested() {
    let value = PrimitiveGroup::Group(vec![
        PrimitiveGroup::Group(vec![
            PrimitiveGroup::Single(ParsedEvent {
                value: "a".to_string(),
                probability: 114,
            }),
            PrimitiveGroup::Single(ParsedEvent {
                value: "ll".to_string(),
                probability: 63,
            }),
        ]),
        PrimitiveGroup::Single(ParsedEvent {
            value: "b".to_string(),
            probability: 100,
        }),
    ]);
    let e = Euclidean {
        value: value.clone(),
        n: EuclideanPrimitive::Single(2),
        m: EuclideanPrimitive::Single(4),
        r: EuclideanPrimitive::Single(0),
    };
    let expected = Ok(PrimitiveGroup::Group(vec![
        value.clone(),
        PrimitiveGroup::Single(ParsedEvent {
            value: "0".to_string(),
            probability: 0,
        }),
        value.clone(),
        PrimitiveGroup::Single(ParsedEvent {
            value: "0".to_string(),
            probability: 0,
        }),
    ]));
    assert_eq!(expected, e.to_primitive_group());
}

#[test]
fn euclidean_transformation_rotation() {
    let e = Euclidean {
        value: PrimitiveGroup::Single(ParsedEvent {
            value: "x".to_string(),
            probability: 100,
        }),
        n: EuclideanPrimitive::Single(3),
        m: EuclideanPrimitive::Single(8),
        r: EuclideanPrimitive::Single(1),
    };
    let expected = Ok(PrimitiveGroup::Group(vec![
        PrimitiveGroup::Single(ParsedEvent {
            value: "0".to_string(),
            probability: 0,
        }),
        PrimitiveGroup::Single(ParsedEvent {
            value: "x".to_string(),
            probability: 100,
        }),
        PrimitiveGroup::Single(ParsedEvent {
            value: "0".to_string(),
            probability: 0,
        }),
        PrimitiveGroup::Single(ParsedEvent {
            value: "0".to_string(),
            probability: 0,
        }),
        PrimitiveGroup::Single(ParsedEvent {
            value: "x".to_string(),
            probability: 100,
        }),
        PrimitiveGroup::Single(ParsedEvent {
            value: "0".to_string(),
            probability: 0,
        }),
        PrimitiveGroup::Single(ParsedEvent {
            value: "0".to_string(),
            probability: 0,
        }),
        PrimitiveGroup::Single(ParsedEvent {
            value: "x".to_string(),
            probability: 100,
        }),
    ]));
    assert_eq!(expected, e.to_primitive_group());

    let e = Euclidean {
        value: PrimitiveGroup::Single(ParsedEvent {
            value: "x".to_string(),
            probability: 100,
        }),
        n: EuclideanPrimitive::Single(2),
        m: EuclideanPrimitive::Single(4),
        r: EuclideanPrimitive::Single(2),
    };
    let expected = Ok(PrimitiveGroup::Group(vec![
        PrimitiveGroup::Single(ParsedEvent {
            value: "x".to_string(),
            probability: 100,
        }),
        PrimitiveGroup::Single(ParsedEvent {
            value: "0".to_string(),
            probability: 0,
        }),
        PrimitiveGroup::Single(ParsedEvent {
            value: "x".to_string(),
            probability: 100,
        }),
        PrimitiveGroup::Single(ParsedEvent {
            value: "0".to_string(),
            probability: 0,
        }),
    ]));
    assert_eq!(expected, e.to_primitive_group());

    let e = Euclidean {
        value: PrimitiveGroup::Single(ParsedEvent {
            value: "x".to_string(),
            probability: 100,
        }),
        n: EuclideanPrimitive::Single(4),
        m: EuclideanPrimitive::Single(4),
        r: EuclideanPrimitive::Single(3),
    };
    let expected = Ok(PrimitiveGroup::Group(vec![
        PrimitiveGroup::Single(ParsedEvent {
            value: "x".to_string(),
            probability: 100,
        }),
        PrimitiveGroup::Single(ParsedEvent {
            value: "x".to_string(),
            probability: 100,
        }),
        PrimitiveGroup::Single(ParsedEvent {
            value: "x".to_string(),
            probability: 100,
        }),
        PrimitiveGroup::Single(ParsedEvent {
            value: "x".to_string(),
            probability: 100,
        }),
    ]));
    assert_eq!(expected, e.to_primitive_group());
}

#[test]
fn exploration() {
    let e = Euclidean {
        value: PrimitiveGroup::Single(ParsedEvent {
            value: "x".to_string(),
            probability: 100,
        }),
        n: EuclideanPrimitive::Single(3),
        m: EuclideanPrimitive::Alternate(vec![4, 8]),
        r: EuclideanPrimitive::Alternate(vec![0, 1, 2]),
    };
    let out = e.expand_alternate();
    let expected = vec![
        Euclidean {
            value: PrimitiveGroup::Single(ParsedEvent {
                value: "x".to_string(),
                probability: 100,
            }),
            n: EuclideanPrimitive::Single(3),
            m: EuclideanPrimitive::Single(4),
            r: EuclideanPrimitive::Single(0),
        },
        Euclidean {
            value: PrimitiveGroup::Single(ParsedEvent {
                value: "x".to_string(),
                probability: 100,
            }),
            n: EuclideanPrimitive::Single(3),
            m: EuclideanPrimitive::Single(8),
            r: EuclideanPrimitive::Single(1),
        },
        Euclidean {
            value: PrimitiveGroup::Single(ParsedEvent {
                value: "x".to_string(),
                probability: 100,
            }),
            n: EuclideanPrimitive::Single(3),
            m: EuclideanPrimitive::Single(4),
            r: EuclideanPrimitive::Single(2),
        },
        Euclidean {
            value: PrimitiveGroup::Single(ParsedEvent {
                value: "x".to_string(),
                probability: 100,
            }),
            n: EuclideanPrimitive::Single(3),
            m: EuclideanPrimitive::Single(8),
            r: EuclideanPrimitive::Single(0),
        },
        Euclidean {
            value: PrimitiveGroup::Single(ParsedEvent {
                value: "x".to_string(),
                probability: 100,
            }),
            n: EuclideanPrimitive::Single(3),
            m: EuclideanPrimitive::Single(4),
            r: EuclideanPrimitive::Single(1),
        },
        Euclidean {
            value: PrimitiveGroup::Single(ParsedEvent {
                value: "x".to_string(),
                probability: 100,
            }),
            n: EuclideanPrimitive::Single(3),
            m: EuclideanPrimitive::Single(8),
            r: EuclideanPrimitive::Single(2),
        },
    ];
    assert_eq!(expected, out);
}
