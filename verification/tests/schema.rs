//! Schemas, their registry and the encoding of values.
use runtime_core::schema::{Field, FieldType, Schema, SchemaError, SchemaRegistry};
use runtime_core::Value;

fn schema_s(t: FieldType) -> Schema {
    Schema {
        name: "x".into(),
        version: 1,
        fields: vec![Field {
            name: "v".into(),
            ty: t,
        }],
    }
}

#[test]
fn decode_int_string_and_sequence() {
    let x = schema_s(FieldType::Int { min: -2, max: 4 });
    assert_eq!(
        x.decode(&3i64.to_le_bytes()),
        Ok(Value::Record(vec![Value::Int(3)]))
    );
    let x = schema_s(FieldType::String { max_bytes: 4 });
    assert!(x.decode(&[2, 0, 0, 0, b'o', b'k']).is_ok());
}

#[test]
fn malformed_and_bounds_rejected() {
    let x = schema_s(FieldType::Bool);
    assert!(x.decode(&[2]).is_err());
    let x = schema_s(FieldType::Sequence {
        item: Box::new(FieldType::UInt { min: 0, max: 9 }),
        max_len: 2,
    });
    assert!(x.decode(&[3, 0, 0, 0]).is_err());
    assert!(
        Schema {
            name: "x".into(),
            version: 1,
            fields: vec![Field {
                name: "x".into(),
                ty: FieldType::String {
                    max_bytes: 1 << 20 | 1
                }
            }]
        }
        .validate()
        .is_err()
    );
}

#[test]
fn float_nan_policy_and_depth() {
    let x = schema_s(FieldType::Float {
        allow_non_finite: false,
    });
    assert!(x.decode(&0x7ff0_0000_0000_0000u64.to_le_bytes()).is_err());
    let x = schema_s(FieldType::Float {
        allow_non_finite: true,
    });
    assert!(x.decode(&0x7ff8_0000_0000_0000u64.to_le_bytes()).is_ok());
    assert!(x.decode(&0x7ff8_0000_0000_0001u64.to_le_bytes()).is_err());
}

#[test]
fn registry_identity_collision_and_limit() {
    let mut r = SchemaRegistry::new(1).unwrap();
    let x = schema_s(FieldType::Bool);
    assert_eq!(r.register(x.clone()), Ok(1));
    assert_eq!(r.register(x), Ok(1));
    assert!(
        r.register(Schema {
            name: "x".into(),
            version: 1,
            fields: vec![Field {
                name: "v".into(),
                ty: FieldType::Int { min: 0, max: 1 }
            }]
        })
        .is_err()
    );
    assert_eq!(r.schema(1).unwrap().name, "x");
    let _: SchemaError = SchemaError("x".into());
}

#[test]
fn nested_identity_conflict_is_rejected_atomically() {
    let mut r = SchemaRegistry::new(4).unwrap();
    let nested_a = Schema {
        name: "nested".into(),
        version: 1,
        fields: vec![Field {
            name: "x".into(),
            ty: FieldType::Bool,
        }],
    };
    let nested_b = Schema {
        name: "nested".into(),
        version: 1,
        fields: vec![Field {
            name: "x".into(),
            ty: FieldType::UInt { min: 0, max: 1 },
        }],
    };
    let root = |name: &str, n: Schema| Schema {
        name: name.into(),
        version: 1,
        fields: vec![Field {
            name: "n".into(),
            ty: FieldType::Record(Box::new(n)),
        }],
    };
    assert!(r.register(root("a", nested_a)).is_ok());
    assert!(r.register_batch(vec![root("b", nested_b)]).is_err());
    assert!(r.schema(2).is_err());
}

#[test]
fn identical_nested_identity_is_allowed_and_batch_is_atomic() {
    let mut r = SchemaRegistry::new(4).unwrap();
    let nested = Schema {
        name: "nested".into(),
        version: 1,
        fields: vec![Field {
            name: "x".into(),
            ty: FieldType::Bool,
        }],
    };
    let root = |name: &str| Schema {
        name: name.into(),
        version: 1,
        fields: vec![Field {
            name: "n".into(),
            ty: FieldType::Record(Box::new(nested.clone())),
        }],
    };
    assert_eq!(
        r.register_batch(vec![root("a"), root("b")]).unwrap(),
        vec![1, 2]
    );
    let bad = Schema {
        name: "bad".into(),
        version: 1,
        fields: vec![Field {
            name: "x".into(),
            ty: FieldType::String {
                max_bytes: 1 << 20 | 1,
            },
        }],
    };
    assert!(r.register_batch(vec![root("c"), bad]).is_err());
    assert!(r.schema(3).is_err());
}

#[test]
fn nested_record_is_decoded_in_shared_reader() {
    let nested = Schema {
        name: "nested2".into(),
        version: 1,
        fields: vec![Field {
            name: "x".into(),
            ty: FieldType::Bool,
        }],
    };
    let root = Schema {
        name: "root2".into(),
        version: 1,
        fields: vec![
            Field {
                name: "a".into(),
                ty: FieldType::Record(Box::new(nested.clone())),
            },
            Field {
                name: "b".into(),
                ty: FieldType::Bool,
            },
        ],
    };
    assert_eq!(
        root.decode(&[1, 0]),
        Ok(Value::Record(vec![
            Value::Record(vec![Value::Bool(true)]),
            Value::Bool(false)
        ]))
    );
}

fn encode_schema() -> Schema {
    Schema {
        name: "enc".into(),
        version: 1,
        fields: vec![
            Field {
                name: "i".into(),
                ty: FieldType::Int { min: -2, max: 2 },
            },
            Field {
                name: "u".into(),
                ty: FieldType::UInt {
                    min: 0,
                    max: u64::MAX,
                },
            },
            Field {
                name: "f".into(),
                ty: FieldType::Float {
                    allow_non_finite: true,
                },
            },
            Field {
                name: "s".into(),
                ty: FieldType::Sequence {
                    item: Box::new(FieldType::Bool),
                    max_len: 4,
                },
            },
        ],
    }
}

#[test]
fn encode_mixed_native_values() {
    let s = encode_schema();
    let v = Value::Record(vec![
        Value::Int(-2),
        Value::UInt(u64::MAX),
        Value::Float((-0.0f64).to_bits()),
        Value::Sequence(vec![Value::Bool(true), Value::Bool(false)]),
    ]);
    let b = s.encode(&v, 1024).unwrap();
    assert_eq!(b.len(), 8 + 8 + 8 + 4 + 2);
    assert_eq!(s.decode(&b).unwrap(), v);
    assert_eq!(&b[16..24], &(-0.0f64).to_le_bytes());
}

#[test]
fn reject_shape_range_and_exact_budget() {
    let s = encode_schema();
    let v = Value::Record(vec![
        Value::Int(3),
        Value::UInt(0),
        Value::Float(0.0f64.to_bits()),
        Value::Sequence(vec![]),
    ]);
    assert!(s.encode(&v, 1024).is_err());
    let ok = Value::Record(vec![
        Value::Int(1),
        Value::UInt(0),
        Value::Float(0.0f64.to_bits()),
        Value::Sequence(vec![]),
    ]);
    let b = s.encode(&ok, 28).unwrap();
    assert!(s.encode(&ok, b.len() - 1).is_err());
    assert!(s.encode(&Value::Record(vec![]), 128).is_err());
}

#[test]
fn native_encoder_canonicalizes_nan_and_nested_records_preserve_the_tail() {
    let inner = encode_schema();
    let nested = Schema {
        name: "outer".into(),
        version: 1,
        fields: vec![
            Field {
                name: "child".into(),
                ty: FieldType::Record(Box::new(inner)),
            },
            Field {
                name: "tail".into(),
                ty: FieldType::Bool,
            },
        ],
    };
    let value = Value::Record(vec![
        Value::Record(vec![
            Value::Int(0),
            Value::UInt(u64::MAX),
            Value::Float(0x7ff0000000000001),
            Value::Sequence(vec![]),
        ]),
        Value::Bool(true),
    ]);
    let encoded = nested.encode(&value, 100).unwrap();
    assert_eq!(&encoded[16..24], &0x7ff8000000000000u64.to_le_bytes());
    assert_eq!(encoded.last(), Some(&1));
    assert!(nested.validate_bytes(&encoded).is_ok());
    assert_eq!(
        nested
            .encode(&nested.decode(&encoded).unwrap(), 100)
            .unwrap(),
        encoded
    );
}

#[test]
fn native_encoder_and_reader_share_exact_value_node_limit() {
    let schema = Schema {
        name: "many".into(),
        version: 1,
        fields: vec![Field {
            name: "values".into(),
            ty: FieldType::Sequence {
                item: Box::new(FieldType::Bool),
                max_len: 4096,
            },
        }],
    };
    let exact = Value::Record(vec![Value::Sequence((0..4094).map(|_| Value::Bool(true)).collect())]);
    assert!(
        schema
            .validate_bytes(&schema.encode(&exact, 5000).unwrap())
            .is_ok()
    );
    let over = Value::Record(vec![Value::Sequence((0..4095).map(|_| Value::Bool(true)).collect())]);
    assert!(schema.encode(&over, 5000).is_err());
}
