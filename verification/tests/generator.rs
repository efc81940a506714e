use zinc::bytecode::DataType;
use zinc::bytecode::IntegerType;
use zinc::bytecode::ScalarType;
use zinc::generator::Type;
use zinc::semantic::Enumeration;
use zinc::semantic::Function;
use zinc::semantic::Structure;
use zinc::semantic::Type as SemanticType;

#[test]
fn scalar_sizes() {
    assert_eq!(0, Type::unit().size());
    assert_eq!(1, Type::boolean().size());
    assert_eq!(1, Type::integer_unsigned(8).size());
    assert_eq!(1, Type::integer_signed(64).size());
    assert_eq!(1, Type::field().size());
}

#[test]
fn aggregate_sizes() {
    let array = Type::array(Type::tuple(vec![Type::field(), Type::boolean(), Type::unit()]), 5);
    assert_eq!(10, array.size());
    let structure = Type::structure(vec![
        ("a".to_string(), Type::array(Type::field(), 3)),
        ("b".to_string(), Type::integer(true, 32)),
    ]);
    assert_eq!(4, structure.size());
    assert_eq!(0, Type::tuple(Vec::new()).size());
    assert_eq!(0, Type::array(Type::array(Type::field(), 1000), 0).size());
}

#[test]
fn integer_chooses_by_sign() {
    assert_eq!(Type::IntegerSigned { bitlength: 16 }, Type::integer(true, 16));
    assert_eq!(Type::IntegerUnsigned { bitlength: 16 }, Type::integer(false, 16));
}

#[test]
fn semantic_scalars() {
    assert_eq!(Some(Type::Unit), Type::try_from_semantic(&SemanticType::Unit));
    assert_eq!(Some(Type::Boolean), Type::try_from_semantic(&SemanticType::Boolean));
    assert_eq!(
        Some(Type::IntegerUnsigned { bitlength: 8 }),
        Type::try_from_semantic(&SemanticType::IntegerUnsigned { bitlength: 8 })
    );
    assert_eq!(
        Some(Type::IntegerSigned { bitlength: 248 }),
        Type::try_from_semantic(&SemanticType::IntegerSigned { bitlength: 248 })
    );
    assert_eq!(Some(Type::Field), Type::try_from_semantic(&SemanticType::Field));
}

#[test]
fn semantic_types_without_run_time_type() {
    assert_eq!(None, Type::try_from_semantic(&SemanticType::String));
    assert_eq!(
        None,
        Type::try_from_semantic(&SemanticType::Range { bound: Box::new(SemanticType::Field) })
    );
    assert_eq!(
        None,
        Type::try_from_semantic(&SemanticType::RangeInclusive { bound: Box::new(SemanticType::Field) })
    );
    assert_eq!(
        None,
        Type::try_from_semantic(&SemanticType::Function(Function { identifier: "f".to_string() }))
    );
    assert_eq!(
        None,
        Type::try_from_semantic(&SemanticType::Array { element: Box::new(SemanticType::String), size: 3 })
    );
}

#[test]
fn enumeration_is_an_unsigned_integer() {
    let enumeration = SemanticType::Enumeration(Enumeration { identifier: "Color".to_string(), bitlength: 2 });
    assert_eq!(Some(Type::IntegerUnsigned { bitlength: 2 }), Type::try_from_semantic(&enumeration));
}

#[test]
fn tuple_keeps_members_with_run_time_types() {
    let tuple = SemanticType::Tuple {
        types: vec![SemanticType::String, SemanticType::Field, SemanticType::Boolean],
    };
    assert_eq!(
        Some(Type::Tuple { types: vec![Type::Field, Type::Boolean] }),
        Type::try_from_semantic(&tuple)
    );
    let empty = SemanticType::Tuple { types: vec![SemanticType::String] };
    assert_eq!(None, Type::try_from_semantic(&empty));
    assert_eq!(None, Type::try_from_semantic(&SemanticType::Tuple { types: Vec::new() }));
}

#[test]
fn structure_keeps_fields_with_run_time_types() {
    let structure = SemanticType::Structure(Structure {
        identifier: "Point".to_string(),
        fields: vec![
            ("x".to_string(), SemanticType::Field),
            ("name".to_string(), SemanticType::String),
            (
                "y".to_string(),
                SemanticType::Array { element: Box::new(SemanticType::IntegerSigned { bitlength: 8 }), size: 2 },
            ),
        ],
    });
    assert_eq!(
        Some(Type::Structure {
            fields: vec![
                ("x".to_string(), Type::Field),
                (
                    "y".to_string(),
                    Type::Array { element: Box::new(Type::IntegerSigned { bitlength: 8 }), size: 2 },
                ),
            ],
        }),
        Type::try_from_semantic(&structure)
    );
    let empty = SemanticType::Structure(Structure {
        identifier: "Empty".to_string(),
        fields: vec![("s".to_string(), SemanticType::String)],
    });
    assert_eq!(None, Type::try_from_semantic(&empty));
}

#[test]
fn data_types() {
    assert_eq!(DataType::Unit, Type::unit().into_data_type());
    assert_eq!(
        DataType::Scalar(ScalarType::Integer(IntegerType { is_signed: false, bitlength: 8 })),
        Type::integer_unsigned(8).into_data_type()
    );
    assert_eq!(
        DataType::Scalar(ScalarType::Integer(IntegerType { is_signed: true, bitlength: 8 })),
        Type::integer_signed(8).into_data_type()
    );
    assert_eq!(
        DataType::Array(Box::new(DataType::Scalar(ScalarType::Field)), 4),
        Type::array(Type::field(), 4).into_data_type()
    );
    assert_eq!(
        DataType::Tuple(vec![DataType::Scalar(ScalarType::Boolean), DataType::Unit]),
        Type::tuple(vec![Type::boolean(), Type::unit()]).into_data_type()
    );
    assert_eq!(
        DataType::Struct(vec![
            ("a".to_string(), DataType::Scalar(ScalarType::Field)),
            ("b".to_string(), DataType::Tuple(Vec::new())),
        ]),
        Type::structure(vec![("a".to_string(), Type::field()), ("b".to_string(), Type::tuple(Vec::new()))])
            .into_data_type()
    );
}

#[test]
fn scalar_types() {
    assert_eq!(Some(ScalarType::Boolean), Type::boolean().into_scalar_type());
    assert_eq!(Some(ScalarType::Field), Type::field().into_scalar_type());
    assert_eq!(
        Some(ScalarType::Integer(IntegerType { is_signed: true, bitlength: 64 })),
        Type::integer_signed(64).into_scalar_type()
    );
    assert_eq!(None, Type::unit().into_scalar_type());
    assert_eq!(None, Type::array(Type::field(), 1).into_scalar_type());
    assert_eq!(None, Type::tuple(vec![Type::field()]).into_scalar_type());
}

#[test]
fn scalar_type_agrees_with_data_type() {
    for t in [Type::boolean(), Type::field(), Type::integer(false, 1), Type::integer(true, 254)] {
        let data = match t {
            Type::Boolean => Type::Boolean.into_data_type(),
            Type::Field => Type::Field.into_data_type(),
            Type::IntegerUnsigned { bitlength } => Type::IntegerUnsigned { bitlength }.into_data_type(),
            Type::IntegerSigned { bitlength } => Type::IntegerSigned { bitlength }.into_data_type(),
            _ => unreachable!(),
        };
        let scalar = t.into_scalar_type().expect("a scalar");
        assert_eq!(DataType::Scalar(scalar), data);
    }
}
