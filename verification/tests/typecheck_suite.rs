use nametag::config;
use nametag::expr::ExprU;
use nametag::schema::{Schema, SchemaError};
use nametag::typecheck::{typecheck, typecheck_, SchemaTypeCheckError, Type};

#[test]
fn test_typecheck() {
    let hetero_list = typecheck_(&ExprU::ListU(vec![
        ExprU::StringU("a".to_string()),
        ExprU::KeywordU {
            name: "boo".to_string(),
            id: "b".to_string(),
        },
    ]));
    match hetero_list {
        Err(SchemaTypeCheckError::HeterogeneousList(t)) if t.len() == 2 => (),
        _ => panic!("heterogeneous lists are not allowed."),
    }
}

#[test]
fn unknown_functions_report_their_argument_types() {
    let e = ExprU::FnU {
        name: "boop".to_string(),
        args: vec![ExprU::NatU(1), ExprU::StringU("x".to_string())],
    };
    assert_eq!(
        typecheck_(&e),
        Err(SchemaTypeCheckError::UnknownFunction {
            name: "boop".to_string(),
            arg_types: vec![Type::Nat, Type::String],
        })
    );
}

#[test]
fn category_requires_a_keyword_list() {
    let e = ExprU::FnU {
        name: "category".to_string(),
        args: vec![
            ExprU::StringU("Media".to_string()),
            ExprU::FnU {
                name: "exactly".to_string(),
                args: vec![ExprU::NatU(1)],
            },
            ExprU::ListU(vec![ExprU::StringU("art".to_string())]),
        ],
    };
    assert_eq!(
        typecheck_(&e),
        Err(SchemaTypeCheckError::TypeMismatch {
            expected: Type::List(Box::new(Type::Keyword)),
            got: Type::List(Box::new(Type::String)),
        })
    );
}

#[test]
fn top_level_must_reduce_to_a_schema() {
    let e = ExprU::FnU {
        name: "exactly".to_string(),
        args: vec![ExprU::NatU(1)],
    };
    assert_eq!(typecheck(e), Err(SchemaTypeCheckError::ExpectedTopLevelSchema));
}

#[test]
fn whole_tree_checks_to_a_configuration() {
    let e = ExprU::FnU {
        name: "schema".to_string(),
        args: vec![
            ExprU::StringU("-".to_string()),
            ExprU::StringU("_".to_string()),
            ExprU::ListU(vec![ExprU::FnU {
                name: "category".to_string(),
                args: vec![
                    ExprU::StringU("Media".to_string()),
                    ExprU::FnU {
                        name: "exactly".to_string(),
                        args: vec![ExprU::NatU(1)],
                    },
                    ExprU::ListU(vec![
                        ExprU::KeywordU {
                            name: "photo".to_string(),
                            id: "ph".to_string(),
                        },
                        ExprU::KeywordU {
                            name: "video".to_string(),
                            id: "v".to_string(),
                        },
                    ]),
                ],
            }]),
        ],
    };
    let expected = config::Schema {
        delim: "-".to_string(),
        categories: vec![config::Category {
            name: "Media".to_string(),
            rtype: config::Requirement::Exactly,
            rvalue: 1,
            values: vec!["ph".to_string(), "v".to_string()],
        }],
    };
    assert_eq!(typecheck(e), Ok(expected));
}

#[test]
fn at_least_and_at_most_make_requirements() {
    let mk = |name: &str| ExprU::FnU {
        name: name.to_string(),
        args: vec![ExprU::NatU(2)],
    };
    // neither reduces to a schema, but both are recognized constructors
    assert_eq!(
        typecheck(mk("at_least")),
        Err(SchemaTypeCheckError::ExpectedTopLevelSchema)
    );
    assert_eq!(
        typecheck(mk("at_most")),
        Err(SchemaTypeCheckError::ExpectedTopLevelSchema)
    );
}

#[test]
fn from_source_runs_the_whole_pipeline() {
    let src = "schema \"-\" \"_\"\n  [ category \"Media\" (exactly 1) [\"art\"/\"art\", \"photo\"/\"ph\"]\n  ]";
    let schema = Schema::from_source(src).unwrap();
    assert_eq!(schema.delim(), "-");
    assert_eq!(schema.categories().len(), 1);
    assert_eq!(schema.categories()[0].name(), "Media");
    assert_eq!(
        schema.categories()[0].values(),
        &vec!["art".to_string(), "ph".to_string()]
    );
}

#[test]
fn from_source_rejects_invalid_configurations() {
    // parses and typechecks, but the tag duplicates across categories
    let src = "schema \"-\" \"_\"\n  [ category \"A\" (exactly 1) [\"x\"/\"x\"]\n  , category \"B\" (exactly 1) [\"y\"/\"x\"]\n  ]";
    match Schema::from_source(src) {
        Err(SchemaError::Validation(nametag::error::Error::TagsMustBeUnique {
            category_name,
            duplicated_tag,
        })) => {
            assert_eq!(category_name, "B");
            assert_eq!(duplicated_tag, "x");
        }
        other => panic!("{other:?}"),
    }
}
