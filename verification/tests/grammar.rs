use nametag::expr::ExprU;
use nametag::parse::{expr, func, keyword, line_space0, list, parse, string_lit, SchemaParseError};

fn len_of(s: &str) -> usize {
    s.chars().count()
}

fn natu(n: u8) -> ExprU {
    ExprU::NatU(n)
}

fn foo(args: Vec<ExprU>) -> ExprU {
    ExprU::FnU {
        name: "foo".to_string(),
        args,
    }
}

#[test]
fn top_level() {
    let input = r#"schema "-" "_"
  [ category "Media" (exactly 1) ["art", "photo"/"ph", "video"/"v"]
  ]"#;

    let expected = ExprU::FnU {
        name: "schema".to_string(),
        args: vec![
            ExprU::StringU("-".to_string()),
            ExprU::StringU("_".to_string()),
            ExprU::ListU(vec![ExprU::FnU {
                name: "category".to_string(),
                args: vec![
                    ExprU::StringU("Media".to_string()),
                    ExprU::FnU {
                        name: "exactly".to_string(),
                        args: vec![ExprU::NatU(1)],
                    },
                    ExprU::ListU(vec![
                        ExprU::StringU("art".to_string()),
                        ExprU::KeywordU {
                            name: "photo".to_string(),
                            id: "ph".to_string(),
                        },
                        ExprU::KeywordU {
                            name: "video".to_string(),
                            id: "v".to_string(),
                        },
                    ]),
                ],
            }]),
        ],
    };

    assert_eq!(Some((len_of(input), expected)), func(input, 0));
}

#[test]
fn parse_parens() {
    assert_eq!(expr("(0)", 0), Some((3, natu(0))));
    assert_eq!(expr("((0))", 0), Some((5, natu(0))));
    assert_eq!(expr("([(0)])", 0), Some((7, ExprU::ListU(vec![natu(0)]))));
}

#[test]
fn parse_func() {
    assert_eq!(func("foo 0", 0), Some((5, foo(vec![natu(0)]))));
    assert_eq!(func("foo []", 0), Some((6, foo(vec![ExprU::ListU(vec![])]))));
    assert_eq!(func("foo\n  0", 0), Some((7, foo(vec![natu(0)]))));
    assert_eq!(func("foo\n\t0", 0), Some((6, foo(vec![natu(0)]))));
    assert_eq!(func("foo \n  0", 0), Some((8, foo(vec![natu(0)]))));
    let s = "foo \n  [ 0\n  , 1\n  ]";
    assert_eq!(
        func(s, 0),
        Some((len_of(s), foo(vec![ExprU::ListU(vec![natu(0), natu(1)])])))
    );
    let s = "foo 99\n  [ 0\n  , 1\n  ]";
    assert_eq!(
        func(s, 0),
        Some((
            len_of(s),
            foo(vec![natu(99), ExprU::ListU(vec![natu(0), natu(1)])])
        ))
    );
    let s = "foo\n  [  0\n  , 1\n  ]";
    assert_eq!(
        func(s, 0),
        Some((len_of(s), foo(vec![ExprU::ListU(vec![natu(0), natu(1)])])))
    );
    let s = "foo 99 99\n  [  []  ]";
    assert_eq!(
        func(s, 0),
        Some((
            len_of(s),
            foo(vec![
                natu(99),
                natu(99),
                ExprU::ListU(vec![ExprU::ListU(vec![])])
            ])
        ))
    );
    assert!(func(
        r#"category "Media" (exactly 1) ["art", "photo"/"ph", "video"/"v"]"#,
        0
    )
    .is_some());
    // trailing input that no argument can consume is left unconsumed
    let s = "boop []]";
    assert_eq!(
        func(s, 0),
        Some((
            len_of(s) - 1,
            ExprU::FnU {
                name: "boop".to_string(),
                args: vec![ExprU::ListU(vec![])]
            }
        ))
    );
}

#[test]
fn parse_list() {
    assert_eq!(list("[]", 0), Some((2, ExprU::ListU(vec![]))));
    assert_eq!(
        list("[[]]", 0),
        Some((4, ExprU::ListU(vec![ExprU::ListU(vec![])])))
    );
    assert_eq!(list("[0,1]", 0), Some((5, ExprU::ListU(vec![natu(0), natu(1)]))));
    assert_eq!(
        list("[0, 1]", 0),
        Some((6, ExprU::ListU(vec![natu(0), natu(1)])))
    );
    assert_eq!(list("[ 0 ]", 0), Some((5, ExprU::ListU(vec![natu(0)]))));
    assert_eq!(list("[ ]", 0), Some((3, ExprU::ListU(vec![]))));
    assert_eq!(list("[\n\t]", 0), Some((4, ExprU::ListU(vec![]))));
    assert_eq!(list("[ 0\n\t]", 0), Some((6, ExprU::ListU(vec![natu(0)]))));
    assert_eq!(
        list("[ 0\n, 1\n]", 0),
        Some((9, ExprU::ListU(vec![natu(0), natu(1)])))
    );
    assert_eq!(list("[]]", 0), Some((2, ExprU::ListU(vec![]))));
    assert_eq!(
        list("[boop []]", 0),
        Some((
            9,
            ExprU::ListU(vec![ExprU::FnU {
                name: "boop".to_string(),
                args: vec![ExprU::ListU(vec![])]
            }])
        ))
    );
}

#[test]
fn parse_keyword() {
    let s = r#""abc"/"a""#;
    assert_eq!(
        keyword(s, 0),
        Some((
            len_of(s),
            ExprU::KeywordU {
                name: "abc".to_string(),
                id: "a".to_string()
            }
        ))
    );
}

#[test]
fn keyword_tried_before_bare_string() {
    // a string followed by a slash and a string is one keyword pair, not a
    // string with leftover input
    let s = r#""abc"/"a""#;
    assert_eq!(
        expr(s, 0),
        Some((
            len_of(s),
            ExprU::KeywordU {
                name: "abc".to_string(),
                id: "a".to_string()
            }
        ))
    );
}

#[test]
fn parse_string() {
    assert_eq!(string_lit(r#""abc""#, 0), Some((5, "abc".to_string())));
}

#[test]
fn parse_line_space0() {
    assert_eq!(line_space0("", 0), 0);
    assert_eq!(line_space0(" x", 0), 1);
    assert_eq!(line_space0("\n   \t x", 0), 6);
}

#[test]
fn parse_rejects_leftover_input() {
    assert_eq!(
        parse("foo ]"),
        Err(SchemaParseError::UnexpectedInput("]".to_string()))
    );
    assert_eq!(
        parse("]"),
        Err(SchemaParseError::UnexpectedInput("]".to_string()))
    );
}

#[test]
fn parse_rejects_non_constructor_top_level() {
    assert_eq!(
        parse("0"),
        Err(SchemaParseError::MustStartWithSchemaConstructor)
    );
    assert_eq!(
        parse(r#""hello""#),
        Err(SchemaParseError::MustStartWithSchemaConstructor)
    );
}

#[test]
fn parse_rejects_naturals_above_one_byte() {
    assert!(expr("255", 0) == Some((3, natu(255))));
    assert!(expr("256", 0).is_none());
    assert_eq!(expr("007", 0), Some((3, natu(7))));
}
