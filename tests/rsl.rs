use reina::rsl::{parse_rsl, Field, Param, RslError};

#[test]
fn test_parse_sample_contract() {
    let sample = r#"
            contract MyContract {
                let counter: u64;
                fn increment(amount: u64) {
                    counter = counter + amount;
                }
                fn get_counter(): u64 {
                    return counter;
                }
            }
        "#;
    let ast = parse_rsl(sample).expect("Parsing failed");
    assert_eq!(ast.name, "MyContract");
    assert_eq!(ast.fields.len(), 1);
    assert_eq!(ast.functions.len(), 2);
    let inc_fn = &ast.functions[0];
    assert_eq!(inc_fn.name, "increment");
    assert_eq!(inc_fn.params.len(), 1);
    assert!(inc_fn.return_type.is_none());
    let get_fn = &ast.functions[1];
    assert_eq!(get_fn.name, "get_counter");
    assert_eq!(get_fn.params.len(), 0);
    assert_eq!(get_fn.return_type, Some("u64".to_string()));
}

#[test]
fn field_and_params_content() {
    let src = "contract C {\n let a : u8;;\n fn f(x: u64, y :bool): u8 { x }\n}";
    let ast = parse_rsl(src).unwrap();
    assert_eq!(ast.fields, vec![Field { name: "a".to_string(), field_type: "u8".to_string() }]);
    let f = &ast.functions[0];
    assert_eq!(
        f.params,
        vec![
            Param { name: "x".to_string(), param_type: "u64".to_string() },
            Param { name: "y".to_string(), param_type: "bool".to_string() },
        ]
    );
    assert_eq!(f.return_type, Some("u8".to_string()));
    assert_eq!(f.body, "x");
}

#[test]
fn parse_errors() {
    assert_eq!(parse_rsl("contrac X {}"), Err(RslError::Expected("contract keyword".to_string())));
    assert_eq!(parse_rsl("contract X"), Err(RslError::Expected("{".to_string())));
    assert_eq!(parse_rsl("contract X {"), Err(RslError::Expected("}".to_string())));
    assert_eq!(
        parse_rsl("contract X {\nlet a u8;\n}"),
        Err(RslError::ParseError("Field missing ':'".to_string()))
    );
    assert_eq!(
        parse_rsl("contract X {\nlet a: u8: u16;\n}"),
        Err(RslError::ParseError("Field missing ':'".to_string()))
    );
    assert_eq!(parse_rsl("contract X {\nfn f()\n}"), Err(RslError::Expected("{".to_string())));
    assert_eq!(
        parse_rsl("contract X {\nfn {\n}"),
        Err(RslError::ParseError("Malformed function header".to_string()))
    );
    assert_eq!(
        parse_rsl("contract X {\nfn f {}\n}"),
        Err(RslError::ParseError("Malformed function signature".to_string()))
    );
    assert_eq!(
        parse_rsl("contract X {\nfn f(a) {}\n}"),
        Err(RslError::ParseError("Malformed parameter".to_string()))
    );
}

#[test]
fn empty_contract_and_other_lines() {
    let ast = parse_rsl("  contract Empty {\n // note\n\r\n}  ").unwrap();
    assert_eq!(ast.name, "Empty");
    assert!(ast.fields.is_empty());
    assert!(ast.functions.is_empty());
}
