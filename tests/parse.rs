use cheatcodes::create::db_gen_query_create;
use cheatcodes::parse::{field_type_as_str, parse, FieldType, ParseError, StructCtx};

fn scan(text: &str) -> (Result<(), ParseError>, Vec<StructCtx>) {
    let mut src = text.to_string();
    let mut out = Vec::new();
    let r = parse(&mut src, &mut out);
    assert_eq!(src, text);
    (r, out)
}

fn fields_of(ctx: &StructCtx) -> Vec<(String, FieldType)> {
    ctx.fields.iter().map(|f| (f.name.clone(), f.kind)).collect()
}

#[test]
fn field_type_names() {
    assert_eq!(field_type_as_str(&FieldType::Varchar), "VARCHAR");
    assert_eq!(field_type_as_str(&FieldType::Numeric), "NUMERIC");
}

#[test]
fn parses_struct_after_pragma_and_comment() {
    let text = "pragma solidity ^0.8.0;\n// a comment\nstruct UniswapSend {\n\taddress to;\n\tuint256 amount;\n}\n";
    let (r, out) = scan(text);
    assert!(r.is_ok());
    assert_eq!(out.len(), 1);
    assert_eq!(out[0].start, 37);
    assert_eq!(out[0].end, 88);
    assert_eq!(out[0].label, "UniswapSend");
    assert_eq!(
        fields_of(&out[0]),
        vec![("amount".to_string(), FieldType::Numeric), ("to".to_string(), FieldType::Varchar)]
    );
    assert_eq!(db_gen_query_create(&out[0]), "CREATE TABLE UniswapSend (amount NUMERIC, to VARCHAR);");
}

#[test]
fn later_field_replaces_earlier_and_fields_sorted() {
    let text = "struct A {\n\tuint8 b;\n\taddress a;\n\tuint a;\n}\nstruct C {\n}";
    let (r, out) = scan(text);
    assert!(r.is_ok());
    assert_eq!(out.len(), 2);
    assert_eq!(out[0].label, "A");
    assert_eq!((out[0].start, out[0].end), (0, 42));
    assert_eq!(
        fields_of(&out[0]),
        vec![("a".to_string(), FieldType::Numeric), ("b".to_string(), FieldType::Numeric)]
    );
    assert_eq!(out[1].label, "C");
    assert_eq!((out[1].start, out[1].end), (44, 55));
    assert!(out[1].fields.is_empty());
    assert_eq!(db_gen_query_create(&out[1]), "CREATE TABLE C);");
}

#[test]
fn appends_to_existing_list() {
    let (_, mut out) = scan("struct X {\n\tuint x;\n}");
    let mut src = "struct Y {\n\taddress y;\n}".to_string();
    assert!(parse(&mut src, &mut out).is_ok());
    assert_eq!(out.len(), 2);
    assert_eq!(out[0].label, "X");
    assert_eq!(out[1].label, "Y");
}

#[test]
fn empty_source_and_plain_text_give_nothing() {
    let (r, out) = scan("");
    assert!(r.is_ok());
    assert!(out.is_empty());
    let (r, out) = scan("contract Foo {}\n");
    assert!(r.is_ok());
    assert!(out.is_empty());
}

#[test]
fn struct_cut_off_stops_quietly() {
    let (r, out) = scan("struct A {\n\tuint a;\n");
    assert!(r.is_ok());
    assert!(out.is_empty());
}

#[test]
fn unknown_type_is_refused() {
    let (r, out) = scan("struct A {\n\tint x;\n}");
    match r {
        Err(ParseError::UnknownType(t)) => assert_eq!(t, "int"),
        other => panic!("unexpected {:?}", other),
    }
    assert!(out.is_empty());
}

#[test]
fn field_without_type_is_refused() {
    let (r, _) = scan("struct A {\n\tx;\n}");
    match r {
        Err(ParseError::UnknownType(t)) => assert_eq!(t, "null"),
        other => panic!("unexpected {:?}", other),
    }
}

#[test]
fn missing_name_is_refused() {
    let (r, _) = scan("struct {\n}");
    assert!(matches!(r, Err(ParseError::MissingName)));
}

#[test]
fn nul_in_body_is_refused() {
    let (r, _) = scan("struct A {\n\0}");
    assert!(matches!(r, Err(ParseError::UnclosedBrackets)));
}

#[test]
fn unterminated_comment_is_refused() {
    let (r, _) = scan("// no newline");
    assert!(matches!(r, Err(ParseError::UnexpectedEnd)));
    let (r, _) = scan("/");
    assert!(matches!(r, Err(ParseError::UnexpectedEnd)));
    let (r, _) = scan("pragma solidity");
    assert!(matches!(r, Err(ParseError::UnexpectedEnd)));
}

#[test]
fn space_indented_field_is_refused() {
    let (r, _) = scan("struct A {\n    uint x;\n}");
    assert!(matches!(r, Err(ParseError::MalformedField)));
}

#[test]
fn fields_come_out_ascending() {
    let (r, out) = scan("struct S {\n\tuint zeta;\n\taddress alpha;\n\tuint64 mid;\n\tuint8 Beta;\n}");
    assert!(r.is_ok());
    let names: Vec<String> = out[0].fields.iter().map(|f| f.name.clone()).collect();
    assert_eq!(names, vec!["Beta", "alpha", "mid", "zeta"]);
    assert_eq!(
        db_gen_query_create(&out[0]),
        "CREATE TABLE S (Beta NUMERIC, alpha VARCHAR, mid NUMERIC, zeta NUMERIC);"
    );
}
