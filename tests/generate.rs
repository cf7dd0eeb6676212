use cheatcodes::generate::{
    dst_functions_insert, dst_handler_insert, dst_impl_new_insert, dst_structs_insert, find_marker,
    sol_function, sol_handler, sol_impl_new, splice_at_marker,
};
use cheatcodes::parse::{parse, Field, FieldType, StructCtx};

fn ctx(label: &str, fields: &[&str]) -> StructCtx {
    StructCtx {
        start: 0,
        end: 0,
        label: label.to_string(),
        fields: fields.iter().map(|f| Field { name: f.to_string(), kind: FieldType::Numeric }).collect(),
    }
}

fn expected_handler(label: &str, field_binds: &str, placeholder: &str, db_binds: &str) -> String {
    format!(
        r#"
impl Cheatcode for {label} {{
    fn apply(&self, _state: &mut Cheatcodes) -> Result {{
        let Self {{ data }} = self;

        let {label} {{ {field_binds} }} = data;

        let query = format!("
        INSERT INTO {label}
        VALUES
        ({placeholder})
        ");

        sqlx::query(&query)
            {db_binds}
            .execute(&db.pool)
            .await
            .unwrap();

        Ok(Default::default())
    }}
}}"#
    )
}

#[test]
fn marker_position() {
    assert_eq!(find_marker("abc// Structs", "// Structs"), Some(3));
    assert_eq!(find_marker("ab", "abc"), None);
    assert_eq!(find_marker("xyxy", "yx"), Some(1));
    assert_eq!(find_marker("abc", ""), Some(0));
}

#[test]
fn pieces_stack_in_front_of_marker() {
    let dst = "head\n// M\ntail".to_string();
    let out = splice_at_marker(&dst, "// M", &vec!["1\n".to_string(), "2\n".to_string()]).unwrap();
    assert_eq!(out, "head\n2\n1\n// M\ntail");
    assert!(splice_at_marker(&dst, "// N", &vec!["1".to_string()]).is_none());
}

#[test]
fn function_and_registration_text() {
    assert_eq!(
        sol_function("Foo"),
        "#[cheatcode(group = Evm, safety = Safe)]\n            function save_Foo(Foo calldata data) external;"
    );
    assert_eq!(sol_impl_new("Foo"), "Vm::Foo::STRUCT.clone(),");
}

#[test]
fn handler_text() {
    let c = ctx("Swap", &["amount", "to"]);
    assert_eq!(
        sol_handler(&c.label, &c.fields),
        expected_handler("Swap", "amount, to", "$1, $2", ".bind(amount)\n.bind(to)\n")
    );
    let many: Vec<String> = (0..12).map(|i| format!("f{:02}", i)).collect();
    let refs: Vec<&str> = many.iter().map(|s| s.as_str()).collect();
    let c = ctx("Big", &refs);
    let placeholder = (1..=12).map(|n| format!("${n}")).collect::<Vec<_>>().join(", ");
    let binds: String = many.iter().map(|n| format!(".bind({})\n", n)).collect();
    assert_eq!(sol_handler(&c.label, &c.fields), expected_handler("Big", &many.join(", "), &placeholder, &binds));
}

#[test]
fn structs_copied_before_marker() {
    let mut src = "struct A {\n\tuint a;\n}\nstruct B {\n\taddress b;\n}".to_string();
    let mut ctxs = Vec::new();
    parse(&mut src, &mut ctxs).unwrap();
    let dst = "x\n// Structs\n".to_string();
    let out = dst_structs_insert(&dst, &src, &ctxs).unwrap();
    assert_eq!(out, "x\nstruct B {\n\taddress b;\n}\nstruct A {\n\tuint a;\n}\n// Structs\n");
}

#[test]
fn other_splices() {
    let ctxs = vec![ctx("A", &["x"])];
    assert_eq!(
        dst_functions_insert(&"// Functions".to_string(), &ctxs).unwrap(),
        format!("{}\n// Functions", sol_function("A"))
    );
    assert_eq!(dst_impl_new_insert(&"// Impl new".to_string(), &ctxs).unwrap(), "Vm::A::STRUCT.clone(),\n// Impl new");
    assert_eq!(
        dst_handler_insert(&"a// Handlers".to_string(), &ctxs).unwrap(),
        format!("a{}\n// Handlers", expected_handler("A", "x", "$1", ".bind(x)\n"))
    );
    assert!(dst_functions_insert(&"none".to_string(), &ctxs).is_none());
    assert!(dst_impl_new_insert(&"none".to_string(), &ctxs).is_none());
    assert!(dst_handler_insert(&"none".to_string(), &ctxs).is_none());
    assert!(dst_structs_insert(&"none".to_string(), &String::new(), &vec![]).is_none());
}
