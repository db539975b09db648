use codespawn::fmt_code::{parse_width, resolve_options, ConfigError, FormattedCode, Lang};
use codespawn::ir::{AttrKey, CodeConfig, CodeItem, Kind};
use codespawn::rust_gen::{convert, flag_constant, RenderError, AUTOGEN_FOOTER, AUTOGEN_HEADER};

fn node(kind: Kind, attrs: &[(AttrKey, &str)], children: Vec<CodeItem>) -> CodeItem {
    CodeItem {
        kind,
        attributes: attrs.iter().map(|(k, v)| (*k, v.to_string())).collect(),
        children,
    }
}

fn wrap(body: &str) -> String {
    format!("// {}{}// {}", AUTOGEN_HEADER, body, AUTOGEN_FOOTER)
}

fn pairs(p: &[(&str, &str)]) -> Vec<(String, String)> {
    p.iter().map(|(a, b)| (a.to_string(), b.to_string())).collect()
}

fn var(name: &str, ty: &str) -> CodeItem {
    node(Kind::Variable, &[(AttrKey::Name, name), (AttrKey::Type, ty)], vec![])
}

#[test]
fn enum_entry_with_cast() {
    let e = node(
        Kind::Enum,
        &[(AttrKey::Name, "E")],
        vec![node(
            Kind::Variable,
            &[(AttrKey::Name, "X"), (AttrKey::Value, "3"), (AttrKey::Type, "u8")],
            vec![],
        )],
    );
    let out = convert(&vec![e], 4, ' ').unwrap();
    assert_eq!(out, wrap("\npub enum E {\n    X = 3 as u8,\n}\n\n"));
    assert!(out.contains("X = 3 as u8,"));
}

#[test]
fn enum_entries_and_decorations() {
    let e = node(
        Kind::Enum,
        &[(AttrKey::AttributeText, "#[derive(Debug)]")],
        vec![
            node(Kind::Variable, &[(AttrKey::Name, "A")], vec![]),
            node(Kind::Attribute, &[(AttrKey::AttributeText, "#[repr(u8)]")], vec![]),
            node(Kind::Variable, &[(AttrKey::Name, "B"), (AttrKey::Value, "2")], vec![]),
        ],
    );
    let out = convert(&vec![e], 2, '\t').unwrap();
    assert_eq!(
        out,
        wrap("\n#[repr(u8)]\n#[derive(Debug)]\npub enum {\n\t\tA,\n\t\tB = 2,\n}\n\n")
    );
}

#[test]
fn enum_with_function_child_is_invalid() {
    let e = node(
        Kind::Enum,
        &[(AttrKey::Name, "E")],
        vec![node(Kind::Function, &[(AttrKey::Name, "f")], vec![])],
    );
    assert_eq!(
        convert(&vec![e], 4, ' '),
        Err(RenderError::InvalidIR { parent: Kind::Enum, child: Kind::Function })
    );
}

#[test]
fn bitflags_names_upper_case() {
    let b = node(
        Kind::BitFlagSet,
        &[(AttrKey::Name, "Flags"), (AttrKey::Type, "u32")],
        vec![node(
            Kind::Variable,
            &[(AttrKey::Name, "flagA"), (AttrKey::Value, "0x1")],
            vec![],
        )],
    );
    let out = convert(&vec![b], 4, ' ').unwrap();
    assert_eq!(
        out,
        wrap("bitflags! {\n    flags Flags: u32 {\n        const FLAGA = 0x1,\n    }\n}\n\n")
    );
}

#[test]
fn bitflags_with_struct_child_is_invalid() {
    let b = node(Kind::BitFlagSet, &[], vec![node(Kind::Struct, &[], vec![])]);
    assert_eq!(
        convert(&vec![b], 4, ' '),
        Err(RenderError::InvalidIR { parent: Kind::BitFlagSet, child: Kind::Struct })
    );
}

#[test]
fn untyped_variable_is_empty() {
    let v = node(Kind::Variable, &[(AttrKey::Name, "x"), (AttrKey::Type, "")], vec![]);
    assert_eq!(convert(&vec![v], 4, ' ').unwrap(), wrap(""));
    let s = node(
        Kind::Struct,
        &[(AttrKey::Name, "S")],
        vec![node(Kind::Variable, &[(AttrKey::Name, "x")], vec![])],
    );
    assert_eq!(convert(&vec![s], 4, ' ').unwrap(), wrap("\npub struct S {\n}\n\n"));
}

#[test]
fn standalone_variable_default_qualifier() {
    let v = node(
        Kind::Variable,
        &[(AttrKey::Name, "X"), (AttrKey::Type, "i32"), (AttrKey::Value, "5")],
        vec![],
    );
    assert_eq!(convert(&vec![v], 4, ' ').unwrap(), wrap("pub const X: i32 = 5;\n"));
}

#[test]
fn generic_qualifier_variable() {
    let v = node(
        Kind::Variable,
        &[(AttrKey::Name, "x"), (AttrKey::Type, "u8"), (AttrKey::Qualifier, "Vec<")],
        vec![],
    );
    let out = convert(&vec![v], 4, ' ').unwrap();
    assert_eq!(out, wrap("pub x: Vec<u8>;\n"));
}

#[test]
fn struct_members_use_comma() {
    let s = node(
        Kind::Struct,
        &[(AttrKey::Name, "S")],
        vec![
            node(
                Kind::Variable,
                &[(AttrKey::Name, "a"), (AttrKey::Type, "u8"), (AttrKey::Qualifier, "static")],
                vec![],
            ),
            node(
                Kind::Function,
                &[(AttrKey::Name, "f"), (AttrKey::Type, "bool")],
                vec![var("x", "i32")],
            ),
        ],
    );
    let out = convert(&vec![s], 4, ' ').unwrap();
    assert_eq!(
        out,
        wrap("\npub struct S {\n    a: u8,\n    f: fn(x: i32) -> bool,\n}\n\n")
    );
    assert!(!out.contains(';'));
}

#[test]
fn function_pointer_default_qualifier_and_nested() {
    let inner = node(Kind::FunctionPointer, &[(AttrKey::Type, "u8")], vec![var("", "i8")]);
    let f = node(
        Kind::FunctionPointer,
        &[(AttrKey::Name, "cb")],
        vec![var("a", "u16"), inner],
    );
    let out = convert(&vec![f], 4, ' ').unwrap();
    let k = ["ext", "ern"].concat();
    assert_eq!(
        out,
        wrap(&format!("pub cb: {} fn(a: u16, : {} fn(i8) -> u8);\n", k, k))
    );
}

#[test]
fn generic_qualifier_function() {
    let f = node(
        Kind::Function,
        &[(AttrKey::Name, "f"), (AttrKey::Qualifier, "Option<"), (AttrKey::Type, "u8")],
        vec![],
    );
    let out = convert(&vec![f], 4, ' ').unwrap();
    assert_eq!(out, wrap("pub f: Option<fn() -> u8>;\n"));
    assert_eq!(out.matches('>').count(), 2);
}

#[test]
fn single_param_has_no_separator() {
    let f = node(Kind::Function, &[(AttrKey::Name, "f")], vec![var("a", "i32")]);
    assert_eq!(convert(&vec![f], 4, ' ').unwrap(), wrap("pub f: fn(a: i32);\n"));
}

#[test]
fn skipped_first_param_has_no_separator() {
    let f = node(
        Kind::Function,
        &[(AttrKey::Name, "f")],
        vec![var("a", ""), var("b", "u8")],
    );
    assert_eq!(convert(&vec![f], 4, ' ').unwrap(), wrap("pub f: fn(b: u8);\n"));
}

#[test]
fn function_child_of_function_is_invalid() {
    let f = node(
        Kind::Function,
        &[(AttrKey::Name, "f")],
        vec![node(Kind::Function, &[(AttrKey::Name, "g")], vec![])],
    );
    assert_eq!(
        convert(&vec![f], 4, ' '),
        Err(RenderError::InvalidIR { parent: Kind::Function, child: Kind::Function })
    );
}

#[test]
fn nested_struct_indents_one_level_deeper() {
    let inner = node(Kind::Struct, &[(AttrKey::Name, "In")], vec![var("x", "u8")]);
    let s = node(Kind::Struct, &[(AttrKey::Name, "Out")], vec![inner]);
    let out = convert(&vec![s], 1, '-').unwrap();
    assert_eq!(
        out,
        wrap("\npub struct Out {\n\n-pub struct In {\n--x: u8,\n-}\n\n}\n\n")
    );
}

#[test]
fn top_level_attribute_is_empty() {
    let a = node(Kind::Attribute, &[(AttrKey::AttributeText, "#[x]")], vec![]);
    assert_eq!(convert(&vec![a], 4, ' ').unwrap(), wrap(""));
}

#[test]
fn render_is_deterministic() {
    let items = vec![var("x", "Int32"), node(Kind::Enum, &[], vec![var("A", "")])];
    let cfg = CodeConfig {
        type_dict: pairs(&[("Int32", "i32")]),
        name_dict: vec![],
        global_cfg: vec![],
    };
    let a = FormattedCode::new(Lang::Rust, &Some(&cfg), &items).unwrap();
    let b = FormattedCode::new(Lang::Rust, &Some(&cfg), &items).unwrap();
    assert_eq!(a.to_string(), b.to_string());
}

#[test]
fn type_dictionary_replaces_everywhere() {
    let items = vec![node(
        Kind::Struct,
        &[(AttrKey::Name, "S")],
        vec![
            var("a", "Int32"),
            node(Kind::Function, &[(AttrKey::Name, "f"), (AttrKey::Type, "Int32")], vec![var("p", "Int32")]),
            var("b", "Int32x"),
        ],
    )];
    let cfg = CodeConfig {
        type_dict: pairs(&[("Int32", "i32")]),
        name_dict: vec![],
        global_cfg: vec![],
    };
    let job = FormattedCode::new(Lang::Rust, &Some(&cfg), &items).unwrap();
    let s = &job.elements[0];
    assert_eq!(s.children[0].attributes[1].1, "i32");
    assert_eq!(s.children[1].attributes[1].1, "i32");
    assert_eq!(s.children[1].children[0].attributes[1].1, "i32");
    assert_eq!(s.children[2].attributes[1].1, "Int32x");
    assert_eq!(items[0].children[0].attributes[1].1, "Int32");
}

#[test]
fn name_dictionary_cascades_after_types() {
    let items = vec![var("x", "A")];
    let cfg = CodeConfig {
        type_dict: pairs(&[("A", "B")]),
        name_dict: pairs(&[("B", "C")]),
        global_cfg: vec![],
    };
    let job = FormattedCode::new(Lang::Rust, &Some(&cfg), &items).unwrap();
    assert_eq!(job.elements[0].attributes[1].1, "C");
}

#[test]
fn options_and_defaults() {
    let items = vec![node(Kind::Struct, &[(AttrKey::Name, "S")], vec![var("x", "u8")])];
    let job = FormattedCode::new(Lang::Rust, &None, &items).unwrap();
    assert_eq!(job.num_tabs, 4);
    assert_eq!(job.tab_char, ' ');
    let cfg = CodeConfig {
        type_dict: vec![],
        name_dict: vec![],
        global_cfg: pairs(&[("num_tabs", "2"), ("tab_char", "*x"), ("other", "??")]),
    };
    let job = FormattedCode::new(Lang::Rust, &Some(&cfg), &items).unwrap();
    assert_eq!(job.num_tabs, 2);
    assert_eq!(job.tab_char, '*');
    assert_eq!(job.to_string().unwrap(), wrap("\npub struct S {\n**x: u8,\n}\n\n"));
}

#[test]
fn invalid_options_are_rejected() {
    let bad_width = CodeConfig {
        type_dict: vec![],
        name_dict: vec![],
        global_cfg: pairs(&[("num_tabs", "300")]),
    };
    assert_eq!(
        FormattedCode::new(Lang::Rust, &Some(&bad_width), &vec![]).err(),
        Some(ConfigError::InvalidIndentWidth)
    );
    let empty_char = CodeConfig {
        type_dict: vec![],
        name_dict: vec![],
        global_cfg: pairs(&[("tab_char", "")]),
    };
    assert_eq!(
        FormattedCode::new(Lang::Rust, &Some(&empty_char), &vec![]).err(),
        Some(ConfigError::EmptyIndentChar)
    );
    assert_eq!(resolve_options(&pairs(&[("num_tabs", "x")])), Err(ConfigError::InvalidIndentWidth));
}

#[test]
fn width_parsing() {
    assert_eq!(parse_width("0"), Some(0));
    assert_eq!(parse_width("+7"), Some(7));
    assert_eq!(parse_width("255"), Some(255));
    assert_eq!(parse_width("0010"), Some(10));
    assert_eq!(parse_width("256"), None);
    assert_eq!(parse_width(""), None);
    assert_eq!(parse_width("+"), None);
    assert_eq!(parse_width("-1"), None);
    assert_eq!(parse_width("4 "), None);
    for s in ["0", "+7", "255", "256", "", "+", "-1", "4 ", "99999"] {
        assert_eq!(parse_width(s), s.parse::<u8>().ok());
    }
}

#[test]
fn cpp_has_no_renderer() {
    let job = FormattedCode::new(Lang::Cpp, &None, &vec![var("x", "u8")]).unwrap();
    assert_eq!(job.to_string(), Err(RenderError::NoBackend));
    assert_eq!(Lang::Cpp.label(), "C/C++");
    assert_eq!(Lang::Rust.label(), "Rust");
}

#[test]
fn flag_constant_line() {
    assert_eq!(flag_constant(&"    ".to_string(), "FLAGA", "1", ""), "    const FLAGA = 1,\n");
    assert_eq!(flag_constant(&"  ".to_string(), "B", "2", "u8"), "  const B = 2 as u8,\n");
    assert_eq!(flag_constant(&"  ".to_string(), "C", "", "u8"), "  const C,\n");
}

#[test]
fn type_then_name_substitution_on_names() {
    let items = vec![var("count", "Int32")];
    let cfg = CodeConfig {
        type_dict: pairs(&[("Int32", "i32")]),
        name_dict: pairs(&[("count", "n")]),
        global_cfg: vec![],
    };
    let job = FormattedCode::new(Lang::Rust, &Some(&cfg), &items).unwrap();
    assert_eq!(job.to_string().unwrap(), wrap("pub const n: i32;\n"));
}

#[test]
fn bitflags_entry_without_value() {
    let b = node(
        Kind::BitFlagSet,
        &[(AttrKey::Name, "F")],
        vec![
            node(
                Kind::Variable,
                &[(AttrKey::Name, "b"), (AttrKey::Value, "2"), (AttrKey::Type, "u8")],
                vec![],
            ),
            node(Kind::Variable, &[(AttrKey::Name, "c")], vec![]),
        ],
    );
    let out = convert(&vec![b], 4, ' ').unwrap();
    assert_eq!(
        out,
        wrap("bitflags! {\n    flags F: {\n        const B = 2 as u8,\n        const C,\n    }\n}\n\n")
    );
}

#[test]
fn nested_bitflags_entries_one_level_deeper() {
    let b = node(
        Kind::BitFlagSet,
        &[(AttrKey::Name, "F")],
        vec![node(Kind::Variable, &[(AttrKey::Name, "a"), (AttrKey::Value, "1")], vec![])],
    );
    let s = node(Kind::Struct, &[(AttrKey::Name, "S")], vec![b]);
    let out = convert(&vec![s], 1, '-').unwrap();
    assert_eq!(
        out,
        wrap("\npub struct S {\n-bitflags! {\n--flags F: {\n---const A = 1,\n--}\n-}\n\n}\n\n")
    );
}

#[test]
fn function_under_variable_parameter_is_invalid() {
    let param = node(
        Kind::Variable,
        &[(AttrKey::Name, "p"), (AttrKey::Type, "u8")],
        vec![node(Kind::Function, &[(AttrKey::Name, "g")], vec![])],
    );
    let f = node(Kind::Function, &[(AttrKey::Name, "f")], vec![param]);
    assert_eq!(
        convert(&vec![f], 4, ' '),
        Err(RenderError::InvalidIR { parent: Kind::Variable, child: Kind::Function })
    );
}

#[test]
fn function_deep_under_variable_parameter_is_invalid() {
    let holder = node(
        Kind::Struct,
        &[],
        vec![node(Kind::Function, &[(AttrKey::Name, "g")], vec![])],
    );
    let param = node(Kind::Variable, &[(AttrKey::Name, "p"), (AttrKey::Type, "u8")], vec![holder]);
    let fp = node(Kind::FunctionPointer, &[(AttrKey::Name, "f")], vec![param]);
    assert_eq!(
        convert(&vec![fp], 4, ' '),
        Err(RenderError::InvalidIR { parent: Kind::Struct, child: Kind::Function })
    );
}

#[test]
fn non_function_under_variable_parameter_is_ignored() {
    let param = node(
        Kind::Variable,
        &[(AttrKey::Name, "p"), (AttrKey::Type, "u8")],
        vec![var("q", "i8")],
    );
    let f = node(Kind::Function, &[(AttrKey::Name, "f")], vec![param]);
    assert_eq!(convert(&vec![f], 4, ' ').unwrap(), wrap("pub f: fn(p: u8);\n"));
}
