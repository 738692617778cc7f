use tgapi::tl::{Category, Definition, Flag, ParamParseError, Parameter, ParameterType, ParseError, Type};
use tgapi::tl_file::parse_tl_file;
use tgapi::tl_parse::{infer_id, parse_definition, parse_flag, parse_parameter, parse_type};

fn chars(s: &str) -> Vec<char> {
    s.chars().collect()
}

fn ty(name: &str) -> Type {
    Type {
        namespace: vec![],
        name: name.to_string(),
        bare: name.chars().next().unwrap().is_ascii_lowercase(),
        generic_ref: false,
        generic_arg: None,
    }
}

#[test]
fn infer_id_matches_known_constructor_ids() {
    assert_eq!(
        infer_id(&chars("rpc_answer_dropped msg_id:long seq_no:int bytes:int = RpcDropAnswer")),
        0xa43ad8b7
    );
    assert_eq!(infer_id(&chars("msgs_ack msg_ids:Vector<long> = MsgsAck")), 0x62d6b459);
    assert_eq!(infer_id(&chars("invokeAfterMsg {X:Type} msg_id:long query:!X = X")), 0xcb9f372d);
    assert_eq!(
        infer_id(&chars("inputMessagesFilterPhoneCalls flags:# missed:flags.0?true = MessagesFilter")),
        0x80c99768
    );
}

#[test]
fn infer_id_reads_bytes_as_string() {
    assert_eq!(
        infer_id(&chars("resPQ nonce:int128 server_nonce:int128 pq:bytes server_public_key_fingerprints:Vector<long> = ResPQ")),
        0x05162463
    );
}

#[test]
fn parses_simple_type() {
    let t = parse_type(&chars("InputPeer")).unwrap();
    assert_eq!(t, ty("InputPeer"));
    assert!(!t.bare);
    let t = parse_type(&chars("int")).unwrap();
    assert!(t.bare);
}

#[test]
fn parses_namespaced_generic_type() {
    let t = parse_type(&chars("Vector<storage.FileType>")).unwrap();
    assert_eq!(t.name, "Vector");
    assert!(t.namespace.is_empty());
    let arg = t.generic_arg.unwrap();
    assert_eq!(arg.namespace, vec!["storage".to_string()]);
    assert_eq!(arg.name, "FileType");
}

#[test]
fn parses_generic_reference() {
    let t = parse_type(&chars("!X")).unwrap();
    assert!(t.generic_ref);
    assert_eq!(t.name, "X");
}

#[test]
fn type_errors() {
    assert_eq!(parse_type(&chars("Vector<int")), Err(ParamParseError::InvalidGeneric));
    assert_eq!(parse_type(&chars("")), Err(ParamParseError::Empty));
    assert_eq!(parse_type(&chars("a..b")), Err(ParamParseError::Empty));
}

#[test]
fn parses_flag() {
    assert_eq!(parse_flag(&chars("flags.3")), Ok(Flag { name: "flags".to_string(), index: 3 }));
    assert_eq!(parse_flag(&chars("flags")), Err(ParamParseError::InvalidFlag));
    assert_eq!(parse_flag(&chars("flags.x")), Err(ParamParseError::InvalidFlag));
    assert_eq!(parse_flag(&chars("flags.4294967296")), Err(ParamParseError::InvalidFlag));
}

#[test]
fn parses_parameters() {
    assert_eq!(
        parse_parameter(&chars("flags:#")),
        Ok(Parameter { name: "flags".to_string(), ty: ParameterType::Flags })
    );
    assert_eq!(
        parse_parameter(&chars("id:long")),
        Ok(Parameter { name: "id".to_string(), ty: ParameterType::Normal { ty: ty("long"), flag: None } })
    );
    assert_eq!(
        parse_parameter(&chars("title:flags.1?string")),
        Ok(Parameter {
            name: "title".to_string(),
            ty: ParameterType::Normal {
                ty: ty("string"),
                flag: Some(Flag { name: "flags".to_string(), index: 1 })
            }
        })
    );
}

#[test]
fn parameter_errors() {
    assert_eq!(parse_parameter(&chars("{X:Type}")), Err(ParamParseError::TypeDef { name: "X".to_string() }));
    assert_eq!(parse_parameter(&chars("{X}")), Err(ParamParseError::MissingDef));
    assert_eq!(parse_parameter(&chars("#")), Err(ParamParseError::NotImplemented));
    assert_eq!(parse_parameter(&chars(":int")), Err(ParamParseError::Empty));
    assert_eq!(parse_parameter(&chars("a:flags?int")), Err(ParamParseError::InvalidFlag));
}

#[test]
fn parses_definition_with_id() {
    let d = parse_definition(&chars("inputPeerUser#dde8a54c user_id:long access_hash:long = InputPeer")).unwrap();
    assert_eq!(
        d,
        Definition {
            namespace: vec![],
            name: "inputPeerUser".to_string(),
            id: 0xdde8a54c,
            params: vec![
                Parameter { name: "user_id".to_string(), ty: ParameterType::Normal { ty: ty("long"), flag: None } },
                Parameter { name: "access_hash".to_string(), ty: ParameterType::Normal { ty: ty("long"), flag: None } },
            ],
            ty: ty("InputPeer"),
            category: Category::Types,
        }
    );
}

#[test]
fn parses_definition_with_namespace_and_no_params() {
    let d = parse_definition(&chars("storage.fileJpeg#7efe0e = storage.FileType")).unwrap();
    assert_eq!(d.namespace, vec!["storage".to_string()]);
    assert_eq!(d.name, "fileJpeg");
    assert_eq!(d.id, 0x7efe0e);
    assert!(d.params.is_empty());
    assert_eq!(d.ty.namespace, vec!["storage".to_string()]);
    assert_eq!(d.ty.name, "FileType");
}

#[test]
fn definition_without_id_gets_inferred_id() {
    let d = parse_definition(&chars("msgs_ack msg_ids:Vector<long> = MsgsAck")).unwrap();
    assert_eq!(d.id, 0x62d6b459);
}

#[test]
fn generic_definition() {
    let d = parse_definition(&chars("invokeWithLayer#da9b0d0d {X:Type} layer:int query:!X = X")).unwrap();
    assert_eq!(d.params.len(), 2);
    assert!(d.ty.generic_ref);
    match &d.params[1].ty {
        ParameterType::Normal { ty, flag } => {
            assert!(ty.generic_ref);
            assert_eq!(ty.name, "X");
            assert!(flag.is_none());
        }
        ParameterType::Flags => panic!("expected a normal parameter"),
    }
}

#[test]
fn definition_errors() {
    assert_eq!(parse_definition(&chars("   ")), Err(ParseError::Empty));
    assert_eq!(parse_definition(&chars("foo bar:int")), Err(ParseError::MissingType));
    assert_eq!(parse_definition(&chars("foo = ")), Err(ParseError::MissingType));
    assert_eq!(parse_definition(&chars(" = Foo")), Err(ParseError::MissingName));
    assert_eq!(parse_definition(&chars("foo#xyz = Foo")), Err(ParseError::InvalidId));
    assert_eq!(
        parse_definition(&chars("foo#1 query:!X = Foo")),
        Err(ParseError::InvalidParam(ParamParseError::MissingDef))
    );
    assert_eq!(
        parse_definition(&chars("foo#1 a:flags.0?int = Foo")),
        Err(ParseError::InvalidParam(ParamParseError::MissingDef))
    );
    assert_eq!(
        parse_definition(&chars("vector#1cb5c415 {t:Type} # [ t ] = Vector t")),
        Err(ParseError::InvalidParam(ParamParseError::NotImplemented))
    );
}

#[test]
fn file_sections_set_categories() {
    let file = "// comment line\n\
                boolFalse#bc799737 = Bool;\n\
                boolTrue#997275b5 = Bool; // trailing comment\n\
                ---functions---\n\
                help.getConfig#c4f9186b = Config;\n\
                ---types---\n\
                true#3fedd339 = True;\n";
    let defs = parse_tl_file(file);
    assert_eq!(defs.len(), 4);
    let d0 = defs[0].as_ref().unwrap();
    assert_eq!(d0.name, "boolFalse");
    assert_eq!(d0.category, Category::Types);
    let d1 = defs[1].as_ref().unwrap();
    assert_eq!(d1.id, 0x997275b5);
    let d2 = defs[2].as_ref().unwrap();
    assert_eq!(d2.namespace, vec!["help".to_string()]);
    assert_eq!(d2.name, "getConfig");
    assert_eq!(d2.category, Category::Functions);
    let d3 = defs[3].as_ref().unwrap();
    assert_eq!(d3.name, "true");
    assert_eq!(d3.category, Category::Types);
}

#[test]
fn file_unknown_separator_and_errors_are_reported() {
    let defs = parse_tl_file("---foo---\nbar#1 = Bar;\nbaz#zz = Baz;\nok#2 = Ok;");
    assert_eq!(defs.len(), 3);
    assert_eq!(defs[0], Err(ParseError::UnknownSeparator));
    assert_eq!(defs[1], Err(ParseError::InvalidId));
    assert_eq!(defs[2].as_ref().unwrap().id, 2);
}

#[test]
fn empty_file_has_no_definitions() {
    assert!(parse_tl_file("").is_empty());
    assert!(parse_tl_file("  \n// only a comment\n ; ;").is_empty());
}

#[test]
fn parse_tl_file_is_reexported() {
    let defs = tgapi::parse_tl_file("a#1 = A;");
    assert_eq!(defs.len(), 1);
    assert_eq!(defs[0].as_ref().unwrap().id, 1);
}

#[test]
fn single_definition_file_reads_as_that_definition() {
    let text = "  user#2 id:long = User \n";
    let defs = parse_tl_file(text);
    assert_eq!(defs.len(), 1);
    assert_eq!(defs[0], parse_definition(&chars("user#2 id:long = User")));
}

#[test]
fn definitions_before_any_separator_are_types() {
    let defs = parse_tl_file("a#1 = A;\nb#2 x:int = B;\nbad;\nc#3 = C;");
    assert_eq!(defs.len(), 4);
    assert_eq!(defs[2], Err(ParseError::MissingType));
    for d in defs.iter().filter_map(|d| d.as_ref().ok()) {
        assert_eq!(d.category, Category::Types);
    }
}

#[test]
fn declaration_may_follow_its_use() {
    let d = parse_definition(&chars("foo#1 query:!X {X:Type} = X")).unwrap();
    assert_eq!(d.params.len(), 1);
    assert!(d.ty.generic_ref);
}

#[test]
fn first_failing_word_decides_the_error() {
    assert_eq!(
        parse_definition(&chars("foo#1 a:!X b:flags.z?int = Foo")),
        Err(ParseError::InvalidParam(ParamParseError::InvalidFlag))
    );
}

#[test]
fn reading_joined_texts_reads_each_in_turn() {
    let a = "a#1 = A;\nb#2 x:int = B; \n";
    let b = "c#3 = C;\nbad";
    let mut expected = parse_tl_file(a);
    expected.extend(parse_tl_file(b));
    assert_eq!(parse_tl_file(&(a.to_string() + b)), expected);
    assert_eq!(parse_tl_file(&(a.to_string() + b)).len(), 4);
}

#[test]
fn comment_line_between_definitions_changes_nothing() {
    let a = "a#1 = A;\n";
    let b = "---functions---\nf#2 = F;";
    let plain = parse_tl_file(&(a.to_string() + b));
    let commented = parse_tl_file(&(a.to_string() + "// x; ---types--- y\n" + b));
    assert_eq!(plain, commented);
    assert_eq!(plain[1].as_ref().unwrap().category, Category::Functions);
}

#[test]
fn comment_line_after_earlier_comments_changes_nothing() {
    let a = "// header\na#1 = A; // trailing; note\n";
    let b = "b#2 = B;";
    assert_eq!(
        parse_tl_file(&(a.to_string() + "//---functions--- ;\n" + b)),
        parse_tl_file(&(a.to_string() + b))
    );
}

#[test]
fn results_are_at_most_one_more_than_semicolons() {
    let text = "a#1 = A; b#2 = B;; ;c#3 = C";
    let defs = parse_tl_file(text);
    assert!(defs.len() <= text.matches(';').count() + 1);
    assert_eq!(defs.len(), 3);
    let text = "x; y; z";
    assert_eq!(parse_tl_file(text).len(), 3);
}
