use bluefox::{BluefoxData, BluefoxDataType, BluefoxError, CBluefoxDataTypes};
use mlua::Lua;

#[test]
fn classification_order() {
    // a numeric-looking bare word is never mistaken for a string
    let d = BluefoxData::try_from("a: 4\nb: 6.4\nc: true\nd: false\ne: this is the, first test string").unwrap();
    assert_eq!(d.get("a").unwrap(), &BluefoxDataType::INT(4));
    assert_eq!(d.get("b").unwrap(), &BluefoxDataType::FLOAT("6.4".to_owned()));
    assert_eq!(d.get("c").unwrap(), &BluefoxDataType::BOOL(true));
    assert_eq!(d.get("d").unwrap(), &BluefoxDataType::BOOL(false));
    assert_eq!(
        d.get("e").unwrap(),
        &BluefoxDataType::STRING("this is the, first test string".to_owned())
    );
}

#[test]
fn parse_value_directly() {
    assert_eq!(BluefoxDataType::parse("null").unwrap(), BluefoxDataType::NULL);
    assert_eq!(BluefoxDataType::parse("-12").unwrap(), BluefoxDataType::INT(-12));
    assert_eq!(
        BluefoxDataType::parse("9223372036854775807").unwrap(),
        BluefoxDataType::INT(i64::MAX)
    );
    assert_eq!(
        BluefoxDataType::parse("-9223372036854775808").unwrap(),
        BluefoxDataType::INT(i64::MIN)
    );
    // one past the 64-bit range reads as a float, as the order prescribes
    assert_eq!(
        BluefoxDataType::parse("9223372036854775808").unwrap(),
        BluefoxDataType::FLOAT("9223372036854775808".to_owned())
    );
    assert_eq!(
        BluefoxDataType::parse("\"quoted\"").unwrap(),
        BluefoxDataType::STRING("quoted".to_owned())
    );
    assert_eq!(
        BluefoxDataType::parse("`return 1`").unwrap(),
        BluefoxDataType::FUNCTION("return 1".to_owned(), None)
    );
}

#[test]
fn escaped_closing_quote() {
    // an escaped closing quote stays inside one fragment
    let d = BluefoxData::try_from("k: \"say \\\" hi\"").unwrap();
    assert_eq!(
        d.get("k").unwrap(),
        &BluefoxDataType::STRING("say \\\" hi".to_owned())
    );
}

#[test]
fn escaped_closing_backtick() {
    let d = BluefoxData::try_from("f: `return \\` .. 1`").unwrap();
    assert_eq!(
        d.get("f").unwrap(),
        &BluefoxDataType::FUNCTION("return \\` .. 1".to_owned(), None)
    );
}

#[test]
fn array_order_preserved() {
    let d = BluefoxData::try_from("xs: [ 5\n6\n7 ]").unwrap();
    if let BluefoxDataType::ARRAY(xs) = d.get("xs").unwrap() {
        assert_eq!(xs[0], BluefoxDataType::INT(5));
        assert_eq!(xs[1], BluefoxDataType::INT(6));
        assert_eq!(xs[2], BluefoxDataType::INT(7));
        assert_eq!(xs.len(), 3);
    } else {
        panic!("xs did not parse as an array");
    }
}

#[test]
fn nested_object_exact_keys() {
    let d = BluefoxData::try_from("o: { more_bool: true\nmore_int: 9\nmore_float: 1.67 }").unwrap();
    if let BluefoxDataType::DATA(o) = d.get("o").unwrap() {
        assert_eq!(o.get("more_bool").unwrap(), &BluefoxDataType::BOOL(true));
        assert_eq!(o.get("more_int").unwrap(), &BluefoxDataType::INT(9));
        assert_eq!(
            o.get("more_float").unwrap(),
            &BluefoxDataType::FLOAT("1.67".to_owned())
        );
        assert_eq!(o.data.len(), 3);
    } else {
        panic!("o did not parse as an object");
    }
}

#[test]
fn missing_colon_is_syntax_error() {
    let r = BluefoxData::try_from("key value");
    match r {
        Err(BluefoxError::SyntaxError(m)) => {
            assert_eq!(m, "Expected \":\" after key value");
        }
        other => panic!("expected a syntax error, got {:?}", other),
    }
}

#[test]
fn duplicate_key_last_write_wins() {
    let d = BluefoxData::try_from("k: 1\nk: 2").unwrap();
    assert_eq!(d.get("k").unwrap(), &BluefoxDataType::INT(2));
    assert_eq!(d.data.len(), 1);
}

#[test]
fn serializer_exact_text() {
    let mut d = BluefoxData::new();
    d.insert("a".to_owned(), BluefoxDataType::INT(-42));
    d.insert("b".to_owned(), BluefoxDataType::BOOL(true));
    d.insert("c".to_owned(), BluefoxDataType::STRING("hi".to_owned()));
    let text = BluefoxData::to_string(d);
    assert_eq!(text, "a: -42\nb: true\nc: \"hi\"\n");
}

#[test]
fn serializer_array_and_null() {
    let mut d = BluefoxData::new();
    d.insert(
        "xs".to_owned(),
        BluefoxDataType::ARRAY(vec![BluefoxDataType::INT(5), BluefoxDataType::NULL]),
    );
    let text = BluefoxData::to_string(d);
    assert_eq!(text, "xs: [\n5\nnull\n]\n");
}

#[test]
fn round_trip_rebuilds_equal_data() {
    let text = "a: 1\nb: one two\nc: [ 3\n4 ]\nd: { e: true }\nf: 2.5";
    let d1 = BluefoxData::try_from(text).unwrap();
    let d2 = BluefoxData::try_from(BluefoxData::to_string(
        BluefoxData::try_from(text).unwrap(),
    ).as_str())
    .unwrap();
    assert_eq!(d1, d2);
}

#[test]
fn path_error_names_segment() {
    let lua = Lua::new();
    let mut d = BluefoxData::try_from("x: 1").unwrap();
    match d.execute(&lua, "no_such.path".to_owned(), vec![]) {
        Err(BluefoxError::PathError(seg)) => assert_eq!(seg, "no_such"),
        other => panic!("expected a path error, got {:?}", other),
    }
}

#[test]
fn not_callable_error() {
    let lua = Lua::new();
    let mut d = BluefoxData::try_from("x: 1").unwrap();
    match d.execute(&lua, "x".to_owned(), vec![]) {
        Err(BluefoxError::NotCallableError(seg)) => assert_eq!(seg, "x"),
        other => panic!("expected a not-callable error, got {:?}", other),
    }
}

#[test]
fn compile_error_surfaces() {
    let lua = Lua::new();
    let mut f = BluefoxDataType::FUNCTION("this is not lua at all (".to_owned(), None);
    match f.compile(&lua) {
        Err(BluefoxError::CompileError(_)) => {}
        other => panic!("expected a compile error, got {:?}", other),
    }
}

#[test]
fn compile_caches_and_reuses() {
    let lua = Lua::new();
    let mut f = BluefoxDataType::FUNCTION("return 5".to_owned(), None);
    f.compile(&lua).unwrap();
    let cached = match &f {
        BluefoxDataType::FUNCTION(_, Some(c)) => c.clone(),
        _ => panic!("compile did not cache the callable"),
    };
    // compiling again keeps the same cached callable
    f.compile(&lua).unwrap();
    match &f {
        BluefoxDataType::FUNCTION(_, Some(c)) => assert_eq!(c, &cached),
        _ => panic!("the cached callable was lost"),
    }
}

#[test]
fn compile_non_function_fails() {
    let lua = Lua::new();
    let mut v = BluefoxDataType::INT(3);
    match v.compile(&lua) {
        Err(BluefoxError::NotCallableError(_)) => {}
        other => panic!("expected a not-callable error, got {:?}", other),
    }
}

#[test]
fn runtime_error_surfaces() {
    let lua = Lua::new();
    let mut d = BluefoxData::try_from("f: `error(\"boom\")`").unwrap();
    match d.execute(&lua, "f".to_owned(), vec![]) {
        Err(BluefoxError::RuntimeError(m)) => assert!(m.contains("boom")),
        other => panic!("expected a runtime error, got {:?}", other),
    }
}

#[test]
fn null_key_dropped_after_execute() {
    let lua = Lua::new();
    let mut d = BluefoxData::try_from("gone: null\nf: `return 0`").unwrap();
    assert!(d.get("gone").is_some());
    d.execute(&lua, "f".to_owned(), vec![]).unwrap();
    assert_eq!(d.get("gone"), None);
}

#[test]
fn execute_passes_arguments() {
    let lua = Lua::new();
    let mut d = BluefoxData::try_from("f: `return function(a, b) return a + b end`").unwrap();
    // first build the adder, then call it through the rebuilt tree
    let adder = d.execute(&lua, "f".to_owned(), vec![]).unwrap();
    let mut d2 = BluefoxData::new();
    d2.insert("add".to_owned(), adder);
    let sum = d2
        .execute(
            &lua,
            "add".to_owned(),
            vec![BluefoxDataType::INT(2), BluefoxDataType::INT(40)],
        )
        .unwrap();
    assert_eq!(sum, BluefoxDataType::INT(42));
}

#[test]
fn sibling_mutation_is_absorbed() {
    let lua = Lua::new();
    let mut d =
        BluefoxData::try_from("counter: 0\nbump: `notation.counter = notation.counter + 1`")
            .unwrap();
    d.execute(&lua, "bump".to_owned(), vec![]).unwrap();
    assert_eq!(d.get("counter").unwrap(), &BluefoxDataType::INT(1));
}

#[test]
fn tags_name_the_shapes() {
    assert_eq!(BluefoxDataType::NULL.tag(), CBluefoxDataTypes::NULL);
    assert_eq!(BluefoxDataType::INT(1).tag(), CBluefoxDataTypes::INT);
    assert_eq!(
        BluefoxDataType::FLOAT("1.5".to_owned()).tag(),
        CBluefoxDataTypes::FLOAT
    );
    assert_eq!(
        BluefoxDataType::ARRAY(vec![]).tag(),
        CBluefoxDataTypes::ARRAY
    );
    assert_eq!(
        BluefoxDataType::DATA(BluefoxData::new()).tag(),
        CBluefoxDataTypes::DATA
    );
}

#[test]
fn get_and_insert_behave_as_a_map() {
    let mut d = BluefoxData::new();
    assert_eq!(d.get("a"), None);
    d.insert("a".to_owned(), BluefoxDataType::INT(1));
    d.insert("b".to_owned(), BluefoxDataType::INT(2));
    d.insert("a".to_owned(), BluefoxDataType::INT(3));
    assert_eq!(d.get("a").unwrap(), &BluefoxDataType::INT(3));
    assert_eq!(d.get("b").unwrap(), &BluefoxDataType::INT(2));
    assert_eq!(d.data.len(), 2);
}

#[test]
fn conversion_error_surfaces() {
    let lua = Lua::new();
    let mut d = BluefoxData::try_from("f: `return coroutine.create(function() end)`").unwrap();
    match d.execute(&lua, "f".to_owned(), vec![]) {
        Err(BluefoxError::ConversionError(_)) => {}
        other => panic!("expected a conversion error, got {:?}", other),
    }
}

#[test]
fn empty_path_is_path_error() {
    let lua = Lua::new();
    let mut d = BluefoxData::try_from("x: 1").unwrap();
    match d.execute(&lua, ".".to_owned(), vec![]) {
        Err(BluefoxError::PathError(p)) => assert_eq!(p, "."),
        other => panic!("expected a path error, got {:?}", other),
    }
}

#[test]
fn empty_text_is_empty_data() {
    let d = BluefoxData::try_from("").unwrap();
    assert_eq!(d.data.len(), 0);
    assert_eq!(d.get("anything"), None);
}

#[test]
fn unterminated_encapsulator_yields_accumulation() {
    // an unterminated function body surfaces as what was accumulated,
    // which no longer reads as a function and falls back to a string
    let d = BluefoxData::try_from("f: `return 1").unwrap();
    assert_eq!(
        d.get("f").unwrap(),
        &BluefoxDataType::STRING("`return 1".to_owned())
    );
}

#[test]
fn malformed_float_text_is_an_error_not_a_default() {
    // a FLOAT whose text no longer reads as a number (only possible by
    // hand construction) is reported, never silently turned into a value
    let lua = Lua::new();
    let mut d = BluefoxData::new();
    d.insert("bad".to_owned(), BluefoxDataType::FLOAT("no number".to_owned()));
    d.insert(
        "f".to_owned(),
        BluefoxDataType::FUNCTION("return 0".to_owned(), None),
    );
    match d.execute(&lua, "f".to_owned(), vec![]) {
        Err(BluefoxError::RuntimeError(_)) => {}
        other => panic!("expected a runtime error, got {:?}", other),
    }
    // and the tree is untouched on the failure
    assert!(d.get("bad").is_some());
}

#[test]
fn from_records_builds_an_array_of_objects() {
    let mut a = BluefoxData::new();
    a.insert("n".to_owned(), BluefoxDataType::INT(1));
    let mut b = BluefoxData::new();
    b.insert("n".to_owned(), BluefoxDataType::INT(2));
    let arr = BluefoxDataType::from_records(vec![a, b]);
    if let BluefoxDataType::ARRAY(items) = &arr {
        assert_eq!(items.len(), 2);
        if let BluefoxDataType::DATA(d0) = &items[0] {
            assert_eq!(d0.get("n").unwrap(), &BluefoxDataType::INT(1));
        } else {
            panic!("first record is not an object");
        }
        if let BluefoxDataType::DATA(d1) = &items[1] {
            assert_eq!(d1.get("n").unwrap(), &BluefoxDataType::INT(2));
        } else {
            panic!("second record is not an object");
        }
    } else {
        panic!("not an array");
    }
}

#[test]
fn not_callable_message_names_the_shape() {
    let lua = Lua::new();
    let mut v = BluefoxDataType::INT(3);
    match v.compile(&lua) {
        Err(BluefoxError::NotCallableError(m)) => assert!(m.contains("INT")),
        other => panic!("expected a not-callable error, got {:?}", other),
    }
}
