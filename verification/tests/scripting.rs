use bluefox::{BluefoxData, BluefoxDataType};
use mlua::Lua;

#[test]
fn lua_implementation() {
    let test = "
    is_null: null
    some_bool: false
    some_int: 4
    some_float: 6.4
    some_string: this is the, first test string
    some_quote: \"this is the, second test string\"
    some_function: `
        notation.some_int = 8
        return notation.some_data.more_float
    `
    some_array: [
        5
        6
        7
    ]
    some_data: {
        more_bool: true
        more_int: 9
        more_float: 1.67
    }";

    let lua = Lua::new();

    let mut data = BluefoxData::try_from(test).unwrap();

    assert_eq!(
        data.execute(&lua, "some_function".to_owned(), vec![]).unwrap(),
        BluefoxDataType::FLOAT((1.67f64).to_string())
    );
    assert_eq!(data.get("some_int").unwrap(), &BluefoxDataType::INT(8));

    // when converted back from the engine, null values are ignored
    assert_eq!(data.get("is_null"), None);
    assert_eq!(data.get("some_bool").unwrap(), &BluefoxDataType::BOOL(false));
    assert_eq!(
        data.get("some_float").unwrap(),
        &BluefoxDataType::FLOAT((6.4f64).to_string())
    );
    assert_eq!(
        data.get("some_string").unwrap(),
        &BluefoxDataType::STRING("this is the, first test string".to_owned())
    );
    assert_eq!(
        data.get("some_quote").unwrap(),
        &BluefoxDataType::STRING("this is the, second test string".to_owned())
    );
    // the source is lost once the function is compiled, so run it again to
    // see that the cached callable still works
    assert_eq!(
        data.execute(&lua, "some_function".to_owned(), vec![]).unwrap(),
        BluefoxDataType::FLOAT((1.67f64).to_string())
    );
    assert_eq!(
        data.get("some_array").unwrap(),
        &BluefoxDataType::ARRAY(vec![
            BluefoxDataType::INT(5),
            BluefoxDataType::INT(6),
            BluefoxDataType::INT(7)
        ])
    );
    if let BluefoxDataType::DATA(more) = data.get("some_data").unwrap() {
        assert_eq!(more.get("more_bool").unwrap(), &BluefoxDataType::BOOL(true));
        assert_eq!(more.get("more_int").unwrap(), &BluefoxDataType::INT(9));
        assert_eq!(
            more.get("more_float").unwrap(),
            &BluefoxDataType::FLOAT((1.67f64).to_string())
        );
    } else {
        assert_eq!("some_data", "is not recognized as data");
    }

    drop(data);
}

#[test]
fn lua_nested_function() {
    let test = r#"
    outside_function: `
        return 1
    `
    some_array: [
        `return 2`
    ]
    some_data: {
        data_function: `return 3`
    }"#;

    let lua = Lua::new();

    let mut data = BluefoxData::try_from(test).unwrap();

    assert_eq!(
        data.execute(&lua, "outside_function".to_owned(), vec![]).unwrap(),
        BluefoxDataType::INT(1)
    );
    assert_eq!(
        data.execute(&lua, "some_array.1".to_owned(), vec![]).unwrap(),
        BluefoxDataType::INT(2)
    );
    // both the bracketed index form and reusing the compiled function
    assert_eq!(
        data.execute(&lua, "some_array[1]".to_owned(), vec![]).unwrap(),
        BluefoxDataType::INT(2)
    );
    assert_eq!(
        data.execute(&lua, "some_data.data_function".to_owned(), vec![]).unwrap(),
        BluefoxDataType::INT(3)
    );
}
