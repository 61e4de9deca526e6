use bluefox::{BluefoxData, BluefoxDataType};

#[test]
fn interpreter() {
    let test = "
    is_null: null
    some_bool: false
    some_int: 4
    some_float: 6.4
    some_string: this is the, first test string
    some_quote: \"this is the, second test string\"
    some_function: `
        function some_function()
            print(\"hello world\")
        end function
    `
    some_array: [
        5
        6
        7
    ]
    some_data: {
        more_bool: true
        more_int: 9
        more_float: 1.67
    }";

    let data = BluefoxData::try_from(test).unwrap();

    assert_eq!(data.get("is_null").unwrap(), &BluefoxDataType::NULL);
    assert_eq!(data.get("some_bool").unwrap(), &BluefoxDataType::BOOL(false));
    assert_eq!(data.get("some_int").unwrap(), &BluefoxDataType::INT(4));
    assert_eq!(
        data.get("some_float").unwrap(),
        &BluefoxDataType::FLOAT((6.4f64).to_string())
    );
    assert_eq!(
        data.get("some_string").unwrap(),
        &BluefoxDataType::STRING("this is the, first test string".to_owned())
    );
    assert_eq!(
        data.get("some_quote").unwrap(),
        &BluefoxDataType::STRING("this is the, second test string".to_owned())
    );
    assert_eq!(
        data.get("some_function").unwrap(),
        &BluefoxDataType::FUNCTION(
            "
        function some_function()
            print(\"hello world\")
        end function
    "
            .to_owned(),
            None
        )
    );
    assert_eq!(
        data.get("some_array").unwrap(),
        &BluefoxDataType::ARRAY(vec![
            BluefoxDataType::INT(5),
            BluefoxDataType::INT(6),
            BluefoxDataType::INT(7)
        ])
    );
    if let BluefoxDataType::DATA(more) = data.get("some_data").unwrap() {
        assert_eq!(more.get("more_bool").unwrap(), &BluefoxDataType::BOOL(true));
        assert_eq!(more.get("more_int").unwrap(), &BluefoxDataType::INT(9));
        assert_eq!(
            more.get("more_float").unwrap(),
            &BluefoxDataType::FLOAT((1.67f64).to_string())
        );
    } else {
        assert_eq!("some_data", "is not recognized as data");
    }
}

#[test]
fn serializer() {
    let test = "
    is_null: null
    some_bool: false
    some_int: 4
    some_float: 6.4
    some_string: this is the, first test string
    some_quote: \"this is the, second test string\"
    some_function: `
        function some_function()
            print(\"hello world\")
        end function
    `
    some_array: [
        5
        6
        7
    ]
    some_data: {
        more_bool: true
        more_int: 9
        more_float: 1.67
    }";
    let data_intermediate = BluefoxData::try_from(test).unwrap();
    let text = BluefoxData::to_string(data_intermediate);
    let data = BluefoxData::try_from(text.as_str()).unwrap();

    assert_eq!(data.get("is_null").unwrap(), &BluefoxDataType::NULL);
    assert_eq!(data.get("some_bool").unwrap(), &BluefoxDataType::BOOL(false));
    assert_eq!(data.get("some_int").unwrap(), &BluefoxDataType::INT(4));
    assert_eq!(
        data.get("some_float").unwrap(),
        &BluefoxDataType::FLOAT((6.4f64).to_string())
    );
    assert_eq!(
        data.get("some_string").unwrap(),
        &BluefoxDataType::STRING("this is the, first test string".to_owned())
    );
    assert_eq!(
        data.get("some_quote").unwrap(),
        &BluefoxDataType::STRING("this is the, second test string".to_owned())
    );
    assert_eq!(
        data.get("some_function").unwrap(),
        &BluefoxDataType::FUNCTION(
            "
        function some_function()
            print(\"hello world\")
        end function
    "
            .to_owned(),
            None
        )
    );
    assert_eq!(
        data.get("some_array").unwrap(),
        &BluefoxDataType::ARRAY(vec![
            BluefoxDataType::INT(5),
            BluefoxDataType::INT(6),
            BluefoxDataType::INT(7)
        ])
    );
    if let BluefoxDataType::DATA(more) = data.get("some_data").unwrap() {
        assert_eq!(more.get("more_bool").unwrap(), &BluefoxDataType::BOOL(true));
        assert_eq!(more.get("more_int").unwrap(), &BluefoxDataType::INT(9));
        assert_eq!(
            more.get("more_float").unwrap(),
            &BluefoxDataType::FLOAT((1.67f64).to_string())
        );
    } else {
        assert_eq!("some_data", "is not recognized as data");
    }
}
