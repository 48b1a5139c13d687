use charscan::{Input, PSym, ParseError};
#[test]
fn should_parse_single_character_symbol_second() -> Result<(), ParseError> {
    let data: Vec<(usize, char)> = "::<>:: b d".char_indices().collect();
    let mut input = Input::new(&data);
    input.expect("::<>::")?;
    let sym = input.parse_symbol()?;
    assert_eq!( sym.value, "b" );
    assert_eq!( sym.start, 7 );
    assert_eq!( sym.end, 7 );
    assert_eq!( input.remaining().iter().map(|(_, x)| *x).collect::<String>(), " d".to_string() ); 
    Ok(())
}

#[test]
fn should_parse_double_character_symbol_second() -> Result<(), ParseError> {
    let data: Vec<(usize, char)> = "::<>:: bb d".char_indices().collect();
    let mut input = Input::new(&data);
    input.expect("::<>::")?;
    let sym = input.parse_symbol()?;
    assert_eq!( sym.value, "bb" );
    assert_eq!( sym.start, 7 );
    assert_eq!( sym.end, 8 );
    assert_eq!( input.remaining().iter().map(|(_, x)| *x).collect::<String>(), " d".to_string() ); 
    Ok(())
}

#[test]
fn should_parse_single_digit_number_second() -> Result<(), ParseError> {
    let data: Vec<(usize, char)> = "::<>:: 1 d".char_indices().collect();
    let mut input = Input::new(&data);
    input.expect("::<>::")?;
    let sym = input.parse_number()?;
    assert_eq!( sym.value, "1" );
    assert_eq!( sym.start, 7 );
    assert_eq!( sym.end, 7 );
    assert_eq!( input.remaining().iter().map(|(_, x)| *x).collect::<String>(), " d".to_string() ); 
    Ok(())
}

#[test]
fn should_parse_double_digit_number_second() -> Result<(), ParseError> {
    let data: Vec<(usize, char)> = "::<>:: 11 d".char_indices().collect();
    let mut input = Input::new(&data);
    input.expect("::<>::")?;
    let sym = input.parse_number()?;
    assert_eq!( sym.value, "11" );
    assert_eq!( sym.start, 7 );
    assert_eq!( sym.end, 8 );
    assert_eq!( input.remaining().iter().map(|(_, x)| *x).collect::<String>(), " d".to_string() ); 
    Ok(())
}

#[test]
fn should_expect_string() -> Result<(), ParseError> {
    let data: Vec<(usize, char)> = "::<>::".char_indices().collect();
    let mut input = Input::new(&data);
    input.expect("::<>::")?;
    assert_eq!( input.remaining().iter().map(|(_, x)| *x).collect::<String>(), "".to_string() ); 
    Ok(())
}

#[test]
fn should_parse_symbol() -> Result<(), ParseError> {
    let data: Vec<(usize, char)> = "_Symbol_123".char_indices().collect();
    let mut input = Input::new(&data);
    let PSym { start, end, value: symbol } = input.parse_symbol()?;
    assert_eq!( start, 0 );
    assert_eq!( end, 10 );
    assert_eq!( symbol, "_Symbol_123" );
    assert_eq!( input.remaining().iter().map(|(_, x)| *x).collect::<String>(), "".to_string() ); 
    Ok(())
}

#[test]
fn should_clear_whitespace() -> Result<(), ParseError> {
    let data: Vec<(usize, char)> = "   x".char_indices().collect();
    let mut input = Input::new(&data);
    input.clear()?;
    assert_eq!( input.remaining().iter().map(|(_, x)| *x).collect::<String>(), "x".to_string() ); 
    Ok(())
}

#[test]
fn should_clear_block_comment() -> Result<(), ParseError> {
    let data: Vec<(usize, char)> = r#"  
    
    /* comments %^& 124

    */
    
    x"#.char_indices().collect();
    let mut input = Input::new(&data);
    input.clear()?;
    assert_eq!( input.remaining().iter().map(|(_, x)| *x).collect::<String>(), "x".to_string() ); 
    Ok(())
}

#[test]
fn should_clear_nested_block_comment() -> Result<(), ParseError> {
    let data: Vec<(usize, char)> = r#"  
    
    /* comments %^& 124

        /* nested */
        /* other nest */
        /* /* nest nest */ */

    */
    
    x"#.char_indices().collect();
    let mut input = Input::new(&data);
    input.clear()?;
    assert_eq!( input.remaining().iter().map(|(_, x)| *x).collect::<String>(), "x".to_string() ); 
    Ok(())
}

#[test]
fn should_parse_int() -> Result<(), ParseError> {
    let data: Vec<(usize, char)> = "1234".char_indices().collect();
    let mut input = Input::new(&data);
    let PSym { start, end, value: number } = input.parse_number()?;
    assert_eq!( start, 0 );
    assert_eq!( end, 3 );
    assert_eq!( number, "1234" );
    assert_eq!( input.remaining().iter().map(|(_, x)| *x).collect::<String>(), "".to_string() ); 
    Ok(())
}

#[test]
fn should_parse_float() -> Result<(), ParseError> {
    let data: Vec<(usize, char)> = "12.34".char_indices().collect();
    let mut input = Input::new(&data);
    let PSym { start, end, value: number } = input.parse_number()?;
    assert_eq!( start, 0 );
    assert_eq!( end, 4 );
    assert_eq!( number, "12.34" );
    assert_eq!( input.remaining().iter().map(|(_, x)| *x).collect::<String>(), "".to_string() ); 
    Ok(())
}

#[test]
fn should_parse_scientific_notation() -> Result<(), ParseError> {
    let data: Vec<(usize, char)> = "1234e42.0".char_indices().collect();
    let mut input = Input::new(&data);
    let PSym { start, end, value: number } = input.parse_number()?;
    assert_eq!( start, 0 );
    assert_eq!( end, 8 );
    assert_eq!( number, "1234e42.0" );
    assert_eq!( input.remaining().iter().map(|(_, x)| *x).collect::<String>(), "".to_string() ); 
    Ok(())
}

#[test]
fn should_parse_negative_scientific_notation() -> Result<(), ParseError> {
    let data: Vec<(usize, char)> = "1234E-42".char_indices().collect();
    let mut input = Input::new(&data);
    let PSym { start, end, value: number } = input.parse_number()?;
    assert_eq!( start, 0 );
    assert_eq!( end, 7 );
    assert_eq!( number, "1234E-42" );
    assert_eq!( input.remaining().iter().map(|(_, x)| *x).collect::<String>(), "".to_string() ); 
    Ok(())
}

#[test]
fn should_parse_negative_int() -> Result<(), ParseError> {
    let data: Vec<(usize, char)> = "-1234".char_indices().collect();
    let mut input = Input::new(&data);
    let PSym { start, end, value: number } = input.parse_number()?;
    assert_eq!( start, 0 );
    assert_eq!( end, 4 );
    assert_eq!( number, "-1234" );
    assert_eq!( input.remaining().iter().map(|(_, x)| *x).collect::<String>(), "".to_string() ); 
    Ok(())
}

#[test]
fn should_parse_string_with_whitespace() -> Result<(), ParseError> {
    let data: Vec<(usize, char)> = r#" /* */ " string with 123
whitespace ""#.char_indices().collect();
    let mut input = Input::new(&data);
    let PSym { start, end, value: number } = input.parse_string()?;
    assert_eq!( start, 7 );
    assert_eq!( end, 36 );
    assert_eq!( number, " string with 123\nwhitespace " );
    assert_eq!( input.remaining().iter().map(|(_, x)| *x).collect::<String>(), "".to_string() ); 
    Ok(())
}

#[test]
fn should_parse_string_with_escapes() -> Result<(), ParseError> {
    let data: Vec<(usize, char)> = r#" /* */ "\\ \0 \n \r \t \"""#.char_indices().collect();
    let mut input = Input::new(&data);
    let PSym { start, end, value: number } = input.parse_string()?;
    assert_eq!( start, 7 );
    assert_eq!( end, 25 );
    assert_eq!( number, "\\ \0 \n \r \t \"" );
    assert_eq!( input.remaining().iter().map(|(_, x)| *x).collect::<String>(), "".to_string() ); 
    Ok(())
}

#[test]
fn should_restore() -> Result<(), ParseError> {
    let data: Vec<(usize, char)> = "-1234".char_indices().collect();
    let mut input = Input::new(&data);
    let r = input.create_restore();
    let PSym { start, end, value: number } = input.parse_number()?;
    assert_eq!( start, 0 );
    assert_eq!( end, 4 );
    assert_eq!( number, "-1234" );
    assert_eq!( input.remaining().iter().map(|(_, x)| *x).collect::<String>(), "".to_string() ); 

    let number = input.parse_number();
    assert_eq!( matches!(number, Err(_)), true );

    input.restore(r);
    let PSym { start, end, value: number } = input.parse_number()?;
    assert_eq!( start, 0 );
    assert_eq!( end, 4 );
    assert_eq!( number, "-1234" );
    assert_eq!( input.remaining().iter().map(|(_, x)| *x).collect::<String>(), "".to_string() ); 
    Ok(()) 
}

#[test]
fn should_handle_multiple_restores() -> Result<(), ParseError> {
    let data: Vec<(usize, char)> = "-1234 789".char_indices().collect();
    let mut input = Input::new(&data);
    let r1 = input.create_restore();

    let PSym { start, end, value: number } = input.parse_number()?;
    assert_eq!( start, 0 );
    assert_eq!( end, 4 );
    assert_eq!( number, "-1234" );
    assert_eq!( input.remaining().iter().map(|(_, x)| *x).collect::<String>(), " 789".to_string() ); 

    let r2 = input.create_restore();

    let PSym { start, end, value: number } = input.parse_number()?;
    assert_eq!( start, 6 );
    assert_eq!( end, 8 );
    assert_eq!( number, "789" );
    assert_eq!( input.remaining().iter().map(|(_, x)| *x).collect::<String>(), "".to_string() ); 

    input.restore(r2);

    let PSym { start, end, value: number } = input.parse_number()?;
    assert_eq!( start, 6 );
    assert_eq!( end, 8 );
    assert_eq!( number, "789" );
    assert_eq!( input.remaining().iter().map(|(_, x)| *x).collect::<String>(), "".to_string() ); 

    input.restore(r1);

    let PSym { start, end, value: number } = input.parse_number()?;
    assert_eq!( start, 0 );
    assert_eq!( end, 4 );
    assert_eq!( number, "-1234" );
    assert_eq!( input.remaining().iter().map(|(_, x)| *x).collect::<String>(), " 789".to_string() ); 

    let PSym { start, end, value: number } = input.parse_number()?;
    assert_eq!( start, 6 );
    assert_eq!( end, 8 );
    assert_eq!( number, "789" );
    assert_eq!( input.remaining().iter().map(|(_, x)| *x).collect::<String>(), "".to_string() ); 

    Ok(()) 
}

#[test]
fn should_parse_maybe_parser() -> Result<(), ParseError> {
    let data: Vec<(usize, char)> = "-1234".char_indices().collect();
    let mut input = Input::new(&data);
    let PSym { start, end, value: number } = input.maybe(|i| i.parse_number()).unwrap();
    assert_eq!( start, 0 );
    assert_eq!( end, 4 );
    assert_eq!( number, "-1234" );
    assert_eq!( input.remaining().iter().map(|(_, x)| *x).collect::<String>(), "".to_string() ); 
    Ok(())
}

#[test]
fn should_parse_maybe_parser_with_nothing() -> Result<(), ParseError> {
    let data: Vec<(usize, char)> = "x".char_indices().collect();
    let mut input = Input::new(&data);
    let number = input.maybe(|i| i.parse_number());
    match number {
        None => (),
        _ => panic!( "nothing should be parsed" ), 
    }
    assert_eq!( input.remaining().iter().map(|(_, x)| *x).collect::<String>(), "x".to_string() ); 
    Ok(())
}

#[test]
fn should_parse_zero_or_more_with_some_items() -> Result<(), ParseError> {
    let data: Vec<(usize, char)> = "123 456".char_indices().collect();
    let mut input = Input::new(&data);
    let numbers = input.zero_or_more(|i| i.parse_number())?;
    assert_eq!( numbers.len(), 2 );
    assert_eq!( numbers[0].value, "123" );
    assert_eq!( numbers[1].value, "456" );
    assert_eq!( input.remaining().iter().map(|(_, x)| *x).collect::<String>(), "".to_string() ); 
    Ok(())
}

#[test]
fn should_parse_zero_or_more_with_no_items() -> Result<(), ParseError> {
    let data: Vec<(usize, char)> = "x".char_indices().collect();
    let mut input = Input::new(&data);
    let numbers = input.zero_or_more(|i| i.parse_number())?;
    assert_eq!( numbers.len(), 0 );
    assert_eq!( input.remaining().iter().map(|(_, x)| *x).collect::<String>(), "x".to_string() ); 
    Ok(())
}

#[test]
fn should_parse_one_or_more_with_some_items() -> Result<(), ParseError> {
    let data: Vec<(usize, char)> = "123 456".char_indices().collect();
    let mut input = Input::new(&data);
    let numbers = input.one_or_more(|i| i.parse_number())?;
    assert_eq!( numbers.len(), 2 );
    assert_eq!( numbers[0].value, "123" );
    assert_eq!( numbers[1].value, "456" );
    assert_eq!( input.remaining().iter().map(|(_, x)| *x).collect::<String>(), "".to_string() ); 
    Ok(())
}

#[test]
fn should_parse_one_or_more_with_one_item() -> Result<(), ParseError> {
    let data: Vec<(usize, char)> = "123".char_indices().collect();
    let mut input = Input::new(&data);
    let numbers = input.one_or_more(|i| i.parse_number())?;
    assert_eq!( numbers.len(), 1 );
    assert_eq!( numbers[0].value, "123" );
    assert_eq!( input.remaining().iter().map(|(_, x)| *x).collect::<String>(), "".to_string() ); 
    Ok(())
}

#[test]
fn should_fail_one_or_more_with_no_item() -> Result<(), ParseError> {
    let data: Vec<(usize, char)> = "x".char_indices().collect();
    let mut input = Input::new(&data);
    let numbers = input.one_or_more(|i| i.parse_number());
    match numbers {
        Ok(_) => panic!( "one or more should fail on no items" ),
        Err(_) => (),
    }
    assert_eq!( input.remaining().iter().map(|(_, x)| *x).collect::<String>(), "x".to_string() ); 
    Ok(())
}

#[test]
fn should_parse_empty_list() -> Result<(), ParseError> {
    let data: Vec<(usize, char)> = "x".char_indices().collect();
    let mut input = Input::new(&data);
    let items = input.list(|i| i.parse_number())?;
    assert_eq!( items.len(), 0 );
    assert_eq!( input.remaining().iter().map(|(_, x)| *x).collect::<String>(), "x".to_string() ); 
    Ok(())
}

#[test]
fn should_parse_single_item_list() -> Result<(), ParseError> {
    let data: Vec<(usize, char)> = "123".char_indices().collect();
    let mut input = Input::new(&data);
    let items = input.list(|i| i.parse_number())?;
    assert_eq!( items.len(), 1 );
    assert_eq!( items[0].value, "123" );
    assert_eq!( input.remaining().iter().map(|(_, x)| *x).collect::<String>(), "".to_string() ); 
    Ok(())
}

#[test]
fn should_parse_list() -> Result<(), ParseError> {
    let data: Vec<(usize, char)> = "123, 456, 789".char_indices().collect();
    let mut input = Input::new(&data);
    let items = input.list(|i| i.parse_number())?;
    assert_eq!( items.len(), 3 );
    assert_eq!( items[0].value, "123" );
    assert_eq!( items[1].value, "456" );
    assert_eq!( items[2].value, "789" );
    assert_eq!( input.remaining().iter().map(|(_, x)| *x).collect::<String>(), "".to_string() ); 
    Ok(())
}

#[test]
fn should_parse_first_choice() -> Result<(), ParseError> {
    let data: Vec<(usize, char)> = "123".char_indices().collect();
    let mut input = Input::new(&data);
    let item = input.choice(&[ |i : &mut Input| -> Result<PSym, ParseError> { i.parse_number() }
                            , |i : &mut Input| -> Result<PSym, ParseError> { i.parse_symbol() }
                            ])?;
    assert_eq!( item.value, "123" );
    assert_eq!( input.remaining().iter().map(|(_, x)| *x).collect::<String>(), "".to_string() ); 
    Ok(())
}

#[test]
fn should_parse_second_choice() -> Result<(), ParseError> {
    let data: Vec<(usize, char)> = "blah".char_indices().collect();
    let mut input = Input::new(&data);
    let item = input.choice(&[ |i : &mut Input| -> Result<PSym, ParseError> { i.parse_number() }
                            , |i : &mut Input| -> Result<PSym, ParseError> { i.parse_symbol() }
                            ])?;
    assert_eq!( item.value, "blah" );
    assert_eq!( input.remaining().iter().map(|(_, x)| *x).collect::<String>(), "".to_string() ); 
    Ok(())
}
