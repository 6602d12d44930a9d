use spreadsheet::parsing::Error;
use spreadsheet::Parsing;

type TR = Result<(), Error>;

#[test]
fn test_skip() -> TR {
    let p = Parsing::new("foo".to_string()).skip("fo")?;
    assert_eq!(p.offset(), 2);
    assert_eq!(p.text(), "foo");
    Ok(())
}

#[test]
fn test_parse_int_respects_end_of_string() -> TR {
    let p = Parsing::new("123".to_string()).parse_int()?;
    assert_eq!(p.get(), 123);
    assert_eq!(p.offset(), 3);
    Ok(())
}

#[test]
fn test_parse_int_respects_alpha_chars() -> TR {
    let p = Parsing::new("456foo".to_string()).parse_int()?;
    assert_eq!(p.get(), 456);
    assert_eq!(p.offset(), 3);
    Ok(())
}

#[test]
fn test_done() -> TR {
    let p = Parsing::new("123".to_string()).parse_int()?.done()?;
    assert_eq!(p.get(), 123);
    assert_eq!(p.offset(), 3);
    Ok(())
}

#[test]
fn test_match_pred() -> TR {
    let p = Parsing::new("abcdf".to_string())
        .match_pred(|c| (*c as char) < 'd', "c < 'd'")?;
    assert_eq!(p.get(), "abc");
    Ok(())
}

#[test]
fn test_repeat() -> TR {
    let p = Parsing::new("a, a, b, c".to_string()).repeat(|p| p.skip("a, "))?;
    assert_eq!(p.get().len(), 2);
    assert_eq!(p.offset(), 6);
    Ok(())
}
