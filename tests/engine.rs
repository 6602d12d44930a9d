use spreadsheet::{Error, Expr, Spreadsheet, Value};

type TR = Result<(), Error>;

#[test]
fn test_grow_sheet() {
    let mut sheet = Spreadsheet::new();
    sheet.set(0, 0, "hi".to_string());
    sheet.set(1, 1, "hello".to_string());
    assert_eq!(sheet.show_cell(0, 0), "hi");
    assert_eq!(sheet.show_cell(1, 1), "hello");
}

#[test]
fn test_parse_int() -> TR {
    let e = Expr::parse("52")?;
    assert_eq!(e, Expr::Int(52));
    Ok(())
}

#[test]
fn test_parse_bool() -> TR {
    let e = Expr::parse("true")?;
    assert_eq!(e, Expr::Bool(true));
    let e = Expr::parse("false")?;
    assert_eq!(e, Expr::Bool(false));
    Ok(())
}

#[test]
fn test_parse_plus_basic() -> TR {
    let e = Expr::parse("(13+2)")?;
    assert_eq!(
        e,
        Expr::Plus(Box::new(Expr::Int(13)), Box::new(Expr::Int(2)))
    );
    Ok(())
}

#[test]
fn test_parse_plus_nested() -> TR {
    let e = Expr::parse("(13+(2+5))")?;
    assert_eq!(
        e,
        Expr::Plus(
            Box::new(Expr::Int(13)),
            Box::new(Expr::Plus(Box::new(Expr::Int(2)), Box::new(Expr::Int(5))))
        )
    );
    Ok(())
}

#[test]
fn test_parse_fn_call() -> TR {
    let e = Expr::parse("foo(1,false,5)")?;
    assert_eq!(
        e,
        Expr::FnCall(
            "foo".to_string(),
            vec![Expr::Int(1), Expr::Bool(false), Expr::Int(5)]
        )
    );
    Ok(())
}

#[test]
fn test_parse_eq() -> TR {
    let e = Expr::parse("(1=2)")?;
    assert_eq!(e, Expr::Eq(Box::new(Expr::Int(1)), Box::new(Expr::Int(2))));
    Ok(())
}

#[test]
fn test_parse_if() -> TR {
    let e = Expr::parse("if(true,1,2)")?;
    assert_eq!(
        e,
        Expr::If(
            Box::new(Expr::Bool(true)),
            Box::new(Expr::Int(1)),
            Box::new(Expr::Int(2))
        )
    );
    Ok(())
}

#[test]
fn test_addition() -> TR {
    let e = Expr::parse("(13+(2+5))")?;
    assert_eq!(e.eval()?, Value::Int(20));
    Ok(())
}

#[test]
fn test_eq() -> TR {
    let e = Expr::parse("(2=2)")?;
    assert_eq!(e.eval()?, Value::Bool(true));

    let e = Expr::parse("(2=3)")?;
    assert_eq!(e.eval()?, Value::Bool(false));
    Ok(())
}

#[test]
fn test_eq_bad() -> TR {
    let e = Expr::parse("(2=false)")?;
    assert!(e.eval().is_err());
    Ok(())
}

#[test]
fn test_if_basic() -> TR {
    let e = Expr::parse("if(true,2,3)")?;
    assert_eq!(e.eval()?, Value::Int(2));

    let e = Expr::parse("if(false,2,3)")?;
    assert_eq!(e.eval()?, Value::Int(3));
    Ok(())
}

#[test]
fn test_if_ignores_other() -> TR {
    let e = Expr::parse("if(true,7,(2=false))")?;
    assert_eq!(e.eval()?, Value::Int(7));

    let e = Expr::parse("if(false,(2=false),7)")?;
    assert_eq!(e.eval()?, Value::Int(7));
    Ok(())
}

#[test]
fn test_if_nested() -> TR {
    let e = Expr::parse("if(if(true,false,true),75,if(false,true,(1+2)))")?;
    assert_eq!(e.eval()?, Value::Int(3));
    Ok(())
}
