use spreadsheet::expr::int_to_text;
use spreadsheet::{Error, Expr, Parsing, Spreadsheet, Value};

fn shown(formula: &str) -> String {
    let mut sheet = Spreadsheet::new();
    sheet.set(0, 0, formula.to_string());
    sheet.show_cell(0, 0)
}

#[test]
fn integer_literals_round_trip() {
    for n in [0i64, 7, 42, 1000, 9223372036854775807] {
        let text = int_to_text(n);
        assert_eq!(text, n.to_string());
        let e = Expr::parse(&text).unwrap();
        assert_eq!(e, Expr::Int(n));
        assert_eq!(e.eval().unwrap(), Value::Int(n));
    }
}

#[test]
fn integers_render_in_decimal() {
    assert_eq!(int_to_text(0), "0");
    assert_eq!(int_to_text(-5), "-5");
    assert_eq!(int_to_text(120), "120");
    assert_eq!(int_to_text(i64::MIN), "-9223372036854775808");
    assert_eq!(Value::Int(20).to_text(), "20");
    assert_eq!(Value::Bool(false).to_text(), "false");
}

#[test]
fn far_write_reads_back_and_keeps_others() {
    let mut sheet = Spreadsheet::new();
    sheet.set(0, 0, "a".to_string());
    sheet.set(2, 1, "b".to_string());
    sheet.set(1000, 1000, "z".to_string());
    assert_eq!(sheet.raw_cell(1000, 1000), "z");
    assert_eq!(sheet.raw_cell(0, 0), "a");
    assert_eq!(sheet.raw_cell(2, 1), "b");
    sheet.set(2, 1, "c".to_string());
    assert_eq!(sheet.raw_cell(2, 1), "c");
}

#[test]
fn bounding_box_tracks_largest_writes() {
    let mut sheet = Spreadsheet::new();
    assert_eq!(sheet.get_max_dims(), (0, 0));
    sheet.set(3, 1, "x".to_string());
    assert_eq!(sheet.get_max_dims(), (3, 1));
    sheet.set(1, 9, "y".to_string());
    assert_eq!(sheet.get_max_dims(), (3, 9));
    sheet.set(0, 0, "".to_string());
    assert_eq!(sheet.get_max_dims(), (3, 9));
}

#[test]
fn unwritten_cells_are_empty() {
    let mut sheet = Spreadsheet::new();
    assert_eq!(sheet.raw_cell(0, 0), "");
    assert_eq!(sheet.raw_cell(5, 5), "");
    sheet.set(4, 4, "q".to_string());
    assert_eq!(sheet.raw_cell(3, 4), "");
    assert_eq!(sheet.raw_cell(4, 3), "");
    assert_eq!(sheet.raw_cell(100, 0), "");
    assert_eq!(sheet.show_cell(7, 7), "");
}

#[test]
fn addition_nests_to_the_right() {
    let e = Expr::parse("(13+(2+5))").unwrap();
    match &e {
        Expr::Plus(a, b) => {
            assert_eq!(**a, Expr::Int(13));
            assert!(matches!(**b, Expr::Plus(_, _)));
        }
        _ => panic!("not an addition"),
    }
    assert_eq!(e.eval().unwrap(), Value::Int(20));
}

#[test]
fn comparing_int_with_bool_is_a_type_mismatch() {
    let e = Expr::parse("(2=false)").unwrap();
    assert!(matches!(e.eval(), Err(Error::TypeMismatch)));
    let e = Expr::parse("(true+1)").unwrap();
    assert!(matches!(e.eval(), Err(Error::TypeMismatch)));
    let e = Expr::parse("if(1,2,3)").unwrap();
    assert!(matches!(e.eval(), Err(Error::TypeMismatch)));
    assert_eq!(shown("=(2=false)"), "type mismatch");
}

#[test]
fn conditional_skips_the_untaken_branch() {
    let e = Expr::parse("if(true,7,(2=false))").unwrap();
    assert_eq!(e.eval().unwrap(), Value::Int(7));
    let e = Expr::parse("if(false,foo(1,2),8)").unwrap();
    assert_eq!(e.eval().unwrap(), Value::Int(8));
}

#[test]
fn unknown_function_is_named() {
    let e = Expr::parse("foo(1,2)").unwrap();
    match e.eval() {
        Err(Error::UnknownFunction(name)) => assert_eq!(name, "foo"),
        other => panic!("unexpected {:?}", other),
    }
    assert_eq!(shown("=bar9(1,true)"), "function \"bar9\" does not exist");
}

#[test]
fn a_call_takes_at_least_two_arguments() {
    assert!(Expr::parse("foo(1)").is_err());
    assert!(Expr::parse("foo()").is_err());
}

#[test]
fn failed_alternative_leaves_the_cursor_in_place() {
    let p = Parsing::new("ab".to_string());
    let r = p
        .try_one(2, |k, p| {
            if k == 0 {
                p.skip("a").and_then(|q| q.skip("x")).map(|q| q.replace(99usize))
            } else {
                let at = p.offset();
                p.skip("ab").map(|q| q.replace(at))
            }
        })
        .unwrap();
    assert_eq!(r.get(), 0);
    assert_eq!(r.offset(), 2);
}

#[test]
fn no_alternative_matches() {
    let p = Parsing::new("zz".to_string());
    let r = p.try_one(1, |_, p| p.skip("a"));
    assert_eq!(r.err().unwrap().0, "No method worked parsing at \"zz\"");
}

#[test]
fn skip_reports_what_it_found() {
    let r = Parsing::new("foo".to_string()).skip("bar");
    assert_eq!(r.err().unwrap().0, "Expected \"bar\" but found \"foo\" instead");
}

#[test]
fn done_reports_trailing_text() {
    let p = Parsing::new("12ab".to_string()).parse_int().unwrap();
    let r = p.done();
    assert_eq!(r.err().unwrap().0, "expected end of string, instead found \"ab\"");
}

#[test]
fn parse_int_needs_a_digit() {
    let r = Parsing::new("x1".to_string()).parse_int();
    assert_eq!(
        r.err().unwrap().0,
        "Expected bytes matching \"is_ascii_digit\", but got \"x1\""
    );
}

#[test]
fn parse_int_rejects_overflow() {
    let r = Parsing::new("9223372036854775808".to_string()).parse_int();
    assert_eq!(r.err().unwrap().0, "number too large to fit in target type");
    let p = Parsing::new("9223372036854775807".to_string()).parse_int().unwrap();
    assert_eq!(p.get(), i64::MAX);
    assert!(matches!(Expr::parse("99999999999999999999"), Err(Error::Syntax(_))));
}

#[test]
fn match_pred_stops_inside_a_character() {
    let r = Parsing::new("éa".to_string()).match_pred(|c| *c == 0xC3, "lead");
    assert_eq!(
        r.err().unwrap().0,
        "Bytes matching \"lead\" end inside a character: \"éa\""
    );
    let p = Parsing::new("éa".to_string())
        .match_pred(|c| *c >= 0x80, "high")
        .unwrap();
    assert_eq!(p.get(), "é");
    assert_eq!(p.offset(), 2);
}

#[test]
fn wrapped_skips_both_delimiters() {
    let p = Parsing::new("(12)".to_string())
        .wrapped("(", |p| p.parse_int(), ")")
        .unwrap();
    assert_eq!(p.get(), 12);
    assert_eq!(p.offset(), 4);
    let r = Parsing::new("(12]".to_string()).wrapped("(", |p| p.parse_int(), ")");
    assert_eq!(r.err().unwrap().0, "Expected \")\" but found \"]\" instead");
}

#[test]
fn repeat_needs_one_success() {
    let r = Parsing::new("b".to_string()).repeat(|p| p.skip("a"));
    assert_eq!(r.err().unwrap().0, "Expected \"a\" but found \"b\" instead");
}

#[test]
fn sum_overflow_is_an_error() {
    let e = Expr::parse("(9223372036854775807+1)").unwrap();
    assert!(matches!(e.eval(), Err(Error::Overflow)));
    assert_eq!(shown("=(9223372036854775807+1)"), "integer overflow");
}

#[test]
fn cells_show_formula_values() {
    assert_eq!(shown("=(1+2)"), "3");
    assert_eq!(shown("=true"), "true");
    assert_eq!(shown("=(3=3)"), "true");
    assert_eq!(shown("plain"), "plain");
    assert_eq!(shown("1+2"), "1+2");
    assert_eq!(shown("=1)"), "expected end of string, instead found \")\"");
    assert_eq!(shown("=)"), "No method worked parsing at \")\"");
    assert_eq!(shown("="), "No method worked parsing at \"\"");
}
