use data_faker::text::{decimal_string, parse_i64};
use data_faker::definitions::{
    construct_from_str, remove_parentheses, variable_type_from_str, ConstructRule, GenerateRule,
    VariableType, VariableTypeValue,
};
use data_faker::rules::{EnumFileRule, EnumRule, IncreaseRule, Rule};

fn text_of(v: VariableTypeValue) -> String {
    match v {
        VariableTypeValue::String(s) => s,
        other => panic!("not text: {:?}", other),
    }
}

#[test]
fn increase_descriptor_parses_start_and_step() {
    let rule = construct_from_str("increase(10,5)", None).unwrap();
    match &rule {
        Rule::Increase(c) => {
            assert_eq!(c.start(), 10);
            assert_eq!(c.step(), 5);
        }
        other => panic!("wrong rule: {:?}", other),
    }
    assert!(matches!(rule.generate_into(VariableType::Integer), Ok(VariableTypeValue::Integer(10))));
    assert!(matches!(rule.generate_into(VariableType::Integer), Ok(VariableTypeValue::Integer(15))));
    assert_eq!(text_of(rule.generate_into(VariableType::String).unwrap()), "20");
}

#[test]
fn increase_with_one_argument_is_refused() {
    assert!(construct_from_str("increase(10)", None).is_err());
    assert!(IncreaseRule::construct(String::from("increase(10)")).is_err());
}

#[test]
fn increase_with_bad_numbers_is_refused() {
    assert!(construct_from_str("increase(a,1)", None).is_err());
    assert!(construct_from_str("increase(1, 2)", None).is_err());
    assert!(construct_from_str("increase(99999999999999999999,1)", None).is_err());
}

#[test]
fn empty_enum_is_refused() {
    assert!(construct_from_str("enum()", None).is_err());
    assert!(EnumRule::construct(String::from("enum()")).is_err());
}

#[test]
fn missing_enum_file_is_refused() {
    assert!(construct_from_str("enum_file(missing.txt)", None).is_err());
}

#[test]
fn enum_file_without_lines_is_refused() {
    assert!(construct_from_str("enum_file(empty.txt)", Some(String::from("\n\n"))).is_err());
}

#[test]
fn unknown_descriptor_is_refused() {
    assert!(construct_from_str("random(1,2)", None).is_err());
    assert!(construct_from_str("increase", None).is_err());
    assert!(construct_from_str("enum)a(", None).is_err());
}

#[test]
fn descriptor_is_trimmed_and_case_folded() {
    let rule = construct_from_str("  INCREASE(3,-2)  ", None).unwrap();
    assert!(matches!(rule.generate_into(VariableType::Integer), Ok(VariableTypeValue::Integer(3))));
    assert!(matches!(rule.generate_into(VariableType::Integer), Ok(VariableTypeValue::Integer(1))));
    let rule = construct_from_str(" Enum(ABC) ", None).unwrap();
    assert_eq!(text_of(rule.generate_into(VariableType::String).unwrap()), "abc");
}

#[test]
fn counter_refuses_float_and_date() {
    let c = IncreaseRule::new(1, 1);
    assert!(c.generate_into(VariableType::Float).is_err());
    assert!(c.generate_into(VariableType::Date).is_err());
    assert!(matches!(c.generate_into(VariableType::Integer), Ok(VariableTypeValue::Integer(1))));
}

#[test]
fn counter_value_of_draw() {
    let c = IncreaseRule::new(-7, 3);
    assert!(matches!(c.value_of_draw(0, VariableType::Integer), Ok(VariableTypeValue::Integer(-7))));
    assert!(matches!(c.value_of_draw(4, VariableType::Integer), Ok(VariableTypeValue::Integer(5))));
    assert_eq!(text_of(c.value_of_draw(1, VariableType::String).unwrap()), "-4");
    let big = IncreaseRule::new(i64::MAX - 1, 1);
    assert!(matches!(big.value_of_draw(1, VariableType::Integer), Ok(VariableTypeValue::Integer(i64::MAX))));
    assert!(big.value_of_draw(2, VariableType::Integer).is_err());
}

#[test]
fn counter_draws_have_no_gaps_or_repeats() {
    let c = IncreaseRule::new(5, 3);
    let mut seen = Vec::new();
    for _ in 0..50 {
        match c.generate_into(VariableType::Integer).unwrap() {
            VariableTypeValue::Integer(v) => seen.push(v),
            other => panic!("not an integer: {:?}", other),
        }
    }
    let expected: Vec<i64> = (0..50).map(|i| 5 + 3 * i).collect();
    assert_eq!(seen, expected);
}

#[test]
fn counter_clone_counts_on_its_own() {
    let c = IncreaseRule::new(1, 1);
    c.generate_into(VariableType::Integer).unwrap();
    c.generate_into(VariableType::Integer).unwrap();
    let d = c.clone();
    assert!(matches!(d.generate_into(VariableType::Integer), Ok(VariableTypeValue::Integer(3))));
    assert!(matches!(d.generate_into(VariableType::Integer), Ok(VariableTypeValue::Integer(4))));
    assert!(matches!(c.generate_into(VariableType::Integer), Ok(VariableTypeValue::Integer(3))));
}

#[test]
fn enum_values_are_members() {
    let rule = construct_from_str("enum(abc,def,dds)", None).unwrap();
    for _ in 0..50 {
        let s = text_of(rule.generate_into(VariableType::String).unwrap());
        assert!(s == "abc" || s == "def" || s == "dds");
    }
    assert!(rule.generate_into(VariableType::Integer).is_err());
    assert!(rule.generate_into(VariableType::Float).is_err());
    assert!(rule.generate_into(VariableType::Date).is_err());
}

#[test]
fn enum_integers_and_floats_are_read() {
    let ints = construct_from_str("enum(1,2,3)", None).unwrap();
    for _ in 0..30 {
        match ints.generate_into(VariableType::Integer).unwrap() {
            VariableTypeValue::Integer(v) => assert!((1..=3).contains(&v)),
            other => panic!("not an integer: {:?}", other),
        }
    }
    let floats = construct_from_str("enum(1.5,2e3,-.5)", None).unwrap();
    for _ in 0..30 {
        match floats.generate_into(VariableType::Float).unwrap() {
            VariableTypeValue::Float(t) => assert!(t == "1.5" || t == "2e3" || t == "-.5"),
            other => panic!("not a float: {:?}", other),
        }
    }
}

#[test]
fn enum_value_at_reads_each_literal() {
    let e = EnumRule::new(vec![String::from("12"), String::from("x"), String::from("inf")]).unwrap();
    assert!(matches!(e.value_at(0, VariableType::Integer), Ok(VariableTypeValue::Integer(12))));
    assert!(e.value_at(1, VariableType::Integer).is_err());
    assert!(e.value_at(1, VariableType::Float).is_err());
    assert!(matches!(e.value_at(2, VariableType::Float), Ok(VariableTypeValue::Float(_))));
    assert_eq!(text_of(e.value_at(1, VariableType::String).unwrap()), "x");
    assert!(EnumRule::new(Vec::new()).is_err());
}

#[test]
fn enum_file_matches_inline_enum() {
    let file = EnumFileRule::from_text("alpha\r\nbeta\n\ngamma\n").unwrap();
    let inline = EnumRule::construct(String::from("enum(alpha,beta,gamma)")).unwrap();
    assert_eq!(file.entries(), inline.entries());
    assert_eq!(file.entries().len(), 3);
    let rule = construct_from_str("enum_file(names.txt)", Some(String::from("alpha\nbeta\ngamma"))).unwrap();
    for _ in 0..30 {
        let s = text_of(rule.generate_into(VariableType::String).unwrap());
        assert!(inline.entries().contains(&s));
    }
}

#[test]
fn parentheses_are_removed() {
    let args = remove_parentheses(&String::from("foo(var1,var2,var3)")).unwrap();
    assert_eq!(args, vec!["var1", "var2", "var3"]);
    assert_eq!(remove_parentheses(&String::from("foo()")).unwrap(), vec![""]);
    assert!(remove_parentheses(&String::from("foo")).is_err());
    assert!(remove_parentheses(&String::from("foo(a")).is_err());
    assert!(remove_parentheses(&String::from("foo)a(")).is_err());
}

#[test]
fn type_names_are_looked_up() {
    assert_eq!(variable_type_from_str("int"), Ok(VariableType::Integer));
    assert_eq!(variable_type_from_str("float"), Ok(VariableType::Float));
    assert_eq!(variable_type_from_str("varchar"), Ok(VariableType::String));
    assert_eq!(variable_type_from_str("enum"), Ok(VariableType::String));
    assert_eq!(variable_type_from_str("date"), Ok(VariableType::Date));
    assert_eq!(variable_type_from_str("INT"), Err(()));
    assert_eq!(variable_type_from_str("bigint"), Err(()));
}

#[test]
fn integer_text_is_read_as_std_reads_it() {
    for t in ["0", "+5", "-17", "007", "9223372036854775807", "-9223372036854775808", "9223372036854775808",
        "-9223372036854775809", "", "-", "+", "1_0", " 1", "1 ", "12a", "99999999999999999999999x", "--1"] {
        assert_eq!(parse_i64(t), t.parse::<i64>().ok(), "{:?}", t);
    }
}

#[test]
fn decimal_text_is_written_as_std_writes_it() {
    for v in [0i64, 7, 10, -1, -10, 1234567890, i64::MAX, i64::MIN, i64::MIN + 1] {
        assert_eq!(decimal_string(v), v.to_string());
    }
}
