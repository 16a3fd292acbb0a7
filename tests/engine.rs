use data_faker::configuration::{ConfigError, FakerConfiguration, GenerationError, Record};
use data_faker::definitions::{GenerateRule, VariableType, VariableTypeValue};
use data_faker::engine::{merge_shares, partition, BatchError, FakerEngine};
use data_faker::rules::Rule;

const SCENARIO: &str = "id||int||increase(1,1)\nname||string||enum(alice,bob)\n";

fn ids(batch: &[Record]) -> Vec<i64> {
    let mut out: Vec<i64> = batch
        .iter()
        .map(|r| match &r.fields[0].1 {
            VariableTypeValue::Integer(v) => *v,
            other => panic!("not an integer: {:?}", other),
        })
        .collect();
    out.sort();
    out
}

#[test]
fn end_to_end_scenario() {
    let config = FakerConfiguration::from_text(SCENARIO, &Vec::new()).unwrap();
    let engine = FakerEngine::new(config, 2).unwrap();
    let batch = engine.generate_batch(5).unwrap();
    assert_eq!(batch.len(), 5);
    assert_eq!(ids(&batch), vec![1, 2, 3, 4, 5]);
    for r in &batch {
        assert_eq!(r.fields.len(), 2);
        assert_eq!(r.fields[0].0, "id");
        assert_eq!(r.fields[1].0, "name");
        match &r.fields[1].1 {
            VariableTypeValue::String(s) => assert!(s == "alice" || s == "bob"),
            other => panic!("not text: {:?}", other),
        }
    }
}

#[test]
fn batch_has_requested_size() {
    for &w in &[1, 2, 3, 8] {
        for &n in &[0u64, 1, 5, 7, 100] {
            let config = FakerConfiguration::from_text(SCENARIO, &Vec::new()).unwrap();
            let engine = FakerEngine::new(config, w).unwrap();
            let batch = engine.generate_batch(n).unwrap();
            assert_eq!(batch.len() as u64, n);
            let expected: Vec<i64> = (1..=n as i64).collect();
            assert_eq!(ids(&batch), expected);
        }
    }
}

#[test]
fn counter_under_contention_has_no_gaps() {
    let config = FakerConfiguration::from_text("id||int||increase(10,5)", &Vec::new()).unwrap();
    let engine = FakerEngine::new(config, 6).unwrap();
    let batch = engine.generate_batch(600).unwrap();
    let expected: Vec<i64> = (0..600).map(|i| 10 + 5 * i).collect();
    assert_eq!(ids(&batch), expected);
}

#[test]
fn non_positive_worker_count_is_refused() {
    let config = FakerConfiguration::from_text(SCENARIO, &Vec::new()).unwrap();
    assert!(FakerEngine::new(config, 0).is_err());
    let config = FakerConfiguration::from_text(SCENARIO, &Vec::new()).unwrap();
    assert!(FakerEngine::new(config, -3).is_err());
}

#[test]
fn generation_error_fails_the_batch() {
    let config = FakerConfiguration::from_text("when||date||increase(1,1)", &Vec::new()).unwrap();
    let engine = FakerEngine::new(config, 3).unwrap();
    assert!(engine.generate_batch(10).is_err());
    let config = FakerConfiguration::from_text("n||int||enum(a,b)", &Vec::new()).unwrap();
    assert!(config.generate_record().is_err());
}

#[test]
fn partition_splits_exactly() {
    assert_eq!(partition(10, 3), vec![4, 3, 3]);
    assert_eq!(partition(5, 2), vec![3, 2]);
    assert_eq!(partition(0, 4), vec![0, 0, 0, 0]);
    assert_eq!(partition(7, 1), vec![7]);
    assert_eq!(partition(2, 5), vec![2, 0, 0, 0, 0]);
    let p = partition(1001, 7);
    assert_eq!(p.iter().sum::<u64>(), 1001);
}

#[test]
fn reading_twice_gives_independent_counters() {
    let a = FakerConfiguration::from_text(SCENARIO, &Vec::new()).unwrap();
    let b = FakerConfiguration::from_text(SCENARIO, &Vec::new()).unwrap();
    for _ in 0..3 {
        a.items[0].rule.generate_into(VariableType::Integer).unwrap();
    }
    assert!(matches!(b.items[0].rule.generate_into(VariableType::Integer), Ok(VariableTypeValue::Integer(1))));
    assert!(matches!(a.items[0].rule.generate_into(VariableType::Integer), Ok(VariableTypeValue::Integer(4))));
}

#[test]
fn configuration_skips_comments_and_keeps_order() {
    let text = "# fields\n  # indented comment\na||int||increase(0,2)\nb||float||enum(1.5)\nc||text||enum_file(n.txt)\n";
    let files = vec![(String::from("n.txt"), String::from("x\ny\n"))];
    let config = FakerConfiguration::from_text(text, &files).unwrap();
    assert_eq!(config.items.len(), 3);
    assert_eq!(config.items[0].var_name, "a");
    assert_eq!(config.items[1].var_type, VariableType::Float);
    assert!(matches!(config.items[2].rule, Rule::EnumFile(_)));
    let rec = config.generate_record().unwrap();
    assert!(matches!(rec.fields[0].1, VariableTypeValue::Integer(0)));
    assert!(matches!(&rec.fields[1].1, VariableTypeValue::Float(t) if t == "1.5"));
}

#[test]
fn configuration_errors_name_the_line() {
    let none = Vec::new();
    assert_eq!(FakerConfiguration::from_text("a||int\n", &none).err(), Some(ConfigError::Columns(1)));
    assert_eq!(
        FakerConfiguration::from_text("a||int||increase(1,1)\nb||long||increase(1,1)", &none).err(),
        Some(ConfigError::TypeName(2))
    );
    assert_eq!(
        FakerConfiguration::from_text("# c\na||int||increase(1)\nb||x||y", &none).err(),
        Some(ConfigError::Rule(2))
    );
    assert_eq!(
        FakerConfiguration::from_text("a||text||enum_file(gone.txt)", &none).err(),
        Some(ConfigError::Rule(1))
    );
    assert_eq!(FakerConfiguration::from_text("a||int||increase(1,1)\n\n", &none).err(), Some(ConfigError::Columns(2)));
}

fn record(id: i64) -> Record {
    Record { fields: vec![(String::from("id"), VariableTypeValue::Integer(id))] }
}

#[test]
fn merge_joins_parts_in_order() {
    let parts = vec![Some(Ok(vec![record(1), record(2)])), Some(Ok(vec![])), Some(Ok(vec![record(3)]))];
    let batch = merge_shares(parts, &vec![2, 0, 1]).unwrap();
    let got: Vec<i64> = batch
        .iter()
        .map(|r| match r.fields[0].1 {
            VariableTypeValue::Integer(v) => v,
            _ => panic!("not an integer"),
        })
        .collect();
    assert_eq!(got, vec![1, 2, 3]);
    assert_eq!(merge_shares(Vec::new(), &Vec::new()).unwrap().len(), 0);
}

#[test]
fn merge_fails_on_any_bad_part() {
    let err = GenerationError { field: 1, var_type: VariableType::Date };
    let parts = vec![Some(Ok(vec![record(1)])), Some(Err(err)), None];
    assert_eq!(merge_shares(parts, &vec![1, 1, 1]).err(), Some(BatchError::Generation(err)));
    let parts = vec![Some(Ok(vec![record(1)])), None, Some(Err(err))];
    assert_eq!(merge_shares(parts, &vec![1, 1, 1]).err(), Some(BatchError::Workers));
    let parts = vec![Some(Ok(vec![record(1)]))];
    assert_eq!(merge_shares(parts, &vec![1, 1]).err(), Some(BatchError::Workers));
}

#[test]
fn generation_error_names_field_and_type() {
    let config = FakerConfiguration::from_text("a||int||increase(1,1)\nb||date||increase(1,1)", &Vec::new()).unwrap();
    assert_eq!(config.generate_record().err(), Some(GenerationError { field: 1, var_type: VariableType::Date }));
    let engine = FakerEngine::new(config, 2).unwrap();
    assert_eq!(
        engine.generate_batch(4).err(),
        Some(BatchError::Generation(GenerationError { field: 1, var_type: VariableType::Date }))
    );
    assert_eq!(engine.workers(), 2);
}
