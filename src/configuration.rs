//! A configuration: the ordered fields of a record, and how one record is
//! assembled from them.

use vstd::prelude::*;
use crate::definitions::{
    GenerateRule, ValueModel, VariableType, VariableTypeValue, construct_from_str, descriptor_file_path,
    normalized, rule_of_descriptor, trim_of, trimmed, type_of_name, type_of_value,
    variable_type_from_str,
};
use crate::rules::{Rule, RuleModel, enum_file_path, lemma_enumeration_outcomes, rule_may_give};
use crate::text::{
    has_prefix, lines_of, same_text, split_at_bars, split_bars, starts_with, text_lines, views,
};

verus! {

/// One field: its name, its declared type and the rule that fills it.
#[derive(Debug)]
pub struct ConfigurationItem {
    pub var_name: String,
    pub var_type: VariableType,
    pub rule: Rule,
}

/// The fields of a record, in the order in which they are written.
#[derive(Debug)]
pub struct FakerConfiguration {
    pub items: Vec<ConfigurationItem>,
}

/// One generated record: a value for each field, in the configuration's
/// order, each with the field's name.
#[derive(Debug)]
pub struct Record {
    pub fields: Vec<(String, VariableTypeValue)>,
}

/// Whether `fields` is a record that `items` can produce: one entry per item,
/// in order, under the item's name, of the item's type, and one that the
/// item's rule can give.
pub open spec fn record_fits(items: Seq<ConfigurationItem>, fields: Seq<(String, VariableTypeValue)>) -> bool {
    &&& fields.len() == items.len()
    &&& forall|i: int|
        0 <= i < items.len() ==> {
            &&& (#[trigger] fields[i]).0@ == items[i].var_name@
            &&& type_of_value(fields[i].1@) == items[i].var_type
            &&& rule_may_give(items[i].rule@, items[i].var_type, Some(fields[i].1@))
        }
}

/// Why a record could not be generated: the rule of field number `field`
/// (from 0) could not give a value of type `var_type`.
#[derive(Debug, Clone, Copy, PartialEq, Eq, Structural)]
pub struct GenerationError {
    pub field: usize,
    pub var_type: VariableType,
}

/// Whether `e` names a field of `items`, with its declared type, whose rule
/// can fail when it is asked for that type.
pub open spec fn fails_at(items: Seq<ConfigurationItem>, e: GenerationError) -> bool {
    &&& e.field < items.len()
    &&& e.var_type == items[e.field as int].var_type
    &&& rule_may_give(items[e.field as int].rule@, e.var_type, None)
}

/// Whether every record of `records` is one that `items` can produce.
pub open spec fn all_fit(items: Seq<ConfigurationItem>, records: Seq<Record>) -> bool {
    forall|i: int| 0 <= i < records.len() ==> record_fits(items, (#[trigger] records[i]).fields@)
}

impl ConfigurationItem {
    /// A field named `var_name` of type `var_type`, filled by `rule`.
    pub fn new(var_name: String, var_type: VariableType, rule: Rule) -> (r: ConfigurationItem)
        ensures
            r.var_name@ == var_name@,
            r.var_type == var_type,
            r.rule@ == rule@,
    {
        ConfigurationItem { var_name, var_type, rule }
    }
}

impl FakerConfiguration {
    /// Reads a configuration text: one field per line as `name||type||rule`,
    /// lines whose trimmed text starts with `#` skipped. `files` pairs each
    /// path that an `enum_file` descriptor may name with what that file
    /// holds; a path that it lacks stands for a file that could not be read.
    /// The first line at fault refuses the whole text.
    pub fn from_text(text: &str, files: &Vec<(String, String)>) -> (r: Result<FakerConfiguration, ConfigError>)
        ensures
            match r {
                Ok(c) => config_result(text_lines(text@), files@) == Ok::<_, ConfigError>(items_model(c.items@)),
                Err(e) => config_result(text_lines(text@), files@) == Err::<Seq<(Seq<char>, VariableType, RuleModel)>, _>(e),
            },
    {
        let lines = lines_of(text);
        let ghost ls = views(lines@);
        let mut items: Vec<ConfigurationItem> = Vec::new();
        let mut i: usize = 0;
        assert(ls.subrange(0, 0) =~= Seq::<Seq<char>>::empty());
        assert(items_model(items@) =~= Seq::empty());
        while i < lines.len()
            invariant
                ls == views(lines@),
                ls == text_lines(text@),
                i <= lines@.len(),
                config_result(ls.subrange(0, i as int), files@) == Ok::<_, ConfigError>(items_model(items@)),
            decreases lines@.len() - i,
        {
            let line = lines[i].as_str();
            assert(line@ == ls[i as int]);
            let ghost pre = ls.subrange(0, i as int + 1);
            assert(pre.drop_last() =~= ls.subrange(0, i as int));
            assert(pre.last() == line@);
            let no = i + 1;
            match Self::read_line(line, no, files) {
                Err(e) => {
                    assert(config_result(pre, files@) == Err::<Seq<(Seq<char>, VariableType, RuleModel)>, _>(e));
                    proof {
                        lemma_error_stays(ls, files@, i as int + 1, ls.len() as int);
                        assert(ls.subrange(0, ls.len() as int) =~= ls);
                    }
                    return Err(e);
                },
                Ok(None) => {},
                Ok(Some(item)) => {
                    let ghost before = items@;
                    items.push(item);
                    assert(items_model(items@) =~= items_model(before).push(
                        (item.var_name@, item.var_type, item.rule@),
                    ));
                },
            }
            i = i + 1;
        }
        assert(ls.subrange(0, ls.len() as int) =~= ls);
        Ok(FakerConfiguration { items })
    }

    /// The paths that the `enum_file` descriptors of a configuration text
    /// name, in order: the files that `from_text` wants to be given.
    pub fn file_paths(text: &str) -> (r: Vec<String>)
        ensures
            views(r@) == paths_of(text_lines(text@)),
    {
        let lines = lines_of(text);
        let ghost ls = views(lines@);
        let mut out: Vec<String> = Vec::new();
        let mut i: usize = 0;
        assert(ls.subrange(0, 0) =~= Seq::<Seq<char>>::empty());
        while i < lines.len()
            invariant
                ls == views(lines@),
                i <= lines@.len(),
                views(out@) == paths_of(ls.subrange(0, i as int)),
            decreases lines@.len() - i,
        {
            let line = lines[i].as_str();
            assert(line@ == ls[i as int]);
            let ghost pre = ls.subrange(0, i as int + 1);
            assert(pre.drop_last() =~= ls.subrange(0, i as int));
            match Self::path_of_line(line) {
                Some(p) => {
                    let ghost before = out@;
                    out.push(p);
                    assert(views(out@) =~= views(before).push(p@)) by {
                        assert(out@ =~= before.push(p));
                    }
                },
                None => {},
            }
            i = i + 1;
        }
        assert(ls.subrange(0, ls.len() as int) =~= ls);
        out
    }

    /// The path that a configuration line names in an `enum_file` descriptor.
    fn path_of_line(line: &str) -> (r: Option<String>)
        ensures
            opt_text(r) == line_file_path(line@),
    {
        let t = trimmed(line);
        proof {
            reveal_strlit("#");
        }
        assert("#"@ =~= seq!['#']);
        if starts_with(t.as_str(), "#") {
            return None;
        }
        let cols = split_at_bars(line);
        if cols.len() != 3 {
            return None;
        }
        assert(views(cols@)[2] == cols@[2]@);
        descriptor_file_path(cols[2].as_str())
    }

    /// Reads line number `no` of a configuration text.
    fn read_line(line: &str, no: usize, files: &Vec<(String, String)>) -> (r: Result<Option<ConfigurationItem>, ConfigError>)
        ensures
            match r {
                Ok(Some(it)) => line_result(line@, no as int, files@) == Ok::<_, ConfigError>(Some((it.var_name@, it.var_type, it.rule@))),
                Ok(None) => line_result(line@, no as int, files@) == Ok::<Option<(Seq<char>, VariableType, RuleModel)>, ConfigError>(None),
                Err(e) => line_result(line@, no as int, files@) == Err::<Option<(Seq<char>, VariableType, RuleModel)>, _>(e),
            },
    {
        let t = trimmed(line);
        proof {
            reveal_strlit("#");
        }
        assert("#"@ =~= seq!['#']);
        if starts_with(t.as_str(), "#") {
            return Ok(None);
        }
        let cols = split_at_bars(line);
        if cols.len() != 3 {
            return Err(ConfigError::Columns(no));
        }
        assert(views(cols@)[1] == cols@[1]@ && views(cols@)[2] == cols@[2]@ && views(cols@)[0] == cols@[0]@);
        let var_type = match variable_type_from_str(cols[1].as_str()) {
            Ok(t) => t,
            Err(_) => {
                return Err(ConfigError::TypeName(no));
            },
        };
        let file_text = match descriptor_file_path(cols[2].as_str()) {
            Some(p) => lookup_file(files, p.as_str()),
            None => None,
        };
        assert(opt_text(file_text) == file_for(cols@[2]@, files@));
        let rule = match construct_from_str(cols[2].as_str(), file_text) {
            Ok(rule) => rule,
            Err(_) => {
                return Err(ConfigError::Rule(no));
            },
        };
        Ok(Some(ConfigurationItem { var_name: cols[0].clone(), var_type, rule }))
    }

    /// A configuration of `items`, in that order.
    pub fn new(items: Vec<ConfigurationItem>) -> (r: FakerConfiguration)
        ensures
            r.items@ == items@,
    {
        FakerConfiguration { items }
    }

    /// Assembles one record: each item's rule is asked once, in order, for a
    /// value of the item's type. The first failure fails the whole record.
    pub fn generate_record(&self) -> (r: Result<Record, GenerationError>)
        ensures
            match r {
                Ok(rec) => record_fits(self.items@, rec.fields@),
                Err(e) => fails_at(self.items@, e),
            },
    {
        let n = self.items.len();
        let mut fields: Vec<(String, VariableTypeValue)> = Vec::new();
        let mut i: usize = 0;
        while i < n
            invariant
                n == self.items@.len(),
                i <= n,
                record_fits(self.items@.subrange(0, i as int), fields@),
            decreases n - i,
        {
            let item = &self.items[i];
            let v = item.rule.generate_into(item.var_type);
            match v {
                Ok(value) => {
                    let ghost before = fields@;
                    fields.push((item.var_name.clone(), value));
                    assert(record_fits(self.items@.subrange(0, i as int + 1), fields@)) by {
                        assert forall|j: int| 0 <= j < i + 1 implies {
                            &&& (#[trigger] fields@[j]).0@ == self.items@.subrange(
                                0,
                                i as int + 1,
                            )[j].var_name@
                            &&& type_of_value(fields@[j].1@) == self.items@.subrange(
                                0,
                                i as int + 1,
                            )[j].var_type
                            &&& rule_may_give(
                                self.items@.subrange(0, i as int + 1)[j].rule@,
                                self.items@.subrange(0, i as int + 1)[j].var_type,
                                Some(fields@[j].1@),
                            )
                        } by {
                            if j < i {
                                assert(fields@[j] == before[j]);
                                assert(self.items@.subrange(0, i as int)[j] == self.items@[j]);
                            }
                        }
                    }
                },
                Err(_) => {
                    assert(rule_may_give(self.items@[i as int].rule@, self.items@[i as int].var_type, None));
                    return Err(GenerationError { field: i, var_type: item.var_type });
                },
            }
            i = i + 1;
        }
        assert(self.items@.subrange(0, n as int) =~= self.items@);
        Ok(Record { fields })
    }

    /// Assembles `count` records, one after the other; the first failure fails
    /// them all.
    pub fn generate_records(&self, count: u64) -> (r: Result<Vec<Record>, GenerationError>)
        ensures
            match r {
                Ok(v) => v@.len() == count && all_fit(self.items@, v@),
                Err(e) => fails_at(self.items@, e),
            },
    {
        let mut out: Vec<Record> = Vec::new();
        let mut i: u64 = 0;
        while i < count
            invariant
                i <= count,
                out@.len() == i,
                all_fit(self.items@, out@),
            decreases count - i,
        {
            let rec = self.generate_record()?;
            out.push(rec);
            i = i + 1;
        }
        Ok(out)
    }
}

/// Why a configuration text was refused, with the number (from 1) of the
/// line at fault.
#[derive(Debug, Clone, Copy, PartialEq, Eq, Structural)]
pub enum ConfigError {
    /// The line does not have exactly three `||`-separated columns.
    Columns(usize),
    /// The type name in the second column is unknown.
    TypeName(usize),
    /// The rule descriptor in the third column is unknown or malformed, or
    /// names a file that could not be read or holds no non-empty line.
    Rule(usize),
}

/// What the first entry of `files` whose path is `p` holds.
pub open spec fn file_lookup(files: Seq<(String, String)>, p: Seq<char>) -> Option<Seq<char>>
    decreases files.len(),
{
    if files.len() == 0 {
        None
    } else if files[0].0@ == p {
        Some(files[0].1@)
    } else {
        file_lookup(files.drop_first(), p)
    }
}

/// What the file that descriptor `d` names holds, where it is an `enum_file`
/// descriptor and `files` has that file.
pub open spec fn file_for(d: Seq<char>, files: Seq<(String, String)>) -> Option<Seq<char>> {
    if has_prefix(normalized(d), seq!['e', 'n', 'u', 'm', '_', 'f', 'i', 'l', 'e', '(']) {
        match enum_file_path(normalized(d)) {
            Some(p) => file_lookup(files, p),
            None => None,
        }
    } else {
        None
    }
}

/// What line number `no` of a configuration text gives: nothing for a
/// comment (its trimmed text starts with `#`), else the field that its three
/// columns `name||type||rule` describe.
pub open spec fn line_result(line: Seq<char>, no: int, files: Seq<(String, String)>) -> Result<
    Option<(Seq<char>, VariableType, RuleModel)>,
    ConfigError,
> {
    let cols = split_bars(line);
    if has_prefix(trim_of(line), seq!['#']) {
        Ok(None)
    } else if cols.len() != 3 {
        Err(ConfigError::Columns(no as usize))
    } else {
        match type_of_name(cols[1]) {
            None => Err(ConfigError::TypeName(no as usize)),
            Some(t) => match rule_of_descriptor(normalized(cols[2]), file_for(cols[2], files)) {
                None => Err(ConfigError::Rule(no as usize)),
                Some(r) => Ok(Some((cols[0], t, r))),
            },
        }
    }
}

/// The fields that `lines` describe, or the error of the first line at fault.
pub open spec fn config_result(lines: Seq<Seq<char>>, files: Seq<(String, String)>) -> Result<
    Seq<(Seq<char>, VariableType, RuleModel)>,
    ConfigError,
>
    decreases lines.len(),
{
    if lines.len() == 0 {
        Ok(Seq::empty())
    } else {
        match config_result(lines.drop_last(), files) {
            Err(e) => Err(e),
            Ok(items) => match line_result(lines.last(), lines.len() as int, files) {
                Err(e) => Err(e),
                Ok(None) => Ok(items),
                Ok(Some(it)) => Ok(items.push(it)),
            },
        }
    }
}

/// The content of a configuration's items.
pub open spec fn items_model(items: Seq<ConfigurationItem>) -> Seq<(Seq<char>, VariableType, RuleModel)> {
    Seq::new(items.len(), |i: int| (items[i].var_name@, items[i].var_type, items[i].rule@))
}

/// Once a prefix of the lines is refused, so is every longer one, with the
/// same error.
proof fn lemma_error_stays(lines: Seq<Seq<char>>, files: Seq<(String, String)>, j: int, k: int)
    requires
        0 <= j <= k <= lines.len(),
        config_result(lines.subrange(0, j), files) is Err,
    ensures
        config_result(lines.subrange(0, k), files) == config_result(lines.subrange(0, j), files),
    decreases k - j,
{
    if k > j {
        lemma_error_stays(lines, files, j, k - 1);
        assert(lines.subrange(0, k).drop_last() =~= lines.subrange(0, k - 1));
    }
}

/// The text of the first entry of `files` whose path is `p`.
fn lookup_file(files: &Vec<(String, String)>, p: &str) -> (r: Option<String>)
    ensures
        opt_text(r) == file_lookup(files@, p@),
{
    let mut i: usize = 0;
    assert(files@.subrange(0, files@.len() as int) =~= files@);
    while i < files.len()
        invariant
            i <= files@.len(),
            file_lookup(files@.subrange(i as int, files@.len() as int), p@) == file_lookup(files@, p@),
        decreases files@.len() - i,
    {
        let ghost rest = files@.subrange(i as int, files@.len() as int);
        assert(rest.drop_first() =~= files@.subrange(i as int + 1, files@.len() as int));
        assert(rest[0] == files@[i as int]);
        if same_text(files[i].0.as_str(), p) {
            return Some(files[i].1.clone());
        }
        i = i + 1;
    }
    assert(files@.subrange(i as int, files@.len() as int).len() == 0);
    None
}

/// The view of an optional text.
pub open spec fn opt_text(t: Option<String>) -> Option<Seq<char>> {
    match t {
        Some(x) => Some(x@),
        None => None,
    }
}

/// The path that line `line` names in an `enum_file` descriptor, if any.
pub open spec fn line_file_path(line: Seq<char>) -> Option<Seq<char>> {
    let cols = split_bars(line);
    if has_prefix(trim_of(line), seq!['#']) || cols.len() != 3 {
        None
    } else if has_prefix(normalized(cols[2]), seq!['e', 'n', 'u', 'm', '_', 'f', 'i', 'l', 'e', '(']) {
        enum_file_path(normalized(cols[2]))
    } else {
        None
    }
}

/// The paths that `lines` name in `enum_file` descriptors, in order.
pub open spec fn paths_of(lines: Seq<Seq<char>>) -> Seq<Seq<char>>
    decreases lines.len(),
{
    if lines.len() == 0 {
        Seq::empty()
    } else {
        match line_file_path(lines.last()) {
            Some(p) => paths_of(lines.drop_last()).push(p),
            None => paths_of(lines.drop_last()),
        }
    }
}

/// Reading the same configuration text with the same files twice gives two
/// configurations of the same content: the same fields, types and rules, so
/// their counters start at the same value and advance by the same step.
/// Each holds rules of its own, so drawing from one leaves the other as it
/// was.
pub proof fn lemma_reading_repeatable(
    text: Seq<char>,
    files: Seq<(String, String)>,
    a: FakerConfiguration,
    b: FakerConfiguration,
)
    requires
        config_result(text_lines(text), files) == Ok::<_, ConfigError>(items_model(a.items@)),
        config_result(text_lines(text), files) == Ok::<_, ConfigError>(items_model(b.items@)),
    ensures
        a.items@.len() == b.items@.len(),
        forall|i: int|
            0 <= i < a.items@.len() ==> (#[trigger] a.items@[i]).var_name@ == b.items@[i].var_name@
                && a.items@[i].var_type == b.items@[i].var_type && a.items@[i].rule@
                == b.items@[i].rule@,
{
    assert(items_model(a.items@).len() == a.items@.len());
    assert(items_model(b.items@).len() == b.items@.len());
    assert forall|i: int| 0 <= i < a.items@.len() implies (#[trigger] a.items@[i]).var_name@
        == b.items@[i].var_name@ && a.items@[i].var_type == b.items@[i].var_type
        && a.items@[i].rule@ == b.items@[i].rule@ by {
        assert(items_model(a.items@)[i] == items_model(b.items@)[i]);
    }
}

/// In every record of a batch that `items` can produce, a text field filled
/// by an inline enumeration holds one of its literals, verbatim.
pub proof fn lemma_enum_text_fields(items: Seq<ConfigurationItem>, records: Seq<Record>, i: int)
    requires
        all_fit(items, records),
        0 <= i < items.len(),
        items[i].var_type == VariableType::String,
        items[i].rule@ is Enum,
    ensures
        forall|k: int|
            0 <= k < records.len() ==> (#[trigger] records[k].fields@[i].1@ matches ValueModel::Text(
                x,
            ) && items[i].rule@->Enum_0.contains(x)),
{
    assert forall|k: int| 0 <= k < records.len() implies (#[trigger] records[k].fields@[i].1@ matches ValueModel::Text(
        x,
    ) && items[i].rule@->Enum_0.contains(x)) by {
        assert(record_fits(items, records[k].fields@));
        let f = records[k].fields@[i];
        assert(rule_may_give(items[i].rule@, items[i].var_type, Some(f.1@)));
        lemma_enumeration_outcomes(items[i].rule@->Enum_0, VariableType::String, Some(f.1@));
    }
}

} // verus!
