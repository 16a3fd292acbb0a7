//! The value model shared by the rules, and the argument syntax of rule
//! descriptors.

use vstd::prelude::*;
use crate::rules::{
    EnumFileRule, EnumRule, IncreaseRule, Rule, RuleModel, enum_args, rule_may_give,
    enum_file_path, increase_args,
};
use crate::text::{has_prefix, non_empty_lines, starts_with, join_commas, lacks, lemma_join_lacks,
    lemma_split_join, lemma_keep_non_empty, raw_lines,
    find_char, first_index_of, lemma_split_char_nonempty, split_at_char, split_char, views, same_text, i64_literal,
    float_literal,
};

verus! {

/// The two shapes a record can be written in.
#[derive(Debug, Clone, Copy, PartialEq, Eq, Structural)]
pub enum OutPutType {
    Json,
    Csv,
}

/// The closed set of semantic field types.
///
/// `Integer` stands for int-like column types, `Float` for real-like ones,
/// `String` for character and enumeration types and `Date` for date and time
/// types.
#[derive(Debug, Clone, Copy, PartialEq, Eq, Structural)]
pub enum VariableType {
    Integer,
    Float,
    String,
    Date,
}

/// A calendar date and time of day, in UTC.
#[derive(Debug, Clone, Copy, PartialEq, Eq, Structural)]
pub struct DateTimeValue {
    pub year: i32,
    pub month: u32,
    pub day: u32,
    pub hour: u32,
    pub minute: u32,
    pub second: u32,
}

/// One generated value, tagged with the type it was generated for.
///
/// A `Float` carries the literal text it was read from; that text is
/// accepted as an `f64` (see `text::float_literal`).
#[derive(Debug, Clone)]
pub enum VariableTypeValue {
    Integer(i64),
    Float(String),
    String(String),
    Date(DateTimeValue),
}

/// The mathematical content of a `VariableTypeValue`.
pub ghost enum ValueModel {
    Integer(int),
    Float(Seq<char>),
    Text(Seq<char>),
    Date(DateTimeValue),
}

impl View for VariableTypeValue {
    type V = ValueModel;

    open spec fn view(&self) -> ValueModel {
        match self {
            VariableTypeValue::Integer(v) => ValueModel::Integer(*v as int),
            VariableTypeValue::Float(t) => ValueModel::Float(t@),
            VariableTypeValue::String(t) => ValueModel::Text(t@),
            VariableTypeValue::Date(d) => ValueModel::Date(*d),
        }
    }
}

/// The type a value is tagged with.
pub open spec fn type_of_value(v: ValueModel) -> VariableType {
    match v {
        ValueModel::Integer(_) => VariableType::Integer,
        ValueModel::Float(_) => VariableType::Float,
        ValueModel::Text(_) => VariableType::String,
        ValueModel::Date(_) => VariableType::Date,
    }
}

/// The content of a generation result: `None` stands for an error.
pub open spec fn outcome(r: Result<VariableTypeValue, ()>) -> Option<ValueModel> {
    match r {
        Ok(v) => Some(v@),
        Err(_) => None,
    }
}

/// A rule that can be read from the text of its descriptor.
pub trait ConstructRule: Sized + View {
    /// What descriptor `s` constructs, as the rule's view; `None` where the
    /// descriptor is refused.
    spec fn constructed_from(s: Seq<char>) -> Option<Self::V>;

    /// Builds the rule that descriptor `s` describes.
    fn construct(s: String) -> (r: Result<Box<Self>, ()>)
        ensures
            match r {
                Ok(b) => Self::constructed_from(s@) == Some(b@),
                Err(_) => Self::constructed_from(s@) is None,
            },
    ;
}

/// A rule that produces values of the field types on demand.
pub trait GenerateRule {
    /// Whether `m` is one of the outcomes (`None`: an error) that asking the
    /// rule for type `t` can have.
    spec fn may_give(&self, t: VariableType, m: Option<ValueModel>) -> bool;

    /// Produces a value of type `into_type`, or fails where the rule cannot.
    fn generate_into(&self, into_type: VariableType) -> (r: Result<VariableTypeValue, ()>)
        ensures
            self.may_give(into_type, outcome(r)),
            r matches Ok(v) ==> type_of_value(v@) == into_type,
    ;
}

/// The value that an enumeration literal gives when it is asked for as type
/// `t`, or `None` where it cannot be read as that type.
pub open spec fn literal_outcome(lit: Seq<char>, t: VariableType) -> Option<ValueModel> {
    match t {
        VariableType::Integer => match i64_literal(lit) {
            Some(v) => Some(ValueModel::Integer(v as int)),
            None => None,
        },
        VariableType::Float => if float_literal(lit) {
            Some(ValueModel::Float(lit))
        } else {
            None
        },
        VariableType::String => Some(ValueModel::Text(lit)),
        VariableType::Date => None,
    }
}

/// The arguments of `name(a,b,...)`: the text between the first `(` and the
/// first `)`, split at each `,`. `None` where either is missing or the `)`
/// comes first.
pub open spec fn parenthesized_args(s: Seq<char>) -> Option<Seq<Seq<char>>> {
    match (first_index_of(s, '('), first_index_of(s, ')')) {
        (Some(l), Some(r)) => if l < r {
            Some(split_char(s.subrange(l + 1, r), ','))
        } else {
            None
        },
        _ => None,
    }
}

/// Turns `foo(var1,var2,var3)` into `[var1, var2, var3]`. Nested parentheses
/// and escaped commas are not supported.
pub fn remove_parentheses(s: &String) -> (r: Result<Vec<String>, ()>)
    ensures
        match r {
            Ok(args) => parenthesized_args(s@) == Some(views(args@)) && args@.len() >= 1,
            Err(_) => parenthesized_args(s@) is None,
        },
{
    let t = s.as_str();
    let left = match find_char(t, '(') {
        None => {
            return Err(());
        },
        Some(i) => i,
    };
    let right = match find_char(t, ')') {
        None => {
            return Err(());
        },
        Some(i) => i,
    };
    if right < left {
        return Err(());
    }
    let inner = t.substring_char(left + 1, right);
    proof {
        lemma_split_char_nonempty(inner@, ',');
    }
    Ok(split_at_char(inner, ','))
}

/// The type that a configuration's type name stands for.
pub open spec fn type_of_name(s: Seq<char>) -> Option<VariableType> {
    if s == seq!['i', 'n', 't'] {
        Some(VariableType::Integer)
    } else if s == seq!['d', 'a', 't', 'e'] {
        Some(VariableType::Date)
    } else if s == seq!['c', 'h', 'a', 'r'] || s == seq!['v', 'a', 'r', 'c', 'h', 'a', 'r'] || s
        == seq!['t', 'e', 'x', 't'] || s == seq!['e', 'n', 'u', 'm'] || s == seq![
        's',
        't',
        'r',
        'i',
        'n',
        'g',
    ] {
        Some(VariableType::String)
    } else if s == seq!['f', 'l', 'o', 'a', 't'] {
        Some(VariableType::Float)
    } else {
        None
    }
}

/// Maps a configuration's type name to its type; unknown names are an error.
pub fn variable_type_from_str(s: &str) -> (r: Result<VariableType, ()>)
    ensures
        match r {
            Ok(t) => type_of_name(s@) == Some(t),
            Err(_) => type_of_name(s@) is None,
        },
{
    proof {
        reveal_strlit("int");
        reveal_strlit("date");
        reveal_strlit("char");
        reveal_strlit("varchar");
        reveal_strlit("text");
        reveal_strlit("enum");
        reveal_strlit("string");
        reveal_strlit("float");
    }
    assert("int"@ =~= seq!['i', 'n', 't']);
    assert("date"@ =~= seq!['d', 'a', 't', 'e']);
    assert("char"@ =~= seq!['c', 'h', 'a', 'r']);
    assert("varchar"@ =~= seq!['v', 'a', 'r', 'c', 'h', 'a', 'r']);
    assert("text"@ =~= seq!['t', 'e', 'x', 't']);
    assert("enum"@ =~= seq!['e', 'n', 'u', 'm']);
    assert("string"@ =~= seq!['s', 't', 'r', 'i', 'n', 'g']);
    assert("float"@ =~= seq!['f', 'l', 'o', 'a', 't']);
    if same_text(s, "int") {
        Ok(VariableType::Integer)
    } else if same_text(s, "date") {
        Ok(VariableType::Date)
    } else if same_text(s, "char") || same_text(s, "varchar") || same_text(s, "text")
        || same_text(s, "enum") || same_text(s, "string") {
        Ok(VariableType::String)
    } else if same_text(s, "float") {
        Ok(VariableType::Float)
    } else {
        Err(())
    }
}

/// Whether `c` has Unicode's White_Space property, which `char::is_whitespace`
/// and `str::trim` go by.
pub open spec fn is_white_space(c: char) -> bool {
    ||| '\u{9}' <= c <= '\u{d}'
    ||| c == ' '
    ||| c == '\u{85}'
    ||| c == '\u{a0}'
    ||| c == '\u{1680}'
    ||| '\u{2000}' <= c <= '\u{200a}'
    ||| c == '\u{2028}'
    ||| c == '\u{2029}'
    ||| c == '\u{202f}'
    ||| c == '\u{205f}'
    ||| c == '\u{3000}'
}

/// `s` without its leading white space.
pub open spec fn trim_start_of(s: Seq<char>) -> Seq<char>
    decreases s.len(),
{
    if s.len() > 0 && is_white_space(s[0]) {
        trim_start_of(s.drop_first())
    } else {
        s
    }
}

/// `s` without its trailing white space.
pub open spec fn trim_end_of(s: Seq<char>) -> Seq<char>
    decreases s.len(),
{
    if s.len() > 0 && is_white_space(s.last()) {
        trim_end_of(s.drop_last())
    } else {
        s
    }
}

/// `s` without its leading and trailing white space.
pub open spec fn trim_of(s: Seq<char>) -> Seq<char> {
    trim_end_of(trim_start_of(s))
}

/// The text in lower case, as `str::to_lowercase` gives it.
pub uninterp spec fn lower_of(s: Seq<char>) -> Seq<char>;

/// `s` with each ASCII capital replaced by its small letter.
pub open spec fn ascii_lower(s: Seq<char>) -> Seq<char> {
    Seq::new(
        s.len(),
        |i: int|
            if 'A' <= s[i] <= 'Z' {
                ((s[i] as u32) + 32) as char
            } else {
                s[i]
            },
    )
}

/// Relies on `str::trim`: the text without leading and trailing characters
/// that have the White_Space property.
#[verifier::external_body]
pub(crate) fn trimmed(s: &str) -> (r: String)
    ensures
        r@ == trim_of(s@),
{
    s.trim().to_string()
}

/// Relies on `str::to_lowercase`: the lower-case form of the text, a function
/// of the text alone; on ASCII text it changes the capitals `A` to `Z` into
/// `a` to `z` and keeps every other character.
#[verifier::external_body]
fn lowercased(s: &str) -> (r: String)
    ensures
        r@ == lower_of(s@),
        (forall|i: int| 0 <= i < s@.len() ==> (s@[i] as u32) < 128) ==> r@ == ascii_lower(s@),
{
    s.to_lowercase()
}

/// The form in which a descriptor is matched: trimmed, then in lower case.
pub open spec fn normalized(s: Seq<char>) -> Seq<char> {
    lower_of(trim_of(s))
}

/// The content of a rule result: `None` stands for an error.
pub open spec fn rule_outcome(r: Result<Rule, ()>) -> Option<RuleModel> {
    match r {
        Ok(rule) => Some(rule@),
        Err(_) => None,
    }
}

/// The rule that normalized descriptor `s` describes, where `file` is what
/// the file named by an `enum_file` descriptor holds (`None`: unreadable).
/// The prefixes do not overlap: `enum(` is not a prefix of `enum_file(`.
pub open spec fn rule_of_descriptor(s: Seq<char>, file: Option<Seq<char>>) -> Option<RuleModel> {
    if has_prefix(s, seq!['i', 'n', 'c', 'r', 'e', 'a', 's', 'e', '(']) {
        match increase_args(s) {
            Some((a, b)) => Some(RuleModel::Increase(a as int, b as int)),
            None => None,
        }
    } else if has_prefix(s, seq!['e', 'n', 'u', 'm', '(']) {
        match enum_args(s) {
            Some(e) => Some(RuleModel::Enum(e)),
            None => None,
        }
    } else if has_prefix(s, seq!['e', 'n', 'u', 'm', '_', 'f', 'i', 'l', 'e', '(']) {
        match (enum_file_path(s), file) {
            (Some(_), Some(t)) => if non_empty_lines(t).len() > 0 {
                Some(RuleModel::EnumFile(non_empty_lines(t)))
            } else {
                None
            },
            _ => None,
        }
    } else {
        None
    }
}

/// The view of an optional text.
pub open spec fn opt_view(t: Option<String>) -> Option<Seq<char>> {
    match t {
        Some(x) => Some(x@),
        None => None,
    }
}

/// Builds the rule of an already normalized descriptor; `file_text` is what
/// the file named by an `enum_file` descriptor holds, `None` where it could
/// not be read.
pub fn construct_normalized(s: &str, file_text: Option<String>) -> (r: Result<Rule, ()>)
    ensures
        rule_outcome(r) == rule_of_descriptor(s@, opt_view(file_text)),
{
    proof {
        reveal_strlit("increase(");
        reveal_strlit("enum(");
        reveal_strlit("enum_file(");
    }
    assert("increase("@ =~= seq!['i', 'n', 'c', 'r', 'e', 'a', 's', 'e', '(']);
    assert("enum("@ =~= seq!['e', 'n', 'u', 'm', '(']);
    assert("enum_file("@ =~= seq!['e', 'n', 'u', 'm', '_', 'f', 'i', 'l', 'e', '(']);
    let owned = String::from_str(s);
    if starts_with(s, "increase(") {
        match IncreaseRule::construct(owned) {
            Ok(b) => Ok(Rule::Increase(*b)),
            Err(_) => Err(()),
        }
    } else if starts_with(s, "enum(") {
        match EnumRule::construct(owned) {
            Ok(b) => Ok(Rule::Enum(*b)),
            Err(_) => Err(()),
        }
    } else if starts_with(s, "enum_file(") {
        match EnumFileRule::construct(owned, file_text) {
            Ok(b) => Ok(Rule::EnumFile(*b)),
            Err(_) => Err(()),
        }
    } else {
        Err(())
    }
}

/// Recognizes a descriptor (`increase(start,step)`, `enum(a,b,...)` or
/// `enum_file(path)`, in any case and with white space around it) and builds
/// its rule; `file_text` is what the file named by an `enum_file` descriptor
/// holds, `None` where it could not be read.
pub fn construct_from_str(config_str: &str, file_text: Option<String>) -> (r: Result<Rule, ()>)
    ensures
        rule_outcome(r) == rule_of_descriptor(normalized(config_str@), opt_view(file_text)),
{
    let t = trimmed(config_str);
    let s = lowercased(t.as_str());
    construct_normalized(s.as_str(), file_text)
}

/// The path that a descriptor names, when it is an `enum_file` descriptor
/// whose argument list holds one argument.
pub fn descriptor_file_path(config_str: &str) -> (r: Option<String>)
    ensures
        match r {
            Some(p) => has_prefix(
                normalized(config_str@),
                seq!['e', 'n', 'u', 'm', '_', 'f', 'i', 'l', 'e', '('],
            ) && enum_file_path(normalized(config_str@)) == Some(p@),
            None => !has_prefix(
                normalized(config_str@),
                seq!['e', 'n', 'u', 'm', '_', 'f', 'i', 'l', 'e', '('],
            ) || enum_file_path(normalized(config_str@)) is None,
        },
{
    let t = trimmed(config_str);
    let s = lowercased(t.as_str());
    proof {
        reveal_strlit("enum_file(");
    }
    assert("enum_file("@ =~= seq!['e', 'n', 'u', 'm', '_', 'f', 'i', 'l', 'e', '(']);
    if !starts_with(s.as_str(), "enum_file(") {
        return None;
    }
    match remove_parentheses(&s) {
        Ok(args) => if args.len() == 1 {
            assert(views(args@)[0] == args@[0]@);
            Some(args[0].clone())
        } else {
            None
        },
        Err(_) => None,
    }
}

/// The inline descriptor `enum(l1,l2,...)` that lists the members of `l`.
pub open spec fn enum_descriptor(l: Seq<Seq<char>>) -> Seq<char> {
    seq!['e', 'n', 'u', 'm', '('] + join_commas(l) + seq![')']
}

/// A file-backed enumeration read from `text` and the inline enumeration
/// whose descriptor lists the same non-empty lines as literal arguments hold
/// the same literals, and so give the same values: for every type asked for,
/// the same outcomes. The inline form cannot list a literal that holds `,` or
/// `)`, so such lines are left out.
pub proof fn lemma_file_matches_inline(text: Seq<char>)
    requires
        non_empty_lines(text).len() > 0,
        forall|i: int|
            0 <= i < non_empty_lines(text).len() ==> lacks(#[trigger] non_empty_lines(text)[i], ',')
                && lacks(non_empty_lines(text)[i], ')'),
    ensures
        rule_of_descriptor(enum_descriptor(non_empty_lines(text)), None) == Some(
            RuleModel::Enum(non_empty_lines(text)),
        ),
        forall|t: VariableType, m: Option<ValueModel>|
            rule_may_give(RuleModel::EnumFile(non_empty_lines(text)), t, m) == rule_may_give(
                RuleModel::Enum(non_empty_lines(text)),
                t,
                m,
            ),
{
    let l = non_empty_lines(text);
    let d = enum_descriptor(l);
    let j = join_commas(l);
    lemma_keep_non_empty(raw_lines(text));
    lemma_split_join(l);
    lemma_join_lacks(l, ')');
    let n = d.len();
    assert(d[0] == 'e' && d[1] == 'n' && d[2] == 'u' && d[3] == 'm' && d[4] == '(');
    assert(d[n - 1] == ')');
    assert(!has_prefix(d, seq!['i', 'n', 'c', 'r', 'e', 'a', 's', 'e', '('])) by {
        if n >= 9 {
            assert(d.subrange(0, 9)[0] != seq!['i', 'n', 'c', 'r', 'e', 'a', 's', 'e', '('][0]);
        }
    }
    assert(d.subrange(0, 5) =~= seq!['e', 'n', 'u', 'm', '(']);
    assert(first_index_of(d, '(') == Some(4int)) by {
        reveal(first_index_of);
        let i = choose|i: int| 0 <= i < d.len() && d[i] == '(' && forall|k: int| 0 <= k < i ==> d[k] != '(';
        assert(0 <= 4 < d.len() && d[4] == '(');
        if i > 4 {
            assert(d[4] != '(');
        }
    }
    assert(first_index_of(d, ')') == Some(n - 1)) by {
        reveal(first_index_of);
        assert(0 <= n - 1 < d.len() && d[n - 1] == ')');
        assert forall|k: int| 0 <= k < n - 1 implies d[k] != ')' by {
            if k >= 5 {
                assert(d[k] == j[k - 5]);
            }
        }
        let i = choose|i: int| 0 <= i < d.len() && d[i] == ')' && forall|k: int| 0 <= k < i ==> d[k] != ')';
        if i < n - 1 {
            assert(d[i] != ')');
        }
        if i > n - 1 {
            assert(d[n - 1] != ')');
        }
    }
    assert(d.subrange(5, n - 1) =~= j);
    assert(l[0].len() > 0);
}

} // verus!
