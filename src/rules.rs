//! The three generation rules: an increasing counter and two enumerations.

use rand::Rng;
use std::sync::atomic::{AtomicU64, Ordering};
use vstd::prelude::*;
use crate::definitions::{
    ConstructRule, GenerateRule, ValueModel, VariableType, VariableTypeValue, literal_outcome,
    outcome, parenthesized_args, remove_parentheses,
};
use crate::text::{
    decimal_string, decimal_text, i64_literal, is_float_text, lemma_decimal_text_injective,
    non_empty_lines, non_empty_lines_of, parse_i64, views,
};

verus! {

/// The value a counter that starts at `start` and advances by `step` holds
/// after `k` draws.
pub open spec fn counter_value(start: int, step: int, k: int) -> int {
    start + k * step
}

/// What the draw numbered `k` of such a counter gives when asked for type
/// `t`: the counter's value as an integer or as its decimal text, and an
/// error for the other types or where the value leaves the `i64` range.
pub open spec fn increase_outcome(start: int, step: int, k: int, t: VariableType) -> Option<
    ValueModel,
> {
    let v = counter_value(start, step, k);
    if i64::MIN <= v <= i64::MAX {
        match t {
            VariableType::Integer => Some(ValueModel::Integer(v)),
            VariableType::String => Some(ValueModel::Text(decimal_text(v))),
            _ => None,
        }
    } else {
        None
    }
}

/// The `(start, step)` of an `increase(start,step)` descriptor.
pub open spec fn increase_args(s: Seq<char>) -> Option<(i64, i64)> {
    match parenthesized_args(s) {
        Some(a) => if a.len() == 2 && i64_literal(a[0]) is Some && i64_literal(a[1]) is Some {
            Some((i64_literal(a[0])->Some_0, i64_literal(a[1])->Some_0))
        } else {
            None
        },
        None => None,
    }
}

/// `increase(start,step)`: a counter shared by everyone that holds the rule.
///
/// Every draw takes the next number from an atomic ticket counter, so draws
/// made concurrently never see the same number and never skip one; the value
/// of draw `k` is `start + k * step`.
#[derive(Debug)]
pub struct IncreaseRule {
    start: i64,
    step: i64,
    drawn: AtomicU64,
}

impl View for IncreaseRule {
    /// The start and the step.
    type V = (int, int);

    closed spec fn view(&self) -> (int, int) {
        (self.start as int, self.step as int)
    }
}

impl IncreaseRule {
    /// The value of the first draw.
    pub fn start(&self) -> (r: i64)
        ensures
            r as int == self@.0,
    {
        self.start
    }

    /// How far each draw advances the counter.
    pub fn step(&self) -> (r: i64)
        ensures
            r as int == self@.1,
    {
        self.step
    }

    /// A counter at `start` that advances by `step`, with nothing drawn yet.
    pub fn new(start: i64, step: i64) -> (r: IncreaseRule)
        ensures
            r@ == (start as int, step as int),
    {
        IncreaseRule { start, step, drawn: AtomicU64::new(0) }
    }

    /// What draw number `k` gives when asked for type `t`.
    pub fn value_of_draw(&self, k: u64, t: VariableType) -> (r: Result<VariableTypeValue, ()>)
        ensures
            outcome(r) == increase_outcome(self@.0, self@.1, k as int, t),
    {
        match t {
            VariableType::Integer | VariableType::String => {},
            _ => {
                return Err(());
            },
        }
        let ghost kk = k as int;
        let ghost st = self.step as int;
        assert(-0x7fff_ffff_ffff_ffff_8000_0000_0000_0000 <= kk * st <= 0x7fff_ffff_ffff_ffff_8000_0000_0000_0000)
            by (nonlinear_arith)
            requires
                0 <= kk <= 0xffff_ffff_ffff_ffff,
                -0x8000_0000_0000_0000 <= st <= 0x7fff_ffff_ffff_ffff,
        {
            assert(kk * st <= kk * 0x8000_0000_0000_0000);
            assert(kk * st >= kk * (-0x8000_0000_0000_0000));
        }
        let wide: i128 = (self.start as i128) + (k as i128) * (self.step as i128);
        if wide < i64::MIN as i128 || wide > i64::MAX as i128 {
            return Err(());
        }
        let v = wide as i64;
        match t {
            VariableType::Integer => Ok(VariableTypeValue::Integer(v)),
            _ => Ok(VariableTypeValue::String(decimal_string(v))),
        }
    }
}

impl GenerateRule for IncreaseRule {
    open spec fn may_give(&self, t: VariableType, m: Option<ValueModel>) -> bool {
        exists|k: u64| m == increase_outcome(self@.0, self@.1, k as int, t)
    }

    fn generate_into(&self, into_type: VariableType) -> (r: Result<VariableTypeValue, ()>) {
        match into_type {
            VariableType::Integer | VariableType::String => {},
            _ => {
                assert(increase_outcome(self@.0, self@.1, 0, into_type) is None);
                return Err(());
            },
        }
        let k = self.drawn.fetch_add(1, Ordering::SeqCst);
        self.value_of_draw(k, into_type)
    }
}

impl ConstructRule for IncreaseRule {
    open spec fn constructed_from(s: Seq<char>) -> Option<(int, int)> {
        match increase_args(s) {
            Some((a, b)) => Some((a as int, b as int)),
            None => None,
        }
    }

    fn construct(s: String) -> (r: Result<Box<Self>, ()>) {
        let args = remove_parentheses(&s)?;
        if args.len() != 2 {
            return Err(());
        }
        assert(views(args@)[0] == args@[0]@ && views(args@)[1] == args@[1]@);
        let start = match parse_i64(args[0].as_str()) {
            Some(v) => v,
            None => {
                return Err(());
            },
        };
        let step = match parse_i64(args[1].as_str()) {
            Some(v) => v,
            None => {
                return Err(());
            },
        };
        Ok(Box::new(IncreaseRule::new(start, step)))
    }
}

impl Clone for IncreaseRule {
    /// A counter with the same start and step that goes on from the number of
    /// draws made so far, on its own from then on.
    fn clone(&self) -> (r: Self)
        ensures
            r@ == self@,
    {
        IncreaseRule {
            start: self.start,
            step: self.step,
            drawn: AtomicU64::new(self.drawn.load(Ordering::SeqCst)),
        }
    }
}

/// The literals of an `enum(a,b,...)` descriptor; an empty list is refused.
pub open spec fn enum_args(s: Seq<char>) -> Option<Seq<Seq<char>>> {
    match parenthesized_args(s) {
        Some(a) => if a.len() == 1 && a[0].len() == 0 {
            None
        } else {
            Some(a)
        },
        None => None,
    }
}

/// The path of an `enum_file(path)` descriptor.
pub open spec fn enum_file_path(s: Seq<char>) -> Option<Seq<char>> {
    match parenthesized_args(s) {
        Some(a) => if a.len() == 1 {
            Some(a[0])
        } else {
            None
        },
        None => None,
    }
}

/// The outcomes of drawing one of `entries` uniformly and reading it as `t`.
pub open spec fn enumeration_may_give(
    entries: Seq<Seq<char>>,
    t: VariableType,
    m: Option<ValueModel>,
) -> bool {
    exists|i: int| 0 <= i < entries.len() && m == literal_outcome(#[trigger] entries[i], t)
}

/// Relies on `rand::thread_rng` and `Rng::gen_range(0, len)`: an index below
/// `len` (the call panics on an empty range, which `requires` leaves out).
#[verifier::external_body]
fn random_index(len: usize) -> (r: usize)
    requires
        len > 0,
    ensures
        r < len,
{
    rand::thread_rng().gen_range(0, len)
}

/// Reads `lit` as type `t`.
fn read_literal(lit: &String, t: VariableType) -> (r: Result<VariableTypeValue, ()>)
    ensures
        outcome(r) == literal_outcome(lit@, t),
{
    match t {
        VariableType::Integer => match parse_i64(lit.as_str()) {
            Some(v) => Ok(VariableTypeValue::Integer(v)),
            None => Err(()),
        },
        VariableType::Float => if is_float_text(lit.as_str()) {
            Ok(VariableTypeValue::Float(lit.clone()))
        } else {
            Err(())
        },
        VariableType::String => Ok(VariableTypeValue::String(lit.clone())),
        VariableType::Date => Err(()),
    }
}

/// `enum(a,b,...)`: one of a fixed, non-empty list of literals, drawn
/// uniformly at random with replacement on each call.
#[derive(Debug)]
pub struct EnumRule {
    enumeration: Vec<String>,
}

impl View for EnumRule {
    /// The literals, in order.
    type V = Seq<Seq<char>>;

    closed spec fn view(&self) -> Seq<Seq<char>> {
        views(self.enumeration@)
    }
}

impl EnumRule {
    #[verifier::type_invariant]
    spec fn non_empty(&self) -> bool {
        self.enumeration.len() > 0
    }

    /// An enumeration of `values`; an empty list is refused.
    pub fn new(values: Vec<String>) -> (r: Result<EnumRule, ()>)
        ensures
            match r {
                Ok(e) => e@ == views(values@),
                Err(_) => values@.len() == 0,
            },
    {
        if values.len() == 0 {
            return Err(());
        }
        Ok(EnumRule { enumeration: values })
    }

    /// The literals, in order.
    pub fn entries(&self) -> (r: &Vec<String>)
        ensures
            views(r@) == self@,
            r@.len() > 0,
    {
        proof {
            use_type_invariant(self);
        }
        &self.enumeration
    }

    /// What literal number `index` gives when it is read as type `t`.
    pub fn value_at(&self, index: usize, t: VariableType) -> (r: Result<VariableTypeValue, ()>)
        requires
            index < self@.len(),
        ensures
            outcome(r) == literal_outcome(self@[index as int], t),
    {
        read_literal(&self.enumeration[index], t)
    }
}

impl GenerateRule for EnumRule {
    open spec fn may_give(&self, t: VariableType, m: Option<ValueModel>) -> bool {
        enumeration_may_give(self@, t, m)
    }

    fn generate_into(&self, into_type: VariableType) -> (r: Result<VariableTypeValue, ()>) {
        proof {
            use_type_invariant(self);
        }
        let i = random_index(self.enumeration.len());
        let r = self.value_at(i, into_type);
        assert(outcome(r) == literal_outcome(self@[i as int], into_type));
        r
    }
}

impl ConstructRule for EnumRule {
    open spec fn constructed_from(s: Seq<char>) -> Option<Seq<Seq<char>>> {
        enum_args(s)
    }

    fn construct(s: String) -> (r: Result<Box<Self>, ()>) {
        let args = remove_parentheses(&s)?;
        if args.len() == 1 && args[0].unicode_len() == 0 {
            assert(views(args@)[0] == args@[0]@);
            return Err(());
        }
        Ok(Box::new(EnumRule { enumeration: args }))
    }
}

impl Clone for EnumRule {
    fn clone(&self) -> (r: Self)
        ensures
            r@ == self@,
    {
        proof {
            use_type_invariant(self);
        }
        let mut copy: Vec<String> = Vec::new();
        let mut i: usize = 0;
        while i < self.enumeration.len()
            invariant
                i <= self.enumeration@.len(),
                copy@.len() == i,
                forall|j: int| 0 <= j < i ==> copy@[j]@ == self.enumeration@[j]@,
            decreases self.enumeration@.len() - i,
        {
            copy.push(self.enumeration[i].clone());
            i = i + 1;
        }
        assert(views(copy@) =~= views(self.enumeration@));
        EnumRule { enumeration: copy }
    }
}

/// `enum_file(path)`: like `enum`, over the non-empty lines of a file that is
/// read once, when the rule is built.
#[derive(Debug)]
pub struct EnumFileRule {
    enumeration: Vec<String>,
}

impl View for EnumFileRule {
    /// The lines, in order.
    type V = Seq<Seq<char>>;

    closed spec fn view(&self) -> Seq<Seq<char>> {
        views(self.enumeration@)
    }
}

impl EnumFileRule {
    #[verifier::type_invariant]
    spec fn non_empty(&self) -> bool {
        self.enumeration.len() > 0
    }

    /// The enumeration over the non-empty lines of `text`; refused where there
    /// is none.
    pub fn from_text(text: &str) -> (r: Result<EnumFileRule, ()>)
        ensures
            match r {
                Ok(e) => e@ == non_empty_lines(text@) && e@.len() > 0,
                Err(_) => non_empty_lines(text@).len() == 0,
            },
    {
        let lines = non_empty_lines_of(text);
        if lines.len() == 0 {
            return Err(());
        }
        Ok(EnumFileRule { enumeration: lines })
    }

    /// Builds the rule of descriptor `s`, where `file_text` is what the file
    /// that it names holds, or `None` where that file could not be read.
    pub fn construct(s: String, file_text: Option<String>) -> (r: Result<Box<EnumFileRule>, ()>)
        ensures
            match r {
                Ok(b) => enum_file_path(s@) is Some && file_text is Some && b@ == non_empty_lines(
                    file_text->Some_0@,
                ) && b@.len() > 0,
                Err(_) => enum_file_path(s@) is None || file_text is None || non_empty_lines(
                    file_text->Some_0@,
                ).len() == 0,
            },
    {
        let args = remove_parentheses(&s)?;
        if args.len() != 1 {
            return Err(());
        }
        match file_text {
            None => Err(()),
            Some(t) => {
                let rule = EnumFileRule::from_text(t.as_str())?;
                Ok(Box::new(rule))
            },
        }
    }

    /// The lines, in order.
    pub fn entries(&self) -> (r: &Vec<String>)
        ensures
            views(r@) == self@,
            r@.len() > 0,
    {
        proof {
            use_type_invariant(self);
        }
        &self.enumeration
    }

    /// What line number `index` gives when it is read as type `t`.
    pub fn value_at(&self, index: usize, t: VariableType) -> (r: Result<VariableTypeValue, ()>)
        requires
            index < self@.len(),
        ensures
            outcome(r) == literal_outcome(self@[index as int], t),
    {
        read_literal(&self.enumeration[index], t)
    }
}

impl GenerateRule for EnumFileRule {
    open spec fn may_give(&self, t: VariableType, m: Option<ValueModel>) -> bool {
        enumeration_may_give(self@, t, m)
    }

    fn generate_into(&self, into_type: VariableType) -> (r: Result<VariableTypeValue, ()>) {
        proof {
            use_type_invariant(self);
        }
        let i = random_index(self.enumeration.len());
        let r = self.value_at(i, into_type);
        assert(outcome(r) == literal_outcome(self@[i as int], into_type));
        r
    }
}

impl Clone for EnumFileRule {
    fn clone(&self) -> (r: Self)
        ensures
            r@ == self@,
    {
        proof {
            use_type_invariant(self);
        }
        let mut copy: Vec<String> = Vec::new();
        let mut i: usize = 0;
        while i < self.enumeration.len()
            invariant
                i <= self.enumeration@.len(),
                copy@.len() == i,
                forall|j: int| 0 <= j < i ==> copy@[j]@ == self.enumeration@[j]@,
            decreases self.enumeration@.len() - i,
        {
            copy.push(self.enumeration[i].clone());
            i = i + 1;
        }
        assert(views(copy@) =~= views(self.enumeration@));
        EnumFileRule { enumeration: copy }
    }
}

/// A rule of any of the three kinds.
#[derive(Debug)]
pub enum Rule {
    Increase(IncreaseRule),
    Enum(EnumRule),
    EnumFile(EnumFileRule),
}

/// The content of a `Rule`: a counter's start and step, or the literals of an
/// enumeration.
pub ghost enum RuleModel {
    Increase(int, int),
    Enum(Seq<Seq<char>>),
    EnumFile(Seq<Seq<char>>),
}

impl View for Rule {
    type V = RuleModel;

    open spec fn view(&self) -> RuleModel {
        match self {
            Rule::Increase(r) => RuleModel::Increase(r@.0, r@.1),
            Rule::Enum(r) => RuleModel::Enum(r@),
            Rule::EnumFile(r) => RuleModel::EnumFile(r@),
        }
    }
}

/// The outcomes that asking a rule with content `m` for type `t` can have.
pub open spec fn rule_may_give(r: RuleModel, t: VariableType, m: Option<ValueModel>) -> bool {
    match r {
        RuleModel::Increase(start, step) => exists|k: u64|
            m == increase_outcome(start, step, k as int, t),
        RuleModel::Enum(e) => enumeration_may_give(e, t, m),
        RuleModel::EnumFile(e) => enumeration_may_give(e, t, m),
    }
}

impl GenerateRule for Rule {
    open spec fn may_give(&self, t: VariableType, m: Option<ValueModel>) -> bool {
        rule_may_give(self@, t, m)
    }

    fn generate_into(&self, into_type: VariableType) -> (r: Result<VariableTypeValue, ()>) {
        match self {
            Rule::Increase(c) => c.generate_into(into_type),
            Rule::Enum(e) => e.generate_into(into_type),
            Rule::EnumFile(e) => e.generate_into(into_type),
        }
    }
}

impl Clone for Rule {
    /// A rule with the same content; a counter's copy counts on its own.
    fn clone(&self) -> (r: Self)
        ensures
            r@ == self@,
    {
        match self {
            Rule::Increase(c) => Rule::Increase(c.clone()),
            Rule::Enum(e) => Rule::Enum(e.clone()),
            Rule::EnumFile(e) => Rule::EnumFile(e.clone()),
        }
    }
}

/// Draws `0` to `m - 1` of a counter that starts at `start` and advances by
/// `step`, asked for integers, give exactly the values `start + i * step` for
/// `i` below `m` (no gaps); and where `step` is not zero, no two draws give
/// the same value (no repeats), whether asked for integers or for text.
pub proof fn lemma_counter_draws(start: int, step: int, m: int)
    requires
        m >= 0,
        forall|k: int| 0 <= k < m ==> i64::MIN <= #[trigger] counter_value(start, step, k) <= i64::MAX,
    ensures
        Set::new(
            |v: ValueModel|
                exists|k: int|
                    0 <= k < m && Some(v) == #[trigger] increase_outcome(
                        start,
                        step,
                        k,
                        VariableType::Integer,
                    ),
        ) == Set::new(
            |v: ValueModel| exists|i: int| 0 <= i < m && v == ValueModel::Integer(#[trigger] (start + i * step)),
        ),
        step != 0 ==> forall|j: int, k: int|
            0 <= j < m && 0 <= k < m && j != k ==> #[trigger] increase_outcome(
                start,
                step,
                j,
                VariableType::Integer,
            ) != #[trigger] increase_outcome(start, step, k, VariableType::Integer),
        step != 0 ==> forall|j: int, k: int|
            0 <= j < m && 0 <= k < m && j != k ==> #[trigger] increase_outcome(
                start,
                step,
                j,
                VariableType::String,
            ) != #[trigger] increase_outcome(start, step, k, VariableType::String),
{
    let drawn = Set::new(
        |v: ValueModel|
            exists|k: int|
                0 <= k < m && Some(v) == #[trigger] increase_outcome(
                    start,
                    step,
                    k,
                    VariableType::Integer,
                ),
    );
    let expected = Set::new(
        |v: ValueModel| exists|i: int| 0 <= i < m && v == ValueModel::Integer(#[trigger] (start + i * step)),
    );
    assert forall|v: ValueModel| drawn.contains(v) implies expected.contains(v) by {
        let k = choose|k: int|
            0 <= k < m && Some(v) == #[trigger] increase_outcome(start, step, k, VariableType::Integer);
        assert(i64::MIN <= counter_value(start, step, k) <= i64::MAX);
        assert(v == ValueModel::Integer(start + k * step));
    }
    assert forall|v: ValueModel| expected.contains(v) implies drawn.contains(v) by {
        let i = choose|i: int| 0 <= i < m && v == ValueModel::Integer(#[trigger] (start + i * step));
        assert(i64::MIN <= counter_value(start, step, i) <= i64::MAX);
        assert(Some(v) == increase_outcome(start, step, i, VariableType::Integer));
    }
    assert(drawn =~= expected);
    if step != 0 {
        assert forall|j: int, k: int|
            0 <= j < m && 0 <= k < m && j != k implies #[trigger] increase_outcome(
            start,
            step,
            j,
            VariableType::Integer,
        ) != #[trigger] increase_outcome(start, step, k, VariableType::Integer) by {
            assert(i64::MIN <= counter_value(start, step, j) <= i64::MAX);
            assert(i64::MIN <= counter_value(start, step, k) <= i64::MAX);
            assert(j * step != k * step) by (nonlinear_arith)
                requires
                    step != 0,
                    j != k,
            ;
        }
        assert forall|j: int, k: int|
            0 <= j < m && 0 <= k < m && j != k implies #[trigger] increase_outcome(
            start,
            step,
            j,
            VariableType::String,
        ) != #[trigger] increase_outcome(start, step, k, VariableType::String) by {
            assert(i64::MIN <= counter_value(start, step, j) <= i64::MAX);
            assert(i64::MIN <= counter_value(start, step, k) <= i64::MAX);
            assert(j * step != k * step) by (nonlinear_arith)
                requires
                    step != 0,
                    j != k,
            ;
            if decimal_text(counter_value(start, step, j)) == decimal_text(
                counter_value(start, step, k),
            ) {
                lemma_decimal_text_injective(
                    counter_value(start, step, j),
                    counter_value(start, step, k),
                );
            }
        }
    }
}

/// Every value an enumeration gives as text is one of its literals, verbatim;
/// asked for an integer or a float, it gives the value its literal denotes
/// or an error, as the literal alone decides; a date it never gives.
pub proof fn lemma_enumeration_outcomes(entries: Seq<Seq<char>>, t: VariableType, m: Option<ValueModel>)
    requires
        enumeration_may_give(entries, t, m),
    ensures
        t == VariableType::String ==> (m matches Some(ValueModel::Text(x)) && entries.contains(x)),
        t == VariableType::Date ==> m is None,
        exists|i: int| 0 <= i < entries.len() && m == literal_outcome(#[trigger] entries[i], t),
{
    let i = choose|i: int| 0 <= i < entries.len() && m == literal_outcome(#[trigger] entries[i], t);
    if t == VariableType::String {
        assert(m == Some(ValueModel::Text(entries[i])));
    }
}

} // verus!
