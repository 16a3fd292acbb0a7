//! Text helpers shared by the rule parser and the configuration reader.

use vstd::prelude::*;

verus! {

/// The pieces of `s` between occurrences of `sep`, as `str::split` with a
/// `char` separator gives them: one more piece than there are separators.
pub open spec fn split_char(s: Seq<char>, sep: char) -> Seq<Seq<char>>
    decreases s.len(),
{
    if s.len() == 0 {
        seq![Seq::<char>::empty()]
    } else {
        let rest = split_char(s.drop_last(), sep);
        if s.last() == sep {
            rest.push(Seq::<char>::empty())
        } else {
            rest.update(rest.len() - 1, rest.last().push(s.last()))
        }
    }
}

pub proof fn lemma_split_char_nonempty(s: Seq<char>, sep: char)
    ensures
        split_char(s, sep).len() >= 1,
    decreases s.len(),
{
    if s.len() > 0 {
        lemma_split_char_nonempty(s.drop_last(), sep);
    }
}

/// Whether `p` is a prefix of `s`.
pub open spec fn has_prefix(s: Seq<char>, p: Seq<char>) -> bool {
    p.len() <= s.len() && s.subrange(0, p.len() as int) == p
}

/// The position of the first occurrence of `c` in `s`, if any.
#[verifier::opaque]
pub open spec fn first_index_of(s: Seq<char>, c: char) -> Option<int> {
    if exists|i: int| 0 <= i < s.len() && s[i] == c {
        Some(choose|i: int| 0 <= i < s.len() && s[i] == c && forall|j: int| 0 <= j < i ==> s[j] != c)
    } else {
        None
    }
}

/// The views of a vector of strings.
pub open spec fn views(v: Seq<String>) -> Seq<Seq<char>> {
    v.map_values(|x: String| x@)
}

/// Whether `s` starts with `p`.
pub fn starts_with(s: &str, p: &str) -> (r: bool)
    ensures
        r == has_prefix(s@, p@),
{
    let n = s.unicode_len();
    let m = p.unicode_len();
    if m > n {
        return false;
    }
    let mut i: usize = 0;
    while i < m
        invariant
            m <= n,
            n == s@.len(),
            m == p@.len(),
            i <= m,
            forall|j: int| 0 <= j < i ==> s@[j] == p@[j],
        decreases m - i,
    {
        if s.get_char(i) != p.get_char(i) {
            assert(s@.subrange(0, m as int)[i as int] != p@[i as int]);
            return false;
        }
        i = i + 1;
    }
    assert(s@.subrange(0, m as int) =~= p@);
    true
}

/// The position of the first `c` in `s`.
pub fn find_char(s: &str, c: char) -> (r: Option<usize>)
    ensures
        r matches Some(i) ==> (first_index_of(s@, c) == Some(i as int) && i < s@.len() && s@[i as int]
            == c),
        r is None ==> first_index_of(s@, c) is None,
{
    proof {
        reveal(first_index_of);
    }
    let n = s.unicode_len();
    let mut i: usize = 0;
    while i < n
        invariant
            n == s@.len(),
            i <= n,
            forall|j: int| 0 <= j < i ==> s@[j] != c,
        decreases n - i,
    {
        if s.get_char(i) == c {
            assert(0 <= i < s@.len() && s@[i as int] == c);
            let ghost k = choose|k: int|
                0 <= k < s@.len() && s@[k] == c && forall|j: int| 0 <= j < k ==> s@[j] != c;
            assert(0 <= k < s@.len() && s@[k] == c && forall|j: int| 0 <= j < k ==> s@[j] != c);
            assert(k == i) by {
                if k < i {
                } else if k > i {
                }
            }
            assert(first_index_of(s@, c) == Some(i as int)) by {
                reveal(first_index_of);
            }
            return Some(i);
        }
        i = i + 1;
    }
    None
}

/// Splits `s` at every `sep`.
pub fn split_at_char(s: &str, sep: char) -> (r: Vec<String>)
    ensures
        views(r@) == split_char(s@, sep),
{
    let n = s.unicode_len();
    let mut pieces: Vec<String> = Vec::new();
    let mut start: usize = 0;
    let mut i: usize = 0;
    assert(s@.subrange(0, 0) =~= Seq::<char>::empty());
    while i < n
        invariant
            n == s@.len(),
            start <= i <= n,
            views(pieces@).push(s@.subrange(start as int, i as int)) == split_char(
                s@.subrange(0, i as int),
                sep,
            ),
        decreases n - i,
    {
        let c = s.get_char(i);
        let ghost prefix = s@.subrange(0, i as int + 1);
        assert(prefix.drop_last() =~= s@.subrange(0, i as int));
        assert(prefix.last() == c);
        if c == sep {
            let ghost before = pieces@;
            let piece = String::from_str(s.substring_char(start, i));
            pieces.push(piece);
            assert(views(pieces@) =~= views(before).push(piece@)) by {
                assert(pieces@ =~= before.push(piece));
            }
            assert(s@.subrange(i as int + 1, i as int + 1) =~= Seq::<char>::empty());
            start = i + 1;
        } else {
            assert(s@.subrange(start as int, i as int + 1) =~= s@.subrange(
                start as int,
                i as int,
            ).push(c));
        }
        i = i + 1;
    }
    let ghost before = pieces@;
    let piece = String::from_str(s.substring_char(start, n));
    pieces.push(piece);
    assert(views(pieces@) =~= views(before).push(piece@)) by {
        assert(pieces@ =~= before.push(piece));
    }
    assert(s@.subrange(0, n as int) =~= s@);
    pieces
}

/// Whether `c` is one of the ASCII digits `0` to `9`.
pub open spec fn is_digit(c: char) -> bool {
    '0' <= c <= '9'
}

/// A non-empty run of ASCII digits.
pub open spec fn all_digits(s: Seq<char>) -> bool {
    s.len() > 0 && forall|i: int| 0 <= i < s.len() ==> is_digit(#[trigger] s[i])
}

/// The value of a run of decimal digits.
pub open spec fn digits_value(s: Seq<char>) -> int
    decreases s.len(),
{
    if s.len() == 0 {
        0
    } else {
        digits_value(s.drop_last()) * 10 + (s.last() as int - '0' as int)
    }
}

/// The integer that a decimal literal denotes: an optional `+` or `-` sign
/// followed by one or more ASCII digits, and nothing else.
pub open spec fn integer_literal(s: Seq<char>) -> Option<int> {
    if s.len() > 0 && (s[0] == '+' || s[0] == '-') {
        let d = s.drop_first();
        if all_digits(d) {
            Some(if s[0] == '-' { -digits_value(d) } else { digits_value(d) })
        } else {
            None
        }
    } else if all_digits(s) {
        Some(digits_value(s))
    } else {
        None
    }
}

/// What reading `s` as an `i64` gives: a decimal literal whose value fits.
pub open spec fn i64_literal(s: Seq<char>) -> Option<i64> {
    match integer_literal(s) {
        Some(v) => if i64::MIN <= v <= i64::MAX {
            Some(v as i64)
        } else {
            None
        },
        None => None,
    }
}

/// The character of a decimal digit.
pub open spec fn digit_char(d: nat) -> char {
    if d == 0 { '0' }
    else if d == 1 { '1' }
    else if d == 2 { '2' }
    else if d == 3 { '3' }
    else if d == 4 { '4' }
    else if d == 5 { '5' }
    else if d == 6 { '6' }
    else if d == 7 { '7' }
    else if d == 8 { '8' }
    else { '9' }
}

/// The decimal digits of `n`, without leading zeros.
pub open spec fn digits_of(n: nat) -> Seq<char>
    decreases n,
{
    if n < 10 {
        seq![digit_char(n)]
    } else {
        digits_of(n / 10).push(digit_char(n % 10))
    }
}

/// The decimal text of `v`, with a leading `-` when it is negative.
pub open spec fn decimal_text(v: int) -> Seq<char> {
    if v < 0 {
        seq!['-'] + digits_of((-v) as nat)
    } else {
        digits_of(v as nat)
    }
}

/// Whether `c` is the letter `w` (given in lower case) in either case.
pub open spec fn same_letter(c: char, w: char) -> bool {
    c == w || (c as int) + 32 == (w as int)
}

/// Whether `s` spells `w` (given in lower case), ignoring ASCII case.
pub open spec fn spells(s: Seq<char>, w: Seq<char>) -> bool {
    s.len() == w.len() && forall|i: int| 0 <= i < s.len() ==> same_letter(#[trigger] s[i], w[i])
}

/// Digits with at most one `.` among them, and at least one digit.
pub open spec fn is_mantissa(m: Seq<char>) -> bool {
    &&& forall|i: int| 0 <= i < m.len() ==> is_digit(#[trigger] m[i]) || m[i] == '.'
    &&& forall|i: int, j: int| 0 <= i < m.len() && 0 <= j < m.len() && m[i] == '.' && m[j] == '.' ==> i == j
    &&& exists|i: int| 0 <= i < m.len() && is_digit(#[trigger] m[i])
}

/// An exponent after its `e`: an optional sign and one or more digits.
pub open spec fn is_exponent(x: Seq<char>) -> bool {
    all_digits(x) || (x.len() > 0 && (x[0] == '+' || x[0] == '-') && all_digits(x.drop_first()))
}

/// Whether `s` is text that reading an `f64` accepts: an optional sign, then
/// `inf`, `infinity` or `nan` in any case, or a decimal number with an
/// optional exponent (`Number ::= (Digit+ | Digit+ '.' Digit* | Digit* '.'
/// Digit+) Exp?`, `Exp ::= ('e' | 'E') Sign? Digit+`).
pub open spec fn float_literal(s: Seq<char>) -> bool {
    unsigned_float_literal(
        if s.len() > 0 && (s[0] == '+' || s[0] == '-') {
            s.drop_first()
        } else {
            s
        },
    )
}

/// A float literal without its sign.
pub open spec fn unsigned_float_literal(b: Seq<char>) -> bool {
    ||| spells(b, seq!['i', 'n', 'f'])
    ||| spells(b, seq!['i', 'n', 'f', 'i', 'n', 'i', 't', 'y'])
    ||| spells(b, seq!['n', 'a', 'n'])
    ||| (forall|i: int| 0 <= i < b.len() ==> b[i] != 'e' && b[i] != 'E') && is_mantissa(b)
    ||| exists|k: int|
        0 <= k < b.len() && (#[trigger] b[k] == 'e' || b[k] == 'E') && is_mantissa(b.subrange(0, k))
            && is_exponent(b.subrange(k + 1, b.len() as int))
}

/// The value of a run of digits is not negative and not below that of any
/// of its prefixes.
proof fn lemma_digits_value_grows(s: Seq<char>, i: int)
    requires
        0 <= i <= s.len(),
        forall|j: int| 0 <= j < s.len() ==> is_digit(#[trigger] s[j]),
    ensures
        0 <= digits_value(s.subrange(0, i)) <= digits_value(s),
    decreases s.len(),
{
    if s.len() > 0 {
        let p = s.drop_last();
        assert forall|j: int| 0 <= j < p.len() implies is_digit(#[trigger] p[j]) by {
            assert(p[j] == s[j]);
        }
        assert(is_digit(s[s.len() - 1]));
        if i == s.len() {
            lemma_digits_value_grows(p, p.len() as int);
            assert(s.subrange(0, i) =~= s);
            assert(p.subrange(0, p.len() as int) =~= p);
        } else {
            lemma_digits_value_grows(p, i);
            lemma_digits_value_grows(p, p.len() as int);
            assert(p.subrange(0, i) =~= s.subrange(0, i));
            assert(p.subrange(0, p.len() as int) =~= p);
        }
    } else {
        assert(s.subrange(0, i) =~= s);
    }
}

/// Reads `s` as an `i64`, as `str::parse::<i64>` does: an optional sign
/// followed by digits only, refused where the value does not fit.
pub fn parse_i64(s: &str) -> (r: Option<i64>)
    ensures
        r == i64_literal(s@),
{
    let n = s.unicode_len();
    if n == 0 {
        return None;
    }
    let c0 = s.get_char(0);
    let signed = c0 == '+' || c0 == '-';
    let start: usize = if signed { 1 } else { 0 };
    let d = s.substring_char(start, n);
    assert(signed ==> d@ =~= s@.drop_first());
    assert(!signed ==> d@ =~= s@);
    let m = d.unicode_len();
    if m == 0 {
        return None;
    }
    let mut acc: u64 = 0;
    let mut big = false;
    let mut i: usize = 0;
    assert(d@.subrange(0, 0) =~= Seq::<char>::empty());
    while i < m
        invariant
            m == d@.len(),
            s@.len() > 0,
            c0 == s@[0],
            signed == (c0 == '+' || c0 == '-'),
            signed ==> d@ == s@.drop_first(),
            !signed ==> d@ == s@,
            i <= m,
            forall|j: int| 0 <= j < i ==> is_digit(#[trigger] d@[j]),
            !big ==> acc == digits_value(d@.subrange(0, i as int)),
            !big ==> acc <= 0x8000_0000_0000_0000,
            big ==> digits_value(d@.subrange(0, i as int)) > 0x8000_0000_0000_0000,
        decreases m - i,
    {
        let c = d.get_char(i);
        if !('0' <= c && c <= '9') {
            assert(!is_digit(d@[i as int]));
            return None;
        }
        let ghost pre = d@.subrange(0, i as int + 1);
        assert(pre.drop_last() =~= d@.subrange(0, i as int));
        assert(pre.last() == c);
        let digit = (c as u32 - '0' as u32) as u64;
        assert(digits_value(pre) == digits_value(d@.subrange(0, i as int)) * 10 + digit);
        if !big {
            if acc > (0x8000_0000_0000_0000 - digit) / 10 {
                big = true;
            } else {
                acc = acc * 10 + digit;
            }
        } else {
            proof {
                assert forall|j: int| 0 <= j < pre.len() implies is_digit(#[trigger] pre[j]) by {
                    if j < i {
                        assert(pre[j] == d@[j]);
                    }
                }
                lemma_digits_value_grows(pre, i as int);
                assert(pre.subrange(0, i as int) =~= d@.subrange(0, i as int));
            }
        }
        i = i + 1;
    }
    assert(d@.subrange(0, m as int) =~= d@);
    assert(all_digits(d@));
    if big {
        return None;
    }
    if c0 == '-' {
        if acc == 0x8000_0000_0000_0000 {
            Some(i64::MIN)
        } else {
            Some(-(acc as i64))
        }
    } else if acc > 0x7fff_ffff_ffff_ffff {
        None
    } else {
        Some(acc as i64)
    }
}

/// The one-character text of digit `d`.
fn digit_text(d: u64) -> (r: &'static str)
    requires
        d < 10,
    ensures
        r@ == seq![digit_char(d as nat)],
{
    proof {
        reveal_strlit("0");
        reveal_strlit("1");
        reveal_strlit("2");
        reveal_strlit("3");
        reveal_strlit("4");
        reveal_strlit("5");
        reveal_strlit("6");
        reveal_strlit("7");
        reveal_strlit("8");
        reveal_strlit("9");
    }
    let r = if d == 0 { "0" }
    else if d == 1 { "1" }
    else if d == 2 { "2" }
    else if d == 3 { "3" }
    else if d == 4 { "4" }
    else if d == 5 { "5" }
    else if d == 6 { "6" }
    else if d == 7 { "7" }
    else if d == 8 { "8" }
    else { "9" };
    assert(r@ =~= seq![digit_char(d as nat)]);
    r
}

/// The decimal digits of `n`, without leading zeros.
fn digits_string(n: u64) -> (r: String)
    ensures
        r@ == digits_of(n as nat),
    decreases n,
{
    if n < 10 {
        String::from_str(digit_text(n))
    } else {
        let mut t = digits_string(n / 10);
        t.append(digit_text(n % 10));
        assert(t@ =~= digits_of((n / 10) as nat).push(digit_char((n % 10) as nat)));
        t
    }
}

/// The decimal text of `v`, with a leading `-` when it is negative, as the
/// `Display` impl of `i64` writes it.
pub fn decimal_string(v: i64) -> (r: String)
    ensures
        r@ == decimal_text(v as int),
{
    if v < 0 {
        let magnitude = (0i128 - v as i128) as u64;
        proof {
            reveal_strlit("-");
        }
        let t = String::from_str("-").concat(digits_string(magnitude).as_str());
        assert(t@ =~= seq!['-'] + digits_of((-v) as nat));
        t
    } else {
        digits_string(v as u64)
    }
}

/// Whether two texts are equal.
pub fn same_text(a: &str, b: &str) -> (r: bool)
    ensures
        r == (a@ == b@),
{
    if a.unicode_len() != b.unicode_len() {
        return false;
    }
    assert(a@ =~= a@.subrange(0, b@.len() as int));
    starts_with(a, b)
}

/// Whether `s` spells `w` (given in lower case), ignoring ASCII case.
pub fn spells_word(s: &str, w: &str) -> (r: bool)
    ensures
        r == spells(s@, w@),
{
    let n = s.unicode_len();
    if n != w.unicode_len() {
        return false;
    }
    let mut i: usize = 0;
    while i < n
        invariant
            n == s@.len(),
            n == w@.len(),
            i <= n,
            forall|j: int| 0 <= j < i ==> same_letter(#[trigger] s@[j], w@[j]),
        decreases n - i,
    {
        let c = s.get_char(i);
        let d = w.get_char(i);
        if !(c == d || (c as u32) + 32 == (d as u32)) {
            return false;
        }
        i = i + 1;
    }
    true
}

/// Whether `m` is digits with at most one `.`, and at least one digit.
pub fn check_mantissa(m: &str) -> (r: bool)
    ensures
        r == is_mantissa(m@),
{
    let n = m.unicode_len();
    let mut dot: Option<usize> = None;
    let mut digit: Option<usize> = None;
    let mut i: usize = 0;
    while i < n
        invariant
            n == m@.len(),
            i <= n,
            forall|j: int| 0 <= j < i ==> is_digit(#[trigger] m@[j]) || m@[j] == '.',
            dot matches Some(d) ==> d < i && m@[d as int] == '.' && forall|j: int|
                0 <= j < i && m@[j] == '.' ==> j == d,
            dot is None ==> forall|j: int| 0 <= j < i ==> m@[j] != '.',
            digit matches Some(d) ==> d < i && is_digit(m@[d as int]),
            digit is None ==> forall|j: int| 0 <= j < i ==> !is_digit(#[trigger] m@[j]),
        decreases n - i,
    {
        let c = m.get_char(i);
        if '0' <= c && c <= '9' {
            digit = Some(i);
        } else if c == '.' {
            if dot.is_some() {
                return false;
            }
            dot = Some(i);
        } else {
            return false;
        }
        i = i + 1;
    }
    match digit {
        Some(d) => {
            assert(is_digit(m@[d as int]));
            true
        },
        None => false,
    }
}

/// Whether `s` is a non-empty run of ASCII digits.
pub fn check_digits(s: &str) -> (r: bool)
    ensures
        r == all_digits(s@),
{
    let n = s.unicode_len();
    if n == 0 {
        return false;
    }
    let mut i: usize = 0;
    while i < n
        invariant
            n == s@.len(),
            i <= n,
            forall|j: int| 0 <= j < i ==> is_digit(#[trigger] s@[j]),
        decreases n - i,
    {
        let c = s.get_char(i);
        if !('0' <= c && c <= '9') {
            assert(!is_digit(s@[i as int]));
            return false;
        }
        i = i + 1;
    }
    true
}

/// Whether `x` is an optional sign followed by one or more digits.
pub fn check_exponent(x: &str) -> (r: bool)
    ensures
        r == is_exponent(x@),
{
    let n = x.unicode_len();
    if check_digits(x) {
        return true;
    }
    if n > 0 {
        let c = x.get_char(0);
        if c == '+' || c == '-' {
            let rest = x.substring_char(1, n);
            assert(rest@ =~= x@.drop_first());
            return check_digits(rest);
        }
    }
    false
}

/// The position of the first `e` or `E` in `b`, or its length if there is none.
pub fn exponent_mark(b: &str) -> (k: usize)
    ensures
        k <= b@.len(),
        forall|j: int| 0 <= j < k ==> b@[j] != 'e' && b@[j] != 'E',
        k < b@.len() ==> b@[k as int] == 'e' || b@[k as int] == 'E',
{
    let m = b.unicode_len();
    let mut k: usize = 0;
    while k < m
        invariant
            m == b@.len(),
            k <= m,
            forall|j: int| 0 <= j < k ==> b@[j] != 'e' && b@[j] != 'E',
        decreases m - k,
    {
        let c = b.get_char(k);
        if c == 'e' || c == 'E' {
            return k;
        }
        k = k + 1;
    }
    k
}

/// Whether `s` is text that reading an `f64` accepts.
pub fn is_float_text(s: &str) -> (r: bool)
    ensures
        r == float_literal(s@),
{
    let n = s.unicode_len();
    let signed = n > 0 && (s.get_char(0) == '+' || s.get_char(0) == '-');
    let off: usize = if signed { 1 } else { 0 };
    let b = s.substring_char(off, n);
    let ghost bb = if s@.len() > 0 && (s@[0] == '+' || s@[0] == '-') { s@.drop_first() } else { s@ };
    assert(b@ =~= bb);
    proof {
        reveal_strlit("inf");
        reveal_strlit("infinity");
        reveal_strlit("nan");
    }
    assert("inf"@ =~= seq!['i', 'n', 'f']);
    assert("infinity"@ =~= seq!['i', 'n', 'f', 'i', 'n', 'i', 't', 'y']);
    assert("nan"@ =~= seq!['n', 'a', 'n']);
    if spells_word(b, "inf") || spells_word(b, "infinity") || spells_word(b, "nan") {
        return true;
    }
    let m = b.unicode_len();
    let k = exponent_mark(b);
    if k == m {
        let r = check_mantissa(b);

        return r;
    }
    let mant = b.substring_char(0, k);
    let expo = b.substring_char(k + 1, m);
    let r = check_mantissa(mant) && check_exponent(expo);
    assert(mant@ =~= b@.subrange(0, k as int));
    assert(expo@ =~= b@.subrange(k + 1, m as int));
    assert forall|q: int|
        0 <= q < b@.len() && (#[trigger] b@[q] == 'e' || b@[q] == 'E') && is_mantissa(
            b@.subrange(0, q),
        ) implies q == k by {
        if q > k {
            let sub = b@.subrange(0, q);
            assert(sub[k as int] == b@[k as int]);
            assert(is_digit(sub[k as int]) || sub[k as int] == '.');
        }
    }
    if r {
        assert(b@[k as int] == 'e' || b@[k as int] == 'E');
    }
    r
}

/// A line without the `\r` of a `\r\n` line ending.
pub open spec fn strip_cr(l: Seq<char>) -> Seq<char> {
    if l.len() > 0 && l.last() == '\r' {
        l.drop_last()
    } else {
        l
    }
}

/// The lines of `t` as `str::lines` gives them, before the empty ones are
/// dropped: the text between line feeds, with the `\r` of a `\r\n` removed.
pub open spec fn raw_lines(t: Seq<char>) -> Seq<Seq<char>> {
    let p = split_char(t, '\n');
    Seq::new(p.len(), |i: int| if i < p.len() - 1 { strip_cr(p[i]) } else { p[i] })
}

/// The non-empty members of `s`, in order.
pub open spec fn keep_non_empty(s: Seq<Seq<char>>) -> Seq<Seq<char>>
    decreases s.len(),
{
    if s.len() == 0 {
        s
    } else {
        let r = keep_non_empty(s.drop_last());
        if s.last().len() > 0 {
            r.push(s.last())
        } else {
            r
        }
    }
}

/// The non-empty lines of `t`.
pub open spec fn non_empty_lines(t: Seq<char>) -> Seq<Seq<char>> {
    keep_non_empty(raw_lines(t))
}

/// Every member of `keep_non_empty(s)` is a non-empty member of `s`.
pub proof fn lemma_keep_non_empty(s: Seq<Seq<char>>)
    ensures
        forall|i: int|
            0 <= i < keep_non_empty(s).len() ==> (#[trigger] keep_non_empty(s)[i]).len() > 0
                && s.contains(keep_non_empty(s)[i]),
    decreases s.len(),
{
    if s.len() > 0 {
        lemma_keep_non_empty(s.drop_last());
        let r = keep_non_empty(s.drop_last());
        assert forall|i: int| 0 <= i < r.len() implies s.contains(#[trigger] r[i]) by {
            let j = choose|j: int| 0 <= j < s.drop_last().len() && s.drop_last()[j] == r[i];
            assert(s[j] == r[i]);
        }
        assert(s[s.len() - 1] == s.last());
    }
}

/// Without its `\r`, when it ends in one.
pub fn without_cr(l: &str) -> (r: String)
    ensures
        r@ == strip_cr(l@),
{
    let n = l.unicode_len();
    if n > 0 && l.get_char(n - 1) == '\r' {
        let t = l.substring_char(0, n - 1);
        assert(t@ =~= l@.drop_last());
        String::from_str(t)
    } else {
        String::from_str(l)
    }
}

/// The non-empty lines of `t`, in order.
pub fn non_empty_lines_of(t: &str) -> (r: Vec<String>)
    ensures
        views(r@) == non_empty_lines(t@),
{
    let pieces = split_at_char(t, '\n');
    let ghost raw = raw_lines(t@);
    proof {
        lemma_split_char_nonempty(t@, '\n');
    }
    let n = pieces.len();
    let mut out: Vec<String> = Vec::new();
    let mut i: usize = 0;
    assert(raw.subrange(0, 0) =~= Seq::<Seq<char>>::empty());
    while i < n
        invariant
            n == pieces@.len(),
            n >= 1,
            views(pieces@) == split_char(t@, '\n'),
            raw == raw_lines(t@),
            raw.len() == n,
            i <= n,
            views(out@) == keep_non_empty(raw.subrange(0, i as int)),
        decreases n - i,
    {
        assert(views(pieces@)[i as int] == pieces@[i as int]@);
        let line = if i + 1 < n {
            without_cr(pieces[i].as_str())
        } else {
            pieces[i].clone()
        };
        assert(line@ == raw[i as int]);
        assert(raw.subrange(0, i as int + 1).drop_last() =~= raw.subrange(0, i as int));
        if line.unicode_len() > 0 {
            let ghost before = out@;
            out.push(line);
            assert(views(out@) =~= views(before).push(line@)) by {
                assert(out@ =~= before.push(line));
            }
        }
        i = i + 1;
    }
    assert(raw.subrange(0, n as int) =~= raw);
    out
}

/// The lines of `t` as `str::lines` gives them: as `raw_lines`, but a line
/// feed at the very end does not start another line.
pub open spec fn text_lines(t: Seq<char>) -> Seq<Seq<char>> {
    let r = raw_lines(t);
    if r.len() > 0 && r.last().len() == 0 {
        r.drop_last()
    } else {
        r
    }
}

/// The lines of `t`, in order.
pub fn lines_of(t: &str) -> (r: Vec<String>)
    ensures
        views(r@) == text_lines(t@),
{
    let pieces = split_at_char(t, '\n');
    let ghost raw = raw_lines(t@);
    proof {
        lemma_split_char_nonempty(t@, '\n');
    }
    let n = pieces.len();
    let mut out: Vec<String> = Vec::new();
    let mut i: usize = 0;
    while i < n
        invariant
            n == pieces@.len(),
            n >= 1,
            views(pieces@) == split_char(t@, '\n'),
            raw == raw_lines(t@),
            raw.len() == n,
            i <= n,
            views(out@) == raw.subrange(0, i as int),
        decreases n - i,
    {
        assert(views(pieces@)[i as int] == pieces@[i as int]@);
        let line = if i + 1 < n {
            without_cr(pieces[i].as_str())
        } else {
            pieces[i].clone()
        };
        assert(line@ == raw[i as int]);
        let ghost before = out@;
        out.push(line);
        assert(views(out@) =~= views(before).push(line@)) by {
            assert(out@ =~= before.push(line));
        }
        assert(raw.subrange(0, i as int + 1) =~= raw.subrange(0, i as int).push(raw[i as int]));
        i = i + 1;
    }
    assert(raw.subrange(0, n as int) =~= raw);
    if out[n - 1].unicode_len() == 0 {
        let ghost before = out@;
        out.pop();
        assert(views(out@) =~= raw.drop_last()) by {
            assert(out@ =~= before.drop_last());
        }
    }
    out
}

/// `s` split at each `||`, scanning from position `i` with the current piece
/// starting at `start`; a `||` found is skipped whole.
pub open spec fn split_bars_from(s: Seq<char>, i: int, start: int) -> Seq<Seq<char>>
    decreases s.len() - i,
{
    if i >= s.len() {
        seq![s.subrange(start, s.len() as int)]
    } else if i + 1 < s.len() && s[i] == '|' && s[i + 1] == '|' {
        seq![s.subrange(start, i)] + split_bars_from(s, i + 2, i + 2)
    } else {
        split_bars_from(s, i + 1, start)
    }
}

/// The columns of a configuration line: `s` split at each `||`, from left to
/// right.
pub open spec fn split_bars(s: Seq<char>) -> Seq<Seq<char>> {
    split_bars_from(s, 0, 0)
}

/// Splits `s` at each `||`.
pub fn split_at_bars(s: &str) -> (r: Vec<String>)
    ensures
        views(r@) == split_bars(s@),
{
    let n = s.unicode_len();
    let mut pieces: Vec<String> = Vec::new();
    let mut start: usize = 0;
    let mut i: usize = 0;
    while i < n
        invariant
            n == s@.len(),
            start <= i <= n,
            views(pieces@) + split_bars_from(s@, i as int, start as int) == split_bars(s@),
        decreases n - i,
    {
        if i + 1 < n && s.get_char(i) == '|' && s.get_char(i + 1) == '|' {
            let ghost before = pieces@;
            let piece = String::from_str(s.substring_char(start, i));
            pieces.push(piece);
            assert(views(pieces@) =~= views(before).push(piece@)) by {
                assert(pieces@ =~= before.push(piece));
            }
            assert(views(pieces@) + split_bars_from(s@, i + 2, i + 2) =~= views(before)
                + split_bars_from(s@, i as int, start as int));
            start = i + 2;
            i = i + 2;
        } else {
            i = i + 1;
        }
    }
    let ghost before = pieces@;
    let piece = String::from_str(s.substring_char(start, n));
    pieces.push(piece);
    assert(views(pieces@) =~= views(before).push(piece@)) by {
        assert(pieces@ =~= before.push(piece));
    }
    assert(views(pieces@) =~= views(before) + split_bars_from(s@, i as int, start as int));
    pieces
}

/// The members of `l` joined with `,` between them.
pub open spec fn join_commas(l: Seq<Seq<char>>) -> Seq<char>
    decreases l.len(),
{
    if l.len() == 0 {
        Seq::empty()
    } else if l.len() == 1 {
        l[0]
    } else {
        join_commas(l.drop_last()) + seq![','] + l.last()
    }
}

/// Whether `c` occurs nowhere in `s`.
pub open spec fn lacks(s: Seq<char>, c: char) -> bool {
    forall|i: int| 0 <= i < s.len() ==> s[i] != c
}

/// Appending text without a separator extends the last piece.
proof fn lemma_split_append(x: Seq<char>, b: Seq<char>, sep: char)
    requires
        lacks(b, sep),
    ensures
        split_char(x + b, sep) == split_char(x, sep).update(
            split_char(x, sep).len() - 1,
            split_char(x, sep).last() + b,
        ),
    decreases b.len(),
{
    lemma_split_char_nonempty(x, sep);
    let sx = split_char(x, sep);
    if b.len() == 0 {
        assert(x + b =~= x);
        assert(sx.last() + b =~= sx.last());
        assert(sx.update(sx.len() - 1, sx.last() + b) =~= sx);
    } else {
        let b0 = b.drop_last();
        lemma_split_append(x, b0, sep);
        assert((x + b).drop_last() =~= x + b0);
        assert((x + b).last() == b.last());
        let rest = split_char(x + b0, sep);
        assert(rest.last() == sx.last() + b0);
        assert(rest.last().push(b.last()) =~= sx.last() + b);
        assert(rest.update(rest.len() - 1, rest.last().push(b.last())) =~= sx.update(
            sx.len() - 1,
            sx.last() + b,
        ));
    }
}

/// Splitting members joined with a separator that none of them holds gives
/// the members back.
pub proof fn lemma_split_join(l: Seq<Seq<char>>)
    requires
        l.len() >= 1,
        forall|i: int| 0 <= i < l.len() ==> lacks(#[trigger] l[i], ','),
    ensures
        split_char(join_commas(l), ',') == l,
    decreases l.len(),
{
    if l.len() == 1 {
        lemma_split_append(Seq::empty(), l[0], ',');
        assert(Seq::<char>::empty() + l[0] =~= l[0]);
        assert(split_char(Seq::<char>::empty(), ',') =~= seq![Seq::<char>::empty()]);
        assert(Seq::<char>::empty() + l[0] =~= l[0]);
        assert(l =~= seq![l[0]]);
    } else {
        let init = l.drop_last();
        assert forall|i: int| 0 <= i < init.len() implies lacks(#[trigger] init[i], ',') by {
            assert(init[i] == l[i]);
        }
        lemma_split_join(init);
        let j = join_commas(init) + seq![','];
        assert(j.drop_last() =~= join_commas(init));
        assert(split_char(j, ',') == l.drop_last().push(Seq::empty()));
        assert(lacks(l.last(), ',')) by {
            assert(l.last() == l[l.len() - 1]);
        }
        lemma_split_append(j, l.last(), ',');
        assert(Seq::<char>::empty() + l.last() =~= l.last());
        assert(l.drop_last().push(Seq::empty()).update(l.len() - 1, l.last()) =~= l);
    }
}

/// A joined text holds no character that none of the members holds, other
/// than `,`.
pub proof fn lemma_join_lacks(l: Seq<Seq<char>>, c: char)
    requires
        c != ',',
        forall|i: int| 0 <= i < l.len() ==> lacks(#[trigger] l[i], c),
    ensures
        lacks(join_commas(l), c),
    decreases l.len(),
{
    if l.len() == 1 {
        assert(lacks(l[0], c));
    } else if l.len() > 1 {
        let init = l.drop_last();
        assert forall|i: int| 0 <= i < init.len() implies lacks(#[trigger] init[i], c) by {
            assert(init[i] == l[i]);
        }
        lemma_join_lacks(init, c);
        assert(lacks(l.last(), c)) by {
            assert(l.last() == l[l.len() - 1]);
        }
        let j = join_commas(l);
        assert forall|i: int| 0 <= i < j.len() implies j[i] != c by {
            let a = join_commas(init);
            if i < a.len() {
                assert(j[i] == a[i]);
            } else if i > a.len() {
                assert(j[i] == l.last()[i - a.len() - 1]);
            }
        }
    }
}

/// The decimal digits of a number are at least one, the first of them a digit
/// character, and two of them or more from ten on.
proof fn lemma_digits_shape(n: nat)
    ensures
        digits_of(n).len() >= 1,
        n >= 10 ==> digits_of(n).len() >= 2,
        digits_of(n)[0] != '-',
    decreases n,
{
    if n >= 10 {
        lemma_digits_shape(n / 10);
        assert(digits_of(n)[0] == digits_of(n / 10)[0]);
    }
}

/// Different numbers have different decimal digits.
proof fn lemma_digits_injective(a: nat, b: nat)
    requires
        digits_of(a) == digits_of(b),
    ensures
        a == b,
    decreases a,
{
    lemma_digits_shape(a);
    lemma_digits_shape(b);
    if a >= 10 && b >= 10 {
        let da = digits_of(a / 10);
        let db = digits_of(b / 10);
        assert(digits_of(a).drop_last() =~= da);
        assert(digits_of(b).drop_last() =~= db);
        lemma_digits_injective(a / 10, b / 10);
        assert(digits_of(a).last() == digit_char((a % 10) as nat));
        assert(digits_of(b).last() == digit_char((b % 10) as nat));
        assert(a % 10 == b % 10);
    } else if a < 10 && b < 10 {
        assert(digits_of(a)[0] == digit_char(a));
        assert(digits_of(b)[0] == digit_char(b));
    }
}

/// Different integers have different decimal texts.
pub proof fn lemma_decimal_text_injective(v: int, w: int)
    requires
        decimal_text(v) == decimal_text(w),
    ensures
        v == w,
{
    if v < 0 && w < 0 {
        let dv = digits_of((-v) as nat);
        let dw = digits_of((-w) as nat);
        assert((seq!['-'] + dv).drop_first() =~= dv);
        assert((seq!['-'] + dw).drop_first() =~= dw);
        lemma_digits_injective((-v) as nat, (-w) as nat);
    } else if v >= 0 && w >= 0 {
        lemma_digits_injective(v as nat, w as nat);
    } else if v < 0 {
        lemma_digits_shape(w as nat);
        assert((seq!['-'] + digits_of((-v) as nat))[0] == '-');
    } else {
        lemma_digits_shape(v as nat);
        assert((seq!['-'] + digits_of((-w) as nat))[0] == '-');
    }
}

} // verus!
