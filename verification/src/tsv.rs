//! Lines of tab-separated values: a line is cut at its tabs, each field is trimmed, and a
//! field that is a whole number becomes a number, any other a text.

use crate::data::{DataType, Row, Value};
use crate::text::text_of_chars;
use vstd::prelude::*;

verus! {

/// Whether `c` is white space.
pub open spec fn is_space(c: char) -> bool {
    let n = c as u32;
    (9 <= n <= 13) || n == 0x20 || n == 0x85 || n == 0xA0 || n == 0x1680 || (0x2000 <= n
        <= 0x200A) || n == 0x2028 || n == 0x2029 || n == 0x202F || n == 0x205F || n == 0x3000
}

/// Whether `c` is white space.
pub fn space(c: char) -> (b: bool)
    ensures
        b == is_space(c),
{
    let n: u32 = c as u32;
    (9 <= n && n <= 13) || n == 0x20 || n == 0x85 || n == 0xA0 || n == 0x1680 || (0x2000 <= n
        && n <= 0x200A) || n == 0x2028 || n == 0x2029 || n == 0x202F || n == 0x205F || n
        == 0x3000
}

/// The fields of a line: the parts between its tabs, in order. A line without a tab is one
/// field.
pub open spec fn fields_of(line: Seq<char>) -> Seq<Seq<char>>
    decreases line.len(),
{
    if line.len() == 0 {
        seq![Seq::<char>::empty()]
    } else {
        let before = fields_of(line.drop_last());
        if line.last() == '\t' {
            before.push(Seq::<char>::empty())
        } else if before.len() == 0 {
            seq![seq![line.last()]]
        } else {
            before.update(before.len() - 1, before.last().push(line.last()))
        }
    }
}

/// A line has at least one field.
pub proof fn lemma_fields(line: Seq<char>)
    ensures
        fields_of(line).len() >= 1,
    decreases line.len(),
{
    if line.len() > 0 {
        lemma_fields(line.drop_last());
    }
}

/// The first position of `s`, from `from` on and before `to`, that holds no white space;
/// `to` where there is none.
pub open spec fn first_mark(s: Seq<char>, from: int, to: int) -> int
    decreases to - from,
{
    if from < to && 0 <= from < s.len() && is_space(s[from]) {
        first_mark(s, from + 1, to)
    } else {
        from
    }
}

/// The position after the last of `s`, before `to` and not before `from`, that holds no
/// white space; `from` where there is none.
pub open spec fn last_mark(s: Seq<char>, from: int, to: int) -> int
    decreases to - from,
{
    if from < to && 0 < to <= s.len() && is_space(s[to - 1]) {
        last_mark(s, from, to - 1)
    } else {
        to
    }
}

/// `s` without the white space at its start and at its end.
pub open spec fn trimmed(s: Seq<char>) -> Seq<char> {
    let a = first_mark(s, 0, s.len() as int);
    let b = last_mark(s, a, s.len() as int);
    s.subrange(a, b)
}

/// The marks lie between their bounds.
pub proof fn lemma_marks(s: Seq<char>, from: int, to: int)
    requires
        0 <= from <= to <= s.len(),
    ensures
        from <= first_mark(s, from, to) <= to,
        from <= last_mark(s, from, to) <= to,
    decreases to - from,
{
    if from < to {
        if is_space(s[from]) {
            lemma_marks(s, from + 1, to);
        }
        if is_space(s[to - 1]) {
            lemma_marks(s, from, to - 1);
        }
    }
}

/// Whether `c` is one of the ten digits.
pub open spec fn is_digit(c: char) -> bool {
    '0' <= c <= '9'
}

/// Whether every character of `s` is a digit.
pub open spec fn all_digits(s: Seq<char>) -> bool {
    forall|i: int| 0 <= i < s.len() ==> is_digit(#[trigger] s[i])
}

/// The number that the digits `s` spell.
pub open spec fn digits_value(s: Seq<char>) -> int
    decreases s.len(),
{
    if s.len() == 0 {
        0
    } else {
        digits_value(s.drop_last()) * 10 + (s.last() as u32 - '0' as u32)
    }
}

/// More digits spell no lesser number.
pub proof fn lemma_digits_grow(s: Seq<char>, k: int)
    requires
        0 <= k <= s.len(),
        all_digits(s),
    ensures
        0 <= digits_value(s.take(k)) <= digits_value(s),
    decreases s.len() - k,
{
    lemma_digits_positive(s.take(k));
    if k < s.len() {
        lemma_digits_grow(s, k + 1);
        assert(s.take(k + 1).drop_last() =~= s.take(k));
        lemma_digits_positive(s.take(k));
    } else {
        assert(s.take(k) =~= s);
    }
}

/// Digits spell no negative number.
pub proof fn lemma_digits_positive(s: Seq<char>)
    requires
        all_digits(s),
    ensures
        digits_value(s) >= 0,
    decreases s.len(),
{
    if s.len() > 0 {
        assert(is_digit(s.last()));
        assert(all_digits(s.drop_last())) by {
            assert forall|i: int| 0 <= i < s.drop_last().len() implies is_digit(
                #[trigger] s.drop_last()[i],
            ) by {
                assert(s.drop_last()[i] == s[i]);
            }
        }
        lemma_digits_positive(s.drop_last());
    }
}

/// The digits of a numeral: what follows its sign, if it has one.
pub open spec fn numeral_body(s: Seq<char>) -> Seq<char> {
    if s.len() > 0 && (s[0] == '-' || s[0] == '+') {
        s.skip(1)
    } else {
        s
    }
}

/// The whole number that `s` spells, if it spells one that fits 64 bits: digits, at least
/// one, after at most one sign.
pub open spec fn number_of(s: Seq<char>) -> Option<int> {
    let body = numeral_body(s);
    if body.len() == 0 || !all_digits(body) {
        None
    } else {
        let v = if s[0] == '-' {
            -digits_value(body)
        } else {
            digits_value(body)
        };
        if i64::MIN <= v <= i64::MAX {
            Some(v)
        } else {
            None
        }
    }
}

/// The value of a field: the number that the trimmed field spells, or else the trimmed
/// field as a text.
pub open spec fn value_of(field: Seq<char>) -> Value {
    match number_of(trimmed(field)) {
        Some(v) => Value::Int(v),
        None => Value::Text(trimmed(field)),
    }
}

/// The values of a line: the value of each of its fields.
pub open spec fn values_of(line: Seq<char>) -> Row {
    Seq::new(fields_of(line).len(), |i: int| value_of(fields_of(line)[i]))
}

/// The whole number that the characters of `chars` from `from` up to `to` spell; see
/// [`number_of`].
pub fn number(chars: &Vec<char>, from: usize, to: usize) -> (r: Option<i64>)
    requires
        from <= to <= chars@.len(),
    ensures
        match number_of(chars@.subrange(from as int, to as int)) {
            Some(v) => r == Some(v as i64),
            None => r.is_none(),
        },
{
    let ghost s = chars@.subrange(from as int, to as int);
    if from == to {
        return None;
    }
    assert(s[0] == chars@[from as int]);
    let negative: bool = chars[from] == '-';
    let start: usize = if negative || chars[from] == '+' {
        from + 1
    } else {
        from
    };
    let ghost body = numeral_body(s);
    assert(body =~= chars@.subrange(start as int, to as int));
    if start == to {
        return None;
    }
    let mut acc: i128 = 0;
    let mut i: usize = start;
    let limit: i128 = 9223372036854775808;
    assert(body.take(0) =~= Seq::<char>::empty());
    while i < to
        invariant
            start <= i <= to,
            to <= chars@.len(),
            from <= start,
            s == chars@.subrange(from as int, to as int),
            body == numeral_body(s),
            body == chars@.subrange(start as int, to as int),
            body.len() > 0,
            negative == (s[0] == '-'),
            all_digits(body.take(i - start)),
            acc == digits_value(body.take(i - start)),
            0 <= acc <= limit,
            limit == 9223372036854775808,
        decreases to - i,
    {
        let c: char = chars[i];
        assert(body[i - start] == c);
        assert(body.take(i - start + 1).drop_last() =~= body.take(i - start));
        assert(body.take(i - start + 1).last() == c);
        if c < '0' || c > '9' {
            assert(!is_digit(body[i - start]));
            return None;
        }
        let d: u32 = c as u32 - '0' as u32;
        acc = acc * 10 + d as i128;
        proof {
            assert(all_digits(body.take(i - start + 1))) by {
                assert forall|j: int| 0 <= j < i - start + 1 implies is_digit(
                    #[trigger] body.take(i - start + 1)[j],
                ) by {
                    if j < i - start {
                        assert(body.take(i - start + 1)[j] == body.take(i - start)[j]);
                    }
                }
            }
        }
        if acc > limit {
            proof {
                if all_digits(body) {
                    lemma_digits_grow(body, i - start + 1);
                }
            }
            return None;
        }
        i += 1;
    }
    assert(body.take(to - start) =~= body);
    if negative {
        Some((-acc) as i64)
    } else if acc == limit {
        None
    } else {
        Some(acc as i64)
    }
}

/// The value of the field that the characters `field` make up; see [`value_of`].
pub fn field_value(field: &Vec<char>) -> (v: DataType)
    ensures
        v@ == value_of(field@),
{
    let n: usize = field.len();
    let mut a: usize = 0;
    while a < n && space(field[a])
        invariant
            a <= n,
            n == field@.len(),
            first_mark(field@, 0, n as int) == first_mark(field@, a as int, n as int),
        decreases n - a,
    {
        a += 1;
    }
    let mut b: usize = n;
    while a < b && space(field[b - 1])
        invariant
            a <= b <= n,
            n == field@.len(),
            last_mark(field@, a as int, n as int) == last_mark(field@, a as int, b as int),
        decreases b - a,
    {
        b -= 1;
    }
    assert(trimmed(field@) == field@.subrange(a as int, b as int));
    match number(field, a, b) {
        Some(v) => DataType::Int(v),
        None => DataType::Text(text_of_chars(field, a, b)),
    }
}

/// The values of a line of tab-separated values; see [`values_of`].
pub fn parse_line(line: &str) -> (row: Vec<DataType>)
    ensures
        row.deep_view() == values_of(line@),
{
    let n: usize = line.unicode_len();
    let mut fields: Vec<Vec<char>> = Vec::new();
    let mut current: Vec<char> = Vec::new();
    let mut i: usize = 0;
    assert(line@.take(0) =~= Seq::<char>::empty());
    while i < n
        invariant
            i <= n,
            n == line@.len(),
            fields_of(line@.take(i as int)).len() == fields@.len() + 1,
            forall|j: int|
                0 <= j < fields@.len() ==> (#[trigger] fields@[j])@ == fields_of(
                    line@.take(i as int),
                )[j],
            current@ == fields_of(line@.take(i as int)).last(),
        decreases n - i,
    {
        let c: char = line.get_char(i);
        proof {
            assert(line@.take(i + 1).drop_last() =~= line@.take(i as int));
            assert(line@.take(i + 1).last() == c);
            lemma_fields(line@.take(i as int));
        }
        if c == '\t' {
            fields.push(current);
            current = Vec::new();
        } else {
            current.push(c);
        }
        i += 1;
    }
    assert(line@.take(n as int) =~= line@);
    fields.push(current);
    let ghost all = fields_of(line@);
    let mut row: Vec<DataType> = Vec::new();
    let mut k: usize = 0;
    while k < fields.len()
        invariant
            k <= fields@.len(),
            fields@.len() == all.len(),
            forall|j: int| 0 <= j < fields@.len() ==> (#[trigger] fields@[j])@ == all[j],
            row@.len() == k,
            forall|j: int| 0 <= j < k ==> (#[trigger] row@[j])@ == value_of(all[j]),
        decreases fields@.len() - k,
    {
        row.push(field_value(&fields[k]));
        k += 1;
    }
    assert(row.deep_view() =~= values_of(line@)) by {
        assert(row.deep_view().len() == row@.len());
        assert forall|j: int| 0 <= j < row@.len() implies row.deep_view()[j] == value_of(
            all[j],
        ) by {
            assert(row.deep_view()[j] == row@[j]@);
        }
    }
    row
}

} // verus!
