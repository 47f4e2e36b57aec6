//! Small verified helpers for building strings.

use vstd::prelude::*;

verus! {

/// The decimal digit character for `d`, which is below ten.
pub open spec fn digit_char(d: nat) -> char {
    if d == 0 {
        '0'
    } else if d == 1 {
        '1'
    } else if d == 2 {
        '2'
    } else if d == 3 {
        '3'
    } else if d == 4 {
        '4'
    } else if d == 5 {
        '5'
    } else if d == 6 {
        '6'
    } else if d == 7 {
        '7'
    } else if d == 8 {
        '8'
    } else {
        '9'
    }
}

/// The decimal numeral of `n`, most significant digit first, without leading zeros.
pub open spec fn decimal(n: nat) -> Seq<char>
    decreases n,
{
    if n < 10 {
        seq![digit_char(n)]
    } else {
        decimal(n / 10).push(digit_char(n % 10))
    }
}

/// `String::push` of the standard library: appends one character to the end of the string.
#[verifier::external_body]
fn push_char(s: &mut String, c: char)
    ensures
        final(s)@ == old(s)@.push(c),
{
    s.push(c)
}

fn digit(d: u64) -> (c: char)
    requires
        d < 10,
    ensures
        c == digit_char(d as nat),
{
    if d == 0 {
        '0'
    } else if d == 1 {
        '1'
    } else if d == 2 {
        '2'
    } else if d == 3 {
        '3'
    } else if d == 4 {
        '4'
    } else if d == 5 {
        '5'
    } else if d == 6 {
        '6'
    } else if d == 7 {
        '7'
    } else if d == 8 {
        '8'
    } else {
        '9'
    }
}

/// Appends the decimal numeral of `n` to `s`.
pub fn push_decimal(s: &mut String, n: u64)
    ensures
        final(s)@ == old(s)@ + decimal(n as nat),
    decreases n,
{
    if n >= 10 {
        push_decimal(s, n / 10);
    }
    push_char(s, digit(n % 10));
    assert(s@ =~= old(s)@ + decimal(n as nat));
}

/// The decimal numeral of `n` as a string.
pub fn decimal_string(n: u64) -> (s: String)
    ensures
        s@ == decimal(n as nat),
{
    let mut s = String::new();
    push_decimal(&mut s, n);
    assert(s@ =~= decimal(n as nat));
    s
}

/// The concatenation of two strings.
pub fn join2(a: &str, b: &str) -> (s: String)
    ensures
        s@ == a@ + b@,
{
    let mut s = String::from_str(a);
    s.append(b);
    s
}

} // verus!

verus! {

/// The text `text` held to the length `limit`, where there is one: cut to at most `limit`
/// characters, and, where `pad` is set, filled up with blanks to that length.
pub open spec fn limited_to(text: Seq<char>, limit: Option<usize>, pad: bool) -> Seq<char> {
    match limit {
        None => text,
        Some(l) => {
            let cut = if text.len() <= l {
                text
            } else {
                text.take(l as int)
            };
            if pad {
                cut + Seq::new((l - cut.len()) as nat, |i: int| ' ')
            } else {
                cut
            }
        },
    }
}

/// The text `text` held to the length `limit`; see [`limited_to`].
pub fn limited(text: &str, limit: Option<usize>, pad: bool) -> (r: String)
    ensures
        r@ == limited_to(text@, limit, pad),
{
    let l: usize = match limit {
        None => {
            return String::from_str(text);
        },
        Some(l) => l,
    };
    let n: usize = text.unicode_len();
    let kept: usize = if n <= l {
        n
    } else {
        l
    };
    let mut r = String::from_str(text.substring_char(0, kept));
    let ghost cut = r@;
    assert(cut =~= if text@.len() <= l {
        text@
    } else {
        text@.take(l as int)
    });
    if pad {
        let mut i: usize = kept;
        while i < l
            invariant
                kept <= i <= l,
                cut.len() == kept,
                r@ == cut + Seq::new((i - kept) as nat, |j: int| ' '),
            decreases l - i,
        {
            push_char(&mut r, ' ');
            assert(r@ =~= cut + Seq::new((i + 1 - kept) as nat, |j: int| ' '));
            i += 1;
        }
    } else {
        assert(r@ =~= cut);
    }
    r
}

/// The text of the characters of `chars` from the position `from` up to, and without, `to`.
pub fn text_of_chars(chars: &Vec<char>, from: usize, to: usize) -> (s: String)
    requires
        from <= to <= chars@.len(),
    ensures
        s@ == chars@.subrange(from as int, to as int),
{
    let mut s = String::new();
    let mut i: usize = from;
    assert(s@ =~= chars@.subrange(from as int, from as int));
    while i < to
        invariant
            from <= i <= to,
            to <= chars@.len(),
            s@ == chars@.subrange(from as int, i as int),
        decreases to - i,
    {
        push_char(&mut s, chars[i]);
        assert(s@ =~= chars@.subrange(from as int, i + 1));
        i += 1;
    }
    s
}

/// The last position of `s` that holds `c`, or -1 where none does.
pub open spec fn last_index_of_char(s: Seq<char>, c: char) -> int
    decreases s.len(),
{
    if s.len() == 0 {
        -1
    } else if s.last() == c {
        s.len() - 1
    } else {
        last_index_of_char(s.drop_last(), c)
    }
}

/// `last_index_of_char` finds the position after which `c` does not occur again.
pub proof fn lemma_last_index_of_char(s: Seq<char>, c: char, j: int)
    requires
        -1 <= j < s.len(),
        j >= 0 ==> s[j] == c,
        forall|i: int| j < i < s.len() ==> s[i] != c,
    ensures
        last_index_of_char(s, c) == j,
    decreases s.len(),
{
    if s.len() > 0 && j != s.len() - 1 {
        lemma_last_index_of_char(s.drop_last(), c, j);
    }
}

/// The last position of `s` that holds `c`, counted in characters.
pub fn rfind_char(s: &str, c: char) -> (p: Option<usize>)
    ensures
        p.is_some() == (last_index_of_char(s@, c) >= 0),
        p.is_some() ==> p.unwrap() == last_index_of_char(s@, c) && p.unwrap() < s@.len(),
{
    let n: usize = s.unicode_len();
    let mut j: usize = n;
    while j > 0
        invariant
            j <= n,
            n == s@.len(),
            forall|i: int| j <= i < s@.len() ==> s@[i] != c,
        decreases j,
    {
        if s.get_char(j - 1) == c {
            proof {
                lemma_last_index_of_char(s@, c, j - 1);
            }
            return Some(j - 1);
        }
        j -= 1;
    }
    proof {
        lemma_last_index_of_char(s@, c, -1);
    }
    None
}

/// The part of `s` from the character at `from` up to, and without, the one at `to`.
pub fn part(s: &str, from: usize, to: usize) -> (r: String)
    requires
        from <= to <= s@.len(),
    ensures
        r@ == s@.subrange(from as int, to as int),
{
    String::from_str(s.substring_char(from, to))
}

} // verus!
