//! Splitting text into lines and whitespace-separated words, and reading
//! small unsigned integers, stated over the text's characters.
use vstd::prelude::*;

verus! {

/// The characters with Unicode's White_Space property.
pub open spec fn is_space(c: char) -> bool {
    let u = c as u32;
    (0x09 <= u <= 0x0D) || u == 0x20 || u == 0x85 || u == 0xA0 || u == 0x1680 || (0x2000 <= u
        <= 0x200A) || u == 0x2028 || u == 0x2029 || u == 0x202F || u == 0x205F || u == 0x3000
}

/// The lines of `s`: the pieces between `'\n'` characters (always at least one).
pub open spec fn lines(s: Seq<char>) -> Seq<Seq<char>>
    decreases s.len(),
{
    if s.len() == 0 {
        seq![Seq::empty()]
    } else {
        let prev = lines(s.drop_last());
        if s.last() == '\n' {
            prev.push(Seq::empty())
        } else {
            prev.update(prev.len() - 1, prev.last().push(s.last()))
        }
    }
}

/// The maximal runs of non-space characters of `s`, in order.
pub open spec fn words(s: Seq<char>) -> Seq<Seq<char>>
    decreases s.len(),
{
    if s.len() == 0 {
        Seq::empty()
    } else {
        let prev = words(s.drop_last());
        if is_space(s.last()) {
            prev
        } else if s.len() >= 2 && !is_space(s[s.len() - 2]) {
            prev.update(prev.len() - 1, prev.last().push(s.last()))
        } else {
            prev.push(seq![s.last()])
        }
    }
}

pub proof fn lemma_lines_not_empty(s: Seq<char>)
    ensures
        lines(s).len() >= 1,
    decreases s.len(),
{
    if s.len() > 0 {
        lemma_lines_not_empty(s.drop_last());
    }
}

pub open spec fn is_digit(c: char) -> bool {
    '0' <= c && c <= '9'
}

/// The number written by the decimal digits `d`.
pub open spec fn digits_value(d: Seq<char>) -> nat
    decreases d.len(),
{
    if d.len() == 0 {
        0
    } else {
        digits_value(d.drop_last()) * 10 + (d.last() as nat - '0' as nat) as nat
    }
}

/// `s` without one leading `'+'`.
pub open spec fn unsigned_part(s: Seq<char>) -> Seq<char> {
    if s.len() > 0 && s[0] == '+' {
        s.drop_first()
    } else {
        s
    }
}

pub open spec fn all_digits(d: Seq<char>) -> bool {
    forall|i: int| 0 <= i < d.len() ==> is_digit(#[trigger] d[i])
}

/// An unsigned integer as Rust's `u8::from_str` reads it: an optional `'+'`,
/// then at least one decimal digit, with a value that fits in a `u8`.
pub open spec fn parse_u8(s: Seq<char>) -> Option<u8> {
    let d = unsigned_part(s);
    if d.len() > 0 && all_digits(d) && digits_value(d) <= 255 {
        Some(digits_value(d) as u8)
    } else {
        None
    }
}

pub proof fn lemma_digits_value_monotone(d: Seq<char>, i: int)
    requires
        0 <= i <= d.len(),
        forall|j: int| 0 <= j < d.len() ==> is_digit(#[trigger] d[j]),
    ensures
        digits_value(d.subrange(0, i)) <= digits_value(d),
    decreases d.len(),
{
    if i < d.len() {
        let p = d.drop_last();
        assert(p.subrange(0, i) =~= d.subrange(0, i));
        assert forall|j: int| 0 <= j < p.len() implies is_digit(#[trigger] p[j]) by {
            assert(p[j] == d[j]);
        }
        lemma_digits_value_monotone(p, i);
    } else {
        assert(d.subrange(0, i) =~= d);
    }
}

pub proof fn lemma_parse_u8_has_no_x(s: Seq<char>, k: int)
    requires
        parse_u8(s) is Some,
        0 <= k < s.len(),
    ensures
        s[k] != 'x',
{
    let d = unsigned_part(s);
    if s.len() > 0 && s[0] == '+' {
        if k > 0 {
            assert(d[k - 1] == s[k]);
        }
    } else {
        assert(is_digit(d[k]));
    }
}

pub fn char_is_space(c: char) -> (r: bool)
    ensures
        r == is_space(c),
{
    let u = c as u32;
    (0x09 <= u && u <= 0x0D) || u == 0x20 || u == 0x85 || u == 0xA0 || u == 0x1680 || (0x2000 <= u
        && u <= 0x200A) || u == 0x2028 || u == 0x2029 || u == 0x202F || u == 0x205F || u == 0x3000
}

/// The words of the characters of `text` from `start` up to `end`.
pub fn split_words<'a>(text: &'a str, start: usize, end: usize) -> (r: Vec<&'a str>)
    requires
        start <= end <= text@.len(),
    ensures
        r@.len() == words(text@.subrange(start as int, end as int)).len(),
        forall|k: int|
            0 <= k < r@.len() ==> #[trigger] r@[k]@ == words(
                text@.subrange(start as int, end as int),
            )[k],
{
    let ghost s = text@;
    let mut ws: Vec<&'a str> = Vec::new();
    let mut in_word: bool = false;
    let mut word_start: usize = start;
    let mut i: usize = start;
    while i < end
        invariant
            start <= word_start <= i <= end <= s.len(),
            s == text@,
            in_word ==> word_start < i,
            ({
                let w = words(s.subrange(start as int, i as int));
                let n = ws@.len();
                &&& w.len() == n + if in_word {
                    1int
                } else {
                    0int
                }
                &&& forall|k: int| 0 <= k < n ==> #[trigger] ws@[k]@ == w[k]
                &&& in_word ==> w[n as int] == s.subrange(word_start as int, i as int)
            }),
            in_word <==> (i > start && !is_space(s[i - 1])),
        decreases end - i,
    {
        let c = text.get_char(i);
        let ghost prev = s.subrange(start as int, i as int);
        let ghost next = s.subrange(start as int, i + 1);
        assert(next.drop_last() =~= prev);
        assert(next.last() == c);
        if char_is_space(c) {
            if in_word {
                let w = text.substring_char(word_start, i);
                ws.push(w);
            }
            in_word = false;
        } else {
            if !in_word {
                word_start = i;
                assert(s.subrange(i as int, i + 1) =~= seq![c]);
            } else {
                assert(next.len() >= 2 && next[next.len() - 2] == s[i - 1]);
                assert(s.subrange(word_start as int, i + 1) =~= s.subrange(
                    word_start as int,
                    i as int,
                ).push(c));
            }
            in_word = true;
        }
        i = i + 1;
    }
    if in_word {
        let w = text.substring_char(word_start, end);
        ws.push(w);
    }
    ws
}

/// Whether the characters of `w` are exactly those of `k`.
pub fn same_chars(w: &str, k: &str) -> (r: bool)
    ensures
        r == (w@ == k@),
{
    let n = w.unicode_len();
    if n != k.unicode_len() {
        return false;
    }
    let mut i: usize = 0;
    while i < n
        invariant
            n == w@.len() == k@.len(),
            i <= n,
            forall|j: int| 0 <= j < i ==> w@[j] == k@[j],
        decreases n - i,
    {
        if w.get_char(i) != k.get_char(i) {
            return false;
        }
        i = i + 1;
    }
    assert(w@ =~= k@);
    true
}

/// Reads `w` as Rust's `u8::from_str` does.
pub fn read_u8(w: &str) -> (r: Option<u8>)
    ensures
        r == parse_u8(w@),
{
    let ghost s = w@;
    let n = w.unicode_len();
    let mut i: usize = 0;
    if n > 0 && w.get_char(0) == '+' {
        i = 1;
    }
    let first: usize = i;
    let ghost d = s.subrange(first as int, n as int);
    assert(d =~= unsigned_part(s));
    if i == n {
        return None;
    }
    let mut value: u32 = 0;
    while i < n
        invariant
            first <= i <= n == s.len(),
            s == w@,
            d == s.subrange(first as int, n as int),
            d == unsigned_part(s),
            forall|j: int| first <= j < i ==> is_digit(#[trigger] s[j]),
            value == digits_value(s.subrange(first as int, i as int)),
            value <= 255,
        decreases n - i,
    {
        let c = w.get_char(i);
        if !('0' <= c && c <= '9') {
            assert(d[i - first] == c);
            assert(!is_digit(d[i - first]));
            return None;
        }
        let ghost p = s.subrange(first as int, i + 1);
        assert(p.drop_last() =~= s.subrange(first as int, i as int));
        let v = value * 10 + (c as u32 - '0' as u32);
        assert(p.last() == c);
        assert(digits_value(p) == v);
        if v > 255 {
            proof {
                let j = (i + 1 - first) as int;
                assert(d.subrange(0, j) =~= p);
                if all_digits(d) {
                    lemma_digits_value_monotone(d, j);
                }
            }
            return None;
        }
        value = v;
        i = i + 1;
    }
    Some(value as u8)
}

} // verus!
