//! Text utilities: decimal numerals and separator-based splitting, with
//! specifications over `Seq<char>`.

use vstd::prelude::*;

verus! {

/// Whether `c` is an ASCII decimal digit.
pub open spec fn is_digit_char(c: char) -> bool {
    '0' as int <= c as int && c as int <= '9' as int
}

/// The numeric value of an ASCII decimal digit.
pub open spec fn digit_val(c: char) -> nat
    recommends
        is_digit_char(c),
{
    (c as int - '0' as int) as nat
}

/// The ASCII digit character for a value below ten.
pub open spec fn digit_char(d: nat) -> char
    recommends
        d < 10,
{
    if d == 0 {
        '0'
    } else if d == 1 {
        '1'
    } else if d == 2 {
        '2'
    } else if d == 3 {
        '3'
    } else if d == 4 {
        '4'
    } else if d == 5 {
        '5'
    } else if d == 6 {
        '6'
    } else if d == 7 {
        '7'
    } else if d == 8 {
        '8'
    } else {
        '9'
    }
}

/// Whether every character of `s` is an ASCII decimal digit.
pub open spec fn all_digits(s: Seq<char>) -> bool {
    forall|i: int| 0 <= i < s.len() ==> is_digit_char(#[trigger] s[i])
}

/// The value of a sequence of ASCII decimal digits, read in base ten.
pub open spec fn digits_value(s: Seq<char>) -> nat
    recommends
        all_digits(s),
    decreases s.len(),
{
    if s.len() == 0 {
        0
    } else {
        digits_value(s.drop_last()) * 10 + digit_val(s.last())
    }
}

/// Whether `s` is a decimal numeral whose value fits in `usize`.
pub open spec fn is_usize_numeral(s: Seq<char>) -> bool {
    s.len() > 0 && all_digits(s) && digits_value(s) <= usize::MAX
}

/// The canonical decimal numeral for `n`: no leading zero except for the
/// single digit of zero itself.
pub open spec fn dec_str(n: nat) -> Seq<char>
    decreases n,
{
    if n < 10 {
        seq![digit_char(n)]
    } else {
        dec_str(n / 10).push(digit_char(n % 10))
    }
}

/// How many times `c` occurs in `s`.
pub open spec fn char_count(s: Seq<char>, c: char) -> nat
    decreases s.len(),
{
    if s.len() == 0 {
        0
    } else {
        char_count(s.drop_last(), c) + (if s.last() == c {
            1nat
        } else {
            0nat
        })
    }
}

/// Occurrence counts add up over concatenation.
pub proof fn lemma_char_count_append(a: Seq<char>, b: Seq<char>, c: char)
    ensures
        char_count(a + b, c) == char_count(a, c) + char_count(b, c),
    decreases b.len(),
{
    if b.len() == 0 {
        assert(a + b =~= a);
    } else {
        assert((a + b).drop_last() =~= a + b.drop_last());
        lemma_char_count_append(a, b.drop_last(), c);
    }
}

/// A sequence free of `c` counts zero occurrences of it.
pub proof fn lemma_char_count_absent(s: Seq<char>, c: char)
    requires
        forall|i: int| 0 <= i < s.len() ==> s[i] != c,
    ensures
        char_count(s, c) == 0,
    decreases s.len(),
{
    if s.len() > 0 {
        lemma_char_count_absent(s.drop_last(), c);
    }
}

/// A decimal numeral consists of digits alone, so it never contains a
/// newline.
pub proof fn lemma_dec_str_no_newline(n: nat)
    ensures
        char_count(dec_str(n), '\n') == 0,
    decreases n,
{
    assert(char_count(Seq::<char>::empty(), '\n') == 0);
    if n < 10 {
        assert(dec_str(n) == seq![digit_char(n)]);
        assert(dec_str(n).last() == digit_char(n));
        assert(digit_char(n) != '\n');
        assert(dec_str(n).drop_last() =~= Seq::<char>::empty());
        assert(char_count(dec_str(n), '\n') == char_count(Seq::<char>::empty(), '\n'));
    } else {
        assert(dec_str(n).drop_last() =~= dec_str(n / 10));
        lemma_dec_str_no_newline(n / 10);
    }
}

/// A one-character string slice holding the ASCII digit for `d`.
fn digit_str(d: usize) -> (r: &'static str)
    requires
        d < 10,
    ensures
        r@ =~= seq![digit_char(d as nat)],
{
    proof {
        reveal_strlit("0");
        reveal_strlit("1");
        reveal_strlit("2");
        reveal_strlit("3");
        reveal_strlit("4");
        reveal_strlit("5");
        reveal_strlit("6");
        reveal_strlit("7");
        reveal_strlit("8");
        reveal_strlit("9");
    }
    match d {
        0 => "0",
        1 => "1",
        2 => "2",
        3 => "3",
        4 => "4",
        5 => "5",
        6 => "6",
        7 => "7",
        8 => "8",
        _ => "9",
    }
}

/// Renders `n` as its canonical decimal numeral.
pub fn usize_to_string(n: usize) -> (r: String)
    ensures
        r@ == dec_str(n as nat),
    decreases n,
{
    let d = digit_str(n % 10);
    if n < 10 {
        String::from_str(d)
    } else {
        let mut r = usize_to_string(n / 10);
        r.append(d);
        proof {
            assert(r@ =~= dec_str(n as nat));
        }
        r
    }
}

/// The value named by a digit-sequence prefix never exceeds the value of the
/// whole sequence.
pub proof fn lemma_digits_value_prefix_le(s: Seq<char>, k: int)
    requires
        all_digits(s),
        0 <= k <= s.len(),
    ensures
        digits_value(s.subrange(0, k)) <= digits_value(s),
    decreases s.len(),
{
    if k == s.len() {
        assert(s.subrange(0, k) =~= s);
    } else {
        let t = s.drop_last();
        assert(forall|i: int| 0 <= i < t.len() ==> is_digit_char(#[trigger] t[i]));
        lemma_digits_value_prefix_le(t, k);
        assert(t.subrange(0, k) =~= s.subrange(0, k));
        assert(digits_value(s) == digits_value(t) * 10 + digit_val(s.last()));
        assert(digits_value(t) * 10 >= digits_value(t));
    }
}

/// Length of the longest prefix of `s` that is free of `sep`.
pub open spec fn seg_len(s: Seq<char>, sep: char) -> nat
    decreases s.len(),
{
    if s.len() == 0 {
        0
    } else if s[0] == sep {
        0
    } else {
        1 + seg_len(s.drop_first(), sep)
    }
}

/// Splits `s` at every occurrence of `sep`: n separators give n + 1
/// segments, empty segments included.
pub open spec fn split_on(s: Seq<char>, sep: char) -> Seq<Seq<char>>
    decreases s.len(),
{
    let n = seg_len(s, sep) as int;
    if n >= s.len() {
        seq![s]
    } else {
        seq![s.take(n)] + split_on(s.skip(n + 1), sep)
    }
}

proof fn lemma_seg_len_at(s: Seq<char>, sep: char, p: int, e: int)
    requires
        0 <= p <= e <= s.len(),
        forall|j: int| p <= j < e ==> s[j] != sep,
        e < s.len() ==> s[e] == sep,
    ensures
        seg_len(s.skip(p), sep) == e - p,
    decreases e - p,
{
    if p == e {
        if e < s.len() {
            assert(s.skip(p)[0] == s[e]);
        }
    } else {
        assert(s.skip(p)[0] == s[p]);
        assert(s.skip(p).drop_first() =~= s.skip(p + 1));
        lemma_seg_len_at(s, sep, p + 1, e);
    }
}

/// Unfolds `split_on` over the suffix of `s` that starts at `p`, given the
/// position `e` of the next separator (or the end of `s`).
pub proof fn lemma_split_on_step(s: Seq<char>, sep: char, p: int, e: int)
    requires
        0 <= p <= e <= s.len(),
        forall|j: int| p <= j < e ==> s[j] != sep,
        e < s.len() ==> s[e] == sep,
    ensures
        e == s.len() ==> split_on(s.skip(p), sep) =~= seq![s.subrange(p, e)],
        e < s.len() ==> split_on(s.skip(p), sep) =~= seq![s.subrange(p, e)] + split_on(
            s.skip(e + 1),
            sep,
        ),
{
    lemma_seg_len_at(s, sep, p, e);
    let suf = s.skip(p);
    assert(suf.take(e - p) =~= s.subrange(p, e));
    if e == s.len() {
        assert(suf =~= s.subrange(p, e));
    } else {
        assert(suf.skip(e - p + 1) =~= s.skip(e + 1));
    }
}

/// Drops one trailing carriage return, mirroring how text lines are split at
/// `\r\n` as well as at `\n` alone.
pub open spec fn strip_cr(l: Seq<char>) -> Seq<char> {
    if l.len() > 0 && l.last() == '\r' {
        l.drop_last()
    } else {
        l
    }
}

/// Finds the first occurrence of `sep` in `s` at or after `from`, returning
/// the length of `s` when there is none.
pub fn scan_for(s: &str, from: usize, n: usize, sep: char) -> (e: usize)
    requires
        n == s@.len(),
        from <= n,
    ensures
        from <= e <= n,
        forall|j: int| from <= j < e ==> s@[j] != sep,
        e < n ==> s@[e as int] == sep,
{
    let mut e = from;
    while e < n && s.get_char(e) != sep
        invariant
            from <= e <= n,
            n == s@.len(),
            forall|j: int| from <= j < e ==> s@[j] != sep,
        decreases n - e,
    {
        e = e + 1;
    }
    e
}

/// Reads the characters of `s` between `from` and `to` as a decimal `usize`
/// numeral; reports `None` when they are not one, be it from an empty range,
/// a non-digit, or a value too large for `usize`.
pub fn parse_usize_range(s: &str, from: usize, to: usize) -> (r: Option<usize>)
    requires
        from <= to <= s@.len(),
    ensures
        match r {
            Some(v) => is_usize_numeral(s@.subrange(from as int, to as int)) && v
                == digits_value(s@.subrange(from as int, to as int)),
            None => !is_usize_numeral(s@.subrange(from as int, to as int)),
        },
{
    let ghost sub = s@.subrange(from as int, to as int);
    if from == to {
        return None;
    }
    let mut acc: usize = 0;
    let mut i = from;
    while i < to
        invariant
            from <= i <= to <= s@.len(),
            sub == s@.subrange(from as int, to as int),
            all_digits(sub.subrange(0, i - from)),
            acc == digits_value(sub.subrange(0, i - from)),
        decreases to - i,
    {
        let c = s.get_char(i);
        let u = c as u32;
        proof {
            assert(sub[i - from] == s@[i as int]);
        }
        if u < 48 || u > 57 {
            proof {
                assert(!is_digit_char(sub[i - from]));
            }
            return None;
        }
        let d = (u - 48) as usize;
        let ghost pre = sub.subrange(0, i - from);
        let ghost ext = sub.subrange(0, i + 1 - from);
        proof {
            assert(ext.drop_last() =~= pre);
            assert(ext.last() == sub[i - from]);
            assert(digits_value(ext) == digits_value(pre) * 10 + digit_val(sub[i - from]));
            assert(forall|j: int| 0 <= j < ext.len() ==> is_digit_char(#[trigger] ext[j]));
        }
        let step = match acc.checked_mul(10) {
            Some(m) => m.checked_add(d),
            None => None,
        };
        match step {
            Some(v) => {
                acc = v;
            },
            None => {
                proof {
                    assert(digits_value(ext) > usize::MAX);
                    if all_digits(sub) {
                        lemma_digits_value_prefix_le(sub, i + 1 - from);
                    }
                    assert(!is_usize_numeral(sub));
                }
                return None;
            },
        }
        i = i + 1;
    }
    proof {
        assert(sub.subrange(0, to - from) =~= sub);
    }
    Some(acc)
}

} // verus!
