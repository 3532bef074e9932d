//! Text primitives over the characters of a string: splitting at the first
//! occurrence of a separator, numerals, whitespace and lines.

use vstd::prelude::*;
use vstd::std_specs::iter::IteratorSpec;
use vstd::utf8::*;

verus! {

broadcast use vstd::string::group_string_axioms, vstd::utf8::group_utf8_lib;

/// Calls `String::push`, which, as its documentation says, appends the
/// character `c` to the end of `s`.
#[verifier::external_body]
pub(crate) fn string_push(s: &mut String, c: char)
    ensures
        final(s)@ == old(s)@.push(c),
{
    s.push(c);
}

/// `sep` occurs in `s` starting at position `i`.
pub open spec fn occurs_at(s: Seq<char>, sep: Seq<char>, i: int) -> bool {
    0 <= i && i + sep.len() <= s.len() && s.subrange(i, i + sep.len()) == sep
}

/// `i` is the first position at which `sep` occurs in `s`.
pub open spec fn is_first_occurrence(s: Seq<char>, sep: Seq<char>, i: int) -> bool {
    occurs_at(s, sep, i) && forall|j: int| 0 <= j < i ==> !occurs_at(s, sep, j)
}

/// The first position at which `sep` occurs in `s`, if it occurs at all.
pub open spec fn first_occurrence(s: Seq<char>, sep: Seq<char>) -> Option<int> {
    if exists|i: int| occurs_at(s, sep, i) {
        Some(choose|i: int| is_first_occurrence(s, sep, i))
    } else {
        None
    }
}

/// The three parts of `s` around the first occurrence of `sep`: what comes
/// before it, the separator itself and what comes after it; where `sep` does
/// not occur, `s` and two empty parts.
pub open spec fn partition_of(s: Seq<char>, sep: Seq<char>) -> (Seq<char>, Seq<char>, Seq<char>) {
    match first_occurrence(s, sep) {
        Some(i) => (s.subrange(0, i), sep, s.subrange(i + sep.len(), s.len() as int)),
        None => (s, Seq::empty(), Seq::empty()),
    }
}

/// An occurrence with none before it is the first occurrence.
pub proof fn lemma_first_occurrence(s: Seq<char>, sep: Seq<char>, i: int)
    requires
        is_first_occurrence(s, sep, i),
    ensures
        first_occurrence(s, sep) == Some(i),
{
    let c = choose|k: int| is_first_occurrence(s, sep, k);
    assert(is_first_occurrence(s, sep, c));
    if c < i {
        assert(!occurs_at(s, sep, c));
    }
    if i < c {
        assert(!occurs_at(s, sep, i));
    }
}

proof fn lemma_least_occurrence(s: Seq<char>, sep: Seq<char>, i: int)
    requires
        occurs_at(s, sep, i),
    ensures
        exists|k: int| is_first_occurrence(s, sep, k),
    decreases i,
{
    if exists|j: int| 0 <= j < i && occurs_at(s, sep, j) {
        let j = choose|j: int| 0 <= j < i && occurs_at(s, sep, j);
        lemma_least_occurrence(s, sep, j);
    } else {
        assert(is_first_occurrence(s, sep, i));
    }
}

/// The first occurrence, where there is one, is an occurrence with none
/// before it.
pub proof fn lemma_first_occurrence_is_first(s: Seq<char>, sep: Seq<char>)
    ensures
        first_occurrence(s, sep) matches Some(i) ==> is_first_occurrence(s, sep, i),
{
    if exists|i: int| occurs_at(s, sep, i) {
        let i = choose|i: int| occurs_at(s, sep, i);
        lemma_least_occurrence(s, sep, i);
    }
}

/// Where `sep` occurs nowhere in `s`, there is no first occurrence.
pub proof fn lemma_no_occurrence(s: Seq<char>, sep: Seq<char>)
    requires
        forall|j: int| 0 <= j <= s.len() - sep.len() ==> !occurs_at(s, sep, j),
    ensures
        first_occurrence(s, sep) is None,
{
}

/// The three parts of a partition, put back together, give the text back.
pub proof fn partition_reassembles(s: Seq<char>, sep: Seq<char>)
    ensures
        ({
            let (a, b, c) = partition_of(s, sep);
            a + b + c == s
        }),
{
    lemma_first_occurrence_is_first(s, sep);
    let (a, b, c) = partition_of(s, sep);
    if let Some(i) = first_occurrence(s, sep) {
        assert(a + b + c =~= s);
    } else {
        assert(a + b + c =~= s);
    }
}

/// The characters of `s`, in order.
pub fn chars_of(s: &str) -> (v: Vec<char>)
    ensures
        v@ == s@,
{
    let mut v: Vec<char> = Vec::new();
    let mut it = s.chars();
    loop
        invariant
            v@ + it.remaining() == s@,
            it.decrease() is Some,
        decreases it.decrease()->0,
    {
        let ghost before = it.remaining();
        match it.next() {
            Some(c) => {
                v.push(c);
                assert(v@ + it.remaining() =~= s@) by {
                    assert(before == seq![c] + it.remaining());
                }
            },
            None => {
                assert(v@ =~= s@);
                return v;
            },
        }
    }
}

/// The first position at or after `start`, and before `end`, at which `pat`
/// occurs within `cs[start..end]`.
pub fn find_in(cs: &Vec<char>, start: usize, end: usize, pat: &Vec<char>) -> (r: Option<usize>)
    requires
        start <= end <= cs@.len(),
    ensures
        match first_occurrence(cs@.subrange(start as int, end as int), pat@) {
            Some(i) => r == Some((start + i) as usize),
            None => r is None,
        },
{
    let ghost sub = cs@.subrange(start as int, end as int);
    let m = pat.len();
    if m > end - start {
        proof {
            lemma_no_occurrence(sub, pat@);
        }
        return None;
    }
    let last = end - start - m;
    let mut i: usize = 0;
    while i <= last
        invariant
            start <= end <= cs@.len(),
            sub == cs@.subrange(start as int, end as int),
            m == pat@.len(),
            last == end - start - m,
            forall|j: int| 0 <= j < i ==> !occurs_at(sub, pat@, j),
        decreases last + 1 - i,
    {
        let mut k: usize = 0;
        while k < m && cs[start + i + k] == pat[k]
            invariant
                start <= end <= cs@.len(),
                sub == cs@.subrange(start as int, end as int),
                m == pat@.len(),
                last == end - start - m,
                i <= last,
                k <= m,
                forall|t: int| 0 <= t < k ==> sub[i + t] == pat@[t],
            decreases m - k,
        {
            k = k + 1;
        }
        if k == m {
            proof {
                assert(sub.subrange(i as int, i + m) =~= pat@);
                lemma_first_occurrence(sub, pat@, i as int);
            }
            return Some(start + i);
        }
        assert(sub.subrange(i as int, i + m)[k as int] != pat@[k as int]);
        i = i + 1;
    }
    proof {
        lemma_no_occurrence(sub, pat@);
    }
    None
}

/// A new string holding the characters `cs[from..to]`.
pub fn string_of(cs: &Vec<char>, from: usize, to: usize) -> (s: String)
    requires
        from <= to <= cs@.len(),
    ensures
        s@ == cs@.subrange(from as int, to as int),
{
    let mut s = String::new();
    let mut i = from;
    while i < to
        invariant
            from <= i <= to <= cs@.len(),
            s@ == cs@.subrange(from as int, i as int),
        decreases to - i,
    {
        string_push(&mut s, cs[i]);
        assert(s@ =~= cs@.subrange(from as int, i + 1));
        i = i + 1;
    }
    s
}

/// Splits `input` around the first occurrence of `sep`: the part before it,
/// the separator and the part after it; where `sep` does not occur, `input`
/// itself and two empty strings. (On UTF-8 text, the first occurrence by
/// characters is the one that `str::find` finds by bytes.)
pub fn partition<'a>(input: &'a str, sep: &str) -> (r: (&'a str, &'a str, &'a str))
    ensures
        (r.0@, r.1@, r.2@) == partition_of(input@, sep@),
{
    let cs = chars_of(input);
    let ps = chars_of(sep);
    let n = cs.len();
    proof {
        assert(cs@.subrange(0, n as int) =~= cs@);
    }
    proof {
        lemma_first_occurrence_is_first(input@, sep@);
    }
    match find_in(&cs, 0, n, &ps) {
        Some(i) => {
            let j = i + ps.len();
            let a = input.substring_char(0, i);
            let b = input.substring_char(i, j);
            let c = input.substring_char(j, n);
            proof {
                assert(occurs_at(input@, sep@, i as int));
            }
            (a, b, c)
        },
        None => {
            let e = input.substring_char(n, n);
            proof {
                assert(e@ =~= Seq::<char>::empty());
            }
            (input, e, e)
        },
    }
}

/// An ASCII decimal digit.
pub open spec fn is_decimal_digit(c: char) -> bool {
    '0' <= c <= '9'
}

/// All characters of `ds` are decimal digits.
pub open spec fn all_decimal_digits(ds: Seq<char>) -> bool {
    forall|i: int| 0 <= i < ds.len() ==> is_decimal_digit(#[trigger] ds[i])
}

/// The number that a string of decimal digits denotes.
pub open spec fn decimal_value(ds: Seq<char>) -> nat
    decreases ds.len(),
{
    if ds.len() == 0 {
        0
    } else {
        decimal_value(ds.drop_last()) * 10 + (ds.last() as nat - 48) as nat
    }
}

/// The `usize` that `s` is read as, as `str::parse::<usize>` reads it: an
/// optional `+`, then one or more decimal digits, denoting at most
/// `usize::MAX`; anything else is no number.
pub open spec fn parsed_usize(s: Seq<char>) -> Option<nat> {
    let ds = if s.len() > 0 && s[0] == '+' {
        s.drop_first()
    } else {
        s
    };
    if ds.len() > 0 && all_decimal_digits(ds) && decimal_value(ds) <= usize::MAX {
        Some(decimal_value(ds))
    } else {
        None
    }
}

proof fn lemma_decimal_value_grows(ds: Seq<char>, k: int)
    requires
        0 <= k <= ds.len(),
        all_decimal_digits(ds),
    ensures
        decimal_value(ds.subrange(0, k)) <= decimal_value(ds),
    decreases ds.len() - k,
{
    if k < ds.len() {
        lemma_decimal_value_grows(ds, k + 1);
        let t = ds.subrange(0, k + 1);
        assert(t.drop_last() =~= ds.subrange(0, k));
        assert(is_decimal_digit(ds[k]));
    } else {
        assert(ds.subrange(0, k) =~= ds);
    }
}

/// Reads `cs[from..to]` as `str::parse::<usize>` does.
pub fn parse_usize_in(cs: &Vec<char>, from: usize, to: usize) -> (r: Option<usize>)
    requires
        from <= to <= cs@.len(),
    ensures
        match parsed_usize(cs@.subrange(from as int, to as int)) {
            Some(v) => r == Some(v as usize),
            None => r is None,
        },
{
    let ghost s = cs@.subrange(from as int, to as int);
    let mut i = from;
    if from < to && cs[from] == '+' {
        i = from + 1;
    }
    let ghost ds = cs@.subrange(i as int, to as int);
    assert(ds == if s.len() > 0 && s[0] == '+' { s.drop_first() } else { s });
    if i == to {
        return None;
    }
    let start = i;
    let mut acc: usize = 0;
    while i < to
        invariant
            from <= start <= i <= to <= cs@.len(),
            ds == cs@.subrange(start as int, to as int),
            all_decimal_digits(cs@.subrange(start as int, i as int)),
            acc == decimal_value(cs@.subrange(start as int, i as int)),
            s == cs@.subrange(from as int, to as int),
            ds == if s.len() > 0 && s[0] == '+' { s.drop_first() } else { s },
        decreases to - i,
    {
        let c = cs[i];
        let ghost pre = cs@.subrange(start as int, i + 1);
        assert(pre.drop_last() =~= cs@.subrange(start as int, i as int));
        assert(ds[i - start] == c);
        if c < '0' || c > '9' {
            assert(!is_decimal_digit(ds[i - start]));
            assert(!all_decimal_digits(ds));
            assert(parsed_usize(s) is None);
            return None;
        }
        let d = (c as u32 - 48) as usize;
        assert(pre.last() == c);
        assert(decimal_value(pre) == acc * 10 + d);
        assert(all_decimal_digits(pre)) by {
            assert forall|t: int| 0 <= t < pre.len() implies is_decimal_digit(#[trigger] pre[t]) by {
                if t < pre.len() - 1 {
                    assert(pre[t] == cs@.subrange(start as int, i as int)[t]);
                }
            }
        }
        if acc > (usize::MAX - d) / 10 {
            proof {
                assert(decimal_value(pre) > usize::MAX) by (nonlinear_arith)
                    requires
                        decimal_value(pre) == acc * 10 + d,
                        acc > (usize::MAX - d) / 10,
                        d <= 9,
                ;
                if all_decimal_digits(ds) {
                    lemma_decimal_value_grows(ds, i + 1 - start);
                    assert(ds.subrange(0, i + 1 - start) =~= pre);
                }
            }
            return None;
        }
        assert(acc * 10 + d <= usize::MAX) by (nonlinear_arith)
            requires
                acc <= (usize::MAX - d) / 10,
                d <= 9,
        ;
        acc = acc * 10 + d;
        i = i + 1;
    }
    Some(acc)
}

/// Reads `s` as a `usize`, as `str::parse::<usize>` does.
pub fn parse_usize(s: &str) -> (r: Option<usize>)
    ensures
        match parsed_usize(s@) {
            Some(v) => r == Some(v as usize),
            None => r is None,
        },
{
    let cs = chars_of(s);
    assert(cs@.subrange(0, cs@.len() as int) =~= cs@);
    parse_usize_in(&cs, 0, cs.len())
}

/// The decimal numeral of `n`, without leading zeros (`0` is `"0"`).
pub open spec fn decimal_digits(n: nat) -> Seq<char>
    decreases n,
{
    if n < 10 {
        seq![(48 + n) as char]
    } else {
        decimal_digits(n / 10).push((48 + n % 10) as char)
    }
}

/// Appends the decimal numeral of `n` to `s`.
pub fn push_decimal(s: &mut String, n: usize)
    ensures
        final(s)@ == old(s)@ + decimal_digits(n as nat),
    decreases n,
{
    if n >= 10 {
        push_decimal(s, n / 10);
    }
    let d = (n % 10) as u8;
    string_push(s, (48 + d) as char);
    proof {
        if n >= 10 {
            assert(decimal_digits(n as nat) == decimal_digits((n / 10) as nat).push(
                (48 + n % 10) as char,
            ));
        }
    }
}

pub proof fn lemma_decimal_digits(n: nat)
    ensures
        decimal_digits(n).len() > 0,
        all_decimal_digits(decimal_digits(n)),
        decimal_value(decimal_digits(n)) == n,
        decimal_digits(n)[0] != '+',
    decreases n,
{
    let ds = decimal_digits(n);
    let last = (48 + n % 10) as char;
    assert(last as nat == 48 + n % 10);
    assert(ds.last() == last);
    if n >= 10 {
        lemma_decimal_digits(n / 10);
        assert(ds.drop_last() =~= decimal_digits(n / 10));
        assert(n / 10 * 10 + n % 10 == n) by (nonlinear_arith);
        assert forall|i: int| 0 <= i < ds.len() implies is_decimal_digit(#[trigger] ds[i]) by {
            if i < ds.len() - 1 {
                assert(ds[i] == decimal_digits(n / 10)[i]);
            }
        }
        assert(ds[0] == decimal_digits(n / 10)[0]);
        assert(decimal_value(ds) == decimal_value(ds.drop_last()) * 10 + (last as nat - 48) as nat);
    } else {
        assert(ds.drop_last() =~= Seq::<char>::empty());
        assert(decimal_value(ds.drop_last()) == 0);
        assert(decimal_value(ds) == decimal_value(ds.drop_last()) * 10 + (last as nat - 48) as nat);
    }
}

/// Reading back the decimal numeral of a `usize` gives that number.
pub proof fn decimal_roundtrip(n: usize)
    ensures
        parsed_usize(decimal_digits(n as nat)) == Some(n as nat),
{
    lemma_decimal_digits(n as nat);
}

/// The number of bytes of the UTF-8 encoding of `s`.
pub open spec fn utf8_len(s: Seq<char>) -> nat {
    encode_utf8(s).len()
}

/// The UTF-8 encoding of a concatenation is the concatenation of the
/// encodings.
pub proof fn lemma_encode_utf8_concat(a: Seq<char>, b: Seq<char>)
    ensures
        encode_utf8(a + b) == encode_utf8(a) + encode_utf8(b),
        utf8_len(a + b) == utf8_len(a) + utf8_len(b),
    decreases a.len(),
{
    if a.len() == 0 {
        assert(a + b =~= b);
        assert(encode_utf8(a) + encode_utf8(b) =~= encode_utf8(b));
    } else {
        lemma_encode_utf8_concat(a.drop_first(), b);
        assert((a + b).drop_first() =~= a.drop_first() + b);
        assert((a + b)[0] == a[0]);
        assert(encode_utf8(a + b) =~= encode_utf8(a) + encode_utf8(b));
    }
}

/// The number of bytes of the UTF-8 encoding of `c`.
pub fn char_utf8_len(c: char) -> (n: usize)
    ensures
        n == utf8_len(seq![c]),
        1 <= n <= 4,
{
    proof {
        assert(seq![c].drop_first() =~= Seq::<char>::empty());
        assert(is_scalar(c as u32));
        assert(encode_utf8(seq![c]) == encode_scalar(c as u32) + encode_utf8(Seq::<char>::empty()));
        assert(encode_utf8(seq![c]) =~= encode_scalar(c as u32));
    }
    let u = c as u32;
    if u < 0x80 {
        1
    } else if u < 0x800 {
        2
    } else if u < 0x10000 {
        3
    } else {
        4
    }
}

/// A character with the Unicode `White_Space` property, as
/// `char::is_whitespace` counts them.
pub open spec fn is_whitespace(c: char) -> bool {
    ||| '\u{9}' <= c <= '\u{d}'
    ||| c == ' '
    ||| c == '\u{85}'
    ||| c == '\u{a0}'
    ||| c == '\u{1680}'
    ||| '\u{2000}' <= c <= '\u{200a}'
    ||| c == '\u{2028}'
    ||| c == '\u{2029}'
    ||| c == '\u{202f}'
    ||| c == '\u{205f}'
    ||| c == '\u{3000}'
}

/// `s` without its leading whitespace.
pub open spec fn trim_start_of(s: Seq<char>) -> Seq<char>
    decreases s.len(),
{
    if s.len() > 0 && is_whitespace(s[0]) {
        trim_start_of(s.drop_first())
    } else {
        s
    }
}

/// `s` without its trailing whitespace.
pub open spec fn trim_end_of(s: Seq<char>) -> Seq<char>
    decreases s.len(),
{
    if s.len() > 0 && is_whitespace(s.last()) {
        trim_end_of(s.drop_last())
    } else {
        s
    }
}

/// `s` without its leading and trailing whitespace.
pub open spec fn trim_of(s: Seq<char>) -> Seq<char> {
    trim_end_of(trim_start_of(s))
}

fn is_whitespace_char(c: char) -> (r: bool)
    ensures
        r == is_whitespace(c),
{
    ('\u{9}' <= c && c <= '\u{d}') || c == ' ' || c == '\u{85}' || c == '\u{a0}' || c == '\u{1680}'
        || ('\u{2000}' <= c && c <= '\u{200a}') || c == '\u{2028}' || c == '\u{2029}' || c
        == '\u{202f}' || c == '\u{205f}' || c == '\u{3000}'
}

/// `s` without its leading and trailing whitespace, as `str::trim` gives it.
pub fn trim(s: &str) -> (r: &str)
    ensures
        r@ == trim_of(s@),
{
    let cs = chars_of(s);
    let n = cs.len();
    let mut a: usize = 0;
    assert(cs@.subrange(0, n as int) =~= cs@);
    while a < n && is_whitespace_char(cs[a])
        invariant
            a <= n == cs@.len(),
            cs@ == s@,
            trim_start_of(s@) == trim_start_of(cs@.subrange(a as int, n as int)),
        decreases n - a,
    {
        assert(cs@.subrange(a as int, n as int).drop_first() =~= cs@.subrange(a + 1, n as int));
        a = a + 1;
    }
    let mut b: usize = n;
    while b > a && is_whitespace_char(cs[b - 1])
        invariant
            a <= b <= n == cs@.len(),
            cs@ == s@,
            trim_start_of(s@) == cs@.subrange(a as int, n as int),
            trim_of(s@) == trim_end_of(cs@.subrange(a as int, b as int)),
        decreases b - a,
    {
        assert(cs@.subrange(a as int, b as int).drop_last() =~= cs@.subrange(a as int, b - 1));
        b = b - 1;
    }
    s.substring_char(a, b)
}

/// `line` without one trailing carriage return.
pub open spec fn strip_cr(line: Seq<char>) -> Seq<char> {
    if line.len() > 0 && line.last() == '\r' {
        line.drop_last()
    } else {
        line
    }
}

/// The lines of `s` as `str::lines` gives them: the pieces between newlines,
/// each without a carriage return that stands right before its newline; a
/// newline at the very end starts no further line.
pub open spec fn lines_of(s: Seq<char>) -> Seq<Seq<char>>
    decreases s.len(),
{
    if s.len() == 0 {
        Seq::empty()
    } else {
        let (line, nl, rest) = partition_of(s, seq!['\n']);
        if nl.len() == 0 {
            seq![line]
        } else {
            proof {
                lemma_first_occurrence_is_first(s, seq!['\n']);
            }
            seq![strip_cr(line)] + lines_of(rest)
        }
    }
}

/// Whether `cs[from..to]` equals `t`.
pub fn range_equals(cs: &Vec<char>, from: usize, to: usize, t: &Vec<char>) -> (r: bool)
    requires
        from <= to <= cs@.len(),
    ensures
        r == (cs@.subrange(from as int, to as int) == t@),
{
    if to - from != t.len() {
        return false;
    }
    let mut i: usize = 0;
    while i < t.len()
        invariant
            from <= to <= cs@.len(),
            to - from == t@.len(),
            i <= t@.len(),
            forall|k: int| 0 <= k < i ==> cs@[from + k] == t@[k],
        decreases t@.len() - i,
    {
        if cs[from + i] != t[i] {
            assert(cs@.subrange(from as int, to as int)[i as int] != t@[i as int]);
            return false;
        }
        i = i + 1;
    }
    assert(cs@.subrange(from as int, to as int) =~= t@);
    true
}

proof fn lemma_contains_cons(l: Seq<char>, rest: Seq<Seq<char>>, f: Seq<char>)
    ensures
        (seq![l] + rest).contains(f) <==> (l == f || rest.contains(f)),
{
    let s = seq![l] + rest;
    if s.contains(f) {
        let i = choose|i: int| 0 <= i < s.len() && s[i] == f;
        if i > 0 {
            assert(rest[i - 1] == f);
        }
    }
    if l == f {
        assert(s[0] == f);
    }
    if rest.contains(f) {
        let i = choose|i: int| 0 <= i < rest.len() && rest[i] == f;
        assert(s[i + 1] == f);
    }
}

/// Whether `fname` is one of the lines of `names`.
pub fn is_listed(names: &str, fname: &str) -> (r: bool)
    ensures
        r == lines_of(names@).contains(fname@),
{
    let cs = chars_of(names);
    let fs = chars_of(fname);
    let mut nl: Vec<char> = Vec::new();
    nl.push('\n');
    let n = cs.len();
    let mut start: usize = 0;
    assert(cs@.subrange(0, n as int) =~= cs@);
    while start < n
        invariant
            start <= n == cs@.len(),
            nl@ == seq!['\n'],
            lines_of(names@).contains(fname@) <==> lines_of(cs@.subrange(start as int, n as int)).contains(
                fs@,
            ),
            cs@ == names@,
            fs@ == fname@,
        decreases n - start,
    {
        let ghost sub = cs@.subrange(start as int, n as int);
        proof {
            lemma_first_occurrence_is_first(sub, nl@);
        }
        match find_in(&cs, start, n, &nl) {
            Some(k) => {
                let mut end = k;
                if end > start && cs[end - 1] == '\r' {
                    end = end - 1;
                }
                let ghost line = cs@.subrange(start as int, k as int);
                assert(line =~= sub.subrange(0, k - start));
                assert(cs@.subrange(start as int, end as int) =~= strip_cr(line));
                assert(cs@.subrange(k + 1, n as int) =~= sub.subrange(k - start + 1, sub.len() as int));
                proof {
                    lemma_contains_cons(strip_cr(line), lines_of(cs@.subrange(k + 1, n as int)), fs@);
                }
                if range_equals(&cs, start, end, &fs) {
                    return true;
                }
                start = k + 1;
            },
            None => {
                proof {
                    lemma_contains_cons(sub, Seq::empty(), fs@);
                    assert(seq![sub] + Seq::<Seq<char>>::empty() =~= seq![sub]);
                    assert(!Seq::<Seq<char>>::empty().contains(fs@));
                }
                return range_equals(&cs, start, n, &fs);
            },
        }
    }
    assert(cs@.subrange(start as int, n as int) =~= Seq::<char>::empty());
    false
}

/// The name of the history database of a file: the file's name with
/// `.history` appended.
pub fn dbname(a: &str) -> (r: String)
    ensures
        r@ == a@ + ".history"@,
{
    let mut res = a.to_owned();
    res.append(".history");
    res
}

} // verus!
