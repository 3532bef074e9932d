//! The decisions of the history server's endpoints: how a request body is
//! split into its fields, which requests are refused, and the small text
//! rules of the history queries.

use vstd::prelude::*;
use crate::text::string_push;
use crate::snapshot::{chars_for_bytes, chars_in_bytes};
use crate::text::{
    chars_of, is_listed, lines_of, parse_usize, parsed_usize, partition, partition_of, string_of,
    trim, trim_of,
};

verus! {

broadcast use vstd::string::group_string_axioms;

/// A name for whether `chrono::NaiveDateTime::parse_from_str(s, fmt)`
/// succeeds: whether `s` is a date and time written in the format `fmt`.
pub uninterp spec fn naive_datetime_parses(s: Seq<char>, fmt: Seq<char>) -> bool;

/// Calls `chrono::NaiveDateTime::parse_from_str(s, fmt)` and says whether it
/// succeeded; the contract ties the answer to the name
/// `naive_datetime_parses` of the two arguments and states nothing more of
/// chrono's parser.
#[verifier::external_body]
fn parse_naive_datetime(s: &str, fmt: &str) -> (ok: bool)
    ensures
        ok == naive_datetime_parses(s@, fmt@),
{
    chrono::NaiveDateTime::parse_from_str(s, fmt).is_ok()
}

/// The format of the timestamps of snapshots.
pub open spec fn snapshot_time_format() -> Seq<char> {
    "%Y-%m-%dT%H:%M:%S%.f"@
}

/// Whether `t` is a snapshot timestamp: a date and time in the format
/// `%Y-%m-%dT%H:%M:%S%.f`, as chrono reads it.
pub fn is_snapshot_timestamp(t: &str) -> (ok: bool)
    ensures
        ok == naive_datetime_parses(t@, snapshot_time_format()),
{
    parse_naive_datetime(t, "%Y-%m-%dT%H:%M:%S%.f")
}

/// Why a request is refused.
pub enum Refusal<'a> {
    /// The number in the request (the text given) is no `usize`.
    BadNumber(&'a str),
    /// The file named is not one of the known files.
    UnknownFile(&'a str),
    /// A snapshot without a timestamp line or with a malformed timestamp;
    /// the timestamp text and the snapshot data as they were split.
    Invalid { tstamp: &'a str, data: &'a str },
}

/// The first line of a request body and the rest after it.
pub open spec fn head_and_rest(text: Seq<char>) -> (Seq<char>, Seq<char>) {
    let (head, _, rest) = partition_of(text, seq!['\n']);
    (head, rest)
}

fn newline_parts<'a>(text: &'a str) -> (r: (&'a str, &'a str))
    ensures
        (r.0@, r.1@) == head_and_rest(text@),
{
    let (head, _, rest) = partition(text, "\n");
    proof {
        reveal_strlit("\n");
        assert("\n"@ =~= seq!['\n']);
    }
    (head, rest)
}

fn space_parts<'a>(text: &'a str) -> (r: (&'a str, &'a str))
    ensures
        ({
            let (a, _, b) = partition_of(text@, seq![' ']);
            r.0@ == a && r.1@ == b
        }),
{
    let (a, _, b) = partition(text, " ");
    proof {
        reveal_strlit(" ");
        assert(" "@ =~= seq![' ']);
    }
    (a, b)
}

/// A snapshot upload: the file name, the timestamp and the snapshot data,
/// one line each for the first two. It is refused as invalid where there is
/// no line break after the timestamp or the timestamp does not parse, and
/// otherwise as an unknown file where the file is not among the lines of
/// `names`.
pub fn snapshot_request<'a>(text: &'a str, names: &str) -> (r: Result<
    (&'a str, &'a str, &'a str),
    Refusal<'a>,
>)
    ensures
        ({
            let (fname, rest) = head_and_rest(text@);
            let (t, sep, data) = partition_of(rest, seq!['\n']);
            if sep.len() == 0 || !naive_datetime_parses(t, snapshot_time_format()) {
                r matches Err(Refusal::Invalid { tstamp, data: d }) && tstamp@ == t && d@ == data
            } else if !lines_of(names@).contains(fname) {
                r matches Err(Refusal::UnknownFile(f)) && f@ == fname
            } else {
                r matches Ok((f, ts, d)) && f@ == fname && ts@ == t && d@ == data
            }
        }),
{
    let (fname, rest) = newline_parts(text);
    let (t, sep, data) = partition(rest, "\n");
    proof {
        reveal_strlit("\n");
        assert("\n"@ =~= seq!['\n']);
    }
    if sep.is_empty() || !is_snapshot_timestamp(t) {
        return Err(Refusal::Invalid { tstamp: t, data });
    }
    if !is_listed(names, fname) {
        return Err(Refusal::UnknownFile(fname));
    }
    Ok((fname, t, data))
}

/// The file named on the first line of `text`, where it is among the lines
/// of `names`, and the rest of `text`.
fn known_file<'a>(text: &'a str, names: &str) -> (r: Result<(&'a str, &'a str), Refusal<'a>>)
    ensures
        ({
            let (fname, rest) = head_and_rest(text@);
            if lines_of(names@).contains(fname) {
                r matches Ok((f, x)) && f@ == fname && x@ == rest
            } else {
                r matches Err(Refusal::UnknownFile(f)) && f@ == fname
            }
        }),
{
    let (fname, rest) = newline_parts(text);
    if is_listed(names, fname) {
        Ok((fname, rest))
    } else {
        Err(Refusal::UnknownFile(fname))
    }
}

/// A query for a node as it was at a time: the file name on the first line,
/// then the gnx, a space and the timestamp.
pub fn node_at_request<'a>(text: &'a str, names: &str) -> (r: Result<
    (&'a str, &'a str, &'a str),
    Refusal<'a>,
>)
    ensures
        ({
            let (fname, rest) = head_and_rest(text@);
            let (gnx, _, t) = partition_of(rest, seq![' ']);
            if lines_of(names@).contains(fname) {
                r matches Ok((f, g, ts)) && f@ == fname && g@ == gnx && ts@ == t
            } else {
                r matches Err(Refusal::UnknownFile(f)) && f@ == fname
            }
        }),
{
    let (fname, rest) = known_file(text, names)?;
    let (gnx, t) = space_parts(rest);
    Ok((fname, gnx, t))
}

/// A query for a revision of a node: the file name on the first line, then
/// the gnx, a space and the number of revisions to go back. A number that
/// does not parse once trimmed is refused before the file is looked up.
pub fn node_rev_request<'a>(text: &'a str, names: &str) -> (r: Result<
    (&'a str, &'a str, usize),
    Refusal<'a>,
>)
    ensures
        ({
            let (fname, rest) = head_and_rest(text@);
            let (gnx, _, num) = partition_of(rest, seq![' ']);
            match parsed_usize(trim_of(num)) {
                None => r matches Err(Refusal::BadNumber(x)) && x@ == num,
                Some(n) => if lines_of(names@).contains(fname) {
                    r matches Ok((f, g, k)) && f@ == fname && g@ == gnx && k == n
                } else {
                    r matches Err(Refusal::UnknownFile(f)) && f@ == fname
                },
            }
        }),
{
    let (fname, rest) = newline_parts(text);
    let (gnx, num) = space_parts(rest);
    let n = match parse_usize(trim(num)) {
        Some(n) => n,
        None => {
            return Err(Refusal::BadNumber(num));
        },
    };
    if !is_listed(names, fname) {
        return Err(Refusal::UnknownFile(fname));
    }
    Ok((fname, gnx, n))
}

/// A query for a revision of a whole snapshot: the file name on the first
/// line, then the number of changes to go back. A number that does not parse
/// once trimmed is refused before the file is looked up.
pub fn snapshot_rev_request<'a>(text: &'a str, names: &str) -> (r: Result<
    (&'a str, usize),
    Refusal<'a>,
>)
    ensures
        ({
            let (fname, rest) = head_and_rest(text@);
            match parsed_usize(trim_of(rest)) {
                None => r matches Err(Refusal::BadNumber(x)) && x@ == rest,
                Some(n) => if lines_of(names@).contains(fname) {
                    r matches Ok((f, k)) && f@ == fname && k == n
                } else {
                    r matches Err(Refusal::UnknownFile(f)) && f@ == fname
                },
            }
        }),
{
    let (fname, rest) = newline_parts(text);
    let n = match parse_usize(trim(rest)) {
        Some(n) => n,
        None => {
            return Err(Refusal::BadNumber(rest));
        },
    };
    if !is_listed(names, fname) {
        return Err(Refusal::UnknownFile(fname));
    }
    Ok((fname, n))
}

/// A query naming a file on the first line and one more field after it (a
/// gnx for the revision count of a node, a timestamp for a snapshot at a
/// time).
pub fn file_request<'a>(text: &'a str, names: &str) -> (r: Result<(&'a str, &'a str), Refusal<'a>>)
    ensures
        ({
            let (fname, rest) = head_and_rest(text@);
            if lines_of(names@).contains(fname) {
                r matches Ok((f, x)) && f@ == fname && x@ == rest
            } else {
                r matches Err(Refusal::UnknownFile(f)) && f@ == fname
            }
        }),
{
    known_file(text, names)
}

/// `a` comes before `b` in the order of `str`: the first character where they
/// differ is smaller in `a`, or `a` is a proper prefix of `b`. (UTF-8 keeps
/// the order of code points, so this is also the order of the bytes.)
pub open spec fn str_before(a: Seq<char>, b: Seq<char>) -> bool
    decreases a.len(),
{
    if a.len() == 0 {
        b.len() > 0
    } else if b.len() == 0 {
        false
    } else if a[0] != b[0] {
        a[0] < b[0]
    } else {
        str_before(a.drop_first(), b.drop_first())
    }
}

/// `a` and `b` agree on their first `i` characters and, at position `i`,
/// `a` has the smaller character.
pub open spec fn smaller_at(a: Seq<char>, b: Seq<char>, i: int) -> bool {
    &&& 0 <= i < a.len()
    &&& i < b.len()
    &&& a.subrange(0, i) == b.subrange(0, i)
    &&& a[i] < b[i]
}

/// `a` is a proper prefix of `b`.
pub open spec fn proper_prefix(a: Seq<char>, b: Seq<char>) -> bool {
    a.len() < b.len() && b.subrange(0, a.len() as int) == a
}

/// The order of strings is lexicographic: `a` comes before `b` exactly when
/// at the first position where they differ `a` has the smaller character, or
/// `a` is a proper prefix of `b`; the lengths count only where one string
/// ends before they differ.
pub proof fn str_before_is_lexicographic(a: Seq<char>, b: Seq<char>)
    ensures
        str_before(a, b) <==> ((exists|i: int| smaller_at(a, b, i)) || proper_prefix(a, b)),
    decreases a.len(),
{
    if a.len() == 0 {
        assert(b.subrange(0, 0) =~= a);
    } else if b.len() == 0 {
    } else if a[0] != b[0] {
        if a[0] < b[0] {
            assert(a.subrange(0, 0) =~= b.subrange(0, 0));
            assert(smaller_at(a, b, 0));
        } else {
            assert forall|i: int| !smaller_at(a, b, i) by {
                if 0 < i && smaller_at(a, b, i) {
                    assert(a.subrange(0, i)[0] == b.subrange(0, i)[0]);
                }
            }
            if proper_prefix(a, b) {
                assert(b.subrange(0, a.len() as int)[0] == a[0]);
            }
        }
    } else {
        let a1 = a.drop_first();
        let b1 = b.drop_first();
        str_before_is_lexicographic(a1, b1);
        if exists|i: int| smaller_at(a1, b1, i) {
            let i = choose|i: int| smaller_at(a1, b1, i);
            assert(a.subrange(0, i + 1) =~= seq![a[0]] + a1.subrange(0, i));
            assert(b.subrange(0, i + 1) =~= seq![b[0]] + b1.subrange(0, i));
            assert(smaller_at(a, b, i + 1));
        }
        if proper_prefix(a1, b1) {
            assert(b.subrange(0, a.len() as int) =~= seq![b[0]] + b1.subrange(0, a1.len() as int));
            assert(a =~= seq![a[0]] + a1);
        }
        if exists|i: int| smaller_at(a, b, i) {
            let i = choose|i: int| smaller_at(a, b, i);
            if i == 0 {
                assert(a[0] == b[0]);
            } else {
                assert(a1.subrange(0, i - 1) =~= a.subrange(0, i).drop_first());
                assert(b1.subrange(0, i - 1) =~= b.subrange(0, i).drop_first());
                assert(smaller_at(a1, b1, i - 1));
            }
        }
        if proper_prefix(a, b) {
            assert(b1.subrange(0, a1.len() as int) =~= b.subrange(0, a.len() as int).drop_first());
            assert(a1 =~= a.drop_first());
        }
    }
}

/// Whether the change made at time `t` lies before the time `tstamp` asked
/// for, so that going back to `tstamp` stops there: `t < tstamp` as strings,
/// that is, at the first position where they differ `t` has the smaller
/// character, or `t` is a proper prefix of `tstamp`.
pub fn is_before(t: &str, tstamp: &str) -> (r: bool)
    ensures
        r == str_before(t@, tstamp@),
        r <==> ((exists|i: int| smaller_at(t@, tstamp@, i)) || proper_prefix(t@, tstamp@)),
{
    proof {
        str_before_is_lexicographic(t@, tstamp@);
    }
    let a = chars_of(t);
    let b = chars_of(tstamp);
    let mut i: usize = 0;
    assert(a@.subrange(0, a@.len() as int) =~= a@);
    assert(b@.subrange(0, b@.len() as int) =~= b@);
    while i < a.len() && i < b.len() && a[i] == b[i]
        invariant
            i <= a@.len(),
            i <= b@.len(),
            a@ == t@,
            b@ == tstamp@,
            str_before(t@, tstamp@) == str_before(
                a@.subrange(i as int, a@.len() as int),
                b@.subrange(i as int, b@.len() as int),
            ),
        decreases a@.len() - i,
    {
        assert(a@.subrange(i as int, a@.len() as int).drop_first() =~= a@.subrange(
            i + 1,
            a@.len() as int,
        ));
        assert(b@.subrange(i as int, b@.len() as int).drop_first() =~= b@.subrange(
            i + 1,
            b@.len() as int,
        ));
        i = i + 1;
    }
    if i == a.len() {
        i < b.len()
    } else if i == b.len() {
        false
    } else {
        a[i] < b[i]
    }
}

/// The timestamp of the present state of a node, made from SQLite's local
/// time `t` (`YYYY-MM-DD HH:MM:SS`): the first ten bytes, a `T`, the bytes
/// from the twelfth on, then `.000000`. Byte positions 10 and 11 must fall
/// between characters.
pub fn local_stamp(t: &str) -> (r: String)
    requires
        chars_in_bytes(t@, 10) is Some,
        chars_in_bytes(t@, 11) is Some,
    ensures
        r@ == t@.subrange(0, chars_in_bytes(t@, 10).unwrap()) + seq!['T'] + t@.subrange(
            chars_in_bytes(t@, 11).unwrap(),
            t@.len() as int,
        ) + ".000000"@,
{
    let cs = chars_of(t);
    let n = cs.len();
    assert(cs@.subrange(0, n as int) =~= cs@);
    let a = match chars_for_bytes(&cs, 0, n, 10) {
        Some(a) => a,
        None => n,
    };
    let b = match chars_for_bytes(&cs, 0, n, 11) {
        Some(b) => b,
        None => n,
    };
    let mut res = string_of(&cs, 0, a);
    string_push(&mut res, 'T');
    let tail = string_of(&cs, b, n);
    res.append(tail.as_str());
    res.append(".000000");
    res
}

} // verus!
