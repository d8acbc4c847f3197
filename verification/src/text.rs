//! Byte-level text utilities shared by the two format parsers: locating
//! delimiter bytes, splitting a buffer into lines and a line into fields,
//! trimming whitespace, decoding unsigned decimal integers, and decoding
//! UTF-8 field bytes into strings.

use vstd::prelude::*;

verus! {

use vstd::utf8::{valid_utf8, decode_utf8};

/// All indices at which `b` occurs in `s`, in ascending order.
pub open spec fn positions_of(s: Seq<u8>, b: u8) -> Seq<int>
    decreases s.len(),
{
    if s.len() == 0 {
        seq![]
    } else if s.last() == b {
        positions_of(s.drop_last(), b).push(s.len() - 1)
    } else {
        positions_of(s.drop_last(), b)
    }
}

/// The positions returned by `positions_of` are exactly the occurrences of
/// `b`, listed in strictly ascending order.
pub proof fn lemma_positions_of(s: Seq<u8>, b: u8)
    ensures
        forall|k: int|
            0 <= k < positions_of(s, b).len() ==> 0 <= #[trigger] positions_of(s, b)[k] < s.len()
                && s[positions_of(s, b)[k]] == b,
        forall|k: int, l: int|
            0 <= k < l < positions_of(s, b).len() ==> positions_of(s, b)[k] < positions_of(
                s,
                b,
            )[l],
        forall|j: int|
            0 <= j < s.len() && s[j] == b ==> #[trigger] positions_of(s, b).contains(j),
        forall|k: int| 0 <= k < positions_of(s, b).len() ==> #[trigger] positions_of(s, b)[k] >= k,
    decreases s.len(),
{
    if s.len() > 0 {
        lemma_positions_of(s.drop_last(), b);
        let ps = positions_of(s, b);
        let pps = positions_of(s.drop_last(), b);
        if pps.len() > 0 {
            assert(pps[pps.len() - 1] >= pps.len() - 1);
            assert(pps[pps.len() - 1] < s.len() - 1);
        }
        assert forall|j: int| 0 <= j < s.len() && s[j] == b implies #[trigger] ps.contains(
            j,
        ) by {
            if j < s.len() - 1 {
                assert(s.drop_last()[j] == b);
                assert(pps.contains(j));
                let k = choose|k: int| 0 <= k < pps.len() && pps[k] == j;
                if s.last() == b {
                    assert(ps[k] == j);
                } else {
                    assert(ps[k] == j);
                }
            } else {
                assert(s.last() == b);
                assert(ps[ps.len() - 1] == j);
            }
        }
    }
}

/// A sequence of usize values equal, elementwise, to a sequence of ints.
pub(crate) proof fn lemma_map_pointwise(v: Seq<usize>, p: Seq<int>)
    requires
        v.map_values(|x: usize| x as int) == p,
    ensures
        v.len() == p.len(),
        forall|k: int| 0 <= k < v.len() ==> #[trigger] p[k] == v[k] as int,
{
    assert forall|k: int| 0 <= k < v.len() implies #[trigger] p[k] == v[k] as int by {
        assert(v.map_values(|x: usize| x as int)[k] == v[k] as int);
    }
}

/// Relies on memchr::memchr_iter: it yields the index of every occurrence of
/// the needle byte in the haystack, from front to back.
#[verifier::external_body]
pub(crate) fn byte_positions(b: u8, data: &[u8]) -> (r: Vec<usize>)
    ensures
        r@.map_values(|x: usize| x as int) == positions_of(data@, b),
{
    memchr::memchr_iter(b, data).collect()
}

/// Relies on simdutf8::basic::from_utf8: it accepts exactly the valid UTF-8
/// byte sequences and returns the decoded characters.
#[verifier::external_body]
pub(crate) fn bytes_to_string(data: &[u8]) -> (r: Option<String>)
    ensures
        r is Some <==> valid_utf8(data@),
        r is Some ==> r.unwrap()@ == decode_utf8(data@),
{
    match simdutf8::basic::from_utf8(data) {
        Ok(s) => Some(s.to_string()),
        Err(_) => None,
    }
}

/// Copy of `data[i..j]` as an owned vector.
pub(crate) fn subrange_to_vec(data: &[u8], i: usize, j: usize) -> (r: Vec<u8>)
    requires
        0 <= i <= j <= data@.len(),
    ensures
        r@ == data@.subrange(i as int, j as int),
{
    let s = vstd::slice::slice_subrange(data, i, j);
    vstd::slice::slice_to_vec(s)
}

/// ASCII whitespace, as trimmed from the ends of annotation lines.
pub open spec fn is_space(b: u8) -> bool {
    b == 9 || b == 10 || b == 11 || b == 12 || b == 13 || b == 32
}

/// Index of the first non-whitespace byte at or after `i`, or `s.len()`.
pub open spec fn first_nonspace(s: Seq<u8>, i: int) -> int
    decreases s.len() - i,
{
    if 0 <= i < s.len() && is_space(s[i]) {
        first_nonspace(s, i + 1)
    } else {
        i
    }
}

/// End (exclusive) of the last non-whitespace byte at or before `j`, or 0.
pub open spec fn last_nonspace_end(s: Seq<u8>, j: int) -> int
    decreases j,
{
    if 0 < j <= s.len() && is_space(s[j - 1]) {
        last_nonspace_end(s, j - 1)
    } else {
        j
    }
}

/// `s` with ASCII whitespace removed from both ends.
pub open spec fn trim_spec(s: Seq<u8>) -> Seq<u8> {
    let a = first_nonspace(s, 0);
    let b = last_nonspace_end(s, s.len() as int);
    if a <= b {
        s.subrange(a, b)
    } else {
        seq![]
    }
}

proof fn lemma_first_nonspace(s: Seq<u8>, i: int)
    requires
        0 <= i <= s.len(),
    ensures
        i <= first_nonspace(s, i) <= s.len(),
        forall|k: int| i <= k < first_nonspace(s, i) ==> is_space(#[trigger] s[k]),
        first_nonspace(s, i) < s.len() ==> !is_space(s[first_nonspace(s, i)]),
    decreases s.len() - i,
{
    if i < s.len() && is_space(s[i]) {
        lemma_first_nonspace(s, i + 1);
    }
}

proof fn lemma_last_nonspace_end(s: Seq<u8>, j: int)
    requires
        0 <= j <= s.len(),
    ensures
        0 <= last_nonspace_end(s, j) <= j,
        forall|k: int| last_nonspace_end(s, j) <= k < j ==> is_space(#[trigger] s[k]),
        last_nonspace_end(s, j) > 0 ==> !is_space(s[last_nonspace_end(s, j) - 1]),
    decreases j,
{
    if 0 < j && is_space(s[j - 1]) {
        lemma_last_nonspace_end(s, j - 1);
    }
}

fn is_space_exec(b: u8) -> (r: bool)
    ensures
        r == is_space(b),
{
    b == 9 || b == 10 || b == 11 || b == 12 || b == 13 || b == 32
}

/// `line` with ASCII whitespace removed from both ends.
pub fn trim(line: &[u8]) -> (r: Vec<u8>)
    ensures
        r@ == trim_spec(line@),
{
    let n = line.len();
    let mut a: usize = 0;
    while a < n && is_space_exec(line[a])
        invariant
            0 <= a <= n,
            n == line@.len(),
            first_nonspace(line@, 0) == first_nonspace(line@, a as int),
        decreases n - a,
    {
        a += 1;
    }
    proof {
        lemma_first_nonspace(line@, a as int);
        assert(first_nonspace(line@, a as int) == a);
    }
    let mut b: usize = n;
    while b > a && is_space_exec(line[b - 1])
        invariant
            a <= b <= n,
            n == line@.len(),
            a == first_nonspace(line@, 0),
            last_nonspace_end(line@, n as int) == last_nonspace_end(line@, b as int),
        decreases b,
    {
        b -= 1;
    }
    proof {
        lemma_last_nonspace_end(line@, b as int);
        let e = last_nonspace_end(line@, b as int);
        if b > a {
            assert(e == b);
        } else {
            // everything before a is whitespace, so e is either a itself or 0,
            // and in both cases the trimmed result is empty or starts at a
            lemma_first_nonspace(line@, 0);
            if 0 < e < a {
                assert(is_space(line@[e - 1]));
                assert(false);
            }
            assert(trim_spec(line@) =~= line@.subrange(a as int, b as int));
        }
    }
    subrange_to_vec(line, a, b)
}

/// An ASCII decimal digit.
pub open spec fn is_digit(b: u8) -> bool {
    48 <= b <= 57
}

/// True when `s` is a non-empty run of ASCII decimal digits.
pub open spec fn all_digits(s: Seq<u8>) -> bool {
    s.len() > 0 && forall|i: int| 0 <= i < s.len() ==> is_digit(#[trigger] s[i])
}

/// The number denoted by the digits of `s`, read in base ten.
pub open spec fn uint_value(s: Seq<u8>) -> int
    decreases s.len(),
{
    if s.len() == 0 {
        0
    } else {
        uint_value(s.drop_last()) * 10 + (s.last() - 48)
    }
}

proof fn lemma_uint_value_monotone(s: Seq<u8>, i: int)
    requires
        0 <= i <= s.len(),
        forall|k: int| 0 <= k < s.len() ==> is_digit(#[trigger] s[k]),
    ensures
        uint_value(s) >= uint_value(s.take(i)),
        uint_value(s) >= 0,
    decreases s.len(),
{
    if s.len() == 0 {
    } else {
        lemma_uint_value_monotone(s.drop_last(), if i < s.len() { i } else { i - 1 });
        if i < s.len() {
            assert(s.take(i) =~= s.drop_last().take(i));
            assert(uint_value(s) == uint_value(s.drop_last()) * 10 + (s.last() - 48));
            assert(uint_value(s.drop_last()) * 10 >= uint_value(s.drop_last())) by (nonlinear_arith)
                requires
                    uint_value(s.drop_last()) >= 0,
            ;
        } else {
            assert(s.take(i) =~= s);
        }
    }
}

/// Decode a non-empty run of decimal digits as a `u64`; `None` when the
/// bytes are not all digits or the value does not fit.
pub fn parse_u64(s: &[u8]) -> (r: Option<u64>)
    ensures
        r is Some <==> all_digits(s@) && uint_value(s@) <= u64::MAX,
        r is Some ==> r.unwrap() == uint_value(s@),
{
    let n = s.len();
    if n == 0 {
        return None;
    }
    let mut acc: u64 = 0;
    let mut i: usize = 0;
    while i < n
        invariant
            0 <= i <= n,
            n == s@.len(),
            n > 0,
            acc == uint_value(s@.take(i as int)),
            forall|k: int| 0 <= k < i ==> is_digit(#[trigger] s@[k]),
        decreases n - i,
    {
        let b = s[i];
        if !(48 <= b && b <= 57) {
            return None;
        }
        let d: u64 = (b - 48) as u64;
        if acc > (u64::MAX - d) / 10 {
            // the value would overflow, and appending more digits cannot shrink it
            proof {
                let t = s@.take(i as int + 1);
                assert(t.drop_last() =~= s@.take(i as int));
                assert(t.last() == b);
                assert(uint_value(t) == acc * 10 + d);
                assert(acc * 10 + d > u64::MAX) by (nonlinear_arith)
                    requires
                        acc > (u64::MAX - d) / 10,
                        0 <= d <= 9,
                        acc >= 0,
                ;
                if all_digits(s@) {
                    lemma_uint_value_monotone(s@, i as int + 1);
                }
            }
            return None;
        }
        proof {
            let t = s@.take(i as int + 1);
            assert(t.drop_last() =~= s@.take(i as int));
            assert(t.last() == b);
            assert(acc * 10 + d <= u64::MAX) by (nonlinear_arith)
                requires
                    acc <= (u64::MAX - d) / 10,
                    0 <= d <= 9,
                    acc >= 0,
            ;
        }
        acc = acc * 10 + d;
        i += 1;
    }
    proof {
        assert(s@.take(n as int) =~= s@);
    }
    Some(acc)
}

/// Decode a non-empty run of decimal digits as a `usize`; `None` when the
/// bytes are not all digits or the value does not fit.
pub fn parse_usize(s: &[u8]) -> (r: Option<usize>)
    ensures
        r is Some <==> all_digits(s@) && uint_value(s@) <= usize::MAX,
        r is Some ==> r.unwrap() == uint_value(s@),
{
    match parse_u64(s) {
        None => {
            proof {
                if all_digits(s@) && uint_value(s@) <= usize::MAX {
                    assert(usize::MAX <= u64::MAX);
                }
            }
            None
        },
        Some(v) => {
            if v <= usize::MAX as u64 {
                Some(v as usize)
            } else {
                None
            }
        },
    }
}

/// Equality of two strings, decided on their UTF-8 bytes; equal bytes mean
/// equal characters and conversely.
pub fn str_eq(a: &str, b: &str) -> (r: bool)
    ensures
        r <==> a@ == b@,
{
    broadcast use vstd::utf8::encode_utf8_decode_utf8;

    let ab = a.as_bytes();
    let bb = b.as_bytes();
    let n = ab.len();
    if n != bb.len() {
        proof {
            if a@ == b@ {
                assert(ab@ == bb@);
            }
        }
        return false;
    }
    let mut i: usize = 0;
    while i < n
        invariant
            0 <= i <= n,
            n == ab@.len(),
            n == bb@.len(),
            ab@ == vstd::utf8::encode_utf8(a@),
            bb@ == vstd::utf8::encode_utf8(b@),
            forall|k: int| 0 <= k < i ==> ab@[k] == bb@[k],
        decreases n - i,
    {
        if ab[i] != bb[i] {
            proof {
                if a@ == b@ {
                    assert(ab@ == bb@);
                    assert(ab@[i as int] == bb@[i as int]);
                }
            }
            return false;
        }
        i += 1;
    }
    proof {
        assert(ab@ =~= bb@);
        assert(vstd::utf8::decode_utf8(vstd::utf8::encode_utf8(a@)) == a@);
        assert(vstd::utf8::decode_utf8(vstd::utf8::encode_utf8(b@)) == b@);
    }
    true
}

/// Start of the `j`-th tab-separated field of `s`.
pub open spec fn field_start(s: Seq<u8>, j: int) -> int {
    if j == 0 {
        0
    } else {
        positions_of(s, 9)[j - 1] + 1
    }
}

/// End (exclusive) of the `j`-th tab-separated field of `s`.
pub open spec fn field_end(s: Seq<u8>, j: int) -> int {
    let ps = positions_of(s, 9);
    if j < ps.len() {
        ps[j]
    } else {
        s.len() as int
    }
}

/// The tab-separated fields of `s`. A line with `k` tabs has `k + 1` fields;
/// an empty line has the single field `""`.
pub open spec fn spec_fields(s: Seq<u8>) -> Seq<Seq<u8>> {
    Seq::new(positions_of(s, 9).len() + 1, |j: int| s.subrange(field_start(s, j), field_end(s, j)))
}

/// Split `line` into its tab-separated fields.
pub fn split_fields(line: &[u8]) -> (r: Vec<Vec<u8>>)
    ensures
        r@.len() == spec_fields(line@).len(),
        forall|j: int| 0 <= j < r@.len() ==> #[trigger] r@[j]@ == spec_fields(line@)[j],
{
    let line_len = line.len();
    let tabs = byte_positions(9, line);
    proof {
        lemma_positions_of(line@, 9);
        lemma_map_pointwise(tabs@, positions_of(line@, 9));
    }
    let n = tabs.len();
    let mut r: Vec<Vec<u8>> = Vec::new();
    let mut j: usize = 0;
    while j < n
        invariant
            0 <= j <= n,
            n == tabs@.len(),
            line_len == line@.len(),
            tabs@.map_values(|x: usize| x as int) == positions_of(line@, 9),
            forall|k: int|
                0 <= k < n ==> #[trigger] positions_of(line@, 9)[k] == tabs@[k] as int,
            forall|k: int|
                0 <= k < n ==> 0 <= #[trigger] positions_of(line@, 9)[k] < line@.len(),
            forall|k: int, l: int|
                0 <= k < l < n ==> positions_of(line@, 9)[k] < positions_of(line@, 9)[l],
            r@.len() == j,
            forall|k: int| 0 <= k < j ==> #[trigger] r@[k]@ == spec_fields(line@)[k],
        decreases n - j,
    {
        proof {
            let ps = positions_of(line@, 9);
            assert(ps[j as int] == tabs@[j as int] as int);
            if j > 0 {
                assert(ps[j as int - 1] == tabs@[j as int - 1] as int);
            }
        }
        let start: usize = if j == 0 {
            0
        } else {
            tabs[j - 1] + 1
        };
        let end: usize = tabs[j];
        let f = subrange_to_vec(line, start, end);
        r.push(f);
        proof {
            assert(r@[j as int]@ == spec_fields(line@)[j as int]);
        }
        j += 1;
    }
    // the final field runs from after the last tab to the end of the line
    proof {
        let ps = positions_of(line@, 9);
        if n > 0 {
            assert(ps[n as int - 1] == tabs@[n as int - 1] as int);
        }
    }
    let last_start: usize = if n == 0 {
        0
    } else {
        tabs[n - 1] + 1
    };
    let f = subrange_to_vec(line, last_start, line.len());
    r.push(f);
    proof {
        assert(r@.len() == spec_fields(line@).len());
        assert(r@[n as int]@ == spec_fields(line@)[n as int]);
    }
    r
}

/// Start offset of line `i` of `data`, where lines end at newline bytes and a
/// final line without a newline still counts.
pub open spec fn line_start(data: Seq<u8>, i: int) -> int {
    if i == 0 {
        0
    } else {
        positions_of(data, 10)[i - 1] + 1
    }
}

/// End (exclusive, without the newline byte) of line `i` of `data`.
pub open spec fn line_end(data: Seq<u8>, i: int) -> int {
    let ps = positions_of(data, 10);
    if i < ps.len() {
        ps[i]
    } else {
        data.len() as int
    }
}

/// Number of lines of `data`: one per newline byte, plus a final unterminated
/// line when bytes remain after the last newline.
pub open spec fn num_lines(data: Seq<u8>) -> int {
    let ps = positions_of(data, 10);
    let tail_start: int = if ps.len() == 0 {
        0
    } else {
        ps.last() + 1
    };
    ps.len() + if tail_start < data.len() {
        1int
    } else {
        0int
    }
}

/// Content of line `i` of `data`, without its trailing newline byte.
pub open spec fn line_content(data: Seq<u8>, i: int) -> Seq<u8> {
    data.subrange(line_start(data, i), line_end(data, i))
}

/// Line starts and ends are ordered and in bounds.
pub proof fn lemma_line_bounds(data: Seq<u8>, i: int)
    requires
        0 <= i < num_lines(data),
    ensures
        0 <= line_start(data, i) <= line_end(data, i) <= data.len(),
        line_start(data, i) < data.len(),
        i + 1 < num_lines(data) ==> line_start(data, i + 1) == line_end(data, i) + 1,
{
    lemma_positions_of(data, 10);
    let ps = positions_of(data, 10);
    if i + 1 < num_lines(data) && i + 1 == ps.len() {
        assert(ps.last() == ps[i]);
    }
    if i == ps.len() && ps.len() > 0 {
        assert(ps.last() == ps[i - 1]);
    }
}

/// Exec bounds of line `i`, given the newline positions of `data`.
pub(crate) fn line_bounds(data: &[u8], newlines: &Vec<usize>, i: usize) -> (r: (usize, usize))
    requires
        newlines@.map_values(|x: usize| x as int) == positions_of(data@, 10),
        0 <= i < num_lines(data@),
    ensures
        r.0 == line_start(data@, i as int),
        r.1 == line_end(data@, i as int),
        0 <= r.0 <= r.1 <= data@.len(),
{
    let data_len = data.len();
    proof {
        lemma_positions_of(data@, 10);
        lemma_map_pointwise(newlines@, positions_of(data@, 10));
        lemma_line_bounds(data@, i as int);
    }
    let start: usize = if i == 0 {
        0
    } else {
        newlines[i - 1] + 1
    };
    let end: usize = if i < newlines.len() {
        newlines[i]
    } else {
        data.len()
    };
    (start, end)
}

/// Exec count of the lines of `data`, given its newline positions.
pub(crate) fn count_lines(data: &[u8], newlines: &Vec<usize>) -> (r: usize)
    requires
        newlines@.map_values(|x: usize| x as int) == positions_of(data@, 10),
    ensures
        r as int == num_lines(data@),
{
    let data_len = data.len();
    proof {
        lemma_positions_of(data@, 10);
        lemma_map_pointwise(newlines@, positions_of(data@, 10));
        let ps = positions_of(data@, 10);
        if ps.len() > 0 {
            assert(ps[ps.len() - 1] >= ps.len() - 1);
            assert(ps.last() == ps[ps.len() - 1]);
        }
    }
    let n = newlines.len();
    let tail_start: usize = if n == 0 {
        0
    } else {
        newlines[n - 1] + 1
    };
    if tail_start < data.len() {
        n + 1
    } else {
        n
    }
}

} // verus!
