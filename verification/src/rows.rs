//! The rows of the extracted tables: one row a line, its fields parted by
//! tabs, white space around the line left out of account.

use vstd::prelude::*;
use vstd::slice::{slice_subrange, slice_to_vec};

verus! {

pub const TAB: u8 = 0x09;

pub const PLUS: u8 = 0x2b;

pub const ZERO: u8 = 0x30;

/// `a` is the UTF-8 form of a white space character of one byte.
pub open spec fn is_space1(a: u8) -> bool {
    0x09 <= a <= 0x0d || a == 0x20
}

/// `a b` is the UTF-8 form of a white space character of two bytes.
pub open spec fn is_space2(a: u8, b: u8) -> bool {
    a == 0xc2 && (b == 0x85 || b == 0xa0)
}

/// `a b c` is the UTF-8 form of a white space character of three bytes.
pub open spec fn is_space3(a: u8, b: u8, c: u8) -> bool {
    ||| a == 0xe1 && b == 0x9a && c == 0x80
    ||| a == 0xe2 && b == 0x80 && (0x80 <= c <= 0x8a || c == 0xa8 || c == 0xa9 || c == 0xaf)
    ||| a == 0xe2 && b == 0x81 && c == 0x9f
    ||| a == 0xe3 && b == 0x80 && c == 0x80
}

/// The number of bytes of the white space character that `s` begins with;
/// 0 where it begins with none.
pub open spec fn leading_space(s: Seq<u8>) -> nat {
    if s.len() >= 1 && is_space1(s[0]) {
        1
    } else if s.len() >= 2 && is_space2(s[0], s[1]) {
        2
    } else if s.len() >= 3 && is_space3(s[0], s[1], s[2]) {
        3
    } else {
        0
    }
}

/// The number of bytes of the white space character that `s` ends with;
/// 0 where it ends with none.
pub open spec fn trailing_space(s: Seq<u8>) -> nat {
    let n = s.len() as int;
    if n >= 1 && is_space1(s[n - 1]) {
        1
    } else if n >= 2 && is_space2(s[n - 2], s[n - 1]) {
        2
    } else if n >= 3 && is_space3(s[n - 3], s[n - 2], s[n - 1]) {
        3
    } else {
        0
    }
}

/// `s` without the white space it begins with.
pub open spec fn trimmed_start(s: Seq<u8>) -> Seq<u8>
    decreases s.len(),
{
    if leading_space(s) == 0 {
        s
    } else {
        trimmed_start(s.skip(leading_space(s) as int))
    }
}

/// `s` without the white space it ends with.
pub open spec fn trimmed_end(s: Seq<u8>) -> Seq<u8>
    decreases s.len(),
{
    if trailing_space(s) == 0 {
        s
    } else {
        trimmed_end(s.take(s.len() - trailing_space(s)))
    }
}

/// `s` without the white space around it.
pub open spec fn trimmed(s: Seq<u8>) -> Seq<u8> {
    trimmed_end(trimmed_start(s))
}

/// The number of bytes of `s` before its first tab, or of all of `s` where
/// it has no tab.
pub open spec fn field_len(s: Seq<u8>) -> nat
    decreases s.len(),
{
    if s.len() == 0 || s[0] == TAB {
        0
    } else {
        1 + field_len(s.skip(1))
    }
}

/// Field `k` of the row `s`, counted from 0, where the row has that many
/// fields.
pub open spec fn field(s: Seq<u8>, k: nat) -> Option<Seq<u8>>
    decreases k,
{
    let n = field_len(s) as int;
    if k == 0 {
        Some(s.take(n))
    } else if n >= s.len() {
        None
    } else {
        field(s.skip(n + 1), (k - 1) as nat)
    }
}

/// The number that the decimal digits `s` write, where `s` holds nothing
/// but digits.
pub open spec fn digits_value(s: Seq<u8>) -> Option<nat>
    decreases s.len(),
{
    if s.len() == 0 {
        Some(0nat)
    } else if !(0x30 <= s.last() <= 0x39) {
        None
    } else {
        match digits_value(s.drop_last()) {
            Some(v) => Some(10 * v + (s.last() - 0x30) as nat),
            None => None,
        }
    }
}

/// The number that `s` writes: decimal digits, at least one, after at most
/// one `+`, for a number that a `usize` can hold.
pub open spec fn number(s: Seq<u8>) -> Option<usize> {
    let digits = if s.len() > 0 && s[0] == PLUS {
        s.skip(1)
    } else {
        s
    };
    if digits.len() == 0 {
        None
    } else {
        match digits_value(digits) {
            Some(v) => if v <= usize::MAX {
                Some(v as usize)
            } else {
                None
            },
            None => None,
        }
    }
}

/// A row of the pages table: the page's id, its raw title, and whether the
/// page is a redirect, which it is unless the third field is `0`.
pub open spec fn page_row(line: Seq<u8>) -> Option<(usize, Seq<u8>, bool)> {
    let row = trimmed(line);
    match (field(row, 0), field(row, 1), field(row, 2)) {
        (Some(id), Some(title), Some(flag)) => match number(id) {
            Some(n) => Some((n, title, flag != seq![ZERO])),
            None => None,
        },
        _ => None,
    }
}

/// A row of the redirects or of the pagelinks table: a page's id and a raw
/// title.
pub open spec fn pair_row(line: Seq<u8>) -> Option<(usize, Seq<u8>)> {
    let row = trimmed(line);
    match (field(row, 0), field(row, 1)) {
        (Some(id), Some(title)) => match number(id) {
            Some(n) => Some((n, title)),
            None => None,
        },
        _ => None,
    }
}

/// A row of the page index: a page's id and its title, the line taken as it
/// is.
pub open spec fn index_row(line: Seq<u8>) -> Option<(usize, Seq<u8>)> {
    match (field(line, 0), field(line, 1)) {
        (Some(id), Some(title)) => match number(id) {
            Some(n) => Some((n, title)),
            None => None,
        },
        _ => None,
    }
}

/// A row of the pages table.
pub struct PageRow {
    pub id: usize,
    pub title: Vec<u8>,
    pub is_redirect: bool,
}

/// A row of two fields, an id and a raw title.
pub struct PairRow {
    pub id: usize,
    pub title: Vec<u8>,
}

fn space1(a: u8) -> (r: bool)
    ensures
        r == is_space1(a),
{
    (0x09 <= a && a <= 0x0d) || a == 0x20
}

fn space2(a: u8, b: u8) -> (r: bool)
    ensures
        r == is_space2(a, b),
{
    a == 0xc2 && (b == 0x85 || b == 0xa0)
}

fn space3(a: u8, b: u8, c: u8) -> (r: bool)
    ensures
        r == is_space3(a, b, c),
{
    (a == 0xe1 && b == 0x9a && c == 0x80) || (a == 0xe2 && b == 0x80 && ((0x80 <= c && c <= 0x8a)
        || c == 0xa8 || c == 0xa9 || c == 0xaf)) || (a == 0xe2 && b == 0x81 && c == 0x9f) || (a
        == 0xe3 && b == 0x80 && c == 0x80)
}

fn leading_space_in(line: &[u8], from: usize, to: usize) -> (r: usize)
    requires
        from <= to <= line@.len(),
    ensures
        r == leading_space(line@.subrange(from as int, to as int)),
        r <= to - from,
{
    let n = to - from;
    if n >= 1 && space1(line[from]) {
        1
    } else if n >= 2 && space2(line[from], line[from + 1]) {
        2
    } else if n >= 3 && space3(line[from], line[from + 1], line[from + 2]) {
        3
    } else {
        0
    }
}

fn trailing_space_in(line: &[u8], from: usize, to: usize) -> (r: usize)
    requires
        from <= to <= line@.len(),
    ensures
        r == trailing_space(line@.subrange(from as int, to as int)),
        r <= to - from,
{
    let n = to - from;
    if n >= 1 && space1(line[to - 1]) {
        1
    } else if n >= 2 && space2(line[to - 2], line[to - 1]) {
        2
    } else if n >= 3 && space3(line[to - 3], line[to - 2], line[to - 1]) {
        3
    } else {
        0
    }
}

/// Where `line` without the white space around it begins and ends.
pub fn trim(line: &[u8]) -> (r: (usize, usize))
    ensures
        r.0 <= r.1 <= line@.len(),
        line@.subrange(r.0 as int, r.1 as int) == trimmed(line@),
{
    let n = line.len();
    let mut start: usize = 0;
    assert(line@.subrange(0, n as int) =~= line@);
    loop
        invariant
            n == line@.len(),
            start <= n,
            trimmed_start(line@) == trimmed_start(line@.subrange(start as int, n as int)),
        ensures
            trimmed_start(line@) == line@.subrange(start as int, n as int),
        decreases n - start,
    {
        let k = leading_space_in(line, start, n);
        if k == 0 {
            break;
        }
        assert(line@.subrange(start as int, n as int).skip(k as int) =~= line@.subrange(
            start + k,
            n as int,
        ));
        start += k;
    }
    let mut end: usize = n;
    loop
        invariant
            n == line@.len(),
            start <= end <= n,
            trimmed(line@) == trimmed_end(line@.subrange(start as int, end as int)),
        ensures
            trimmed(line@) == line@.subrange(start as int, end as int),
        decreases end - start,
    {
        let k = trailing_space_in(line, start, end);
        if k == 0 {
            break;
        }
        assert(line@.subrange(start as int, end as int).take(end - start - k) =~= line@.subrange(
            start as int,
            end - k,
        ));
        end -= k;
    }
    (start, end)
}

/// Where the field that begins at `from` ends: at the first tab from there
/// on, or at `to`.
fn field_end(line: &[u8], from: usize, to: usize) -> (r: usize)
    requires
        from <= to <= line@.len(),
    ensures
        from <= r <= to,
        r - from == field_len(line@.subrange(from as int, to as int)),
{
    let mut i = from;
    while i < to && line[i] != TAB
        invariant
            from <= i <= to,
            to <= line@.len(),
            field_len(line@.subrange(from as int, to as int)) == (i - from) + field_len(
                line@.subrange(i as int, to as int),
            ),
        decreases to - i,
    {
        assert(line@.subrange(i as int, to as int).skip(1) =~= line@.subrange(i + 1, to as int));
        i += 1;
    }
    i
}

proof fn lemma_digits_grow(s: Seq<u8>, i: int)
    requires
        0 <= i <= s.len(),
    ensures
        digits_value(s) matches Some(v) ==> digits_value(s.take(i)) matches Some(u) && u <= v,
    decreases s.len() - i,
{
    if i < s.len() {
        lemma_digits_grow(s, i + 1);
        assert(s.take(i + 1).drop_last() =~= s.take(i));
    } else {
        assert(s.take(i) =~= s);
    }
}

/// Reads the number that the bytes of `line` from `from` up to `to` write.
pub fn parse_number(line: &[u8], from: usize, to: usize) -> (r: Option<usize>)
    requires
        from <= to <= line@.len(),
    ensures
        r == number(line@.subrange(from as int, to as int)),
{
    let ghost s = line@.subrange(from as int, to as int);
    let mut i = from;
    if i < to && line[i] == PLUS {
        i += 1;
    }
    let first = i;
    let ghost digits = line@.subrange(first as int, to as int);
    assert(digits =~= if s.len() > 0 && s[0] == PLUS {
        s.skip(1)
    } else {
        s
    });
    if first == to {
        return None;
    }
    let mut value: usize = 0;
    assert(digits.take(0) =~= Seq::<u8>::empty());
    while i < to
        invariant
            first <= i <= to,
            to <= line@.len(),
            digits == line@.subrange(first as int, to as int),
            digits.len() > 0,
            number(line@.subrange(from as int, to as int)) == match digits_value(digits) {
                Some(v) => if v <= usize::MAX {
                    Some(v as usize)
                } else {
                    None
                },
                None => None,
            },
            digits_value(digits.take(i - first)) == Some(value as nat),
        decreases to - i,
    {
        let b = line[i];
        let ghost upto = digits.take(i - first + 1);
        assert(upto.drop_last() =~= digits.take(i - first));
        assert(upto.last() == b);
        proof {
            lemma_digits_grow(digits, i - first + 1);
        }
        if !(0x30 <= b && b <= 0x39) {
            return None;
        }
        let d = (b - 0x30) as usize;
        value = match value.checked_mul(10) {
            Some(tens) => match tens.checked_add(d) {
                Some(v) => v,
                None => {
                    return None;
                },
            },
            None => {
                return None;
            },
        };
        i += 1;
    }
    assert(digits.take(to - first) =~= digits);
    Some(value)
}

fn copy_of(line: &[u8], from: usize, to: usize) -> (r: Vec<u8>)
    requires
        from <= to <= line@.len(),
    ensures
        r@ == line@.subrange(from as int, to as int),
{
    slice_to_vec(slice_subrange(line, from, to))
}

fn is_zero(line: &[u8], from: usize, to: usize) -> (r: bool)
    requires
        from <= to <= line@.len(),
    ensures
        r == (line@.subrange(from as int, to as int) == seq![ZERO]),
{
    let r = to - from == 1 && line[from] == ZERO;
    proof {
        let s = line@.subrange(from as int, to as int);
        if r {
            assert(s =~= seq![ZERO]);
        } else if s.len() == 1 {
            assert(s[0] != seq![ZERO][0]);
        }
    }
    r
}

proof fn lemma_next_field(row: Seq<u8>, k: nat)
    requires
        field_len(row) < row.len(),
    ensures
        field(row, k + 1) == field(row.skip(field_len(row) as int + 1), k),
{
}

/// Reads a row of the pages table.
pub fn parse_page_row(line: &[u8]) -> (r: Option<PageRow>)
    ensures
        match r {
            Some(row) => page_row(line@) == Some((row.id, row.title@, row.is_redirect)),
            None => page_row(line@) is None,
        },
{
    let (start, end) = trim(line);
    let ghost row = line@.subrange(start as int, end as int);
    let a = field_end(line, start, end);
    assert(row.take(a - start) =~= line@.subrange(start as int, a as int));
    if a == end {
        return None;
    }
    let ghost rest1 = line@.subrange(a + 1, end as int);
    assert(row.skip(a - start + 1) =~= rest1);
    let b = field_end(line, a + 1, end);
    assert(rest1.take(b - a - 1) =~= line@.subrange(a + 1, b as int));
    proof {
        lemma_next_field(row, 0);
        lemma_next_field(row, 1);
    }
    if b == end {
        return None;
    }
    let ghost rest2 = line@.subrange(b + 1, end as int);
    assert(rest1.skip(b - a - 1 + 1) =~= rest2);
    let c = field_end(line, b + 1, end);
    assert(rest2.take(c - b - 1) =~= line@.subrange(b + 1, c as int));
    proof {
        lemma_next_field(rest1, 0);
    }
    match parse_number(line, start, a) {
        Some(id) => Some(PageRow { id, title: copy_of(line, a + 1, b), is_redirect: !is_zero(line, b + 1, c) }),
        None => None,
    }
}

fn parse_pair(line: &[u8], start: usize, end: usize) -> (r: Option<PairRow>)
    requires
        start <= end <= line@.len(),
    ensures
        ({
            let row = line@.subrange(start as int, end as int);
            let expected = match (field(row, 0), field(row, 1)) {
                (Some(id), Some(title)) => match number(id) {
                    Some(n) => Some((n, title)),
                    None => None,
                },
                _ => None,
            };
            match r {
                Some(pair) => expected == Some((pair.id, pair.title@)),
                None => expected is None,
            }
        }),
{
    let ghost row = line@.subrange(start as int, end as int);
    let a = field_end(line, start, end);
    assert(row.take(a - start) =~= line@.subrange(start as int, a as int));
    if a == end {
        return None;
    }
    let ghost rest1 = line@.subrange(a + 1, end as int);
    assert(row.skip(a - start + 1) =~= rest1);
    let b = field_end(line, a + 1, end);
    assert(rest1.take(b - a - 1) =~= line@.subrange(a + 1, b as int));
    proof {
        lemma_next_field(row, 0);
    }
    match parse_number(line, start, a) {
        Some(id) => Some(PairRow { id, title: copy_of(line, a + 1, b) }),
        None => None,
    }
}

/// Reads a row of the redirects or of the pagelinks table.
pub fn parse_pair_row(line: &[u8]) -> (r: Option<PairRow>)
    ensures
        match r {
            Some(row) => pair_row(line@) == Some((row.id, row.title@)),
            None => pair_row(line@) is None,
        },
{
    let (start, end) = trim(line);
    parse_pair(line, start, end)
}

/// Reads a row of the page index.
pub fn parse_index_row(line: &[u8]) -> (r: Option<PairRow>)
    ensures
        match r {
            Some(row) => index_row(line@) == Some((row.id, row.title@)),
            None => index_row(line@) is None,
        },
{
    assert(line@.subrange(0, line@.len() as int) =~= line@);
    parse_pair(line, 0, line.len())
}

} // verus!
