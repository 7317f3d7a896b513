//! Taking the rows of a table out of the lines of its database dump.
//!
//! A line of the dump that fills the table holds the rows one after the
//! other, each in brackets. A row is matched against the pattern of its
//! table; of a row in the main namespace the fields that the graph is built
//! from are kept, parted by tabs.

use regex::bytes::Regex;
use vstd::prelude::*;
use vstd::utf8::encode_utf8;
use crate::rows::TAB;
use crate::text::{append, ends_with, find, first_match, has_prefix, has_suffix, joined, push_field, replace, replaced, split, split_bounds, starts_with};

verus! {

pub const PAGE_TABLE: &'static str = "data/page.csv";

pub const REDIRECTS_TABLE: &'static str = "data/redirect.csv";

pub const LINKS_TABLE: &'static str = "data/pagelinks.csv";

/// The pattern of a row of the page table: thirteen fields.
pub const PAGE_REGEX: &'static str =
    "^([0-9]+),(-?[0-9]+),((?:'.*?')|(?:NULL)),((?:'.*?')|(?:NULL)),(-?[0-9]+),(-?[0-9]+),([0-9]+\\.[0-9]+),((?:'.*?')|(?:NULL)),((?:'.*?')|(?:NULL)),([0-9]+),(-?[0-9]+),((?:'.*?')|(?:NULL)),((?:'.*?')|(?:NULL))$";

/// The pattern of a row of the redirect table: five fields.
pub const REDIRECT_REGEX: &'static str =
    "^([0-9]+),(-?[0-9]+),((?:'.*?')|(?:NULL)),((?:'.*?')|(?:NULL)),((?:'.*?')|(?:NULL))$";

/// The pattern of a row of the pagelinks table: four fields.
pub const PAGELINKS_REGEX: &'static str = "^([0-9]+),(-?[0-9]+),((?:'.*?')|(?:NULL)),(-?[0-9]+)$";

/// The bytes of the text `s`.
pub open spec fn bytes_of(s: &str) -> Seq<u8> {
    encode_utf8(s@)
}

/// The three tables of a dump that the graph is built from.
#[derive(Clone, Copy, Debug, PartialEq, Eq, Structural)]
pub enum Table {
    Page,
    Pagelinks,
    Redirect,
}

/// Why a pattern could not be used.
#[derive(Clone, Copy, Debug, PartialEq, Eq, Structural)]
pub enum PatternError {
    /// The pattern is not a regular expression, or one too large.
    Rejected,
}

/// Why no dump was chosen for a table.
#[derive(Clone, Copy, Debug, PartialEq, Eq, Structural)]
pub enum DumpError {
    /// No file is a dump of the table.
    Missing,
    /// More than one file is a dump of the table.
    Multiple,
}

/// `regex::bytes::Regex`, a compiled regular expression. It is carried from
/// where it is compiled to where rows are matched against it; nothing is
/// said of what it holds but the pattern it was compiled from.
#[verifier::external_type_specification]
#[verifier::external_body]
pub struct ExRegex(regex::bytes::Regex);

/// `regex::Error`, the fault that the crate finds with a pattern. Nothing is
/// said of what it holds.
#[verifier::external_type_specification]
#[verifier::external_body]
pub struct ExRegexError(regex::Error);

/// The pattern that a regular expression was compiled from: what
/// `regex::bytes::Regex::as_str` returns.
pub uninterp spec fn regex_source(re: Regex) -> Seq<char>;

/// Whether `regex::bytes::Regex::new` takes `pattern`: whether the pattern
/// is a regular expression in the syntax of the crate, and one whose compiled
/// form stays within the size that the crate allows by default.
pub uninterp spec fn regex_accepts(pattern: Seq<char>) -> bool;

/// What `regex::bytes::Regex::captures` finds for a regular expression in a
/// text: where the expression matches, for the whole match and then for each
/// of its groups the bytes matched, if the group took part in the match. It
/// goes by the expression as it was built, not by the text of its pattern:
/// two expressions of one pattern, built with other options, may differ.
pub uninterp spec fn regex_captures(re: Regex, text: Seq<u8>) -> Option<Seq<Option<Seq<u8>>>>;

/// The bytes of each group of a match.
pub open spec fn group_views(groups: Seq<Option<Vec<u8>>>) -> Seq<Option<Seq<u8>>> {
    groups.map_values(
        |g: Option<Vec<u8>>|
            match g {
                Some(bytes) => Some(bytes@),
                None => None,
            },
    )
}

/// `regex::bytes::Regex::new`: the regular expression compiled from
/// `pattern`, or the fault that the crate finds with the pattern. Whether
/// the crate takes a pattern rests with the pattern alone.
#[verifier::external_body]
fn compile(pattern: &str) -> (r: Result<Regex, regex::Error>)
    ensures
        r is Ok <==> regex_accepts(pattern@),
        r matches Ok(re) ==> regex_source(re) == pattern@,
{
    Regex::new(pattern)
}

/// `regex::bytes::Regex::captures`: the leftmost match of `re` in `text`, as
/// the bytes matched by the whole pattern and by each of its groups.
#[verifier::external_body]
fn captures(re: &Regex, text: &[u8]) -> (r: Option<Vec<Option<Vec<u8>>>>)
    ensures
        match r {
            Some(groups) => regex_captures(*re, text@) == Some(group_views(groups@)),
            None => regex_captures(*re, text@) is None,
        },
{
    re.captures(text).map(|found| found.iter().map(|group| group.map(|m| m.as_bytes().to_vec())).collect())
}

/// The regular expression with the pattern `pattern`, where the pattern is
/// one that the crate takes, and `PatternError::Rejected` where it is not.
pub fn row_pattern(pattern: &str) -> (r: Result<Regex, PatternError>)
    ensures
        r is Ok <==> regex_accepts(pattern@),
        r matches Ok(re) ==> regex_source(re) == pattern@,
        r matches Err(e) ==> e == PatternError::Rejected,
{
    pattern_outcome(
        // what the crate makes of the pattern
        compile(pattern),
    )
}

impl Table {
    /// The name of the table in the dump.
    pub open spec fn spec_name(self) -> Seq<char> {
        match self {
            Table::Page => "page"@,
            Table::Pagelinks => "pagelinks"@,
            Table::Redirect => "redirect"@,
        }
    }

    /// The file that the rows of the table are written to.
    pub open spec fn spec_target_file(self) -> Seq<char> {
        match self {
            Table::Page => PAGE_TABLE@,
            Table::Pagelinks => LINKS_TABLE@,
            Table::Redirect => REDIRECTS_TABLE@,
        }
    }

    /// The pattern of a row of the table.
    pub open spec fn spec_pattern(self) -> Seq<char> {
        match self {
            Table::Page => PAGE_REGEX@,
            Table::Pagelinks => PAGELINKS_REGEX@,
            Table::Redirect => REDIRECT_REGEX@,
        }
    }

    /// The fields of a row that are kept, counted from 0.
    pub open spec fn spec_rows(self) -> Seq<usize> {
        match self {
            Table::Page => seq![0usize, 2usize, 4usize],
            Table::Pagelinks => seq![0usize, 2usize],
            Table::Redirect => seq![0usize, 2usize],
        }
    }

    /// The fields of a row that hold a namespace, counted from 0.
    pub open spec fn spec_namespace_rows(self) -> Seq<usize> {
        match self {
            Table::Page => seq![1usize],
            Table::Pagelinks => seq![1usize, 3usize],
            Table::Redirect => seq![1usize],
        }
    }

    /// The name of the table in the dump.
    pub fn name(self) -> (r: &'static str)
        ensures
            r@ == self.spec_name(),
    {
        match self {
            Table::Page => "page",
            Table::Pagelinks => "pagelinks",
            Table::Redirect => "redirect",
        }
    }

    /// The file that the rows of the table are written to.
    pub fn target_file(self) -> (r: &'static str)
        ensures
            r@ == self.spec_target_file(),
    {
        match self {
            Table::Page => PAGE_TABLE,
            Table::Pagelinks => LINKS_TABLE,
            Table::Redirect => REDIRECTS_TABLE,
        }
    }

    /// The pattern of a row of the table.
    pub fn pattern(self) -> (r: &'static str)
        ensures
            r@ == self.spec_pattern(),
    {
        match self {
            Table::Page => PAGE_REGEX,
            Table::Pagelinks => PAGELINKS_REGEX,
            Table::Redirect => REDIRECT_REGEX,
        }
    }

    /// The regular expression for a row of the table, where the crate
    /// takes the pattern of the table.
    pub fn regex(self) -> (r: Result<Regex, PatternError>)
        ensures
            r is Ok <==> regex_accepts(self.spec_pattern()),
            r matches Ok(re) ==> regex_source(re) == self.spec_pattern(),
            r matches Err(e) ==> e == PatternError::Rejected,
    {
        row_pattern(self.pattern())
    }

    /// The fields of a row that are kept, counted from 0.
    pub fn rows(self) -> (r: Vec<usize>)
        ensures
            r@ == self.spec_rows(),
    {
        let mut r: Vec<usize> = Vec::new();
        match self {
            Table::Page => {
                r.push(0);
                r.push(2);
                r.push(4);
            },
            Table::Pagelinks => {
                r.push(0);
                r.push(2);
            },
            Table::Redirect => {
                r.push(0);
                r.push(2);
            },
        }
        assert(r@ =~= self.spec_rows());
        r
    }

    /// The fields of a row that hold a namespace, counted from 0.
    pub fn namespace_rows(self) -> (r: Vec<usize>)
        ensures
            r@ == self.spec_namespace_rows(),
    {
        let mut r: Vec<usize> = Vec::new();
        match self {
            Table::Page => {
                r.push(1);
            },
            Table::Pagelinks => {
                r.push(1);
                r.push(3);
            },
            Table::Redirect => {
                r.push(1);
            },
        }
        assert(r@ =~= self.spec_namespace_rows());
        r
    }
}

/// What becomes of the answer that the crate gives for a pattern: the
/// regular expression as it was compiled, or, whatever fault the crate
/// found, the one error that the library has for a pattern.
pub fn pattern_outcome(compiled: Result<Regex, regex::Error>) -> (r: Result<Regex, PatternError>)
    ensures
        match compiled {
            Ok(re) => r == Ok::<Regex, PatternError>(re),
            Err(_) => r == Err::<Regex, PatternError>(PatternError::Rejected),
        },
{
    match compiled {
        Ok(re) => Ok(re),
        Err(_) => Err(PatternError::Rejected),
    }
}

/// What the line of a dump begins with where it fills the table `name`.
pub open spec fn insert_prefix(name: Seq<char>) -> Seq<u8> {
    bytes_of("INSERT INTO `") + encode_utf8(name) + bytes_of("` VALUES ")
}

/// What the name of a file ends with where the file is a dump of the table
/// `name`.
pub open spec fn dump_suffix(name: Seq<char>) -> Seq<u8> {
    bytes_of("-") + encode_utf8(name) + bytes_of(".sql.gz")
}

/// The rows of a line of the dump that fills the table `name`, without the
/// bracket before the first and the bracket after the last: what stands
/// between the first ` VALUES ` and the next, less one byte at its start and
/// two at its end. A line that fills another table, or none, has no rows.
pub open spec fn values_of(name: Seq<char>, line: Seq<u8>) -> Option<Seq<u8>> {
    let prefix = insert_prefix(name);
    if has_prefix(line, prefix) {
        let rest = line.skip(prefix.len() as int);
        let values = match first_match(rest, bytes_of(" VALUES ")) {
            Some(p) => rest.take(p as int),
            None => rest,
        };
        if values.len() >= 3 {
            Some(values.subrange(1, values.len() - 2))
        } else {
            None
        }
    } else {
        None
    }
}

/// Field `i` of a matched row, counted from 0: the group after the whole
/// match and `i` more.
pub open spec fn group_at(groups: Seq<Option<Seq<u8>>>, i: usize) -> Option<Seq<u8>> {
    if i + 1 < groups.len() {
        groups[i + 1]
    } else {
        None
    }
}

/// The first `n` of the namespace fields of the row all hold `0`.
pub open spec fn in_main_namespace(groups: Seq<Option<Seq<u8>>>, fields: Seq<usize>, n: nat) -> bool
    decreases n,
{
    if n == 0 {
        true
    } else {
        in_main_namespace(groups, fields, (n - 1) as nat) && group_at(groups, fields[n - 1]) == Some(
            bytes_of("0"),
        )
    }
}

/// The first `n` of the kept fields of the row, where the row has them all.
pub open spec fn kept_fields(groups: Seq<Option<Seq<u8>>>, fields: Seq<usize>, n: nat) -> Option<Seq<Seq<u8>>>
    decreases n,
{
    if n == 0 {
        Some(Seq::empty())
    } else {
        match (kept_fields(groups, fields, (n - 1) as nat), group_at(groups, fields[n - 1])) {
            (Some(before), Some(field)) => Some(before.push(field)),
            _ => None,
        }
    }
}

/// What is kept of a matched row of `table`: for a row in the main
/// namespace, its kept fields parted by tabs.
pub open spec fn row_of(table: Table, groups: Seq<Option<Seq<u8>>>) -> Option<Seq<u8>> {
    if in_main_namespace(groups, table.spec_namespace_rows(), table.spec_namespace_rows().len()) {
        match kept_fields(groups, table.spec_rows(), table.spec_rows().len()) {
            Some(fields) => Some(joined(fields, TAB)),
            None => None,
        }
    } else {
        None
    }
}

/// A row as it is matched: with `-` for each escaped en dash.
pub open spec fn row_text(piece: Seq<u8>) -> Seq<u8> {
    replaced(piece, bytes_of("\\xe2\\x80\\x93"), bytes_of("-"))
}

/// What the first `n` of the rows `pieces` of a line give: the rows kept,
/// and the rows that the pattern does not match, each in the order of the
/// line.
pub open spec fn extracted(table: Table, re: Regex, pieces: Seq<Seq<u8>>, n: nat) -> (
    Seq<Seq<u8>>,
    Seq<Seq<u8>>,
)
    decreases n,
{
    if n == 0 {
        (Seq::empty(), Seq::empty())
    } else {
        let before = extracted(table, re, pieces, (n - 1) as nat);
        let text = row_text(pieces[n - 1]);
        match regex_captures(re, text) {
            Some(groups) => match row_of(table, groups) {
                Some(row) => (before.0.push(row), before.1),
                None => before,
            },
            None => (before.0, before.1.push(text)),
        }
    }
}

/// What a line of the dump gives for `table`, its rows matched against `re`.
pub open spec fn line_extract(table: Table, re: Regex, line: Seq<u8>) -> (Seq<Seq<u8>>, Seq<Seq<u8>>) {
    match values_of(table.spec_name(), line) {
        Some(values) => {
            let pieces = split(values, bytes_of("),("));
            extracted(table, re, pieces, pieces.len())
        },
        None => (Seq::empty(), Seq::empty()),
    }
}

/// The bytes of each of `lines`.
pub open spec fn byte_views(lines: Seq<Vec<u8>>) -> Seq<Seq<u8>> {
    lines.map_values(|l: Vec<u8>| l@)
}

/// What a line of a dump gives.
pub struct Extracted {
    /// The rows kept, their fields parted by tabs.
    pub rows: Vec<Vec<u8>>,
    /// The rows that the pattern of the table does not match.
    pub failed: Vec<Vec<u8>>,
}

fn group_bytes(groups: &Vec<Option<Vec<u8>>>, i: usize) -> (r: Option<&[u8]>)
    ensures
        match r {
            Some(bytes) => group_at(group_views(groups@), i) == Some(bytes@),
            None => group_at(group_views(groups@), i) is None,
        },
{
    let n = groups.len();
    if n > 0 && i < n - 1 {
        assert(group_views(groups@)[i + 1] == match groups@[i + 1] {
            Some(bytes) => Some(bytes@),
            None => None,
        });
        match &groups[i + 1] {
            Some(bytes) => Some(bytes.as_slice()),
            None => None,
        }
    } else {
        None
    }
}

fn is_text(bytes: &[u8], text: &str) -> (r: bool)
    ensures
        r == (bytes@ == bytes_of(text)),
{
    let other = text.as_bytes();
    let r = starts_with(bytes, other) && bytes.len() == other.len();
    proof {
        if r {
            assert(bytes@.take(other@.len() as int) =~= bytes@);
        } else if bytes@ == other@ {
            assert(bytes@.take(other@.len() as int) =~= bytes@);
        }
    }
    r
}

/// What is kept of a matched row of `table`, given as the bytes matched by
/// the whole pattern and by each of its groups.
pub fn row_from_groups(table: Table, groups: &Vec<Option<Vec<u8>>>) -> (r: Option<Vec<u8>>)
    ensures
        match r {
            Some(row) => row_of(table, group_views(groups@)) == Some(row@),
            None => row_of(table, group_views(groups@)) is None,
        },
{
    let namespace_rows = table.namespace_rows();
    let mut k: usize = 0;
    while k < namespace_rows.len()
        invariant
            k <= namespace_rows@.len(),
            namespace_rows@ == table.spec_namespace_rows(),
            in_main_namespace(group_views(groups@), namespace_rows@, k as nat),
        decreases namespace_rows@.len() - k,
    {
        let zero = match group_bytes(groups, namespace_rows[k]) {
            Some(bytes) => is_text(bytes, "0"),
            None => false,
        };
        if !zero {
            proof {
                lemma_namespace_fails(group_views(groups@), namespace_rows@, (k + 1) as nat, namespace_rows@.len());
            }
            return None;
        }
        k += 1;
    }
    let rows = table.rows();
    let mut out: Vec<u8> = Vec::new();
    let ghost mut fields: Seq<Seq<u8>> = Seq::empty();
    let mut j: usize = 0;
    while j < rows.len()
        invariant
            j <= rows@.len(),
            rows@ == table.spec_rows(),
            kept_fields(group_views(groups@), rows@, j as nat) == Some(fields),
            fields.len() == j,
            out@ == joined(fields, TAB),
        decreases rows@.len() - j,
    {
        match group_bytes(groups, rows[j]) {
            Some(bytes) => {
                push_field(&mut out, j == 0, TAB, bytes);
                proof {
                    let longer = fields.push(bytes@);
                    assert(longer.drop_last() =~= fields);
                    if j == 0 {
                        assert(joined(fields, TAB) =~= Seq::<u8>::empty());
                        assert(out@ =~= bytes@);
                    }
                    fields = longer;
                }
            },
            None => {
                proof {
                    lemma_fields_fail(group_views(groups@), rows@, (j + 1) as nat, rows@.len());
                }
                return None;
            },
        }
        j += 1;
    }
    Some(out)
}

proof fn lemma_namespace_fails(groups: Seq<Option<Seq<u8>>>, fields: Seq<usize>, k: nat, n: nat)
    requires
        k <= n,
        !in_main_namespace(groups, fields, k),
    ensures
        !in_main_namespace(groups, fields, n),
    decreases n - k,
{
    if k < n {
        lemma_namespace_fails(groups, fields, k, (n - 1) as nat);
    }
}

proof fn lemma_fields_fail(groups: Seq<Option<Seq<u8>>>, fields: Seq<usize>, k: nat, n: nat)
    requires
        k <= n,
        kept_fields(groups, fields, k) is None,
    ensures
        kept_fields(groups, fields, n) is None,
    decreases n - k,
{
    if k < n {
        lemma_fields_fail(groups, fields, k, (n - 1) as nat);
    }
}

/// Where the rows of a line of the dump that fills `table` begin and end
/// within the line.
fn values_bounds(table: Table, line: &[u8]) -> (r: Option<(usize, usize)>)
    ensures
        match r {
            Some((from, to)) => from <= to <= line@.len() && values_of(table.spec_name(), line@) == Some(
                line@.subrange(from as int, to as int),
            ),
            None => values_of(table.spec_name(), line@) is None,
        },
{
    let mut prefix: Vec<u8> = Vec::new();
    append(&mut prefix, "INSERT INTO `".as_bytes());
    append(&mut prefix, table.name().as_bytes());
    append(&mut prefix, "` VALUES ".as_bytes());
    assert(prefix@ =~= insert_prefix(table.spec_name()));
    if !starts_with(line, prefix.as_slice()) {
        return None;
    }
    let start = prefix.len();
    let ghost rest = line@.skip(start as int);
    assert(rest =~= line@.subrange(start as int, line@.len() as int));
    let end = match find(line, start, line.len(), " VALUES ".as_bytes()) {
        Some(p) => p,
        None => line.len(),
    };
    let ghost values = line@.subrange(start as int, end as int);
    assert(values =~= rest.take(end - start));
    assert(rest.take(rest.len() as int) =~= rest);
    if end - start < 3 {
        return None;
    }
    assert(values.subrange(1, values.len() - 2) =~= line@.subrange(start + 1, end - 2));
    Some((start + 1, end - 2))
}

/// Takes the rows of `table` out of a line of its dump. `re` is the regular
/// expression that the rows are matched against.
pub fn extract_line(table: Table, re: &Regex, line: &[u8]) -> (r: Extracted)
    ensures
        byte_views(r.rows@) == line_extract(table, *re, line@).0,
        byte_views(r.failed@) == line_extract(table, *re, line@).1,
{
    let mut rows: Vec<Vec<u8>> = Vec::new();
    let mut failed: Vec<Vec<u8>> = Vec::new();
    assert(byte_views(rows@) =~= Seq::<Seq<u8>>::empty());
    assert(byte_views(failed@) =~= Seq::<Seq<u8>>::empty());
    let (from, to) = match values_bounds(table, line) {
        Some(bounds) => bounds,
        None => {
            return Extracted { rows, failed };
        },
    };
    let ghost pieces = split(line@.subrange(from as int, to as int), bytes_of("),("));
    let bounds = split_bounds(line, from, to, "),(".as_bytes());
    let mut k: usize = 0;
    while k < bounds.len()
        invariant
            k <= bounds@.len(),
            bounds@.len() == pieces.len(),
            forall|i: int| 0 <= i < bounds@.len() ==> from <= (#[trigger] bounds@[i]).0 <= bounds@[i].1 <= to,
            to <= line@.len(),
            forall|i: int| 0 <= i < bounds@.len() ==> line@.subrange((#[trigger] bounds@[i]).0 as int, bounds@[i].1 as int)
                == pieces[i],
            byte_views(rows@) == extracted(table, *re, pieces, k as nat).0,
            byte_views(failed@) == extracted(table, *re, pieces, k as nat).1,
        decreases bounds@.len() - k,
    {
        let (a, b) = bounds[k];
        let ghost rows_before = rows@;
        let ghost failed_before = failed@;
        let text = replace(line, a, b, "\\xe2\\x80\\x93".as_bytes(), "-".as_bytes());
        assert(text@ == row_text(pieces[k as int]));
        match captures(re, text.as_slice()) {
            Some(groups) => match row_from_groups(table, &groups) {
                Some(row) => {
                    rows.push(row);
                    assert(byte_views(rows@) =~= byte_views(rows_before).push(row@));
                },
                None => {},
            },
            None => {
                failed.push(text);
                assert(byte_views(failed@) =~= byte_views(failed_before).push(text@));
            },
        }
        k += 1;
    }
    Extracted { rows, failed }
}

/// The table, by its place in the list of tables asked for, that has no dump
/// or more than one, and which of the two it is.
#[derive(Clone, Copy, Debug, PartialEq, Eq, Structural)]
pub struct DumpFault {
    pub table: usize,
    pub error: DumpError,
}

/// The file of the name `name` is a dump of `table`: the name ends with
/// `-`, the name of the table and `.sql.gz`.
pub open spec fn is_dump(table: Table, name: Seq<char>) -> bool {
    has_suffix(encode_utf8(name), dump_suffix(table.spec_name()))
}

/// `r` is what the choice of a dump of `table` among the files `names` comes
/// to: the place of the one dump; `Missing` where no file is a dump of the
/// table; `Multiple` where more than one is.
pub open spec fn is_dump_choice(table: Table, names: Seq<String>, r: Result<usize, DumpError>) -> bool {
    match r {
        Ok(i) => {
            &&& i < names.len()
            &&& forall|j: int| 0 <= j < names.len() ==> (is_dump(table, #[trigger] names[j]@) <==> j == i)
        },
        Err(DumpError::Missing) => forall|j: int| 0 <= j < names.len() ==> !is_dump(table, #[trigger] names[j]@),
        Err(DumpError::Multiple) => exists|i: int, j: int|
            {
                &&& 0 <= i < j < names.len()
                &&& is_dump(table, #[trigger] names[i]@)
                &&& is_dump(table, #[trigger] names[j]@)
            },
    }
}

/// Exactly one of the files `names` is a dump of `table`.
pub open spec fn has_one_dump(table: Table, names: Seq<String>) -> bool {
    exists|i: usize| is_dump_choice(table, names, Ok::<usize, DumpError>(i))
}

/// Which of the files `names` is the dump of `table`: the one whose name
/// ends with `-`, the name of the table and `.sql.gz`.
pub fn find_dump(table: Table, names: &Vec<String>) -> (r: Result<usize, DumpError>)
    ensures
        is_dump_choice(table, names@, r),
{
    let mut suffix: Vec<u8> = Vec::new();
    append(&mut suffix, "-".as_bytes());
    append(&mut suffix, table.name().as_bytes());
    append(&mut suffix, ".sql.gz".as_bytes());
    assert(suffix@ =~= dump_suffix(table.spec_name()));
    let mut found: Option<usize> = None;
    let mut k: usize = 0;
    while k < names.len()
        invariant
            k <= names@.len(),
            suffix@ == dump_suffix(table.spec_name()),
            match found {
                Some(i) => i < k && forall|j: int| 0 <= j < k ==> (is_dump(table, #[trigger] names@[j]@) <==> j
                    == i),
                None => forall|j: int| 0 <= j < k ==> !is_dump(table, #[trigger] names@[j]@),
            },
        decreases names@.len() - k,
    {
        if ends_with(names[k].as_str().as_bytes(), suffix.as_slice()) {
            match found {
                Some(i) => {
                    assert(is_dump(table, names@[i as int]@));
                    assert(is_dump(table, names@[k as int]@));
                    return Err(DumpError::Multiple);
                },
                None => {
                    found = Some(k);
                },
            }
        }
        k += 1;
    }
    match found {
        Some(i) => Ok(i),
        None => Err(DumpError::Missing),
    }
}

/// For each of `tables`, which of the files `names` is its dump. The answer
/// is there only where each of the tables has exactly one dump; otherwise it
/// is the first table that has none, or more than one, and which of the two.
pub fn find_dumps(tables: &Vec<Table>, names: &Vec<String>) -> (r: Result<Vec<usize>, DumpFault>)
    ensures
        match r {
            Ok(found) => {
                &&& found@.len() == tables@.len()
                &&& forall|t: int| 0 <= t < tables@.len() ==> is_dump_choice(
                    tables@[t],
                    names@,
                    Ok::<usize, DumpError>(#[trigger] found@[t]),
                )
            },
            Err(at) => {
                &&& at.table < tables@.len()
                &&& is_dump_choice(tables@[at.table as int], names@, Err::<usize, DumpError>(at.error))
                &&& forall|s: int| 0 <= s < at.table ==> has_one_dump(#[trigger] tables@[s], names@)
            },
        },
{
    let mut found: Vec<usize> = Vec::new();
    let mut t: usize = 0;
    while t < tables.len()
        invariant
            t <= tables@.len(),
            found@.len() == t,
            forall|s: int| 0 <= s < t ==> is_dump_choice(
                tables@[s],
                names@,
                Ok::<usize, DumpError>(#[trigger] found@[s]),
            ),
            forall|s: int| 0 <= s < t ==> has_one_dump(#[trigger] tables@[s], names@),
        decreases tables@.len() - t,
    {
        match find_dump(tables[t], names) {
            Ok(i) => {
                found.push(i);
            },
            Err(error) => {
                return Err(DumpFault { table: t, error });
            },
        }
        t += 1;
    }
    Ok(found)
}

} // verus!
