use std::borrow::Cow;
use vstd::prelude::*;
use vstd::string::*;

use crate::escape::{unescape, unescape_octals};
use crate::fields::{decimal, parse_decimal, pieces, ranges_within, split_on, split_ranges};
use crate::flags::{flags_from_options, options_flags};

verus! {

/// The standard library's I/O error, carried as it is by a read failure.
#[verifier::external_type_specification]
#[verifier::external_body]
pub struct ExIoError(std::io::Error);

/// Why one line of a mount table produced no record.
#[derive(Debug)]
pub enum MountsParserError {
    /// The underlying stream could not be read; no later line is parsed.
    Read(String, std::io::Error),
    /// The line has fewer columns than the format requires.
    IncompleteRow(String),
    /// A number does not parse, an escape is malformed, or the separator
    /// column is not `-`.
    InvalidValue(String),
}

/// The kind of a `MountsParserError`, without its description.
#[derive(PartialEq, Eq, Structural, Debug, Clone, Copy)]
pub enum ErrorKind {
    Read,
    IncompleteRow,
    InvalidValue,
}

pub open spec fn kind_of(e: MountsParserError) -> ErrorKind {
    match e {
        MountsParserError::Read(..) => ErrorKind::Read,
        MountsParserError::IncompleteRow(..) => ErrorKind::IncompleteRow,
        MountsParserError::InvalidValue(..) => ErrorKind::InvalidValue,
    }
}

/// One row of the mount table. Every text column has had its escapes
/// decoded and is kept as raw bytes, which need not be valid UTF-8.
#[derive(Debug, Clone)]
pub struct MountInfo {
    pub mount_id: u64,
    pub parent_id: u64,
    pub major: u64,
    pub minor: u64,
    pub root: Vec<u8>,
    pub mount_point: Vec<u8>,
    pub mount_options: Vec<u8>,
    pub optional_fields: Vec<u8>,
    pub fstype: Vec<u8>,
    pub mount_source: Vec<u8>,
    pub super_options: Vec<u8>,
}

/// The contents of a `MountInfo`.
pub struct MountView {
    pub mount_id: u64,
    pub parent_id: u64,
    pub major: u64,
    pub minor: u64,
    pub root: Seq<u8>,
    pub mount_point: Seq<u8>,
    pub mount_options: Seq<u8>,
    pub optional_fields: Seq<u8>,
    pub fstype: Seq<u8>,
    pub mount_source: Seq<u8>,
    pub super_options: Seq<u8>,
}

impl View for MountInfo {
    type V = MountView;

    open spec fn view(&self) -> MountView {
        MountView {
            mount_id: self.mount_id,
            parent_id: self.parent_id,
            major: self.major,
            minor: self.minor,
            root: self.root@,
            mount_point: self.mount_point@,
            mount_options: self.mount_options@,
            optional_fields: self.optional_fields@,
            fstype: self.fstype@,
            mount_source: self.mount_source@,
            super_options: self.super_options@,
        }
    }
}

/// The byte `\r`.
pub const CR: u8 = 13;
/// The byte `\n` that ends a line.
pub const NL: u8 = 10;
/// The byte ` ` between columns.
pub const SPACE: u8 = 32;
/// The byte `:` between the device's major and minor numbers.
pub const COLON: u8 = 58;
/// The byte `-` of the separator column.
pub const DASH: u8 = 45;

/// A line without the one carriage return that may end it.
pub open spec fn strip_cr(line: Seq<u8>) -> Seq<u8> {
    if line.len() > 0 && line.last() == CR {
        line.drop_last()
    } else {
        line
    }
}

/// Column `i` read as a decimal integer.
pub open spec fn int_column(cols: Seq<Seq<u8>>, i: int) -> Result<u64, ErrorKind> {
    if i >= cols.len() {
        Err(ErrorKind::IncompleteRow)
    } else {
        match decimal(cols[i]) {
            Some(n) => Ok(n),
            None => Err(ErrorKind::InvalidValue),
        }
    }
}

/// Column `i` with its escapes decoded.
pub open spec fn text_column(cols: Seq<Seq<u8>>, i: int) -> Result<Seq<u8>, ErrorKind> {
    if i >= cols.len() {
        Err(ErrorKind::IncompleteRow)
    } else {
        match unescape(cols[i]) {
            Some(d) => Ok(d),
            None => Err(ErrorKind::InvalidValue),
        }
    }
}

/// The device column split into its major and minor parts; nothing when the
/// row has no such column.
pub open spec fn device_parts(cols: Seq<Seq<u8>>) -> Seq<Seq<u8>> {
    if cols.len() > 2 {
        split_on(cols[2], COLON)
    } else {
        Seq::empty()
    }
}

/// The separator column, which must be exactly `-`.
pub open spec fn separator_column(cols: Seq<Seq<u8>>) -> Result<(), ErrorKind> {
    if cols.len() <= 7 {
        Err(ErrorKind::IncompleteRow)
    } else if cols[7] == seq![DASH] {
        Ok(())
    } else {
        Err(ErrorKind::InvalidValue)
    }
}

/// What one line of the table (without its `\n`) parses to: the columns
/// `mount_id parent_id major:minor root mount_point options optional - fstype
/// source super_options`, separated by single spaces and read in that order;
/// the first column that is missing or malformed decides the error. Columns
/// after the last are ignored.
pub open spec fn parse_row_spec(line: Seq<u8>) -> Result<MountView, ErrorKind> {
    let cols = split_on(strip_cr(line), SPACE);
    let dev = device_parts(cols);
    let mount_id = int_column(cols, 0);
    let parent_id = int_column(cols, 1);
    let major = int_column(dev, 0);
    let minor = int_column(dev, 1);
    let root = text_column(cols, 3);
    let mount_point = text_column(cols, 4);
    let mount_options = text_column(cols, 5);
    let optional_fields = text_column(cols, 6);
    let separator = separator_column(cols);
    let fstype = text_column(cols, 8);
    let mount_source = text_column(cols, 9);
    let super_options = text_column(cols, 10);
    if mount_id is Err {
        Err(mount_id->Err_0)
    } else if parent_id is Err {
        Err(parent_id->Err_0)
    } else if major is Err {
        Err(major->Err_0)
    } else if minor is Err {
        Err(minor->Err_0)
    } else if root is Err {
        Err(root->Err_0)
    } else if mount_point is Err {
        Err(mount_point->Err_0)
    } else if mount_options is Err {
        Err(mount_options->Err_0)
    } else if optional_fields is Err {
        Err(optional_fields->Err_0)
    } else if separator is Err {
        Err(separator->Err_0)
    } else if fstype is Err {
        Err(fstype->Err_0)
    } else if mount_source is Err {
        Err(mount_source->Err_0)
    } else if super_options is Err {
        Err(super_options->Err_0)
    } else {
        Ok(
            MountView {
                mount_id: mount_id->Ok_0,
                parent_id: parent_id->Ok_0,
                major: major->Ok_0,
                minor: minor->Ok_0,
                root: root->Ok_0,
                mount_point: mount_point->Ok_0,
                mount_options: mount_options->Ok_0,
                optional_fields: optional_fields->Ok_0,
                fstype: fstype->Ok_0,
                mount_source: mount_source->Ok_0,
                super_options: super_options->Ok_0,
            },
        )
    }
}

/// Whether a parse result is the spec's result `s`.
pub open spec fn result_matches<T: View>(r: Result<T, MountsParserError>, s: Result<T::V, ErrorKind>) -> bool {
    match r {
        Ok(v) => s == Ok::<T::V, ErrorKind>(v@),
        Err(e) => s == Err::<T::V, ErrorKind>(kind_of(e)),
    }
}

pub uninterp spec fn lossy_of(b: Seq<u8>) -> Seq<char>;

/// Relies on String::from_utf8_lossy: the bytes as text, each invalid
/// sequence replaced; used only to describe a row in an error.
#[verifier::external_body]
fn lossy_text(b: &[u8]) -> (r: String)
    ensures
        r@ == lossy_of(b@),
{
    String::from_utf8_lossy(b).into_owned()
}

fn describe(what: &str, row: &[u8]) -> (r: String) {
    let mut s = String::from_str(what);
    let text = lossy_text(row);
    s.append(text.as_str());
    s
}

/// Reads column `i` of `row` as a decimal integer.
pub fn parse_int(row: &[u8], cols: &Vec<(usize, usize)>, i: usize) -> (r: Result<u64, MountsParserError>)
    requires
        ranges_within(cols@, row@.len() as int),
    ensures
        match r {
            Ok(n) => int_column(pieces(row@, cols@), i as int) == Ok::<u64, ErrorKind>(n),
            Err(e) => int_column(pieces(row@, cols@), i as int) == Err::<u64, ErrorKind>(kind_of(e)),
        },
{
    if i >= cols.len() {
        return Err(MountsParserError::IncompleteRow(describe("Expected more values for row: ", row)));
    }
    let (a, b) = cols[i];
    let col = vstd::slice::slice_subrange(row, a, b);
    match parse_decimal(col) {
        Some(n) => Ok(n),
        None => Err(MountsParserError::InvalidValue(describe("Cannot parse integer in row: ", row))),
    }
}

/// Reads column `i` of `row` as text, its escapes decoded.
pub fn parse_os_str(row: &[u8], cols: &Vec<(usize, usize)>, i: usize) -> (r: Result<Vec<u8>, MountsParserError>)
    requires
        ranges_within(cols@, row@.len() as int),
    ensures
        match r {
            Ok(d) => text_column(pieces(row@, cols@), i as int) == Ok::<Seq<u8>, ErrorKind>(d@),
            Err(e) => text_column(pieces(row@, cols@), i as int) == Err::<Seq<u8>, ErrorKind>(kind_of(e)),
        },
{
    if i >= cols.len() {
        return Err(MountsParserError::IncompleteRow(describe("Expected more values in row: ", row)));
    }
    let (a, b) = cols[i];
    let col = vstd::slice::slice_subrange(row, a, b);
    match unescape_octals(col) {
        Ok(Cow::Borrowed(d)) => Ok(vstd::slice::slice_to_vec(d)),
        Ok(Cow::Owned(d)) => Ok(d),
        Err(e) => Err(e),
    }
}

/// Reads column `i` of `row` as a path, its escapes decoded.
pub fn parse_path(row: &[u8], cols: &Vec<(usize, usize)>, i: usize) -> (r: Result<Vec<u8>, MountsParserError>)
    requires
        ranges_within(cols@, row@.len() as int),
    ensures
        match r {
            Ok(d) => text_column(pieces(row@, cols@), i as int) == Ok::<Seq<u8>, ErrorKind>(d@),
            Err(e) => text_column(pieces(row@, cols@), i as int) == Err::<Seq<u8>, ErrorKind>(kind_of(e)),
        },
{
    parse_os_str(row, cols, i)
}

/// Parses one line of the mount table, given without its `\n`; a `\r`
/// that ends it is dropped first.
pub fn parse_row(line: &[u8]) -> (r: Result<MountInfo, MountsParserError>)
    ensures
        result_matches(r, parse_row_spec(line@)),
{
    let row = if line.len() > 0 && line[line.len() - 1] == CR {
        vstd::slice::slice_subrange(line, 0, line.len() - 1)
    } else {
        line
    };
    assert(row@ == strip_cr(line@));
    let cols = split_ranges(row, SPACE);
    let ghost c = pieces(row@, cols@);
    let mount_id = match parse_int(row, &cols, 0) {
        Ok(n) => n,
        Err(e) => return Err(e),
    };
    let parent_id = match parse_int(row, &cols, 1) {
        Ok(n) => n,
        Err(e) => return Err(e),
    };
    if cols.len() <= 2 {
        return Err(MountsParserError::IncompleteRow(describe("Expected more values in row: ", line)));
    }
    let (a, b) = cols[2];
    let dev_col = vstd::slice::slice_subrange(row, a, b);
    let dev = split_ranges(dev_col, COLON);
    assert(pieces(dev_col@, dev@) == device_parts(c));
    let major = match parse_int(dev_col, &dev, 0) {
        Ok(n) => n,
        Err(e) => return Err(e),
    };
    let minor = match parse_int(dev_col, &dev, 1) {
        Ok(n) => n,
        Err(e) => return Err(e),
    };
    let root = match parse_path(row, &cols, 3) {
        Ok(d) => d,
        Err(e) => return Err(e),
    };
    let mount_point = match parse_path(row, &cols, 4) {
        Ok(d) => d,
        Err(e) => return Err(e),
    };
    let mount_options = match parse_os_str(row, &cols, 5) {
        Ok(d) => d,
        Err(e) => return Err(e),
    };
    let optional_fields = match parse_os_str(row, &cols, 6) {
        Ok(d) => d,
        Err(e) => return Err(e),
    };
    if cols.len() <= 7 {
        return Err(MountsParserError::IncompleteRow(describe("Expected more values in row: ", line)));
    }
    let (a, b) = cols[7];
    if !(b - a == 1 && row[a] == DASH) {
        proof {
            if c[7] == seq![DASH] {
                assert(c[7].len() == 1 && c[7][0] == row@[a as int]);
            }
        }
        return Err(MountsParserError::InvalidValue(describe("Expected separator `-` in row: ", line)));
    }
    assert(c[7] =~= seq![DASH]);
    let fstype = match parse_os_str(row, &cols, 8) {
        Ok(d) => d,
        Err(e) => return Err(e),
    };
    let mount_source = match parse_os_str(row, &cols, 9) {
        Ok(d) => d,
        Err(e) => return Err(e),
    };
    let super_options = match parse_os_str(row, &cols, 10) {
        Ok(d) => d,
        Err(e) => return Err(e),
    };
    Ok(MountInfo {
        mount_id,
        parent_id,
        major,
        minor,
        root,
        mount_point,
        mount_options,
        optional_fields,
        fstype,
        mount_source,
        super_options,
    })
}

/// The length of the first line of `s`: the bytes before its first `\n`.
pub open spec fn line_len(s: Seq<u8>) -> nat
    decreases s.len(),
{
    if s.len() == 0 || s[0] == NL {
        0
    } else {
        1 + line_len(s.skip(1))
    }
}

/// The first line of `s`, without its `\n`.
pub open spec fn first_line(s: Seq<u8>) -> Seq<u8> {
    s.take(line_len(s) as int)
}

/// What follows the first line of `s` and its `\n`.
pub open spec fn after_line(s: Seq<u8>) -> Seq<u8> {
    if line_len(s) < s.len() {
        s.skip(line_len(s) as int + 1)
    } else {
        Seq::empty()
    }
}

pub proof fn lemma_line_len_bound(s: Seq<u8>)
    ensures
        line_len(s) <= s.len(),
        line_len(s) < s.len() ==> s[line_len(s) as int] == NL,
        forall|j: int| 0 <= j < line_len(s) ==> s[j] != NL,
    decreases s.len(),
{
    if s.len() > 0 && s[0] != NL {
        lemma_line_len_bound(s.skip(1));
        assert forall|j: int| 0 <= j < line_len(s) implies s[j] != NL by {
            if j > 0 {
                assert(s[j] == s.skip(1)[j - 1]);
            }
        }
    }
}

/// What a table parses to: one result for each line, in order. A final
/// `\n` opens no further line.
pub open spec fn rows(s: Seq<u8>) -> Seq<Result<MountView, ErrorKind>>
    decreases s.len(),
    via rows_decreases
{
    if s.len() == 0 {
        Seq::empty()
    } else {
        seq![parse_row_spec(first_line(s))] + rows(after_line(s))
    }
}

#[via_fn]
proof fn rows_decreases(s: Seq<u8>) {
    if s.len() > 0 {
        lemma_line_len_bound(s);
        assert(after_line(s).len() < s.len());
    }
}

proof fn lemma_line_len_of_line(line: Seq<u8>, tail: Seq<u8>)
    requires
        forall|i: int| 0 <= i < line.len() ==> line[i] != NL,
        tail.len() > 0,
        tail[0] == NL,
    ensures
        line_len(line + tail) == line.len(),
    decreases line.len(),
{
    if line.len() > 0 {
        assert((line + tail).skip(1) =~= line.skip(1) + tail);
        lemma_line_len_of_line(line.skip(1), tail);
    } else {
        assert(line + tail =~= tail);
    }
}

/// Each line is parsed on its own: whatever a line gives, an error among
/// others, the lines after it give what they would give alone.
pub proof fn lemma_rows_line_by_line(line: Seq<u8>, rest: Seq<u8>)
    requires
        forall|i: int| 0 <= i < line.len() ==> line[i] != NL,
    ensures
        rows(line + seq![NL] + rest) == seq![parse_row_spec(line)] + rows(rest),
{
    let s = line + seq![NL] + rest;
    assert(s == line + (seq![NL] + rest));
    lemma_line_len_of_line(line, seq![NL] + rest);
    assert(first_line(s) =~= line);
    assert(after_line(s) =~= rest);
}

/// A line ended by `\r\n` gives what the same line ended by `\n` gives.
pub proof fn lemma_crlf_same_as_lf(content: Seq<u8>, rest: Seq<u8>)
    requires
        forall|i: int| 0 <= i < content.len() ==> content[i] != NL,
        !(content.len() > 0 && content.last() == CR),
    ensures
        rows(content + seq![CR, NL] + rest) == rows(content + seq![NL] + rest),
{
    let with_cr = content.push(CR);
    assert(content + seq![CR, NL] + rest =~= with_cr + seq![NL] + rest);
    lemma_rows_line_by_line(with_cr, rest);
    lemma_rows_line_by_line(content, rest);
    assert(with_cr.drop_last() =~= content);
    assert(strip_cr(with_cr) == strip_cr(content));
}

/// Column `i` holds what its place in the row asks for.
pub open spec fn column_well_formed(cols: Seq<Seq<u8>>, i: int) -> bool {
    if i == 0 || i == 1 {
        decimal(cols[i]) is Some
    } else if i == 2 {
        let d = split_on(cols[2], COLON);
        d.len() >= 2 && decimal(d[0]) is Some && decimal(d[1]) is Some
    } else if i == 7 {
        cols[7] == seq![DASH]
    } else {
        unescape(cols[i]) is Some
    }
}

/// The columns of a line.
pub open spec fn columns(line: Seq<u8>) -> Seq<Seq<u8>> {
    split_on(strip_cr(line), SPACE)
}

/// A row whose columns are all well formed but too few is an incomplete
/// row.
pub proof fn lemma_short_row_incomplete(line: Seq<u8>)
    requires
        columns(line).len() < 11,
        forall|i: int| 0 <= i < columns(line).len() ==> column_well_formed(columns(line), i),
    ensures
        parse_row_spec(line) == Err::<MountView, ErrorKind>(ErrorKind::IncompleteRow),
{
    let cols = columns(line);
    assert(column_well_formed(cols, 0) || cols.len() <= 0);
    assert(column_well_formed(cols, 1) || cols.len() <= 1);
    assert(column_well_formed(cols, 2) || cols.len() <= 2);
    assert(column_well_formed(cols, 3) || cols.len() <= 3);
    assert(column_well_formed(cols, 4) || cols.len() <= 4);
    assert(column_well_formed(cols, 5) || cols.len() <= 5);
    assert(column_well_formed(cols, 6) || cols.len() <= 6);
    assert(column_well_formed(cols, 7) || cols.len() <= 7);
    assert(column_well_formed(cols, 8) || cols.len() <= 8);
    assert(column_well_formed(cols, 9) || cols.len() <= 9);
}

/// A row whose first columns are well formed and whose integer column `i`
/// (the mount id or the parent id) is not a decimal integer is an invalid
/// value.
pub proof fn lemma_bad_integer_invalid(line: Seq<u8>, i: int)
    requires
        i == 0 || i == 1,
        i < columns(line).len(),
        decimal(columns(line)[i]) is None,
        forall|j: int| 0 <= j < i ==> column_well_formed(columns(line), j),
    ensures
        parse_row_spec(line) == Err::<MountView, ErrorKind>(ErrorKind::InvalidValue),
{
    if i == 1 {
        assert(column_well_formed(columns(line), 0));
    }
}

/// A row whose first columns are well formed and whose text column `i`
/// holds a malformed or truncated escape is an invalid value.
pub proof fn lemma_bad_escape_invalid(line: Seq<u8>, i: int)
    requires
        3 <= i <= 10,
        i != 7,
        i < columns(line).len(),
        unescape(columns(line)[i]) is None,
        forall|j: int| 0 <= j < i ==> column_well_formed(columns(line), j),
    ensures
        parse_row_spec(line) == Err::<MountView, ErrorKind>(ErrorKind::InvalidValue),
{
    let cols = columns(line);
    assert(column_well_formed(cols, 0));
    assert(column_well_formed(cols, 1));
    assert(column_well_formed(cols, 2));
    assert(column_well_formed(cols, 3) || i <= 3);
    assert(column_well_formed(cols, 4) || i <= 4);
    assert(column_well_formed(cols, 5) || i <= 5);
    assert(column_well_formed(cols, 6) || i <= 6);
    assert(column_well_formed(cols, 7) || i <= 7);
    assert(column_well_formed(cols, 8) || i <= 8);
    assert(column_well_formed(cols, 9) || i <= 9);
}

/// A mount table held in memory, read one line at a time.
pub struct MountsParser {
    content: Vec<u8>,
    pos: usize,
}

impl View for MountsParser {
    type V = Seq<u8>;

    /// The part of the table not read yet.
    closed spec fn view(&self) -> Seq<u8> {
        if self.pos <= self.content@.len() {
            self.content@.skip(self.pos as int)
        } else {
            Seq::empty()
        }
    }
}

impl MountsParser {
    /// A parser positioned at the start of `content`.
    pub fn new(content: Vec<u8>) -> (r: MountsParser)
        ensures
            r@ == content@,
    {
        let r = MountsParser { content, pos: 0 };
        assert(r.content@.skip(0) =~= r.content@);
        r
    }

    /// Parses the next line; `None` once the table is exhausted. A line that
    /// fails gives its error and the following lines are still read.
    pub fn next(&mut self) -> (r: Option<Result<MountInfo, MountsParserError>>)
        ensures
            old(self)@.len() == 0 ==> r is None && final(self)@ == old(self)@,
            old(self)@.len() > 0 ==> r is Some && result_matches(
                r->Some_0,
                parse_row_spec(first_line(old(self)@)),
            ) && final(self)@ == after_line(old(self)@),
    {
        if self.pos >= self.content.len() {
            proof {
                if self.pos == self.content@.len() {
                    assert(self.content@.skip(self.pos as int) =~= Seq::<u8>::empty());
                }
            }
            return None;
        }
        let ghost rest = self@;
        let start = self.pos;
        let mut end = start;
        while end < self.content.len() && self.content[end] != NL
            invariant
                start <= end <= self.content@.len(),
                start < self.content@.len(),
                rest == self.content@.skip(start as int),
                line_len(rest) == (end - start) + line_len(self.content@.skip(end as int)),
            decreases self.content@.len() - end,
        {
            proof {
                assert(self.content@.skip(end as int).skip(1) =~= self.content@.skip(end + 1));
            }
            end += 1;
        }
        proof {
            if end < self.content@.len() {
                assert(self.content@.skip(end as int)[0] == NL);
            }
            assert(line_len(rest) == end - start);
        }
        let line = vstd::slice::slice_subrange(self.content.as_slice(), start, end);
        assert(line@ =~= first_line(rest));
        let r = parse_row(line);
        if end < self.content.len() {
            self.pos = end + 1;
            assert(self@ =~= after_line(rest));
        } else {
            self.pos = end;
            assert(self@ =~= after_line(rest));
        }
        Some(r)
    }
}

impl MountInfo {
    /// The flag mask of this mount's options.
    pub fn get_flags(&self) -> (r: u64)
        ensures
            r == options_flags(self.mount_options@),
    {
        flags_from_options(self.mount_options.as_slice())
    }
}

} // verus!
