//! Reading `(tag, location)` records from the text of a ctags-style file.
//!
//! A record is one line of tab-separated fields:
//!
//! ```text
//! {tagname} TAB {tagfile} TAB {tagaddress};" TAB {extrafield} ...
//! ```
//!
//! The first line of a file is passed over and so are the lines that begin
//! with `!_TAG_`, which describe the file itself.
use vstd::prelude::*;
use vstd::string::StringExecFns;
use vstd::string::StringSliceAdditionalSpecFns;
use vstd::utf8::{decode_utf8, valid_utf8};
use std::str::Utf8Error;
use crate::location::{Location, LocationView};
use crate::text::{chars_of, starts_with, texts};

verus! {

/// An identifier attached to one or more locations.
pub type Tag = String;

/// A tag together with a location that carries it: the unit an index is
/// built from.
pub type TaggedLocation = (Tag, Location);

/// The error of `core::str::from_utf8`; nothing is read from it.
#[verifier::external_type_specification]
#[verifier::external_body]
pub struct ExUtf8Error(Utf8Error);

/// `core::str::from_utf8` accepts exactly the byte sequences that are
/// well-formed UTF-8, and the string it returns has those bytes as its
/// encoding.
pub assume_specification<'a>[ core::str::from_utf8 ](v: &'a [u8]) -> (r: Result<
    &'a str,
    Utf8Error,
>)
    ensures
        r is Ok <==> valid_utf8(v@),
        r matches Ok(s) ==> s.spec_bytes() == v@,
;

/// Whether `line` describes the file rather than a tag: it begins with
/// `!_TAG_`.
pub open spec fn header_line(line: Seq<char>) -> bool {
    "!_TAG_"@.is_prefix_of(line)
}

/// The position of the first tab at or after `i`, or the length of `s` if
/// there is none.
pub open spec fn field_end(s: Seq<char>, i: int) -> int
    decreases s.len() - i,
{
    if 0 <= i < s.len() && s[i] != '\t' {
        field_end(s, i + 1)
    } else {
        i
    }
}

/// The tab-separated fields of `s` from position `i` on.
pub open spec fn fields_from(s: Seq<char>, i: int) -> Seq<Seq<char>>
    decreases s.len() - i,
    via fields_from_decreases
{
    let end = field_end(s, i);
    if 0 <= end < s.len() {
        seq![s.subrange(i, end)] + fields_from(s, end + 1)
    } else {
        seq![s.subrange(i, end)]
    }
}

#[via_fn]
proof fn fields_from_decreases(s: Seq<char>, i: int) {
    lemma_field_end_bounds(s, i);
}

/// A field ends at or behind its start and within the line.
proof fn lemma_field_end_bounds(s: Seq<char>, i: int)
    ensures
        i <= field_end(s, i),
        i <= s.len() ==> field_end(s, i) <= s.len(),
    decreases s.len() - i,
{
    if 0 <= i < s.len() && s[i] != '\t' {
        lemma_field_end_bounds(s, i + 1);
    }
}

/// The tab-separated fields of a line. There is always at least one; an
/// empty line has one empty field.
pub open spec fn fields(line: Seq<char>) -> Seq<Seq<char>> {
    fields_from(line, 0)
}

/// `parts` with a tab between each two of them.
pub open spec fn joined(parts: Seq<Seq<char>>) -> Seq<char>
    decreases parts.len(),
{
    if parts.len() == 0 {
        Seq::empty()
    } else if parts.len() == 1 {
        parts[0]
    } else {
        parts[0] + seq!['\t'] + joined(parts.drop_first())
    }
}

/// The fields of a line are what its tabs separate: no field holds a tab,
/// and the fields with tabs between them are the line.
pub proof fn fields_are_what_tabs_separate(line: Seq<char>)
    ensures
        joined(fields(line)) == line,
        forall|k: int| 0 <= k < fields(line).len() ==> !(#[trigger] fields(line)[k]).contains('\t'),
{
    lemma_fields_from(line, 0);
    assert(line.skip(0) =~= line);
}

/// The fields from a position on hold no tab, and with tabs between them
/// they are the line from that position on.
proof fn lemma_fields_from(s: Seq<char>, i: int)
    requires
        0 <= i <= s.len(),
    ensures
        fields_from(s, i).len() >= 1,
        joined(fields_from(s, i)) == s.skip(i),
        forall|k: int|
            0 <= k < fields_from(s, i).len() ==> !(#[trigger] fields_from(s, i)[k]).contains('\t'),
    decreases s.len() - i,
{
    let end = field_end(s, i);
    let first = s.subrange(i, end);
    lemma_field_end_bounds(s, i);
    lemma_field_holds_no_tab(s, i);
    if end < s.len() {
        let rest = fields_from(s, end + 1);
        lemma_fields_from(s, end + 1);
        let all = fields_from(s, i);
        assert(all == seq![first] + rest);
        assert(all.drop_first() =~= rest);
        assert(joined(all) == first + seq!['\t'] + s.skip(end + 1));
        assert(joined(all) =~= s.skip(i));
        assert forall|k: int| 0 <= k < all.len() implies !(#[trigger] all[k]).contains('\t') by {
            if k > 0 {
                assert(all[k] == rest[k - 1]);
            }
        }
    } else {
        assert(first =~= s.skip(i));
    }
}

/// A field holds no tab, and what ends it before the end of the line is a
/// tab.
proof fn lemma_field_holds_no_tab(s: Seq<char>, i: int)
    requires
        0 <= i <= s.len(),
    ensures
        !s.subrange(i, field_end(s, i)).contains('\t'),
        field_end(s, i) < s.len() ==> s[field_end(s, i)] == '\t',
    decreases s.len() - i,
{
    lemma_field_end_bounds(s, i);
    if i < s.len() && s[i] != '\t' {
        lemma_field_holds_no_tab(s, i + 1);
        let end = field_end(s, i);
        let field = s.subrange(i, end);
        if field.contains('\t') {
            let k = choose|k: int| 0 <= k < field.len() && field[k] == '\t';
            assert(k > 0);
            assert(s.subrange(i + 1, end)[k - 1] == '\t');
        }
    }
}

/// `s` from position `i` on, with every `;"` taken out, left to right.
pub open spec fn unmarked_from(s: Seq<char>, i: int) -> Seq<char>
    decreases s.len() - i,
{
    if !(0 <= i < s.len()) {
        Seq::empty()
    } else if i + 1 < s.len() && s[i] == ';' && s[i + 1] == '"' {
        unmarked_from(s, i + 2)
    } else {
        seq![s[i]] + unmarked_from(s, i + 1)
    }
}

/// An address without the `;"` that marks the end of the standard fields.
pub open spec fn unmarked(address: Seq<char>) -> Seq<char> {
    unmarked_from(address, 0)
}

/// The record a line holds, if it has the four fields of one: tag, file,
/// address and extra data. Further fields are ignored.
pub open spec fn record(line: Seq<char>) -> Option<(Seq<char>, LocationView)> {
    let parts = fields(line);
    if parts.len() >= 4 {
        Some(
            (
                parts[0],
                LocationView { file: parts[1], address: unmarked(parts[2]), extra: parts[3] },
            ),
        )
    } else {
        None
    }
}

/// The mathematical value of what [`read_line`] returns.
pub open spec fn record_of(r: Option<TaggedLocation>) -> Option<(Seq<char>, LocationView)> {
    match r {
        Some((tag, location)) => Some((tag@, location@)),
        None => None,
    }
}

/// Why the text of a tag file could not be read.
#[derive(Debug, PartialEq, Eq)]
pub enum LoadError {
    /// A line is not valid UTF-8.
    InvalidData,
    /// A line holds no record; the line is kept.
    BadLine(String),
}

/// The mathematical value of a [`LoadError`].
pub enum LoadErrorView {
    InvalidData,
    BadLine(Seq<char>),
}

impl View for LoadError {
    type V = LoadErrorView;

    open spec fn view(&self) -> LoadErrorView {
        match self {
            LoadError::InvalidData => LoadErrorView::InvalidData,
            LoadError::BadLine(line) => LoadErrorView::BadLine(line@),
        }
    }
}

/// The message of an error.
pub open spec fn error_text(e: LoadErrorView) -> Seq<char> {
    match e {
        LoadErrorView::InvalidData => "stream did not contain valid UTF-8"@,
        LoadErrorView::BadLine(line) => "Failed to parse line: '"@ + line + "'"@,
    }
}

impl LoadError {
    /// The message of this error, for a person to read.
    pub fn message(&self) -> (text: String)
        ensures
            text@ == error_text(self@),
    {
        match self {
            LoadError::InvalidData => "stream did not contain valid UTF-8".to_owned(),
            LoadError::BadLine(line) => {
                let mut text = "Failed to parse line: '".to_owned();
                text.append(line.as_str());
                text.append("'");
                text
            },
        }
    }
}

/// The position of the first line feed at or after `i`, or the length of
/// `b` if there is none.
pub open spec fn line_end(b: Seq<u8>, i: int) -> int
    decreases b.len() - i,
{
    if 0 <= i < b.len() && b[i] != 0x0A {
        line_end(b, i + 1)
    } else {
        i
    }
}

/// The bytes of the line that starts at `i`, without the line feed that
/// ends it and without a carriage return just before that line feed.
pub open spec fn line_at(b: Seq<u8>, i: int) -> Seq<u8> {
    let end = line_end(b, i);
    if i < end < b.len() && b[end - 1] == 0x0D {
        b.subrange(i, end - 1)
    } else {
        b.subrange(i, end)
    }
}

/// Where the line after the one that starts at `i` starts.
pub open spec fn line_after(b: Seq<u8>, i: int) -> int {
    let end = line_end(b, i);
    if end < b.len() {
        end + 1
    } else {
        end
    }
}

/// The outcome of reading records: the records in the order of their
/// lines, or the error of the first line that fails.
pub type Records = Result<Seq<(Seq<char>, LocationView)>, LoadErrorView>;

/// `first` followed by what `rest` holds, or the error of `rest`.
pub open spec fn followed_by(first: Seq<(Seq<char>, LocationView)>, rest: Records) -> Records {
    match rest {
        Ok(more) => Ok(first + more),
        Err(e) => Err(e),
    }
}

/// The records of the lines of `b` from the line that starts at `i` on.
/// A line must be valid UTF-8. A header line is passed over; any other
/// line must hold a record.
pub open spec fn records_from(b: Seq<u8>, i: int) -> Records
    decreases b.len() - i,
    via records_from_decreases
{
    if !(0 <= i < b.len()) {
        Ok(Seq::empty())
    } else if !valid_utf8(line_at(b, i)) {
        Err(LoadErrorView::InvalidData)
    } else {
        let line = decode_utf8(line_at(b, i));
        if header_line(line) {
            records_from(b, line_after(b, i))
        } else {
            match record(line) {
                Some(r) => followed_by(seq![r], records_from(b, line_after(b, i))),
                None => Err(LoadErrorView::BadLine(line)),
            }
        }
    }
}

#[via_fn]
proof fn records_from_decreases(b: Seq<u8>, i: int) {
    if 0 <= i < b.len() {
        lemma_line_end_bounds(b, i);
    }
}

/// The records of a tag file with the bytes `b`. The first line is passed
/// over, whatever it holds.
pub open spec fn records(b: Seq<u8>) -> Records {
    records_from(b, line_after(b, 0))
}

/// The mathematical value of the pairs that [`from_buf`] returns.
pub open spec fn pair_values(pairs: Seq<TaggedLocation>) -> Seq<(Seq<char>, LocationView)> {
    pairs.map_values(|pair: TaggedLocation| (pair.0@, pair.1@))
}

/// The mathematical value of what [`from_buf`] returns.
pub open spec fn records_of(r: Result<Vec<TaggedLocation>, LoadError>) -> Records {
    match r {
        Ok(pairs) => Ok(pair_values(pairs@)),
        Err(e) => Err(e@),
    }
}

/// A line ends at or behind its start, within the bytes, and at a line
/// feed if one is left.
proof fn lemma_line_end_bounds(b: Seq<u8>, i: int)
    requires
        0 <= i <= b.len(),
    ensures
        i <= line_end(b, i) <= b.len(),
        line_end(b, i) < b.len() ==> b[line_end(b, i)] == 0x0A,
    decreases b.len() - i,
{
    if i < b.len() && b[i] != 0x0A {
        lemma_line_end_bounds(b, i + 1);
    }
}

/// Whether `line` begins with `!_TAG_`.
pub fn is_header(line: &str) -> (r: bool)
    ensures
        r == header_line(line@),
{
    starts_with(line, "!_TAG_")
}

/// The tab-separated fields of `line`.
fn split_fields(line: &str) -> (parts: Vec<String>)
    ensures
        texts(parts@) == fields(line@),
{
    let chars = chars_of(line);
    let mut parts: Vec<String> = Vec::new();
    let mut i: usize = 0;
    assert(texts(parts@) + fields_from(chars@, 0) =~= fields(line@));
    loop
        invariant
            chars@ == line@,
            0 <= i <= chars@.len(),
            texts(parts@) + fields_from(chars@, i as int) == fields(line@),
        decreases chars@.len() - i,
    {
        let ghost start = i as int;
        let ghost done = parts@;
        let mut field = String::new();
        while i < chars.len() && chars[i] != '\t'
            invariant
                0 <= start <= i <= chars@.len(),
                field_end(chars@, i as int) == field_end(chars@, start),
                field@ == chars@.subrange(start, i as int),
            decreases chars@.len() - i,
        {
            field.push(chars[i]);
            i = i + 1;
            assert(field@ =~= chars@.subrange(start, i as int));
        }
        parts.push(field);
        assert(texts(parts@) =~= texts(done).push(chars@.subrange(start, i as int)));
        if i >= chars.len() {
            assert(texts(parts@) =~= fields(line@));
            return parts;
        }
        i = i + 1;
        assert(texts(parts@) + fields_from(chars@, i as int) =~= texts(done) + fields_from(
            chars@,
            start,
        ));
    }
}

/// `address` without the `;"` that marks the end of the standard fields.
fn strip_marker(address: &str) -> (bare: String)
    ensures
        bare@ == unmarked(address@),
{
    let chars = chars_of(address);
    let mut bare = String::new();
    let mut i: usize = 0;
    assert(bare@ + unmarked_from(chars@, 0) =~= unmarked(address@));
    while i < chars.len()
        invariant
            chars@ == address@,
            0 <= i <= chars@.len(),
            bare@ + unmarked_from(chars@, i as int) == unmarked(address@),
        decreases chars@.len() - i,
    {
        let ghost before = bare@;
        if chars[i] == ';' && i + 1 < chars.len() && chars[i + 1] == '"' {
            i = i + 2;
        } else {
            bare.push(chars[i]);
            i = i + 1;
            assert(bare@ + unmarked_from(chars@, i as int) =~= before + unmarked_from(
                chars@,
                i - 1,
            ));
        }
    }
    assert(bare@ =~= bare@ + unmarked_from(chars@, i as int));
    bare
}

/// Reads one record: the first four tab-separated fields of `line` are the
/// tag, the file, the address and the extra data. The address loses its
/// `;"`. A line with fewer than four fields holds no record.
pub fn read_line(line: &str) -> (r: Option<TaggedLocation>)
    ensures
        record_of(r) == record(line@),
{
    let parts = split_fields(line);
    if parts.len() >= 4 {
        let tag = parts[0].clone();
        let file = parts[1].clone();
        let address = strip_marker(parts[2].as_str());
        let extra = parts[3].clone();
        Some((tag, Location { file, address, extra }))
    } else {
        None
    }
}

/// Moves `i` to the line feed that ends the line it is in, or to the end of
/// `buf`.
fn find_line_end(buf: &[u8], i: usize) -> (end: usize)
    requires
        i <= buf@.len(),
    ensures
        end == line_end(buf@, i as int),
        i <= end <= buf@.len(),
{
    let mut end = i;
    while end < buf.len() && buf[end] != 0x0A
        invariant
            i <= end <= buf@.len(),
            line_end(buf@, end as int) == line_end(buf@, i as int),
        decreases buf@.len() - end,
    {
        end = end + 1;
    }
    end
}

/// Reads the records of a tag file from its bytes. The first line is
/// passed over, and so is every line that begins with `!_TAG_`. Every other
/// line must hold a record: the first line that is not valid UTF-8, or that
/// has fewer than four fields, fails the whole load.
pub fn from_buf(buf: &[u8]) -> (r: Result<Vec<TaggedLocation>, LoadError>)
    ensures
        records_of(r) == records(buf@),
{
    let mut tagged_locations: Vec<TaggedLocation> = Vec::new();
    let first_end = find_line_end(buf, 0);
    let mut i: usize = if first_end < buf.len() {
        first_end + 1
    } else {
        first_end
    };
    assert(followed_by(pair_values(tagged_locations@), records_from(buf@, i as int)) =~= records(
        buf@,
    )) by {
        let rest = records_from(buf@, i as int);
        assert(rest matches Ok(more) ==> pair_values(tagged_locations@) + more =~= more);
    }
    while i < buf.len()
        invariant
            0 <= i <= buf@.len(),
            followed_by(pair_values(tagged_locations@), records_from(buf@, i as int)) == records(
                buf@,
            ),
        decreases buf@.len() - i,
    {
        let end = find_line_end(buf, i);
        let next: usize = if end < buf.len() {
            end + 1
        } else {
            end
        };
        let stop: usize = if i < end && end < buf.len() && buf[end - 1] == 0x0D {
            end - 1
        } else {
            end
        };
        let bytes = &buf[i..stop];
        assert(bytes@ == line_at(buf@, i as int));
        let line = match core::str::from_utf8(bytes) {
            Ok(line) => line,
            Err(_) => {
                return Err(LoadError::InvalidData);
            },
        };
        assert(line@ == decode_utf8(line_at(buf@, i as int))) by {
            vstd::utf8::encode_utf8_decode_utf8(line@);
        }
        if !is_header(line) {
            match read_line(line) {
                Some(pair) => {
                    let ghost before = tagged_locations@;
                    let ghost rest = records_from(buf@, next as int);
                    tagged_locations.push(pair);
                    proof {
                        assert(pair_values(tagged_locations@) =~= pair_values(before) + seq![
                            (pair.0@, pair.1@),
                        ]);
                        assert(rest matches Ok(more) ==> pair_values(tagged_locations@) + more
                            =~= pair_values(before) + (seq![(pair.0@, pair.1@)] + more));
                    }
                },
                None => {
                    return Err(LoadError::BadLine(line.to_owned()));
                },
            }
        }
        i = next;
    }
    assert(pair_values(tagged_locations@) + Seq::<(Seq<char>, LocationView)>::empty()
        =~= pair_values(tagged_locations@));
    Ok(tagged_locations)
}

} // verus!
