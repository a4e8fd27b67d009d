//! The metadata record of an archive: `key=value` lines.
use vstd::prelude::*;
use vstd::utf8::*;
use crate::bytes::{
    append_bytes, copy_range, decimal_bytes, decimal_of, find_byte, lemma_decimal_round_trip, lemma_run_len_prefix,
    lemma_run_len_to_end, parse_decimal, run_len, write_decimal,
};
use crate::error::ArchiveError;
use crate::order::compare_bytes;
use crate::text::{from_utf8, utf8};

verus! {

/// The format version, which fixes the width of the index integers.
#[derive(Clone, Copy, Debug, PartialEq, Eq, Structural)]
pub enum Version {
    /// `2.4.2`: four-byte offsets and lengths.
    V242,
    /// `3.0.0`: eight-byte offsets and lengths.
    V300,
    /// Any other value, or none.
    Unknown,
}

/// The fields of the metadata record, in the order in which they are written.
#[derive(Clone, Copy, Debug, PartialEq, Eq, Structural)]
pub enum Field {
    Version,
    BookName,
    WordCount,
    SynWordCount,
    IdxFileSize,
    IdxOffsetBits,
    Author,
    Email,
    Website,
    Description,
    Date,
    SameTypeSequence,
    DictType,
}

/// The key under which a field is stored.
pub open spec fn field_key(f: Field) -> Seq<u8> {
    match f {
        Field::Version => seq![118u8, 101, 114, 115, 105, 111, 110],
        Field::BookName => seq![98u8, 111, 111, 107, 110, 97, 109, 101],
        Field::WordCount => seq![119u8, 111, 114, 100, 99, 111, 117, 110, 116],
        Field::SynWordCount => seq![115u8, 121, 110, 119, 111, 114, 100, 99, 111, 117, 110, 116],
        Field::IdxFileSize => seq![105u8, 100, 120, 102, 105, 108, 101, 115, 105, 122, 101],
        Field::IdxOffsetBits => seq![105u8, 100, 120, 111, 102, 102, 115, 101, 116, 98, 105, 116, 115],
        Field::Author => seq![97u8, 117, 116, 104, 111, 114],
        Field::Email => seq![101u8, 109, 97, 105, 108],
        Field::Website => seq![119u8, 101, 98, 115, 105, 116, 101],
        Field::Description => seq![100u8, 101, 115, 99, 114, 105, 112, 116, 105, 111, 110],
        Field::Date => seq![100u8, 97, 116, 101],
        Field::SameTypeSequence => seq![115u8, 97, 109, 101, 116, 121, 112, 101, 115, 101, 113, 117, 101, 110, 99, 101],
        Field::DictType => seq![100u8, 105, 99, 116, 116, 121, 112, 101],
    }
}

/// The key of a field, as bytes.
pub fn field_key_bytes(f: Field) -> (r: Vec<u8>)
    ensures
        r@ == field_key(f),
{
    match f {
        Field::Version => vec![118u8, 101, 114, 115, 105, 111, 110],
        Field::BookName => vec![98u8, 111, 111, 107, 110, 97, 109, 101],
        Field::WordCount => vec![119u8, 111, 114, 100, 99, 111, 117, 110, 116],
        Field::SynWordCount => vec![115u8, 121, 110, 119, 111, 114, 100, 99, 111, 117, 110, 116],
        Field::IdxFileSize => vec![105u8, 100, 120, 102, 105, 108, 101, 115, 105, 122, 101],
        Field::IdxOffsetBits => vec![105u8, 100, 120, 111, 102, 102, 115, 101, 116, 98, 105, 116, 115],
        Field::Author => vec![97u8, 117, 116, 104, 111, 114],
        Field::Email => vec![101u8, 109, 97, 105, 108],
        Field::Website => vec![119u8, 101, 98, 115, 105, 116, 101],
        Field::Description => vec![100u8, 101, 115, 99, 114, 105, 112, 116, 105, 111, 110],
        Field::Date => vec![100u8, 97, 116, 101],
        Field::SameTypeSequence => vec![115u8, 97, 109, 101, 116, 121, 112, 101, 115, 101, 113, 117, 101, 110, 99, 101],
        Field::DictType => vec![100u8, 105, 99, 116, 116, 121, 112, 101],
    }
}

/// All fields, in the order in which they are written.
pub open spec fn field_at(i: int) -> Field {
    if i == 0 {
        Field::Version
    } else if i == 1 {
        Field::BookName
    } else if i == 2 {
        Field::WordCount
    } else if i == 3 {
        Field::SynWordCount
    } else if i == 4 {
        Field::IdxFileSize
    } else if i == 5 {
        Field::IdxOffsetBits
    } else if i == 6 {
        Field::Author
    } else if i == 7 {
        Field::Email
    } else if i == 8 {
        Field::Website
    } else if i == 9 {
        Field::Description
    } else if i == 10 {
        Field::Date
    } else if i == 11 {
        Field::SameTypeSequence
    } else {
        Field::DictType
    }
}

pub fn field_at_exec(i: usize) -> (r: Field)
    ensures
        r == field_at(i as int),
{
    if i == 0 {
        Field::Version
    } else if i == 1 {
        Field::BookName
    } else if i == 2 {
        Field::WordCount
    } else if i == 3 {
        Field::SynWordCount
    } else if i == 4 {
        Field::IdxFileSize
    } else if i == 5 {
        Field::IdxOffsetBits
    } else if i == 6 {
        Field::Author
    } else if i == 7 {
        Field::Email
    } else if i == 8 {
        Field::Website
    } else if i == 9 {
        Field::Description
    } else if i == 10 {
        Field::Date
    } else if i == 11 {
        Field::SameTypeSequence
    } else {
        Field::DictType
    }
}

/// The record as values: what a parse yields and what serialising writes.
pub ghost struct IfoView {
    pub version: Version,
    pub bookname: Seq<char>,
    pub author: Seq<char>,
    pub email: Seq<char>,
    pub website: Seq<char>,
    pub description: Seq<char>,
    pub date: Seq<char>,
    pub sametypesequence: Seq<char>,
    pub dicttype: Seq<char>,
    pub wordcount: nat,
    pub synwordcount: nat,
    pub idxfilesize: nat,
    pub idxoffsetbits: nat,
}

/// The metadata record of an archive.
#[derive(Debug)]
pub struct Ifo {
    pub version: Version,
    pub bookname: String,
    pub wordcount: usize,
    pub synwordcount: usize,
    pub idxfilesize: usize,
    pub idxoffsetbits: usize,
    pub author: String,
    pub email: String,
    pub website: String,
    pub description: String,
    pub date: String,
    pub sametypesequence: String,
    pub dicttype: String,
}

impl View for Ifo {
    type V = IfoView;

    open spec fn view(&self) -> IfoView {
        IfoView {
            version: self.version,
            bookname: self.bookname@,
            author: self.author@,
            email: self.email@,
            website: self.website@,
            description: self.description@,
            date: self.date@,
            sametypesequence: self.sametypesequence@,
            dicttype: self.dicttype@,
            wordcount: self.wordcount as nat,
            synwordcount: self.synwordcount as nat,
            idxfilesize: self.idxfilesize as nat,
            idxoffsetbits: self.idxoffsetbits as nat,
        }
    }
}

/// The record before any line is read.
pub open spec fn empty_view() -> IfoView {
    IfoView {
        version: Version::Unknown,
        bookname: seq![],
        author: seq![],
        email: seq![],
        website: seq![],
        description: seq![],
        date: seq![],
        sametypesequence: seq![],
        dicttype: seq![],
        wordcount: 0,
        synwordcount: 0,
        idxfilesize: 0,
        idxoffsetbits: 0,
    }
}

pub open spec fn is_numeric(f: Field) -> bool {
    f == Field::WordCount || f == Field::SynWordCount || f == Field::IdxFileSize || f == Field::IdxOffsetBits
}

/// The record with a text field replaced.
pub open spec fn with_text(m: IfoView, f: Field, v: Seq<char>) -> IfoView {
    match f {
        Field::BookName => IfoView { bookname: v, ..m },
        Field::Author => IfoView { author: v, ..m },
        Field::Email => IfoView { email: v, ..m },
        Field::Website => IfoView { website: v, ..m },
        Field::Description => IfoView { description: v, ..m },
        Field::Date => IfoView { date: v, ..m },
        Field::SameTypeSequence => IfoView { sametypesequence: v, ..m },
        Field::DictType => IfoView { dicttype: v, ..m },
        _ => m,
    }
}

/// The record with a numeric field replaced.
pub open spec fn with_number(m: IfoView, f: Field, n: nat) -> IfoView {
    match f {
        Field::WordCount => IfoView { wordcount: n, ..m },
        Field::SynWordCount => IfoView { synwordcount: n, ..m },
        Field::IdxFileSize => IfoView { idxfilesize: n, ..m },
        Field::IdxOffsetBits => IfoView { idxoffsetbits: n, ..m },
        _ => m,
    }
}

/// The text held by a text field.
pub open spec fn text_of(m: IfoView, f: Field) -> Seq<char> {
    match f {
        Field::BookName => m.bookname,
        Field::Author => m.author,
        Field::Email => m.email,
        Field::Website => m.website,
        Field::Description => m.description,
        Field::Date => m.date,
        Field::SameTypeSequence => m.sametypesequence,
        Field::DictType => m.dicttype,
        _ => seq![],
    }
}

/// The number held by a numeric field.
pub open spec fn number_of(m: IfoView, f: Field) -> nat {
    match f {
        Field::WordCount => m.wordcount,
        Field::SynWordCount => m.synwordcount,
        Field::IdxFileSize => m.idxfilesize,
        Field::IdxOffsetBits => m.idxoffsetbits,
        _ => 0,
    }
}

impl Version {
    /// The version's text as written in the metadata.
    pub fn to_string(&self) -> (r: &'static str)
        requires
            *self != Version::Unknown,
        ensures
            utf8(r@) == version_text(*self),
    {
        proof {
            reveal_strlit("2.4.2");
            reveal_strlit("3.0.0");
        }
        let r = match self {
            Version::V242 => "2.4.2",
            _ => "3.0.0",
        };
        proof {
            vstd::string::is_ascii_spec_bytes(r);
        }
        assert(utf8(r@) =~= version_text(*self));
        r
    }
}

impl Ifo {
    /// The format version.
    pub fn version(&self) -> (r: Version)
        ensures
            r == self@.version,
    {
        self.version
    }

    /// A record with no field set.
    pub fn empty() -> (r: Ifo)
        ensures
            r@ == empty_view(),
    {
        Ifo {
            version: Version::Unknown,
            bookname: String::new(),
            wordcount: 0,
            synwordcount: 0,
            idxfilesize: 0,
            idxoffsetbits: 0,
            author: String::new(),
            email: String::new(),
            website: String::new(),
            description: String::new(),
            date: String::new(),
            sametypesequence: String::new(),
            dicttype: String::new(),
        }
    }

    fn set_text(&mut self, f: Field, v: String)
        ensures
            final(self)@ == with_text(old(self)@, f, v@),
    {
        match f {
            Field::BookName => {
                self.bookname = v;
            },
            Field::Author => {
                self.author = v;
            },
            Field::Email => {
                self.email = v;
            },
            Field::Website => {
                self.website = v;
            },
            Field::Description => {
                self.description = v;
            },
            Field::Date => {
                self.date = v;
            },
            Field::SameTypeSequence => {
                self.sametypesequence = v;
            },
            Field::DictType => {
                self.dicttype = v;
            },
            _ => {},
        }
    }

    fn set_number(&mut self, f: Field, n: usize)
        ensures
            final(self)@ == with_number(old(self)@, f, n as nat),
    {
        match f {
            Field::WordCount => {
                self.wordcount = n;
            },
            Field::SynWordCount => {
                self.synwordcount = n;
            },
            Field::IdxFileSize => {
                self.idxfilesize = n;
            },
            Field::IdxOffsetBits => {
                self.idxoffsetbits = n;
            },
            _ => {},
        }
    }

    fn text_field(&self, f: Field) -> (r: &String)
        requires
            f != Field::Version,
            !is_numeric(f),
        ensures
            r@ == text_of(self@, f),
    {
        match f {
            Field::BookName => &self.bookname,
            Field::Author => &self.author,
            Field::Email => &self.email,
            Field::Website => &self.website,
            Field::Description => &self.description,
            Field::Date => &self.date,
            Field::SameTypeSequence => &self.sametypesequence,
            _ => &self.dicttype,
        }
    }

    fn number_field(&self, f: Field) -> (r: usize)
        requires
            is_numeric(f),
        ensures
            r as nat == number_of(self@, f),
    {
        match f {
            Field::WordCount => self.wordcount,
            Field::SynWordCount => self.synwordcount,
            Field::IdxFileSize => self.idxfilesize,
            _ => self.idxoffsetbits,
        }
    }
}

pub const FIELD_COUNT: usize = 13;

/// The field stored under `key`, searching the fields from the `i`-th on.
pub open spec fn field_from(key: Seq<u8>, i: int) -> Option<Field>
    decreases FIELD_COUNT - i,
{
    if i < 0 || i >= FIELD_COUNT {
        None
    } else if field_key(field_at(i)) == key {
        Some(field_at(i))
    } else {
        field_from(key, i + 1)
    }
}

/// `2.4.2`
pub open spec fn v242_text() -> Seq<u8> {
    seq![50u8, 46, 52, 46, 50]
}

/// `3.0.0`
pub open spec fn v300_text() -> Seq<u8> {
    seq![51u8, 46, 48, 46, 48]
}

pub open spec fn version_of(v: Seq<u8>) -> Version {
    if v == v242_text() {
        Version::V242
    } else if v == v300_text() {
        Version::V300
    } else {
        Version::Unknown
    }
}

/// A line without its trailing carriage return, if any.
pub open spec fn strip_cr(line: Seq<u8>) -> Seq<u8> {
    if line.len() > 0 && line.last() == 13 {
        line.drop_last()
    } else {
        line
    }
}

/// The effect of one line on the record; `None` when the line is malformed.
/// A line without `=` and a line with an unknown key leave the record as it is.
pub open spec fn apply_line(m: IfoView, line: Seq<u8>) -> Option<IfoView> {
    let e = run_len(line, 61, 0) as int;
    if e >= line.len() {
        Some(m)
    } else {
        let val = line.subrange(e + 1, line.len() as int);
        match field_from(line.subrange(0, e), 0) {
            None => Some(m),
            Some(f) => if f == Field::Version {
                Some(IfoView { version: version_of(val), ..m })
            } else if is_numeric(f) {
                match decimal_of(val) {
                    Some(n) => if n <= usize::MAX {
                        Some(with_number(m, f, n))
                    } else {
                        None
                    },
                    None => None,
                }
            } else if valid_utf8(val) {
                Some(with_text(m, f, decode_utf8(val)))
            } else {
                None
            },
        }
    }
}

/// The record read from the lines of `b` from position `p` on, starting from `m`.
pub open spec fn parse_from(b: Seq<u8>, p: int, m: IfoView) -> Option<IfoView>
    decreases b.len() - p,
{
    if p < 0 || p >= b.len() {
        Some(m)
    } else {
        let e = p + run_len(b, 10, p);
        match apply_line(m, strip_cr(b.subrange(p, e))) {
            None => None,
            Some(m2) => if e >= b.len() {
                Some(m2)
            } else {
                parse_from(b, e + 1, m2)
            },
        }
    }
}

/// The record that a metadata text describes.
pub open spec fn parse_metadata_spec(b: Seq<u8>) -> Option<IfoView> {
    parse_from(b, 0, empty_view())
}

fn bytes_eq(a: &[u8], b: &[u8]) -> (r: bool)
    ensures
        r == (a@ == b@),
{
    match compare_bytes(a, b) {
        core::cmp::Ordering::Equal => true,
        _ => false,
    }
}

fn field_of_key(key: &[u8]) -> (r: Option<Field>)
    ensures
        r == field_from(key@, 0),
{
    let mut i: usize = 0;
    while i < FIELD_COUNT
        invariant
            i <= FIELD_COUNT,
            field_from(key@, 0) == field_from(key@, i as int),
        decreases FIELD_COUNT - i,
    {
        let f = field_at_exec(i);
        let k = field_key_bytes(f);
        if bytes_eq(k.as_slice(), key) {
            return Some(f);
        }
        i = i + 1;
    }
    None
}

fn version_of_bytes(v: &[u8]) -> (r: Version)
    ensures
        r == version_of(v@),
{
    let a: Vec<u8> = vec![50u8, 46, 52, 46, 50];
    let b: Vec<u8> = vec![51u8, 46, 48, 46, 48];
    if bytes_eq(v, a.as_slice()) {
        Version::V242
    } else if bytes_eq(v, b.as_slice()) {
        Version::V300
    } else {
        Version::Unknown
    }
}

impl Ifo {
    /// Applies one line to the record; `false` when the line is malformed.
    fn apply(&mut self, line: &[u8]) -> (ok: bool)
        ensures
            ok == apply_line(old(self)@, line@) is Some,
            ok ==> final(self)@ == apply_line(old(self)@, line@)->0,
    {
        let e = find_byte(line, 61, 0);
        if e >= line.len() {
            return true;
        }
        let key = copy_range(line, 0, e);
        let val = copy_range(line, e + 1, line.len());
        match field_of_key(key.as_slice()) {
            None => true,
            Some(f) => {
                if f == Field::Version {
                    self.version = version_of_bytes(val.as_slice());
                    true
                } else if f == Field::WordCount || f == Field::SynWordCount || f == Field::IdxFileSize
                    || f == Field::IdxOffsetBits {
                    match parse_decimal(val.as_slice()) {
                        Some(n) => {
                            self.set_number(f, n);
                            true
                        },
                        None => false,
                    }
                } else {
                    match from_utf8(val) {
                        Some(s) => {
                            self.set_text(f, s);
                            true
                        },
                        None => false,
                    }
                }
            },
        }
    }

    /// Parses a metadata text: one `key=value` per line, the first `=` ending
    /// the key. Unknown keys and lines without `=` are ignored; a later line
    /// overrides an earlier one with the same key.
    pub fn parse(text: &[u8]) -> (r: Result<Ifo, ArchiveError>)
        ensures
            r is Ok <==> parse_metadata_spec(text@) is Some,
            r is Ok ==> r->Ok_0@ == parse_metadata_spec(text@)->0,
            r is Err ==> r->Err_0 is MetadataParse,
    {
        let mut ifo = Ifo::empty();
        let mut p: usize = 0;
        while p < text.len()
            invariant_except_break
                p <= text@.len(),
                parse_metadata_spec(text@) == parse_from(text@, p as int, ifo@),
            ensures
                parse_metadata_spec(text@) == Some(ifo@),
            decreases text@.len() - p,
        {
            let e = find_byte(text, 10, p);
            let end = if e > p && text[e - 1] == 13 {
                e - 1
            } else {
                e
            };
            let line = copy_range(text, p, end);
            proof {
                let l = text@.subrange(p as int, e as int);
                if e > p && text@[e - 1] == 13 {
                    assert(strip_cr(l) =~= line@);
                } else {
                    assert(strip_cr(l) =~= line@);
                }
            }
            if !ifo.apply(line.as_slice()) {
                return Err(ArchiveError::MetadataParse);
            }
            if e >= text.len() {
                break;
            }
            p = e + 1;
        }
        Ok(ifo)
    }
}

pub open spec fn version_text(v: Version) -> Seq<u8> {
    match v {
        Version::V242 => v242_text(),
        Version::V300 => v300_text(),
        Version::Unknown => seq![],
    }
}

/// The line that stores one field; an unknown version is not written.
pub open spec fn field_line(m: IfoView, f: Field) -> Seq<u8> {
    if f == Field::Version {
        if m.version == Version::Unknown {
            seq![]
        } else {
            field_key(f) + seq![61u8] + version_text(m.version) + seq![10u8]
        }
    } else if is_numeric(f) {
        field_key(f) + seq![61u8] + decimal_bytes(number_of(m, f)) + seq![10u8]
    } else {
        field_key(f) + seq![61u8] + utf8(text_of(m, f)) + seq![10u8]
    }
}

/// The lines of the first `i` fields.
pub open spec fn lines_upto(m: IfoView, i: int) -> Seq<u8>
    decreases i,
{
    if i <= 0 {
        seq![]
    } else {
        lines_upto(m, i - 1) + field_line(m, field_at(i - 1))
    }
}

/// `StarDict's dict ifo file` and a line break: the first line of every metadata file.
pub open spec fn header_line() -> Seq<u8> {
    seq![83u8, 116, 97, 114, 68, 105, 99, 116, 39, 115, 32, 100, 105, 99, 116, 32, 105, 102, 111, 32, 102, 105, 108, 101, 10]
}

/// The metadata text that stores a record.
pub open spec fn serialize_spec(m: IfoView) -> Seq<u8> {
    header_line() + lines_upto(m, FIELD_COUNT as int)
}

impl Ifo {
    fn write_line(&self, out: &mut Vec<u8>, f: Field)
        ensures
            final(out)@ == old(out)@ + field_line(self@, f),
    {
        if f == Field::Version {
            let v: Vec<u8> = match self.version {
                Version::V242 => vec![50u8, 46, 52, 46, 50],
                Version::V300 => vec![51u8, 46, 48, 46, 48],
                Version::Unknown => {
                    assert(out@ =~= old(out)@ + field_line(self@, f));
                    return;
                },
            };
            let k = field_key_bytes(f);
            append_bytes(out, k.as_slice());
            out.push(61u8);
            append_bytes(out, v.as_slice());
            out.push(10u8);
        } else if f == Field::WordCount || f == Field::SynWordCount || f == Field::IdxFileSize
            || f == Field::IdxOffsetBits {
            let k = field_key_bytes(f);
            append_bytes(out, k.as_slice());
            out.push(61u8);
            write_decimal(out, self.number_field(f));
            out.push(10u8);
        } else {
            let k = field_key_bytes(f);
            append_bytes(out, k.as_slice());
            out.push(61u8);
            append_bytes(out, self.text_field(f).as_str().as_bytes());
            out.push(10u8);
        }
        assert(final(out)@ =~= old(out)@ + field_line(self@, f));
    }

    /// The metadata text of this record: a header line, then one `key=value`
    /// line per field in a fixed order (no version line for an unknown version).
    pub fn to_bytes(&self) -> (r: Vec<u8>)
        ensures
            r@ == serialize_spec(self@),
    {
        let mut out: Vec<u8> = vec![83u8, 116, 97, 114, 68, 105, 99, 116, 39, 115, 32, 100, 105, 99, 116, 32, 105, 102, 111, 32, 102, 105, 108, 101, 10];
        let mut i: usize = 0;
        while i < FIELD_COUNT
            invariant
                i <= FIELD_COUNT,
                out@ == header_line() + lines_upto(self@, i as int),
            decreases FIELD_COUNT - i,
        {
            self.write_line(&mut out, field_at_exec(i));
            i = i + 1;
            assert(out@ =~= header_line() + lines_upto(self@, i as int));
        }
        out
    }
}

/// Facts about the key of a field: it is non-empty, holds neither `=` nor a
/// line break, and names that field alone.
proof fn lemma_key(i: int)
    requires
        0 <= i < FIELD_COUNT,
    ensures
        field_key(field_at(i)).len() > 0,
        forall|k: int| 0 <= k < field_key(field_at(i)).len() ==> #[trigger] field_key(field_at(i))[k] != 61 && field_key(field_at(i))[k] != 10 && field_key(field_at(i))[k] != 13,
        field_from(field_key(field_at(i)), 0) == Some(field_at(i)),
{
    if i == 0 {
        assert(field_from(field_key(field_at(0)), 0) == Some(field_at(0)));
    } else if i == 1 {
        assert(field_key(field_at(0)).len() != field_key(field_at(1)).len());
        assert(field_from(field_key(field_at(1)), 1) == Some(field_at(1)));
        assert(field_from(field_key(field_at(1)), 0) == Some(field_at(1)));
    } else if i == 2 {
        assert(field_key(field_at(0)).len() != field_key(field_at(2)).len());
        assert(field_key(field_at(1)).len() != field_key(field_at(2)).len());
        assert(field_from(field_key(field_at(2)), 2) == Some(field_at(2)));
        assert(field_from(field_key(field_at(2)), 1) == Some(field_at(2)));
        assert(field_from(field_key(field_at(2)), 0) == Some(field_at(2)));
    } else if i == 3 {
        assert(field_key(field_at(0)).len() != field_key(field_at(3)).len());
        assert(field_key(field_at(1)).len() != field_key(field_at(3)).len());
        assert(field_key(field_at(2)).len() != field_key(field_at(3)).len());
        assert(field_from(field_key(field_at(3)), 3) == Some(field_at(3)));
        assert(field_from(field_key(field_at(3)), 2) == Some(field_at(3)));
        assert(field_from(field_key(field_at(3)), 1) == Some(field_at(3)));
        assert(field_from(field_key(field_at(3)), 0) == Some(field_at(3)));
    } else if i == 4 {
        assert(field_key(field_at(0)).len() != field_key(field_at(4)).len());
        assert(field_key(field_at(1)).len() != field_key(field_at(4)).len());
        assert(field_key(field_at(2)).len() != field_key(field_at(4)).len());
        assert(field_key(field_at(3)).len() != field_key(field_at(4)).len());
        assert(field_from(field_key(field_at(4)), 4) == Some(field_at(4)));
        assert(field_from(field_key(field_at(4)), 3) == Some(field_at(4)));
        assert(field_from(field_key(field_at(4)), 2) == Some(field_at(4)));
        assert(field_from(field_key(field_at(4)), 1) == Some(field_at(4)));
        assert(field_from(field_key(field_at(4)), 0) == Some(field_at(4)));
    } else if i == 5 {
        assert(field_key(field_at(0)).len() != field_key(field_at(5)).len());
        assert(field_key(field_at(1)).len() != field_key(field_at(5)).len());
        assert(field_key(field_at(2)).len() != field_key(field_at(5)).len());
        assert(field_key(field_at(3)).len() != field_key(field_at(5)).len());
        assert(field_key(field_at(4)).len() != field_key(field_at(5)).len());
        assert(field_from(field_key(field_at(5)), 5) == Some(field_at(5)));
        assert(field_from(field_key(field_at(5)), 4) == Some(field_at(5)));
        assert(field_from(field_key(field_at(5)), 3) == Some(field_at(5)));
        assert(field_from(field_key(field_at(5)), 2) == Some(field_at(5)));
        assert(field_from(field_key(field_at(5)), 1) == Some(field_at(5)));
        assert(field_from(field_key(field_at(5)), 0) == Some(field_at(5)));
    } else if i == 6 {
        assert(field_key(field_at(0)).len() != field_key(field_at(6)).len());
        assert(field_key(field_at(1)).len() != field_key(field_at(6)).len());
        assert(field_key(field_at(2)).len() != field_key(field_at(6)).len());
        assert(field_key(field_at(3)).len() != field_key(field_at(6)).len());
        assert(field_key(field_at(4)).len() != field_key(field_at(6)).len());
        assert(field_key(field_at(5)).len() != field_key(field_at(6)).len());
        assert(field_from(field_key(field_at(6)), 6) == Some(field_at(6)));
        assert(field_from(field_key(field_at(6)), 5) == Some(field_at(6)));
        assert(field_from(field_key(field_at(6)), 4) == Some(field_at(6)));
        assert(field_from(field_key(field_at(6)), 3) == Some(field_at(6)));
        assert(field_from(field_key(field_at(6)), 2) == Some(field_at(6)));
        assert(field_from(field_key(field_at(6)), 1) == Some(field_at(6)));
        assert(field_from(field_key(field_at(6)), 0) == Some(field_at(6)));
    } else if i == 7 {
        assert(field_key(field_at(0)).len() != field_key(field_at(7)).len());
        assert(field_key(field_at(1)).len() != field_key(field_at(7)).len());
        assert(field_key(field_at(2)).len() != field_key(field_at(7)).len());
        assert(field_key(field_at(3)).len() != field_key(field_at(7)).len());
        assert(field_key(field_at(4)).len() != field_key(field_at(7)).len());
        assert(field_key(field_at(5)).len() != field_key(field_at(7)).len());
        assert(field_key(field_at(6)).len() != field_key(field_at(7)).len());
        assert(field_from(field_key(field_at(7)), 7) == Some(field_at(7)));
        assert(field_from(field_key(field_at(7)), 6) == Some(field_at(7)));
        assert(field_from(field_key(field_at(7)), 5) == Some(field_at(7)));
        assert(field_from(field_key(field_at(7)), 4) == Some(field_at(7)));
        assert(field_from(field_key(field_at(7)), 3) == Some(field_at(7)));
        assert(field_from(field_key(field_at(7)), 2) == Some(field_at(7)));
        assert(field_from(field_key(field_at(7)), 1) == Some(field_at(7)));
        assert(field_from(field_key(field_at(7)), 0) == Some(field_at(7)));
    } else if i == 8 {
        assert(field_key(field_at(0))[0] != field_key(field_at(8))[0]);
        assert(field_key(field_at(1)).len() != field_key(field_at(8)).len());
        assert(field_key(field_at(2)).len() != field_key(field_at(8)).len());
        assert(field_key(field_at(3)).len() != field_key(field_at(8)).len());
        assert(field_key(field_at(4)).len() != field_key(field_at(8)).len());
        assert(field_key(field_at(5)).len() != field_key(field_at(8)).len());
        assert(field_key(field_at(6)).len() != field_key(field_at(8)).len());
        assert(field_key(field_at(7)).len() != field_key(field_at(8)).len());
        assert(field_from(field_key(field_at(8)), 8) == Some(field_at(8)));
        assert(field_from(field_key(field_at(8)), 7) == Some(field_at(8)));
        assert(field_from(field_key(field_at(8)), 6) == Some(field_at(8)));
        assert(field_from(field_key(field_at(8)), 5) == Some(field_at(8)));
        assert(field_from(field_key(field_at(8)), 4) == Some(field_at(8)));
        assert(field_from(field_key(field_at(8)), 3) == Some(field_at(8)));
        assert(field_from(field_key(field_at(8)), 2) == Some(field_at(8)));
        assert(field_from(field_key(field_at(8)), 1) == Some(field_at(8)));
        assert(field_from(field_key(field_at(8)), 0) == Some(field_at(8)));
    } else if i == 9 {
        assert(field_key(field_at(0)).len() != field_key(field_at(9)).len());
        assert(field_key(field_at(1)).len() != field_key(field_at(9)).len());
        assert(field_key(field_at(2)).len() != field_key(field_at(9)).len());
        assert(field_key(field_at(3)).len() != field_key(field_at(9)).len());
        assert(field_key(field_at(4))[0] != field_key(field_at(9))[0]);
        assert(field_key(field_at(5)).len() != field_key(field_at(9)).len());
        assert(field_key(field_at(6)).len() != field_key(field_at(9)).len());
        assert(field_key(field_at(7)).len() != field_key(field_at(9)).len());
        assert(field_key(field_at(8)).len() != field_key(field_at(9)).len());
        assert(field_from(field_key(field_at(9)), 9) == Some(field_at(9)));
        assert(field_from(field_key(field_at(9)), 8) == Some(field_at(9)));
        assert(field_from(field_key(field_at(9)), 7) == Some(field_at(9)));
        assert(field_from(field_key(field_at(9)), 6) == Some(field_at(9)));
        assert(field_from(field_key(field_at(9)), 5) == Some(field_at(9)));
        assert(field_from(field_key(field_at(9)), 4) == Some(field_at(9)));
        assert(field_from(field_key(field_at(9)), 3) == Some(field_at(9)));
        assert(field_from(field_key(field_at(9)), 2) == Some(field_at(9)));
        assert(field_from(field_key(field_at(9)), 1) == Some(field_at(9)));
        assert(field_from(field_key(field_at(9)), 0) == Some(field_at(9)));
    } else if i == 10 {
        assert(field_key(field_at(0)).len() != field_key(field_at(10)).len());
        assert(field_key(field_at(1)).len() != field_key(field_at(10)).len());
        assert(field_key(field_at(2)).len() != field_key(field_at(10)).len());
        assert(field_key(field_at(3)).len() != field_key(field_at(10)).len());
        assert(field_key(field_at(4)).len() != field_key(field_at(10)).len());
        assert(field_key(field_at(5)).len() != field_key(field_at(10)).len());
        assert(field_key(field_at(6)).len() != field_key(field_at(10)).len());
        assert(field_key(field_at(7)).len() != field_key(field_at(10)).len());
        assert(field_key(field_at(8)).len() != field_key(field_at(10)).len());
        assert(field_key(field_at(9)).len() != field_key(field_at(10)).len());
        assert(field_from(field_key(field_at(10)), 10) == Some(field_at(10)));
        assert(field_from(field_key(field_at(10)), 9) == Some(field_at(10)));
        assert(field_from(field_key(field_at(10)), 8) == Some(field_at(10)));
        assert(field_from(field_key(field_at(10)), 7) == Some(field_at(10)));
        assert(field_from(field_key(field_at(10)), 6) == Some(field_at(10)));
        assert(field_from(field_key(field_at(10)), 5) == Some(field_at(10)));
        assert(field_from(field_key(field_at(10)), 4) == Some(field_at(10)));
        assert(field_from(field_key(field_at(10)), 3) == Some(field_at(10)));
        assert(field_from(field_key(field_at(10)), 2) == Some(field_at(10)));
        assert(field_from(field_key(field_at(10)), 1) == Some(field_at(10)));
        assert(field_from(field_key(field_at(10)), 0) == Some(field_at(10)));
    } else if i == 11 {
        assert(field_key(field_at(0)).len() != field_key(field_at(11)).len());
        assert(field_key(field_at(1)).len() != field_key(field_at(11)).len());
        assert(field_key(field_at(2)).len() != field_key(field_at(11)).len());
        assert(field_key(field_at(3)).len() != field_key(field_at(11)).len());
        assert(field_key(field_at(4)).len() != field_key(field_at(11)).len());
        assert(field_key(field_at(5)).len() != field_key(field_at(11)).len());
        assert(field_key(field_at(6)).len() != field_key(field_at(11)).len());
        assert(field_key(field_at(7)).len() != field_key(field_at(11)).len());
        assert(field_key(field_at(8)).len() != field_key(field_at(11)).len());
        assert(field_key(field_at(9)).len() != field_key(field_at(11)).len());
        assert(field_key(field_at(10)).len() != field_key(field_at(11)).len());
        assert(field_from(field_key(field_at(11)), 11) == Some(field_at(11)));
        assert(field_from(field_key(field_at(11)), 10) == Some(field_at(11)));
        assert(field_from(field_key(field_at(11)), 9) == Some(field_at(11)));
        assert(field_from(field_key(field_at(11)), 8) == Some(field_at(11)));
        assert(field_from(field_key(field_at(11)), 7) == Some(field_at(11)));
        assert(field_from(field_key(field_at(11)), 6) == Some(field_at(11)));
        assert(field_from(field_key(field_at(11)), 5) == Some(field_at(11)));
        assert(field_from(field_key(field_at(11)), 4) == Some(field_at(11)));
        assert(field_from(field_key(field_at(11)), 3) == Some(field_at(11)));
        assert(field_from(field_key(field_at(11)), 2) == Some(field_at(11)));
        assert(field_from(field_key(field_at(11)), 1) == Some(field_at(11)));
        assert(field_from(field_key(field_at(11)), 0) == Some(field_at(11)));
    } else if i == 12 {
        assert(field_key(field_at(0)).len() != field_key(field_at(12)).len());
        assert(field_key(field_at(1))[0] != field_key(field_at(12))[0]);
        assert(field_key(field_at(2)).len() != field_key(field_at(12)).len());
        assert(field_key(field_at(3)).len() != field_key(field_at(12)).len());
        assert(field_key(field_at(4)).len() != field_key(field_at(12)).len());
        assert(field_key(field_at(5)).len() != field_key(field_at(12)).len());
        assert(field_key(field_at(6)).len() != field_key(field_at(12)).len());
        assert(field_key(field_at(7)).len() != field_key(field_at(12)).len());
        assert(field_key(field_at(8)).len() != field_key(field_at(12)).len());
        assert(field_key(field_at(9)).len() != field_key(field_at(12)).len());
        assert(field_key(field_at(10)).len() != field_key(field_at(12)).len());
        assert(field_key(field_at(11)).len() != field_key(field_at(12)).len());
        assert(field_from(field_key(field_at(12)), 12) == Some(field_at(12)));
        assert(field_from(field_key(field_at(12)), 11) == Some(field_at(12)));
        assert(field_from(field_key(field_at(12)), 10) == Some(field_at(12)));
        assert(field_from(field_key(field_at(12)), 9) == Some(field_at(12)));
        assert(field_from(field_key(field_at(12)), 8) == Some(field_at(12)));
        assert(field_from(field_key(field_at(12)), 7) == Some(field_at(12)));
        assert(field_from(field_key(field_at(12)), 6) == Some(field_at(12)));
        assert(field_from(field_key(field_at(12)), 5) == Some(field_at(12)));
        assert(field_from(field_key(field_at(12)), 4) == Some(field_at(12)));
        assert(field_from(field_key(field_at(12)), 3) == Some(field_at(12)));
        assert(field_from(field_key(field_at(12)), 2) == Some(field_at(12)));
        assert(field_from(field_key(field_at(12)), 1) == Some(field_at(12)));
        assert(field_from(field_key(field_at(12)), 0) == Some(field_at(12)));
    }
}

/// The record `x` with field `f` taken from `m`.
pub open spec fn copy_field(x: IfoView, m: IfoView, f: Field) -> IfoView {
    if f == Field::Version {
        IfoView { version: m.version, ..x }
    } else if is_numeric(f) {
        with_number(x, f, number_of(m, f))
    } else {
        with_text(x, f, text_of(m, f))
    }
}

/// The empty record with the first `i` fields taken from `m`.
pub open spec fn partial(m: IfoView, i: int) -> IfoView
    decreases i,
{
    if i <= 0 {
        empty_view()
    } else {
        copy_field(partial(m, i - 1), m, field_at(i - 1))
    }
}

/// The bytes hold no line feed and no carriage return.
pub open spec fn no_line_break(b: Seq<u8>) -> bool {
    forall|k: int| 0 <= k < b.len() ==> #[trigger] b[k] != 10 && b[k] != 13
}

/// The record can be written as lines: no text field holds a line break, and
/// every number fits a `usize`.
pub open spec fn writable(m: IfoView) -> bool {
    &&& forall|f: Field| !is_numeric(f) && f != Field::Version ==> no_line_break(#[trigger] utf8(text_of(m, f)))
    &&& forall|f: Field| is_numeric(f) ==> #[trigger] number_of(m, f) <= usize::MAX
}

proof fn lemma_lines_prefix(m: IfoView, i: int, j: int)
    requires
        0 <= i <= j,
    ensures
        lines_upto(m, i).len() <= lines_upto(m, j).len(),
        lines_upto(m, j).subrange(0, lines_upto(m, i).len() as int) == lines_upto(m, i),
    decreases j,
{
    if i < j {
        lemma_lines_prefix(m, i, j - 1);
        let a = lines_upto(m, j - 1);
        assert(lines_upto(m, j) == a + field_line(m, field_at(j - 1)));
        assert(lines_upto(m, j).subrange(0, a.len() as int) =~= a);
        assert(lines_upto(m, j).subrange(0, lines_upto(m, i).len() as int) =~= a.subrange(0, lines_upto(m, i).len() as int));
    } else {
        assert(lines_upto(m, j).subrange(0, lines_upto(m, i).len() as int) =~= lines_upto(m, i));
    }
}

proof fn lemma_value_facts(m: IfoView, f: Field)
    requires
        writable(m),
    ensures
        f == Field::Version && m.version != Version::Unknown ==> version_text(m.version).len() > 0
            && no_line_break(version_text(m.version)) && version_of(version_text(m.version)) == m.version,
        is_numeric(f) ==> decimal_bytes(number_of(m, f)).len() > 0 && no_line_break(decimal_bytes(number_of(m, f)))
            && decimal_of(decimal_bytes(number_of(m, f))) == Some(number_of(m, f)),
        !is_numeric(f) && f != Field::Version ==> no_line_break(utf8(text_of(m, f)))
            && valid_utf8(utf8(text_of(m, f))) && decode_utf8(utf8(text_of(m, f))) == text_of(m, f),
{
    if is_numeric(f) {
        lemma_decimal_round_trip(number_of(m, f));
    }
    if !is_numeric(f) && f != Field::Version {
        assert(no_line_break(utf8(text_of(m, f))));
        encode_utf8_valid_utf8(text_of(m, f));
        encode_utf8_decode_utf8(text_of(m, f));
    }
    if f == Field::Version && m.version != Version::Unknown {
        assert(v242_text() != v300_text()) by {
            assert(v242_text()[0] != v300_text()[0]);
        }
    }
}

/// The line of a field, read back, sets that field.
proof fn lemma_apply_field_line(x: IfoView, m: IfoView, i: int)
    requires
        0 <= i < FIELD_COUNT,
        writable(m),
        field_line(m, field_at(i)).len() > 0,
    ensures
        ({
            let l = field_line(m, field_at(i));
            let line = l.subrange(0, l.len() - 1);
            &&& l[l.len() - 1] == 10
            &&& forall|k: int| 0 <= k < l.len() - 1 ==> #[trigger] l[k] != 10
            &&& strip_cr(line) == line
            &&& apply_line(x, line) == Some(copy_field(x, m, field_at(i)))
        }),
{
    let f = field_at(i);
    let l = field_line(m, f);
    lemma_value_facts(m, f);
    lemma_key(i);
    let key = field_key(f);
    let val = if f == Field::Version {
        version_text(m.version)
    } else if is_numeric(f) {
        decimal_bytes(number_of(m, f))
    } else {
        utf8(text_of(m, f))
    };
    assert(l =~= key + seq![61u8] + val + seq![10u8]);
    let n = l.len() - 1;
    let line = l.subrange(0, n);
    assert(line =~= key + seq![61u8] + val);
    assert forall|k: int| 0 <= k < n implies #[trigger] l[k] != 10 by {
        if k < key.len() {
            assert(l[k] == key[k]);
        } else if k > key.len() {
            assert(l[k] == val[k - key.len() - 1]);
        }
    }
    assert(strip_cr(line) == line) by {
        if val.len() > 0 {
            assert(line.last() == val[val.len() - 1]);
        }
    }
    assert forall|k: int| 0 <= k < key.len() implies line[k] != 61 by {
        assert(line[k] == key[k]);
    }
    lemma_run_len_prefix(line, 61, 0, key.len() as int);
    assert(line.subrange(0, key.len() as int) =~= key);
    assert(line.subrange(key.len() as int + 1, line.len() as int) =~= val);
}

/// One field's line takes a partial record to the next one.
#[verifier::rlimit(30)]
proof fn lemma_step(m: IfoView, i: int)
    requires
        0 <= i < FIELD_COUNT,
        writable(m),
    ensures
        ({
            let b = header_line() + lines_upto(m, FIELD_COUNT as int);
            let p = (header_line().len() + lines_upto(m, i).len()) as int;
            let q = (header_line().len() + lines_upto(m, i + 1).len()) as int;
            parse_from(b, p, partial(m, i)) == parse_from(b, q, partial(m, i + 1))
        }),
{
    let b = header_line() + lines_upto(m, FIELD_COUNT as int);
    let h = header_line().len() as int;
    let p = h + lines_upto(m, i).len();
    let q = h + lines_upto(m, i + 1).len();
    let f = field_at(i);
    let l = field_line(m, f);
    let x = partial(m, i);
    assert(lines_upto(m, i + 1) == lines_upto(m, i) + l);
    lemma_lines_prefix(m, i + 1, FIELD_COUNT as int);
    assert forall|k: int| 0 <= k < l.len() implies b[p + k] == l[k] by {
        assert(b[p + k] == lines_upto(m, FIELD_COUNT as int)[lines_upto(m, i).len() + k]);
        assert(lines_upto(m, FIELD_COUNT as int)[lines_upto(m, i).len() + k] == lines_upto(m, i + 1)[lines_upto(m, i).len() + k]);
    }
    assert(partial(m, i + 1) == copy_field(x, m, f));
    if l.len() == 0 {
        assert(f == Field::Version && m.version == Version::Unknown);
        assert(x.version == Version::Unknown) by {
            assert(i == 0);
        }
        assert(copy_field(x, m, f) == x);
    } else {
        lemma_apply_field_line(x, m, i);
        let n = l.len() - 1;
        assert forall|k: int| p <= k < p + n implies b[k] != 10 by {
            assert(b[k] == l[k - p]);
        }
        assert(b[p + n] == l[n]);
        lemma_run_len_prefix(b, 10, p, n);
        let line = b.subrange(p, p + n);
        assert forall|k: int| 0 <= k < n implies line[k] == l[k] by {
            assert(b[p + k] == l[k]);
        }
        assert(line =~= l.subrange(0, n));
        assert(q == p + n + 1);
        assert(p + n < b.len());
    }
}

proof fn lemma_steps(m: IfoView, i: int)
    requires
        0 <= i <= FIELD_COUNT,
        writable(m),
    ensures
        ({
            let b = header_line() + lines_upto(m, FIELD_COUNT as int);
            parse_from(b, (header_line().len() + lines_upto(m, i).len()) as int, partial(m, i)) == Some(partial(m, FIELD_COUNT as int))
        }),
    decreases FIELD_COUNT - i,
{
    if i < FIELD_COUNT {
        lemma_step(m, i);
        lemma_steps(m, i + 1);
    }
}

/// Serialising a record and parsing the text back yields the record, provided
/// no text field holds a line break and every number fits a `usize`.
pub proof fn lemma_metadata_round_trip(m: IfoView)
    requires
        writable(m),
    ensures
        parse_metadata_spec(serialize_spec(m)) == Some(m),
{
    let b = serialize_spec(m);
    let h = header_line();
    lemma_steps(m, 0);
    assert forall|k: int| 0 <= k < h.len() - 1 implies b[k] != 10 by {
        assert(b[k] == h[k]);
    }
    assert(b[h.len() - 1] == 10);
    lemma_run_len_prefix(b, 10, 0, h.len() - 1);
    let line = b.subrange(0, h.len() - 1);
    assert(line =~= h.subrange(0, h.len() - 1));
    assert forall|k: int| 0 <= k < line.len() implies line[k] != 61 by {
        assert(line[k] == h[k]);
    }
    lemma_run_len_to_end(line, 61, 0);
    assert(strip_cr(line) == line);
    assert(apply_line(empty_view(), line) == Some(empty_view()));
    assert(lines_upto(m, 0) =~= Seq::<u8>::empty());
    assert(partial(m, 0) == empty_view());
    assert(partial(m, FIELD_COUNT as int) == m) by {
        reveal_with_fuel(partial, 14);
    }
}

} // verus!
