//! Parsing one comma-separated line into a record.
//!
//! A line is `<id>,<name>[,<email>]`: the id must read as an `i64`, the
//! name must be present and non-empty, and the email is optional — an
//! empty email field means the record simply has no email.  An absent
//! name field and an empty one are both reported as the missing `name`
//! field: presence without content counts for nothing here, and the one
//! rule is applied consistently.

use vstd::prelude::*;
use vstd::string::StrSliceExecFns;
use vstd::string::StringExecFns;
use crate::text::split_chars;
use crate::text::parse_i64_spec;
use crate::text::parse_i64;
use crate::text::split_str;
use crate::text::lemma_split_len_pos;
use crate::text::lemma_split_no_sep;
use crate::text::lemma_split_at_first;

verus! {

/// The mathematical model of a record.
pub struct RecordV {
    pub id: int,
    pub name: Seq<char>,
    pub email: Option<Seq<char>>,
}

/// One parsed entity: an identifier, a non-empty name, and an optional
/// email address.
#[derive(Debug)]
pub struct Record {
    pub id: i64,
    pub name: String,
    pub email: Option<String>,
}

impl View for Record {
    type V = RecordV;

    open spec fn view(&self) -> RecordV {
        RecordV { id: self.id as int, name: self.name@, email: self.email.deep_view() }
    }
}

impl DeepView for Record {
    type V = RecordV;

    open spec fn deep_view(&self) -> RecordV {
        self.view()
    }
}

/// The mathematical model of a parse error.
pub enum ParseErrorV {
    InvalidId,
    EmptyRecord,
    MissingField(Seq<char>),
}

/// Why a line failed to parse: the id field was absent or not an
/// integer, the line was empty altogether, or a required field — named
/// in the variant — was missing or empty.
#[derive(Debug)]
pub enum ParseError {
    InvalidId,
    EmptyRecord,
    MissingField(String),
}

impl View for ParseError {
    type V = ParseErrorV;

    open spec fn view(&self) -> ParseErrorV {
        match self {
            ParseError::InvalidId => ParseErrorV::InvalidId,
            ParseError::EmptyRecord => ParseErrorV::EmptyRecord,
            ParseError::MissingField(name) => ParseErrorV::MissingField(name@),
        }
    }
}

/// A short description of the error, for callers that report it.
pub open spec fn message_of(e: ParseErrorV) -> Seq<char> {
    match e {
        ParseErrorV::InvalidId => "invalid id"@,
        ParseErrorV::EmptyRecord => "empty record"@,
        ParseErrorV::MissingField(name) => "missing field: "@ + name,
    }
}

impl ParseError {
    /// Renders the error as text, as `message_of` states.
    pub fn message(&self) -> (r: String)
        ensures
            r@ == message_of(self@),
    {
        match self {
            ParseError::InvalidId => String::from_str("invalid id"),
            ParseError::EmptyRecord => String::from_str("empty record"),
            ParseError::MissingField(name) => String::from_str("missing field: ").concat(
                name.as_str(),
            ),
        }
    }
}

/// What parsing a line yields.  An empty line is an empty record; a
/// first field that does not read as an `i64` is an invalid id; an
/// absent or empty second field is the missing name; a third field, when
/// present and non-empty, is the email.  Fields past the third are
/// ignored.
pub open spec fn parse_record_spec(line: Seq<char>) -> Result<RecordV, ParseErrorV> {
    if line.len() == 0 {
        Err(ParseErrorV::EmptyRecord)
    } else {
        let fields = split_chars(line, ',');
        if parse_i64_spec(fields[0]) is None {
            Err(ParseErrorV::InvalidId)
        } else if fields.len() < 2 || fields[1].len() == 0 {
            Err(ParseErrorV::MissingField("name"@))
        } else {
            Ok(
                RecordV {
                    id: parse_i64_spec(fields[0])->0,
                    name: fields[1],
                    email: if fields.len() >= 3 && fields[2].len() > 0 {
                        Some(fields[2])
                    } else {
                        None
                    },
                },
            )
        }
    }
}

/// The model of an executable parse result.
pub open spec fn parse_result_view(r: Result<Record, ParseError>) -> Result<
    RecordV,
    ParseErrorV,
> {
    match r {
        Ok(rec) => Ok(rec@),
        Err(e) => Err(e@),
    }
}

/// Parses one line into a record, exactly as `parse_record_spec` states.
/// Pure: no side effects, and every input yields a record or an error.
pub fn parse_record(line: &str) -> (r: Result<Record, ParseError>)
    ensures
        parse_result_view(r) == parse_record_spec(line@),
{
    let n = line.unicode_len();
    if n == 0 {
        return Err(ParseError::EmptyRecord);
    }
    let fields = split_str(line, ',');
    proof {
        lemma_split_len_pos(line@, ',');
    }
    let id = match parse_i64(fields[0].as_str()) {
        Some(v) => v,
        None => {
            return Err(ParseError::InvalidId);
        },
    };
    if fields.len() < 2 || fields[1].as_str().is_empty() {
        return Err(ParseError::MissingField(String::from_str("name")));
    }
    let name = fields[1].clone();
    let email = if fields.len() >= 3 && !fields[2].as_str().is_empty() {
        Some(fields[2].clone())
    } else {
        None
    };
    Ok(Record { id, name, email })
}

/// Law: every well-formed line `<id>,<name>` — an id that reads as an
/// `i64`, a comma, and a non-empty name, with no further comma — parses
/// to the record with that id and that name and no email.
pub proof fn lemma_parse_id_name(id_part: Seq<char>, name_part: Seq<char>, v: int)
    requires
        !id_part.contains(','),
        !name_part.contains(','),
        parse_i64_spec(id_part) == Some(v),
        name_part.len() > 0,
    ensures
        parse_record_spec(id_part + seq![','] + name_part) == Ok::<RecordV, ParseErrorV>(
            RecordV { id: v, name: name_part, email: None },
        ),
{
    let line = id_part + seq![','] + name_part;
    let i = id_part.len() as int;
    assert(id_part.len() > 0);
    assert(line[i] == ',');
    assert forall|k: int| 0 <= k < i implies line[k] != ',' by {
        assert(line[k] == id_part[k]);
        if line[k] == ',' {
            assert(id_part.contains(','));
        }
    }
    lemma_split_at_first(line, ',', i);
    assert(line.take(i) =~= id_part);
    assert(line.skip(i + 1) =~= name_part);
    assert forall|k: int| 0 <= k < name_part.len() implies name_part[k] != ',' by {
        if name_part[k] == ',' {
            assert(name_part.contains(','));
        }
    }
    lemma_split_no_sep(name_part, ',');
    let fields = split_chars(line, ',');
    assert(fields =~~= seq![id_part, name_part]);
    assert(parse_record_spec(line) == Ok::<RecordV, ParseErrorV>(
        RecordV { id: v, name: name_part, email: None },
    ));
}

/// Law: every line `<id>,<name>,<email>` with a well-formed id and a
/// non-empty name parses to a record whose email is the email field when
/// that field is non-empty, and absent when the field is empty.
pub proof fn lemma_parse_with_email(
    id_part: Seq<char>,
    name_part: Seq<char>,
    email_part: Seq<char>,
    v: int,
)
    requires
        !id_part.contains(','),
        !name_part.contains(','),
        !email_part.contains(','),
        parse_i64_spec(id_part) == Some(v),
        name_part.len() > 0,
    ensures
        parse_record_spec(id_part + seq![','] + name_part + seq![','] + email_part) == Ok::<RecordV, ParseErrorV>(
            RecordV {
                id: v,
                name: name_part,
                email: if email_part.len() > 0 {
                    Some(email_part)
                } else {
                    None
                },
            },
        ),
{
    let line = id_part + seq![','] + name_part + seq![','] + email_part;
    let i = id_part.len() as int;
    assert(id_part.len() > 0);
    assert(line[i] == ',');
    assert forall|k: int| 0 <= k < i implies line[k] != ',' by {
        assert(line[k] == id_part[k]);
        if line[k] == ',' {
            assert(id_part.contains(','));
        }
    }
    lemma_split_at_first(line, ',', i);
    assert(line.take(i) =~= id_part);
    let rest = name_part + seq![','] + email_part;
    assert(line.skip(i + 1) =~= rest);
    let j = name_part.len() as int;
    assert(rest[j] == ',');
    assert forall|k: int| 0 <= k < j implies rest[k] != ',' by {
        assert(rest[k] == name_part[k]);
        if rest[k] == ',' {
            assert(name_part.contains(','));
        }
    }
    lemma_split_at_first(rest, ',', j);
    assert(rest.take(j) =~= name_part);
    assert(rest.skip(j + 1) =~= email_part);
    assert forall|k: int| 0 <= k < email_part.len() implies email_part[k] != ',' by {
        if email_part[k] == ',' {
            assert(email_part.contains(','));
        }
    }
    lemma_split_no_sep(email_part, ',');
    let fields = split_chars(line, ',');
    assert(fields =~~= seq![id_part, name_part, email_part]);
}

} // verus!
