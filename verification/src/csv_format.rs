//! Records as CSV text.

use vstd::prelude::*;
use vstd::string::*;
use vstd::utf8::encode_utf8;

verus! {

/// A field with one of these characters in it stands in quotes.
pub open spec fn is_special(c: char) -> bool {
    c == ',' || c == '"' || c == '\r' || c == '\n'
}

pub open spec fn needs_quotes(field: Seq<char>) -> bool {
    exists|i: int| 0 <= i < field.len() && is_special(#[trigger] field[i])
}

/// The field with every quote written twice.
pub open spec fn doubled(field: Seq<char>) -> Seq<char>
    decreases field.len(),
{
    if field.len() == 0 {
        Seq::empty()
    } else if field[0] == '"' {
        seq!['"', '"'] + doubled(field.drop_first())
    } else {
        seq![field[0]] + doubled(field.drop_first())
    }
}

pub open spec fn csv_field(field: Seq<char>) -> Seq<char> {
    if needs_quotes(field) {
        seq!['"'] + doubled(field) + seq!['"']
    } else {
        field
    }
}

/// The fields, with a comma between each two.
pub open spec fn csv_fields(fields: Seq<Seq<char>>) -> Seq<char>
    decreases fields.len(),
{
    if fields.len() == 0 {
        Seq::empty()
    } else if fields.len() == 1 {
        csv_field(fields[0])
    } else {
        csv_field(fields[0]) + seq![','] + csv_fields(fields.drop_first())
    }
}

/// A record and the end of its line. A record that would be an empty line is
/// written as a pair of quotes.
pub open spec fn csv_record(fields: Seq<Seq<char>>) -> Seq<char> {
    if csv_fields(fields).len() == 0 {
        seq!['"', '"', '\n']
    } else {
        csv_fields(fields) + seq!['\n']
    }
}

/// The records, one after the other.
pub open spec fn csv_text(records: Seq<Seq<Seq<char>>>) -> Seq<char>
    decreases records.len(),
{
    if records.len() == 0 {
        Seq::empty()
    } else {
        csv_text(records.drop_last()) + csv_record(records.last())
    }
}

/// `csv::Error`, the reason why a record was not written, as an opaque type.
#[verifier::external_type_specification]
#[verifier::external_body]
pub struct ExCsvError(csv::Error);

pub open spec fn string_views(strings: Seq<String>) -> Seq<Seq<char>> {
    strings.map_values(|s: String| s@)
}

/// Writes one record with a `csv::Writer` of the default settings, over a
/// vector of bytes, and takes the bytes. The claims are that a fresh writer
/// over memory does not fail, and that it separates fields by commas, puts
/// those in quotes that hold a comma, a quote or an end of line, doubles the
/// quotes inside, and ends the record with a line feed.
#[verifier::external_body]
pub(crate) fn encode_record(fields: &Vec<String>) -> (r: Result<Vec<u8>, csv::Error>)
    ensures
        r is Ok,
        r->Ok_0@ == encode_utf8(csv_record(string_views(fields@))),
{
    let mut bytes: Vec<u8> = Vec::new();
    let mut writer = csv::Writer::from_writer(&mut bytes);
    writer.write_record(fields)?;
    writer.flush()?;
    drop(writer);
    Ok(bytes)
}

// ---- reading ---------------------------------------------------------------

/// Where a reader is within a field.
pub enum Place {
    /// At its first character.
    Start,
    /// Inside a field without quotes.
    Plain,
    /// Inside quotes.
    Quoted,
    /// Behind a quote that may close the field or be the first of two.
    AfterQuote,
}

/// What a reader takes from a CSV text: the records already read, the fields
/// of the present record already read, and the characters of the present
/// field are given.
pub open spec fn read_on(
    text: Seq<char>,
    records: Seq<Seq<Seq<char>>>,
    fields: Seq<Seq<char>>,
    field: Seq<char>,
    place: Place,
) -> Seq<Seq<Seq<char>>>
    decreases text.len(),
{
    if text.len() == 0 {
        records
    } else {
        let c = text[0];
        let rest = text.drop_first();
        if place is Quoted {
            if c == '"' {
                read_on(rest, records, fields, field, Place::AfterQuote)
            } else {
                read_on(rest, records, fields, field.push(c), Place::Quoted)
            }
        } else if c == ',' {
            read_on(rest, records, fields.push(field), Seq::empty(), Place::Start)
        } else if c == '\n' {
            read_on(
                rest,
                records.push(fields.push(field)),
                Seq::empty(),
                Seq::empty(),
                Place::Start,
            )
        } else if c == '"' && place is Start {
            read_on(rest, records, fields, field, Place::Quoted)
        } else if c == '"' && place is AfterQuote {
            read_on(rest, records, fields, field.push('"'), Place::Quoted)
        } else {
            read_on(rest, records, fields, field.push(c), Place::Plain)
        }
    }
}

/// The records that a reader takes from a CSV text.
pub open spec fn read_csv(text: Seq<char>) -> Seq<Seq<Seq<char>>> {
    read_on(text, Seq::empty(), Seq::empty(), Seq::empty(), Place::Start)
}

proof fn lemma_read_plain(
    done: Seq<char>,
    field: Seq<char>,
    rest: Seq<char>,
    records: Seq<Seq<Seq<char>>>,
    fields: Seq<Seq<char>>,
    place: Place,
)
    requires
        !needs_quotes(field),
        place is Start || place is Plain,
    ensures
        field.len() > 0 ==> read_on(field + rest, records, fields, done, place) == read_on(
            rest,
            records,
            fields,
            done + field,
            Place::Plain,
        ),
    decreases field.len(),
{
    if field.len() > 0 {
        let c = field[0];
        let more = field.drop_first();
        assert(!is_special(c));
        assert((field + rest)[0] == c);
        assert((field + rest).drop_first() =~= more + rest);
        assert forall|i: int| 0 <= i < more.len() implies !is_special(#[trigger] more[i]) by {
            assert(more[i] == field[i + 1]);
        }
        lemma_read_plain(done.push(c), more, rest, records, fields, Place::Plain);
        assert(done.push(c) + more =~= done + field);
        if more.len() == 0 {
            assert(more + rest =~= rest);
            assert(done.push(c) =~= done + field);
        }
    }
}

proof fn lemma_read_quoted(
    done: Seq<char>,
    field: Seq<char>,
    rest: Seq<char>,
    records: Seq<Seq<Seq<char>>>,
    fields: Seq<Seq<char>>,
)
    ensures
        read_on(doubled(field) + rest, records, fields, done, Place::Quoted) == read_on(
            rest,
            records,
            fields,
            done + field,
            Place::Quoted,
        ),
    decreases field.len(),
{
    let text = doubled(field) + rest;
    if field.len() == 0 {
        assert(text =~= rest);
        assert(done + field =~= done);
    } else {
        let c = field[0];
        let more = field.drop_first();
        lemma_read_quoted(done.push(c), more, rest, records, fields);
        assert(done.push(c) + more =~= done + field);
        if c == '"' {
            assert(text[0] == '"');
            assert(text.drop_first()[0] == '"');
            assert(text.drop_first().drop_first() =~= doubled(more) + rest);
            assert(read_on(text, records, fields, done, Place::Quoted) == read_on(
                text.drop_first(),
                records,
                fields,
                done,
                Place::AfterQuote,
            ));
            assert(read_on(text.drop_first(), records, fields, done, Place::AfterQuote) == read_on(
                text.drop_first().drop_first(),
                records,
                fields,
                done.push('"'),
                Place::Quoted,
            ));
        } else {
            assert(text[0] == c);
            assert(text.drop_first() =~= doubled(more) + rest);
        }
    }
}

/// A reader takes a written field back, up to the comma or the end of line
/// behind it.
proof fn lemma_read_field(
    field: Seq<char>,
    rest: Seq<char>,
    records: Seq<Seq<Seq<char>>>,
    fields: Seq<Seq<char>>,
)
    requires
        rest.len() > 0,
        rest[0] == ',' || rest[0] == '\n',
    ensures
        exists|place: Place|
            place !is Quoted && #[trigger] read_on(rest, records, fields, field, place) == read_on(
                csv_field(field) + rest,
                records,
                fields,
                Seq::empty(),
                Place::Start,
            ),
{
    let none = Seq::<char>::empty();
    assert(none + field =~= field);
    if needs_quotes(field) {
        let text = csv_field(field) + rest;
        let inside = doubled(field) + (seq!['"'] + rest);
        assert(text[0] == '"');
        assert(text.drop_first() =~= inside);
        lemma_read_quoted(none, field, seq!['"'] + rest, records, fields);
        assert((seq!['"'] + rest)[0] == '"');
        assert((seq!['"'] + rest).drop_first() =~= rest);
        assert(read_on(rest, records, fields, field, Place::AfterQuote) == read_on(
            text,
            records,
            fields,
            none,
            Place::Start,
        ));
    } else if field.len() > 0 {
        lemma_read_plain(none, field, rest, records, fields, Place::Start);
    } else {
        assert(field =~= none);
        assert(csv_field(field) + rest =~= rest);
        assert(read_on(rest, records, fields, field, Place::Start) == read_on(
            csv_field(field) + rest,
            records,
            fields,
            none,
            Place::Start,
        ));
    }
}

proof fn lemma_read_fields(
    fields: Seq<Seq<char>>,
    rest: Seq<char>,
    records: Seq<Seq<Seq<char>>>,
    before: Seq<Seq<char>>,
)
    requires
        fields.len() > 0,
    ensures
        read_on(
            csv_fields(fields) + seq!['\n'] + rest,
            records,
            before,
            Seq::empty(),
            Place::Start,
        ) == read_on(
            rest,
            records.push(before + fields),
            Seq::empty(),
            Seq::empty(),
            Place::Start,
        ),
    decreases fields.len(),
{
    let text = csv_fields(fields) + seq!['\n'] + rest;
    let none = Seq::<char>::empty();
    if fields.len() == 1 {
        let end = seq!['\n'] + rest;
        assert(text =~= csv_field(fields[0]) + end);
        lemma_read_field(fields[0], end, records, before);
        assert(end.drop_first() =~= rest);
        assert(before.push(fields[0]) =~= before + fields);
    } else {
        let more = fields.drop_first();
        let after = csv_fields(more) + seq!['\n'] + rest;
        let end = seq![','] + after;
        assert(text =~= csv_field(fields[0]) + end);
        lemma_read_field(fields[0], end, records, before);
        assert(end.drop_first() =~= after);
        lemma_read_fields(more, rest, records, before.push(fields[0]));
        assert(before.push(fields[0]) + more =~= before + fields);
    }
}

proof fn lemma_read_record(
    fields: Seq<Seq<char>>,
    rest: Seq<char>,
    records: Seq<Seq<Seq<char>>>,
)
    requires
        fields.len() > 0,
    ensures
        read_on(csv_record(fields) + rest, records, Seq::empty(), Seq::empty(), Place::Start)
            == read_on(rest, records.push(fields), Seq::empty(), Seq::empty(), Place::Start),
{
    let none = Seq::<Seq<char>>::empty();
    if csv_fields(fields).len() == 0 {
        assert(fields.len() == 1);
        assert(csv_field(fields[0]).len() == 0);
        assert(fields[0] =~= Seq::<char>::empty());
        let text = csv_record(fields) + rest;
        let t1 = text.drop_first();
        let t2 = t1.drop_first();
        assert(text[0] == '"');
        assert(t1[0] == '"');
        assert(t2[0] == '\n');
        assert(t2.drop_first() =~= rest);
        let field = Seq::<char>::empty();
        assert(read_on(text, records, none, field, Place::Start) == read_on(
            t1,
            records,
            none,
            field,
            Place::Quoted,
        ));
        assert(read_on(t1, records, none, field, Place::Quoted) == read_on(
            t2,
            records,
            none,
            field,
            Place::AfterQuote,
        ));
        assert(none.push(field) =~= fields);
    } else {
        lemma_read_fields(fields, rest, records, none);
        assert(none + fields =~= fields);
    }
}

proof fn lemma_read_text(
    records: Seq<Seq<Seq<char>>>,
    rest: Seq<char>,
)
    requires
        forall|i: int| 0 <= i < records.len() ==> (#[trigger] records[i]).len() > 0,
    ensures
        read_on(csv_text(records) + rest, Seq::empty(), Seq::empty(), Seq::empty(), Place::Start)
            == read_on(rest, records, Seq::empty(), Seq::empty(), Place::Start),
    decreases records.len(),
{
    if records.len() == 0 {
        assert(csv_text(records) + rest =~= rest);
        assert(records =~= Seq::empty());
    } else {
        let before = records.drop_last();
        let after = csv_record(records.last()) + rest;
        assert(csv_text(records) + rest =~= csv_text(before) + after);
        assert forall|i: int| 0 <= i < before.len() implies (#[trigger] before[i]).len() > 0 by {
            assert(before[i] == records[i]);
        }
        lemma_read_text(before, after);
        lemma_read_record(records.last(), rest, before);
        assert(before.push(records.last()) =~= records);
    }
}

/// Records that are written as CSV and read again come back as they were,
/// whatever characters their fields hold.
pub proof fn read_back(records: Seq<Seq<Seq<char>>>)
    requires
        forall|i: int| 0 <= i < records.len() ==> (#[trigger] records[i]).len() > 0,
    ensures
        read_csv(csv_text(records)) == records,
{
    let none = Seq::<char>::empty();
    lemma_read_text(records, none);
    assert(csv_text(records) + none =~= csv_text(records));
}

} // verus!
