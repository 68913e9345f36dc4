use crate::record::{normalized, normalized_record, view_all, Record, RecordView};
use vstd::prelude::*;

verus! {

/// The bytes of one CSV row holding `fields`.
pub uninterp spec fn csv_row_of(fields: Seq<Seq<char>>) -> Seq<u8>;

/// The rows that a CSV reader finds in `bytes`, the header row included;
/// `None` stands for a row that could not be read.
pub uninterp spec fn csv_rows_of(bytes: Seq<u8>) -> Seq<Option<Seq<Seq<char>>>>;

/// The rows written one after the other.
pub open spec fn joined_rows(rows: Seq<Seq<Seq<char>>>) -> Seq<u8>
    decreases rows.len(),
{
    if rows.len() == 0 {
        Seq::empty()
    } else {
        joined_rows(rows.drop_last()) + csv_row_of(rows.last())
    }
}

/// A bound on the bytes of a CSV row: for each field two quotes, its
/// characters' UTF-8 bytes (at most four each) doubled, and a delimiter or
/// the terminator.
pub open spec fn row_bound(fields: Seq<Seq<char>>) -> nat
    decreases fields.len(),
{
    if fields.len() == 0 {
        0
    } else {
        row_bound(fields.drop_last()) + 8 * fields.last().len() + 3
    }
}

pub open spec fn rows_view(v: Seq<Option<Vec<String>>>) -> Seq<Option<Seq<Seq<char>>>> {
    v.map_values(
        |o: Option<Vec<String>>|
            match o {
                Some(f) => Some(f@.map_values(|x: String| x@)),
                None => None,
            },
    )
}

/// Relies on csv's `Writer::from_writer`, `Writer::write_record` and
/// `Writer::into_inner` on a fresh writer over a `Vec<u8>`: the bytes depend
/// on the fields alone, and a single record written into memory never fails
/// (the writer fails only on I/O or on a record whose length differs from an
/// earlier one). A row of fields takes at most `row_bound` bytes: the writer
/// quotes a field at most once and doubles only quote bytes inside it, and
/// the default terminator is one byte.
#[verifier::external_body]
fn csv_row(fields: &Vec<String>) -> (r: Option<Vec<u8>>)
    ensures
        r is Some,
        r matches Some(b) ==> b@ == csv_row_of(fields@.map_values(|x: String| x@)),
        fields@.len() > 0 ==> (r matches Some(b) ==> b@.len() <= row_bound(
            fields@.map_values(|x: String| x@),
        )),
{
    let mut writer = csv::Writer::from_writer(Vec::new());
    match writer.write_record(fields.iter()) {
        Ok(()) => writer.into_inner().ok(),
        Err(_) => None,
    }
}

/// Relies on csv's `ReaderBuilder::has_headers(false)` and `Reader::records`:
/// each row is read back as its fields; empty input holds no row; and a table
/// of rows of four fields written by `Writer::write_record` whose first row is
/// the header reads back as it was written (a byte-order mark, which the
/// reader strips from the start of its input, cannot begin that table).
#[verifier::external_body]
fn csv_read_rows(bytes: &[u8]) -> (r: Vec<Option<Vec<String>>>)
    ensures
        rows_view(r@) == csv_rows_of(bytes@),
        bytes@.len() == 0 ==> r@.len() == 0,
        forall|rows: Seq<Seq<Seq<char>>>|
            rows.len() > 0 && rows[0] == header_fields() && (forall|i: int|
                0 <= i < rows.len() ==> (#[trigger] rows[i]).len() == 4) && #[trigger] joined_rows(
                rows,
            ) == bytes@ ==> rows_view(r@) == rows.map_values(|f: Seq<Seq<char>>| Some(f)),
{
    let mut reader = csv::ReaderBuilder::new().has_headers(false).from_reader(bytes);
    reader.records().map(|row| row.ok().map(|f| f.iter().map(String::from).collect())).collect()
}

/// The column names, in the order of the fields.
pub open spec fn header_fields() -> Seq<Seq<char>> {
    seq!["account"@, "username"@, "password"@, "extra"@]
}

pub open spec fn extra_text(e: Option<Seq<char>>) -> Seq<char> {
    match e {
        Some(t) => t,
        None => Seq::empty(),
    }
}

/// A record as a row: an absent `extra` is written as an empty field.
pub open spec fn fields_of(r: RecordView) -> Seq<Seq<char>> {
    seq![r.account, r.username, r.password, extra_text(r.extra)]
}

/// A row of four fields read back as a record; its `extra` is always present.
pub open spec fn record_of_fields(f: Seq<Seq<char>>) -> RecordView {
    RecordView { account: f[0], username: f[1], password: f[2], extra: Some(f[3]) }
}

/// A bound on the bytes of the row of a record.
pub open spec fn record_bound(r: RecordView) -> nat {
    8 * (r.account.len() + r.username.len() + r.password.len() + extra_text(r.extra).len()) + 12
}

/// A bound on the bytes of the rows of the records.
pub open spec fn table_bound(s: Seq<RecordView>) -> nat
    decreases s.len(),
{
    if s.len() == 0 {
        0
    } else {
        table_bound(s.drop_last()) + record_bound(s.last())
    }
}

/// A bound on the bytes of the serialised table; the header row takes at most 236.
pub open spec fn encoded_bound(s: Seq<RecordView>) -> nat {
    if s.len() == 0 {
        0
    } else {
        236 + table_bound(s)
    }
}

/// `row_bound` of a row of four fields, in closed form.
proof fn lemma_row_bound_four(f: Seq<Seq<char>>)
    requires
        f.len() == 4,
    ensures
        row_bound(f) == 8 * (f[0].len() + f[1].len() + f[2].len() + f[3].len()) + 12,
{
    let f3 = f.drop_last();
    let f2 = f3.drop_last();
    let f1 = f2.drop_last();
    let f0 = f1.drop_last();
    assert(f0 =~= Seq::<Seq<char>>::empty());
    assert(row_bound(f0) == 0);
    assert(row_bound(f1) == 8 * f[0].len() + 3);
    assert(row_bound(f2) == 8 * (f[0].len() + f[1].len()) + 6);
    assert(row_bound(f3) == 8 * (f[0].len() + f[1].len() + f[2].len()) + 9);
}

/// The serialised table: nothing for no records; else the header row, then
/// one row per record.
pub open spec fn encoded(s: Seq<RecordView>) -> Seq<u8> {
    if s.len() == 0 {
        Seq::empty()
    } else {
        joined_rows(seq![header_fields()] + s.map_values(|r: RecordView| fields_of(r)))
    }
}

/// The records of the rows that were read and hold four fields; others are dropped.
pub open spec fn kept_rows(rows: Seq<Option<Seq<Seq<char>>>>) -> Seq<RecordView>
    decreases rows.len(),
{
    if rows.len() == 0 {
        Seq::empty()
    } else {
        match rows.last() {
            Some(f) => if f.len() == 4 {
                kept_rows(rows.drop_last()).push(record_of_fields(f))
            } else {
                kept_rows(rows.drop_last())
            },
            None => kept_rows(rows.drop_last()),
        }
    }
}

/// The records of a table: the first row is its header.
pub open spec fn decoded(rows: Seq<Option<Seq<Seq<char>>>>) -> Seq<RecordView> {
    if rows.len() == 0 {
        Seq::empty()
    } else {
        kept_rows(rows.drop_first())
    }
}

fn text_fields(r: &Record) -> (f: Vec<String>)
    ensures
        f@.map_values(|x: String| x@) == fields_of(r@),
{
    let mut f: Vec<String> = Vec::new();
    f.push(r.account.clone());
    f.push(r.username.clone());
    f.push(r.password.clone());
    f.push(
        match &r.extra {
            Some(e) => e.clone(),
            None => String::new(),
        },
    );
    assert(f@.map_values(|x: String| x@) =~= fields_of(r@));
    f
}

/// Serialises the records as a CSV table with a header row; no records make an empty table.
pub fn encode_records(records: &Vec<Record>) -> (r: Vec<u8>)
    ensures
        r@ == encoded(view_all(records@)),
        r@.len() <= encoded_bound(view_all(records@)),
{
    let ghost s = view_all(records@);
    let ghost rows = seq![header_fields()] + s.map_values(|r: RecordView| fields_of(r));
    if records.len() == 0 {
        return Vec::new();
    }
    let mut header: Vec<String> = Vec::new();
    header.push(String::from_str("account"));
    header.push(String::from_str("username"));
    header.push(String::from_str("password"));
    header.push(String::from_str("extra"));
    proof {
        reveal_strlit("account");
        reveal_strlit("username");
        reveal_strlit("password");
        reveal_strlit("extra");
    }
    assert(header@.map_values(|x: String| x@) =~= header_fields());
    assert(rows.take(1).drop_last() =~= Seq::<Seq<Seq<char>>>::empty());
    assert(rows.take(1).last() == header_fields());
    let mut out = match csv_row(&header) {
        Some(b) => b,
        None => unreached(),
    };
    assert(joined_rows(rows.take(1).drop_last()) == Seq::<u8>::empty());
    assert(Seq::<u8>::empty() + out@ =~= out@);
    assert(joined_rows(rows.take(1)) == out@);
    assert(s.take(0) =~= Seq::<RecordView>::empty());
    proof {
        lemma_row_bound_four(header_fields());
    }
    let mut i: usize = 0;
    while i < records.len()
        invariant
            i <= records.len(),
            s == view_all(records@),
            rows == seq![header_fields()] + s.map_values(|r: RecordView| fields_of(r)),
            joined_rows(rows.take(i + 1)) == out@,
            out@.len() <= 236 + table_bound(s.take(i as int)),
        decreases records.len() - i,
    {
        assert(rows.take(i + 2).drop_last() =~= rows.take(i + 1));
        assert(rows.take(i + 2).last() == fields_of(s[i as int]));
        let f = text_fields(&records[i]);
        let mut b = match csv_row(&f) {
            Some(b) => b,
            None => unreached(),
        };
        assert(s.take(i + 1).drop_last() =~= s.take(i as int));
        proof {
            lemma_row_bound_four(fields_of(s[i as int]));
        }
        out.append(&mut b);
        i = i + 1;
    }
    assert(rows.take(records.len() + 1) =~= rows);
    assert(s.take(records.len() as int) =~= s);
    out
}

/// Parses a CSV table into records; rows that cannot be read or do not hold
/// four fields are dropped, and an empty `extra` field reads as present.
pub fn decode_records(bytes: &[u8]) -> (r: Vec<Record>)
    ensures
        view_all(r@) == decoded(csv_rows_of(bytes@)),
        forall|s: Seq<RecordView>| #[trigger] encoded(s) == bytes@ ==> view_all(r@) == normalized(s),
{
    let rows = csv_read_rows(bytes);
    let ghost rv = rows_view(rows@);
    let mut out: Vec<Record> = Vec::new();
    if rows.len() == 0 {
        proof {
            lemma_decoded_round_trip(rows@, bytes@);
        }
        return out;
    }
    let mut i: usize = 1;
    while i < rows.len()
        invariant
            1 <= i <= rows.len(),
            rv == rows_view(rows@),
            view_all(out@) == kept_rows(rv.drop_first().take(i - 1)),
        decreases rows.len() - i,
    {
        assert(rv.drop_first().take(i as int).drop_last() =~= rv.drop_first().take(i - 1));
        assert(rv.drop_first().take(i as int).last() == rv[i as int]);
        match &rows[i] {
            Some(f) => {
                if f.len() == 4 {
                    let rec = Record {
                        account: f[0].clone(),
                        username: f[1].clone(),
                        password: f[2].clone(),
                        extra: Some(f[3].clone()),
                    };
                    let ghost prev = view_all(out@);
                    out.push(rec);
                    assert(view_all(out@) =~= prev.push(record_of_fields(f@.map_values(|x: String| x@))));
                }
            },
            None => {},
        }
        i = i + 1;
    }
    assert(rv.drop_first().take(rows.len() - 1) =~= rv.drop_first());
    proof {
        lemma_decoded_round_trip(rows@, bytes@);
    }
    out
}

/// What the reader's round trip says of a table that `encoded` wrote.
proof fn lemma_decoded_round_trip(read: Seq<Option<Vec<String>>>, bytes: Seq<u8>)
    requires
        bytes.len() == 0 ==> read.len() == 0,
        forall|rows: Seq<Seq<Seq<char>>>|
            rows.len() > 0 && rows[0] == header_fields() && (forall|i: int|
                0 <= i < rows.len() ==> (#[trigger] rows[i]).len() == 4) && #[trigger] joined_rows(
                rows,
            ) == bytes ==> rows_view(read) == rows.map_values(|f: Seq<Seq<char>>| Some(f)),
    ensures
        forall|s: Seq<RecordView>| #[trigger] encoded(s) == bytes ==> decoded(rows_view(read))
            == normalized(s),
{
    assert forall|s: Seq<RecordView>| #[trigger] encoded(s) == bytes implies decoded(
        rows_view(read),
    ) == normalized(s) by {
        if s.len() == 0 {
            assert(normalized(s) =~= Seq::<RecordView>::empty());
        } else {
            let rows = seq![header_fields()] + s.map_values(|r: RecordView| fields_of(r));
            assert forall|i: int| 0 <= i < rows.len() implies (#[trigger] rows[i]).len() == 4 by {
                if i > 0 {
                    assert(rows[i] == fields_of(s[i - 1]));
                }
            }
            assert(rows[0] == header_fields());
            assert(joined_rows(rows) == bytes);
            lemma_decode_encoded(s, rows_view(read));
        }
    }
}

/// Records read back write the table that they were read from.
pub proof fn lemma_encoded_normalized(s: Seq<RecordView>)
    ensures
        encoded(normalized(s)) == encoded(s),
{
    assert(normalized(s).map_values(|r: RecordView| fields_of(r)) =~= s.map_values(
        |r: RecordView| fields_of(r),
    ));
    assert(seq![header_fields()] + normalized(s).map_values(|r: RecordView| fields_of(r)) =~= seq![
        header_fields(),
    ] + s.map_values(|r: RecordView| fields_of(r)));
}

/// Rows written from records read back as the records, each with its `extra` present.
proof fn lemma_kept_rows_of_records(s: Seq<RecordView>)
    ensures
        kept_rows(s.map_values(|r: RecordView| Some(fields_of(r)))) == normalized(s),
    decreases s.len(),
{
    if s.len() > 0 {
        lemma_kept_rows_of_records(s.drop_last());
        assert(s.map_values(|r: RecordView| Some(fields_of(r))).drop_last() =~= s.drop_last().map_values(
            |r: RecordView| Some(fields_of(r)),
        ));
        assert(normalized(s) =~= normalized(s.drop_last()).push(normalized_record(s.last())));
        assert(record_of_fields(fields_of(s.last())) == normalized_record(s.last()));
    } else {
        assert(normalized(s) =~= Seq::<RecordView>::empty());
    }
}

/// Reading back the table that `encoded` wrote gives the records, normalised.
proof fn lemma_decode_encoded(s: Seq<RecordView>, read: Seq<Option<Seq<Seq<char>>>>)
    requires
        read == (seq![header_fields()] + s.map_values(|r: RecordView| fields_of(r))).map_values(
            |f: Seq<Seq<char>>| Some(f),
        ),
    ensures
        decoded(read) == normalized(s),
{
    assert(read.drop_first() =~= s.map_values(|r: RecordView| Some(fields_of(r))));
    lemma_kept_rows_of_records(s);
}

} // verus!
