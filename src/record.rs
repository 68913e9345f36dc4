use vstd::prelude::*;

verus! {

/// One secret entry. `account` is the business key of the store.
#[derive(Clone, Debug)]
pub struct Record {
    pub account: String,
    pub username: String,
    pub password: String,
    pub extra: Option<String>,
}

/// The mathematical value of a [`Record`]: its fields as character sequences.
pub struct RecordView {
    pub account: Seq<char>,
    pub username: Seq<char>,
    pub password: Seq<char>,
    pub extra: Option<Seq<char>>,
}

impl View for Record {
    type V = RecordView;

    open spec fn view(&self) -> RecordView {
        RecordView {
            account: self.account@,
            username: self.username@,
            password: self.password@,
            extra: match self.extra {
                Some(e) => Some(e@),
                None => None,
            },
        }
    }
}

/// The views of a sequence of records, position by position.
pub open spec fn view_all(s: Seq<Record>) -> Seq<RecordView> {
    s.map_values(|r: Record| r@)
}

/// A record as it comes back from the store: an absent `extra` reads as present and empty.
pub open spec fn normalized_record(r: RecordView) -> RecordView {
    RecordView {
        extra: Some(
            match r.extra {
                Some(e) => e,
                None => Seq::empty(),
            },
        ),
        ..r
    }
}

pub open spec fn normalized(s: Seq<RecordView>) -> Seq<RecordView> {
    s.map_values(|r: RecordView| normalized_record(r))
}

impl Record {
    /// A field-by-field copy of the record.
    pub fn duplicate(&self) -> (r: Record)
        ensures
            r@ == self@,
    {
        Record {
            account: self.account.clone(),
            username: self.username.clone(),
            password: self.password.clone(),
            extra: match &self.extra {
                Some(e) => Some(e.clone()),
                None => None,
            },
        }
    }
}

/// The width, in characters, of each of the first three columns of a listing.
pub const COLUMN_WIDTH: usize = 20;

/// `s` followed by spaces up to `w` characters; a longer `s` stands as it is.
pub open spec fn padded(s: Seq<char>, w: nat) -> Seq<char> {
    if s.len() >= w {
        s
    } else {
        s + Seq::new((w - s.len()) as nat, |i: int| ' ')
    }
}

/// A record as one line of a listing: account, username and password in
/// columns, then the extra text, absent or not.
pub open spec fn line_of(r: RecordView) -> Seq<char> {
    padded(r.account, COLUMN_WIDTH as nat) + seq![' '] + padded(r.username, COLUMN_WIDTH as nat)
        + seq![' '] + padded(r.password, COLUMN_WIDTH as nat) + seq![' '] + match r.extra {
        Some(e) => e,
        None => Seq::empty(),
    }
}

/// The lines of the records, each ended by a newline.
pub open spec fn listing_of(s: Seq<RecordView>) -> Seq<char>
    decreases s.len(),
{
    if s.len() == 0 {
        Seq::empty()
    } else {
        listing_of(s.drop_last()) + line_of(s.last()) + seq!['\n']
    }
}

fn append_padded(out: &mut String, s: &String)
    ensures
        final(out)@ == old(out)@ + padded(s@, COLUMN_WIDTH as nat),
{
    let ghost start = out@;
    out.append(s.as_str());
    let len = s.as_str().unicode_len();
    if len >= COLUMN_WIDTH {
        return;
    }
    let mut n: usize = len;
    proof {
        reveal_strlit(" ");
    }
    while n < COLUMN_WIDTH
        invariant
            len <= n <= COLUMN_WIDTH,
            len == s@.len(),
            out@ == start + s@ + Seq::new((n - len) as nat, |i: int| ' '),
        decreases COLUMN_WIDTH - n,
    {
        out.append(" ");
        proof {
            reveal_strlit(" ");
        }
        assert(out@ =~= start + s@ + Seq::new((n + 1 - len) as nat, |i: int| ' '));
        n = n + 1;
    }
    assert(out@ =~= start + padded(s@, COLUMN_WIDTH as nat));
}

impl Record {
    /// The record as a line of a listing, without the newline.
    pub fn line(&self) -> (r: String)
        ensures
            r@ == line_of(self@),
    {
        let mut out = String::new();
        append_padded(&mut out, &self.account);
        out.append(" ");
        append_padded(&mut out, &self.username);
        out.append(" ");
        append_padded(&mut out, &self.password);
        out.append(" ");
        match &self.extra {
            Some(e) => out.append(e.as_str()),
            None => {},
        }
        proof {
            reveal_strlit(" ");
        }
        assert(out@ =~= line_of(self@));
        out
    }
}

/// An ordered list of records, as a lookup returns it.
#[derive(Clone, Debug)]
pub struct Records(pub Vec<Record>);

impl Records {
    /// One line per record, each ended by a newline.
    pub fn listing(&self) -> (r: String)
        ensures
            r@ == listing_of(view_all(self.0@)),
    {
        let ghost s = view_all(self.0@);
        let mut out = String::new();
        let mut i: usize = 0;
        proof {
            reveal_strlit("\n");
        }
        while i < self.0.len()
            invariant
                i <= self.0.len(),
                s == view_all(self.0@),
                out@ == listing_of(s.take(i as int)),
            decreases self.0.len() - i,
        {
            assert(s.take(i + 1).drop_last() =~= s.take(i as int));
            let line = self.0[i].line();
            out.append(line.as_str());
            out.append("\n");
            proof {
                reveal_strlit("\n");
            }
            assert(out@ =~= listing_of(s.take(i + 1)));
            i = i + 1;
        }
        assert(s.take(self.0.len() as int) =~= s);
        out
    }
}

} // verus!
