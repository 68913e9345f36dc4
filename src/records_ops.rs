use crate::record::{normalized, normalized_record, view_all, Record, RecordView, Records};
use vstd::prelude::*;

verus! {

/// Upsert keyed on the first record with the same account: that record is
/// replaced where it stands; with no such record, `r` is appended.
pub open spec fn upserted(s: Seq<RecordView>, r: RecordView) -> Seq<RecordView>
    decreases s.len(),
{
    if s.len() == 0 {
        seq![r]
    } else if s[0].account == r.account {
        s.update(0, r)
    } else {
        seq![s[0]] + upserted(s.drop_first(), r)
    }
}

/// The records whose account differs from `a`, in their order.
pub open spec fn without_account(s: Seq<RecordView>, a: Seq<char>) -> Seq<RecordView>
    decreases s.len(),
{
    if s.len() == 0 {
        Seq::empty()
    } else if s.last().account == a {
        without_account(s.drop_last(), a)
    } else {
        without_account(s.drop_last(), a).push(s.last())
    }
}

/// The records whose account is `a`, in their order.
pub open spec fn with_account(s: Seq<RecordView>, a: Seq<char>) -> Seq<RecordView>
    decreases s.len(),
{
    if s.len() == 0 {
        Seq::empty()
    } else if s.last().account == a {
        with_account(s.drop_last(), a).push(s.last())
    } else {
        with_account(s.drop_last(), a)
    }
}

/// For each matched account name in turn, every record that carries it.
pub open spec fn fanned_out(s: Seq<RecordView>, names: Seq<Seq<char>>) -> Seq<RecordView>
    decreases names.len(),
{
    if names.len() == 0 {
        Seq::empty()
    } else {
        fanned_out(s, names.drop_last()) + with_account(s, names.last())
    }
}

/// A record whose account matches no earlier one replaces it in place.
pub proof fn lemma_upsert_in_place(s: Seq<RecordView>, r: RecordView, i: int)
    requires
        0 <= i < s.len(),
        s[i].account == r.account,
        forall|j: int| 0 <= j < i ==> s[j].account != r.account,
    ensures
        upserted(s, r) == s.update(i, r),
    decreases i,
{
    if i > 0 {
        lemma_upsert_in_place(s.drop_first(), r, i - 1);
        assert(upserted(s, r) =~= s.update(i, r));
    }
}

/// A record whose account is new to the collection goes to its end.
pub proof fn lemma_upsert_appends(s: Seq<RecordView>, r: RecordView)
    requires
        forall|j: int| 0 <= j < s.len() ==> s[j].account != r.account,
    ensures
        upserted(s, r) == s.push(r),
    decreases s.len(),
{
    if s.len() > 0 {
        lemma_upsert_appends(s.drop_first(), r);
        assert(upserted(s, r) =~= s.push(r));
    }
}

/// Putting into an empty collection yields the one record.
pub proof fn lemma_upsert_into_empty(r: RecordView)
    ensures
        upserted(Seq::empty(), r) == seq![r],
{
}

/// Putting the same record twice gives the collection that putting it once gives.
pub proof fn lemma_upsert_idempotent(s: Seq<RecordView>, r: RecordView)
    ensures
        upserted(upserted(s, r), r) == upserted(s, r),
    decreases s.len(),
{
    if s.len() == 0 {
        assert(upserted(seq![r], r) =~= seq![r]);
    } else if s[0].account == r.account {
        assert(upserted(s, r).update(0, r) =~= upserted(s, r));
    } else {
        lemma_upsert_idempotent(s.drop_first(), r);
        let u = upserted(s, r);
        assert(u.drop_first() =~= upserted(s.drop_first(), r));
        assert(upserted(u, r) =~= u);
    }
}

/// After a delete no record carries the account; the others keep their order.
pub proof fn lemma_delete_removes_all(s: Seq<RecordView>, a: Seq<char>)
    ensures
        forall|i: int|
            0 <= i < without_account(s, a).len() ==> #[trigger] without_account(s, a)[i].account
                != a,
        without_account(s, a).len() <= s.len(),
    decreases s.len(),
{
    if s.len() > 0 {
        lemma_delete_removes_all(s.drop_last(), a);
    }
}

/// Deleting an account that no record carries leaves the collection as it was.
pub proof fn lemma_delete_without_match(s: Seq<RecordView>, a: Seq<char>)
    requires
        forall|j: int| 0 <= j < s.len() ==> s[j].account != a,
    ensures
        without_account(s, a) == s,
    decreases s.len(),
{
    if s.len() > 0 {
        lemma_delete_without_match(s.drop_last(), a);
        assert(s.drop_last().push(s.last()) =~= s);
    }
}

/// Deleting an account twice leaves what deleting it once leaves.
pub proof fn lemma_delete_idempotent(s: Seq<RecordView>, a: Seq<char>)
    ensures
        without_account(without_account(s, a), a) == without_account(s, a),
{
    lemma_delete_removes_all(s, a);
    lemma_delete_without_match(without_account(s, a), a);
}

/// Two deletes leave the same records in either order.
pub proof fn lemma_delete_commutes(s: Seq<RecordView>, a: Seq<char>, b: Seq<char>)
    ensures
        without_account(without_account(s, a), b) == without_account(without_account(s, b), a),
    decreases s.len(),
{
    if s.len() > 0 {
        lemma_delete_commutes(s.drop_last(), a, b);
        let x = s.last();
        let sa = without_account(s, a);
        let sb = without_account(s, b);
        let pa = without_account(s.drop_last(), a);
        let pb = without_account(s.drop_last(), b);
        if x.account != a {
            assert(sa.drop_last() =~= pa);
        }
        if x.account != b {
            assert(sb.drop_last() =~= pb);
        }
    }
}

/// Deleting an account that a put has just added gives back the collection
/// as it was before the put.
pub proof fn lemma_delete_undoes_put(s: Seq<RecordView>, r: RecordView)
    requires
        forall|j: int| 0 <= j < s.len() ==> s[j].account != r.account,
    ensures
        without_account(upserted(s, r), r.account) == s,
{
    lemma_upsert_appends(s, r);
    lemma_delete_without_match(s, r.account);
    assert(s.push(r).drop_last() =~= s);
}

/// Deleting commutes with reading the records back, which keeps their accounts.
pub proof fn lemma_delete_normalized(s: Seq<RecordView>, a: Seq<char>)
    ensures
        without_account(normalized(s), a) == normalized(without_account(s, a)),
    decreases s.len(),
{
    if s.len() > 0 {
        lemma_delete_normalized(s.drop_last(), a);
        assert(normalized(s).drop_last() =~= normalized(s.drop_last()));
        let w = without_account(s.drop_last(), a);
        assert(normalized(w.push(s.last())) =~= normalized(w).push(normalized_record(s.last())));
    } else {
        assert(normalized(s) =~= Seq::<RecordView>::empty());
        assert(normalized(Seq::<RecordView>::empty()) =~= Seq::<RecordView>::empty());
    }
}

/// Reading back records that were read back changes nothing.
pub proof fn lemma_normalized_idempotent(s: Seq<RecordView>)
    ensures
        normalized(normalized(s)) == normalized(s),
{
    assert(normalized(normalized(s)) =~= normalized(s));
}

/// A lookup that matched one account name returns every record carrying it,
/// and only those.
pub proof fn lemma_fan_out_single(s: Seq<RecordView>, name: Seq<char>)
    ensures
        fanned_out(s, seq![name]) == with_account(s, name),
        forall|i: int|
            0 <= i < fanned_out(s, seq![name]).len() ==> #[trigger] fanned_out(
                s,
                seq![name],
            )[i].account == name,
{
    assert(seq![name].drop_last() =~= Seq::<Seq<char>>::empty());
    assert(fanned_out(s, Seq::empty()) == Seq::<RecordView>::empty());
    assert(fanned_out(s, seq![name]) =~= with_account(s, name));
    lemma_with_account_matches(s, name);
}

proof fn lemma_with_account_matches(s: Seq<RecordView>, a: Seq<char>)
    ensures
        forall|i: int|
            0 <= i < with_account(s, a).len() ==> #[trigger] with_account(s, a)[i].account == a,
    decreases s.len(),
{
    if s.len() > 0 {
        lemma_with_account_matches(s.drop_last(), a);
    }
}

/// Puts `record` in place of the first record with the same account, or
/// appends it when there is none.
pub fn upsert(records: &mut Vec<Record>, record: Record)
    ensures
        view_all(final(records)@) == upserted(view_all(old(records)@), record@),
{
    let ghost s = view_all(records@);
    let mut i: usize = 0;
    while i < records.len()
        invariant
            i <= records.len(),
            records@ == old(records)@,
            s == view_all(records@),
            forall|j: int| 0 <= j < i ==> s[j].account != record@.account,
        decreases records.len() - i,
    {
        if records[i].account == record.account {
            proof {
                lemma_upsert_in_place(s, record@, i as int);
            }
            records.set(i, record);
            assert(view_all(records@) =~= s.update(i as int, record@));
            return;
        }
        i = i + 1;
    }
    proof {
        lemma_upsert_appends(s, record@);
    }
    records.push(record);
    assert(view_all(records@) =~= s.push(record@));
}

/// The records whose account is not `account`, in their order.
pub fn remove_account(records: &Vec<Record>, account: &str) -> (r: Vec<Record>)
    ensures
        view_all(r@) == without_account(view_all(records@), account@),
{
    let ghost s = view_all(records@);
    let account = account.to_owned();
    let mut out: Vec<Record> = Vec::new();
    let mut i: usize = 0;
    while i < records.len()
        invariant
            i <= records.len(),
            s == view_all(records@),
            view_all(out@) == without_account(s.take(i as int), account@),
        decreases records.len() - i,
    {
        assert(s.take(i + 1).drop_last() =~= s.take(i as int));
        if records[i].account != account {
            out.push(records[i].duplicate());
            assert(view_all(out@) =~= without_account(s.take(i as int), account@).push(s[i as int]));
        } else {
            assert(s[i as int].account == account@);
        }
        i = i + 1;
    }
    assert(s.take(records.len() as int) =~= s);
    out
}

/// The account names of the records, in their order: the texts that a lookup indexes.
pub fn account_names(records: &Vec<Record>) -> (r: Vec<String>)
    ensures
        r@.map_values(|n: String| n@) == view_all(records@).map_values(|x: RecordView| x.account),
{
    let mut out: Vec<String> = Vec::new();
    let mut i: usize = 0;
    while i < records.len()
        invariant
            i <= records.len(),
            out@.len() == i,
            forall|j: int| 0 <= j < i ==> #[trigger] out@[j]@ == records@[j].account@,
        decreases records.len() - i,
    {
        out.push(records[i].account.clone());
        i = i + 1;
    }
    assert(out@.map_values(|n: String| n@) =~= view_all(records@).map_values(
        |x: RecordView| x.account,
    ));
    out
}

/// For each matched account name in turn, copies of every record that carries it.
pub fn fan_out(records: &Vec<Record>, names: &Vec<String>) -> (r: Records)
    ensures
        view_all(r.0@) == fanned_out(view_all(records@), names@.map_values(|n: String| n@)),
{
    let ghost s = view_all(records@);
    let ghost ns = names@.map_values(|n: String| n@);
    let mut out: Vec<Record> = Vec::new();
    let mut k: usize = 0;
    while k < names.len()
        invariant
            k <= names.len(),
            s == view_all(records@),
            ns == names@.map_values(|n: String| n@),
            view_all(out@) == fanned_out(s, ns.take(k as int)),
        decreases names.len() - k,
    {
        let name = &names[k];
        let ghost before = view_all(out@);
        assert(ns.take(k + 1).drop_last() =~= ns.take(k as int));
        let mut i: usize = 0;
        while i < records.len()
            invariant
                i <= records.len(),
                k < names.len(),
                name == names[k as int],
                s == view_all(records@),
                view_all(out@) == before + with_account(s.take(i as int), name@),
            decreases records.len() - i,
        {
            assert(s.take(i + 1).drop_last() =~= s.take(i as int));
            if records[i].account == *name {
                let ghost prev = view_all(out@);
                out.push(records[i].duplicate());
                assert(view_all(out@) =~= prev.push(s[i as int]));
                assert(before + with_account(s.take(i as int), name@).push(s[i as int]) =~= (before
                    + with_account(s.take(i as int), name@)).push(s[i as int]));
            }
            i = i + 1;
        }
        assert(s.take(records.len() as int) =~= s);
        k = k + 1;
    }
    assert(ns.take(names.len() as int) =~= ns);
    Records(out)
}

} // verus!
