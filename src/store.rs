use crate::cipher::{aes256gcm_open, aes256gcm_seal, blake2b256_of, blake2b_256, seal_of, SEAL_MAX};
use crate::codec::{csv_rows_of, decode_records, decoded, encode_records, encoded, encoded_bound, fields_of, header_fields};
use crate::record::{normalized, normalized_record, view_all, Record, RecordView};
use crate::records_ops::{remove_account, upsert, upserted, without_account};
use vstd::prelude::*;

verus! {

/// The nonce of every store: the bytes of "safe is safe". One fixed nonce for
/// every encryption under a key is a known weakness of this file format, kept
/// so that existing stores stay readable.
pub const STORE_NONCE: [u8; 12] = [0x73, 0x61, 0x66, 0x65, 0x20, 0x69, 0x73, 0x20, 0x73, 0x61, 0x66, 0x65];

/// Why a store operation failed.
#[derive(Clone, Copy, Debug, PartialEq, Eq, Structural)]
pub enum StoreError {
    /// The blob does not authenticate under the passphrase and nonce.
    Authentication,
    /// The records could not be serialised or sealed.
    Codec,
}

/// The blob that holds the records `s`: their table sealed under the digest
/// of the passphrase; `None` where the table is too long to seal.
pub open spec fn sealed(pass: Seq<u8>, nonce: Seq<u8>, s: Seq<RecordView>) -> Option<Seq<u8>> {
    if encoded(s).len() <= SEAL_MAX {
        Some(seal_of(blake2b256_of(pass), nonce, encoded(s)))
    } else {
        None
    }
}

/// The records that a blob holds: none for an empty blob; the table inside
/// it when it is a sealing under the passphrase's key of a table that can be
/// sealed; else `None`.
pub open spec fn opened(pass: Seq<u8>, nonce: Seq<u8>, blob: Seq<u8>) -> Option<Seq<RecordView>> {
    if blob.len() == 0 {
        Some(Seq::empty())
    } else if blob.len() <= SEAL_MAX + 16 && exists|p: Seq<u8>|
        p.len() <= SEAL_MAX && blob == #[trigger] seal_of(blake2b256_of(pass), nonce, p) {
        let p = choose|p: Seq<u8>|
            p.len() <= SEAL_MAX && blob == #[trigger] seal_of(blake2b256_of(pass), nonce, p);
        Some(decoded(csv_rows_of(p)))
    } else {
        None
    }
}

/// Serialises the records and seals them under the BLAKE2b-256 digest of `bkey`.
pub fn encrypt(bkey: &[u8], bnonce: &[u8], records: Vec<Record>) -> (r: Result<Vec<u8>, StoreError>)
    requires
        bnonce@.len() == 12,
    ensures
        match sealed(bkey@, bnonce@, view_all(records@)) {
            Some(b) => r is Ok && r->Ok_0@ == b,
            None => r == Err::<Vec<u8>, StoreError>(StoreError::Codec),
        },
        r is Ok ==> r->Ok_0@.len() == encoded(view_all(records@)).len() + 16,
        encoded_bound(view_all(records@)) <= SEAL_MAX ==> r is Ok,
        r is Ok ==> r->Ok_0@.len() > 0,
{
    let plain = encode_records(&records);
    if plain.len() as u64 > SEAL_MAX {
        return Err(StoreError::Codec);
    }
    let key = blake2b_256(bkey);
    match aes256gcm_seal(key.as_slice(), bnonce, plain.as_slice()) {
        Some(locked) => Ok(locked),
        None => Err(StoreError::Codec),
    }
}

/// Opens a blob and parses the records in it. An empty blob holds no records;
/// a blob longer than any sealing of a table fails to authenticate.
pub fn decrypt(bkey: &[u8], bnonce: &[u8], locked_safe: &[u8]) -> (r: Result<Vec<Record>, StoreError>)
    requires
        locked_safe@.len() > 0 ==> bnonce@.len() == 12,
    ensures
        match opened(bkey@, bnonce@, locked_safe@) {
            Some(s) => r is Ok && view_all(r->Ok_0@) == s,
            None => r == Err::<Vec<Record>, StoreError>(StoreError::Authentication),
        },
        0 < locked_safe@.len() <= SEAL_MAX + 16 ==> forall|s: Seq<RecordView>|
            #[trigger] sealed(bkey@, bnonce@, s) == Some(locked_safe@) ==> opened(
                bkey@,
                bnonce@,
                locked_safe@,
            ) == Some(normalized(s)),
{
    if locked_safe.len() == 0 {
        return Ok(Vec::new());
    }
    if locked_safe.len() as u64 > SEAL_MAX + 16 {
        return Err(StoreError::Authentication);
    }
    let key = blake2b_256(bkey);
    let ghost k = blake2b256_of(bkey@);
    let opened_plain = aes256gcm_open(key.as_slice(), bnonce, locked_safe);
    proof {
        lemma_sealings_open(bkey@, bnonce@, locked_safe@, opened_plain);
    }
    match opened_plain {
        None => Err(StoreError::Authentication),
        Some(plain) => {
            let records = decode_records(plain.as_slice());
            let ghost p = choose|p: Seq<u8>|
                p.len() <= SEAL_MAX && locked_safe@ == #[trigger] seal_of(k, bnonce@, p);
            assert(p == plain@);
            Ok(records)
        },
    }
}

/// Opens the blob, puts `record` in place of the first record with the same
/// account (or appends it), and seals the whole collection again.
pub fn put_record(bkey: &[u8], bnonce: &[u8], locked_safe: &[u8], record: Record) -> (r: Result<
    Vec<u8>,
    StoreError,
>)
    requires
        bnonce@.len() == 12,
    ensures
        match opened(bkey@, bnonce@, locked_safe@) {
            None => r == Err::<Vec<u8>, StoreError>(StoreError::Authentication),
            Some(s) => match sealed(bkey@, bnonce@, upserted(s, record@)) {
                Some(b) => r is Ok && r->Ok_0@ == b && b.len() == encoded(upserted(s, record@)).len()
                    + 16,
                None => r == Err::<Vec<u8>, StoreError>(StoreError::Codec),
            },
        },
        opened(bkey@, bnonce@, locked_safe@) is Some && encoded_bound(
            upserted(opened(bkey@, bnonce@, locked_safe@)->0, record@),
        ) <= SEAL_MAX ==> r is Ok,
        r is Ok ==> r->Ok_0@.len() > 0,
        0 < locked_safe@.len() <= SEAL_MAX + 16 ==> forall|s: Seq<RecordView>|
            #[trigger] sealed(bkey@, bnonce@, s) == Some(locked_safe@) ==> opened(
                bkey@,
                bnonce@,
                locked_safe@,
            ) == Some(normalized(s)),
{
    let mut records = decrypt(bkey, bnonce, locked_safe)?;
    upsert(&mut records, record);
    encrypt(bkey, bnonce, records)
}

/// Opens the blob, drops every record whose account is `account`, and seals
/// the rest again in their order.
pub fn delete_record(bkey: &[u8], bnonce: &[u8], locked_safe: &[u8], account: &str) -> (r: Result<
    Vec<u8>,
    StoreError,
>)
    requires
        bnonce@.len() == 12,
    ensures
        match opened(bkey@, bnonce@, locked_safe@) {
            None => r == Err::<Vec<u8>, StoreError>(StoreError::Authentication),
            Some(s) => match sealed(bkey@, bnonce@, without_account(s, account@)) {
                Some(b) => r is Ok && r->Ok_0@ == b && b.len() == encoded(
                    without_account(s, account@),
                ).len() + 16,
                None => r == Err::<Vec<u8>, StoreError>(StoreError::Codec),
            },
        },
        opened(bkey@, bnonce@, locked_safe@) is Some && encoded_bound(
            without_account(opened(bkey@, bnonce@, locked_safe@)->0, account@),
        ) <= SEAL_MAX ==> r is Ok,
        r is Ok ==> r->Ok_0@.len() > 0,
        0 < locked_safe@.len() <= SEAL_MAX + 16 ==> forall|s: Seq<RecordView>|
            #[trigger] sealed(bkey@, bnonce@, s) == Some(locked_safe@) ==> opened(
                bkey@,
                bnonce@,
                locked_safe@,
            ) == Some(normalized(s)),
{
    let records = decrypt(bkey, bnonce, locked_safe)?;
    let kept = remove_account(&records, account);
    encrypt(bkey, bnonce, kept)
}

/// The second of two puts of one record sees the first one's result as it
/// reads back from the blob, and seals the very blob that the first sealed.
pub proof fn lemma_put_twice_same_blob(pass: Seq<u8>, nonce: Seq<u8>, s: Seq<RecordView>, r: RecordView)
    ensures
        sealed(pass, nonce, upserted(normalized(upserted(s, r)), r)) == sealed(
            pass,
            nonce,
            upserted(s, r),
        ),
{
    lemma_upsert_normalized_rows(s, r);
    let a = upserted(normalized(upserted(s, r)), r);
    let b = upserted(s, r);
    assert(seq![header_fields()] + a.map_values(|x: RecordView| fields_of(x)) =~= seq![header_fields()]
        + b.map_values(|x: RecordView| fields_of(x)));
}

/// Upserting into a normalised upsert of the same record writes the same rows.
proof fn lemma_upsert_normalized_rows(s: Seq<RecordView>, r: RecordView)
    ensures
        upserted(normalized(upserted(s, r)), r).map_values(|x: RecordView| fields_of(x))
            == upserted(s, r).map_values(|x: RecordView| fields_of(x)),
    decreases s.len(),
{
    let u = upserted(s, r);
    let nu = normalized(u);
    if s.len() == 0 {
        assert(nu =~= seq![normalized_record(r)]);
        assert(upserted(nu, r) =~= seq![r]);
    } else if s[0].account == r.account {
        assert(upserted(nu, r) =~= nu.update(0, r));
        assert(upserted(nu, r).map_values(|x: RecordView| fields_of(x)) =~= u.map_values(
            |x: RecordView| fields_of(x),
        ));
    } else {
        lemma_upsert_normalized_rows(s.drop_first(), r);
        let t = upserted(s.drop_first(), r);
        assert(u =~= seq![s[0]] + t);
        assert(nu.drop_first() =~= normalized(t));
        assert(nu[0] == normalized_record(s[0]));
        let w = upserted(normalized(t), r);
        assert(upserted(nu, r) =~= seq![nu[0]] + w);
        let left = upserted(nu, r).map_values(|x: RecordView| fields_of(x));
        let right = u.map_values(|x: RecordView| fields_of(x));
        assert(w.map_values(|x: RecordView| fields_of(x)).len() == t.map_values(
            |x: RecordView| fields_of(x),
        ).len());
        assert forall|j: int| 0 <= j < left.len() implies left[j] == right[j] by {
            if j > 0 {
                assert(left[j] == w.map_values(|x: RecordView| fields_of(x))[j - 1]);
                assert(right[j] == t.map_values(|x: RecordView| fields_of(x))[j - 1]);
            } else {
                assert(fields_of(nu[0]) =~= fields_of(s[0]));
            }
        }
        assert(left =~= right);
    }
}

/// What the cipher's contract says of a blob, restated over `sealed` and `opened`.
proof fn lemma_sealings_open(pass: Seq<u8>, nonce: Seq<u8>, blob: Seq<u8>, got: Option<Vec<u8>>)
    requires
        0 < blob.len() <= SEAL_MAX + 16,
        got matches Some(p) ==> blob == seal_of(blake2b256_of(pass), nonce, p@) && p@.len() + 16
            == blob.len(),
        forall|p: Seq<u8>|
            p.len() <= SEAL_MAX && blob == #[trigger] seal_of(blake2b256_of(pass), nonce, p) ==> got is Some
                && got->0@ == p,
    ensures
        got is None ==> opened(pass, nonce, blob) is None,
        got is Some ==> opened(pass, nonce, blob) == Some(decoded(csv_rows_of(got->0@))),
        forall|s: Seq<RecordView>| #[trigger] sealed(pass, nonce, s) == Some(blob) ==> got is Some
            && encoded(s) == got->0@,
{
}

} // verus!
