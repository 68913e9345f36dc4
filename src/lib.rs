//! An encrypted store of account records: a passphrase-keyed AEAD envelope
//! around a CSV table, with upsert, delete and account-name lookup.

mod cipher;
mod codec;
mod record;
mod records_ops;
mod store;

pub use cipher::{blake2b256_of, seal_of, SEAL_MAX};
pub use codec::{
    csv_row_of, csv_rows_of, decode_records, decoded, encode_records, encoded, extra_text,
    encoded_bound, lemma_encoded_normalized, record_bound, row_bound, table_bound,
    fields_of, header_fields, joined_rows, kept_rows, record_of_fields, rows_view,
};
pub use record::{
    line_of, listing_of, normalized, normalized_record, padded, view_all, Record, RecordView,
    Records, COLUMN_WIDTH,
};
pub use records_ops::{
    account_names, fan_out, fanned_out, lemma_delete_removes_all, lemma_delete_without_match,
    lemma_delete_commutes, lemma_delete_idempotent, lemma_delete_normalized,
    lemma_delete_undoes_put, lemma_fan_out_single, lemma_normalized_idempotent, lemma_upsert_appends, lemma_upsert_idempotent, lemma_upsert_in_place,
    lemma_upsert_into_empty, remove_account, upsert, upserted, with_account, without_account,
};
pub use store::{
    decrypt, delete_record, encrypt, lemma_put_twice_same_blob, opened, put_record, sealed,
    StoreError, STORE_NONCE,
};
