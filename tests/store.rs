use ngrammatic::{CorpusBuilder, Pad};
use rsafe::{
    account_names, decode_records, decrypt, delete_record, encode_records, encrypt, fan_out,
    put_record, remove_account, upsert, Record, Records, StoreError, STORE_NONCE,
};

const KEY: &[u8] = b"correct horse battery staple";

fn rec(account: &str, username: &str, password: &str, extra: Option<&str>) -> Record {
    Record {
        account: account.to_owned(),
        username: username.to_owned(),
        password: password.to_owned(),
        extra: extra.map(|e| e.to_owned()),
    }
}

fn fields(r: &Record) -> (String, String, String, Option<String>) {
    (r.account.clone(), r.username.clone(), r.password.clone(), r.extra.clone())
}

fn all_fields(rs: &[Record]) -> Vec<(String, String, String, Option<String>)> {
    rs.iter().map(fields).collect()
}

fn search(records: &Vec<Record>, query: &str) -> Records {
    let mut corpus = CorpusBuilder::new().arity(2).pad_full(Pad::Auto).finish();
    for name in account_names(records) {
        corpus.add_text(&name);
    }
    let matched: Vec<String> = corpus.search(query, 0.40).into_iter().map(|r| r.text).collect();
    fan_out(records, &matched)
}

#[test]
fn round_trip_keeps_fields_and_fills_extra() {
    let records = vec![
        rec("github", "me", "pw1", None),
        rec("mail", "me@example.org", "pw, \"quoted\"\nline", Some("pin 1234")),
        rec("bank", "", "", Some("")),
    ];
    let blob = encrypt(KEY, &STORE_NONCE, records).unwrap();
    let back = decrypt(KEY, &STORE_NONCE, &blob).unwrap();
    assert_eq!(
        all_fields(&back),
        all_fields(&[
            rec("github", "me", "pw1", Some("")),
            rec("mail", "me@example.org", "pw, \"quoted\"\nline", Some("pin 1234")),
            rec("bank", "", "", Some("")),
        ])
    );
}

#[test]
fn blob_is_table_plus_tag() {
    let blob = encrypt(KEY, &STORE_NONCE, vec![rec("a", "b", "c", None)]).unwrap();
    let table = b"account,username,password,extra\na,b,c,\n";
    assert_eq!(blob.len(), table.len() + 16);
    assert_ne!(&blob[..table.len()], &table[..]);
}

#[test]
fn empty_collection_seals_empty_table() {
    assert!(encode_records(&vec![]).is_empty());
    let blob = encrypt(KEY, &STORE_NONCE, vec![]).unwrap();
    assert_eq!(blob.len(), 16);
    assert!(decrypt(KEY, &STORE_NONCE, &blob).unwrap().is_empty());
}

#[test]
fn delete_from_empty_store() {
    let blob = delete_record(KEY, &STORE_NONCE, &[], "x").unwrap();
    assert!(!blob.is_empty());
    assert!(decrypt(KEY, &STORE_NONCE, &blob).unwrap().is_empty());
}

#[test]
fn empty_blob_ignores_nonce() {
    assert!(decrypt(KEY, b"short", &[]).unwrap().is_empty());
}

#[test]
fn byte_order_mark_in_account_round_trips() {
    let records = vec![rec("\u{feff}a", "b", "c", None)];
    let blob = encrypt(KEY, &STORE_NONCE, records).unwrap();
    let back = decrypt(KEY, &STORE_NONCE, &blob).unwrap();
    assert_eq!(all_fields(&back), all_fields(&[rec("\u{feff}a", "b", "c", Some(""))]));
}

#[test]
fn delete_twice_and_in_either_order() {
    let blob = encrypt(
        KEY,
        &STORE_NONCE,
        vec![rec("A", "a", "a", None), rec("B", "b", "b", None), rec("C", "c", "c", None)],
    )
    .unwrap();
    let once = delete_record(KEY, &STORE_NONCE, &blob, "B").unwrap();
    let twice = delete_record(KEY, &STORE_NONCE, &once, "B").unwrap();
    assert_eq!(once, twice);
    let ab = delete_record(KEY, &STORE_NONCE, &delete_record(KEY, &STORE_NONCE, &blob, "A").unwrap(), "B")
        .unwrap();
    let ba = delete_record(KEY, &STORE_NONCE, &once, "A").unwrap();
    assert_eq!(ab, ba);
}

#[test]
fn delete_undoes_fresh_put() {
    let records = vec![rec("A", "a", "a", Some("")), rec("B", "b", "b", Some(""))];
    let blob = encrypt(KEY, &STORE_NONCE, records.clone()).unwrap();
    let put = put_record(KEY, &STORE_NONCE, &blob, rec("N", "n", "n", None)).unwrap();
    let back = delete_record(KEY, &STORE_NONCE, &put, "N").unwrap();
    assert_eq!(back, blob);
    assert_eq!(all_fields(&decrypt(KEY, &STORE_NONCE, &back).unwrap()), all_fields(&records));
}

#[test]
fn empty_blob_is_empty_store() {
    let back = decrypt(KEY, &STORE_NONCE, &[]).unwrap();
    assert!(back.is_empty());
    let blob = put_record(KEY, &STORE_NONCE, &[], rec("github", "me", "pw", None)).unwrap();
    let back = decrypt(KEY, &STORE_NONCE, &blob).unwrap();
    assert_eq!(all_fields(&back), all_fields(&[rec("github", "me", "pw", Some(""))]));
}

#[test]
fn put_twice_equals_put_once() {
    let blob = encrypt(KEY, &STORE_NONCE, vec![rec("a", "1", "1", None), rec("b", "2", "2", None)])
        .unwrap();
    let r = rec("b", "new", "secret", Some("x"));
    let once = put_record(KEY, &STORE_NONCE, &blob, r.clone()).unwrap();
    let twice = put_record(KEY, &STORE_NONCE, &once, r).unwrap();
    assert_eq!(once, twice);
    let back = decrypt(KEY, &STORE_NONCE, &twice).unwrap();
    assert_eq!(back.len(), 2);
}

#[test]
fn put_replaces_in_place() {
    let blob = encrypt(
        KEY,
        &STORE_NONCE,
        vec![rec("A", "a", "a", None), rec("B", "b", "b", None), rec("C", "c", "c", None)],
    )
    .unwrap();
    let blob = put_record(KEY, &STORE_NONCE, &blob, rec("B", "b2", "p2", Some("e"))).unwrap();
    let back = decrypt(KEY, &STORE_NONCE, &blob).unwrap();
    assert_eq!(
        all_fields(&back),
        all_fields(&[
            rec("A", "a", "a", Some("")),
            rec("B", "b2", "p2", Some("e")),
            rec("C", "c", "c", Some("")),
        ])
    );
}

#[test]
fn put_new_account_appends() {
    let mut records = vec![rec("A", "a", "a", None)];
    upsert(&mut records, rec("Z", "z", "z", None));
    assert_eq!(all_fields(&records), all_fields(&[rec("A", "a", "a", None), rec("Z", "z", "z", None)]));
}

#[test]
fn put_replaces_first_of_duplicates_only() {
    let mut records = vec![rec("B", "1", "1", None), rec("B", "2", "2", None)];
    upsert(&mut records, rec("B", "3", "3", None));
    assert_eq!(all_fields(&records), all_fields(&[rec("B", "3", "3", None), rec("B", "2", "2", None)]));
}

#[test]
fn delete_removes_every_match() {
    let blob = encrypt(
        KEY,
        &STORE_NONCE,
        vec![
            rec("A", "a", "a", None),
            rec("B", "b", "b", None),
            rec("B", "b2", "b2", None),
            rec("C", "c", "c", None),
        ],
    )
    .unwrap();
    let blob = delete_record(KEY, &STORE_NONCE, &blob, "B").unwrap();
    let back = decrypt(KEY, &STORE_NONCE, &blob).unwrap();
    assert_eq!(
        all_fields(&back),
        all_fields(&[rec("A", "a", "a", Some("")), rec("C", "c", "c", Some(""))])
    );
}

#[test]
fn delete_without_match_keeps_all() {
    let records = vec![rec("A", "a", "a", None), rec("C", "c", "c", None)];
    let kept = remove_account(&records, "B");
    assert_eq!(all_fields(&kept), all_fields(&records));
}

#[test]
fn wrong_passphrase_fails_closed() {
    let blob = encrypt(b"first key", &STORE_NONCE, vec![rec("a", "b", "c", None)]).unwrap();
    assert!(matches!(
        decrypt(b"second key", &STORE_NONCE, &blob),
        Err(StoreError::Authentication)
    ));
    assert!(matches!(
        put_record(b"second key", &STORE_NONCE, &blob, rec("x", "y", "z", None)),
        Err(StoreError::Authentication)
    ));
    assert!(matches!(
        delete_record(b"second key", &STORE_NONCE, &blob, "a"),
        Err(StoreError::Authentication)
    ));
}

#[test]
fn corrupted_blob_fails_closed() {
    let mut blob = encrypt(KEY, &STORE_NONCE, vec![rec("a", "b", "c", None)]).unwrap();
    blob[0] ^= 1;
    assert_eq!(decrypt(KEY, &STORE_NONCE, &blob).unwrap_err(), StoreError::Authentication);
    assert_eq!(decrypt(KEY, &STORE_NONCE, &[1, 2, 3]).unwrap_err(), StoreError::Authentication);
}

#[test]
fn other_nonce_fails_closed() {
    let blob = encrypt(KEY, &STORE_NONCE, vec![rec("a", "b", "c", None)]).unwrap();
    let nonce = *b"safe is sage";
    assert_eq!(decrypt(KEY, &nonce, &blob).unwrap_err(), StoreError::Authentication);
}

#[test]
fn nonce_is_fixed() {
    assert_eq!(&STORE_NONCE, b"safe is safe");
    let a = encrypt(KEY, &STORE_NONCE, vec![rec("a", "b", "c", None)]).unwrap();
    let b = encrypt(KEY, &STORE_NONCE, vec![rec("a", "b", "c", None)]).unwrap();
    assert_eq!(a, b);
}

#[test]
fn fuzzy_threshold_both_sides() {
    let records = vec![rec("github", "me", "pw", None), rec("mail", "me", "pw", None)];
    let hit = search(&records, "githob");
    assert_eq!(hit.0.len(), 1);
    assert_eq!(hit.0[0].account, "github");
    let miss = search(&records, "zzzzzz");
    assert!(miss.0.is_empty());
}

#[test]
fn fuzzy_on_empty_collection() {
    assert!(search(&vec![], "github").0.is_empty());
}

#[test]
fn duplicate_accounts_fan_out() {
    let records = vec![
        rec("foo", "u1", "p1", None),
        rec("bar", "u2", "p2", None),
        rec("foo", "u3", "p3", Some("x")),
    ];
    let found = search(&records, "foo");
    assert_eq!(
        all_fields(&found.0),
        all_fields(&[rec("foo", "u1", "p1", None), rec("foo", "u3", "p3", Some("x"))])
    );
    let blob = encrypt(KEY, &STORE_NONCE, records).unwrap();
    let blob = delete_record(KEY, &STORE_NONCE, &blob, "foo").unwrap();
    let back = decrypt(KEY, &STORE_NONCE, &blob).unwrap();
    assert_eq!(all_fields(&back), all_fields(&[rec("bar", "u2", "p2", Some(""))]));
}

#[test]
fn fan_out_follows_name_order() {
    let records = vec![rec("a", "1", "1", None), rec("b", "2", "2", None), rec("a", "3", "3", None)];
    let out = fan_out(&records, &vec!["b".to_owned(), "a".to_owned(), "c".to_owned()]);
    assert_eq!(
        all_fields(&out.0),
        all_fields(&[rec("b", "2", "2", None), rec("a", "1", "1", None), rec("a", "3", "3", None)])
    );
}

#[test]
fn encode_writes_header_and_rows() {
    let bytes = encode_records(&vec![rec("a", "b", "c", None), rec("x,y", "q\"t", "p", Some("e"))]);
    assert_eq!(
        bytes,
        b"account,username,password,extra\na,b,c,\n\"x,y\",\"q\"\"t\",p,e\n".to_vec()
    );
}

#[test]
fn decode_drops_malformed_rows() {
    let table = b"account,username,password,extra\na,b,c,d\nbad,row\n\xff,b,c,d\ne,f,g,\n";
    let records = decode_records(table);
    assert_eq!(
        all_fields(&records),
        all_fields(&[rec("a", "b", "c", Some("d")), rec("e", "f", "g", Some(""))])
    );
}

#[test]
fn decode_empty_table() {
    assert!(decode_records(b"").is_empty());
    assert!(decode_records(b"account,username,password,extra\n").is_empty());
}

#[test]
fn listing_pads_columns() {
    let r = rec("github", "me", "pw", Some("note"));
    let line = r.line();
    assert_eq!(line, format!("{:20} {:20} {:20} {}", "github", "me", "pw", "note"));
    let long = rec("a-very-long-account-name-indeed", "u", "p", None);
    assert_eq!(long.line(), format!("{:20} {:20} {:20} ", "a-very-long-account-name-indeed", "u", "p"));
    let listing = Records(vec![r, long]).listing();
    assert_eq!(listing.lines().count(), 2);
    assert!(listing.ends_with('\n'));
    assert!(Records(vec![]).listing().is_empty());
}

#[test]
fn row_length_stays_within_bound() {
    let r = rec("\"\"\"", "é,ü\n", "€\"", Some("日本"));
    let chars = |s: &str| s.chars().count();
    let bound = 236 + 8 * (chars("\"\"\"") + chars("é,ü\n") + chars("€\"") + chars("日本")) + 12;
    let bytes = encode_records(&vec![r]);
    assert!(bytes.len() <= bound);
    assert_eq!(&bytes[..32], b"account,username,password,extra\n");
}
