use icbiadb::bvobject::BvObject;
use icbiadb::bvstring::BvString;
use icbiadb::bytevec::ByteVec;
use icbiadb::kvdb::KvDb;
use icbiadb::icbiadb::IcbiaDB;
use icbiadb::parser;
use icbiadb::reader::Reader;
use icbiadb::slice;
use icbiadb::storage::btreemap::BTreeMap;
use icbiadb::storage::ikv::IndexedVec;
use icbiadb::storage::KvInterface;
use icbiadb::table_types::TableRow;
use icbiadb::tabledb::{Table, TableDb, TableError};
use icbiadb::utils;
use icbiadb::writer::Writer;

fn str_obj(s: &str) -> BvObject {
    let mut raw = (s.len() as u64).to_le_bytes().to_vec();
    raw.extend_from_slice(s.as_bytes());
    BvObject::from_raw(b"str".to_vec(), raw)
}

fn u32_obj(x: u32) -> BvObject {
    BvObject::from_raw(b"u32".to_vec(), x.to_le_bytes().to_vec())
}

fn i64_obj(x: i64) -> BvObject {
    BvObject::from_raw(b"i64".to_vec(), x.to_le_bytes().to_vec())
}

#[test]
fn normalize_canonical_names() {
    assert_eq!(utils::normalize_type_name(b"f32"), b"f64".to_vec());
    assert_eq!(utils::normalize_type_name(b"isize"), b"i64".to_vec());
    assert_eq!(utils::normalize_type_name(b"usize"), b"u64".to_vec());
    assert_eq!(
        utils::normalize_type_name(b"alloc::string::String"),
        b"str".to_vec()
    );
    assert_eq!(utils::normalize_type_name(b"&str"), b"str".to_vec());
    assert_eq!(utils::normalize_type_name(b"&mut i32"), b"i32".to_vec());
    assert_eq!(utils::normalize_type_name(b"u32"), b"u32".to_vec());
}

#[test]
fn normalize_is_idempotent_on_canonical_set() {
    let names: Vec<&[u8]> = vec![
        b"i8", b"i16", b"i32", b"i64", b"i128", b"u8", b"u16", b"u32", b"u64", b"u128", b"f32",
        b"f64", b"str", b"isize", b"usize", b"alloc::string::String",
    ];
    for n in names {
        let once = utils::normalize_type_name(n);
        let twice = utils::normalize_type_name(&once);
        assert_eq!(once, twice);
    }
}

#[test]
fn classification_by_exact_tag() {
    let v = u32_obj(5);
    assert!(v.is_uint());
    assert!(!v.is_int());
    assert!(!v.is_float());
    assert!(!v.is_str());
    let s = str_obj("hello");
    assert!(s.is_str());
    assert!(!s.is_uint());
    let odd = BvObject::from_raw(b"mystery".to_vec(), vec![1, 2, 3]);
    assert!(!odd.is_int() && !odd.is_uint() && !odd.is_float() && !odd.is_str());
}

#[test]
fn numeric_reinterpretation_matches_construction() {
    assert_eq!(u32_obj(0xDEAD_BEEF).as_u32(), 0xDEAD_BEEF);
    assert_eq!(i64_obj(-42).as_i64(), -42);
    let v16 = BvObject::from_raw(b"u16".to_vec(), 777u16.to_le_bytes().to_vec());
    assert_eq!(v16.as_u16(), 777);
    let v128 = BvObject::from_raw(b"u128".to_vec(), 12345678901234567890u128.to_le_bytes().to_vec());
    assert_eq!(v128.as_u128(), 12345678901234567890);
    let vi8 = BvObject::from_raw(b"i8".to_vec(), (-7i8).to_le_bytes().to_vec());
    assert_eq!(vi8.as_i8(), -7);
}

#[test]
fn bincode_agrees_with_raw_layout() {
    // bincode writes integers little-endian and strings with an 8-byte
    // length prefix; the raw layouts used here must match it exactly.
    assert_eq!(bincode::serialize(&5u32).unwrap(), 5u32.to_le_bytes().to_vec());
    assert_eq!(
        bincode::serialize(&"today".to_string()).unwrap(),
        str_obj("today").raw().to_vec()
    );
}

#[test]
fn comparisons_degrade_gracefully() {
    let v = u32_obj(10);
    assert!(v.eq_u32(10));
    assert!(!v.eq_u32(11));
    assert!(v.cmp_u32(4).is_some());
    // an integer-tagged value is unorderable against the signed family
    assert!(v.cmp_i32(10).is_none());
    let s = str_obj("abc");
    assert!(!s.eq_u32(10));
    assert!(s.cmp_u32(10).is_none());
    assert!(s.eq_str("abc"));
    assert!(!s.eq_str("abd"));
    assert!(s.starts_with(b"ab"));
    assert!(s.contains(b"bc"));
    assert!(!u32_obj(7).starts_with(b"ab"));
}

#[test]
fn slice_search_finds_every_occurrence() {
    let v = b"xxabxabxxxab";
    assert_eq!(slice::find(v, b"ab"), Some(2));
    assert_eq!(slice::find_all(v, b"ab"), vec![2, 5, 10]);
    assert!(slice::contains_sequence(v, b"xxx"));
    assert!(!slice::contains_sequence(v, b"zz"));
    assert_eq!(slice::find(v, b"zz"), None);
    assert!(slice::is_zero(&[0, 0, 0]));
    assert!(!slice::is_zero(&[0, 1]));
}

#[test]
fn cursor_walks_and_jumps() {
    let data = [1u8, 2, 3, 4, 5, 6];
    let mut c = icbiadb::cursor::Cursor::new(&data);
    assert_eq!(c.position(), 0);
    assert_eq!(c.next(), 1);
    assert_eq!(c.peek(2), &[2, 3]);
    assert_eq!(c.get(2), &[2, 3]);
    c.jump_forward(1);
    assert_eq!(c.position(), 4);
    c.jump(0);
    assert_eq!(c.remaining_len(), 6);
    c.seek_from_end(2);
    assert_eq!(c.position(), 4);
}

#[test]
fn kv_scanner_skips_payloads_that_hold_the_magic() {
    // Three records; the middle one's value bytes contain the magic
    // sequence itself, which scan-and-skip must jump straight over.
    let mut w = Writer::new();
    w.write_kv_record(&BvString::from_str("alpha"), &u32_obj(1));
    let tricky = BvObject::from_raw(b"blob".to_vec(), vec![1, 30, 120, 1, 30, 120]);
    let first_len = w.buf.len();
    w.write_kv_record(&BvString::from_str("beta"), &tricky);
    let second_len = w.buf.len();
    w.write_kv_record(&BvString::from_str("gamma"), &u32_obj(3));
    let idxs = parser::kv::seqs_find_all(&w.buf, &[1, 30, 120]);
    assert_eq!(idxs, vec![0, first_len, second_len]);
}

#[test]
fn kv_records_extract_back() {
    let mut w = Writer::new();
    w.write_kv_record(&BvString::from_str("one"), &u32_obj(1));
    w.write_kv_record(&BvString::from_str("two"), &str_obj("zwei"));
    let kv: Option<BTreeMap> = parser::kv::extract_records(&w.buf);
    let kv = kv.expect("well-formed region must extract");
    assert!(kv.has_key(b"one"));
    assert!(kv.has_key(b"two"));
    assert!(!kv.has_key(b"three"));
    assert_eq!(kv.get(b"one").unwrap().as_u32(), 1);
    assert!(kv.get(b"two").unwrap().eq_str("zwei"));
}

#[test]
fn kv_header_fields_parse() {
    let mut w = Writer::new();
    w.write_kv_record(&BvString::from_str("key"), &u32_obj(9));
    let (k_len, t_len, v_len) = parser::kv::get_ktv_len(&w.buf).unwrap();
    assert_eq!((k_len, t_len, v_len), (3, 3, 4));
    let (k, v) = parser::kv::extract_single(&w.buf, k_len, t_len, v_len).unwrap();
    assert_eq!(k.as_slice(), b"key");
    assert_eq!(v.as_u32(), 9);
    assert!(parser::kv::get_ktv_len(b"no").is_none());
}

#[test]
fn btreemap_backend_keeps_sorted_order() {
    let mut m = BTreeMap::new_empty();
    m.insert(BvString::from_str("pear"), u32_obj(2));
    m.insert(BvString::from_str("apple"), u32_obj(1));
    m.insert(BvString::from_str("quince"), u32_obj(3));
    assert_eq!(m.len(), 3);
    let out = m.export();
    let names: Vec<&[u8]> = out.iter().map(|e| e.0.as_slice()).collect();
    assert_eq!(names, vec![b"apple".as_ref(), b"pear".as_ref(), b"quince".as_ref()]);
    let removed = m.remove(b"pear");
    assert_eq!(removed.as_u32(), 2);
    assert!(!m.has_key(b"pear"));
    assert_eq!(m.len(), 2);
}

#[test]
fn kvdb_set_get_del() {
    let mut db: KvDb<BTreeMap> = icbiadb::kvdb::mem();
    db.set(b"hello:world", u32_obj(100));
    db.set(b"hello:mars", u32_obj(200));
    assert!(db.has_key(b"hello:world"));
    assert_eq!(db.len(), 2);
    db.set(b"hello:world", u32_obj(101));
    assert_eq!(db.len(), 2);
    assert_eq!(db.get(b"hello:world").unwrap().as_u32(), 101);
    let hits = db.starts_with(b"hello:");
    assert_eq!(hits.len(), 2);
    let m = db.contains(b"mars");
    assert_eq!(m.len(), 1);
    assert_eq!(m[0].0.as_slice(), b"hello:mars");
    let old = db.del(b"hello:mars");
    assert_eq!(old.as_u32(), 200);
    assert_eq!(db.len(), 1);
}

#[test]
fn set_raw_normalizes_the_tag() {
    let mut db: KvDb<BTreeMap> = icbiadb::kvdb::mem();
    db.set_raw(b"n", b"usize", 7u64.to_le_bytes().to_vec());
    let v = db.get(b"n").unwrap();
    assert_eq!(v.type_tag().as_slice(), b"u64");
    assert_eq!(v.as_u64(), 7);
}

fn articles_db() -> TableDb {
    let mut db = TableDb::mem();
    let mut t = Table::new(b"articles");
    t.add_field(b"title", b"str");
    t.option(b"unique", ByteVec::from_vec(vec![1]));
    t.add_field(b"date", b"str");
    db.create(t);
    db
}

fn article(title: &str, date: &str) -> TableRow {
    let mut r = TableRow::new();
    r.set_col(b"title", str_obj(title));
    r.set_col(b"date", str_obj(date));
    r
}

#[test]
fn uniqueness_is_enforced() {
    let mut db = articles_db();
    assert!(db.insert_row(b"articles", article("A", "today")).is_ok());
    assert!(db.insert_row(b"articles", article("B", "today")).is_ok());
    let r = db.insert_row(b"articles", article("A", "yesterday"));
    assert_eq!(r, Err(TableError::UniqueViolation));
    let idx = db.find(b"articles").unwrap();
    assert_eq!(db.rows_at(idx).len(), 2);
}

#[test]
fn schema_violations_are_reported() {
    let mut db = articles_db();
    let mut bad_type = TableRow::new();
    bad_type.set_col(b"title", u32_obj(5));
    bad_type.set_col(b"date", str_obj("today"));
    assert_eq!(
        db.insert_row(b"articles", bad_type),
        Err(TableError::TypeMismatch)
    );
    let mut missing = TableRow::new();
    missing.set_col(b"title", str_obj("A"));
    assert_eq!(
        db.insert_row(b"articles", missing),
        Err(TableError::MissingField)
    );
    assert_eq!(
        db.insert_row(b"nope", article("A", "today")),
        Err(TableError::NoSuchTable)
    );
    let idx = db.find(b"articles").unwrap();
    assert_eq!(db.rows_at(idx).len(), 0);
}

#[test]
fn empty_image_reads_as_empty_store() {
    let bytes: Vec<u8> = Vec::new();
    let r = Reader::new(&bytes);
    assert!(r.is_empty());
    let mut r = Reader::new(&bytes);
    assert!(r.read_header().is_none());
}

#[test]
fn back_patch_points_at_rows_magic() {
    let mut db = IcbiaDB::mem();
    db.tables = articles_db();
    db.tables.insert_row(b"articles", article("A", "today")).unwrap();
    let bytes = db.to_file_bytes();
    let mut r = Reader::new(&bytes);
    let (tl, _kl, _rl) = r.read_header().unwrap();
    let defs = &bytes[20..20 + tl as usize];
    let recs = parser::table::extract_tables(defs).unwrap();
    assert_eq!(recs.len(), 1);
    let (name, _fields, rstart, rlen, rcount) = (
        &recs[0].0,
        &recs[0].1,
        recs[0].2,
        recs[0].3,
        recs[0].4,
    );
    assert_eq!(name.as_slice(), b"articles");
    assert_eq!(rcount, 1);
    assert!(rlen > 0);
    let start = rstart as usize;
    assert_eq!(&bytes[start..start + 3], &[2, 30, 120]);
}

#[test]
fn whole_store_round_trips() {
    let mut db = IcbiaDB::mem();
    db.kvs.set(b"greeting", str_obj("hello"));
    db.kvs.set(b"count", u32_obj(4));
    db.tables = articles_db();
    db.tables.insert_row(b"articles", article("A", "today")).unwrap();
    db.tables.insert_row(b"articles", article("B", "today")).unwrap();
    let bytes = db.to_file_bytes();

    // header
    let mut r = Reader::new(&bytes);
    let (tl, kl, rl) = r.read_header().unwrap();
    assert_eq!(20 + tl as usize + kl as usize + rl as usize, bytes.len());

    // table definitions with back-patched row metadata
    let defs = &bytes[20..20 + tl as usize];
    let recs = parser::table::extract_tables(defs).unwrap();
    assert_eq!(recs.len(), 1);
    assert_eq!(recs[0].0.as_slice(), b"articles");
    assert_eq!(recs[0].4, 2);
    let fields = icbiadb::codec::decode_field_map(recs[0].1.as_slice()).unwrap();
    assert!(fields.contains_key(b"title"));
    assert!(fields.contains_key(b"date"));
    let ti = fields.find(b"title").unwrap();
    assert!(fields.opts_at(ti).contains_key(b"unique"));

    // key-value records
    let kv_bytes = &bytes[20 + tl as usize..20 + tl as usize + kl as usize];
    let kv: BTreeMap = parser::kv::extract_records(kv_bytes).unwrap();
    assert_eq!(kv.len(), 2);
    assert!(kv.get(b"greeting").unwrap().eq_str("hello"));
    assert_eq!(kv.get(b"count").unwrap().as_u32(), 4);

    // table rows at the patched offset
    let start = recs[0].2 as usize;
    let len = recs[0].3 as usize;
    let rows = parser::rows::extract_rows(&bytes[start..start + len]).unwrap();
    assert_eq!(rows.len(), 2);
    for row in &rows {
        assert!(row.get(b"date").unwrap().eq_str("today"));
    }
    assert!(rows[0].get(b"title").unwrap().eq_str("A"));
    assert!(rows[1].get(b"title").unwrap().eq_str("B"));
}

#[test]
fn empty_tables_keep_zero_placeholders() {
    let mut db = IcbiaDB::mem();
    db.tables = articles_db();
    let bytes = db.to_file_bytes();
    let mut r = Reader::new(&bytes);
    let (tl, kl, rl) = r.read_header().unwrap();
    assert_eq!(kl, 0);
    assert_eq!(rl, 0);
    let recs = parser::table::extract_tables(&bytes[20..20 + tl as usize]).unwrap();
    assert_eq!(recs[0].2, 0);
    assert_eq!(recs[0].3, 0);
    assert_eq!(recs[0].4, 0);
}

#[test]
fn row_codec_round_trips() {
    let row = article("Title", "today");
    let bytes = icbiadb::codec::encode_row_body(&row);
    let back = icbiadb::codec::decode_row_body(&bytes).unwrap();
    assert_eq!(back.len(), 2);
    assert!(back.get(b"title").unwrap().eq_str("Title"));
    assert!(back.get(b"date").unwrap().eq_str("today"));
    assert!(icbiadb::codec::decode_row_body(b"short").is_none());
}

#[test]
fn bvstring_order_and_search() {
    let a = BvString::from_str("apple");
    let b = BvString::from_str("applesauce");
    assert_eq!(a.cmp_bvstring(&b), core::cmp::Ordering::Less);
    assert_eq!(b.cmp_bvstring(&a), core::cmp::Ordering::Greater);
    assert_eq!(a.cmp_bvstring(&a.duplicate()), core::cmp::Ordering::Equal);
    assert!(b.starts_with(b"apple"));
    assert!(b.ends_with(b"sauce"));
    assert!(b.contains(b"les"));
    assert!(a.eq_str("apple"));
}

#[test]
fn bytevec_reads_leading_bytes() {
    let v = ByteVec::from_vec(vec![0xEF, 0xBE, 0xAD, 0xDE, 1, 2, 3, 4, 5, 6, 7, 8, 9, 10, 11, 12]);
    assert_eq!(v.as_u32(), 0xDEAD_BEEF);
    assert_eq!(v.as_u16(), 0xBEEF);
    assert_eq!(v.as_u8(), 0xEF);
    assert!(v.eq_u32(0xDEAD_BEEF));
    assert_eq!(v.cmp_u32(0xDEAD_BEEF), core::cmp::Ordering::Equal);
    assert_eq!(v.cmp_u32(0xDEAD_BEF0), core::cmp::Ordering::Less);
}

#[test]
fn incr_and_decr_dispatch_on_the_tag() {
    let mut db: KvDb<BTreeMap> = icbiadb::kvdb::mem();
    db.incr(b"counter");
    let v = db.get(b"counter").unwrap();
    assert_eq!(v.type_tag().as_slice(), b"i64");
    assert_eq!(v.as_i64(), 1);
    db.incr(b"counter");
    db.incr(b"counter");
    assert_eq!(db.get(b"counter").unwrap().as_i64(), 3);
    db.decr(b"counter");
    assert_eq!(db.get(b"counter").unwrap().as_i64(), 2);

    db.set(b"u8c", BvObject::from_raw(b"u8".to_vec(), vec![255]));
    db.incr(b"u8c");
    assert_eq!(db.get(b"u8c").unwrap().as_u8(), 0);

    // a non-numeric value is left unchanged
    db.set(b"name", str_obj("x"));
    db.incr(b"name");
    assert!(db.get(b"name").unwrap().eq_str("x"));
}

#[test]
fn get_str_views_the_payload() {
    let mut db: KvDb<BTreeMap> = icbiadb::kvdb::mem();
    db.set(b"s", str_obj("payload"));
    let s = db.get_str(b"s").unwrap();
    assert!(s.eq_str("payload"));
    assert_eq!(s.len(), 7);
    assert!(db.get_str(b"missing").is_none());
}

#[test]
fn query_projects_selected_fields() {
    let mut db = articles_db();
    db.insert_row(b"articles", article("A", "today")).unwrap();
    db.insert_row(b"articles", article("B", "today")).unwrap();
    let q = db.query(b"articles").unwrap();
    let mut q = q;
    q.select(vec![BvString::from_str("title")]);
    let hits = q.collect();
    assert_eq!(hits.len(), 2);
    assert!(hits[0].get(b"title").unwrap().eq_str("A"));
    assert!(hits[0].get(b"date").is_none());
}

#[test]
fn indexed_vec_backend_keeps_insertion_order() {
    let mut m = IndexedVec::new_empty();
    m.insert(BvString::from_str("pear"), u32_obj(2));
    m.insert(BvString::from_str("apple"), u32_obj(1));
    assert_eq!(m.len(), 2);
    assert_eq!(m.indexes_len(), 2);
    assert!(m.has_key(b"apple"));
    assert_eq!(m.get(b"pear").unwrap().as_u32(), 2);
    let out = m.export();
    assert_eq!(out[0].0.as_slice(), b"pear");
    assert_eq!(out[1].0.as_slice(), b"apple");
    let removed = m.remove(b"pear");
    assert_eq!(removed.as_u32(), 2);
    assert!(!m.has_key(b"pear"));

    // the same records decode into either backend with equal contents
    let mut w = Writer::new();
    w.write_kv_record(&BvString::from_str("a"), &u32_obj(1));
    w.write_kv_record(&BvString::from_str("b"), &u32_obj(2));
    let iv: IndexedVec = parser::kv::extract_records(&w.buf).unwrap();
    let bt: BTreeMap = parser::kv::extract_records(&w.buf).unwrap();
    assert_eq!(iv.get(b"a").unwrap().as_u32(), bt.get(b"a").unwrap().as_u32());
    assert_eq!(iv.get(b"b").unwrap().as_u32(), bt.get(b"b").unwrap().as_u32());
}

#[test]
fn import_replaces_all_entries() {
    let mut db: KvDb<BTreeMap> = icbiadb::kvdb::mem();
    db.set(b"old", u32_obj(1));
    db.import(vec![
        (BvString::from_str("x"), u32_obj(10)),
        (BvString::from_str("y"), u32_obj(20)),
    ]);
    assert!(!db.has_key(b"old"));
    assert_eq!(db.get(b"x").unwrap().as_u32(), 10);
    assert_eq!(db.get(b"y").unwrap().as_u32(), 20);
    let exported = db.export();
    assert_eq!(exported.len(), 2);
}

#[test]
fn swap_keeps_tag_and_width() {
    let mut db: KvDb<BTreeMap> = icbiadb::kvdb::mem();
    db.set(b"n", u32_obj(1));
    let old = db.swap(b"n", u32_obj(2)).unwrap();
    assert_eq!(old.as_u32(), 1);
    assert_eq!(db.get(b"n").unwrap().as_u32(), 2);
    // a different tag or width is refused
    assert!(db.swap(b"n", str_obj("no")).is_none());
    assert_eq!(db.get(b"n").unwrap().as_u32(), 2);
    assert!(db.swap(b"missing", u32_obj(1)).is_none());
}

#[test]
fn split_separates_pieces() {
    let pieces = slice::split(b"a,bb,ccc", b",");
    assert_eq!(pieces.len(), 3);
    assert_eq!(pieces[0], b"a".to_vec());
    assert_eq!(pieces[1], b"bb".to_vec());
    assert_eq!(pieces[2], b"ccc".to_vec());
    assert_eq!(slice::split(b"ab", b"abc").len(), 0);
}

#[test]
fn read_file_rebuilds_the_store() {
    let mut db = IcbiaDB::mem();
    db.kvs.set(b"greeting", str_obj("hello"));
    db.kvs.set(b"count", u32_obj(4));
    db.tables = articles_db();
    db.tables.insert_row(b"articles", article("A", "today")).unwrap();
    db.tables.insert_row(b"articles", article("B", "today")).unwrap();
    let bytes = db.try_to_file_bytes().expect("store fits the format");

    let loaded = IcbiaDB::from_file_bytes(&bytes).expect("own image must load");
    assert_eq!(loaded.kvs.len(), 2);
    assert!(loaded.kvs.get(b"greeting").unwrap().eq_str("hello"));
    assert_eq!(loaded.kvs.get(b"count").unwrap().as_u32(), 4);
    let idx = loaded.tables.find(b"articles").unwrap();
    let rows = loaded.tables.rows_at(idx);
    assert_eq!(rows.len(), 2);
    assert!(rows[0].get(b"title").unwrap().eq_str("A"));
    assert!(rows[1].get(b"title").unwrap().eq_str("B"));
    for row in rows {
        assert!(row.get(b"date").unwrap().eq_str("today"));
    }
    let fm = loaded.tables.map(b"articles").unwrap();
    let ti = fm.find(b"title").unwrap();
    assert!(fm.opts_at(ti).contains_key(b"unique"));

    // a loaded store accepts further work: the unique constraint still
    // guards the reloaded rows
    let mut loaded = loaded;
    assert_eq!(
        loaded.tables.insert_row(b"articles", article("A", "yesterday")),
        Err(TableError::UniqueViolation)
    );
    assert!(loaded.tables.insert_row(b"articles", article("C", "later")).is_ok());

    // and an empty image is an empty store, not an error
    let empty = IcbiaDB::from_file_bytes(&[]).expect("empty image is an empty store");
    assert_eq!(empty.kvs.len(), 0);
    assert_eq!(empty.tables.maps.len(), 0);
}

#[test]
fn insert_many_is_all_or_nothing() {
    let mut db = articles_db();
    db.insert_row(b"articles", article("A", "today")).unwrap();
    // second batch row collides with an existing row: nothing is kept
    let batch = vec![article("B", "today"), article("A", "again")];
    let r = db.insert_many(b"articles", batch);
    assert_eq!(r, Err(TableError::UniqueViolation));
    let idx = db.find(b"articles").unwrap();
    assert_eq!(db.rows_at(idx).len(), 1);
    // a clean batch goes in whole, in order
    let batch = vec![article("B", "today"), article("C", "later")];
    assert!(db.insert_many(b"articles", batch).is_ok());
    let rows = db.rows_at(idx);
    assert_eq!(rows.len(), 3);
    assert!(rows[1].get(b"title").unwrap().eq_str("B"));
    assert!(rows[2].get(b"title").unwrap().eq_str("C"));
    assert!(db.insert_many(b"missing", vec![]).is_err());
}

#[test]
fn set_many_later_pair_wins() {
    let mut db: KvDb<BTreeMap> = icbiadb::kvdb::mem();
    db.set(b"a", u32_obj(0));
    db.set_many(vec![
        (BvString::from_str("a"), u32_obj(1)),
        (BvString::from_str("b"), u32_obj(2)),
        (BvString::from_str("a"), u32_obj(3)),
    ]);
    assert_eq!(db.get(b"a").unwrap().as_u32(), 3);
    assert_eq!(db.get(b"b").unwrap().as_u32(), 2);
    assert_eq!(db.len(), 2);
}

#[test]
fn string_suffix_tests_use_the_payload() {
    let s = str_obj("ending");
    assert!(s.ends_with(b"ing"));
    assert!(s.ends_with(b"ending"));
    assert!(!s.ends_with(b"end"));
    assert!(!u32_obj(7).ends_with(b"ing"));
}

#[test]
fn table_remove_spares_other_tables() {
    let mut db = articles_db();
    let mut t = Table::new(b"notes");
    t.add_field(b"body", b"str");
    db.create(t);
    db.insert_row(b"articles", article("A", "today")).unwrap();
    db.remove(b"articles");
    assert!(!db.has_table(b"articles"));
    assert!(db.has_table(b"notes"));
    db.remove(b"never-there");
    assert!(db.has_table(b"notes"));
}

#[test]
fn builder_option_attaches_to_the_current_field() {
    let mut t = Table::new(b"articles");
    t.add_field(b"title", b"str");
    t.option(b"unique", ByteVec::from_vec(vec![1]));
    t.add_field(b"date", b"str");
    let fm = t.fields();
    let ti = fm.find(b"title").unwrap();
    assert!(fm.opts_at(ti).contains_key(b"unique"));
    assert!(fm.opts_at(ti).contains_key(b"type"));
    let di = fm.find(b"date").unwrap();
    assert!(!fm.opts_at(di).contains_key(b"unique"));
    // replacing an option keeps one entry of that name
    let mut t2 = Table::new(b"x");
    t2.add_field(b"f", b"u32");
    t2.option(b"unique", ByteVec::from_vec(vec![0]));
    t2.option(b"unique", ByteVec::from_vec(vec![1]));
    let fi = t2.fields().find(b"f").unwrap();
    assert_eq!(t2.fields().opts_at(fi).len(), 2);
    assert_eq!(t2.fields().opts_at(fi).get(b"unique").unwrap().as_u8(), 1);
}

#[test]
fn oversized_stores_are_refused_before_writing() {
    let mut db = IcbiaDB::mem();
    db.kvs.set(b"ok", u32_obj(1));
    assert!(db.can_commit());
    // a key longer than 255 bytes cannot fit its one-byte length field
    let long_key = vec![107u8; 300];
    db.kvs.set(&long_key, u32_obj(2));
    assert!(!db.can_commit());
    assert!(db.try_to_file_bytes().is_none());
}

#[test]
fn typed_constructors_round_trip_through_accessors() {
    assert_eq!(BvObject::from_u8(250).as_u8(), 250);
    assert_eq!(BvObject::from_i8(-3).as_i8(), -3);
    assert_eq!(BvObject::from_u16(65000).as_u16(), 65000);
    assert_eq!(BvObject::from_i16(-12345).as_i16(), -12345);
    assert_eq!(BvObject::from_u32(0xCAFE_F00D).as_u32(), 0xCAFE_F00D);
    assert_eq!(BvObject::from_i32(-7_654_321).as_i32(), -7_654_321);
    assert_eq!(BvObject::from_u64(1u64 << 53).as_u64(), 1u64 << 53);
    assert_eq!(BvObject::from_i64(i64::MIN).as_i64(), i64::MIN);
    assert_eq!(BvObject::from_u128(u128::MAX - 5).as_u128(), u128::MAX - 5);
    assert_eq!(BvObject::from_i128(-1).as_i128(), -1);
    let s = BvObject::from_str_value("hello");
    assert!(s.is_str());
    assert!(s.eq_str("hello"));
    // the constructors' layouts agree with bincode's
    assert_eq!(
        BvObject::from_u32(9).raw().to_vec(),
        bincode::serialize(&9u32).unwrap()
    );
    assert_eq!(
        BvObject::from_str_value("today").raw().to_vec(),
        bincode::serialize(&"today".to_string()).unwrap()
    );
    assert!(BvObject::from_u32(7).is_uint());
    assert!(BvObject::from_i64(7).is_int());
}
