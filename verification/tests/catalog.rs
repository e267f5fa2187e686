//! Schema catalog tests.

use cabinet::buffer::BufferManager;
use cabinet::disk::Disk;
use cabinet::schema::{
    decode_schema, Column, Relation, Schema, SqlAttribute, SqlType,
};

fn person_schema() -> Schema {
    let name = Column::new(b"name".to_vec(), SqlType::Varchar(128), vec![SqlAttribute::NotNull]);
    let age = Column::new(b"age".to_vec(), SqlType::Integer, vec![SqlAttribute::NotNull]);
    let mut relation = Relation::new(b"Person".to_vec());
    relation.add_column(name);
    relation.add_column(age);
    let mut schema = Schema::new();
    schema.add_relation(relation);
    schema
}

#[test]
fn create_schema() {
    let schema = person_schema();
    let mut manager = BufferManager::new(1024, Disk::new());
    schema.save_to_disk(&mut manager);
    let new_schema = Schema::new_from_disk(&mut manager);
    assert!(new_schema.is_some());
}

#[test]
fn schema_round_trip() {
    // Save, shut the manager down, reopen over the same disk, load:
    // structural equality holds.
    let schema = person_schema();
    let mut manager = BufferManager::new(1024, Disk::new());
    schema.save_to_disk(&mut manager);
    let disk = manager.shutdown();
    let mut manager2 = BufferManager::new(1024, disk);
    let loaded = Schema::new_from_disk(&mut manager2).expect("schema must load");
    assert_eq!(schema, loaded);
}

#[test]
fn encode_decode_round_trip() {
    let schema = person_schema();
    let bytes = schema.encode();
    let decoded = decode_schema(&bytes).expect("valid encoding must decode");
    assert_eq!(schema, decoded);
}

#[test]
fn decode_rejects_garbage() {
    // A blob that is not a schema encoding yields no schema.
    let garbage = vec![0xffu8; 40];
    assert!(decode_schema(&garbage).is_none());
    let short = vec![1u8, 2, 3];
    assert!(decode_schema(&short).is_none());
}

#[test]
fn multi_page_blob_round_trip() {
    // A schema larger than one page crosses the page boundary intact.
    let mut schema = Schema::new();
    for r in 0..40u8 {
        let mut relation = Relation::new(vec![b'r', r]);
        for c in 0..10u8 {
            relation.add_column(Column::new(
                vec![b'c', r, c, c, c, c, c, c, c, c, c, c, c, c, c, c],
                SqlType::Char(c as u64),
                vec![SqlAttribute::Null, SqlAttribute::NotNull],
            ));
        }
        schema.add_relation(relation);
    }
    assert!(schema.encode().len() > 4096);
    let mut manager = BufferManager::new(8, Disk::new());
    schema.save_to_disk(&mut manager);
    let disk = manager.shutdown();
    let mut manager2 = BufferManager::new(8, disk);
    let loaded = Schema::new_from_disk(&mut manager2).expect("schema must load");
    assert_eq!(schema, loaded);
}
