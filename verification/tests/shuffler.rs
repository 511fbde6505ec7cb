use shuffler::batch::Batch;
use shuffler::schema::{ColumnType, Field, Schema};
use shuffler::shuffler::ShufflerBuilder;

fn uint32_schema() -> Schema {
    Schema::new(
        vec![Field::new(String::from("a"), ColumnType::UInt32, false)],
        Vec::new(),
    )
}

fn one_row(v: u64) -> Batch {
    Batch::try_new(uint32_schema(), vec![vec![v]]).unwrap()
}

#[test]
fn test_shuffler() {
    let mut builder = ShufflerBuilder::try_new(uint32_schema(), 4);
    for i in 0..20u64 {
        let batch = one_row(i);
        assert!(builder.accepts(&batch));
        builder.insert((i % 3) as u32, batch);
    }
    let reader = builder.finish();
    let mut total_rows = 0;
    for i in 0..3u32 {
        let batches = reader.key_iter(i).expect("key exists");
        assert_eq!(batches.len(), 2, "key {} has {} batches", i, batches.len());
        for b in &batches {
            total_rows += b.num_rows;
        }
    }
    assert_eq!(total_rows, 20);

    assert!(reader.key_iter(5).is_none());
}

#[test]
fn threshold_flush_splits_groups() {
    // Five single-row inserts with a threshold of four: the fourth insert
    // flushes a four-row group, the fifth is flushed alone by finish.
    let mut builder = ShufflerBuilder::try_new(uint32_schema(), 4);
    for i in 0..5u64 {
        builder.insert(7, one_row(10 + i));
    }
    let reader = builder.finish();
    let batches = reader.key_iter(7).expect("key exists");
    assert_eq!(batches.len(), 2);
    assert_eq!(batches[0].num_rows, 4);
    assert_eq!(batches[0].columns[0], vec![10, 11, 12, 13]);
    assert_eq!(batches[1].num_rows, 1);
    assert_eq!(batches[1].columns[0], vec![14]);
}

#[test]
fn small_key_flushed_once_by_finish() {
    // A key that never reaches the threshold comes back as exactly one
    // group, written by finish.
    let mut builder = ShufflerBuilder::try_new(uint32_schema(), 100);
    builder.insert(1, one_row(5));
    builder.insert(1, one_row(6));
    let reader = builder.finish();
    let batches = reader.key_iter(1).expect("key exists");
    assert_eq!(batches.len(), 1);
    assert_eq!(batches[0].num_rows, 2);
    assert_eq!(batches[0].columns[0], vec![5, 6]);
}

#[test]
fn missing_key_is_none_not_empty() {
    let mut builder = ShufflerBuilder::try_new(uint32_schema(), 4);
    builder.insert(0, one_row(1));
    let reader = builder.finish();
    assert!(reader.key_iter(42).is_none());
    let present = reader.key_iter(0).expect("key exists");
    assert!(!present.is_empty());
}

#[test]
fn repeated_reads_agree() {
    let mut builder = ShufflerBuilder::try_new(uint32_schema(), 3);
    for i in 0..8u64 {
        builder.insert((i % 2) as u32, one_row(i));
    }
    let reader = builder.finish();
    let first = reader.key_iter(1).expect("key exists");
    let second = reader.key_iter(1).expect("key exists");
    assert_eq!(first, second);
}

#[test]
fn partition_isolation() {
    // Every row comes back under the key it was inserted with, and the
    // totals per key add up to everything inserted.
    let mut builder = ShufflerBuilder::try_new(uint32_schema(), 4);
    for i in 0..20u64 {
        builder.insert((i % 3) as u32, one_row(i));
    }
    let reader = builder.finish();
    let mut seen = 0;
    for key in 0..3u32 {
        let batches = reader.key_iter(key).expect("key exists");
        for b in &batches {
            for &v in &b.columns[0] {
                assert_eq!((v % 3) as u32, key);
                seen += 1;
            }
        }
    }
    assert_eq!(seen, 20);
}

#[test]
fn groups_preserve_insertion_order() {
    let mut builder = ShufflerBuilder::try_new(uint32_schema(), 4);
    for i in 0..20u64 {
        builder.insert((i % 3) as u32, one_row(i));
    }
    let reader = builder.finish();
    let batches = reader.key_iter(0).expect("key exists");
    assert_eq!(batches[0].columns[0], vec![0, 3, 6, 9]);
    assert_eq!(batches[1].columns[0], vec![12, 15, 18]);
}

#[test]
fn multi_column_flush_concatenates_per_column() {
    let schema = Schema::new(
        vec![
            Field::new(String::from("a"), ColumnType::UInt64, false),
            Field::new(String::from("b"), ColumnType::Int32, true),
        ],
        Vec::new(),
    );
    let mut builder = ShufflerBuilder::try_new(schema.clone(), 3);
    let b1 = Batch::try_new(schema.clone(), vec![vec![1, 2], vec![10, 20]]).unwrap();
    let b2 = Batch::try_new(schema.clone(), vec![vec![3], vec![30]]).unwrap();
    builder.insert(9, b1);
    builder.insert(9, b2);
    let reader = builder.finish();
    let batches = reader.key_iter(9).expect("key exists");
    assert_eq!(batches.len(), 1);
    assert_eq!(batches[0].num_rows, 3);
    assert_eq!(batches[0].columns[0], vec![1, 2, 3]);
    assert_eq!(batches[0].columns[1], vec![10, 20, 30]);
}

#[test]
fn zero_row_batch_still_marks_key_present() {
    let schema = uint32_schema();
    let empty = Batch::try_new(schema.clone(), vec![vec![]]).unwrap();
    assert_eq!(empty.num_rows, 0);
    let mut builder = ShufflerBuilder::try_new(schema, 4);
    builder.insert(3, empty);
    let reader = builder.finish();
    let batches = reader.key_iter(3).expect("key exists");
    assert_eq!(batches.len(), 1);
    assert_eq!(batches[0].num_rows, 0);
}

#[test]
fn schema_comparison_ignores_metadata() {
    let bare = uint32_schema();
    let tagged = Schema::new(
        vec![Field::new(String::from("a"), ColumnType::UInt32, false)],
        vec![(String::from("origin"), String::from("test"))],
    );
    assert!(bare.logical_eq(&tagged));
    assert!(tagged.logical_eq(&bare));

    let other = Schema::new(
        vec![Field::new(String::from("a"), ColumnType::UInt64, false)],
        Vec::new(),
    );
    assert!(!bare.logical_eq(&other));

    let renamed = Schema::new(
        vec![Field::new(String::from("b"), ColumnType::UInt32, false)],
        Vec::new(),
    );
    assert!(!bare.logical_eq(&renamed));
}

#[test]
fn builder_accepts_checks_schema_and_shape() {
    let builder = ShufflerBuilder::try_new(uint32_schema(), 4);
    let good = one_row(1);
    assert!(builder.accepts(&good));

    let other_schema = Schema::new(
        vec![Field::new(String::from("z"), ColumnType::Boolean, true)],
        Vec::new(),
    );
    let mismatched = Batch::try_new(other_schema, vec![vec![0]]).unwrap();
    assert!(!builder.accepts(&mismatched));
}

#[test]
fn batch_try_new_validates_shape() {
    let schema = Schema::new(
        vec![
            Field::new(String::from("a"), ColumnType::UInt32, false),
            Field::new(String::from("b"), ColumnType::UInt32, false),
        ],
        Vec::new(),
    );
    // Too few columns for the schema.
    assert!(Batch::try_new(schema.clone(), vec![vec![1]]).is_none());
    // Ragged columns.
    assert!(Batch::try_new(schema.clone(), vec![vec![1, 2], vec![3]]).is_none());
    // Consistent.
    let ok = Batch::try_new(schema, vec![vec![1, 2], vec![3, 4]]).unwrap();
    assert_eq!(ok.num_rows, 2);
    assert!(ok.is_consistent());
}

#[test]
fn duplicate_copies_content() {
    let b = Batch::try_new(uint32_schema(), vec![vec![4, 5, 6]]).unwrap();
    let d = b.duplicate();
    assert_eq!(b, d);
}
