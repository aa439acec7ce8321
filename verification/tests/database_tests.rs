use kd_tree::data::{CompoundIdentifier, CompoundRecord, Descriptor};
use kd_tree::database::{Database, DatabaseRecord, ImmutDatabase, DATABASE_ENTRY_SIZE};
use kd_tree::error::Error;

fn entry(smiles: &str, identifier: &str) -> DatabaseRecord {
    DatabaseRecord {
        smiles: smiles.to_string(),
        identifier: CompoundIdentifier::from_str(identifier).unwrap(),
    }
}

#[test]
fn small_random_db() {
    let mut database = Database::new();

    let mut entries: Vec<DatabaseRecord> = Vec::new();

    for _ in 0..10000 {
        let entry = DatabaseRecord::random();
        entries.push(entry);
    }

    let mut reported_entries: Vec<(u64, DatabaseRecord)> = Vec::new();

    for entry in entries.iter() {
        let idx = database.add_entry(entry);
        reported_entries.push((idx.unwrap() as u64, entry.clone()));
    }

    for (idx, entry) in reported_entries.into_iter() {
        let queried_entry = database.query(&idx).unwrap();
        assert_eq!(queried_entry, entry);
    }

    let reopened = Database::open(&database.file).unwrap();
    assert_eq!(reopened.num_entries(), 10000);
}

#[test]
fn random_entries_are_twenty_letters_and_digits() {
    let a = DatabaseRecord::random();
    let b = DatabaseRecord::random();
    assert_eq!(a.smiles.len(), 20);
    assert!(a.smiles.chars().all(|c| c.is_ascii_alphanumeric()));
    assert!(a.identifier.0.iter().all(|b| (65..91).contains(b)));
    assert_ne!(a, b);
}

#[test]
fn database_file_follows_the_layout() {
    let mut database = Database::new();
    assert_eq!(database.file, vec![0u8; 8]);
    assert_eq!(database.num_entries(), 0);

    assert_eq!(database.add_entry(&entry("CCO", "ETHANOL")), Ok(0));
    assert_eq!(database.file.len(), 138);
    assert_eq!(&database.file[0..8], &[1, 0, 0, 0, 0, 0, 0, 0]);
    assert_eq!(&database.file[8..11], b"CCO");
    assert!(database.file[11..108].iter().all(|b| *b == 0));
    assert_eq!(&database.file[108..115], b"ETHANOL");
    assert!(database.file[115..138].iter().all(|b| *b == 0));

    assert_eq!(database.add_entry(&entry("c1ccccc1", "BENZENE")), Ok(1));
    assert_eq!(database.file.len(), 2 * 138);
    assert_eq!(&database.file[0..8], &[2, 0, 0, 0, 0, 0, 0, 0]);
    assert_eq!(&database.file[138..146], &[0u8; 8]);
    assert_eq!(&database.file[146..154], b"c1ccccc1");
    assert_eq!(&database.file[246..253], b"BENZENE");
    assert_eq!(&database.file[8..11], b"CCO");
    assert_eq!(DATABASE_ENTRY_SIZE, 138);

    for _ in 0..300 {
        database.add_entry(&entry("C", "M")).unwrap();
    }
    assert_eq!(&database.file[0..8], &[46, 1, 0, 0, 0, 0, 0, 0]);
    assert_eq!(database.num_entries(), 302);
}

#[test]
fn entries_come_back_by_index() {
    let mut database = Database::new();
    let given = vec![entry("CCO", "ETHANOL"), entry("", ""), entry(&"C".repeat(100), &"I".repeat(30))];
    for (i, e) in given.iter().enumerate() {
        assert_eq!(database.add_entry(e), Ok(i as u64));
    }
    for (i, e) in given.iter().enumerate() {
        assert_eq!(database.query(&(i as u64)), Ok(e.clone()));
    }
    assert_eq!(database.query(&3), Err(Error::KeyNotFound));
    assert_eq!(database.query(&u64::MAX), Err(Error::KeyNotFound));

    let read_only = ImmutDatabase::open(&database.file).unwrap();
    assert_eq!(read_only.num_entries, 3);
    assert_eq!(read_only.query(&0), Ok(given[0].clone()));
    assert_eq!(read_only.query(&2), Ok(given[2].clone()));
    assert_eq!(read_only.query(&3), Err(Error::KeyNotFound));
}

#[test]
fn too_long_text_is_refused_and_nothing_is_written() {
    let mut database = Database::new();
    database.add_entry(&entry("CCO", "ETHANOL")).unwrap();
    let before = database.file.clone();
    assert_eq!(database.add_entry(&entry(&"C".repeat(101), "X")), Err(Error::PayloadTooLarge));
    assert_eq!(database.file, before);
    assert_eq!(database.num_entries(), 1);
    assert_eq!(entry(&"C".repeat(101), "X").to_arr(), Err(Error::PayloadTooLarge));
    assert!(entry(&"C".repeat(100), "X").to_arr().is_ok());
    assert_eq!(entry("\u{e9}".repeat(51).as_str(), "X").to_arr(), Err(Error::PayloadTooLarge));
}

#[test]
fn add_compound_record_stores_text_and_identifier() {
    let mut database = Database::new();
    let record = CompoundRecord::new(
        0,
        "CCO".to_string(),
        CompoundIdentifier::from_str("ETHANOL").unwrap(),
        Descriptor::from_vec(vec![0, 0], 2),
        2,
    );
    assert_eq!(database.add_compound_record(&record), Ok(0));
    assert_eq!(database.add_compound_record(&record), Ok(1));
    assert_eq!(database.query(&1), Ok(entry("CCO", "ETHANOL")));
    assert_eq!(DatabaseRecord::from(record.clone()), entry("CCO", "ETHANOL"));
}

#[test]
fn stored_entry_round_trip_and_its_limits() {
    let e = entry("CCO", "ETHANOL");
    let arr = e.to_arr().unwrap();
    assert_eq!(DatabaseRecord::from_arr(arr), Ok(e));

    let mut leading_zero_identifier = [0u8; 30];
    leading_zero_identifier[1] = 65;
    let odd = DatabaseRecord {
        smiles: "\0C".to_string(),
        identifier: CompoundIdentifier(leading_zero_identifier),
    };
    assert_eq!(DatabaseRecord::from_arr(odd.to_arr().unwrap()), Ok(odd));

    let ends_in_zero = entry("CC\0", "X");
    assert_eq!(DatabaseRecord::from_arr(ends_in_zero.to_arr().unwrap()), Ok(entry("CC", "X")));

    let not_ascii = entry("C\u{e9}", "X");
    assert_eq!(DatabaseRecord::from_arr(not_ascii.to_arr().unwrap()), Err(Error::CorruptPage));
    let mut database = Database::new();
    assert_eq!(database.add_entry(&not_ascii), Ok(0));
    assert_eq!(database.query(&0), Err(Error::CorruptPage));
}

#[test]
fn files_that_are_no_database_do_not_open() {
    assert_eq!(Database::open(&[0u8; 7]).err(), Some(Error::CorruptPage));
    assert_eq!(Database::open(&[0u8; 9]).err(), Some(Error::CorruptPage));
    assert!(Database::open(&[0u8; 8]).is_ok());
    let mut file = vec![0u8; 2 * 138];
    file[0] = 2;
    assert_eq!(Database::open(&file).unwrap().num_entries(), 2);
    file[0] = 3;
    assert_eq!(Database::open(&file).err(), Some(Error::CorruptPage));
    file[0] = 2;
    file.push(0);
    assert_eq!(Database::open(&file).err(), Some(Error::CorruptPage));
    assert_eq!(ImmutDatabase::open(&file).err(), Some(Error::CorruptPage));
}
