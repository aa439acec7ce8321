use kd_tree::data::Descriptor;
use kd_tree::error::Error;
use kd_tree::page::{geometry_is_valid, PageType, RecordPage};
use kd_tree::record::TreeRecord;

fn record(index: u64, values: &[f32]) -> TreeRecord {
    let data: Vec<u32> = values.iter().map(|x| x.to_bits()).collect();
    let length = data.len();
    TreeRecord { index, descriptor: Descriptor::from_vec(data, length), length }
}

#[test]
fn page_quick_test_new_leafpage_works() {
    let n = 8;
    let record_page_length = 4096;
    let _lp = RecordPage::new(record_page_length, n);
}

#[test]
fn page_quick_add_compound_record() {
    let n = 8;
    let record_page_length = 4096;
    let mut lp = RecordPage::new(record_page_length, n);

    let cr = TreeRecord::default(n);

    lp.add_record(&cr).unwrap();
    assert_eq!(lp.len(), 1);

    let cr = TreeRecord::default(n);
    lp.add_record(&cr).unwrap();
    assert_eq!(lp.len(), 2);

    let cr = TreeRecord::default(n);
    lp.add_record(&cr).unwrap();
    let cr = TreeRecord::default(n);
    lp.add_record(&cr).unwrap();
    assert_eq!(lp.len(), 4);
}

#[test]
fn page_quick_test_get_capacity() {
    let n = 8;
    let record_page_length = 4096;
    let mut lp = RecordPage::new(record_page_length, n);

    for i in 0..100 {
        let cr = TreeRecord::default(n);
        let result = lp.add_record(&cr);

        match result {
            Ok(_) => {}
            Err(_) => {
                assert_eq!(lp.get_capacity(), i);
                break;
            }
        }
    }
}

#[test]
fn capacity_is_room_after_header_over_slot_size() {
    assert_eq!(RecordPage::new(4096, 8).get_capacity(), (4096 - 6) / (8 + 4 * 8));
    assert_eq!(RecordPage::new(4096, 8).get_capacity(), 102);
    assert_eq!(RecordPage::new(65536, 16).get_capacity(), (65536 - 6) / 72);
    assert_eq!(RecordPage::new(54, 1).get_capacity(), 4);
    assert_eq!(RecordPage::new(6, 1).get_capacity(), 0);
    assert_eq!(TreeRecord::compute_record_size(8), 40);
    assert_eq!(TreeRecord::compute_record_size(16), 72);
    assert_eq!(TreeRecord::default(8).get_record_size(), 40);
    assert_eq!(TreeRecord::default(8).get_descriptor_size(), 32);
}

#[test]
fn full_page_refuses_with_page_full_and_stays_as_it_was() {
    let mut page = RecordPage::new(54, 1);
    for i in 0..4 {
        assert!(!page.is_full());
        assert_eq!(page.add_record(&record(i, &[i as f32])), Ok(()));
    }
    assert!(page.is_full());
    let before = page.get_data().clone();
    assert_eq!(page.add_record(&record(9, &[9.0])), Err(Error::PageFull));
    assert_eq!(page.get_data(), &before);
    assert_eq!(page.len(), 4);
}

#[test]
fn record_of_other_length_is_a_dimension_mismatch() {
    let mut page = RecordPage::new(4096, 8);
    assert_eq!(page.add_record(&record(0, &[1.0, 2.0])), Err(Error::DimensionMismatch));
    assert_eq!(page.len(), 0);
}

#[test]
fn page_bytes_follow_the_layout() {
    let mut page = RecordPage::new(64, 2);
    assert_eq!(page.get_data()[0], 2);
    assert_eq!(PageType::Leaf.tag(), 2);
    assert_eq!(PageType::Node.tag(), 1);
    assert!(page.get_data()[1..].iter().all(|b| *b == 0));

    page.add_record(&record(0x0102030405060708, &[1.0, -2.0])).unwrap();
    page.add_record(&record(7, &[0.5, 0.25])).unwrap();
    let data = page.get_data();
    assert_eq!(&data[0..6], &[2, 0, 0, 0, 2, 0]);
    assert_eq!(&data[6..14], &[1, 2, 3, 4, 5, 6, 7, 8]);
    assert_eq!(&data[14..18], &1.0f32.to_be_bytes());
    assert_eq!(&data[18..22], &(-2.0f32).to_be_bytes());
    assert_eq!(&data[22..30], &[0, 0, 0, 0, 0, 0, 0, 7]);
    assert_eq!(&data[30..34], &0.5f32.to_be_bytes());
    assert_eq!(&data[34..38], &0.25f32.to_be_bytes());
}

#[test]
fn records_come_back_in_slot_order() {
    let mut page = RecordPage::new(4096, 3);
    let given = vec![
        record(5, &[1.0, 2.0, 3.0]),
        record(2, &[-1.0, 0.0, 7.5]),
        record(9, &[0.1, 0.2, 0.3]),
    ];
    for r in given.iter() {
        page.add_record(r).unwrap();
    }
    assert_eq!(page.get_records(), given);
    assert_eq!(page.get_record_at(1), Ok(given[1].clone()));
    assert_eq!(page.get_record_at(3), Err(Error::KeyNotFound));
    assert!(page.get_record_at(usize::MAX).is_err());
}

#[test]
fn page_survives_its_bytes() {
    let mut page = RecordPage::new(128, 2);
    page.add_record(&record(1, &[1.0, 2.0])).unwrap();
    page.add_record(&record(2, &[3.0, 4.0])).unwrap();
    let copy = RecordPage::from_arr(page.get_data(), 128, 2).unwrap();
    assert_eq!(copy.len(), 2);
    assert_eq!(copy.get_records(), page.get_records());
    assert_eq!(copy.get_data(), page.get_data());
}

#[test]
fn unreadable_pages_are_corrupt() {
    let page = RecordPage::new(128, 2);
    let good = page.get_data().clone();

    assert_eq!(RecordPage::from_arr(&good[..100], 128, 2).err(), Some(Error::CorruptPage));

    let mut wrong_tag = good.clone();
    wrong_tag[0] = 1;
    assert_eq!(RecordPage::from_arr(&wrong_tag, 128, 2).err(), Some(Error::CorruptPage));

    let mut wrong_tail = good.clone();
    wrong_tail[4] = 8;
    assert_eq!(RecordPage::from_arr(&wrong_tail, 128, 2).err(), Some(Error::CorruptPage));
    wrong_tail[4] = 7;
    assert!(RecordPage::from_arr(&wrong_tail, 128, 2).is_ok());

    assert_eq!(RecordPage::from_arr(&[2, 0, 0, 0, 0], 5, 2).err(), Some(Error::CorruptPage));
}

#[test]
fn geometry_needs_room_for_the_header() {
    assert!(geometry_is_valid(4096, 8));
    assert!(geometry_is_valid(6, 8));
    assert!(!geometry_is_valid(5, 8));
    assert!(!geometry_is_valid(4096, usize::MAX / 2));
}

#[test]
fn descriptor_in_page_compares_numbers() {
    let mut page = RecordPage::new(4096, 2);
    page.add_record(&record(0, &[0.0, 1.5])).unwrap();
    page.add_record(&record(1, &[2.0, f32::INFINITY])).unwrap();

    let find = |values: &[f32]| {
        let data: Vec<u32> = values.iter().map(|x| x.to_bits()).collect();
        page.descriptor_in_page(&Descriptor::from_vec(data, values.len()))
    };
    assert!(find(&[0.0, 1.5]));
    assert!(find(&[-0.0, 1.5]));
    assert!(find(&[2.0, f32::INFINITY]));
    assert!(!find(&[0.0, 1.25]));
    assert!(!find(&[0.0]));
    assert!(!find(&[f32::NAN, 1.5]));
}
