use kd_tree::data::Descriptor;
use kd_tree::error::Error;
use kd_tree::io::{RecordPager, CACHE_CHECK_WINDOW};
use kd_tree::node::PagePointer;
use kd_tree::page::RecordPage;
use kd_tree::record::TreeRecord;

fn page_with(count: usize, seed: u64) -> RecordPage {
    let mut page = RecordPage::new(128, 2);
    for i in 0..count {
        let record = TreeRecord {
            index: seed * 100 + i as u64,
            descriptor: Descriptor::from_vec(vec![(seed as f32).to_bits(), (i as f32).to_bits()], 2),
            length: 2,
        };
        page.add_record(&record).unwrap();
    }
    page
}

#[test]
fn pages_get_the_next_free_index() {
    let mut pager = RecordPager::new(128, 2, None).unwrap();
    assert_eq!(pager.len(), 0);
    assert_eq!(pager.add_page(&page_with(1, 1)), Ok(PagePointer::Leaf(0)));
    assert_eq!(pager.add_page(&page_with(2, 2)), Ok(PagePointer::Leaf(1)));
    assert_eq!(pager.len(), 2);
    assert_eq!(pager.get_record_page(&0).unwrap().get_records(), page_with(1, 1).get_records());
    assert_eq!(pager.get_record_page(&1).unwrap().get_records(), page_with(2, 2).get_records());
    assert_eq!(pager.get_record_page(&2).err(), Some(Error::KeyNotFound));
}

#[test]
fn pager_refuses_shapes_it_cannot_hold() {
    assert_eq!(RecordPager::new(5, 2, None).err(), Some(Error::ConfigMalformed));
    assert!(RecordPager::new(6, 2, None).is_ok());
    let mut pager = RecordPager::new(128, 2, None).unwrap();
    assert_eq!(pager.add_page(&RecordPage::new(256, 2)), Err(Error::DimensionMismatch));
    assert_eq!(pager.add_page(&RecordPage::new(128, 3)), Err(Error::DimensionMismatch));
    assert_eq!(pager.len(), 0);
    pager.add_page(&page_with(0, 0)).unwrap();
    assert_eq!(pager.update_page(&RecordPage::new(256, 2), &0), Err(Error::DimensionMismatch));
    assert_eq!(pager.update_page(&page_with(1, 1), &1), Err(Error::KeyNotFound));
}

#[test]
fn update_replaces_a_page_and_reads_see_it_before_any_flush() {
    let mut pager = RecordPager::new(128, 2, None).unwrap();
    pager.add_page(&page_with(1, 1)).unwrap();
    pager.add_page(&page_with(1, 2)).unwrap();
    pager.flush();
    assert_eq!(pager.get_cache_len(), 0);

    assert_eq!(pager.update_page(&page_with(3, 7), &0), Ok(()));
    assert_eq!(pager.get_cache_len(), 1);
    assert_eq!(pager.get_record_page(&0).unwrap().get_records(), page_with(3, 7).get_records());
    assert_eq!(
        pager.get_record_page_no_cache(&0).unwrap().get_records(),
        page_with(1, 1).get_records()
    );
    assert_eq!(pager.get_record_page(&1).unwrap().get_records(), page_with(1, 2).get_records());

    pager.flush();
    assert_eq!(pager.get_cache_len(), 0);
    assert_eq!(
        pager.get_record_page_no_cache(&0).unwrap().get_records(),
        page_with(3, 7).get_records()
    );
    assert_eq!(pager.get_record_page(&0).unwrap().get_records(), page_with(3, 7).get_records());
}

#[test]
fn flush_keys_stores_only_those_pages() {
    let mut pager = RecordPager::new(128, 2, None).unwrap();
    for i in 0..5 {
        pager.add_page(&page_with(1, i)).unwrap();
    }
    assert_eq!(pager.get_cache_len(), 5);
    assert_eq!(pager.get_record_page_no_cache(&3).err(), Some(Error::KeyNotFound));
    pager.flush_keys(vec![3, 1, 3, 17]);
    assert_eq!(pager.get_cache_len(), 3);
    assert_eq!(
        pager.get_record_page_no_cache(&3).unwrap().get_records(),
        page_with(1, 3).get_records()
    );
    assert_eq!(
        pager.get_record_page_no_cache(&1).unwrap().get_records(),
        page_with(1, 1).get_records()
    );
    for i in 0..5 {
        assert_eq!(
            pager.get_record_page(&i).unwrap().get_records(),
            page_with(1, i as u64).get_records()
        );
    }
}

#[test]
fn page_file_is_header_then_pages() {
    let mut pager = RecordPager::new(128, 2, None).unwrap();
    pager.add_page(&page_with(1, 1)).unwrap();
    pager.add_page(&page_with(2, 2)).unwrap();
    pager.add_page(&page_with(0, 3)).unwrap();
    pager.flush();
    let image = pager.to_bytes();
    assert_eq!(image.len(), 8 + 3 * 128);
    assert_eq!(&image[0..8], &[0, 0, 0, 0, 0, 0, 0, 3]);
    assert_eq!(&image[8..136], &page_with(1, 1).get_data()[..]);
    assert_eq!(&image[136..264], &page_with(2, 2).get_data()[..]);
    assert_eq!(&image[264..392], &page_with(0, 3).get_data()[..]);
    assert_eq!(pager.calc_offset(&0), 8);
    assert_eq!(pager.calc_offset(&2), 264);

    let back = RecordPager::from_bytes(&image, 128, 2, Some(1 << 20)).unwrap();
    assert_eq!(back.len(), 3);
    assert_eq!(back.get_cache_len(), 0);
    for i in 0..3 {
        assert_eq!(
            back.get_record_page(&i).unwrap().get_data(),
            pager.get_record_page(&i).unwrap().get_data()
        );
    }
    assert_eq!(back.to_bytes(), image);

    assert_eq!(RecordPager::from_bytes(&image[..391], 128, 2, None).err(), Some(Error::CorruptPage));
    assert_eq!(RecordPager::from_bytes(&image, 64, 2, None).err(), Some(Error::CorruptPage));
    assert_eq!(RecordPager::from_bytes(&image[..7], 128, 2, None).err(), Some(Error::CorruptPage));
    let mut bad = image.clone();
    bad[8] = 1;
    assert_eq!(RecordPager::from_bytes(&bad, 128, 2, None).err(), Some(Error::CorruptPage));
    assert_eq!(RecordPager::from_bytes(&image, 5, 2, None).err(), Some(Error::CorruptPage));
}

#[test]
fn cache_stays_within_its_ceiling_plus_one_window() {
    let ceiling_pages = 7;
    let mut pager = RecordPager::new(128, 2, Some(ceiling_pages * 128 + 5)).unwrap();
    let mut most = 0;
    for i in 0..3500u64 {
        pager.add_page(&page_with((i % 3) as usize, i)).unwrap();
        let held = pager.get_cache_len();
        assert!(held <= ceiling_pages + CACHE_CHECK_WINDOW);
        most = most.max(held);
        if (i + 1) % (CACHE_CHECK_WINDOW as u64) == 0 {
            assert!(held <= ceiling_pages);
        }
    }
    assert!(most >= CACHE_CHECK_WINDOW - 1);
    assert_eq!(pager.get_cache_size_bytes(), Some(pager.get_cache_len() * 128));
    for i in (0..3500u64).step_by(97) {
        assert_eq!(
            pager.get_record_page(&(i as usize)).unwrap().get_records(),
            page_with((i % 3) as usize, i).get_records()
        );
    }
}

#[test]
fn a_cache_over_its_ceiling_loses_its_oldest_tenth_at_least() {
    let mut pager = RecordPager::new(128, 2, Some(995 * 128)).unwrap();
    for i in 0..(CACHE_CHECK_WINDOW as u64 - 1) {
        pager.add_page(&page_with(1, i)).unwrap();
    }
    assert_eq!(pager.get_cache_len(), 999);
    pager.add_page(&page_with(1, 999)).unwrap();
    assert_eq!(pager.get_cache_len(), 900);
    assert!(pager.get_record_page_no_cache(&99).is_ok());
    assert_eq!(pager.get_record_page_no_cache(&100).err(), Some(Error::KeyNotFound));
}

#[test]
fn check_cache_counts_a_write() {
    let mut pager = RecordPager::new(128, 2, Some(0)).unwrap();
    pager.add_page(&page_with(1, 1)).unwrap();
    for _ in 0..(CACHE_CHECK_WINDOW - 2) {
        pager.check_cache();
        assert_eq!(pager.get_cache_len(), 1);
    }
    pager.check_cache();
    assert_eq!(pager.get_cache_len(), 0);
    assert_eq!(pager.get_record_page(&0).unwrap().get_records(), page_with(1, 1).get_records());
}
