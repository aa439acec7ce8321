use kd_tree::bytes::{append_bytes, be_encode, le_encode, overwrite, read_be, read_le};
use kd_tree::data::{
    coerce_byte, coerce_pointer, coerce_scalar, CompoundIdentifier, CompoundRecord, Descriptor,
    Parser,
};
use kd_tree::error::Error;
use kd_tree::io::{node_offset, DiskNodePager, FastNodePager, GetNode, ImmutNodePager};
use kd_tree::layout::Value;
use kd_tree::node::{InternalNode, PagePointer};
use kd_tree::record::TreeRecord;
use kd_tree::scalar::{scalar_is_nan, scalar_key, scalar_le, scalar_lt, scalar_same};

#[test]
fn generic_descriptor() {
    const N: usize = 8;
    let _d = Descriptor { data: vec![6.9f32.to_bits(); N], length: N };
}

#[test]
fn make_compound_record() {
    let smiles = "C1=CC=C(C=C1)C(=O)O".to_string();
    let identifier = CompoundIdentifier::from_string("it's a molecule".to_string()).unwrap();
    let dataset_identifier = 1;
    let length = 8;
    let values: Vec<u32> =
        vec![1.0f32, 2.0, 3.0, 4.0, 5.0, 6.0, 7.0, 8.0].iter().map(|x| x.to_bits()).collect();
    let descriptor = Descriptor::from_vec(values.clone(), length);

    let cr = CompoundRecord::new(dataset_identifier, smiles, identifier, descriptor, length);

    let tr = cr.get_tree_record(&3);
    assert_eq!(tr.index, 3);
    assert_eq!(tr.descriptor.data, values);
    assert_eq!(tr.length, 8);
}

#[test]
fn io_quick_nodes_to_file_and_back_works() {
    for num_nodes in [1, 10, 100, 1000, 1234] {
        for _ in 0..10 {
            let mut pager = FastNodePager::new();

            for i in 0..num_nodes {
                let mut node = InternalNode::default();
                node.split_value = (i as f32).to_bits();
                pager.add_node(&node).unwrap();
            }

            let image = pager.to_bytes();
            let written = pager.store.clone();
            pager = FastNodePager::from_bytes(&image).unwrap();

            assert_eq!(pager.store.len(), num_nodes);
            assert_eq!(pager.store, written);
        }
    }
}

#[test]
fn big_endian_and_little_endian_fields() {
    assert_eq!(be_encode(0x0102030405060708, 8), vec![1, 2, 3, 4, 5, 6, 7, 8]);
    assert_eq!(be_encode(0x0102030405060708, 4), vec![5, 6, 7, 8]);
    assert_eq!(be_encode(258, 2), vec![1, 2]);
    assert_eq!(be_encode(7, 0), Vec::<u8>::new());
    assert_eq!(le_encode(0x0102030405060708, 8), vec![8, 7, 6, 5, 4, 3, 2, 1]);
    assert_eq!(le_encode(258, 4), vec![2, 1, 0, 0]);
    assert_eq!(be_encode(u64::MAX, 8), vec![255; 8]);

    let data = [9, 1, 2, 3, 4, 5, 6, 7, 8, 9];
    assert_eq!(read_be(&data, 1, 8), 0x0102030405060708);
    assert_eq!(read_le(&data, 1, 8), 0x0807060504030201);
    assert_eq!(read_be(&data, 1, 4), 0x01020304);
    assert_eq!(read_be(&data, 0, 1), 9);
    assert_eq!(read_be(&data, 3, 0), 0);
    assert_eq!(read_be(&[255; 8], 0, 8), u64::MAX);
    for v in [0u64, 1, 255, 256, 65535, 1 << 40, u64::MAX - 1] {
        assert_eq!(read_be(&be_encode(v, 8), 0, 8), v);
        assert_eq!(read_le(&le_encode(v, 8), 0, 8), v);
        assert_eq!(be_encode(v, 8), v.to_be_bytes().to_vec());
        assert_eq!(le_encode(v, 8), v.to_le_bytes().to_vec());
    }
}

#[test]
fn overwrite_and_append_touch_only_their_bytes() {
    let mut data = vec![1, 2, 3, 4, 5, 6];
    overwrite(&mut data, 2, &[9, 8]);
    assert_eq!(data, vec![1, 2, 9, 8, 5, 6]);
    overwrite(&mut data, 6, &[]);
    assert_eq!(data, vec![1, 2, 9, 8, 5, 6]);
    append_bytes(&mut data, &[7, 7]);
    assert_eq!(data, vec![1, 2, 9, 8, 5, 6, 7, 7]);
}

#[test]
fn scalar_order_is_the_order_of_the_numbers() {
    let samples: Vec<f32> = vec![
        0.0,
        -0.0,
        1.0,
        -1.0,
        0.5,
        -0.5,
        3.4,
        3.6,
        f32::MIN_POSITIVE,
        -f32::MIN_POSITIVE,
        1.0e-45,
        -1.0e-45,
        f32::MAX,
        f32::MIN,
        f32::INFINITY,
        f32::NEG_INFINITY,
        f32::NAN,
        -f32::NAN,
        f32::from_bits(0x7f80_0001),
        f32::from_bits(0xffff_ffff),
        0.1,
        0.2,
        123456.78,
        -123456.78,
    ];
    for a in samples.iter() {
        assert_eq!(scalar_is_nan(a.to_bits()), a.is_nan());
        for b in samples.iter() {
            assert_eq!(scalar_le(a.to_bits(), b.to_bits()), a <= b, "{} <= {}", a, b);
            assert_eq!(scalar_lt(a.to_bits(), b.to_bits()), a < b, "{} < {}", a, b);
            assert_eq!(scalar_same(a.to_bits(), b.to_bits()), a == b, "{} == {}", a, b);
        }
    }
    assert_eq!(scalar_key(0), 0);
    assert_eq!(scalar_key(0x8000_0000), 0);
    assert_eq!(scalar_key(1.0f32.to_bits()), 0x3f80_0000);
    assert_eq!(scalar_key((-1.0f32).to_bits()), -0x3f80_0000);
}

#[test]
fn tree_record_bytes_are_index_then_coordinates() {
    let values = [0.1f32, 0.2, -7.25];
    let record = TreeRecord {
        index: 0x1122334455667788,
        descriptor: Descriptor::from_vec(values.iter().map(|x| x.to_bits()).collect(), 3),
        length: 3,
    };
    let bytes = record.to_vec();
    assert_eq!(bytes.len(), 8 + 4 * 3);
    assert_eq!(&bytes[0..8], &[0x11, 0x22, 0x33, 0x44, 0x55, 0x66, 0x77, 0x88]);
    assert_eq!(&bytes[8..12], &0.1f32.to_be_bytes());
    assert_eq!(&bytes[12..16], &0.2f32.to_be_bytes());
    assert_eq!(&bytes[16..20], &(-7.25f32).to_be_bytes());
    assert_ne!(&bytes[8..12], &0.1f32.to_le_bytes());

    assert_eq!(TreeRecord::from_slice(&bytes, 3), Ok(record.clone()));
    let mut longer = bytes.clone();
    longer.extend_from_slice(&[1, 2, 3]);
    assert_eq!(TreeRecord::from_slice(&longer, 3), Ok(record));
    assert_eq!(TreeRecord::from_slice(&bytes[..19], 3), Err(Error::CorruptPage));
    assert_eq!(TreeRecord::from_slice(&bytes[..7], 0), Err(Error::CorruptPage));

    let zero = TreeRecord::default(2);
    assert_eq!(zero.index, 0);
    assert_eq!(zero.descriptor.data, vec![0, 0]);
    assert_eq!(zero.to_vec(), vec![0; 16]);
}

#[test]
fn node_bytes_follow_the_layout() {
    let node = InternalNode {
        left_child_pointer: PagePointer::Node(0x0102),
        right_child_pointer: PagePointer::Leaf(0x0a0b0c),
        split_axis: 7,
        split_value: 6.9f32.to_bits(),
    };
    let arr = node.to_arr();
    assert_eq!(arr.len(), 27);
    assert_eq!(&arr[0..8], &[0, 0, 0, 0, 0, 0, 1, 2]);
    assert_eq!(arr[8], 1);
    assert_eq!(&arr[9..17], &[0, 0, 0, 0, 0, 0x0a, 0x0b, 0x0c]);
    assert_eq!(arr[17], 2);
    assert_eq!(arr[18], 7);
    assert_eq!(&arr[19..23], &[0x40, 0xdc, 0xcc, 0xcd]);
    assert_eq!(&arr[23..27], &[0, 0, 0, 0]);
    assert_eq!(InternalNode::from_slice(&arr), Ok(node));
    assert_eq!(InternalNode::from_slice(&arr[..23]), Ok(node));
    assert_eq!(InternalNode::from_slice(&arr[..22]), Err(Error::CorruptPage));

    let mut bad = arr;
    bad[8] = 3;
    assert_eq!(InternalNode::from_slice(&bad), Err(Error::CorruptPage));
    bad[8] = 1;
    bad[17] = 0;
    assert_eq!(InternalNode::from_slice(&bad), Err(Error::CorruptPage));

    let plain = InternalNode::default();
    assert_eq!(plain.left_child_pointer, PagePointer::Node(0));
    assert_eq!(plain.right_child_pointer, PagePointer::Node(0));
    assert_eq!(plain.split_axis, 0);
    assert_eq!(plain.split_value, 0);
}

#[test]
fn node_file_has_the_last_index_in_its_header() {
    let mut pager = FastNodePager::new();
    assert_eq!(pager.to_bytes(), vec![255; 8]);
    assert_eq!(FastNodePager::from_bytes(&[255; 8]).unwrap().len(), 0);

    let first = InternalNode {
        left_child_pointer: PagePointer::Leaf(0),
        right_child_pointer: PagePointer::Node(1),
        split_axis: 0,
        split_value: 1.0f32.to_bits(),
    };
    let second = InternalNode {
        left_child_pointer: PagePointer::Leaf(1),
        right_child_pointer: PagePointer::Leaf(2),
        split_axis: 1,
        split_value: 2.0f32.to_bits(),
    };
    assert_eq!(pager.add_node(&first), Ok(PagePointer::Node(0)));
    assert_eq!(pager.add_node(&second), Ok(PagePointer::Node(1)));
    assert_eq!(pager.len(), 2);
    assert_eq!(pager.num_nodes(), 2);

    let image = pager.to_bytes();
    assert_eq!(image.len(), 8 + 2 * 27);
    assert_eq!(&image[0..8], &[0, 0, 0, 0, 0, 0, 0, 1]);
    assert_eq!(&image[8..35], &first.to_arr());
    assert_eq!(&image[35..62], &second.to_arr());
    assert_eq!(node_offset(0), 8);
    assert_eq!(node_offset(1), 35);
    assert_eq!(DiskNodePager::calc_offset(10), 8 + 270);

    let back = FastNodePager::from_bytes(&image).unwrap();
    assert_eq!(back.store, vec![first, second]);
    let read_only = ImmutNodePager::from_bytes(&image).unwrap();
    assert_eq!(read_only.len(), 2);
    assert_eq!(read_only.get_node(&1), Ok(&second));
    assert_eq!(read_only.get_node(&2), Err(Error::KeyNotFound));

    assert_eq!(FastNodePager::from_bytes(&image[..61]).err(), Some(Error::CorruptPage));
    assert_eq!(FastNodePager::from_bytes(&image[..7]).err(), Some(Error::CorruptPage));
    let mut bad = image.clone();
    bad[8 + 8] = 9;
    assert_eq!(FastNodePager::from_bytes(&bad).err(), Some(Error::CorruptPage));

    let on_disk = DiskNodePager::from_file(&"some/node".to_string()).unwrap();
    assert_eq!(on_disk.filename, "some/node");
    assert_eq!(on_disk.parse_node(&image[35..62]), Ok(second));
}

#[test]
fn node_table_get_and_update() {
    let mut pager = FastNodePager::new();
    let node = InternalNode::default();
    assert_eq!(pager.get_node(&0), Err(Error::KeyNotFound));
    pager.add_node(&node).unwrap();
    assert_eq!(pager.get_node(&0), Ok(&node));

    let other = InternalNode { split_axis: 3, ..node };
    assert_eq!(pager.update_node(&0, &other), Ok(()));
    assert_eq!(pager.get_node(&0), Ok(&other));
    assert_eq!(pager.update_node(&1, &other), Err(Error::KeyNotFound));
    assert_eq!(pager.len(), 1);
}

#[test]
fn parser_reads_fields() {
    let data = [0u8, 0, 0, 0, 0, 0, 1, 2, 7, 0x40, 0xdc, 0xcc, 0xcd, 0x3f, 0x80, 0, 0];
    assert_eq!(Parser::get_usize_from_array(&data, 0, 8), Ok(258));
    assert_eq!(Parser::get_usize_from_array(&data, 8, 1), Ok(7));
    assert_eq!(Parser::get_usize_from_array(&data, 0, 2), Err(Error::CorruptPage));
    assert_eq!(Parser::get_usize_from_array(&data, 10, 8), Err(Error::CorruptPage));
    assert_eq!(Parser::get_usize_from_array(&data, 17, 1), Err(Error::CorruptPage));
    assert_eq!(Parser::get_scalar_from_array(&data, 9), Ok(6.9f32.to_bits()));
    assert_eq!(Parser::get_scalar_from_array(&data, 13), Ok(1.0f32.to_bits()));
    assert_eq!(Parser::get_scalar_from_array(&data, 14), Err(Error::CorruptPage));
    let d = Parser::get_descriptor_from_array(&data, 9, 2).unwrap();
    assert_eq!(d.data, vec![6.9f32.to_bits(), 1.0f32.to_bits()]);
    assert_eq!(d.length, 2);
    assert_eq!(Parser::get_descriptor_from_array(&data, 9, 3).err(), Some(Error::CorruptPage));
    assert_eq!(Parser::get_descriptor_from_array(&data, 17, 0).unwrap().data, Vec::<u32>::new());

    assert_eq!(coerce_byte(&data[8..9]), [7]);
    assert_eq!(coerce_pointer(&data[0..8]), [0, 0, 0, 0, 0, 0, 1, 2]);
    assert_eq!(coerce_scalar(&data[9..13]), [0x40, 0xdc, 0xcc, 0xcd]);
    assert_eq!(Value::from_pointer([0, 0, 0, 0, 0, 0, 1, 2]).unwrap().0, 258);
    assert_eq!(Value::from_byte([200]).unwrap().0, 200);
}

#[test]
fn identifiers_are_padded_with_zeros() {
    let id = CompoundIdentifier::from_str("ZINC1234").unwrap();
    let mut expected = [0u8; 30];
    expected[..8].copy_from_slice(b"ZINC1234");
    assert_eq!(id.0, expected);
    assert_eq!(CompoundIdentifier::from_string("ZINC1234".to_string()), Ok(id));
    assert!(id.check_ascii());
    assert_eq!(id.to_string(), format!("ZINC1234{}", "\0".repeat(22)));
    assert!(id.same_as(&CompoundIdentifier(expected)));
    assert!(!id.same_as(&CompoundIdentifier([0u8; 30])));

    let full = "A".repeat(30);
    assert_eq!(CompoundIdentifier::from_str(&full).unwrap().0, [65u8; 30]);
    assert_eq!(CompoundIdentifier::from_str(&full).unwrap().to_string(), full);
    assert_eq!(CompoundIdentifier::from_str(&"A".repeat(31)), Err(Error::PayloadTooLarge));
    assert_eq!(CompoundIdentifier::from_string("A".repeat(31)), Err(Error::PayloadTooLarge));
    assert_eq!(CompoundIdentifier::from_str("").unwrap().0, [0u8; 30]);

    let mut data = vec![1u8; 40];
    data[5] = 77;
    let read = CompoundIdentifier::from_ascii_array(&data, 5, 30).unwrap();
    assert_eq!(read.0[0], 77);
    assert_eq!(read.0[1..], [1u8; 29]);
    assert_eq!(CompoundIdentifier::from_ascii_array(&data, 5, 16), Err(Error::CorruptPage));
    assert_eq!(CompoundIdentifier::from_ascii_array(&data, 11, 30), Err(Error::CorruptPage));

    assert!(!CompoundIdentifier([200u8; 30]).check_ascii());
}

#[test]
fn random_identifiers_are_capital_letters() {
    let mut seen_different = false;
    let first = CompoundIdentifier::random();
    for _ in 0..50 {
        let id = CompoundIdentifier::random();
        assert!(id.0.iter().all(|b| (65..91).contains(b)));
        assert!(id.check_ascii());
        assert_eq!(id.to_string().len(), 30);
        if id != first {
            seen_different = true;
        }
    }
    assert!(seen_different);
}

#[test]
fn descriptors_know_their_numbers() {
    let d = Descriptor::from_vec(vec![1.0f32.to_bits(), f32::NAN.to_bits()], 2);
    assert!(d.contains_nan());
    let e = Descriptor::from_vec(vec![1.0f32.to_bits(), f32::INFINITY.to_bits()], 2);
    assert!(!e.contains_nan());
    assert!(!d.same_as(&d));
    assert!(e.same_as(&e.clone()));
    let zero = Descriptor::from_vec(vec![0.0f32.to_bits()], 1);
    let minus_zero = Descriptor::from_vec(vec![(-0.0f32).to_bits()], 1);
    assert!(zero.same_as(&minus_zero));
    assert_ne!(zero, minus_zero);
    assert!(!zero.same_as(&e));
}
