use kd_tree::data::{CompoundIdentifier, CompoundRecord, Descriptor};
use kd_tree::error::Error;
use kd_tree::model::Direction;
use kd_tree::node::{InternalNode, PagePointer};
use kd_tree::query::NearestNeighbors;
use kd_tree::record::TreeRecord;
use kd_tree::top_hits::TopHits;
use kd_tree::tree::{NodeAction, Tree, TreeConfig};

fn distance(a: &Descriptor, b: &Descriptor) -> u32 {
    let mut sum: f32 = 0.0;
    for i in 0..a.length {
        sum += f32::powf(f32::from_bits(a.data[i]) - f32::from_bits(b.data[i]), 2.0);
    }
    f32::powf(sum, 0.5).to_bits()
}

fn axis_distance(a: u32, b: u32) -> u32 {
    (f32::from_bits(a) - f32::from_bits(b)).abs().to_bits()
}

fn midpoint(a: u32, b: u32) -> u32 {
    ((f32::from_bits(a) + f32::from_bits(b)) / 2.0).to_bits()
}

fn descriptor(values: &[f32]) -> Descriptor {
    Descriptor::from_vec(values.iter().map(|x| x.to_bits()).collect(), values.len())
}

fn compound(identifier: &str, values: &[f32]) -> CompoundRecord {
    CompoundRecord::new(
        0,
        format!("SMILES-{}", identifier),
        CompoundIdentifier::from_str(identifier).unwrap(),
        descriptor(values),
        values.len(),
    )
}

fn random_descriptor(length: usize) -> Descriptor {
    let data: Vec<u32> = (0..length).map(|_| rand::random::<f32>().to_bits()).collect();
    Descriptor::from_vec(data, length)
}

fn random_record(length: usize) -> CompoundRecord {
    CompoundRecord::new(
        0,
        "C1=CC=C(C=C1)C(=O)O".to_string(),
        CompoundIdentifier::random(),
        random_descriptor(length),
        length,
    )
}

fn quick_random_record(length: usize) -> CompoundRecord {
    let mut letters = [0u8; 30];
    let mut bits: u128 = rand::random::<u128>();
    for (i, letter) in letters.iter_mut().enumerate() {
        if i == 15 {
            bits = rand::random::<u128>();
        }
        *letter = 65 + (bits % 26) as u8;
        bits /= 26;
    }
    CompoundRecord::new(
        0,
        "C1=CC=C(C=C1)C(=O)O".to_string(),
        CompoundIdentifier(letters),
        random_descriptor(length),
        length,
    )
}

fn config(desc_length: usize, record_page_length: usize) -> TreeConfig {
    let mut config = TreeConfig::default();
    config.desc_length = desc_length;
    config.record_page_length = record_page_length;
    config
}

fn floats(d: &Descriptor) -> Vec<f32> {
    d.data.iter().map(|x| f32::from_bits(*x)).collect()
}

fn names(nn: &NearestNeighbors) -> Vec<String> {
    nn.records
        .iter()
        .map(|r| r.as_ref().unwrap().compound_identifier.to_string().trim_matches('\0').to_string())
        .collect()
}

fn dists(nn: &NearestNeighbors) -> Vec<f32> {
    nn.distances.iter().map(|d| f32::from_bits(*d)).collect()
}

struct Lcg(u64);

impl Lcg {
    fn next(&mut self) -> u64 {
        self.0 = self.0.wrapping_mul(6364136223846793005).wrapping_add(1442695040888963407);
        self.0 >> 33
    }

    fn unit(&mut self) -> f32 {
        (self.next() % (1 << 24)) as f32 / (1 << 24) as f32
    }

    fn record(&mut self, name: usize, length: usize) -> CompoundRecord {
        let values: Vec<f32> = (0..length).map(|_| self.unit()).collect();
        compound(&format!("ID{:08}", name), &values)
    }

    fn shuffle<T>(&mut self, items: &mut Vec<T>) {
        for i in (1..items.len()).rev() {
            let j = (self.next() as usize) % (i + 1);
            items.swap(i, j);
        }
    }
}

fn build(records: &[CompoundRecord], config: TreeConfig, cache_limit: Option<usize>) -> Tree {
    let mut tree = Tree::new(config, cache_limit).unwrap();
    for record in records {
        assert!(tree.room_left());
        tree.add_record(record, midpoint).unwrap();
    }
    tree
}

fn brute_force(records: &[CompoundRecord], query: &Descriptor, k: usize) -> Vec<(f32, String)> {
    let mut all: Vec<(f32, String)> = records
        .iter()
        .map(|r| {
            (
                f32::from_bits(distance(query, &r.descriptor)),
                r.compound_identifier.to_string().trim_matches('\0').to_string(),
            )
        })
        .collect();
    all.sort_by(|a, b| a.0.partial_cmp(&b.0).unwrap());
    all.truncate(k);
    all
}

fn records_under(tree: &Tree, pointer: &PagePointer) -> Vec<TreeRecord> {
    match pointer {
        PagePointer::Leaf(p) => tree.get_record_page(p).unwrap().get_records(),
        PagePointer::Node(i) => {
            let node = tree.node_handler.store[*i];
            let mut all = records_under(tree, &node.left_child_pointer);
            all.extend(records_under(tree, &node.right_child_pointer));
            all
        }
    }
}

fn check_structure(tree: &Tree) -> usize {
    let mut leaves_seen: Vec<usize> = Vec::new();
    let mut nodes_seen = 0;
    let mut pending = vec![tree.root];
    while let Some(pointer) = pending.pop() {
        match pointer {
            PagePointer::Leaf(p) => {
                assert!(p < tree.record_handler.len());
                assert!(!leaves_seen.contains(&p));
                leaves_seen.push(p);
            }
            PagePointer::Node(i) => {
                nodes_seen += 1;
                let node: InternalNode = tree.node_handler.store[i];
                let value = f32::from_bits(node.split_value);
                for r in records_under(tree, &node.left_child_pointer) {
                    assert!(f32::from_bits(r.descriptor.data[node.split_axis]) <= value);
                }
                for r in records_under(tree, &node.right_child_pointer) {
                    assert!(f32::from_bits(r.descriptor.data[node.split_axis]) > value);
                }
                pending.push(node.left_child_pointer);
                pending.push(node.right_child_pointer);
            }
        }
    }
    assert_eq!(nodes_seen, tree.num_nodes());
    assert_eq!(leaves_seen.len(), tree.record_handler.len());
    records_under(tree, &tree.root).len()
}

#[test]
fn tree_quick_tree_new() {
    let n: usize = 8;

    let config = TreeConfig::default();

    let mut tree = Tree::new(config, None).unwrap();

    let cr = random_record(n);
    tree.add_record(&cr, midpoint).unwrap();

    let cr = random_record(n);
    tree.add_record(&cr, midpoint).unwrap();

    for _ in 0..2000 {
        let cr = random_record(n);
        tree.add_record(&cr, midpoint).unwrap();
    }
}

#[test]
fn tree_quick_tree_find() {
    for n in [8, 12, 16] {
        let mut config = TreeConfig::default();
        config.desc_length = n;

        let mut tree = Tree::new(config, None).unwrap();

        let cr_to_find = random_record(n);

        let cr = random_record(n);
        tree.add_record(&cr, midpoint).unwrap();

        let bad_record = random_record(n);
        let answer = tree.record_in_tree(&bad_record).unwrap();
        assert_eq!(answer, false);

        let cr = random_record(n);
        tree.add_record(&cr, midpoint).unwrap();

        let bad_record = random_record(n);
        let answer = tree.record_in_tree(&bad_record).unwrap();
        assert_eq!(answer, false);

        for _ in 0..2000 {
            let cr = random_record(n);
            tree.add_record(&cr, midpoint).unwrap();
        }

        let answer = tree.record_in_tree(&cr_to_find).unwrap();
        assert_eq!(answer, false);

        tree.add_record(&cr_to_find, midpoint).unwrap();

        let answer = tree.record_in_tree(&cr_to_find).unwrap();
        assert_eq!(answer, true);

        for _ in 0..2000 {
            let cr = random_record(n);
            tree.add_record(&cr, midpoint).unwrap();
        }

        let answer = tree.record_in_tree(&cr_to_find).unwrap();
        assert_eq!(answer, true);

        let bad_record = random_record(n);
        let answer = tree.record_in_tree(&bad_record).unwrap();
        assert_eq!(answer, false);

        tree.flush()
    }
}

#[test]
fn tree_quick_tree_nn() {
    for n in [8, 12, 16] {
        let mut config = TreeConfig::default();
        config.desc_length = n;

        let mut tree = Tree::new(config.clone(), None).unwrap();

        let cr_to_find = random_record(n);

        let cr = random_record(n);
        tree.add_record(&cr, midpoint).unwrap();

        let bad_record = random_record(n);
        let answer = tree.record_in_tree(&bad_record).unwrap();
        assert_eq!(answer, false);

        let cr = random_record(n);
        tree.add_record(&cr, midpoint).unwrap();

        let bad_record = random_record(n);
        let answer = tree.record_in_tree(&bad_record).unwrap();
        assert_eq!(answer, false);

        for _ in 0..20000 {
            let cr = quick_random_record(n);
            tree.add_record(&cr, midpoint).unwrap();
        }

        let answer = tree.record_in_tree(&cr_to_find).unwrap();
        assert_eq!(answer, false);

        tree.add_record(&cr_to_find, midpoint).unwrap();

        let answer = tree.record_in_tree(&cr_to_find).unwrap();
        assert_eq!(answer, true);

        for _ in 0..2000 {
            let cr = random_record(n);
            tree.add_record(&cr, midpoint).unwrap();
        }

        let answer = tree.record_in_tree(&cr_to_find).unwrap();
        assert_eq!(answer, true);

        let bad_record = random_record(n);
        let answer = tree.record_in_tree(&bad_record).unwrap();
        assert_eq!(answer, false);

        let _nn = tree.get_nearest_neighbors(&bad_record.descriptor, 1, distance, axis_distance);
    }
}

#[test]
fn config_default_and_file_names() {
    let config = TreeConfig::default();
    assert_eq!(config.directory, "/tmp/kd_tree");
    assert_eq!(config.desc_length, 8);
    assert_eq!(config.record_page_length, 4096);
    assert_eq!(config.node_page_length, 4096);
    assert_eq!(config.num_records, None);
    assert_eq!(config.get_node_filename(), "/tmp/kd_tree/node");
    assert_eq!(config.get_record_filename(), "/tmp/kd_tree/record");
    assert_eq!(config.get_config_filename(), "/tmp/kd_tree/config.yaml");
    assert_eq!(config.get_database_filename(), "/tmp/kd_tree/db.db");
    assert!(config.is_usable());
    assert_eq!(config.clone().directory, "/tmp/kd_tree");
}

#[test]
fn unusable_configurations_are_malformed() {
    assert_eq!(Tree::new(config(0, 4096), None).err(), Some(Error::ConfigMalformed));
    assert_eq!(Tree::new(config(257, 65536), None).err(), Some(Error::ConfigMalformed));
    assert_eq!(Tree::new(config(8, 5), None).err(), Some(Error::ConfigMalformed));
    assert_eq!(Tree::new(config(8, 45), None).err(), Some(Error::ConfigMalformed));
    assert!(Tree::new(config(8, 46), None).is_ok());
    assert!(Tree::new(config(256, 65536), None).is_ok());
    assert_eq!(
        Tree::open(config(0, 4096), &[255; 8], &[0; 8], &[0; 8], None).err(),
        Some(Error::ConfigMalformed)
    );
}

#[test]
fn fresh_tree_is_one_empty_leaf() {
    let tree = Tree::new(config(8, 4096), None).unwrap();
    assert_eq!(tree.root, PagePointer::Leaf(0));
    assert_eq!(tree.num_nodes(), 0);
    assert_eq!(tree.record_handler.len(), 1);
    assert_eq!(tree.get_record_page(&0).unwrap().len(), 0);
    assert_eq!(tree.get_record_page(&1).err(), Some(Error::KeyNotFound));
    assert_eq!(tree.database.num_entries(), 0);
    assert!(tree.room_left());
}

#[test]
fn empty_tree_query_finds_nothing() {
    let tree = Tree::new(config(8, 4096), None).unwrap();
    let query = descriptor(&[0.1, 0.2, 0.3, 0.4, 0.5, 0.6, 0.7, 0.8]);
    let nn = tree.get_nearest_neighbors(&query, 1, distance, axis_distance).unwrap();
    assert!(nn.records.is_empty());
    assert!(nn.distances.is_empty());

    let hits: TopHits = tree.get_top_hits(&query, 1, distance, axis_distance).unwrap();
    assert_eq!(hits.distances, vec![f32::INFINITY.to_bits()]);
    assert_eq!(hits.records, vec![None]);
}

#[test]
fn single_record_is_its_own_nearest_neighbour() {
    let mut tree = Tree::new(config(8, 4096), None).unwrap();
    let values = [0.1, 0.2, 0.3, 0.4, 0.5, 0.6, 0.7, 0.8];
    let record = compound("AAAAAAAAAAAAAAAA", &values);
    assert_eq!(tree.add_record(&record, midpoint), Ok(()));

    let nn = tree.get_nearest_neighbors(&descriptor(&values), 1, distance, axis_distance).unwrap();
    assert_eq!(names(&nn), vec!["AAAAAAAAAAAAAAAA"]);
    assert_eq!(dists(&nn), vec![0.0]);
    assert_eq!(nn.records[0].as_ref().unwrap().smiles, "SMILES-AAAAAAAAAAAAAAAA");
    assert_eq!(floats(&nn.records[0].as_ref().unwrap().descriptor), values.to_vec());
    assert_eq!(nn.records[0].as_ref().unwrap(), &record);
}

#[test]
fn two_records_at_the_same_distance_are_both_found() {
    let mut tree = Tree::new(config(2, 4096), None).unwrap();
    tree.add_record(&compound("X", &[0.0, 0.0]), midpoint).unwrap();
    tree.add_record(&compound("Y", &[2.0, 0.0]), midpoint).unwrap();

    let nn = tree.get_nearest_neighbors(&descriptor(&[1.0, 0.0]), 2, distance, axis_distance).unwrap();
    let mut found = names(&nn);
    found.sort();
    assert_eq!(found, vec!["X", "Y"]);
    assert_eq!(dists(&nn), vec![1.0, 1.0]);
}

#[test]
fn fifth_record_cuts_a_leaf_of_four_at_the_median() {
    let mut tree = Tree::new(config(1, 54), None).unwrap();
    assert_eq!(tree.get_record_page(&0).unwrap().get_capacity(), 4);
    for (i, v) in [1.0f32, 2.0, 3.0, 4.0].iter().enumerate() {
        tree.add_record(&compound(&format!("R{}", i + 1), &[*v]), midpoint).unwrap();
        assert_eq!(tree.num_nodes(), 0);
        assert_eq!(tree.root, PagePointer::Leaf(0));
    }
    tree.add_record(&compound("R5", &[5.0]), midpoint).unwrap();

    assert_eq!(tree.num_nodes(), 1);
    assert_eq!(tree.root, PagePointer::Node(0));
    assert_eq!(
        tree.node_handler.store[0],
        InternalNode {
            left_child_pointer: PagePointer::Leaf(0),
            right_child_pointer: PagePointer::Leaf(1),
            split_axis: 0,
            split_value: 3.0f32.to_bits(),
        }
    );
    let left: Vec<f32> = tree
        .get_record_page(&0)
        .unwrap()
        .get_records()
        .iter()
        .map(|r| f32::from_bits(r.descriptor.data[0]))
        .collect();
    let right: Vec<f32> = tree
        .get_record_page(&1)
        .unwrap()
        .get_records()
        .iter()
        .map(|r| f32::from_bits(r.descriptor.data[0]))
        .collect();
    assert_eq!(left, vec![1.0, 2.0, 3.0]);
    assert_eq!(right, vec![4.0, 5.0]);
    let indices: Vec<u64> =
        tree.get_record_page(&1).unwrap().get_records().iter().map(|r| r.index).collect();
    assert_eq!(indices, vec![3, 4]);

    let nn = tree.get_nearest_neighbors(&descriptor(&[3.4]), 1, distance, axis_distance).unwrap();
    assert_eq!(names(&nn), vec!["R3"]);
    assert_eq!(floats(&nn.records[0].as_ref().unwrap().descriptor), vec![3.0]);
    assert!((dists(&nn)[0] - 0.4).abs() < 1e-6);

    let nn = tree.get_nearest_neighbors(&descriptor(&[3.6]), 1, distance, axis_distance).unwrap();
    assert_eq!(names(&nn), vec!["R4"]);
    assert!((dists(&nn)[0] - 0.4).abs() < 1e-6);
    assert_eq!(check_structure(&tree), 5);
}

#[test]
fn even_leaf_is_cut_at_the_midpoint_of_its_middle_pair() {
    let mut tree = Tree::new(config(1, 6 + 3 * 12), None).unwrap();
    for (i, v) in [8.0f32, 1.0, 4.0, 2.0].iter().enumerate() {
        tree.add_record(&compound(&format!("R{}", i), &[*v]), midpoint).unwrap();
    }
    assert_eq!(tree.num_nodes(), 1);
    assert_eq!(f32::from_bits(tree.node_handler.store[0].split_value), 3.0);
    assert_eq!(records_under(&tree, &PagePointer::Leaf(0)).len(), 2);
    assert_eq!(records_under(&tree, &PagePointer::Leaf(1)).len(), 2);
}

#[test]
fn child_cuts_on_the_axis_after_its_parent() {
    let mut tree = Tree::new(config(3, 6 + 2 * 20), None).unwrap();
    let points = [
        [1.0f32, 9.0, 5.0],
        [2.0, 8.0, 6.0],
        [3.0, 7.0, 7.0],
        [1.5, 6.0, 8.0],
        [1.2, 5.0, 9.0],
    ];
    for (i, p) in points.iter().enumerate() {
        tree.add_record(&compound(&format!("P{}", i), p), midpoint).unwrap();
    }
    assert_eq!(tree.node_handler.store[0].split_axis, 0);
    assert!(tree.num_nodes() >= 2);
    for i in 0..tree.num_nodes() {
        let node = tree.node_handler.store[i];
        for child in [node.left_child_pointer, node.right_child_pointer] {
            if let PagePointer::Node(j) = child {
                assert!(j > i);
                assert_eq!(tree.node_handler.store[j].split_axis, (node.split_axis + 1) % 3);
            }
        }
    }
    assert_eq!(check_structure(&tree), 5);
}

#[test]
fn leaf_that_one_axis_cannot_divide_is_cut_on_the_next() {
    let mut tree = Tree::new(config(2, 6 + 2 * 16), None).unwrap();
    tree.add_record(&compound("A", &[1.0, 1.0]), midpoint).unwrap();
    tree.add_record(&compound("B", &[1.0, 2.0]), midpoint).unwrap();
    assert_eq!(tree.add_record(&compound("C", &[1.0, 3.0]), midpoint), Ok(()));
    assert_eq!(tree.num_nodes(), 1);
    assert_eq!(tree.node_handler.store[0].split_axis, 1);
    assert_eq!(f32::from_bits(tree.node_handler.store[0].split_value), 2.0);
    assert_eq!(check_structure(&tree), 3);
}

#[test]
fn leaf_that_no_axis_divides_is_full() {
    let mut tree = Tree::new(config(2, 6 + 2 * 16), None).unwrap();
    tree.add_record(&compound("A", &[1.0, 1.0]), midpoint).unwrap();
    tree.add_record(&compound("B", &[1.0, 1.0]), midpoint).unwrap();
    let nodes = tree.node_image();
    let entries = tree.database.num_entries();
    assert_eq!(tree.add_record(&compound("C", &[1.0, 1.0]), midpoint), Err(Error::PageFull));
    assert_eq!(tree.node_image(), nodes);
    assert_eq!(tree.database.num_entries(), entries);
    assert_eq!(tree.get_record_page(&0).unwrap().len(), 2);
    assert_eq!(tree.record_handler.len(), 1);
    assert_eq!(tree.add_record(&compound("D", &[0.5, 1.0]), midpoint), Err(Error::PageFull));
    assert_eq!(tree.add_record(&compound("E", &[2.0, 1.0]), midpoint), Ok(()));
    assert_eq!(tree.node_handler.store[0].split_axis, 0);
    assert_eq!(f32::from_bits(tree.node_handler.store[0].split_value), 1.0);
    assert_eq!(tree.database.num_entries(), entries + 1);
    assert_eq!(check_structure(&tree), 3);
}

#[test]
fn split_cuts_where_it_is_told() {
    let mut tree = Tree::new(config(2, 4096), None).unwrap();
    tree.add_record(&compound("A", &[1.0, 5.0]), midpoint).unwrap();
    tree.add_record(&compound("B", &[3.0, 6.0]), midpoint).unwrap();
    let extra = TreeRecord { index: 9, descriptor: descriptor(&[2.0, 7.0]), length: 2 };

    assert_eq!(tree.split(&extra, 0, 0.5f32.to_bits()), Err(Error::PageFull));
    assert_eq!(tree.split(&extra, 0, 3.0f32.to_bits()), Err(Error::PageFull));
    assert_eq!(tree.split(&extra, 2, 2.0f32.to_bits()), Err(Error::DimensionMismatch));
    let short = TreeRecord { index: 9, descriptor: descriptor(&[2.0]), length: 1 };
    assert_eq!(tree.split(&short, 0, 2.0f32.to_bits()), Err(Error::DimensionMismatch));
    assert_eq!(tree.num_nodes(), 0);

    assert_eq!(tree.split(&extra, 0, 2.0f32.to_bits()), Ok(()));
    assert_eq!(tree.root, PagePointer::Node(0));
    assert_eq!(tree.node_handler.store[0].split_value, 2.0f32.to_bits());
    let left: Vec<u64> = records_under(&tree, &PagePointer::Leaf(0)).iter().map(|r| r.index).collect();
    let right: Vec<u64> = records_under(&tree, &PagePointer::Leaf(1)).iter().map(|r| r.index).collect();
    assert_eq!(left, vec![0, 9]);
    assert_eq!(right, vec![1]);

    let deeper = TreeRecord { index: 10, descriptor: descriptor(&[4.0, 1.0]), length: 2 };
    assert_eq!(tree.split(&deeper, 1, 3.0f32.to_bits()), Ok(()));
    assert_eq!(tree.node_handler.store[0].right_child_pointer, PagePointer::Node(1));
    assert_eq!(tree.node_handler.store[0].left_child_pointer, PagePointer::Leaf(0));
    assert_eq!(
        tree.node_handler.store[1],
        InternalNode {
            left_child_pointer: PagePointer::Leaf(1),
            right_child_pointer: PagePointer::Leaf(2),
            split_axis: 1,
            split_value: 3.0f32.to_bits(),
        }
    );
    let kept: Vec<u64> = records_under(&tree, &PagePointer::Leaf(1)).iter().map(|r| r.index).collect();
    let moved: Vec<u64> = records_under(&tree, &PagePointer::Leaf(2)).iter().map(|r| r.index).collect();
    assert_eq!(kept, vec![10]);
    assert_eq!(moved, vec![1]);
}

#[test]
fn locate_follows_the_cuts() {
    let mut tree = Tree::new(config(1, 54), None).unwrap();
    assert_eq!(tree.locate(&descriptor(&[7.0])), (0, None));
    for v in [1.0f32, 2.0, 3.0, 4.0, 5.0] {
        tree.add_record(&compound("R", &[v]), midpoint).unwrap();
    }
    assert_eq!(tree.locate(&descriptor(&[3.0])), (0, Some((0, Direction::Left))));
    assert_eq!(tree.locate(&descriptor(&[-9.0])), (0, Some((0, Direction::Left))));
    assert_eq!(tree.locate(&descriptor(&[3.0001])), (1, Some((0, Direction::Right))));
    assert_eq!(NodeAction::Descend, NodeAction::Descend);
    assert_ne!(NodeAction::Descend, NodeAction::CheckIgnoredBranch);
}

#[test]
fn refused_records_leave_the_tree_as_it_was() {
    let mut tree = Tree::new(config(2, 4096), None).unwrap();
    tree.add_record(&compound("A", &[1.0, 2.0]), midpoint).unwrap();

    let wrong_length = compound("B", &[1.0, 2.0, 3.0]);
    assert_eq!(tree.add_record(&wrong_length, midpoint), Err(Error::DimensionMismatch));
    let mut lying = compound("B", &[1.0, 2.0]);
    lying.length = 3;
    assert_eq!(tree.add_record(&lying, midpoint), Err(Error::DimensionMismatch));

    let not_a_number = compound("C", &[1.0, f32::NAN]);
    assert_eq!(tree.add_record(&not_a_number, midpoint), Err(Error::InvalidDescriptor));

    let mut wordy = compound("D", &[1.0, 2.0]);
    wordy.smiles = "C".repeat(101);
    assert_eq!(tree.add_record(&wordy, midpoint), Err(Error::PayloadTooLarge));
    wordy.smiles = "C".repeat(100);
    assert_eq!(tree.add_record(&wordy, midpoint), Ok(()));

    assert_eq!(tree.database.num_entries(), 2);
    assert_eq!(check_structure(&tree), 2);
    assert_eq!(
        tree.get_nearest_neighbors(&descriptor(&[1.0]), 1, distance, axis_distance).err(),
        Some(Error::DimensionMismatch)
    );
    assert_eq!(
        tree.get_top_hits(&descriptor(&[1.0, 2.0, 3.0]), 1, distance, axis_distance).err(),
        Some(Error::DimensionMismatch)
    );
    assert_eq!(tree.record_in_tree(&wrong_length), Err(Error::DimensionMismatch));
    assert_eq!(tree.record_in_tree(&compound("A", &[1.0, 2.0])), Ok(true));
    assert_eq!(tree.record_in_tree(&compound("A", &[1.0, 2.5])), Ok(false));
}

#[test]
fn every_record_lies_on_its_side_of_every_cut() {
    let mut rng = Lcg(7);
    for (dim, page) in [(1usize, 54usize), (2, 70), (3, 256), (8, 4096), (16, 1024)] {
        let records: Vec<CompoundRecord> = (0..1500).map(|i| rng.record(i, dim)).collect();
        let tree = build(&records, config(dim, page), None);
        assert_eq!(check_structure(&tree), 1500);
        assert!(tree.num_nodes() > 0);
    }
}

#[test]
fn index_of_a_record_names_its_text_and_identifier() {
    let mut rng = Lcg(11);
    let records: Vec<CompoundRecord> = (0..700).map(|i| rng.record(i, 4)).collect();
    let tree = build(&records, config(4, 256), Some(0));
    assert_eq!(tree.database.num_entries(), 700);
    for (i, record) in records.iter().enumerate() {
        let entry = tree.database.query(&(i as u64)).unwrap();
        assert_eq!(entry.identifier, record.compound_identifier);
        assert_eq!(entry.smiles, record.smiles);
    }
    for stored in records_under(&tree, &tree.root) {
        assert_eq!(stored.descriptor, records[stored.index as usize].descriptor);
    }
}

#[test]
fn record_is_found_again_after_flush_and_reopen() {
    let mut tree = Tree::new(config(8, 4096), None).unwrap();
    let values = [0.11, 0.22, 0.33, 0.44, 0.55, 0.66, 0.77, 0.88];
    let record = compound("ROUNDTRIP", &values);
    tree.add_record(&record, midpoint).unwrap();
    tree.flush();
    let nodes = tree.node_image();
    let pages = tree.page_image();
    let entries = tree.database_image().clone();
    assert_eq!(nodes, vec![255; 8]);
    assert_eq!(pages.len(), 8 + 4096);
    assert_eq!(entries.len(), 138);

    let reopened = Tree::open(config(8, 4096), &nodes, &pages, &entries, None).unwrap();
    assert_eq!(reopened.root, PagePointer::Leaf(0));
    let nn = reopened
        .get_nearest_neighbors(&descriptor(&values), 1, distance, axis_distance)
        .unwrap();
    assert_eq!(nn.records, vec![Some(record)]);
    assert_eq!(dists(&nn), vec![0.0]);
}

#[test]
fn ten_thousand_records_answer_alike_after_flush_and_reopen() {
    let mut rng = Lcg(2024);
    let records: Vec<CompoundRecord> = (0..10000).map(|i| rng.record(i, 8)).collect();
    let mut tree = build(&records, config(8, 4096), Some(64 * 4096));
    let queries: Vec<Descriptor> = (0..20).map(|i| rng.record(i, 8).descriptor).collect();
    let before: Vec<NearestNeighbors> = queries
        .iter()
        .map(|q| tree.get_nearest_neighbors(q, 10, distance, axis_distance).unwrap())
        .collect();

    tree.flush();
    assert_eq!(tree.record_handler.get_cache_len(), 0);
    let nodes = tree.node_image();
    let pages = tree.page_image();
    let entries = tree.database_image().clone();
    drop(tree);

    let reopened = Tree::open(config(8, 4096), &nodes, &pages, &entries, None).unwrap();
    assert_eq!(reopened.root, PagePointer::Node(0));
    assert_eq!(check_structure(&reopened), 10000);
    for (q, was) in queries.iter().zip(before.iter()) {
        let now = reopened.get_nearest_neighbors(q, 10, distance, axis_distance).unwrap();
        assert_eq!(now.records, was.records);
        assert_eq!(now.distances, was.distances);
    }
    assert_eq!(reopened.node_image(), nodes);
}

#[test]
fn broken_files_do_not_open() {
    let mut rng = Lcg(5);
    let records: Vec<CompoundRecord> = (0..50).map(|i| rng.record(i, 1)).collect();
    let mut tree = build(&records, config(1, 54), None);
    tree.flush();
    let nodes = tree.node_image();
    let pages = tree.page_image();
    let entries = tree.database_image().clone();
    let open = |n: &[u8], p: &[u8], e: &[u8]| Tree::open(config(1, 54), n, p, e, None).err();

    assert_eq!(open(&nodes, &pages, &entries), None);
    assert_eq!(open(&nodes[..nodes.len() - 1], &pages, &entries), Some(Error::CorruptPage));
    assert_eq!(open(&nodes, &pages[..pages.len() - 1], &entries), Some(Error::CorruptPage));
    assert_eq!(open(&nodes, &pages, &entries[..entries.len() - 1]), Some(Error::CorruptPage));

    let mut backward = nodes.clone();
    backward[8..16].copy_from_slice(&[0; 8]);
    backward[16] = 1;
    assert_eq!(open(&backward, &pages, &entries), Some(Error::CorruptPage));

    let mut no_such_page = nodes.clone();
    no_such_page[8..16].copy_from_slice(&[0, 0, 0, 0, 0, 0, 0xff, 0xff]);
    no_such_page[16] = 2;
    assert_eq!(open(&no_such_page, &pages, &entries), Some(Error::CorruptPage));

    let mut axis = nodes.clone();
    axis[8 + 18] = 1;
    assert_eq!(open(&axis, &pages, &entries), Some(Error::CorruptPage));

    assert_eq!(open(&nodes, &[0, 0, 0, 0, 0, 0, 0, 0], &entries), Some(Error::CorruptPage));
}

#[test]
fn neighbours_do_not_depend_on_insertion_order() {
    let mut rng = Lcg(99);
    let mut records: Vec<CompoundRecord> = (0..2000).map(|i| rng.record(i, 8)).collect();
    let queries: Vec<Descriptor> = (0..10).map(|i| rng.record(i, 8).descriptor).collect();
    let first = build(&records, config(8, 4096), None);
    let answers: Vec<Vec<String>> = queries
        .iter()
        .map(|q| names(&first.get_nearest_neighbors(q, 50, distance, axis_distance).unwrap()))
        .collect();
    for round in 0..3 {
        rng.shuffle(&mut records);
        let tree = build(&records, config(8, 1024 * (round + 1)), None);
        for (q, expected) in queries.iter().zip(answers.iter()) {
            let nn = tree.get_nearest_neighbors(q, 50, distance, axis_distance).unwrap();
            assert_eq!(&names(&nn), expected);
        }
    }
}

#[test]
fn neighbours_are_those_of_a_scan_of_all_records() {
    let mut rng = Lcg(4242);
    for (dim, page, count) in [(1usize, 54usize, 300usize), (2, 70, 1000), (8, 4096, 3000), (16, 65536, 2000)] {
        let records: Vec<CompoundRecord> = (0..count).map(|i| rng.record(i, dim)).collect();
        let tree = build(&records, config(dim, page), None);
        for k in [1usize, 7, 50] {
            for _ in 0..5 {
                let query = rng.record(0, dim).descriptor;
                let nn = tree.get_nearest_neighbors(&query, k, distance, axis_distance).unwrap();
                let expected = brute_force(&records, &query, k);
                assert_eq!(dists(&nn), expected.iter().map(|e| e.0).collect::<Vec<f32>>());
                assert_eq!(names(&nn), expected.iter().map(|e| e.1.clone()).collect::<Vec<String>>());
                assert!(dists(&nn).windows(2).all(|w| w[0] <= w[1]));
            }
        }
    }
}

#[test]
fn asking_for_more_than_there_is_gives_all_there_is() {
    let mut rng = Lcg(1);
    let records: Vec<CompoundRecord> = (0..30).map(|i| rng.record(i, 3)).collect();
    let tree = build(&records, config(3, 6 + 4 * 20), None);
    let query = rng.record(0, 3).descriptor;
    let nn = tree.get_nearest_neighbors(&query, 100, distance, axis_distance).unwrap();
    assert_eq!(nn.records.len(), 30);
    assert_eq!(names(&nn), brute_force(&records, &query, 100).iter().map(|e| e.1.clone()).collect::<Vec<String>>());
    let hits = tree.get_top_hits(&query, 100, distance, axis_distance).unwrap();
    assert_eq!(hits.records.len(), 100);
    assert!(hits.records[30..].iter().all(|r| r.is_none()));
    let none = tree.get_nearest_neighbors(&query, 0, distance, axis_distance).unwrap();
    assert!(none.records.is_empty());
}

#[test]
fn cache_ceiling_does_not_change_answers() {
    let mut rng = Lcg(31337);
    let records: Vec<CompoundRecord> = (0..6000).map(|i| rng.record(i, 8)).collect();
    let queries: Vec<Descriptor> = (0..10).map(|i| rng.record(i, 8).descriptor).collect();
    let pass_through = build(&records, config(8, 1024), Some(0));
    let everything = build(&records, config(8, 1024), None);
    assert!(pass_through.record_handler.get_cache_len() < everything.record_handler.get_cache_len());
    assert_eq!(pass_through.node_image(), everything.node_image());
    for q in queries.iter() {
        let a = pass_through.get_nearest_neighbors(q, 25, distance, axis_distance).unwrap();
        let b = everything.get_nearest_neighbors(q, 25, distance, axis_distance).unwrap();
        assert_eq!(a.records, b.records);
        assert_eq!(a.distances, b.distances);
    }
    for p in 0..everything.record_handler.len() {
        assert_eq!(
            pass_through.get_record_page(&p).unwrap().get_data(),
            everything.get_record_page(&p).unwrap().get_data()
        );
    }
}

#[test]
fn neighbours_name_what_the_database_holds() {
    let mut tree = Tree::new(config(1, 4096), None).unwrap();
    tree.add_record(&compound("NEAR", &[1.0]), midpoint).unwrap();
    tree.add_record(&compound("FAR", &[5.0]), midpoint).unwrap();
    let hits = tree.get_top_hits(&descriptor(&[0.0]), 3, distance, axis_distance).unwrap();
    let nn = NearestNeighbors::from_top_hits(hits, &tree.database).unwrap();
    assert_eq!(names(&nn), vec!["NEAR", "FAR"]);
    assert_eq!(dists(&nn), vec![1.0, 5.0]);

    let mut orphan = TopHits::new(2);
    let stray = TreeRecord { index: 2, descriptor: descriptor(&[1.0]), length: 1 };
    orphan.try_add(1.0f32.to_bits(), &stray, &PagePointer::Leaf(0)).unwrap();
    assert_eq!(
        NearestNeighbors::from_top_hits(orphan, &tree.database).err(),
        Some(Error::KeyNotFound)
    );

    let mut accented = compound("ACCENT", &[9.0]);
    accented.smiles = "C\u{e9}".to_string();
    tree.add_record(&accented, midpoint).unwrap();
    assert_eq!(
        tree.get_nearest_neighbors(&descriptor(&[9.0]), 1, distance, axis_distance).err(),
        Some(Error::CorruptPage)
    );
}

#[test]
fn uniform_tree() {
    let mut config = TreeConfig::default();
    config.desc_length = 8;
    config.record_page_length = 4096;
    config.node_page_length = 256;

    let mut tree = Tree::new(config.clone(), None).unwrap();

    let _cr = random_record(config.desc_length);

    for _ in 0..1e6 as i32 {
        let cr = quick_random_record(config.desc_length);
        tree.add_record(&cr, midpoint).unwrap();
    }
    println!("----------");

    println!("{}", tree.num_nodes());
    let mut held = 0;
    for i in 0..tree.record_handler.len() {
        let length = tree.get_record_page(&i).unwrap().len();
        println!("{:?}", length);
        held += length;
    }
    assert_eq!(held, 1000000);
    assert_eq!(tree.database.num_entries(), 1000000);
}
