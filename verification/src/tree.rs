//! The tree: configuration, insertion and the descent that both insertion
//! and lookup share.

use vstd::prelude::*;
use vstd::utf8::encode_utf8;
use crate::data::{has_nan, same_point, CompoundRecord, Descriptor};
use crate::database::{decode_entry, entry_bytes, Database};
use crate::error::Error;
use crate::io::{FastNodePager, RecordPager};
use crate::model::{
    axis_values, bucket, child_of, choose_cut, cut, divides, first_axis, height, inserted, median,
    middle, node_shaped, route, shape_ok, sorted, stored, tree_ok, tree_records,
    lemma_route_shaped, TreeView,
};
use crate::node::{InternalNode, PagePointer};
use crate::page::{capacity_of, geometry_is_valid, record_views, valid_geometry, RecordPage};
use crate::proofs::{theorem_cut, theorem_stored};
use crate::record::RecordView;
use crate::scalar::{find_rank, scalar_le};

pub use crate::model::Direction;
pub use crate::query::NearestNeighbors;
pub use crate::record::TreeRecord;
pub use crate::top_hits::TopHits;

verus! {

/// Where a tree lives and how its pages are shaped.
#[derive(Debug)]
pub struct TreeConfig {
    pub directory: String,
    pub desc_length: usize,
    pub record_page_length: usize,
    pub node_page_length: usize,
    pub num_records: Option<usize>,
}

impl TreeConfig {
    /// Eight coordinates and pages of 4096 bytes under `/tmp/kd_tree`.
    pub fn default() -> (c: Self)
        ensures
            c.directory@ == "/tmp/kd_tree"@,
            c.desc_length == 8,
            c.record_page_length == 4096,
            c.node_page_length == 4096,
            c.num_records.is_none(),
    {
        TreeConfig {
            directory: String::from_str("/tmp/kd_tree"),
            desc_length: 8,
            record_page_length: 4096,
            node_page_length: 4096,
            num_records: None,
        }
    }

    /// A tree can be built on this configuration: leaf pages of its shape
    /// can be held and take at least one record, and there are between one
    /// and 256 coordinates, so that an axis fits the byte it is stored in.
    pub open spec fn usable(&self) -> bool {
        &&& valid_geometry(self.record_page_length as nat, self.desc_length as nat)
        &&& 1 <= self.desc_length <= 256
        &&& capacity_of(self.record_page_length as nat, self.desc_length as nat) >= 1
    }

    /// Whether a tree can be built on this configuration.
    pub fn is_usable(&self) -> (r: bool)
        ensures
            r == self.usable(),
    {
        if !geometry_is_valid(self.record_page_length, self.desc_length) {
            return false;
        }
        if self.desc_length < 1 || self.desc_length > 256 {
            return false;
        }
        let slot: usize = TreeRecord::compute_record_size(self.desc_length);
        (self.record_page_length - 6) / slot >= 1
    }

    /// Name of the node file.
    pub fn get_node_filename(&self) -> (name: String)
        ensures
            name@ == self.directory@ + "/node"@,
    {
        self.directory.clone().concat("/node")
    }

    /// Name of the leaf page file.
    pub fn get_record_filename(&self) -> (name: String)
        ensures
            name@ == self.directory@ + "/record"@,
    {
        self.directory.clone().concat("/record")
    }

    /// Name of the configuration file.
    pub fn get_config_filename(&self) -> (name: String)
        ensures
            name@ == self.directory@ + "/config.yaml"@,
    {
        self.directory.clone().concat("/config.yaml")
    }

    /// Name of the content database file.
    pub fn get_database_filename(&self) -> (name: String)
        ensures
            name@ == self.directory@ + "/db.db"@,
    {
        self.directory.clone().concat("/db.db")
    }
}

impl Clone for TreeConfig {
    fn clone(&self) -> (c: Self)
        ensures
            c.directory@ == self.directory@,
            c.desc_length == self.desc_length,
            c.record_page_length == self.record_page_length,
            c.node_page_length == self.node_page_length,
            c.num_records == self.num_records,
    {
        TreeConfig {
            directory: self.directory.clone(),
            desc_length: self.desc_length,
            record_page_length: self.record_page_length,
            node_page_length: self.node_page_length,
            num_records: self.num_records,
        }
    }
}

/// What a step of a query does with a pointer.
#[derive(Debug, Clone, Copy, PartialEq, Eq, Structural)]
pub enum NodeAction {
    CheckIgnoredBranch,
    Descend,
}

/// The k-d tree: node table, leaf pager and content database.
pub struct Tree {
    pub node_handler: FastNodePager,
    pub record_handler: RecordPager,
    pub database: Database,
    pub root: PagePointer,
    pub config: TreeConfig,
}

impl View for Tree {
    type V = TreeView;

    open spec fn view(&self) -> TreeView {
        TreeView {
            nodes: self.node_handler@,
            pages: self.record_handler@,
            root: self.root,
            entries: self.database@,
            dim: self.config.desc_length as nat,
            capacity: capacity_of(
                self.config.record_page_length as nat,
                self.config.desc_length as nat,
            ),
        }
    }
}

/// The leaf payload that an insertion into `v` gives a descriptor.
pub open spec fn next_record(v: TreeView, descriptor: Seq<u32>) -> RecordView {
    RecordView { index: v.entries.len() as u64, descriptor }
}

/// `v` with the entry of a compound appended to the content database.
pub open spec fn with_entry(v: TreeView, smiles: Seq<char>, identifier: Seq<u8>) -> TreeView {
    TreeView {
        entries: v.entries.push(decode_entry(entry_bytes(encode_utf8(smiles), identifier))),
        ..v
    }
}

/// `mid` is what the midpoint function computes.
pub open spec fn computes<F: Fn(u32, u32) -> u32>(f: F, mid: spec_fn(u32, u32) -> u32) -> bool {
    forall|a: u32, b: u32, r: u32| call_ensures(f, (a, b), r) ==> r == mid(a, b)
}

/// The views of the records of a vector, all of one length.
pub open spec fn uniform(records: Seq<TreeRecord>, dim: nat) -> bool {
    forall|k: int|
        0 <= k < records.len() ==> (#[trigger] records[k]).wf() && records[k].length == dim
}

/// The two middle coordinates on `axis` of the records, in ascending
/// order.
fn middle_on_axis(records: &Vec<TreeRecord>, axis: usize) -> (m: (u32, u32))
    requires
        records@.len() > 0,
        forall|k: int| 0 <= k < records@.len() ==> axis < (#[trigger] records@[k]).descriptor@.len(),
    ensures
        m == middle(sorted(axis_values(record_views(records@), axis as int))),
{
    let ghost values = axis_values(record_views(records@), axis as int);
    let mut ordered: Vec<u32> = Vec::new();
    let mut k: usize = 0;
    proof {
        assert(values.subrange(0, 0) =~= Seq::<u32>::empty());
    }
    while k < records.len()
        invariant
            k <= records@.len(),
            values == axis_values(record_views(records@), axis as int),
            forall|j: int|
                0 <= j < records@.len() ==> axis < (#[trigger] records@[j]).descriptor@.len(),
            ordered@ == sorted(values.subrange(0, k as int)),
            ordered@.len() == k,
        decreases records@.len() - k,
    {
        let x: u32 = records[k].descriptor.data[axis];
        let at: usize = find_rank(&ordered, x);
        proof {
            let upto = values.subrange(0, k + 1);
            assert(upto.drop_last() =~= values.subrange(0, k as int));
            assert(upto.last() == x);
        }
        ordered.insert(at, x);
        k += 1;
    }
    proof {
        assert(values.subrange(0, records@.len() as int) =~= values);
    }
    let n: usize = ordered.len();
    if n % 2 == 1 {
        (ordered[n / 2], ordered[n / 2])
    } else {
        (ordered[n / 2 - 1], ordered[n / 2])
    }
}

/// The records on one side of `value` on `axis`, in their order.
fn one_side(records: &Vec<TreeRecord>, axis: usize, value: u32, left: bool) -> (side: Vec<TreeRecord>)
    requires
        forall|k: int| 0 <= k < records@.len() ==> axis < (#[trigger] records@[k]).descriptor@.len(),
    ensures
        record_views(side@) == bucket(record_views(records@), axis as int, value, left),
        forall|dim: nat| uniform(records@, dim) ==> uniform(side@, dim),
{
    let ghost all = record_views(records@);
    let mut side: Vec<TreeRecord> = Vec::new();
    let mut k: usize = 0;
    proof {
        assert(all.subrange(0, 0) =~= Seq::<RecordView>::empty());
        assert(record_views(side@) =~= Seq::<RecordView>::empty());
    }
    while k < records.len()
        invariant
            k <= records@.len(),
            all == record_views(records@),
            forall|j: int|
                0 <= j < records@.len() ==> axis < (#[trigger] records@[j]).descriptor@.len(),
            record_views(side@) == bucket(all.subrange(0, k as int), axis as int, value, left),
            forall|dim: nat| uniform(records@, dim) ==> uniform(side@, dim),
        decreases records@.len() - k,
    {
        let ghost before = side@;
        proof {
            let upto = all.subrange(0, k + 1);
            assert(upto.drop_last() =~= all.subrange(0, k as int));
            assert(upto.last() == records@[k as int]@);
        }
        if scalar_le(records[k].descriptor.data[axis], value) == left {
            side.push(records[k].clone());
            proof {
                assert(record_views(side@) =~= record_views(before).push(records@[k as int]@));
                assert forall|dim: nat| uniform(records@, dim) implies uniform(side@, dim) by {
                    assert(uniform(before, dim));
                    assert forall|j: int| 0 <= j < side@.len() implies (#[trigger] side@[j]).wf()
                        && side@[j].length == dim by {
                        if j < before.len() {
                            assert(side@[j] == before[j]);
                        } else {
                            assert(records@[k as int].wf());
                        }
                    }
                }
            }
        }
        k += 1;
    }
    proof {
        assert(all.subrange(0, records@.len() as int) =~= all);
    }
    side
}

/// A leaf page of the given shape that holds `records`.
fn fill_page(page_length: usize, desc_length: usize, records: &Vec<TreeRecord>) -> (page: RecordPage)
    requires
        valid_geometry(page_length as nat, desc_length as nat),
        records@.len() <= capacity_of(page_length as nat, desc_length as nat),
        uniform(records@, desc_length as nat),
    ensures
        page.wf(),
        page.page_length == page_length,
        page.desc_length == desc_length,
        page@ == record_views(records@),
{
    let mut page = RecordPage::new(page_length, desc_length);
    let mut k: usize = 0;
    proof {
        assert(page@ =~= record_views(records@).subrange(0, 0));
    }
    while k < records.len()
        invariant
            k <= records@.len(),
            records@.len() <= capacity_of(page_length as nat, desc_length as nat),
            uniform(records@, desc_length as nat),
            page.wf(),
            page.page_length == page_length,
            page.desc_length == desc_length,
            page@ == record_views(records@).subrange(0, k as int),
            page.tail == k,
        decreases records@.len() - k,
    {
        let ghost before = page@;
        let added = page.add_record(&records[k]);
        proof {
            assert(added.is_ok());
            assert(page@ =~= record_views(records@).subrange(0, k + 1));
        }
        k += 1;
    }
    proof {
        assert(record_views(records@).subrange(0, records@.len() as int) =~= record_views(
            records@,
        ));
    }
    page
}

impl Tree {
    /// The pager and the database are sound, the pager has the shape that
    /// the configuration names, and every pointer has a target ahead.
    pub open spec fn wf(&self) -> bool {
        &&& self.record_handler.wf()
        &&& self.record_handler.page_length == self.config.record_page_length
        &&& self.record_handler.desc_length == self.config.desc_length
        &&& self.database.wf()
        &&& self.config.usable()
        &&& shape_ok(self@)
    }

    /// There is room for one more node, page and database entry.
    pub open spec fn has_room(&self) -> bool {
        &&& self.node_handler@.len() < usize::MAX
        &&& self.record_handler.next_free_index < usize::MAX
        &&& 138 * (self.database.num_entries + 1) <= usize::MAX
    }

    /// An empty tree: leaf page zero is the root. `ConfigMalformed` when
    /// no tree can be built on the configuration.
    pub fn new(config: TreeConfig, cache_limit: Option<usize>) -> (r: Result<Self, Error>)
        ensures
            r.is_ok() <==> config.usable(),
            r.is_ok() ==> r.unwrap().wf() && tree_ok(r.unwrap()@) && r.unwrap().config == config
                && r.unwrap()@.nodes.len() == 0 && r.unwrap()@.pages == seq![
                Seq::<RecordView>::empty(),
            ] && r.unwrap()@.root == PagePointer::Leaf(0) && r.unwrap()@.entries.len() == 0
                && r.unwrap().record_handler.limit() == cache_limit && r.unwrap().has_room(),
            r.is_err() ==> r == Err::<Self, Error>(Error::ConfigMalformed),
    {
        if !config.is_usable() {
            return Err(Error::ConfigMalformed);
        }
        let node_handler = FastNodePager::new();
        let mut record_handler = match RecordPager::new(
            config.record_page_length,
            config.desc_length,
            cache_limit,
        ) {
            Ok(pager) => pager,
            Err(_) => {
                return Err(Error::ConfigMalformed);
            },
        };
        let first_record_page = RecordPage::new(config.record_page_length, config.desc_length);
        match record_handler.add_page(&first_record_page) {
            Ok(_) => {},
            Err(_) => {
                return Err(Error::ConfigMalformed);
            },
        }
        let database = Database::new();
        let tree = Tree {
            node_handler,
            record_handler,
            database,
            root: PagePointer::Leaf(0),
            config,
        };
        proof {
            tree.record_handler.lemma_wf();
            assert(tree@.pages =~= seq![Seq::<RecordView>::empty()]);
            vstd::seq_lib::to_multiset_len(Seq::<RecordView>::empty());
            assert(tree_records(tree@).len() == 0);
            assert forall|x: RecordView| #[trigger] tree_records(tree@).count(x) > 0 implies x.index
                < tree@.entries.len() by {
                vstd::multiset::axiom_count_le_len(tree_records(tree@), x);
            }
        }
        Ok(tree)
    }

    /// Whether there is room for one more node, page and database entry.
    pub fn room_left(&self) -> (r: bool)
        requires
            self.wf(),
        ensures
            r == self.has_room(),
    {
        self.node_handler.len() < usize::MAX && self.record_handler.next_free_index < usize::MAX
            && self.database.num_entries < (usize::MAX / 138) as u64
    }

    /// Nodes in the node table.
    pub fn num_nodes(&self) -> (n: usize)
        ensures
            n == self@.nodes.len(),
    {
        self.node_handler.num_nodes()
    }

    /// The current copy of a leaf page; `KeyNotFound` when the index is
    /// not in use.
    pub fn get_record_page(&self, index: &usize) -> (r: Result<RecordPage, Error>)
        requires
            self.wf(),
        ensures
            r.is_ok() <==> *index < self@.pages.len(),
            r.is_ok() ==> r.unwrap().wf() && r.unwrap()@ == self@.pages[*index as int],
            r.is_err() ==> r == Err::<RecordPage, Error>(Error::KeyNotFound),
    {
        proof {
            self.record_handler.lemma_wf();
        }
        self.record_handler.get_record_page(index)
    }

    /// Writes every cached leaf page to the page file.
    pub fn flush(&mut self)
        requires
            old(self).wf(),
        ensures
            final(self).wf(),
            final(self)@ == old(self)@,
            final(self).record_handler.cached_len() == 0,
            final(self).record_handler.flushed(),
            final(self).config == old(self).config,
            final(self).node_handler == old(self).node_handler,
            final(self).database == old(self).database,
    {
        proof {
            self.record_handler.lemma_wf();
        }
        self.record_handler.flush();
        proof {
            self.record_handler.lemma_wf();
        }
    }

    /// The leaf that a descent for `d` ends in, and the node and side from
    /// which the leaf is entered.
    pub fn locate(&self, d: &Descriptor) -> (found: (usize, Option<(usize, Direction)>))
        requires
            self.wf(),
            d@.len() == self.config.desc_length,
        ensures
            found == route(self@.nodes, self@.root, d@, None),
            found.0 < self@.pages.len(),
            match found.1 {
                Some((c, arm)) => c < self@.nodes.len() && child_of(self@.nodes[c as int], arm)
                    == PagePointer::Leaf(found.0),
                None => self.root == PagePointer::Leaf(found.0),
            },
    {
        let mut curr_pointer: PagePointer = self.root;
        let mut last: Option<(usize, Direction)> = None;
        proof {
            self.record_handler.lemma_wf();
            lemma_route_shaped(self@, self.root, d@, None);
        }
        loop
            invariant
                self.wf(),
                d@.len() == self.config.desc_length,
                route(self@.nodes, curr_pointer, d@, last) == route(
                    self@.nodes,
                    self@.root,
                    d@,
                    None,
                ),
                match curr_pointer {
                    PagePointer::Leaf(p) => p < self@.pages.len(),
                    PagePointer::Node(i) => i < self@.nodes.len(),
                },
                match route(self@.nodes, self@.root, d@, None).1 {
                    Some((c, arm)) => c < self@.nodes.len() && child_of(
                        self@.nodes[c as int],
                        arm,
                    ) == PagePointer::Leaf(route(self@.nodes, self@.root, d@, None).0),
                    None => self.root == PagePointer::Leaf(
                        route(self@.nodes, self@.root, d@, None).0,
                    ),
                },
            decreases height(self@.nodes, curr_pointer),
        {
            match curr_pointer {
                PagePointer::Leaf(index) => {
                    return (index, last);
                },
                PagePointer::Node(index) => {
                    proof {
                        assert(node_shaped(
                            self@.nodes,
                            index as int,
                            self@.pages.len(),
                            self@.dim,
                        ));
                    }
                    let node: InternalNode = self.node_handler.store[index];
                    let this_value: u32 = d.data[node.split_axis];
                    if scalar_le(this_value, node.split_value) {
                        last = Some((index, Direction::Left));
                        curr_pointer = node.left_child_pointer;
                    } else {
                        last = Some((index, Direction::Right));
                        curr_pointer = node.right_child_pointer;
                    }
                },
            }
        }
    }

    /// Whether the leaf that a descent for the record's descriptor ends in
    /// holds a descriptor with the same numbers.
    pub fn record_in_tree(&self, record: &CompoundRecord) -> (r: Result<bool, Error>)
        requires
            self.wf(),
        ensures
            r.is_ok() <==> record.descriptor@.len() == self.config.desc_length,
            r.is_ok() ==> r.unwrap() == exists|k: int|
                0 <= k < self@.pages[route(
                    self@.nodes,
                    self@.root,
                    record.descriptor@,
                    None,
                ).0 as int].len() && same_point(
                    (#[trigger] self@.pages[route(
                        self@.nodes,
                        self@.root,
                        record.descriptor@,
                        None,
                    ).0 as int][k]).descriptor,
                    record.descriptor@,
                ),
            r.is_err() ==> r == Err::<bool, Error>(Error::DimensionMismatch),
    {
        if record.descriptor.data.len() != self.config.desc_length {
            return Err(Error::DimensionMismatch);
        }
        let found = self.locate(&record.descriptor);
        proof {
            self.record_handler.lemma_wf();
        }
        match self.record_handler.get_record_page(&found.0) {
            Ok(page) => Ok(page.descriptor_in_page(&record.descriptor)),
            Err(e) => Err(e),
        }
    }
}

} // verus!

verus! {

/// The cut for an overflowing leaf: the axes are tried in rotation from
/// `start_axis`, each with the median of the records on it, and the first
/// whose cut leaves records on both sides is taken.
fn choose_axis<F: Fn(u32, u32) -> u32>(
    records: &Vec<TreeRecord>,
    start_axis: usize,
    dim: usize,
    midpoint: F,
) -> (chosen: Option<(usize, u32)>)
    requires
        1 <= dim <= 256,
        start_axis < dim,
        records@.len() > 0,
        uniform(records@, dim as nat),
        forall|a: u32, b: u32| call_requires(midpoint, (a, b)),
    ensures
        match chosen {
            Some((axis, value)) => axis < dim && divides(
                record_views(records@),
                axis as int,
                value,
            ),
            None => true,
        },
        forall|mid: spec_fn(u32, u32) -> u32|
            computes(midpoint, mid) ==> chosen == choose_cut(
                record_views(records@),
                start_axis as nat,
                dim as nat,
                mid,
                0,
            ),
{
    let ghost all = record_views(records@);
    let mut tries: usize = 0;
    let mut chosen: Option<(usize, u32)> = None;
    while tries < dim
        invariant_except_break
            chosen.is_none(),
            forall|mid: spec_fn(u32, u32) -> u32|
                computes(midpoint, mid) ==> choose_cut(
                    all,
                    start_axis as nat,
                    dim as nat,
                    mid,
                    0,
                ) == choose_cut(all, start_axis as nat, dim as nat, mid, tries as nat),
        invariant
            tries <= dim,
            1 <= dim <= 256,
            start_axis < dim,
            records@.len() > 0,
            uniform(records@, dim as nat),
            all == record_views(records@),
            forall|a: u32, b: u32| call_requires(midpoint, (a, b)),
        ensures
            match chosen {
                Some((axis, value)) => axis < dim && divides(all, axis as int, value),
                None => true,
            },
            forall|mid: spec_fn(u32, u32) -> u32|
                computes(midpoint, mid) ==> chosen == choose_cut(
                    all,
                    start_axis as nat,
                    dim as nat,
                    mid,
                    0,
                ),
        decreases dim - tries,
    {
        let axis: usize = (start_axis + tries) % dim;
        proof {
            assert forall|k: int| 0 <= k < records@.len() implies axis < (
            #[trigger] records@[k]).descriptor@.len() by {
                assert(records@[k].wf());
            }
        }
        let (lo, hi) = middle_on_axis(records, axis);
        let value: u32 = if records.len() % 2 == 1 {
            lo
        } else {
            midpoint(lo, hi)
        };
        let left = one_side(records, axis, value, true);
        let right = one_side(records, axis, value, false);
        proof {
            assert(left@.len() == record_views(left@).len());
            assert(right@.len() == record_views(right@).len());
            assert(axis_values(all, axis as int).len() == records@.len());
            assert forall|mid: spec_fn(u32, u32) -> u32| computes(midpoint, mid) implies value
                == median(axis_values(all, axis as int), mid) by {}
        }
        if left.len() > 0 && right.len() > 0 {
            chosen = Some((axis, value));
            break ;
        }
        tries += 1;
    }
    chosen
}

/// A well-formed tree stays well formed when the content database gains
/// an entry.
pub proof fn lemma_entry_keeps_tree(v: TreeView, smiles: Seq<char>, identifier: Seq<u8>)
    requires
        tree_ok(v),
    ensures
        tree_ok(with_entry(v, smiles, identifier)),
        tree_records(with_entry(v, smiles, identifier)) == tree_records(v),
{
    let w = with_entry(v, smiles, identifier);
    assert forall|x: RecordView| #[trigger] tree_records(w).count(x) > 0 implies x.index
        < w.entries.len() by {
        assert(tree_records(v).count(x) > 0);
    }
}

impl Tree {
    /// Cuts the leaf that `record` is routed to, with `record` added, at
    /// `value` on `axis`: the leaf keeps the records at or below the cut,
    /// a new leaf takes the others, and a new node over both takes the
    /// leaf's place under its parent, or as the root. `DimensionMismatch`
    /// when the record or the axis does not fit the tree, `PageFull` when
    /// the cut leaves one side empty.
    pub fn split(&mut self, record: &TreeRecord, axis: usize, value: u32) -> (r: Result<(), Error>)
        requires
            old(self).wf(),
            old(self).node_handler@.len() < usize::MAX,
            old(self).record_handler.next_free_index < usize::MAX,
        ensures
            final(self).wf(),
            final(self).config == old(self).config,
            final(self).database == old(self).database,
            final(self).record_handler.limit() == old(self).record_handler.limit(),
            !(record.wf() && record.length == old(self).config.desc_length
                && axis < old(self).config.desc_length) ==> r == Err::<(), Error>(
                Error::DimensionMismatch,
            ),
            record.wf() && record.length == old(self).config.desc_length
                && axis < old(self).config.desc_length ==> (if divides(
                old(self)@.pages[route(
                    old(self)@.nodes,
                    old(self)@.root,
                    record.descriptor@,
                    None,
                ).0 as int].push(record@),
                axis as int,
                value,
            ) {
                r.is_ok()
            } else {
                r == Err::<(), Error>(Error::PageFull)
            }),
            r.is_ok() ==> final(self)@ == cut(old(self)@, record@, axis, value),
            r.is_err() ==> final(self)@ == old(self)@,
    {
        let dim: usize = self.config.desc_length;
        if record.length != dim || record.descriptor.length != dim || record.descriptor.data.len()
            != dim || axis >= dim {
            return Err(Error::DimensionMismatch);
        }
        let found = self.locate(&record.descriptor);
        let this_index: usize = found.0;
        proof {
            self.record_handler.lemma_wf();
        }
        let page = match self.record_handler.get_record_page(&this_index) {
            Ok(page) => page,
            Err(e) => {
                return Err(e);
            },
        };
        let mut records = page.get_records();
        let ghost held = records@;
        records.push(record.clone());
        proof {
            assert(record_views(records@) =~= old(self)@.pages[this_index as int].push(record@));
            assert forall|k: int| 0 <= k < records@.len() implies (#[trigger] records@[k]).wf()
                && records@[k].length == dim by {
                if k < held.len() {
                    assert(records@[k] == held[k]);
                }
            }
            assert forall|k: int| 0 <= k < records@.len() implies axis < (
            #[trigger] records@[k]).descriptor@.len() by {
                assert(records@[k].wf());
            }
        }
        let left_records = one_side(&records, axis, value, true);
        let right_records = one_side(&records, axis, value, false);
        proof {
            assert(left_records@.len() == record_views(left_records@).len());
            assert(right_records@.len() == record_views(right_records@).len());
        }
        if left_records.len() == 0 || right_records.len() == 0 {
            return Err(Error::PageFull);
        }
        proof {
            crate::proofs::lemma_bucket_sizes(
                record_views(records@),
                axis as int,
                value,
            );
            assert(page@.len() == page.tail);
        }
        let left_record_page = fill_page(
            self.config.record_page_length,
            self.config.desc_length,
            &left_records,
        );
        let right_record_page = fill_page(
            self.config.record_page_length,
            self.config.desc_length,
            &right_records,
        );
        let ghost before = self@;
        match self.record_handler.update_page(&left_record_page, &this_index) {
            Ok(()) => {},
            Err(e) => {
                return Err(e);
            },
        }
        let right_child_pointer = match self.record_handler.add_page(&right_record_page) {
            Ok(pointer) => pointer,
            Err(e) => {
                return Err(e);
            },
        };
        let node = InternalNode {
            left_child_pointer: PagePointer::Leaf(this_index),
            right_child_pointer,
            split_axis: axis,
            split_value: value,
        };
        let pointer = match self.node_handler.add_node(&node) {
            Ok(pointer) => pointer,
            Err(e) => {
                return Err(e);
            },
        };
        match found.1 {
            Some((index, arm)) => {
                let parent: InternalNode = self.node_handler.store[index];
                let updated_node = match arm {
                    Direction::Left => InternalNode { left_child_pointer: pointer, ..parent },
                    Direction::Right => InternalNode { right_child_pointer: pointer, ..parent },
                };
                match self.node_handler.update_node(&index, &updated_node) {
                    Ok(()) => {},
                    Err(e) => {
                        return Err(e);
                    },
                }
            },
            None => {
                self.root = pointer;
            },
        }
        proof {
            self.record_handler.lemma_wf();
            let after = cut(before, record@, axis, value);
            assert(self@.pages =~= after.pages);
            assert(self@.nodes =~= after.nodes);
            assert(self@ == after);
            assert forall|i: int| 0 <= i < self@.nodes.len() implies #[trigger] node_shaped(
                self@.nodes,
                i,
                self@.pages.len(),
                self@.dim,
            ) by {
                if i < before.nodes.len() {
                    assert(node_shaped(before.nodes, i, before.pages.len(), before.dim));
                }
            }
        }
        Ok(())
    }

    /// Takes a compound in: its SMILES text and identifier go to the
    /// content database under the next index, and its descriptor goes,
    /// under that index, into the leaf that a descent for it ends in. A
    /// full leaf is cut in two first. The midpoint of two coordinates is
    /// the caller's to compute.
    ///
    /// Refused, and the tree left as it was: a descriptor of another
    /// length than the tree's (`DimensionMismatch`), a coordinate that is
    /// not a number (`InvalidDescriptor`), SMILES text of more than a
    /// hundred bytes (`PayloadTooLarge`), and a record for a full leaf that
    /// no axis divides (`PageFull`).
    pub fn add_record<F: Fn(u32, u32) -> u32>(&mut self, record: &CompoundRecord, midpoint: F) -> (r:
        Result<(), Error>)
        requires
            old(self).wf(),
            old(self).has_room(),
            forall|a: u32, b: u32| call_requires(midpoint, (a, b)),
        ensures
            final(self).wf(),
            final(self).config == old(self).config,
            final(self).record_handler.limit() == old(self).record_handler.limit(),
            !record.fits(old(self).config.desc_length) ==> r == Err::<(), Error>(
                Error::DimensionMismatch,
            ),
            record.fits(old(self).config.desc_length) && has_nan(record.descriptor@) ==> r == Err::<
                (),
                Error,
            >(Error::InvalidDescriptor),
            record.fits(old(self).config.desc_length) && !has_nan(record.descriptor@)
                && encode_utf8(record.smiles@).len() > 100 ==> r == Err::<(), Error>(
                Error::PayloadTooLarge,
            ),
            record.acceptable(old(self).config.desc_length) ==> r.is_ok() || r == Err::<(), Error>(
                Error::PageFull,
            ),
            record.acceptable(old(self).config.desc_length) && old(self)@.pages[route(
                old(self)@.nodes,
                old(self)@.root,
                record.descriptor@,
                None,
            ).0 as int].len() < old(self)@.capacity ==> r.is_ok(),
            r.is_err() ==> final(self)@ == old(self)@,
            r.is_ok() ==> final(self)@.entries == old(self)@.entries.push(
                decode_entry(entry_bytes(encode_utf8(record.smiles@), record.compound_identifier@)),
            ),
            r.is_ok() ==> final(self)@ == stored(
                with_entry(old(self)@, record.smiles@, record.compound_identifier@),
                next_record(old(self)@, record.descriptor@),
            ) || exists|axis: usize, value: u32|
                axis < old(self).config.desc_length && final(self)@ == #[trigger] cut(
                    with_entry(old(self)@, record.smiles@, record.compound_identifier@),
                    next_record(old(self)@, record.descriptor@),
                    axis,
                    value,
                ),
            record.acceptable(old(self).config.desc_length) ==> forall|
                mid: spec_fn(u32, u32) -> u32,
            |
                computes(midpoint, mid) ==> (match inserted(
                    with_entry(old(self)@, record.smiles@, record.compound_identifier@),
                    next_record(old(self)@, record.descriptor@),
                    mid,
                ) {
                    Some(v) => r.is_ok() && final(self)@ == v,
                    None => r == Err::<(), Error>(Error::PageFull),
                }),
            tree_ok(old(self)@) && r.is_ok() ==> tree_ok(final(self)@) && tree_records(
                final(self)@,
            ) == tree_records(old(self)@).insert(next_record(old(self)@, record.descriptor@)),
            tree_ok(old(self)@) && r.is_err() ==> tree_ok(final(self)@),
    {
        let dim: usize = self.config.desc_length;
        if record.length != dim || record.descriptor.length != dim || record.descriptor.data.len()
            != dim {
            return Err(Error::DimensionMismatch);
        }
        if record.descriptor.contains_nan() {
            return Err(Error::InvalidDescriptor);
        }
        if record.smiles.as_str().as_bytes().len() > crate::data::MAX_SMILES_LENGTH {
            return Err(Error::PayloadTooLarge);
        }
        let ghost before = self@;
        let ghost base = with_entry(before, record.smiles@, record.compound_identifier@);
        let ghost rec = next_record(before, record.descriptor@);
        let index: u64 = self.database.num_entries;
        let tree_record = record.get_tree_record(&index);
        let found = self.locate(&record.descriptor);
        proof {
            self.record_handler.lemma_wf();
            assert(tree_record@ == rec);
            assert(route(base.nodes, base.root, rec.descriptor, None) == found);
            if tree_ok(before) {
                lemma_entry_keeps_tree(before, record.smiles@, record.compound_identifier@);
            }
        }
        let mut page = match self.record_handler.get_record_page(&found.0) {
            Ok(page) => page,
            Err(e) => {
                return Err(e);
            },
        };
        if !page.is_full() {
            match page.add_record(&tree_record) {
                Ok(()) => {},
                Err(e) => {
                    return Err(e);
                },
            }
            match self.database.add_compound_record(record) {
                Ok(_) => {},
                Err(e) => {
                    return Err(e);
                },
            }
            match self.record_handler.update_page(&page, &found.0) {
                Ok(()) => {},
                Err(e) => {
                    return Err(e);
                },
            }
            proof {
                self.record_handler.lemma_wf();
                assert(self@.pages =~= stored(base, rec).pages);
                assert(self@ == stored(base, rec));
                assert forall|i: int| 0 <= i < self@.nodes.len() implies #[trigger] node_shaped(
                    self@.nodes,
                    i,
                    self@.pages.len(),
                    self@.dim,
                ) by {
                    assert(node_shaped(before.nodes, i, before.pages.len(), before.dim));
                }
                if tree_ok(before) {
                    theorem_stored(base, rec);
                }
            }
            return Ok(());
        }
        let mut records = page.get_records();
        let ghost held = records@;
        records.push(tree_record.clone());
        let start_axis: usize = match found.1 {
            Some((parent, _)) => {
                proof {
                    assert(node_shaped(before.nodes, parent as int, before.pages.len(), before.dim));
                }
                (self.node_handler.store[parent].split_axis + 1) % dim
            },
            None => 0,
        };
        proof {
            assert(record_views(records@) =~= before.pages[found.0 as int].push(rec));
            assert forall|k: int| 0 <= k < records@.len() implies (#[trigger] records@[k]).wf()
                && records@[k].length == dim by {
                if k < held.len() {
                    assert(records@[k] == held[k]);
                }
            }
            assert(start_axis == first_axis(before.nodes, found.1, dim as nat));
        }
        match choose_axis(&records, start_axis, dim, midpoint) {
            None => Err(Error::PageFull),
            Some((axis, value)) => {
                match self.database.add_compound_record(record) {
                    Ok(_) => {},
                    Err(e) => {
                        return Err(e);
                    },
                }
                proof {
                    assert(self@ == base);
                    assert forall|i: int| 0 <= i < self@.nodes.len() implies #[trigger] node_shaped(
                        self@.nodes,
                        i,
                        self@.pages.len(),
                        self@.dim,
                    ) by {
                        assert(node_shaped(before.nodes, i, before.pages.len(), before.dim));
                    }
                }
                let done = self.split(&tree_record, axis, value);
                proof {
                    assert(done.is_ok());
                    assert(self@ == cut(base, rec, axis, value));
                    if tree_ok(before) {
                        theorem_cut(base, rec, axis, value);
                    }
                }
                done
            },
        }
    }
}

} // verus!

verus! {

/// The tree that the files of a tree directory hold.
pub open spec fn opened_view(
    config: TreeConfig,
    node_image: Seq<u8>,
    page_image: Seq<u8>,
    database_image: Seq<u8>,
) -> TreeView {
    TreeView {
        nodes: crate::io::decode_node_file(node_image),
        pages: crate::io::decode_page_file(
            page_image,
            config.record_page_length as nat,
            config.desc_length as nat,
        ),
        root: if crate::io::announced_nodes(node_image) > 0 {
            PagePointer::Node(0)
        } else {
            PagePointer::Leaf(0)
        },
        entries: crate::database::database_entries(
            database_image,
            crate::bytes::le_value(database_image.subrange(0, 8)),
        ),
        dim: config.desc_length as nat,
        capacity: capacity_of(config.record_page_length as nat, config.desc_length as nat),
    }
}

/// The three files are readable and hold a tree of sound shape for the
/// configuration.
pub open spec fn openable(
    config: TreeConfig,
    node_image: Seq<u8>,
    page_image: Seq<u8>,
    database_image: Seq<u8>,
) -> bool {
    &&& crate::io::node_file_readable(node_image)
    &&& crate::io::page_file_readable(
        page_image,
        config.record_page_length as nat,
        config.desc_length as nat,
    )
    &&& database_image.len() >= 8
    &&& crate::database::is_database_file(
        database_image,
        crate::bytes::le_value(database_image.subrange(0, 8)),
    )
    &&& shape_ok(opened_view(config, node_image, page_image, database_image))
}

/// Whether every node of the table points forward at targets that exist
/// and cuts on an axis of the tree.
fn nodes_shaped(nodes: &Vec<InternalNode>, pages: usize, dim: usize) -> (r: bool)
    ensures
        r == forall|i: int|
            0 <= i < nodes@.len() ==> #[trigger] node_shaped(nodes@, i, pages as nat, dim as nat),
{
    let mut i: usize = 0;
    while i < nodes.len()
        invariant
            i <= nodes@.len(),
            forall|j: int| 0 <= j < i ==> #[trigger] node_shaped(nodes@, j, pages as nat, dim as nat),
        decreases nodes@.len() - i,
    {
        let node: InternalNode = nodes[i];
        let left_ok = match node.left_child_pointer {
            PagePointer::Node(j) => i < j && j < nodes.len(),
            PagePointer::Leaf(p) => p < pages,
        };
        let right_ok = match node.right_child_pointer {
            PagePointer::Node(j) => i < j && j < nodes.len(),
            PagePointer::Leaf(p) => p < pages,
        };
        if !left_ok || !right_ok || node.split_axis >= dim {
            proof {
                assert(!node_shaped(nodes@, i as int, pages as nat, dim as nat));
            }
            return false;
        }
        i += 1;
    }
    true
}

impl Tree {
    /// The tree that the files of a tree directory hold, with an empty
    /// cache. `ConfigMalformed` when no tree can be built on the
    /// configuration, `CorruptPage` when a file is not readable or the
    /// nodes do not point forward at targets that exist.
    pub fn open(
        config: TreeConfig,
        node_image: &[u8],
        page_image: &[u8],
        database_image: &[u8],
        cache_limit: Option<usize>,
    ) -> (r: Result<Self, Error>)
        ensures
            !config.usable() ==> r == Err::<Self, Error>(Error::ConfigMalformed),
            config.usable() && !openable(config, node_image@, page_image@, database_image@) ==> r
                == Err::<Self, Error>(Error::CorruptPage),
            config.usable() && openable(config, node_image@, page_image@, database_image@)
                ==> r.is_ok(),
            r.is_ok() ==> r.unwrap().wf() && r.unwrap().config == config && r.unwrap()@
                == opened_view(config, node_image@, page_image@, database_image@)
                && r.unwrap().record_handler.limit() == cache_limit,
    {
        if !config.is_usable() {
            return Err(Error::ConfigMalformed);
        }
        let node_handler = match FastNodePager::from_bytes(node_image) {
            Ok(pager) => pager,
            Err(_) => {
                return Err(Error::CorruptPage);
            },
        };
        let record_handler = match RecordPager::from_bytes(
            page_image,
            config.record_page_length,
            config.desc_length,
            cache_limit,
        ) {
            Ok(pager) => pager,
            Err(_) => {
                return Err(Error::CorruptPage);
            },
        };
        let database = match Database::open(database_image) {
            Ok(database) => database,
            Err(_) => {
                return Err(Error::CorruptPage);
            },
        };
        let root = if node_handler.len() > 0 {
            PagePointer::Node(0)
        } else {
            PagePointer::Leaf(0)
        };
        proof {
            record_handler.lemma_wf();
        }
        let pages: usize = record_handler.len();
        let ghost v = opened_view(config, node_image@, page_image@, database_image@);
        proof {
            assert(v.nodes == node_handler@);
            assert(v.pages.len() == pages);
        }
        if pages == 0 || !nodes_shaped(&node_handler.store, pages, config.desc_length) {
            return Err(Error::CorruptPage);
        }
        let tree = Tree { node_handler, record_handler, database, root, config };
        proof {
            assert(tree@ == opened_view(config, node_image@, page_image@, database_image@));
        }
        Ok(tree)
    }

    /// The node file of this tree.
    pub fn node_image(&self) -> (image: Vec<u8>)
        requires
            self.wf(),
            8 + 27 * self@.nodes.len() <= usize::MAX,
        ensures
            crate::io::is_node_file(image@, self@.nodes),
    {
        self.node_handler.to_bytes()
    }

    /// The leaf page file of this tree as it is stored: flush first.
    pub fn page_image(&self) -> (image: Vec<u8>)
        requires
            self.wf(),
            8 + self.record_handler.stored().len() * self.config.record_page_length <= usize::MAX,
        ensures
            crate::io::is_page_file(
                image@,
                self.record_handler.next_free_index as nat,
                self.config.record_page_length as nat,
                self.record_handler.stored(),
            ),
    {
        self.record_handler.to_bytes()
    }

    /// The content database file of this tree.
    pub fn database_image(&self) -> (image: &Vec<u8>)
        ensures
            image@ == self.database.file@,
    {
        &self.database.file
    }
}

} // verus!
