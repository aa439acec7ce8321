//! The node table and the leaf pager, with the byte images of their files.

use vstd::prelude::*;
use vstd::slice::slice_subrange;
use crate::bytes::{
    append_bytes, be_bytes, be_value, byteorder_write_u64, lemma_be_bytes_len,
    lemma_be_value_of_bytes, lemma_pow256_values, read_be,
};
use crate::cache::PageCache;
use crate::error::Error;
use crate::layout;
use crate::node::{
    decode_node, lemma_node_roundtrip, node_bytes, node_readable, InternalNode, PagePointer,
};
use crate::page::{geometry_is_valid, page_readable, valid_geometry, RecordPage};
use crate::record::RecordView;

verus! {

/// The header of a node file that holds `count` nodes: the index of the
/// last one, or all ones when there is none.
pub open spec fn node_header(count: nat) -> nat {
    if count == 0 {
        u64::MAX as nat
    } else {
        (count - 1) as nat
    }
}

/// The number of nodes that a node file with this header holds.
pub open spec fn node_count(header: nat) -> nat {
    if header >= u64::MAX {
        0
    } else {
        header + 1
    }
}

/// The bytes of node `i` in a node file.
pub open spec fn node_slot(image: Seq<u8>, i: int) -> Seq<u8> {
    image.subrange(8 + 27 * i, 8 + 27 * i + 27)
}

/// True when `image` is the node file of `nodes`.
pub open spec fn is_node_file(image: Seq<u8>, nodes: Seq<InternalNode>) -> bool {
    &&& image.len() == 8 + 27 * nodes.len()
    &&& image.subrange(0, 8) == be_bytes(node_header(nodes.len()), 8)
    &&& forall|i: int| 0 <= i < nodes.len() ==> #[trigger] node_slot(image, i) == node_bytes(nodes[i])
}

/// The number of nodes that the header of `image` announces.
pub open spec fn announced_nodes(image: Seq<u8>) -> nat {
    node_count(be_value(image.subrange(0, 8)))
}

/// True when `image` holds a header and every node that it announces, each
/// of them readable.
pub open spec fn node_file_readable(image: Seq<u8>) -> bool {
    &&& image.len() >= 8
    &&& 8 + 27 * announced_nodes(image) <= image.len()
    &&& forall|i: int| 0 <= i < announced_nodes(image) ==> node_readable(#[trigger] node_slot(image, i))
}

/// The nodes stored in `image`.
pub open spec fn decode_node_file(image: Seq<u8>) -> Seq<InternalNode> {
    Seq::new(announced_nodes(image), |i: int| decode_node(node_slot(image, i)))
}

/// A node file is read back as the nodes it was written from, as long as
/// every axis fits in its byte.
pub proof fn lemma_node_file_roundtrip(image: Seq<u8>, nodes: Seq<InternalNode>)
    requires
        is_node_file(image, nodes),
        nodes.len() <= u64::MAX,
        forall|i: int| 0 <= i < nodes.len() ==> (#[trigger] nodes[i]).split_axis < 256,
    ensures
        node_file_readable(image),
        decode_node_file(image) == nodes,
{
    lemma_pow256_values();
    lemma_be_value_of_bytes(node_header(nodes.len()), 8);
    assert(announced_nodes(image) == nodes.len());
    assert forall|i: int| 0 <= i < nodes.len() implies node_readable(
        #[trigger] node_slot(image, i),
    ) && decode_node(node_slot(image, i)) == nodes[i] by {
        lemma_node_roundtrip(nodes[i]);
    }
    assert(decode_node_file(image) =~= nodes);
}

/// Read access to internal nodes by index.
pub trait GetNode {
    /// The nodes that can be read.
    spec fn nodes(&self) -> Seq<InternalNode>;

    /// The node at `index`; `KeyNotFound` when there is none.
    fn get_node(&self, index: &usize) -> (r: Result<&InternalNode, Error>)
        ensures
            r.is_ok() <==> *index < self.nodes().len(),
            r.is_ok() ==> *r.unwrap() == self.nodes()[*index as int],
            r.is_err() ==> r == Err::<&InternalNode, Error>(Error::KeyNotFound),
    ;
}

/// Offset of node `index` in the node file.
pub fn node_offset(index: usize) -> (offset: usize)
    requires
        8 + 27 * index <= usize::MAX,
    ensures
        offset == 8 + 27 * index,
{
    layout::FILE_DATA_START + (index * layout::NODE_SIZE)
}

/// Reads the nodes of a node file; `CorruptPage` when the image is not a
/// readable node file.
fn read_node_file(image: &[u8]) -> (r: Result<Vec<InternalNode>, Error>)
    ensures
        r.is_ok() <==> node_file_readable(image@),
        r.is_ok() ==> r.unwrap()@ == decode_node_file(image@),
        r.is_err() ==> r == Err::<Vec<InternalNode>, Error>(Error::CorruptPage),
{
    if image.len() < layout::FILE_DATA_START {
        return Err(Error::CorruptPage);
    }
    let header: u64 = read_be(image, layout::HEADER_CURSOR_START, layout::HEADER_CURSOR_SIZE);
    let count: u64 = if header == u64::MAX { 0 } else { header + 1 };
    let room: usize = (image.len() - layout::FILE_DATA_START) / layout::NODE_SIZE;
    if count > room as u64 {
        return Err(Error::CorruptPage);
    }
    let count: usize = count as usize;
    let mut store: Vec<InternalNode> = Vec::new();
    let mut i: usize = 0;
    while i < count
        invariant
            i <= count,
            count == announced_nodes(image@),
            8 + 27 * count <= image@.len(),
            image@.len() <= usize::MAX,
            store@.len() == i,
            forall|j: int| 0 <= j < i ==> node_readable(#[trigger] node_slot(image@, j)),
            forall|j: int| 0 <= j < i ==> store@[j] == decode_node(#[trigger] node_slot(image@, j)),
        decreases count - i,
    {
        let start: usize = node_offset(i);
        let slot = slice_subrange(image, start, start + layout::NODE_SIZE);
        proof {
            assert(slot@ == node_slot(image@, i as int));
        }
        match InternalNode::from_slice(slot) {
            Ok(node) => {
                store.push(node);
            },
            Err(_) => {
                return Err(Error::CorruptPage);
            },
        }
        i += 1;
    }
    proof {
        assert(store@ =~= decode_node_file(image@));
    }
    Ok(store)
}

/// The node table: every internal node, held in memory and addressed by
/// its position.
#[derive(Debug)]
pub struct FastNodePager {
    pub store: Vec<InternalNode>,
}

impl View for FastNodePager {
    type V = Seq<InternalNode>;

    open spec fn view(&self) -> Seq<InternalNode> {
        self.store@
    }
}

impl GetNode for FastNodePager {
    open spec fn nodes(&self) -> Seq<InternalNode> {
        self.store@
    }

    fn get_node(&self, index: &usize) -> (r: Result<&InternalNode, Error>) {
        if *index < self.store.len() {
            Ok(&self.store[*index])
        } else {
            Err(Error::KeyNotFound)
        }
    }
}

impl FastNodePager {
    /// An empty table.
    pub fn new() -> (p: FastNodePager)
        ensures
            p@ == Seq::<InternalNode>::empty(),
    {
        FastNodePager { store: Vec::new() }
    }

    /// Nodes held.
    pub fn len(&self) -> (n: usize)
        ensures
            n == self@.len(),
    {
        self.store.len()
    }

    /// Nodes held.
    pub fn num_nodes(&self) -> (n: usize)
        ensures
            n == self@.len(),
    {
        self.store.len()
    }

    /// The node file of this table.
    pub fn to_bytes(&self) -> (image: Vec<u8>)
        requires
            8 + 27 * self@.len() <= usize::MAX,
        ensures
            is_node_file(image@, self@),
    {
        let count: usize = self.store.len();
        let header: u64 = if count == 0 { u64::MAX } else { (count - 1) as u64 };
        let cursor: [u8; 8] = byteorder_write_u64(header);
        let mut image: Vec<u8> = Vec::new();
        append_bytes(&mut image, cursor.as_slice());
        proof {
            lemma_be_bytes_len(header as nat, 8);
            assert(image@ =~= be_bytes(header as nat, 8));
        }
        let mut i: usize = 0;
        while i < count
            invariant
                i <= count,
                count == self@.len(),
                image@.len() == 8 + 27 * i,
                image@.subrange(0, 8) == be_bytes(header as nat, 8),
                forall|j: int| 0 <= j < i ==> #[trigger] node_slot(image@, j) == node_bytes(self@[j]),
            decreases count - i,
        {
            let slice: [u8; 27] = self.store[i].to_arr();
            let ghost before = image@;
            append_bytes(&mut image, slice.as_slice());
            proof {
                assert(image@.subrange(0, 8) =~= before.subrange(0, 8));
                assert(node_slot(image@, i as int) =~= slice@);
                assert forall|j: int| 0 <= j < i implies #[trigger] node_slot(image@, j)
                    == node_bytes(self@[j]) by {
                    assert(node_slot(image@, j) =~= node_slot(before, j));
                }
            }
            i += 1;
        }
        image
    }

    /// The table stored in a node file; `CorruptPage` when the image is
    /// not a readable node file.
    pub fn from_bytes(image: &[u8]) -> (r: Result<FastNodePager, Error>)
        ensures
            r.is_ok() <==> node_file_readable(image@),
            r.is_ok() ==> r.unwrap()@ == decode_node_file(image@),
            r.is_err() ==> r == Err::<FastNodePager, Error>(Error::CorruptPage),
    {
        match read_node_file(image) {
            Ok(store) => Ok(FastNodePager { store }),
            Err(_) => Err(Error::CorruptPage),
        }
    }

    /// Appends `node` and returns the pointer to it.
    pub fn add_node(&mut self, node: &InternalNode) -> (r: Result<PagePointer, Error>)
        ensures
            final(self)@ == old(self)@.push(*node),
            r == Ok::<PagePointer, Error>(PagePointer::Node(old(self)@.len() as usize)),
    {
        self.store.push(*node);
        let added_index = self.store.len() - 1;
        Ok(PagePointer::Node(added_index))
    }

    /// Puts `new_node` in place of the node at `index`; `KeyNotFound` when
    /// there is none.
    pub fn update_node(&mut self, index: &usize, new_node: &InternalNode) -> (r: Result<(), Error>)
        ensures
            r.is_ok() <==> *index < old(self)@.len(),
            r.is_ok() ==> final(self)@ == old(self)@.update(*index as int, *new_node),
            r.is_err() ==> r == Err::<(), Error>(Error::KeyNotFound) && final(self)@ == old(self)@,
    {
        if *index >= self.store.len() {
            return Err(Error::KeyNotFound);
        }
        self.store[*index] = *new_node;
        Ok(())
    }
}

/// A node table that is only read.
pub struct ImmutNodePager {
    pub store: Vec<InternalNode>,
}

impl GetNode for ImmutNodePager {
    open spec fn nodes(&self) -> Seq<InternalNode> {
        self.store@
    }

    fn get_node(&self, index: &usize) -> (r: Result<&InternalNode, Error>) {
        if *index < self.store.len() {
            Ok(&self.store[*index])
        } else {
            Err(Error::KeyNotFound)
        }
    }
}

impl ImmutNodePager {
    /// Nodes held.
    pub fn len(&self) -> (n: usize)
        ensures
            n == self.store@.len(),
    {
        self.store.len()
    }

    /// The table stored in a node file; `CorruptPage` when the image is
    /// not a readable node file.
    pub fn from_bytes(image: &[u8]) -> (r: Result<ImmutNodePager, Error>)
        ensures
            r.is_ok() <==> node_file_readable(image@),
            r.is_ok() ==> r.unwrap().store@ == decode_node_file(image@),
            r.is_err() ==> r == Err::<ImmutNodePager, Error>(Error::CorruptPage),
    {
        match read_node_file(image) {
            Ok(store) => Ok(ImmutNodePager { store }),
            Err(_) => Err(Error::CorruptPage),
        }
    }
}

/// A node table left in its file: it knows where each node lies and reads
/// one node from the bytes found there.
pub struct DiskNodePager {
    pub filename: String,
}

impl DiskNodePager {
    /// The pager over the node file of that name.
    pub fn from_file(filename: &String) -> (r: Result<Self, Error>)
        ensures
            r.is_ok(),
            r.unwrap().filename@ == filename@,
    {
        Ok(DiskNodePager { filename: filename.clone() })
    }

    /// Offset of node `index` in the node file.
    pub fn calc_offset(index: usize) -> (offset: usize)
        requires
            8 + 27 * index <= usize::MAX,
        ensures
            offset == 8 + 27 * index,
    {
        node_offset(index)
    }

    /// The node that the bytes found at a node's offset spell.
    pub fn parse_node(&self, slot: &[u8]) -> (r: Result<InternalNode, Error>)
        ensures
            r.is_ok() <==> node_readable(slot@),
            r.is_ok() ==> r.unwrap() == decode_node(slot@),
            r.is_err() ==> r == Err::<InternalNode, Error>(Error::CorruptPage),
    {
        InternalNode::from_slice(slot)
    }
}

} // verus!

verus! {

/// Page writes between two measurements of the cache.
pub const CACHE_CHECK_WINDOW: usize = 1000;

/// The bytes of page `i` in a page file with pages of `page_length` bytes.
pub open spec fn page_slot(image: Seq<u8>, i: int, page_length: int) -> Seq<u8> {
    image.subrange(8 + i * page_length, 8 + i * page_length + page_length)
}

/// True when `image` is the page file that announces `next_free` pages
/// and holds `pages`.
pub open spec fn is_page_file(
    image: Seq<u8>,
    next_free: nat,
    page_length: nat,
    pages: Seq<Seq<u8>>,
) -> bool {
    &&& image.len() == 8 + pages.len() * page_length
    &&& image.subrange(0, 8) == be_bytes(next_free, 8)
    &&& forall|i: int|
        0 <= i < pages.len() ==> #[trigger] page_slot(image, i, page_length as int) == pages[i]
}

/// True when `image` holds a header and every page that it announces, each
/// a readable leaf page of the given shape.
pub open spec fn page_file_readable(image: Seq<u8>, page_length: nat, desc_length: nat) -> bool {
    &&& valid_geometry(page_length, desc_length)
    &&& image.len() >= 8
    &&& be_value(image.subrange(0, 8)) <= usize::MAX
    &&& 8 + be_value(image.subrange(0, 8)) * page_length <= image.len()
    &&& forall|i: int|
        0 <= i < be_value(image.subrange(0, 8)) ==> page_readable(
            #[trigger] page_slot(image, i, page_length as int),
            page_length,
            desc_length,
        )
}

/// The records that the stored bytes of a leaf page hold.
pub open spec fn stored_records(data: Seq<u8>, desc_length: nat) -> Seq<RecordView> {
    crate::page::page_records(data, be_value(data.subrange(1, 5)), desc_length)
}

/// The records of every page of a page file.
pub open spec fn decode_page_file(image: Seq<u8>, page_length: nat, desc_length: nat) -> Seq<
    Seq<RecordView>,
> {
    Seq::new(
        be_value(image.subrange(0, 8)),
        |i: int| stored_records(page_slot(image, i, page_length as int), desc_length),
    )
}

/// The number of pages that leave a cache of `held` pages when it is
/// measured: none while it is within its ceiling, else a tenth of them or
/// as many as it is over the ceiling, whichever is more.
pub open spec fn leaving(held: nat, limit: Option<usize>, page_length: usize) -> nat {
    match limit {
        Some(bytes) => if held > bytes / page_length {
            if held / 10 > held - bytes / page_length {
                held / 10
            } else {
                (held - bytes / page_length) as nat
            }
        } else {
            0
        },
        None => 0,
    }
}

/// The number of cached pages after a write has left `held` pages in the
/// cache, `writes` writes after it was last measured.
pub open spec fn held_after_write(
    held: nat,
    writes: usize,
    limit: Option<usize>,
    page_length: usize,
) -> nat {
    if writes + 1 < CACHE_CHECK_WINDOW {
        held
    } else {
        (held - leaving(held, limit, page_length)) as nat
    }
}

/// The count of writes after one more write.
pub open spec fn writes_after_write(writes: usize) -> usize {
    if writes + 1 < CACHE_CHECK_WINDOW {
        (writes + 1) as usize
    } else {
        0
    }
}

/// Writes `page` into slot `key` of the stored pages, adding empty pages
/// up to that slot where the file was shorter.
fn store_page(store: &mut Vec<RecordPage>, key: usize, page: RecordPage)
    requires
        page.wf(),
        forall|i: int|
            0 <= i < old(store)@.len() ==> (#[trigger] old(store)@[i]).wf()
                && old(store)@[i].page_length == page.page_length
                && old(store)@[i].desc_length
                == page.desc_length,
    ensures
        final(store)@.len() == (if key < old(store)@.len() {
            old(store)@.len()
        } else {
            (key + 1) as nat
        }),
        final(store)@[key as int] == page,
        forall|i: int|
            0 <= i < old(store)@.len() && i != key ==> #[trigger] final(store)@[i] == old(store)@[i],
        forall|i: int|
            0 <= i < final(store)@.len() ==> (#[trigger] final(store)@[i]).wf()
                && final(store)@[i].page_length == page.page_length
                && final(store)@[i].desc_length
                == page.desc_length,
{
    while store.len() < key
        invariant
            page.wf(),
            store@.len() >= old(store)@.len(),
            store@.len() <= key || store@.len() == old(store)@.len(),
            forall|i: int| 0 <= i < old(store)@.len() ==> #[trigger] store@[i] == old(store)@[i],
            forall|i: int|
                0 <= i < store@.len() ==> (#[trigger] store@[i]).wf() && store@[i].page_length
                    == page.page_length && store@[i].desc_length == page.desc_length,
        decreases key - store@.len(),
    {
        store.push(RecordPage::new(page.page_length, page.desc_length));
    }
    if key < store.len() {
        store[key] = page;
    } else {
        store.push(page);
    }
}

/// The leaf pager: the pages of the page file, the pages written since
/// they were last stored, and the next free page index.
pub struct RecordPager {
    pub next_free_index: usize,
    pub desc_length: usize,
    pub page_length: usize,
    pub store: Vec<RecordPage>,
    pub cache: PageCache,
    pub cache_limit: Option<usize>,
    pub cache_check_counter: usize,
}

impl View for RecordPager {
    type V = Seq<Seq<RecordView>>;

    /// The records of every page, the cached copy where there is one.
    closed spec fn view(&self) -> Seq<Seq<RecordView>> {
        Seq::new(self.next_free_index as nat, |i: int| self.page(i)@)
    }
}

impl RecordPager {
    /// The current copy of page `i`.
    pub closed spec fn page(&self, i: int) -> RecordPage {
        if self.cache@.contains_key(i as usize) {
            self.cache@[i as usize]
        } else {
            self.store@[i]
        }
    }

    /// The bytes of the pages as they are stored.
    pub closed spec fn stored(&self) -> Seq<Seq<u8>> {
        Seq::new(self.store@.len(), |i: int| self.store@[i].data@)
    }

    /// Whether a copy of page `i` not yet stored is held.
    pub open spec fn is_cached(&self, i: usize) -> bool {
        self.cache@.contains_key(i)
    }

    /// Pages held in the cache.
    pub open spec fn cached_len(&self) -> nat {
        self.cache@.len()
    }

    /// The configured ceiling of the cache, in bytes.
    pub open spec fn limit(&self) -> Option<usize> {
        self.cache_limit
    }

    /// Page writes since the cache was last measured.
    pub open spec fn writes_since_check(&self) -> nat {
        self.cache_check_counter as nat
    }

    /// Every page is stored, and stored as the pager shows it: nothing is
    /// held in the cache alone.
    pub open spec fn flushed(&self) -> bool {
        &&& self.stored().len() == self.next_free_index
        &&& forall|i: int|
            0 <= i < self.next_free_index ==> page_readable(
                #[trigger] self.stored()[i],
                self.page_length as nat,
                self.desc_length as nat,
            ) && self@[i] == stored_records(self.stored()[i], self.desc_length as nat)
    }

    /// Everything but the bound on the cache.
    closed spec fn wf_core(&self) -> bool {
        &&& valid_geometry(self.page_length as nat, self.desc_length as nat)
        &&& self.cache.wf()
        &&& self.cache@.dom().finite()
        &&& self.store@.len() <= self.next_free_index
        &&& forall|i: int|
            0 <= i < self.store@.len() ==> (#[trigger] self.store@[i]).wf()
                && self.store@[i].page_length == self.page_length && self.store@[i].desc_length
                == self.desc_length
        &&& forall|k: usize| #[trigger]
            self.cache@.contains_key(k) ==> k < self.next_free_index && self.cache@[k].wf()
                && self.cache@[k].page_length == self.page_length && self.cache@[k].desc_length
                == self.desc_length
        &&& forall|i: int|
            0 <= i < self.next_free_index ==> #[trigger] self.cache@.contains_key(i as usize) || i
                < self.store@.len()
        &&& self.cache_check_counter < CACHE_CHECK_WINDOW
    }

    /// The cache holds at most the pages that fit under the ceiling, plus
    /// one for every write since it was last measured.
    pub closed spec fn cache_bounded(&self) -> bool {
        self.cache_limit.is_some() ==> self.cache@.len() <= self.cache_limit.unwrap()
            / self.page_length + self.cache_check_counter
    }

    /// Every page up to the next free index is held, cached or stored, in
    /// the pager's shape, and the cache is within its bound.
    pub closed spec fn wf(&self) -> bool {
        self.wf_core() && self.cache_bounded()
    }

    /// What `wf` says to callers.
    pub proof fn lemma_wf(&self)
        requires
            self.wf(),
        ensures
            valid_geometry(self.page_length as nat, self.desc_length as nat),
            self@.len() == self.next_free_index,
            self.writes_since_check() < CACHE_CHECK_WINDOW,
            self.limit().is_some() ==> self.cached_len() <= self.limit().unwrap()
                / self.page_length + self.writes_since_check(),
            forall|i: int|
                0 <= i < self.next_free_index ==> (#[trigger] self.page(i)).wf() && self.page(
                    i,
                ).page_length == self.page_length && self.page(i).desc_length == self.desc_length
                    && self@[i] == self.page(i)@,
    {
    }

    /// An empty pager for pages of the given shape, with the given ceiling
    /// on cached bytes; `ConfigMalformed` when pages of that shape cannot
    /// be held.
    pub fn new(page_length: usize, desc_length: usize, cache_limit: Option<usize>) -> (r: Result<
        Self,
        Error,
    >)
        ensures
            r.is_ok() <==> valid_geometry(page_length as nat, desc_length as nat),
            r.is_ok() ==> r.unwrap().wf() && r.unwrap()@ == Seq::<Seq<RecordView>>::empty()
                && r.unwrap().next_free_index == 0 && r.unwrap().page_length == page_length
                && r.unwrap().desc_length == desc_length && r.unwrap().limit() == cache_limit
                && r.unwrap().cached_len() == 0,
            r.is_err() ==> r == Err::<Self, Error>(Error::ConfigMalformed),
    {
        if !geometry_is_valid(page_length, desc_length) {
            return Err(Error::ConfigMalformed);
        }
        let pager = RecordPager {
            next_free_index: 0,
            desc_length,
            page_length,
            store: Vec::new(),
            cache: PageCache::new(),
            cache_limit,
            cache_check_counter: 0,
        };
        proof {
            assert(pager@ =~= Seq::<Seq<RecordView>>::empty());
        }
        Ok(pager)
    }

    /// Offset of page `address` in the page file.
    pub fn calc_offset(&self, address: &usize) -> (offset: u64)
        requires
            8 + *address * self.page_length <= u64::MAX,
        ensures
            offset == 8 + *address * self.page_length,
    {
        proof {
            assert(*address * self.page_length >= 0) by (nonlinear_arith);
        }
        let offset: u64 = (*address as u64) * (self.page_length as u64);
        layout::FILE_DATA_START as u64 + offset
    }

    /// The current copy of page `address`; `KeyNotFound` when the index is
    /// not in use.
    pub fn get_record_page(&self, address: &usize) -> (r: Result<RecordPage, Error>)
        requires
            self.wf(),
        ensures
            r.is_ok() <==> *address < self.next_free_index,
            r.is_ok() ==> r.unwrap().wf() && r.unwrap()@ == self@[*address as int]
                && r.unwrap().page_length == self.page_length && r.unwrap().desc_length
                == self.desc_length,
            r.is_err() ==> r == Err::<RecordPage, Error>(Error::KeyNotFound),
    {
        if *address >= self.next_free_index {
            return Err(Error::KeyNotFound);
        }
        match self.cache.get(*address) {
            Some(page) => {
                let copy = page.clone();
                proof {
                    assert(self.page(*address as int) == *page);
                }
                Ok(copy)
            },
            None => {
                proof {
                    assert(!self.cache@.contains_key(*address as int as usize));
                }
                Ok(self.store[*address].clone())
            },
        }
    }

    /// The stored copy of page `address`, whatever the cache holds;
    /// `KeyNotFound` when the page file has no such page.
    pub fn get_record_page_no_cache(&self, address: &usize) -> (r: Result<RecordPage, Error>)
        requires
            self.wf(),
        ensures
            r.is_ok() <==> *address < self.stored().len(),
            r.is_ok() ==> r.unwrap().wf() && r.unwrap().data@ == self.stored()[*address as int]
                && r.unwrap().page_length == self.page_length && r.unwrap().desc_length
                == self.desc_length,
            r.is_err() ==> r == Err::<RecordPage, Error>(Error::KeyNotFound),
    {
        if *address >= self.store.len() {
            return Err(Error::KeyNotFound);
        }
        Ok(self.store[*address].clone())
    }

    /// Pages held in the cache.
    pub fn get_cache_len(&self) -> (n: usize)
        ensures
            n == self.cached_len(),
    {
        self.cache.len()
    }

    /// Bytes held in the cache, or `None` when the count is beyond `usize`.
    pub fn get_cache_size_bytes(&self) -> (n: Option<usize>)
        ensures
            n.is_some() <==> self.cached_len() * self.page_length <= usize::MAX,
            n.is_some() ==> n.unwrap() == self.cached_len() * self.page_length,
    {
        self.cache.len().checked_mul(self.page_length)
    }

    /// The next free page index.
    pub fn len(&self) -> (n: usize)
        ensures
            n == self.next_free_index,
    {
        self.next_free_index
    }

    /// Writes the `count` pages that have been cached longest to their
    /// slots and drops them from the cache.
    fn evict(&mut self, count: usize)
        requires
            old(self).wf_core(),
            count <= old(self).cache@.len(),
        ensures
            final(self).wf_core(),
            final(self)@ == old(self)@,
            final(self).cache@.len() == old(self).cache@.len() - count,
            final(self).next_free_index == old(self).next_free_index,
            final(self).page_length == old(self).page_length,
            final(self).desc_length == old(self).desc_length,
            final(self).cache_limit == old(self).cache_limit,
            final(self).cache_check_counter == old(self).cache_check_counter,
            forall|k: usize| final(self).cache@.contains_key(k) ==> old(self).cache@.contains_key(k),
    {
        let mut done: usize = 0;
        while done < count
            invariant
                done <= count <= old(self).cache@.len(),
                self.wf_core(),
                self@ == old(self)@,
                self.cache@.len() == old(self).cache@.len() - done,
                self.next_free_index == old(self).next_free_index,
                self.page_length == old(self).page_length,
                self.desc_length == old(self).desc_length,
                self.cache_limit == old(self).cache_limit,
                self.cache_check_counter == old(self).cache_check_counter,
                forall|k: usize| self.cache@.contains_key(k) ==> old(self).cache@.contains_key(k),
            decreases count - done,
        {
            let ghost before = *self;
            match self.cache.pop_oldest() {
                Some((key, page)) => {
                    store_page(&mut self.store, key, page);
                    proof {
                        assert forall|i: int| 0 <= i < self.next_free_index implies self.page(i)
                            == before.page(i) by {
                            if i == key {
                            } else {
                                assert(self.cache@.contains_key(i as usize)
                                    == before.cache@.contains_key(i as usize));
                                if !before.cache@.contains_key(i as usize) {
                                    assert(i < before.store@.len());
                                }
                            }
                        }
                        assert(self@ =~= before@);
                    }
                },
                None => {
                    proof {
                        assert(before.cache@.len() == 0);
                    }
                },
            }
            done += 1;
        }
    }

    /// Counts one page write; after every `CACHE_CHECK_WINDOW` of them,
    /// brings the cache under its ceiling.
    fn tick(&mut self)
        requires
            old(self).wf_core(),
            old(self).cache_limit.is_some() ==> old(self).cache@.len() <= old(
                self,
            ).cache_limit.unwrap() / old(self).page_length + old(self).cache_check_counter + 1,
        ensures
            final(self).wf(),
            final(self)@ == old(self)@,
            final(self).next_free_index == old(self).next_free_index,
            final(self).page_length == old(self).page_length,
            final(self).desc_length == old(self).desc_length,
            final(self).cache_limit == old(self).cache_limit,
            final(self).cache_check_counter == writes_after_write(old(self).cache_check_counter),
            final(self).cache@.len() == held_after_write(
                old(self).cache@.len(),
                old(self).cache_check_counter,
                old(self).cache_limit,
                old(self).page_length,
            ),
            forall|k: usize| final(self).cache@.contains_key(k) ==> old(self).cache@.contains_key(k),
    {
        if self.cache_check_counter + 1 < CACHE_CHECK_WINDOW {
            self.cache_check_counter += 1;
            return ;
        }
        self.cache_check_counter = 0;
        match self.cache_limit {
            None => {},
            Some(limit) => {
                let allowed: usize = limit / self.page_length;
                let held: usize = self.cache.len();
                if held > allowed {
                    let tenth: usize = held / 10;
                    let excess: usize = held - allowed;
                    let count: usize = if tenth > excess { tenth } else { excess };
                    self.evict(count);
                }
            },
        }
    }

    /// Measures the cache if a window of page writes has passed, and if it
    /// is over its ceiling writes the oldest tenth of its pages, or as many
    /// as it takes to get under the ceiling, to the page file.
    pub fn check_cache(&mut self)
        requires
            old(self).wf(),
        ensures
            final(self).wf(),
            final(self)@ == old(self)@,
            final(self).next_free_index == old(self).next_free_index,
            final(self).page_length == old(self).page_length,
            final(self).desc_length == old(self).desc_length,
            final(self).limit() == old(self).limit(),
            final(self).writes_since_check() == writes_after_write(old(self).cache_check_counter),
            final(self).cached_len() == held_after_write(
                old(self).cached_len(),
                old(self).cache_check_counter,
                old(self).limit(),
                old(self).page_length,
            ),
            forall|k: usize| final(self).is_cached(k) ==> old(self).is_cached(k),
    {
        self.tick();
    }

    /// Writes every cached page to its slot and empties the cache.
    pub fn flush(&mut self)
        requires
            old(self).wf(),
        ensures
            final(self).wf(),
            final(self)@ == old(self)@,
            final(self).cached_len() == 0,
            final(self).stored().len() == final(self).next_free_index,
            final(self).next_free_index == old(self).next_free_index,
            final(self).page_length == old(self).page_length,
            final(self).desc_length == old(self).desc_length,
            final(self).limit() == old(self).limit(),
            final(self).writes_since_check() == old(self).writes_since_check(),
            final(self).flushed(),
    {
        let held: usize = self.cache.len();
        self.evict(held);
        proof {
            assert(self.cache@.dom().len() == 0);
            assert(self.cache@.dom() =~= Set::<usize>::empty());
            if self.next_free_index > 0 {
                let last = (self.next_free_index - 1) as int;
                assert(!self.cache@.contains_key(last as usize));
                assert(last < self.store@.len());
            }
            assert forall|i: int| 0 <= i < self.next_free_index implies page_readable(
                #[trigger] self.stored()[i],
                self.page_length as nat,
                self.desc_length as nat,
            ) && self@[i] == stored_records(self.stored()[i], self.desc_length as nat) by {
                assert(!self.cache@.contains_key(i as usize));
                assert(self.store@[i].wf());
            }
        }
    }

    /// Writes the cached pages among `keys` to their slots and drops them
    /// from the cache.
    pub fn flush_keys(&mut self, keys: Vec<usize>)
        requires
            old(self).wf(),
        ensures
            final(self).wf(),
            final(self)@ == old(self)@,
            forall|k: usize|
                final(self).is_cached(k) <==> old(self).is_cached(k) && !keys@.contains(k),
            final(self).next_free_index == old(self).next_free_index,
            final(self).page_length == old(self).page_length,
            final(self).desc_length == old(self).desc_length,
            final(self).limit() == old(self).limit(),
            final(self).writes_since_check() == old(self).writes_since_check(),
    {
        let mut n: usize = 0;
        while n < keys.len()
            invariant
                n <= keys@.len(),
                self.wf(),
                self@ == old(self)@,
                forall|k: usize|
                    self.cache@.contains_key(k) <==> old(self).cache@.contains_key(k)
                        && !keys@.subrange(0, n as int).contains(k),
                self.next_free_index == old(self).next_free_index,
                self.page_length == old(self).page_length,
                self.desc_length == old(self).desc_length,
                self.cache_limit == old(self).cache_limit,
                self.cache_check_counter == old(self).cache_check_counter,
            decreases keys@.len() - n,
        {
            let key: usize = keys[n];
            let ghost before = *self;
            proof {
                let upto = keys@.subrange(0, n as int);
                let next = keys@.subrange(0, n + 1);
                assert(next =~= upto.push(key));
                assert forall|k: usize| next.contains(k) <==> upto.contains(k) || k == key by {
                    if upto.contains(k) {
                        let i = choose|i: int| 0 <= i < upto.len() && upto[i] == k;
                        assert(next[i] == k);
                    }
                    if k == key {
                        assert(next[n as int] == k);
                    }
                }
            }
            match self.cache.remove(key) {
                Some(page) => {
                    store_page(&mut self.store, key, page);
                    proof {
                        assert forall|i: int| 0 <= i < self.next_free_index implies self.page(i)
                            == before.page(i) by {
                            if i == key {
                            } else {
                                assert(self.cache@.contains_key(i as usize)
                                    == before.cache@.contains_key(i as usize));
                                if !before.cache@.contains_key(i as usize) {
                                    assert(i < before.store@.len());
                                }
                            }
                        }
                        assert(self@ =~= before@);
                    }
                },
                None => {
                    proof {
                        assert(self.cache@ =~= before.cache@);
                    }
                },
            }
            n += 1;
        }
        proof {
            assert(keys@.subrange(0, keys@.len() as int) =~= keys@);
        }
    }

    /// Takes `page` in under the next free index and returns the pointer
    /// to it; `DimensionMismatch` when the page is of another shape.
    pub fn add_page(&mut self, page: &RecordPage) -> (r: Result<PagePointer, Error>)
        requires
            old(self).wf(),
            page.wf(),
            old(self).next_free_index < usize::MAX,
        ensures
            final(self).wf(),
            final(self).page_length == old(self).page_length,
            final(self).desc_length == old(self).desc_length,
            final(self).limit() == old(self).limit(),
            r.is_ok() <==> page.page_length == old(self).page_length
                && page.desc_length == old(self).desc_length,
            r.is_ok() ==> r == Ok::<PagePointer, Error>(
                PagePointer::Leaf(old(self).next_free_index),
            ) && final(self)@ == old(self)@.push(page@)
                && final(self).next_free_index == old(self).next_free_index + 1,
            r.is_err() ==> r == Err::<PagePointer, Error>(Error::DimensionMismatch) && final(self)@
                == old(self)@ && final(self).next_free_index == old(self).next_free_index
                && final(self).cached_len() == old(self).cached_len()
                && final(self).writes_since_check() == old(self).writes_since_check(),
            r.is_ok() ==> final(self).writes_since_check() == writes_after_write(
                old(self).cache_check_counter,
            ) && final(self).cached_len() == held_after_write(
                old(self).cached_len() + 1,
                old(self).cache_check_counter,
                old(self).limit(),
                old(self).page_length,
            ),
    {
        if page.page_length != self.page_length || page.desc_length != self.desc_length {
            return Err(Error::DimensionMismatch);
        }
        let ret_index: usize = self.next_free_index;
        let copy = page.clone();
        let ghost before = *self;
        self.cache.insert(ret_index, copy);
        self.next_free_index += 1;
        proof {
            assert(copy@ == page@);
            assert(copy.wf());
            assert(!before.cache@.contains_key(ret_index));
            assert forall|i: int| 0 <= i < before.next_free_index implies self.page(i)
                == before.page(i) by {
                assert(self.cache@.contains_key(i as usize) == before.cache@.contains_key(
                    i as usize,
                ));
            }
            assert(self@ =~= before@.push(page@));
        }
        self.tick();
        Ok(PagePointer::Leaf(ret_index))
    }

    /// Puts `page` in place of page `address`; `KeyNotFound` when the
    /// index is not in use, `DimensionMismatch` when the page is of
    /// another shape.
    pub fn update_page(&mut self, page: &RecordPage, address: &usize) -> (r: Result<(), Error>)
        requires
            old(self).wf(),
            page.wf(),
        ensures
            final(self).wf(),
            final(self).page_length == old(self).page_length,
            final(self).desc_length == old(self).desc_length,
            final(self).next_free_index == old(self).next_free_index,
            final(self).limit() == old(self).limit(),
            *address >= old(self).next_free_index ==> r == Err::<(), Error>(Error::KeyNotFound),
            *address < old(self).next_free_index && !(page.page_length == old(self).page_length
                && page.desc_length == old(self).desc_length) ==> r == Err::<(), Error>(
                Error::DimensionMismatch,
            ),
            *address < old(self).next_free_index && page.page_length == old(self).page_length
                && page.desc_length == old(self).desc_length ==> r.is_ok(),
            r.is_ok() ==> final(self)@ == old(self)@.update(*address as int, page@),
            r.is_err() ==> final(self)@ == old(self)@
                && final(self).cached_len() == old(self).cached_len()
                && final(self).writes_since_check() == old(self).writes_since_check(),
            r.is_ok() ==> final(self).writes_since_check() == writes_after_write(
                old(self).cache_check_counter,
            ) && final(self).cached_len() == held_after_write(
                old(self).cached_len() + (if old(self).is_cached(*address) {
                    0nat
                } else {
                    1nat
                }),
                old(self).cache_check_counter,
                old(self).limit(),
                old(self).page_length,
            ),
    {
        if *address >= self.next_free_index {
            return Err(Error::KeyNotFound);
        }
        if page.page_length != self.page_length || page.desc_length != self.desc_length {
            return Err(Error::DimensionMismatch);
        }
        let copy = page.clone();
        let ghost before = *self;
        self.cache.insert(*address, copy);
        proof {
            assert(copy@ == page@);
            assert(copy.wf());
            assert forall|i: int| 0 <= i < before.next_free_index && i != *address implies self.page(
                i,
            ) == before.page(i) by {
                assert(self.cache@.contains_key(i as usize) == before.cache@.contains_key(
                    i as usize,
                ));
            }
            assert(self@ =~= before@.update(*address as int, page@));
        }
        self.tick();
        Ok(())
    }

    /// The page file: the next free index, then the stored pages. Pages
    /// that are only cached are not in it: flush first.
    pub fn to_bytes(&self) -> (image: Vec<u8>)
        requires
            self.wf(),
            8 + self.stored().len() * self.page_length <= usize::MAX,
        ensures
            is_page_file(
                image@,
                self.next_free_index as nat,
                self.page_length as nat,
                self.stored(),
            ),
    {
        let cursor: [u8; 8] = byteorder_write_u64(self.next_free_index as u64);
        let mut image: Vec<u8> = Vec::new();
        append_bytes(&mut image, cursor.as_slice());
        let ghost length = self.page_length as int;
        proof {
            lemma_be_bytes_len(self.next_free_index as nat, 8);
            assert(image@ =~= be_bytes(self.next_free_index as nat, 8));
            assert(0 * length == 0) by (nonlinear_arith);
        }
        let mut i: usize = 0;
        while i < self.store.len()
            invariant
                i <= self.store@.len(),
                self.wf(),
                length == self.page_length,
                image@.len() == 8 + i * length,
                image@.subrange(0, 8) == be_bytes(self.next_free_index as nat, 8),
                forall|j: int|
                    0 <= j < i ==> #[trigger] page_slot(image@, j, length) == self.store@[j].data@,
            decreases self.store@.len() - i,
        {
            let ghost before = image@;
            append_bytes(&mut image, self.store[i].get_data().as_slice());
            proof {
                assert((i + 1) * length == i * length + length) by (nonlinear_arith);
                assert(image@.subrange(0, 8) =~= before.subrange(0, 8));
                assert(page_slot(image@, i as int, length) =~= self.store@[i as int].data@);
                assert forall|j: int| 0 <= j < i implies #[trigger] page_slot(image@, j, length)
                    == self.store@[j].data@ by {
                    assert((j + 1) * length <= i * length) by (nonlinear_arith)
                        requires
                            j + 1 <= i,
                            length >= 0,
                    ;
                    assert((j + 1) * length == j * length + length) by (nonlinear_arith);
                    assert(page_slot(image@, j, length) =~= page_slot(before, j, length));
                }
            }
            i += 1;
        }
        proof {
            assert(self.stored() =~= Seq::new(self.store@.len(), |i: int| self.store@[i].data@));
        }
        image
    }

    /// The pager over a page file, with an empty cache and the given
    /// ceiling on cached bytes; `CorruptPage` when the image is not a
    /// readable page file of the given shape.
    pub fn from_bytes(
        image: &[u8],
        page_length: usize,
        desc_length: usize,
        cache_limit: Option<usize>,
    ) -> (r: Result<Self, Error>)
        ensures
            r.is_ok() <==> page_file_readable(image@, page_length as nat, desc_length as nat),
            r.is_ok() ==> r.unwrap().wf() && r.unwrap().page_length == page_length
                && r.unwrap().desc_length == desc_length && r.unwrap().limit() == cache_limit
                && r.unwrap().cached_len() == 0 && r.unwrap().next_free_index == be_value(
                image@.subrange(0, 8),
            ) && r.unwrap().stored().len() == r.unwrap().next_free_index && (forall|i: int|
                0 <= i < r.unwrap().next_free_index ==> #[trigger] r.unwrap().stored()[i]
                    == page_slot(image@, i, page_length as int)) && r.unwrap()@
                == decode_page_file(image@, page_length as nat, desc_length as nat),
            r.is_err() ==> r == Err::<Self, Error>(Error::CorruptPage),
    {
        if !geometry_is_valid(page_length, desc_length) {
            return Err(Error::CorruptPage);
        }
        if image.len() < layout::FILE_DATA_START {
            return Err(Error::CorruptPage);
        }
        let header: u64 = read_be(image, layout::HEADER_CURSOR_START, layout::HEADER_CURSOR_SIZE);
        let room: usize = (image.len() - layout::FILE_DATA_START) / page_length;
        let ghost length = page_length as int;
        proof {
            let space = image@.len() - 8;
            assert(room * length <= space) by (nonlinear_arith)
                requires
                    room == space / length,
                    length > 0,
                    space >= 0,
            ;
            if header > room {
                assert(header * length > space) by (nonlinear_arith)
                    requires
                        header >= room + 1,
                        room == space / length,
                        length > 0,
                        space >= 0,
                ;
            } else {
                assert(header * length <= room * length) by (nonlinear_arith)
                    requires
                        header <= room,
                        length > 0,
                ;
            }
        }
        if header > room as u64 {
            return Err(Error::CorruptPage);
        }
        let count: usize = header as usize;
        let mut store: Vec<RecordPage> = Vec::new();
        let mut i: usize = 0;
        while i < count
            invariant
                i <= count,
                count == be_value(image@.subrange(0, 8)),
                length == page_length,
                valid_geometry(page_length as nat, desc_length as nat),
                8 + count * length <= image@.len(),
                image@.len() <= usize::MAX,
                store@.len() == i,
                forall|j: int|
                    0 <= j < i ==> page_readable(
                        #[trigger] page_slot(image@, j, length),
                        page_length as nat,
                        desc_length as nat,
                    ),
                forall|j: int|
                    0 <= j < i ==> (#[trigger] store@[j]).wf() && store@[j].page_length
                        == page_length && store@[j].desc_length == desc_length && store@[j].data@
                        == page_slot(image@, j, length),
            decreases count - i,
        {
            proof {
                assert((i + 1) * length <= count * length) by (nonlinear_arith)
                    requires
                        i + 1 <= count,
                        length > 0,
                ;
                assert((i + 1) * length == i * length + length) by (nonlinear_arith);
                assert(i * length >= 0) by (nonlinear_arith)
                    requires
                        i >= 0,
                        length > 0,
                ;
            }
            let start: usize = layout::FILE_DATA_START + i * page_length;
            let slot = slice_subrange(image, start, start + page_length);
            proof {
                assert(slot@ == page_slot(image@, i as int, length));
            }
            match RecordPage::from_arr(slot, page_length, desc_length) {
                Ok(page) => {
                    store.push(page);
                },
                Err(_) => {
                    return Err(Error::CorruptPage);
                },
            }
            i += 1;
        }
        let pager = RecordPager {
            next_free_index: count,
            desc_length,
            page_length,
            store,
            cache: PageCache::new(),
            cache_limit,
            cache_check_counter: 0,
        };
        proof {
            assert(pager.cache@.dom() =~= Set::<usize>::empty());
            assert(pager.cache@.len() == 0);
            assert forall|i: int| 0 <= i < count implies #[trigger] pager.page(i)@ == stored_records(
                page_slot(image@, i, page_length as int),
                desc_length as nat,
            ) by {
                assert(!pager.cache@.contains_key(i as usize));
                assert(pager.store@[i].wf());
            }
            assert(pager@ =~= decode_page_file(image@, page_length as nat, desc_length as nat));
        }
        Ok(pager)
    }
}

} // verus!
