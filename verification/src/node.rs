//! Internal nodes of the tree and their byte form.

use vstd::prelude::*;
use crate::bytes::{
    be_bytes, be_value, byteorder_write_u32, byteorder_write_u64, lemma_be_bytes_len,
    lemma_be_value_of_bytes, lemma_pow256_values,
};
use crate::data::Parser;
use crate::error::Error;
use crate::layout;

verus! {

/// A reference to an internal node of the node table or to a leaf page of
/// the page file. It owns neither.
#[derive(Debug, Clone, Copy, PartialEq, Eq, Structural)]
pub enum PagePointer {
    Node(usize),
    Leaf(usize),
}

/// The two kinds of node.
#[derive(Debug, Clone, Copy, PartialEq, Eq, Structural)]
pub enum NodeType {
    Internal,
    Leaf,
}

/// An internal node: the records under `left_child_pointer` have a
/// coordinate `split_axis` of at most `split_value`, those under
/// `right_child_pointer` a greater one.
#[derive(Debug, Clone, Copy, PartialEq, Eq, Structural)]
pub struct InternalNode {
    pub left_child_pointer: PagePointer,
    pub right_child_pointer: PagePointer,
    pub split_axis: usize,
    pub split_value: u32,
}

impl PagePointer {
    /// The index that the pointer carries.
    pub open spec fn index(self) -> usize {
        match self {
            PagePointer::Node(i) => i,
            PagePointer::Leaf(i) => i,
        }
    }

    /// The byte that tags the pointer's kind in a stored node.
    pub open spec fn tag(self) -> u8 {
        match self {
            PagePointer::Node(_) => 1u8,
            PagePointer::Leaf(_) => 2u8,
        }
    }
}

/// The nine bytes of a stored pointer: index, then tag.
pub open spec fn pointer_bytes(p: PagePointer) -> Seq<u8> {
    be_bytes(p.index() as nat, 8).push(p.tag())
}

/// The stored form of a node.
pub open spec fn node_bytes(n: InternalNode) -> Seq<u8> {
    pointer_bytes(n.left_child_pointer) + pointer_bytes(n.right_child_pointer) + seq![
        (n.split_axis % 256) as u8,
    ] + be_bytes(n.split_value as nat, 4) + seq![0u8, 0u8, 0u8, 0u8]
}

/// True when the nine bytes at `at` spell a pointer of this machine.
pub open spec fn pointer_readable(s: Seq<u8>, at: int) -> bool {
    &&& (s[at + 8] == 1 || s[at + 8] == 2)
    &&& be_value(s.subrange(at, at + 8)) <= usize::MAX
}

/// The pointer that the nine bytes at `at` spell.
pub open spec fn decode_pointer(s: Seq<u8>, at: int) -> PagePointer {
    if s[at + 8] == 1 {
        PagePointer::Node(be_value(s.subrange(at, at + 8)) as usize)
    } else {
        PagePointer::Leaf(be_value(s.subrange(at, at + 8)) as usize)
    }
}

/// True when `s` starts with a stored node that this machine can hold.
pub open spec fn node_readable(s: Seq<u8>) -> bool {
    &&& s.len() >= 23
    &&& pointer_readable(s, 0)
    &&& pointer_readable(s, 9)
}

/// The node that the first bytes of `s` spell.
pub open spec fn decode_node(s: Seq<u8>) -> InternalNode {
    InternalNode {
        left_child_pointer: decode_pointer(s, 0),
        right_child_pointer: decode_pointer(s, 9),
        split_axis: s[18] as usize,
        split_value: be_value(s.subrange(19, 23)) as u32,
    }
}

/// A node whose axis fits in a byte is read back from its stored form.
pub proof fn lemma_node_roundtrip(n: InternalNode)
    requires
        n.split_axis < 256,
    ensures
        node_bytes(n).len() == 27,
        node_readable(node_bytes(n)),
        decode_node(node_bytes(n)) == n,
{
    let s = node_bytes(n);
    let l = n.left_child_pointer;
    let r = n.right_child_pointer;
    lemma_be_bytes_len(l.index() as nat, 8);
    lemma_be_bytes_len(r.index() as nat, 8);
    lemma_be_bytes_len(n.split_value as nat, 4);
    lemma_pow256_values();
    lemma_be_value_of_bytes(l.index() as nat, 8);
    lemma_be_value_of_bytes(r.index() as nat, 8);
    lemma_be_value_of_bytes(n.split_value as nat, 4);
    assert(s.subrange(0, 8) =~= be_bytes(l.index() as nat, 8));
    assert(s.subrange(9, 17) =~= be_bytes(r.index() as nat, 8));
    assert(s.subrange(19, 23) =~= be_bytes(n.split_value as nat, 4));
    assert(s[8] == l.tag());
    assert(s[17] == r.tag());
    assert(s[18] == (n.split_axis % 256) as u8);
}

impl InternalNode {
    /// A node with both children at node zero, axis zero and value zero.
    pub fn default() -> (n: Self)
        ensures
            n == (InternalNode {
                left_child_pointer: PagePointer::Node(0),
                right_child_pointer: PagePointer::Node(0),
                split_axis: 0,
                split_value: 0,
            }),
    {
        InternalNode {
            left_child_pointer: PagePointer::Node(0),
            right_child_pointer: PagePointer::Node(0),
            split_axis: 0,
            split_value: 0,
        }
    }

    /// The node stored at the start of `node_slice`; `CorruptPage` when the
    /// slice is too short, a child tag is neither one nor two, or a child
    /// index is beyond this machine's indices.
    pub fn from_slice(node_slice: &[u8]) -> (r: Result<InternalNode, Error>)
        ensures
            r.is_ok() <==> node_readable(node_slice@),
            r.is_ok() ==> r.unwrap() == decode_node(node_slice@),
            r.is_err() ==> r == Err::<InternalNode, Error>(Error::CorruptPage),
    {
        if node_slice.len() < layout::NODE_FIELDS_END {
            return Err(Error::CorruptPage);
        }
        proof {
            assert forall|at: int| 0 <= at < 23 implies be_value(
                #[trigger] node_slice@.subrange(at, at + 1),
            ) == node_slice@[at] by {
                let one = node_slice@.subrange(at, at + 1);
                assert(one.drop_last() =~= Seq::<u8>::empty());
                assert(be_value(one.drop_last()) == 0);
            }
        }
        let left_child_index = Parser::get_usize_from_array(
            node_slice,
            layout::LEFT_CHILD_INDEX_START,
            layout::LEFT_CHILD_INDEX_SIZE,
        );
        let left_child_type = Parser::get_usize_from_array(
            node_slice,
            layout::LEFT_CHILD_TYPE_START,
            layout::LEFT_CHILD_TYPE_SIZE,
        );
        let right_child_index = Parser::get_usize_from_array(
            node_slice,
            layout::RIGHT_CHILD_INDEX_START,
            layout::RIGHT_CHILD_INDEX_SIZE,
        );
        let right_child_type = Parser::get_usize_from_array(
            node_slice,
            layout::RIGHT_CHILD_TYPE_START,
            layout::RIGHT_CHILD_TYPE_SIZE,
        );
        let split_axis = Parser::get_usize_from_array(
            node_slice,
            layout::SPLIT_AXIS_OFFSET,
            layout::SPLIT_AXIS_SIZE,
        );
        let split_value = Parser::get_scalar_from_array(node_slice, layout::SPLIT_VALUE_OFFSET);
        let left_child_pointer = match (left_child_type, left_child_index) {
            (Ok(1), Ok(index)) => PagePointer::Node(index),
            (Ok(2), Ok(index)) => PagePointer::Leaf(index),
            _ => { return Err(Error::CorruptPage); },
        };
        let right_child_pointer = match (right_child_type, right_child_index) {
            (Ok(1), Ok(index)) => PagePointer::Node(index),
            (Ok(2), Ok(index)) => PagePointer::Leaf(index),
            _ => { return Err(Error::CorruptPage); },
        };
        match (split_axis, split_value) {
            (Ok(axis), Ok(value)) => Ok(
                InternalNode {
                    left_child_pointer,
                    right_child_pointer,
                    split_axis: axis,
                    split_value: value,
                },
            ),
            _ => Err(Error::CorruptPage),
        }
    }

    /// The stored form of this node. The axis is stored in one byte.
    pub fn to_arr(&self) -> (arr: [u8; 27])
        ensures
            arr@ == node_bytes(*self),
    {
        let mut arr: [u8; 27] = [0u8; 27];
        let (left_tag, left_index): (u8, usize) = match self.left_child_pointer {
            PagePointer::Node(x) => (1, x),
            PagePointer::Leaf(x) => (2, x),
        };
        let left: [u8; 8] = byteorder_write_u64(left_index as u64);
        let (right_tag, right_index): (u8, usize) = match self.right_child_pointer {
            PagePointer::Node(x) => (1, x),
            PagePointer::Leaf(x) => (2, x),
        };
        let right: [u8; 8] = byteorder_write_u64(right_index as u64);
        let value: [u8; 4] = byteorder_write_u32(self.split_value);
        let mut i: usize = 0;
        while i < 8
            invariant
                i <= 8,
                forall|j: int| 0 <= j < i ==> arr@[j] == left@[j],
                forall|j: int| 0 <= j < i ==> arr@[9 + j] == right@[j],
                forall|j: int| 23 <= j < 27 ==> arr@[j] == 0u8,
            decreases 8 - i,
        {
            arr[layout::LEFT_CHILD_INDEX_START + i] = left[i];
            arr[layout::RIGHT_CHILD_INDEX_START + i] = right[i];
            i += 1;
        }
        arr[layout::LEFT_CHILD_TYPE_START] = left_tag;
        arr[layout::RIGHT_CHILD_TYPE_START] = right_tag;
        arr[layout::SPLIT_AXIS_OFFSET] = (self.split_axis % 256) as u8;
        arr[layout::SPLIT_VALUE_OFFSET] = value[0];
        arr[layout::SPLIT_VALUE_OFFSET + 1] = value[1];
        arr[layout::SPLIT_VALUE_OFFSET + 2] = value[2];
        arr[layout::SPLIT_VALUE_OFFSET + 3] = value[3];
        proof {
            lemma_be_bytes_len(left_index as nat, 8);
            lemma_be_bytes_len(right_index as nat, 8);
            lemma_be_bytes_len(self.split_value as nat, 4);
            assert(arr@ =~= node_bytes(*self));
        }
        arr
    }
}

} // verus!
