//! Singly linked lists of integers, and their JSON text: an array of the
//! values from head to tail.
use vstd::prelude::*;

use crate::error::CodecError;
use crate::json::{fault_error, json_slots, json_to_slots, slots_to_json, to_codec_error};
use crate::text::{ints_text, slots_text};

verus! {

/// One node of a singly linked list.
#[derive(Debug, PartialEq, Eq)]
pub struct ListNode {
    pub val: i32,
    pub next: Option<Box<ListNode>>,
}

/// The values met from a link to the end of the chain.
pub open spec fn link_values(link: Option<Box<ListNode>>) -> Seq<i32>
    decreases link,
{
    match link {
        Some(node) => seq![node.val] + link_values(node.next),
        None => Seq::empty(),
    }
}

/// A link to a node, or the end of a chain.
pub type ListLink = Option<Box<ListNode>>;

/// A linked list, held by the link to its head.
#[derive(Debug, PartialEq, Eq)]
pub struct LinkedList(pub Option<Box<ListNode>>);

impl View for LinkedList {
    type V = Seq<i32>;

    open spec fn view(&self) -> Seq<i32> {
        link_values(self.0)
    }
}

impl From<LinkedList> for Option<Box<ListNode>> {
    fn from(list: LinkedList) -> (r: Option<Box<ListNode>>)
        ensures
            r == list.0,
    {
        list.0
    }
}

impl vstd::std_specs::convert::FromSpecImpl<LinkedList> for Option<Box<ListNode>> {
    open spec fn obeys_from_spec() -> bool {
        true
    }

    open spec fn from_spec(list: LinkedList) -> Option<Box<ListNode>> {
        list.0
    }
}

/// Whether every slot holds a value.
pub open spec fn all_present(slots: Seq<Option<i32>>) -> bool {
    forall|i: int| 0 <= i < slots.len() ==> #[trigger] slots[i] is Some
}

/// The values of slots that all hold one.
pub open spec fn present_values(slots: Seq<Option<i32>>) -> Seq<i32> {
    slots.map_values(|s: Option<i32>| s->Some_0)
}

impl LinkedList {
    /// Links the values into a chain, the first value at the head.
    pub fn from_values(vals: &Vec<i32>) -> (r: LinkedList)
        ensures
            r@ == vals@,
    {
        let mut head: Option<Box<ListNode>> = None;
        let mut i: usize = vals.len();
        while i > 0
            invariant
                i <= vals.len(),
                link_values(head) == vals@.skip(i as int),
            decreases i,
        {
            i = i - 1;
            head = Some(Box::new(ListNode { val: vals[i], next: head }));
            assert(link_values(head) =~= vals@.skip(i as int));
        }
        LinkedList(head)
    }

    /// The values from head to tail.
    pub fn values(&self) -> (r: Vec<i32>)
        ensures
            r@ == self@,
    {
        let mut out: Vec<i32> = Vec::new();
        let mut cur: &Option<Box<ListNode>> = &self.0;
        loop
            invariant
                out@ + link_values(*cur) == self@,
            ensures
                out@ == self@,
            decreases link_values(*cur).len(),
        {
            match cur {
                Some(node) => {
                    out.push(node.val);
                    assert(out@ + link_values(node.next) =~= self@);
                    cur = &node.next;
                },
                None => {
                    assert(out@ =~= self@);
                    break ;
                },
            }
        }
        out
    }

    /// Builds the list from JSON slots, which must all hold an integer.
    pub fn from_slots(slots: Vec<Option<i32>>) -> (r: Result<LinkedList, CodecError>)
        ensures
            all_present(slots@) ==> r is Ok && r->Ok_0@ == present_values(slots@),
            !all_present(slots@) ==> r matches Err(CodecError::TypeMismatch),
    {
        let mut vals: Vec<i32> = Vec::new();
        let mut i: usize = 0;
        while i < slots.len()
            invariant
                i <= slots.len(),
                all_present(slots@.take(i as int)),
                vals@ == present_values(slots@.take(i as int)),
            decreases slots.len() - i,
        {
            match slots[i] {
                Some(v) => {
                    vals.push(v);
                    assert(slots@.take(i + 1) == slots@.take(i as int).push(slots@[i as int]));
                    assert(vals@ =~= present_values(slots@.take(i + 1)));
                },
                None => {
                    assert(!all_present(slots@));
                    return Err(CodecError::TypeMismatch);
                },
            }
            i = i + 1;
        }
        assert(slots@.take(slots.len() as int) =~= slots@);
        Ok(LinkedList::from_values(&vals))
    }

    /// The JSON text of the list: its values, head first, as an array.
    pub fn encode(&self) -> (r: String)
        ensures
            r@ == ints_text(self@),
    {
        let vals = self.values();
        let mut slots: Vec<Option<i32>> = Vec::new();
        let mut i: usize = 0;
        while i < vals.len()
            invariant
                i <= vals.len(),
                slots@ == vals@.take(i as int).map_values(|v: i32| Some(v)),
            decreases vals.len() - i,
        {
            slots.push(Some(vals[i]));
            assert(slots@ =~= vals@.take(i + 1).map_values(|v: i32| Some(v)));
            i = i + 1;
        }
        assert(vals@.take(vals.len() as int) =~= vals@);
        assert(slots@.map_values(|s: Option<i32>| crate::text::slot_text(s))
            =~= vals@.map_values(|v: i32| crate::text::decimal(v as int)));
        slots_to_json(&slots)
    }

    /// Reads a list from JSON text: an array of 32-bit integers, head first.
    /// The text that `encode` gives for a sequence of values is read back as
    /// those values.
    pub fn decode(text: &str) -> (r: Result<LinkedList, CodecError>)
        ensures
            match json_slots(text@) {
                Ok(slots) => if all_present(slots) {
                    r is Ok && r->Ok_0@ == present_values(slots)
                } else {
                    r matches Err(CodecError::TypeMismatch)
                },
                Err(f) => r == Err::<LinkedList, CodecError>(fault_error(f)),
            },
            forall|vals: Seq<i32>| #[trigger] ints_text(vals) == text@ ==> r is Ok && r->Ok_0@ == vals,
    {
        let parsed = json_to_slots(text);
        proof {
            assert forall|vals: Seq<i32>| #[trigger] ints_text(vals) == text@ implies parsed is Ok
                && all_present(parsed->Ok_0@) && present_values(parsed->Ok_0@) == vals by {
                let s = vals.map_values(|v: i32| Some(v));
                assert(s.map_values(|x: Option<i32>| crate::text::slot_text(x))
                    =~= vals.map_values(|v: i32| crate::text::decimal(v as int)));
                assert(slots_text(s) == text@);
                assert(present_values(s) =~= vals);
                assert(all_present(s));
            }
        }
        match parsed {
            Ok(slots) => LinkedList::from_slots(slots),
            Err(f) => Err(to_codec_error(f)),
        }
    }
}

} // verus!
