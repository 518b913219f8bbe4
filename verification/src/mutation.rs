//! The four mutations of the graph and their form on the wire.
//!
//! Keys and payloads are byte strings: whoever defines the node, edge and key
//! types encodes them, and this crate never looks inside.  A mutation is
//! written as a four-byte little-endian tag followed by its fields, each in a
//! frame of its own.

use vstd::prelude::*;
use vstd::bytes::*;
use vstd::slice::slice_subrange;
use crate::bytes::{bytes_copy, frame, lemma_frame_unframe, lemma_unframe_frame, put_bytes, put_frame, take_frame, unframe};
use crate::error::StoreError;

verus! {

/// One change to the graph.
#[derive(Debug, PartialEq, Eq)]
pub enum GraphMutation {
    /// Adds an edge: the key of its source, the key of its target, its payload.
    AddEdge((Vec<u8>, Vec<u8>, Vec<u8>)),
    /// Removes the edge from the first key to the second.
    RemoveEdge((Vec<u8>, Vec<u8>)),
    /// Adds a node: its key and its payload.
    AddNode((Vec<u8>, Vec<u8>)),
    /// Removes the node with this key, and every edge that touches it.
    RemoveNode(Vec<u8>),
}

/// A mutation as a mathematical value.
pub enum MutationView {
    AddEdge(Seq<u8>, Seq<u8>, Seq<u8>),
    RemoveEdge(Seq<u8>, Seq<u8>),
    AddNode(Seq<u8>, Seq<u8>),
    RemoveNode(Seq<u8>),
}

impl View for GraphMutation {
    type V = MutationView;

    open spec fn view(&self) -> MutationView {
        match self {
            GraphMutation::AddEdge((from, to, edge)) => MutationView::AddEdge(from@, to@, edge@),
            GraphMutation::RemoveEdge((from, to)) => MutationView::RemoveEdge(from@, to@),
            GraphMutation::AddNode((key, node)) => MutationView::AddNode(key@, node@),
            GraphMutation::RemoveNode(key) => MutationView::RemoveNode(key@),
        }
    }
}

impl MutationView {
    /// Every field is short enough for its length to be written in eight
    /// bytes.  True of the view of every mutation in memory.
    pub open spec fn framable(self) -> bool {
        match self {
            MutationView::AddEdge(from, to, edge) => {
                from.len() <= u64::MAX && to.len() <= u64::MAX && edge.len() <= u64::MAX
            },
            MutationView::RemoveEdge(from, to) => from.len() <= u64::MAX && to.len() <= u64::MAX,
            MutationView::AddNode(key, node) => key.len() <= u64::MAX && node.len() <= u64::MAX,
            MutationView::RemoveNode(key) => key.len() <= u64::MAX,
        }
    }
}

/// The tag that opens the encoding of each variant.
pub open spec fn tag_of(m: MutationView) -> u32 {
    match m {
        MutationView::AddEdge(..) => 0,
        MutationView::RemoveEdge(..) => 1,
        MutationView::AddNode(..) => 2,
        MutationView::RemoveNode(..) => 3,
    }
}

/// The fields of a mutation, each in its frame, one after the other.
pub open spec fn fields_bytes(m: MutationView) -> Seq<u8> {
    match m {
        MutationView::AddEdge(from, to, edge) => frame(from) + frame(to) + frame(edge),
        MutationView::RemoveEdge(from, to) => frame(from) + frame(to),
        MutationView::AddNode(key, node) => frame(key) + frame(node),
        MutationView::RemoveNode(key) => frame(key),
    }
}

/// The encoding of a mutation.
pub open spec fn mutation_bytes(m: MutationView) -> Seq<u8> {
    spec_u32_to_le_bytes(tag_of(m)) + fields_bytes(m)
}

/// Reads exactly one frame: `None` where bytes are missing or left over.
pub open spec fn parse_one(s: Seq<u8>) -> Option<Seq<u8>> {
    match unframe(s) {
        Some((a, rest)) => if rest.len() == 0 {
            Some(a)
        } else {
            None
        },
        None => None,
    }
}

/// Reads exactly two frames.
pub open spec fn parse_two(s: Seq<u8>) -> Option<(Seq<u8>, Seq<u8>)> {
    match unframe(s) {
        Some((a, rest)) => match parse_one(rest) {
            Some(b) => Some((a, b)),
            None => None,
        },
        None => None,
    }
}

/// Reads exactly three frames.
pub open spec fn parse_three(s: Seq<u8>) -> Option<(Seq<u8>, Seq<u8>, Seq<u8>)> {
    match unframe(s) {
        Some((a, rest)) => match parse_two(rest) {
            Some((b, c)) => Some((a, b, c)),
            None => None,
        },
        None => None,
    }
}

/// The mutation that a byte string encodes, if it encodes one.  A byte
/// string with an unknown tag, with a field cut short or with bytes after the
/// last field encodes none.
pub open spec fn parse_mutation(s: Seq<u8>) -> Option<MutationView> {
    if s.len() < 4 {
        None
    } else {
        let tag = spec_u32_from_le_bytes(s.subrange(0, 4));
        let body = s.subrange(4, s.len() as int);
        if tag == 0 {
            match parse_three(body) {
                Some((from, to, edge)) => Some(MutationView::AddEdge(from, to, edge)),
                None => None,
            }
        } else if tag == 1 {
            match parse_two(body) {
                Some((from, to)) => Some(MutationView::RemoveEdge(from, to)),
                None => None,
            }
        } else if tag == 2 {
            match parse_two(body) {
                Some((key, node)) => Some(MutationView::AddNode(key, node)),
                None => None,
            }
        } else if tag == 3 {
            match parse_one(body) {
                Some(key) => Some(MutationView::RemoveNode(key)),
                None => None,
            }
        } else {
            None
        }
    }
}

proof fn lemma_parse_one(a: Seq<u8>)
    requires
        a.len() <= u64::MAX,
    ensures
        parse_one(frame(a)) == Some(a),
{
    lemma_unframe_frame(a, Seq::empty());
    assert(frame(a) + Seq::<u8>::empty() =~= frame(a));
}

proof fn lemma_parse_two(a: Seq<u8>, b: Seq<u8>)
    requires
        a.len() <= u64::MAX,
        b.len() <= u64::MAX,
    ensures
        parse_two(frame(a) + frame(b)) == Some((a, b)),
{
    lemma_unframe_frame(a, frame(b));
    lemma_parse_one(b);
}

proof fn lemma_parse_three(a: Seq<u8>, b: Seq<u8>, c: Seq<u8>)
    requires
        a.len() <= u64::MAX,
        b.len() <= u64::MAX,
        c.len() <= u64::MAX,
    ensures
        parse_three(frame(a) + frame(b) + frame(c)) == Some((a, b, c)),
{
    lemma_unframe_frame(a, frame(b) + frame(c));
    assert(frame(a) + frame(b) + frame(c) =~= frame(a) + (frame(b) + frame(c)));
    lemma_parse_two(b, c);
}

proof fn lemma_unparse_one(s: Seq<u8>)
    requires
        parse_one(s).is_some(),
    ensures
        s == frame(parse_one(s).unwrap()),
{
    lemma_frame_unframe(s);
    let (a, rest) = unframe(s).unwrap();
    assert(frame(a) + rest =~= frame(a));
}

proof fn lemma_unparse_two(s: Seq<u8>)
    requires
        parse_two(s).is_some(),
    ensures
        s == frame(parse_two(s).unwrap().0) + frame(parse_two(s).unwrap().1),
{
    lemma_frame_unframe(s);
    lemma_unparse_one(unframe(s).unwrap().1);
}

proof fn lemma_unparse_three(s: Seq<u8>)
    requires
        parse_three(s).is_some(),
    ensures
        s == frame(parse_three(s).unwrap().0) + frame(parse_three(s).unwrap().1) + frame(
            parse_three(s).unwrap().2,
        ),
{
    lemma_frame_unframe(s);
    lemma_unparse_two(unframe(s).unwrap().1);
    let (a, b, c) = parse_three(s).unwrap();
    assert(frame(a) + (frame(b) + frame(c)) =~= frame(a) + frame(b) + frame(c));
}

/// Decoding undoes encoding: the bytes written for a mutation are read back
/// as that mutation.
pub proof fn lemma_parse_encoded(m: MutationView)
    requires
        m.framable(),
    ensures
        parse_mutation(mutation_bytes(m)) == Some(m),
{
    lemma_auto_spec_u32_to_from_le_bytes();
    let s = mutation_bytes(m);
    assert(s.subrange(0, 4) =~= spec_u32_to_le_bytes(tag_of(m)));
    assert(s.subrange(4, s.len() as int) =~= fields_bytes(m));
    match m {
        MutationView::AddEdge(from, to, edge) => lemma_parse_three(from, to, edge),
        MutationView::RemoveEdge(from, to) => lemma_parse_two(from, to),
        MutationView::AddNode(key, node) => lemma_parse_two(key, node),
        MutationView::RemoveNode(key) => lemma_parse_one(key),
    }
}

/// Encoding undoes decoding: a byte string that is read as a mutation is,
/// byte for byte, what writing that mutation gives.
pub proof fn lemma_encode_parsed(s: Seq<u8>)
    requires
        parse_mutation(s).is_some(),
    ensures
        mutation_bytes(parse_mutation(s).unwrap()) == s,
        parse_mutation(s).unwrap().framable(),
{
    lemma_auto_spec_u32_to_from_le_bytes();
    let tag = spec_u32_from_le_bytes(s.subrange(0, 4));
    let body = s.subrange(4, s.len() as int);
    let m = parse_mutation(s).unwrap();
    assert(tag_of(m) == tag);
    assert(spec_u32_to_le_bytes(tag) == s.subrange(0, 4));
    if tag == 0 {
        lemma_unparse_three(body);
        lemma_frame_unframe(body);
        lemma_frame_unframe(unframe(body).unwrap().1);
        lemma_frame_unframe(unframe(unframe(body).unwrap().1).unwrap().1);
    } else if tag == 1 || tag == 2 {
        lemma_unparse_two(body);
        lemma_frame_unframe(body);
        lemma_frame_unframe(unframe(body).unwrap().1);
    } else {
        lemma_unparse_one(body);
        lemma_frame_unframe(body);
    }
    assert(fields_bytes(m) == body);
    assert(s =~= s.subrange(0, 4) + body);
}

impl Clone for GraphMutation {
    fn clone(&self) -> (copy: GraphMutation)
        ensures
            copy@ == self@,
    {
        self.duplicate()
    }
}

impl GraphMutation {
    /// The fields of a mutation in memory are short enough to be framed.
    pub proof fn lemma_framable(&self)
        ensures
            self@.framable(),
    {
        match self {
            GraphMutation::AddEdge((from, to, edge)) => {
                assert(from.len() <= usize::MAX && to.len() <= usize::MAX && edge.len()
                    <= usize::MAX);
            },
            GraphMutation::RemoveEdge((from, to)) => {
                assert(from.len() <= usize::MAX && to.len() <= usize::MAX);
            },
            GraphMutation::AddNode((key, node)) => {
                assert(key.len() <= usize::MAX && node.len() <= usize::MAX);
            },
            GraphMutation::RemoveNode(key) => {
                assert(key.len() <= usize::MAX);
            },
        }
    }

    /// A copy of this mutation.
    pub fn duplicate(&self) -> (copy: GraphMutation)
        ensures
            copy@ == self@,
    {
        match self {
            GraphMutation::AddEdge((from, to, edge)) => GraphMutation::AddEdge(
                (bytes_copy(from), bytes_copy(to), bytes_copy(edge)),
            ),
            GraphMutation::RemoveEdge((from, to)) => GraphMutation::RemoveEdge(
                (bytes_copy(from), bytes_copy(to)),
            ),
            GraphMutation::AddNode((key, node)) => GraphMutation::AddNode(
                (bytes_copy(key), bytes_copy(node)),
            ),
            GraphMutation::RemoveNode(key) => GraphMutation::RemoveNode(bytes_copy(key)),
        }
    }

    /// Writes this mutation in its wire form.
    pub fn encode(&self) -> (bytes: Vec<u8>)
        ensures
            bytes@ == mutation_bytes(self@),
            parse_mutation(bytes@) == Some(self@),
    {
        let mut bytes: Vec<u8> = Vec::new();
        match self {
            GraphMutation::AddEdge((from, to, edge)) => {
                put_bytes(&mut bytes, &u32_to_le_bytes(0));
                put_frame(&mut bytes, from);
                put_frame(&mut bytes, to);
                put_frame(&mut bytes, edge);
            },
            GraphMutation::RemoveEdge((from, to)) => {
                put_bytes(&mut bytes, &u32_to_le_bytes(1));
                put_frame(&mut bytes, from);
                put_frame(&mut bytes, to);
            },
            GraphMutation::AddNode((key, node)) => {
                put_bytes(&mut bytes, &u32_to_le_bytes(2));
                put_frame(&mut bytes, key);
                put_frame(&mut bytes, node);
            },
            GraphMutation::RemoveNode(key) => {
                put_bytes(&mut bytes, &u32_to_le_bytes(3));
                put_frame(&mut bytes, key);
            },
        }
        proof {
            assert(bytes@ =~= mutation_bytes(self@));
            self.lemma_framable();
            lemma_parse_encoded(self@);
        }
        bytes
    }

    /// Reads a mutation from its wire form.  `None` exactly where the bytes
    /// encode no mutation.
    pub fn decode(bytes: &Vec<u8>) -> (decoded: Option<GraphMutation>)
        ensures
            match decoded {
                Some(m) => parse_mutation(bytes@) == Some(m@) && mutation_bytes(m@) == bytes@,
                None => parse_mutation(bytes@).is_none(),
            },
    {
        if bytes.len() < 4 {
            return None;
        }
        let head = slice_subrange(bytes.as_slice(), 0, 4);
        assert(head@ =~= bytes@.subrange(0, 4));
        let tag = u32_from_le_bytes(head);
        if tag > 3 {
            return None;
        }
        let len = bytes.len();
        let first = match take_frame(bytes, 4) {
            Some(taken) => taken,
            None => { return None; },
        };
        let (a, after_a) = first;
        if tag == 3 {
            if after_a != len {
                return None;
            }
            proof {
                lemma_encode_parsed(bytes@);
            }
            return Some(GraphMutation::RemoveNode(a));
        }
        let second = match take_frame(bytes, after_a) {
            Some(taken) => taken,
            None => { return None; },
        };
        let (b, after_b) = second;
        if tag == 1 || tag == 2 {
            if after_b != len {
                return None;
            }
            proof {
                lemma_encode_parsed(bytes@);
            }
            if tag == 1 {
                return Some(GraphMutation::RemoveEdge((a, b)));
            }
            return Some(GraphMutation::AddNode((a, b)));
        }
        let third = match take_frame(bytes, after_b) {
            Some(taken) => taken,
            None => { return None; },
        };
        let (c, after_c) = third;
        if after_c != len {
            return None;
        }
        proof {
            lemma_encode_parsed(bytes@);
        }
        Some(GraphMutation::AddEdge((a, b, c)))
    }

    /// The wire form of this mutation.  It is always `Ok`.
    pub fn try_into(self) -> (encoded: Result<Vec<u8>, StoreError>)
        ensures
            encoded matches Ok(bytes) && bytes@ == mutation_bytes(self@),
    {
        Ok(self.encode())
    }

    /// The mutation that `bytes` encode, or `WriteLogError` with an empty
    /// text where they encode none.
    pub fn try_from(bytes: Vec<u8>) -> (decoded: Result<GraphMutation, StoreError>)
        ensures
            match decoded {
                Ok(m) => parse_mutation(bytes@) == Some(m@) && mutation_bytes(m@) == bytes@,
                Err(e) => {
                    &&& parse_mutation(bytes@).is_none()
                    &&& e matches StoreError::WriteLogError(text)
                    &&& text@.len() == 0
                },
            },
    {
        match GraphMutation::decode(&bytes) {
            Some(m) => Ok(m),
            None => Err(StoreError::WriteLogError(String::new())),
        }
    }
}

} // verus!
