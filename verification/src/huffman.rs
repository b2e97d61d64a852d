use vstd::prelude::*;
use crate::bits::{bits_of_bytes, byte_from_bits, BitReader};
use crate::errors::LoadSaveError;

verus! {

/// Most nodes a serialized tree may use: a full binary tree over a byte
/// alphabet has at most 256 leaves and 255 internal nodes.
pub const NODE_CAPACITY: usize = 511;

/// The mathematical shape of a deserialized Huffman tree.
pub enum Tree {
    Leaf(u8),
    Node(Box<Tree>, Box<Tree>),
}

/// Number of nodes of a tree, leaves and internal nodes together.
pub open spec fn tree_size(t: Tree) -> nat
    decreases t,
{
    match t {
        Tree::Leaf(_) => 1,
        Tree::Node(l, r) => 1 + tree_size(*l) + tree_size(*r),
    }
}

/// What a pre-order tree deserialization starting at bit `pos` yields, and
/// where it leaves the cursor.  `budget` is the number of node-table slots
/// still free: allocating a node when none is left is a `TreeOverflow`, and
/// running off the end of the bit stream is an `OutOfBounds`.
pub open spec fn parse_node(bits: Seq<bool>, pos: int, budget: nat) -> Result<(Tree, int), LoadSaveError>
    decreases budget,
{
    if budget == 0 {
        Err(LoadSaveError::TreeOverflow)
    } else if !(0 <= pos < bits.len()) {
        Err(LoadSaveError::OutOfBounds)
    } else if bits[pos] {
        if pos + 9 <= bits.len() {
            Ok((Tree::Leaf(byte_from_bits(bits, pos + 1)), pos + 9))
        } else {
            Err(LoadSaveError::OutOfBounds)
        }
    } else {
        match parse_node(bits, pos + 1, (budget - 1) as nat) {
            Err(e) => Err(e),
            Ok((l, p1)) => {
                let rem = budget - 1 - tree_size(l);
                if rem < 0 {
                    Err(LoadSaveError::TreeOverflow)
                } else {
                    match parse_node(bits, p1, rem as nat) {
                        Err(e) => Err(e),
                        Ok((r, p2)) => Ok((Tree::Node(Box::new(l), Box::new(r)), p2)),
                    }
                }
            },
        }
    }
}

/// A successful parse consumes at least one bit, never reads past the end,
/// and yields a tree no larger than its budget.
pub proof fn lemma_parse_node_bounds(bits: Seq<bool>, pos: int, budget: nat)
    requires
        parse_node(bits, pos, budget) is Ok,
    ensures
        pos < parse_node(bits, pos, budget)->Ok_0.1 <= bits.len(),
        tree_size(parse_node(bits, pos, budget)->Ok_0.0) <= budget,
    decreases budget,
{
    if budget == 0 || !(0 <= pos < bits.len()) {
        // parse fails; nothing to show
    } else if bits[pos] {
        // leaf case is immediate
    } else {
        match parse_node(bits, pos + 1, (budget - 1) as nat) {
            Err(_) => {},
            Ok((l, p1)) => {
                lemma_parse_node_bounds(bits, pos + 1, (budget - 1) as nat);
                let rem = budget - 1 - tree_size(l);
                if rem >= 0 {
                    match parse_node(bits, p1, rem as nat) {
                        Err(_) => {},
                        Ok((r, p2)) => {
                            lemma_parse_node_bounds(bits, p1, rem as nat);
                        },
                    }
                }
            },
        }
    }
}

/// One slot of the flat node table: a decoded symbol, or the table indices
/// of the two subtrees.
#[derive(Clone, Copy, Debug)]
pub enum Node {
    Leaf { symbol: u8 },
    Internal { left: usize, right: usize },
}

/// The table holds, from slot `i` on, the pre-order layout of tree `t`:
/// the node itself, then its left subtree, then its right subtree.
pub open spec fn represents(table: Seq<Node>, i: int, t: Tree) -> bool
    decreases t,
{
    match t {
        Tree::Leaf(s) => {
            &&& 0 <= i < table.len()
            &&& table[i] == (Node::Leaf { symbol: s })
        },
        Tree::Node(l, r) => {
            &&& 0 <= i < table.len()
            &&& table[i] == (Node::Internal {
                left: (i + 1) as usize,
                right: (i + 1 + tree_size(*l)) as usize,
            })
            &&& i + 1 + tree_size(*l) <= usize::MAX
            &&& represents(table, i + 1, *l)
            &&& represents(table, i + 1 + tree_size(*l), *r)
        },
    }
}

/// Whether slot `i` holds tree `t` depends only on the slots of `t`'s own
/// pre-order range; entries before it may change freely.
pub proof fn lemma_represents_frame(t1: Seq<Node>, t2: Seq<Node>, i: int, t: Tree)
    requires
        represents(t1, i, t),
        t1.len() <= t2.len(),
        forall|j: int| i <= j < t1.len() ==> t2[j] == t1[j],
    ensures
        represents(t2, i, t),
    decreases t,
{
    match t {
        Tree::Leaf(_) => {},
        Tree::Node(l, r) => {
            lemma_represents_frame(t1, t2, i + 1, *l);
            lemma_represents_frame(t1, t2, i + 1 + tree_size(*l), *r);
        },
    }
}

/// Deserializes one pre-order subtree from `reader` into `nodes`, appending
/// its nodes after the entries already there, which it leaves unchanged.
/// Mirrors `parse_node` with the table's free room as the budget.
fn build_node(reader: &mut BitReader, nodes: &mut Vec<Node>) -> (res: Result<(usize, Ghost<Tree>), LoadSaveError>)
    requires
        old(reader).wf(),
        old(nodes)@.len() <= NODE_CAPACITY,
    ensures
        final(reader).wf(),
        final(reader).bits() == old(reader).bits(),
        final(nodes)@.len() <= NODE_CAPACITY,
        old(nodes)@.len() <= final(nodes)@.len(),
        forall|j: int| 0 <= j < old(nodes)@.len() ==> final(nodes)@[j] == old(nodes)@[j],
        match res {
            Ok((idx, t)) => {
                &&& parse_node(old(reader).bits(), old(reader).cursor(),
                        (NODE_CAPACITY - old(nodes)@.len()) as nat)
                    == Ok::<_, LoadSaveError>((t@, final(reader).cursor()))
                &&& idx == old(nodes)@.len()
                &&& final(nodes)@.len() == old(nodes)@.len() + tree_size(t@)
                &&& represents(final(nodes)@, idx as int, t@)
            },
            Err(e) => parse_node(old(reader).bits(), old(reader).cursor(),
                    (NODE_CAPACITY - old(nodes)@.len()) as nat) == Err::<(Tree, int), _>(e),
        },
    decreases old(reader).bits().len() - old(reader).cursor(),
{
    let ghost bits = reader.bits();
    let ghost pos0 = reader.cursor();
    let ghost orig = nodes@;
    let ghost budget = (NODE_CAPACITY - orig.len()) as nat;
    if nodes.len() >= NODE_CAPACITY {
        return Err(LoadSaveError::TreeOverflow);
    }
    let current: usize = nodes.len();
    let is_leaf = match reader.read_bit() {
        Ok(b) => b,
        Err(e) => {
            proof {
                assert(parse_node(bits, pos0, budget) == Err::<(Tree, int), _>(e));
            }
            return Err(e);
        },
    };
    if is_leaf {
        let symbol = match reader.read_byte() {
            Ok(v) => v,
            Err(e) => {
                proof {
                    assert(parse_node(bits, pos0, budget) == Err::<(Tree, int), _>(e));
                }
                return Err(e);
            },
        };
        nodes.push(Node::Leaf { symbol });
        proof {
            assert(parse_node(bits, pos0, budget)
                == Ok::<_, LoadSaveError>((Tree::Leaf(symbol), pos0 + 9)));
            assert(represents(nodes@, current as int, Tree::Leaf(symbol)));
        }
        Ok((current, Ghost(Tree::Leaf(symbol))))
    } else {
        nodes.push(Node::Internal { left: 0, right: 0 });
        let ghost s0 = nodes@;
        let (li, lt) = match build_node(reader, nodes) {
            Ok(r) => r,
            Err(e) => {
                proof {
                    assert(parse_node(bits, pos0 + 1, (budget - 1) as nat)
                        == Err::<(Tree, int), _>(e));
                    assert(parse_node(bits, pos0, budget) == Err::<(Tree, int), _>(e));
                }
                return Err(e);
            },
        };
        let ghost s1 = nodes@;
        proof {
            assert(parse_node(bits, pos0 + 1, (budget - 1) as nat)
                == Ok::<_, LoadSaveError>((lt@, reader.cursor())));
            lemma_parse_node_bounds(bits, pos0 + 1, (budget - 1) as nat);
            assert(s1.len() == orig.len() + 1 + tree_size(lt@));
            assert(budget - 1 - tree_size(lt@) == NODE_CAPACITY - s1.len());
        }
        let (ri, rt) = match build_node(reader, nodes) {
            Ok(r) => r,
            Err(e) => {
                proof {
                    assert(parse_node(bits, pos0, budget) == Err::<(Tree, int), _>(e));
                }
                return Err(e);
            },
        };
        let ghost s2 = nodes@;
        let node = Node::Internal { left: li, right: ri };
        nodes.set(current, node);
        let ghost t = Tree::Node(Box::new(lt@), Box::new(rt@));
        proof {
            assert(parse_node(bits, pos0, budget)
                == Ok::<_, LoadSaveError>((t, reader.cursor())));
            lemma_represents_frame(s1, s2, li as int, lt@);
            lemma_represents_frame(s2, nodes@, li as int, lt@);
            lemma_represents_frame(s2, nodes@, ri as int, rt@);
            assert(nodes@[current as int] == (Node::Internal {
                left: (current + 1) as usize,
                right: (current + 1 + tree_size(lt@)) as usize,
            }));
            assert(represents(nodes@, current as int, t));
        }
        Ok((current, Ghost(t)))
    }
}

/// One symbol decoded by walking `t` from its root: each bit picks the
/// "0" (left) or "1" (right) subtree until a leaf is reached.  Returns the
/// leaf's symbol and the cursor after the last bit used.
pub open spec fn decode_one(t: Tree, bits: Seq<bool>, pos: int) -> Result<(u8, int), LoadSaveError>
    decreases t,
{
    match t {
        Tree::Leaf(s) => Ok((s, pos)),
        Tree::Node(l, r) => {
            if 0 <= pos < bits.len() {
                if !bits[pos] {
                    decode_one(*l, bits, pos + 1)
                } else {
                    decode_one(*r, bits, pos + 1)
                }
            } else {
                Err(LoadSaveError::OutOfBounds)
            }
        },
    }
}

/// `n` symbols decoded in sequence, and the cursor after them.
pub open spec fn decode_syms(t: Tree, bits: Seq<bool>, pos: int, n: nat) -> Result<(Seq<u8>, int), LoadSaveError>
    decreases n,
{
    if n == 0 {
        Ok((Seq::empty(), pos))
    } else {
        match decode_one(t, bits, pos) {
            Err(e) => Err(e),
            Ok((s, p1)) => match decode_syms(t, bits, p1, (n - 1) as nat) {
                Err(e) => Err(e),
                Ok((rest, p2)) => Ok((seq![s] + rest, p2)),
            },
        }
    }
}

/// What decoding a Huffman bit stream yields: the serialized tree is
/// deserialized from bit 0, then `n` symbols are decoded from the bits
/// that follow it.
pub open spec fn huffman_decode_bits(bits: Seq<bool>, n: nat) -> Result<Seq<u8>, LoadSaveError> {
    match parse_node(bits, 0, NODE_CAPACITY as nat) {
        Err(e) => Err(e),
        Ok((t, p)) => match decode_syms(t, bits, p, n) {
            Err(e) => Err(e),
            Ok((syms, _)) => Ok(syms),
        },
    }
}

/// Byte-level form of `huffman_decode_bits`: what `decode` returns.
pub open spec fn spec_decode(input: Seq<u8>, n: nat) -> Result<Seq<u8>, LoadSaveError> {
    huffman_decode_bits(bits_of_bytes(input), n)
}

/// Decodes one symbol by walking the node table from its root at slot 0.
#[verifier::loop_isolation(false)]
fn walk_symbol(reader: &mut BitReader, nodes: &Vec<Node>, t: Ghost<Tree>) -> (res: Result<u8, LoadSaveError>)
    requires
        old(reader).wf(),
        represents(nodes@, 0, t@),
    ensures
        final(reader).wf(),
        final(reader).bits() == old(reader).bits(),
        match res {
            Ok(s) => decode_one(t@, old(reader).bits(), old(reader).cursor())
                == Ok::<_, LoadSaveError>((s, final(reader).cursor())),
            Err(e) => decode_one(t@, old(reader).bits(), old(reader).cursor())
                == Err::<(u8, int), _>(e),
        },
{
    let ghost bits = reader.bits();
    let ghost pos0 = reader.cursor();
    let mut idx: usize = 0;
    let ghost mut cur = t@;
    loop
        invariant
            reader.wf(),
            reader.bits() == bits,
            represents(nodes@, idx as int, cur),
            decode_one(t@, bits, pos0) == decode_one(cur, bits, reader.cursor()),
        decreases tree_size(cur),
    {
        match nodes[idx] {
            Node::Leaf { symbol } => {
                proof {
                    assert(cur matches Tree::Leaf(s) && s == symbol);
                }
                return Ok(symbol);
            },
            Node::Internal { left, right } => {
                proof {
                    assert(cur is Node);
                }
                let b = match reader.read_bit() {
                    Ok(b) => b,
                    Err(e) => {
                        proof {
                            assert(decode_one(cur, bits, reader.cursor())
                                == Err::<(u8, int), _>(LoadSaveError::OutOfBounds));
                        }
                        return Err(e);
                    },
                };
                if b {
                    idx = right;
                    proof {
                        cur = *cur->Node_1;
                    }
                } else {
                    idx = left;
                    proof {
                        cur = *cur->Node_0;
                    }
                }
            },
        }
    }
}

/// Decodes `input` — a serialized Huffman tree followed by the encoded
/// symbol stream — into exactly `output_size` bytes.  Fails with
/// `TreeOverflow` if the tree description needs more than `NODE_CAPACITY`
/// nodes, and with `OutOfBounds` if the bit stream runs out first.
#[verifier::loop_isolation(false)]
pub fn decode(input: &[u8], output_size: usize) -> (res: Result<Vec<u8>, LoadSaveError>)
    ensures
        match res {
            Ok(v) => spec_decode(input@, output_size as nat) == Ok::<_, LoadSaveError>(v@)
                && v@.len() == output_size,
            Err(e) => spec_decode(input@, output_size as nat) == Err::<Seq<u8>, _>(e),
        },
{
    let mut reader = BitReader::new(input);
    let mut nodes: Vec<Node> = Vec::new();
    let (_root, t) = match build_node(&mut reader, &mut nodes) {
        Ok(r) => r,
        Err(e) => return Err(e),
    };
    let ghost bits = reader.bits();
    let ghost tree_end = reader.cursor();
    let ghost n = output_size as nat;
    let mut out: Vec<u8> = Vec::new();
    proof {
        if decode_syms(t@, bits, tree_end, n) is Ok {
            let s = decode_syms(t@, bits, tree_end, n)->Ok_0.0;
            assert(out@ + s =~= s);
        }
    }
    while out.len() < output_size
        invariant
            reader.wf(),
            reader.bits() == bits,
            represents(nodes@, 0, t@),
            out@.len() <= output_size,
            decode_syms(t@, bits, tree_end, n)
                == (match decode_syms(t@, bits, reader.cursor(), (n - out@.len()) as nat) {
                    Ok((s, p)) => Ok::<_, LoadSaveError>((out@ + s, p)),
                    Err(e) => Err::<(Seq<u8>, int), _>(e),
                }),
        decreases output_size - out@.len(),
    {
        let ghost c = reader.cursor();
        let ghost k = (n - out@.len()) as nat;
        let sym = match walk_symbol(&mut reader, &nodes, t) {
            Ok(s) => s,
            Err(e) => {
                proof {
                    assert(decode_syms(t@, bits, c, k) == Err::<(Seq<u8>, int), _>(e));
                }
                return Err(e);
            },
        };
        let ghost prev = out@;
        out.push(sym);
        proof {
            let c2 = reader.cursor();
            assert(out@ == prev + seq![sym]);
            assert(decode_one(t@, bits, c) == Ok::<_, LoadSaveError>((sym, c2)));
            assert((n - out@.len()) as nat == (k - 1) as nat);
            match decode_syms(t@, bits, c2, (k - 1) as nat) {
                Ok((rest, p2)) => {
                    assert(decode_syms(t@, bits, c, k)
                        == Ok::<_, LoadSaveError>((seq![sym] + rest, p2)));
                    assert(prev + (seq![sym] + rest) =~= (prev + seq![sym]) + rest);
                },
                Err(e2) => {
                    assert(decode_syms(t@, bits, c, k) == Err::<(Seq<u8>, int), _>(e2));
                },
            }
        }
    }
    proof {
        assert(decode_syms(t@, bits, reader.cursor(), (n - out@.len()) as nat)
            == Ok::<_, LoadSaveError>((Seq::<u8>::empty(), reader.cursor())));
        assert(out@ + Seq::<u8>::empty() =~= out@);
    }
    Ok(out)
}

/// The 8 bits of one byte, most significant first.
pub open spec fn byte_bits(s: u8) -> Seq<bool> {
    Seq::new(8, |k: int| (s >> ((7 - k) as u32)) & 1 == 1)
}

/// Pre-order serialization of a tree: a set bit and the symbol byte for a
/// leaf; a clear bit, the left subtree, then the right subtree for an
/// internal node.
pub open spec fn ser_tree(t: Tree) -> Seq<bool>
    decreases t,
{
    match t {
        Tree::Leaf(s) => seq![true] + byte_bits(s),
        Tree::Node(l, r) => seq![false] + ser_tree(*l) + ser_tree(*r),
    }
}

/// The path (`false` = left) to the leftmost leaf of `t` holding `s`, if
/// there is one.
pub open spec fn enc_one(t: Tree, s: u8) -> Option<Seq<bool>>
    decreases t,
{
    match t {
        Tree::Leaf(x) => if x == s {
            Some(Seq::empty())
        } else {
            None
        },
        Tree::Node(l, r) => match enc_one(*l, s) {
            Some(p) => Some(seq![false] + p),
            None => match enc_one(*r, s) {
                Some(p) => Some(seq![true] + p),
                None => None,
            },
        },
    }
}

/// Whether every symbol of `syms` has a leaf in `t`.
pub open spec fn encodable(t: Tree, syms: Seq<u8>) -> bool {
    forall|i: int| 0 <= i < syms.len() ==> (#[trigger] enc_one(t, syms[i])) is Some
}

/// The bit stream that encodes `syms` against `t`, symbol by symbol.
pub open spec fn enc_syms(t: Tree, syms: Seq<u8>) -> Seq<bool>
    decreases syms.len(),
{
    if syms.len() == 0 {
        Seq::empty()
    } else {
        (match enc_one(t, syms[0]) {
            Some(p) => p,
            None => Seq::empty(),
        }) + enc_syms(t, syms.drop_first())
    }
}

/// Reassembling the 8 serialized bits of a byte gives the byte back.
proof fn lemma_byte_bits_value(bits: Seq<bool>, p: int, s: u8)
    requires
        0 <= p,
        p + 8 <= bits.len(),
        forall|k: int| 0 <= k < 8 ==> bits[p + k] == byte_bits(s)[k],
    ensures
        byte_from_bits(bits, p) == s,
{
    assert(s == ((s >> 7u32) & 1) * 128 + ((s >> 6u32) & 1) * 64 + ((s >> 5u32) & 1) * 32
        + ((s >> 4u32) & 1) * 16 + ((s >> 3u32) & 1) * 8 + ((s >> 2u32) & 1) * 4
        + ((s >> 1u32) & 1) * 2 + ((s >> 0u32) & 1)) by (bit_vector);
    assert(((s >> 7u32) & 1) == 0 || ((s >> 7u32) & 1) == 1) by (bit_vector);
    assert(((s >> 6u32) & 1) == 0 || ((s >> 6u32) & 1) == 1) by (bit_vector);
    assert(((s >> 5u32) & 1) == 0 || ((s >> 5u32) & 1) == 1) by (bit_vector);
    assert(((s >> 4u32) & 1) == 0 || ((s >> 4u32) & 1) == 1) by (bit_vector);
    assert(((s >> 3u32) & 1) == 0 || ((s >> 3u32) & 1) == 1) by (bit_vector);
    assert(((s >> 2u32) & 1) == 0 || ((s >> 2u32) & 1) == 1) by (bit_vector);
    assert(((s >> 1u32) & 1) == 0 || ((s >> 1u32) & 1) == 1) by (bit_vector);
    assert(((s >> 0u32) & 1) == 0 || ((s >> 0u32) & 1) == 1) by (bit_vector);
    assert(bits[p + 0] == byte_bits(s)[0] && bits[p + 1] == byte_bits(s)[1]
        && bits[p + 2] == byte_bits(s)[2] && bits[p + 3] == byte_bits(s)[3]
        && bits[p + 4] == byte_bits(s)[4] && bits[p + 5] == byte_bits(s)[5]
        && bits[p + 6] == byte_bits(s)[6] && bits[p + 7] == byte_bits(s)[7]);
    assert(byte_bits(s)[0] == ((s >> 7u32) & 1 == 1));
    assert(byte_bits(s)[1] == ((s >> 6u32) & 1 == 1));
    assert(byte_bits(s)[2] == ((s >> 5u32) & 1 == 1));
    assert(byte_bits(s)[3] == ((s >> 4u32) & 1 == 1));
    assert(byte_bits(s)[4] == ((s >> 3u32) & 1 == 1));
    assert(byte_bits(s)[5] == ((s >> 2u32) & 1 == 1));
    assert(byte_bits(s)[6] == ((s >> 1u32) & 1 == 1));
    assert(byte_bits(s)[7] == ((s >> 0u32) & 1 == 1));
}

/// Deserializing a serialized tree from any bit stream that carries it
/// gives that tree back and stops right after it, whenever the node budget
/// admits the tree.
pub proof fn lemma_parse_of_ser(bits: Seq<bool>, pos: int, budget: nat, t: Tree)
    requires
        0 <= pos,
        pos + ser_tree(t).len() <= bits.len(),
        bits.subrange(pos, pos + ser_tree(t).len() as int) == ser_tree(t),
        tree_size(t) <= budget,
    ensures
        parse_node(bits, pos, budget) == Ok::<_, LoadSaveError>((t, pos + ser_tree(t).len())),
    decreases t,
{
    let s = ser_tree(t);
    assert forall|i: int| 0 <= i < s.len() implies bits[pos + i] == s[i] by {
        assert(bits.subrange(pos, pos + s.len() as int)[i] == bits[pos + i]);
    }
    match t {
        Tree::Leaf(x) => {
            assert(s[0] == true);
            assert forall|k: int| 0 <= k < 8 implies bits[pos + 1 + k] == byte_bits(x)[k] by {
                assert(s[1 + k] == byte_bits(x)[k]);
                assert(bits[pos + (1 + k)] == s[1 + k]);
            }
            lemma_byte_bits_value(bits, pos + 1, x);
        },
        Tree::Node(l, r) => {
            let sl = ser_tree(*l);
            let sr = ser_tree(*r);
            assert(s == seq![false] + sl + sr);
            assert(s.len() == 1 + sl.len() + sr.len());
            assert(s[0] == false);
            assert(bits[pos] == false);
            assert forall|i: int| 0 <= i < sl.len() implies bits[pos + 1 + i] == sl[i] by {
                assert(s[1 + i] == sl[i]);
                assert(bits[pos + (1 + i)] == s[1 + i]);
            }
            assert(bits.subrange(pos + 1, pos + 1 + sl.len() as int) =~= sl);
            lemma_parse_of_ser(bits, pos + 1, (budget - 1) as nat, *l);
            let p1 = pos + 1 + sl.len() as int;
            assert forall|i: int| 0 <= i < sr.len() implies bits[p1 + i] == sr[i] by {
                assert(s[1 + sl.len() + i] == sr[i]);
                assert(bits[pos + (1 + sl.len() + i)] == s[1 + sl.len() + i]);
            }
            assert(bits.subrange(p1, p1 + sr.len() as int) =~= sr);
            let rem = budget - 1 - tree_size(*l);
            assert(tree_size(*r) <= rem);
            lemma_parse_of_ser(bits, p1, rem as nat, *r);
        },
    }
}

/// Following an encoding path through the tree it was built from lands on
/// the leaf holding the encoded symbol, using exactly the path's bits.
pub proof fn lemma_decode_of_enc_one(t: Tree, s: u8, bits: Seq<bool>, pos: int)
    requires
        0 <= pos,
        enc_one(t, s) is Some,
        pos + enc_one(t, s)->Some_0.len() <= bits.len(),
        bits.subrange(pos, pos + enc_one(t, s)->Some_0.len() as int) == enc_one(t, s)->Some_0,
    ensures
        decode_one(t, bits, pos)
            == Ok::<_, LoadSaveError>((s, pos + enc_one(t, s)->Some_0.len())),
    decreases t,
{
    let p = enc_one(t, s)->Some_0;
    assert forall|i: int| 0 <= i < p.len() implies bits[pos + i] == p[i] by {
        assert(bits.subrange(pos, pos + p.len() as int)[i] == bits[pos + i]);
    }
    match t {
        Tree::Leaf(_) => {},
        Tree::Node(l, r) => {
            match enc_one(*l, s) {
                Some(pl) => {
                    assert(p == seq![false] + pl);
                    assert(bits[pos + 0] == p[0]);
                    assert(p[0] == false);
                    assert forall|i: int| 0 <= i < pl.len() implies bits[pos + 1 + i] == pl[i] by {
                        assert(p[1 + i] == pl[i]);
                        assert(bits[pos + (1 + i)] == p[1 + i]);
                    }
                    assert(bits.subrange(pos + 1, pos + 1 + pl.len() as int) =~= pl);
                    lemma_decode_of_enc_one(*l, s, bits, pos + 1);
                },
                None => {
                    let pr = enc_one(*r, s)->Some_0;
                    assert(p == seq![true] + pr);
                    assert(bits[pos + 0] == p[0]);
                    assert(p[0] == true);
                    assert forall|i: int| 0 <= i < pr.len() implies bits[pos + 1 + i] == pr[i] by {
                        assert(p[1 + i] == pr[i]);
                        assert(bits[pos + (1 + i)] == p[1 + i]);
                    }
                    assert(bits.subrange(pos + 1, pos + 1 + pr.len() as int) =~= pr);
                    lemma_decode_of_enc_one(*r, s, bits, pos + 1);
                },
            }
        },
    }
}

/// Decoding an encoded symbol sequence gives the sequence back, using
/// exactly the encoded bits.
pub proof fn lemma_decode_of_enc_syms(t: Tree, syms: Seq<u8>, bits: Seq<bool>, pos: int)
    requires
        0 <= pos,
        encodable(t, syms),
        pos + enc_syms(t, syms).len() <= bits.len(),
        bits.subrange(pos, pos + enc_syms(t, syms).len() as int) == enc_syms(t, syms),
    ensures
        decode_syms(t, bits, pos, syms.len() as nat)
            == Ok::<_, LoadSaveError>((syms, pos + enc_syms(t, syms).len())),
    decreases syms.len(),
{
    let e = enc_syms(t, syms);
    assert forall|i: int| 0 <= i < e.len() implies bits[pos + i] == e[i] by {
        assert(bits.subrange(pos, pos + e.len() as int)[i] == bits[pos + i]);
    }
    if syms.len() == 0 {
        assert(syms =~= Seq::<u8>::empty());
    } else {
        assert(enc_one(t, syms[0]) is Some);
        let p0 = enc_one(t, syms[0])->Some_0;
        let rest = syms.drop_first();
        let er = enc_syms(t, rest);
        assert(e == p0 + er);
        assert forall|i: int| 0 <= i < p0.len() implies bits[pos + i] == p0[i] by {
            assert(e[i] == p0[i]);
        }
        assert(bits.subrange(pos, pos + p0.len() as int) =~= p0);
        lemma_decode_of_enc_one(t, syms[0], bits, pos);
        let p1 = pos + p0.len() as int;
        assert forall|i: int| 0 <= i < er.len() implies bits[p1 + i] == er[i] by {
            assert(e[p0.len() + i] == er[i]);
            assert(bits[pos + (p0.len() + i)] == e[p0.len() + i]);
        }
        assert(bits.subrange(p1, p1 + er.len() as int) =~= er);
        assert forall|i: int| 0 <= i < rest.len() implies (#[trigger] enc_one(t, rest[i])) is Some by {
            assert(rest[i] == syms[i + 1]);
            assert(enc_one(t, syms[i + 1]) is Some);
        }
        lemma_decode_of_enc_syms(t, rest, bits, p1);
        assert(seq![syms[0]] + rest =~= syms);
    }
}

/// Round trip: for any tree and any symbol sequence the tree can encode,
/// decoding the serialized tree followed by the encoded symbols — whatever
/// padding bits trail them — yields exactly the original symbols.
pub proof fn lemma_round_trip(t: Tree, syms: Seq<u8>, extra: Seq<bool>)
    requires
        tree_size(t) <= NODE_CAPACITY,
        encodable(t, syms),
    ensures
        huffman_decode_bits(ser_tree(t) + enc_syms(t, syms) + extra, syms.len() as nat)
            == Ok::<Seq<u8>, LoadSaveError>(syms),
{
    let bits = ser_tree(t) + enc_syms(t, syms) + extra;
    let st = ser_tree(t);
    let es = enc_syms(t, syms);
    assert forall|i: int| 0 <= i < st.len() implies bits[i] == st[i] by {
        assert(bits[i] == (st + es)[i]);
    }
    assert(bits.subrange(0, st.len() as int) =~= st);
    lemma_parse_of_ser(bits, 0, NODE_CAPACITY as nat, t);
    let p = st.len() as int;
    assert forall|i: int| 0 <= i < es.len() implies bits[p + i] == es[i] by {
        assert(bits[p + i] == (st + es)[p + i]);
        assert((st + es)[p + i] == es[i]);
    }
    assert(bits.subrange(p, p + es.len() as int) =~= es);
    lemma_decode_of_enc_syms(t, syms, bits, p);
}

/// A successful decode yields exactly `n` symbols, never more nor fewer.
pub proof fn lemma_decode_syms_len(t: Tree, bits: Seq<bool>, pos: int, n: nat)
    requires
        decode_syms(t, bits, pos, n) is Ok,
    ensures
        decode_syms(t, bits, pos, n)->Ok_0.0.len() == n,
    decreases n,
{
    if n != 0 {
        match decode_one(t, bits, pos) {
            Err(_) => {},
            Ok((_, p1)) => {
                lemma_decode_syms_len(t, bits, p1, (n - 1) as nat);
            },
        }
    }
}

/// A successful Huffman decode of a bit stream has exactly the requested
/// length.
pub proof fn lemma_decode_exact_len(bits: Seq<bool>, n: nat)
    requires
        huffman_decode_bits(bits, n) is Ok,
    ensures
        huffman_decode_bits(bits, n)->Ok_0.len() == n,
{
    match parse_node(bits, 0, NODE_CAPACITY as nat) {
        Err(_) => {},
        Ok((t, p)) => {
            lemma_decode_syms_len(t, bits, p, n);
        },
    }
}

/// Tree deserialization can only fail by overflowing the node budget or by
/// running off the end of the bit stream.
pub proof fn lemma_parse_node_err(bits: Seq<bool>, pos: int, budget: nat)
    requires
        parse_node(bits, pos, budget) is Err,
    ensures
        parse_node(bits, pos, budget)->Err_0 == LoadSaveError::TreeOverflow
            || parse_node(bits, pos, budget)->Err_0 == LoadSaveError::OutOfBounds,
    decreases budget,
{
    if budget == 0 || !(0 <= pos < bits.len()) {
    } else if bits[pos] {
    } else {
        match parse_node(bits, pos + 1, (budget - 1) as nat) {
            Err(_) => {
                lemma_parse_node_err(bits, pos + 1, (budget - 1) as nat);
            },
            Ok((l, p1)) => {
                let rem = budget - 1 - tree_size(l);
                if rem >= 0 {
                    match parse_node(bits, p1, rem as nat) {
                        Err(_) => {
                            lemma_parse_node_err(bits, p1, rem as nat);
                        },
                        Ok(_) => {},
                    }
                }
            },
        }
    }
}

/// Walking the tree for one symbol can only fail by exhausting the bit
/// stream.
pub proof fn lemma_decode_one_err(t: Tree, bits: Seq<bool>, pos: int)
    requires
        decode_one(t, bits, pos) is Err,
    ensures
        decode_one(t, bits, pos)->Err_0 == LoadSaveError::OutOfBounds,
    decreases t,
{
    match t {
        Tree::Leaf(_) => {},
        Tree::Node(l, r) => {
            if 0 <= pos < bits.len() {
                if !bits[pos] {
                    lemma_decode_one_err(*l, bits, pos + 1);
                } else {
                    lemma_decode_one_err(*r, bits, pos + 1);
                }
            }
        },
    }
}

/// Decoding a symbol sequence can only fail by exhausting the bit stream.
pub proof fn lemma_decode_syms_err(t: Tree, bits: Seq<bool>, pos: int, n: nat)
    requires
        decode_syms(t, bits, pos, n) is Err,
    ensures
        decode_syms(t, bits, pos, n)->Err_0 == LoadSaveError::OutOfBounds,
    decreases n,
{
    if n != 0 {
        match decode_one(t, bits, pos) {
            Err(_) => {
                lemma_decode_one_err(t, bits, pos);
            },
            Ok((_, p1)) => {
                lemma_decode_syms_err(t, bits, p1, (n - 1) as nat);
            },
        }
    }
}

/// A failed Huffman decode reports `TreeOverflow` or `OutOfBounds` and
/// nothing else.
pub proof fn lemma_huffman_err(bits: Seq<bool>, n: nat)
    requires
        huffman_decode_bits(bits, n) is Err,
    ensures
        huffman_decode_bits(bits, n)->Err_0 == LoadSaveError::TreeOverflow
            || huffman_decode_bits(bits, n)->Err_0 == LoadSaveError::OutOfBounds,
{
    match parse_node(bits, 0, NODE_CAPACITY as nat) {
        Err(_) => {
            lemma_parse_node_err(bits, 0, NODE_CAPACITY as nat);
        },
        Ok((t, p)) => {
            if decode_syms(t, bits, p, n) is Err {
                lemma_decode_syms_err(t, bits, p, n);
            }
        },
    }
}

} // verus!
