use crate::bit_reader::{bits_value, BitReader};
use crate::code_table::{
    code_bits, code_owner, entry_bits, has_code, is_coded, lengths_fit, prefix_free, under_code,
    CodeEntry,
};
use crate::error::BrotliError;
use vstd::arithmetic::power2::lemma2_to64;
use vstd::bits::lemma_u16_shr_is_div;
use vstd::prelude::*;

verus! {

/// A node of a prefix tree.
pub enum HuffmanNode {
    /// No code passes through here.
    Empty,
    /// A code ends here and stands for this symbol.
    Leaf(u16),
    /// Codes go on below: `left` after a 0 bit, `right` after a 1 bit.
    Internal { left: Box<HuffmanNode>, right: Box<HuffmanNode> },
}

/// What a node is, without what hangs below it.
pub enum NodeKind {
    Empty,
    Leaf(u16),
    Internal,
}

/// How a walk down a tree along the bits of a stream ends.
pub enum Walk {
    /// A leaf was reached; `end` is the position after the code's last bit.
    Symbol { symbol: u16, end: nat },
    /// The stream ran out before a leaf was reached.
    Exhausted,
    /// The walk stepped onto an empty node; `end` is the position after the
    /// bit that led there.
    Unassigned { end: nat },
}

impl HuffmanNode {
    /// A new internal node with two empty children.
    pub fn new_internal() -> (r: Self)
        ensures
            r == (HuffmanNode::Internal {
                left: Box::new(HuffmanNode::Empty),
                right: Box::new(HuffmanNode::Empty),
            }),
    {
        Self::Internal { left: Box::new(Self::Empty), right: Box::new(Self::Empty) }
    }

    pub open spec fn kind(self) -> NodeKind {
        match self {
            HuffmanNode::Empty => NodeKind::Empty,
            HuffmanNode::Leaf(s) => NodeKind::Leaf(s),
            HuffmanNode::Internal { .. } => NodeKind::Internal,
        }
    }

    /// The node one step down: right for a 1 bit, left for a 0 bit. Nothing
    /// hangs below a leaf or an empty node.
    pub open spec fn child(self, bit: bool) -> HuffmanNode {
        match self {
            HuffmanNode::Internal { left, right } => if bit {
                *right
            } else {
                *left
            },
            _ => HuffmanNode::Empty,
        }
    }

    /// The node reached from here by following `path`.
    pub open spec fn at(self, path: Seq<bool>) -> HuffmanNode
        decreases path.len(),
    {
        if path.len() == 0 {
            self
        } else {
            self.child(path[0]).at(path.drop_first())
        }
    }

    /// A leaf can be hung at `path` without passing through a leaf: every
    /// node on the way is internal or still empty.
    pub open spec fn accepts(self, path: Seq<bool>) -> bool
        decreases path.len(),
    {
        path.len() == 0 || (self is Internal && (self.child(path[0]) is Empty || self.child(
            path[0],
        ).accepts(path.drop_first())))
    }

    /// This tree with a leaf for `symbol` hung at `path`; nodes that the path
    /// needs are made internal.
    pub open spec fn with_leaf(self, path: Seq<bool>, symbol: u16) -> HuffmanNode
        decreases path.len(),
    {
        if path.len() == 0 {
            HuffmanNode::Leaf(symbol)
        } else if path[0] {
            HuffmanNode::Internal {
                left: Box::new(self.child(false)),
                right: Box::new(self.child(true).with_leaf(path.drop_first(), symbol)),
            }
        } else {
            HuffmanNode::Internal {
                left: Box::new(self.child(false).with_leaf(path.drop_first(), symbol)),
                right: Box::new(self.child(true)),
            }
        }
    }

    /// Walks down from this node along the bits of `bits` that start at
    /// `pos`, one bit per step, until a leaf, an empty node or the end of the
    /// stream stops the walk.
    pub open spec fn walk(self, bits: Seq<bool>, pos: nat) -> Walk
        decreases bits.len() - pos,
    {
        match self {
            HuffmanNode::Leaf(symbol) => Walk::Symbol { symbol, end: pos },
            _ => if pos >= bits.len() {
                Walk::Exhausted
            } else {
                match self {
                    HuffmanNode::Internal { .. } => self.child(bits[pos as int]).walk(
                        bits,
                        pos + 1,
                    ),
                    _ => Walk::Unassigned { end: pos },
                }
            },
        }
    }
}

/// What a tree for `table` holds at `path`: a leaf where a code ends, an
/// internal node at the root and on the way to a code, nothing elsewhere.
pub open spec fn table_kind(table: Seq<CodeEntry>, path: Seq<bool>) -> NodeKind {
    if has_code(table, path) {
        NodeKind::Leaf(table[code_owner(table, path)].0)
    } else if path.len() == 0 || under_code(table, path) {
        NodeKind::Internal
    } else {
        NodeKind::Empty
    }
}

/// The tree below `node` holds exactly the codes of `table`.
pub open spec fn node_represents(node: HuffmanNode, table: Seq<CodeEntry>) -> bool {
    forall|path: Seq<bool>| #[trigger] node.at(path).kind() == table_kind(table, path)
}

/// Walks along the bits of `bits` from `start` on, `depth` bits of which
/// have been taken already, by the codes of `table` alone: a code that the
/// bits taken spell ends the walk with its symbol; bits that begin no code
/// end it as unassigned; where bits that begin a code run out, it ends as
/// exhausted.
pub open spec fn table_walk(table: Seq<CodeEntry>, bits: Seq<bool>, start: nat, depth: nat) -> Walk
    decreases bits.len() - start - depth,
{
    let path = bits.subrange(start as int, (start + depth) as int);
    match table_kind(table, path) {
        NodeKind::Leaf(symbol) => Walk::Symbol { symbol, end: start + depth },
        NodeKind::Internal => if start + depth >= bits.len() {
            Walk::Exhausted
        } else {
            table_walk(table, bits, start, depth + 1)
        },
        NodeKind::Empty => if start + depth >= bits.len() {
            Walk::Exhausted
        } else {
            Walk::Unassigned { end: start + depth }
        },
    }
}

/// What decoding one symbol at `pos` gives, by the codes of `table`.
pub open spec fn decode_one(table: Seq<CodeEntry>, bits: Seq<bool>, pos: nat) -> Walk {
    table_walk(table, bits, pos, 0)
}

/// The first bit of a code is its highest used bit, and the rest of the
/// code is the same code taken one bit shorter.
pub proof fn lemma_code_bits_step(code: u16, len: nat)
    requires
        0 < len <= 16,
    ensures
        code_bits(code, len)[0] == ((code >> ((len - 1) as u16)) & 1 == 1),
        code_bits(code, len).drop_first() == code_bits(code, (len - 1) as nat),
{
    let shift = (len - 1) as u16;
    let top: u16 = code >> shift;
    lemma_u16_shr_is_div(code, shift);
    assert(top & 1 == top % 2) by (bit_vector);
    assert(code_bits(code, len).drop_first() =~= code_bits(code, (len - 1) as nat));
}

/// A new internal node stands for an empty one: a leaf can be hung anywhere
/// below it, with the same result.
proof fn lemma_fresh_internal(path: Seq<bool>, symbol: u16)
    ensures
        ({
            let fresh = HuffmanNode::Internal {
                left: Box::new(HuffmanNode::Empty),
                right: Box::new(HuffmanNode::Empty),
            };
            &&& fresh.accepts(path)
            &&& fresh.with_leaf(path, symbol) == HuffmanNode::Empty.with_leaf(path, symbol)
        }),
{
}

/// Nothing is reached from an empty node or from a leaf but empty nodes.
pub proof fn lemma_nothing_below(node: HuffmanNode, path: Seq<bool>)
    requires
        !(node is Internal),
        path.len() > 0,
    ensures
        node.at(path) is Empty,
    decreases path.len(),
{
    assert(node.at(path) == node.child(path[0]).at(path.drop_first()));
    if path.len() > 1 {
        lemma_nothing_below(HuffmanNode::Empty, path.drop_first());
    }
}

/// Following a path and then one more bit is following the longer path.
pub proof fn lemma_at_push(node: HuffmanNode, path: Seq<bool>, bit: bool)
    ensures
        node.at(path.push(bit)) == node.at(path).child(bit),
    decreases path.len(),
{
    let longer = path.push(bit);
    if path.len() == 0 {
        assert(longer.drop_first() =~= Seq::<bool>::empty());
        assert(node.at(longer) == node.child(longer[0]).at(longer.drop_first()));
    } else {
        assert(longer.drop_first() =~= path.drop_first().push(bit));
        lemma_at_push(node.child(path[0]), path.drop_first(), bit);
    }
}

/// Two nonempty runs of bits are in the prefix relation exactly if they
/// start alike and their rests are in it.
proof fn lemma_prefix_step(a: Seq<bool>, b: Seq<bool>)
    requires
        a.len() > 0,
        b.len() > 0,
    ensures
        a.is_prefix_of(b) <==> a[0] == b[0] && a.drop_first().is_prefix_of(b.drop_first()),
        a == b <==> a[0] == b[0] && a.drop_first() == b.drop_first(),
{
    if a.is_prefix_of(b) {
        assert(a[0] == b.subrange(0, a.len() as int)[0]);
        assert(a.drop_first() =~= b.drop_first().subrange(0, a.len() - 1));
    }
    if a[0] == b[0] && a.drop_first().is_prefix_of(b.drop_first()) {
        let ad = a.drop_first();
        let bd = b.drop_first();
        assert forall|i: int| 0 <= i < a.len() implies a[i] == b.subrange(0, a.len() as int)[i] by {
            if i > 0 {
                assert(a[i] == ad[i - 1]);
                assert(ad[i - 1] == bd.subrange(0, ad.len() as int)[i - 1]);
            }
        }
        assert(a =~= b.subrange(0, a.len() as int));
    }
    if a[0] == b[0] && a.drop_first() == b.drop_first() {
        assert(a.len() == b.len());
        assert forall|i: int| 0 <= i < a.len() implies a[i] == b[i] by {
            if i > 0 {
                assert(a[i] == a.drop_first()[i - 1]);
                assert(b[i] == b.drop_first()[i - 1]);
            }
        }
        assert(a =~= b);
    }
}

/// The prefix relation carries over from link to link.
proof fn lemma_prefix_chain(a: Seq<bool>, b: Seq<bool>, c: Seq<bool>)
    requires
        a.is_prefix_of(b),
        b.is_prefix_of(c),
    ensures
        a.is_prefix_of(c),
{
    assert forall|i: int| 0 <= i < a.len() implies a[i] == c.subrange(0, a.len() as int)[i] by {
        assert(a[i] == b.subrange(0, a.len() as int)[i]);
        assert(b[i] == c.subrange(0, b.len() as int)[i]);
    }
    assert(a =~= c.subrange(0, a.len() as int));
}

/// What stands at `q` once a leaf has been hung at `path`: the leaf at the
/// path's end, internal nodes along the path, nothing below the leaf, and
/// everywhere else what stood there before.
pub proof fn lemma_with_leaf_at(node: HuffmanNode, path: Seq<bool>, symbol: u16, q: Seq<bool>)
    ensures
        node.with_leaf(path, symbol).at(q).kind() == if q == path {
            NodeKind::Leaf(symbol)
        } else if q.is_prefix_of(path) {
            NodeKind::Internal
        } else if path.is_prefix_of(q) {
            NodeKind::Empty
        } else {
            node.at(q).kind()
        },
    decreases path.len(),
{
    let grown = node.with_leaf(path, symbol);
    if path.len() == 0 {
        if q.len() > 0 {
            lemma_nothing_below(grown, q);
            assert(path.is_prefix_of(q));
        } else {
            assert(q =~= path);
        }
    } else if q.len() == 0 {
        assert(q.is_prefix_of(path));
    } else {
        lemma_prefix_step(q, path);
        lemma_prefix_step(path, q);
        if q[0] == path[0] {
            lemma_with_leaf_at(node.child(path[0]), path.drop_first(), symbol, q.drop_first());
        }
    }
}

/// A leaf can be hung at `path` when the node is internal and no leaf
/// stands on the way.
pub proof fn lemma_accepts(node: HuffmanNode, path: Seq<bool>)
    requires
        path.len() > 0 ==> node is Internal,
        forall|k: int| 0 < k < path.len() ==> !(#[trigger] node.at(path.take(k)) is Leaf),
    ensures
        node.accepts(path),
    decreases path.len(),
{
    if path.len() > 0 {
        let below = node.child(path[0]);
        let rest = path.drop_first();
        if !(below is Empty) && rest.len() > 0 {
            assert(path.take(1).drop_first() =~= Seq::<bool>::empty());
            assert(path.take(1)[0] == path[0]);
            assert(below.at(Seq::<bool>::empty()) == below);
            assert(node.at(path.take(1)) == below);
            assert forall|k: int| 0 < k < rest.len() implies !(#[trigger] below.at(
                rest.take(k),
            ) is Leaf) by {
                assert(path.take(k + 1).drop_first() =~= rest.take(k));
                assert(path.take(k + 1)[0] == path[0]);
                assert(node.at(path.take(k + 1)) == below.at(rest.take(k)));
            }
            lemma_accepts(below, rest);
        }
    }
}

/// Two tables whose coded entries are the same, index by index, ask for the
/// same node at every path.
proof fn lemma_same_codes(a: Seq<CodeEntry>, b: Seq<CodeEntry>, path: Seq<bool>)
    requires
        forall|j: int| is_coded(a, j) ==> is_coded(b, j) && a[j] == b[j],
        forall|j: int| is_coded(b, j) ==> is_coded(a, j) && a[j] == b[j],
        has_code(a, path) ==> a[code_owner(a, path)].0 == b[code_owner(b, path)].0,
    ensures
        table_kind(a, path) == table_kind(b, path),
{
    if has_code(a, path) {
        let j = code_owner(a, path);
        assert(is_coded(b, j) && entry_bits(b[j]) == path);
    }
    if has_code(b, path) {
        let j = code_owner(b, path);
        assert(is_coded(a, j) && entry_bits(a[j]) == path);
    }
    if under_code(a, path) {
        let j = choose|j: int|
            is_coded(a, j) && path.len() < a[j].2 && path.is_prefix_of(
                #[trigger] entry_bits(a[j]),
            );
        assert(is_coded(b, j) && path.is_prefix_of(entry_bits(b[j])));
    }
    if under_code(b, path) {
        let j = choose|j: int|
            is_coded(b, j) && path.len() < b[j].2 && path.is_prefix_of(
                #[trigger] entry_bits(b[j]),
            );
        assert(is_coded(a, j) && path.is_prefix_of(entry_bits(a[j])));
    }
}

/// An entry without a code changes nothing in the tree that a table asks for.
proof fn lemma_uncoded_entry(root: HuffmanNode, table: Seq<CodeEntry>, i: int)
    requires
        0 <= i < table.len(),
        table[i].2 == 0,
        prefix_free(table),
        node_represents(root, table.take(i)),
    ensures
        node_represents(root, table.take(i + 1)),
{
    let before = table.take(i);
    let after = table.take(i + 1);
    assert forall|path: Seq<bool>| #[trigger] root.at(path).kind() == table_kind(after, path) by {
        assert(root.at(path).kind() == table_kind(before, path));
        if has_code(before, path) {
            let j = code_owner(before, path);
            assert(is_coded(after, j) && entry_bits(after[j]) == path);
            let k = code_owner(after, path);
            assert(is_coded(table, j) && is_coded(table, k));
            assert(entry_bits(table[j]).is_prefix_of(entry_bits(table[k])));
        }
        lemma_same_codes(before, after, path);
    }
}

/// A tree for the codes before entry `i` has room for the code of entry `i`.
proof fn lemma_room_for_code(root: HuffmanNode, table: Seq<CodeEntry>, i: int)
    requires
        is_coded(table, i),
        prefix_free(table),
        node_represents(root, table.take(i)),
    ensures
        root.accepts(entry_bits(table[i])),
{
    let path = entry_bits(table[i]);
    let before = table.take(i);
    assert(root.at(Seq::<bool>::empty()).kind() == table_kind(before, Seq::<bool>::empty()));
    assert(!has_code(before, Seq::<bool>::empty()));
    assert forall|k: int| 0 < k < path.len() implies !(#[trigger] root.at(path.take(k)) is Leaf) by {
        let q = path.take(k);
        assert(root.at(q).kind() == table_kind(before, q));
        if has_code(before, q) {
            let j = code_owner(before, q);
            assert(before[j] == table[j]);
            assert(entry_bits(table[j]).is_prefix_of(entry_bits(table[i])));
        }
    }
    lemma_accepts(root, path);
}

/// Hanging the leaf of entry `i` into a tree for the codes before it gives
/// a tree for the codes up to and including it.
proof fn lemma_leaf_added(root: HuffmanNode, table: Seq<CodeEntry>, i: int)
    requires
        is_coded(table, i),
        prefix_free(table),
        node_represents(root, table.take(i)),
    ensures
        node_represents(
            root.with_leaf(entry_bits(table[i]), table[i].0),
            table.take(i + 1),
        ),
{
    let before = table.take(i);
    let after = table.take(i + 1);
    let path = entry_bits(table[i]);
    let grown = root.with_leaf(path, table[i].0);
    assert(is_coded(after, i) && after[i] == table[i]);
    assert forall|q: Seq<bool>| #[trigger] grown.at(q).kind() == table_kind(after, q) by {
        lemma_with_leaf_at(root, path, table[i].0, q);
        assert(root.at(q).kind() == table_kind(before, q));
        if has_code(after, q) {
            let j = code_owner(after, q);
            assert(is_coded(table, j) && after[j] == table[j]);
            if j != i {
                assert(is_coded(before, j) && entry_bits(before[j]) == q);
                let k = code_owner(before, q);
                assert(is_coded(table, k) && before[k] == table[k]);
                assert(entry_bits(table[j]).is_prefix_of(entry_bits(table[k])));
                assert(j == k);
                if q.is_prefix_of(path) {
                    assert(entry_bits(table[j]).is_prefix_of(entry_bits(table[i])));
                }
                if path.is_prefix_of(q) {
                    assert(entry_bits(table[i]).is_prefix_of(entry_bits(table[j])));
                }
            }
        }
        if has_code(before, q) {
            let k = code_owner(before, q);
            assert(is_coded(after, k) && entry_bits(after[k]) == q);
        }
        if under_code(after, q) {
            let j = choose|j: int|
                is_coded(after, j) && q.len() < after[j].2 && q.is_prefix_of(
                    #[trigger] entry_bits(after[j]),
                );
            assert(is_coded(table, j) && after[j] == table[j]);
            if j != i {
                assert(is_coded(before, j) && q.is_prefix_of(entry_bits(before[j])));
                if path.is_prefix_of(q) {
                    lemma_prefix_chain(path, q, entry_bits(table[j]));
                    assert(entry_bits(table[i]).is_prefix_of(entry_bits(table[j])));
                }
            }
        }
        if under_code(before, q) {
            let j = choose|j: int|
                is_coded(before, j) && q.len() < before[j].2 && q.is_prefix_of(
                    #[trigger] entry_bits(before[j]),
                );
            assert(is_coded(after, j) && q.is_prefix_of(entry_bits(after[j])));
        }
        if q == path {
            assert(is_coded(after, i) && entry_bits(after[i]) == q);
        } else if q.is_prefix_of(path) {
            assert(path.subrange(0, path.len() as int) =~= path);
            assert(q.len() < after[i].2 && q.is_prefix_of(entry_bits(after[i])));
        }
    }
}

/// A tree that holds the codes of a table decodes as the table says.
pub proof fn lemma_walk_by_table(
    root: HuffmanNode,
    table: Seq<CodeEntry>,
    bits: Seq<bool>,
    start: nat,
    depth: nat,
)
    requires
        node_represents(root, table),
        start + depth <= bits.len(),
    ensures
        root.at(bits.subrange(start as int, (start + depth) as int)).walk(bits, start + depth)
            == table_walk(table, bits, start, depth),
    decreases bits.len() - start - depth,
{
    let path = bits.subrange(start as int, (start + depth) as int);
    let node = root.at(path);
    assert(node.kind() == table_kind(table, path));
    if node is Internal && start + depth < bits.len() {
        let bit = bits[(start + depth) as int];
        lemma_at_push(root, path, bit);
        assert(path.push(bit) =~= bits.subrange(start as int, (start + depth + 1) as int));
        lemma_walk_by_table(root, table, bits, start, depth + 1);
    }
}

/// A walk by a table ends within the stream, at or after the bits taken
/// already.
pub proof fn lemma_table_walk_advances(
    table: Seq<CodeEntry>,
    bits: Seq<bool>,
    start: nat,
    depth: nat,
)
    requires
        start + depth <= bits.len(),
    ensures
        match table_walk(table, bits, start, depth) {
            Walk::Symbol { end, .. } => start + depth <= end <= bits.len(),
            Walk::Unassigned { end } => start + depth <= end < bits.len(),
            Walk::Exhausted => true,
        },
    decreases bits.len() - start - depth,
{
    let path = bits.subrange(start as int, (start + depth) as int);
    if table_kind(table, path) is Internal && start + depth < bits.len() {
        lemma_table_walk_advances(table, bits, start, depth + 1);
    }
}

/// **Every code has a bit.** Decoding one symbol by a table, whatever the
/// table, ends after the position it starts at: the symbol found, or the
/// bits found to begin no code, take at least one bit.
pub proof fn lemma_decode_one_advances(table: Seq<CodeEntry>, bits: Seq<bool>, pos: nat)
    requires
        pos < bits.len(),
    ensures
        match decode_one(table, bits, pos) {
            Walk::Symbol { end, .. } => pos < end <= bits.len(),
            Walk::Unassigned { end } => pos < end < bits.len(),
            Walk::Exhausted => true,
        },
{
    let nothing = bits.subrange(pos as int, pos as int);
    if has_code(table, nothing) {
        let i = code_owner(table, nothing);
        assert(entry_bits(table[i]).len() == table[i].2);
    }
    lemma_table_walk_advances(table, bits, pos, 1);
}

/// Hangs a leaf for `symbol` below `node`, at the place that the low `len`
/// bits of `code` spell from the highest bit down.
fn place_leaf(node: &mut HuffmanNode, code: u16, len: u8, symbol: u16)
    requires
        len <= 16,
        old(node).accepts(code_bits(code, len as nat)),
    ensures
        *final(node) == old(node).with_leaf(code_bits(code, len as nat), symbol),
    decreases len,
{
    if len == 0 {
        *node = HuffmanNode::Leaf(symbol);
        return ;
    }
    proof {
        lemma_code_bits_step(code, len as nat);
    }
    let shift: u16 = (len - 1) as u16;
    let bit: u16 = (code >> shift) & 1;
    let ghost path = code_bits(code, len as nat);
    let ghost rest = code_bits(code, (len - 1) as nat);
    proof {
        let top: u16 = code >> shift;
        assert(top & 1 == 0 || top & 1 == 1) by (bit_vector);
        assert(path[0] == (bit == 1));
        assert(path.drop_first() == rest);
    }
    match node {
        HuffmanNode::Internal { left, right } => {
            if bit == 0 {
                if let HuffmanNode::Empty = **left {
                    **left = HuffmanNode::new_internal();
                    proof {
                        lemma_fresh_internal(rest, symbol);
                    }
                }
                place_leaf(left, code, len - 1, symbol);
            } else {
                if let HuffmanNode::Empty = **right {
                    **right = HuffmanNode::new_internal();
                    proof {
                        lemma_fresh_internal(rest, symbol);
                    }
                }
                place_leaf(right, code, len - 1, symbol);
            }
        },
        _ => {},
    }
}

/// A prefix tree, built once from a code table and read-only afterwards.
pub struct HuffmanTree {
    root: Box<HuffmanNode>,
}

impl HuffmanTree {
    /// The root node.
    pub closed spec fn root(&self) -> HuffmanNode {
        *self.root
    }

    /// The tree holds exactly the codes of `table`.
    pub open spec fn represents(&self, table: Seq<CodeEntry>) -> bool {
        node_represents(self.root(), table)
    }

    /// Builds the tree of a code table. `codes_info` lists
    /// `(symbol, code, code_length)`; entries of length zero carry no code.
    /// The codes must not collide: none may be the beginning of another.
    pub fn new_huffman_tree(codes_info: &[CodeEntry]) -> (tree: HuffmanTree)
        requires
            lengths_fit(codes_info@),
            prefix_free(codes_info@),
        ensures
            tree.represents(codes_info@),
    {
        let mut root = HuffmanNode::new_internal();
        proof {
            assert forall|path: Seq<bool>| #[trigger]
                root.at(path).kind() == table_kind(codes_info@.take(0), path) by {
                if path.len() > 0 {
                    lemma_nothing_below(root.child(path[0]), path);
                    lemma_nothing_below(HuffmanNode::Empty, path);
                    if path.len() > 1 {
                        lemma_nothing_below(root.child(path[0]), path.drop_first());
                    }
                }
            }
        }
        let mut i: usize = 0;
        while i < codes_info.len()
            invariant
                i <= codes_info.len(),
                lengths_fit(codes_info@),
                prefix_free(codes_info@),
                node_represents(root, codes_info@.take(i as int)),
            decreases codes_info.len() - i,
        {
            let (symbol, code, code_length) = codes_info[i];
            if code_length == 0 {
                proof {
                    lemma_uncoded_entry(root, codes_info@, i as int);
                }
            } else {
                proof {
                    lemma_room_for_code(root, codes_info@, i as int);
                    lemma_leaf_added(root, codes_info@, i as int);
                }
                place_leaf(&mut root, code, code_length, symbol);
            }
            i += 1;
        }
        proof {
            assert(codes_info@.take(codes_info.len() as int) =~= codes_info@);
        }
        HuffmanTree { root: Box::new(root) }
    }

    /// **Decoding by a tree is decoding by its table.** A tree that holds
    /// the codes of `table` finds at every position what the table says.
    pub proof fn lemma_decodes_table(&self, table: Seq<CodeEntry>, bits: Seq<bool>, pos: nat)
        requires
            self.represents(table),
            pos <= bits.len(),
        ensures
            self.root().walk(bits, pos) == decode_one(table, bits, pos),
    {
        let root = self.root();
        lemma_walk_by_table(root, table, bits, pos, 0);
        assert(root.at(bits.subrange(pos as int, pos as int)) == root);
    }

    /// Decodes one symbol: walks down from the root, one bit of the stream
    /// per step. At a leaf the symbol is returned and the cursor stands after
    /// its code. When the stream runs out first, the cursor goes back to
    /// where it stood; when the walk steps onto an empty node, the cursor
    /// stays after the bit that led there.
    pub fn read_symbol(&self, bit_reader: &mut BitReader) -> (r: Result<u16, BrotliError>)
        requires
            old(bit_reader).wf(),
        ensures
            final(bit_reader).wf(),
            final(bit_reader).bytes() == old(bit_reader).bytes(),
            match self.root().walk(old(bit_reader).bits(), old(bit_reader).position()) {
                Walk::Symbol { symbol, end } => r == Ok::<u16, BrotliError>(symbol)
                    && final(bit_reader).position() == end,
                Walk::Exhausted => r == Err::<u16, BrotliError>(BrotliError::HuffmanTreeNotMatch)
                    && final(bit_reader).position() == old(bit_reader).position(),
                Walk::Unassigned { end } => r == Err::<u16, BrotliError>(
                    BrotliError::HuffmanTreeNotMatch,
                ) && final(bit_reader).position() == end,
            },
    {
        let mut cur_node: &HuffmanNode = &self.root;
        let mut bits_count: usize = 0;
        let ghost bits = bit_reader.bits();
        let ghost start = bit_reader.position();

        loop
            invariant
                bit_reader.wf(),
                bit_reader.bytes() == old(bit_reader).bytes(),
                bits == bit_reader.bits(),
                start == old(bit_reader).position(),
                bit_reader.position() == start + bits_count,
                cur_node.walk(bits, bit_reader.position()) == self.root().walk(bits, start),
            ensures
                bit_reader.wf(),
                bit_reader.bytes() == old(bit_reader).bytes(),
                bit_reader.position() == start + bits_count,
                self.root().walk(bits, start) is Exhausted,
            decreases bit_reader.total_bits() - bit_reader.position(),
        {
            if let HuffmanNode::Leaf(symbol) = cur_node {
                return Ok(*symbol);
            }
            if bit_reader.empty() {
                break ;
            }
            match cur_node {
                HuffmanNode::Internal { left, right } => {
                    proof {
                        lemma2_to64();
                        let one = bit_reader.upcoming(1);
                        assert(one.drop_last() =~= Seq::<bool>::empty());
                        assert(bits_value(one.drop_last()) == 0);
                        assert(one.last() == bits[bit_reader.position() as int]);
                    }
                    let bit = match bit_reader.read_bits(1) {
                        Ok(b) => b,
                        Err(e) => {
                            return Err(e);
                        },
                    };
                    cur_node = if bit == 0 {
                        left
                    } else {
                        right
                    };
                    bits_count += 1;
                },
                _ => {
                    return Err(BrotliError::HuffmanTreeNotMatch);
                },
            }
        }
        match bit_reader.decrease_pos(bits_count) {
            Ok(_) => {},
            Err(e) => {
                return Err(e);
            },
        }
        Err(BrotliError::HuffmanTreeNotMatch)
    }
}

} // verus!
