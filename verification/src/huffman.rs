//! Huffman codes: the tree that a table of codes spells, its compiled
//! form for reading, and the table of codes for writing.

use vstd::prelude::*;
use vstd::arithmetic::power2::{
    pow2, lemma_pow2_unfold, lemma_pow2_strictly_increases, lemma2_to64,
};
use core::marker::PhantomData;
use std::collections::BTreeMap;
use crate::bits::{
    bits_to_nat, nat_to_bits, lemma_bits_to_nat_bound, lemma_nat_to_bits_len, lemma_single_bit,
    lemma_bits_round_trip,
};
use crate::numeric::pow2_u64;
use crate::order::{Endianness, BigEndian, LittleEndian};
use crate::queue::{BitQueue, lookup_index};
use crate::codes::{valid_table, prefix_free, complete, lemma_compiles_iff};

verus! {

/// Why a table of codes is not a Huffman code.
#[derive(Debug, Clone, Copy, PartialEq, Eq, Structural)]
pub enum HuffmanTreeError {
    /// A code holds an element that is neither 0 nor 1.
    InvalidBit,
    /// Some sequence of bits is the start of no code and of no code's
    /// continuation: the tree has an empty place.
    MissingLeaf,
    /// A code is given twice, or is the start of a code given before it.
    DuplicateLeaf,
    /// A code continues past a code given before it.
    OrphanedLeaf,
}

impl HuffmanTreeError {
    /// A short description of the error.
    pub fn description(&self) -> (r: &'static str)
        ensures
            r@ == (match *self {
                HuffmanTreeError::InvalidBit => "invalid bit in specification"@,
                HuffmanTreeError::MissingLeaf => "missing leaf node in specification"@,
                HuffmanTreeError::DuplicateLeaf => "duplicate leaf node in specification"@,
                HuffmanTreeError::OrphanedLeaf => "orphaned leaf node in specification"@,
            }),
    {
        match self {
            HuffmanTreeError::InvalidBit => "invalid bit in specification",
            HuffmanTreeError::MissingLeaf => "missing leaf node in specification",
            HuffmanTreeError::DuplicateLeaf => "duplicate leaf node in specification",
            HuffmanTreeError::OrphanedLeaf => "orphaned leaf node in specification",
        }
    }
}

/// A complete Huffman tree: every node is a symbol or has two children,
/// the first for a clear bit and the second for a set bit.
pub enum ReadHuffmanTree<T> {
    Leaf(T),
    Tree(Box<ReadHuffmanTree<T>>, Box<ReadHuffmanTree<T>>),
}

/// A Huffman tree under construction, in which places may still be empty.
pub enum WipHuffmanTree<T> {
    Empty,
    Leaf(T),
    Tree(Box<WipHuffmanTree<T>>, Box<WipHuffmanTree<T>>),
}

/// Where a descent from a node along some bits ends.
pub enum Walk<T> {
    /// At a symbol, after this many bits.
    Found(T, nat),
    /// At this inner node, with all the bits used up.
    Open(ReadHuffmanTree<T>),
}

/// The bits that a code spells: a set bit for each element equal to 1.
pub open spec fn code_bits(code: Seq<u8>) -> Seq<bool> {
    Seq::new(code.len(), |i: int| code[i] == 1)
}

/// A table of codes as plain values: each symbol with its code.
pub open spec fn code_table<T>(values: Seq<(T, Vec<u8>)>) -> Seq<(T, Seq<u8>)> {
    Seq::new(values.len(), |i: int| (values[i].0, values[i].1@))
}

/// The tree under construction after the codes of `values` have been
/// inserted in turn into an empty tree, or the first error met.
pub open spec fn built<T>(values: Seq<(T, Seq<u8>)>) -> Result<WipHuffmanTree<T>, HuffmanTreeError>
    decreases values.len(),
{
    if values.len() == 0 {
        Ok(WipHuffmanTree::Empty)
    } else {
        match built(values.drop_last()) {
            Ok(tree) => tree.inserted(values.last().1, values.last().0),
            Err(e) => Err(e),
        }
    }
}

/// The complete tree that the codes of `values` spell, or why they spell
/// none.
pub open spec fn compiled<T>(values: Seq<(T, Seq<u8>)>) -> Result<
    ReadHuffmanTree<T>,
    HuffmanTreeError,
> {
    match built(values) {
        Ok(tree) => tree.finished(),
        Err(e) => Err(e),
    }
}

impl<T> WipHuffmanTree<T> {
    /// The tree with `symbol` inserted at the place that `code` leads to.
    ///
    /// The descent starts at the root and follows the elements of `code`:
    /// 0 to the first child, 1 to the second. An empty place on the way
    /// becomes an inner node, and the empty place at the end becomes the
    /// symbol. The descent fails at a symbol (`DuplicateLeaf` if the code
    /// ends there, `OrphanedLeaf` if it goes on), at an inner node where
    /// the code ends (`DuplicateLeaf`), and at an element that is neither
    /// 0 nor 1 (`InvalidBit`).
    pub open spec fn inserted(self, code: Seq<u8>, symbol: T) -> Result<
        WipHuffmanTree<T>,
        HuffmanTreeError,
    >
        decreases code.len(), (if self is Empty { 1nat } else { 0nat }),
    {
        match self {
            WipHuffmanTree::Empty => {
                if code.len() == 0 {
                    Ok(WipHuffmanTree::Leaf(symbol))
                } else {
                    WipHuffmanTree::Tree(
                        Box::new(WipHuffmanTree::Empty),
                        Box::new(WipHuffmanTree::Empty),
                    ).inserted(code, symbol)
                }
            },
            WipHuffmanTree::Leaf(_) => {
                if code.len() == 0 {
                    Err(HuffmanTreeError::DuplicateLeaf)
                } else {
                    Err(HuffmanTreeError::OrphanedLeaf)
                }
            },
            WipHuffmanTree::Tree(zero, one) => {
                if code.len() == 0 {
                    Err(HuffmanTreeError::DuplicateLeaf)
                } else if code[0] == 0 {
                    match zero.inserted(code.skip(1), symbol) {
                        Ok(child) => Ok(WipHuffmanTree::Tree(Box::new(child), one)),
                        Err(e) => Err(e),
                    }
                } else if code[0] == 1 {
                    match one.inserted(code.skip(1), symbol) {
                        Ok(child) => Ok(WipHuffmanTree::Tree(zero, Box::new(child))),
                        Err(e) => Err(e),
                    }
                } else {
                    Err(HuffmanTreeError::InvalidBit)
                }
            },
        }
    }

    /// The complete tree that this tree is, or `MissingLeaf` if a place in
    /// it is empty.
    pub open spec fn finished(self) -> Result<ReadHuffmanTree<T>, HuffmanTreeError>
        decreases self,
    {
        match self {
            WipHuffmanTree::Empty => Err(HuffmanTreeError::MissingLeaf),
            WipHuffmanTree::Leaf(symbol) => Ok(ReadHuffmanTree::Leaf(symbol)),
            WipHuffmanTree::Tree(zero, one) => match zero.finished() {
                Err(e) => Err(e),
                Ok(first) => match one.finished() {
                    Err(e) => Err(e),
                    Ok(second) => Ok(ReadHuffmanTree::Tree(Box::new(first), Box::new(second))),
                },
            },
        }
    }

    /// The symbol at the place that `path` leads to, if there is one.
    pub open spec fn leaf_at(self, path: Seq<bool>) -> Option<T>
        decreases path.len(),
    {
        match self {
            WipHuffmanTree::Empty => None,
            WipHuffmanTree::Leaf(symbol) => if path.len() == 0 {
                Some(symbol)
            } else {
                None
            },
            WipHuffmanTree::Tree(zero, one) => if path.len() == 0 {
                None
            } else if path[0] {
                one.leaf_at(path.skip(1))
            } else {
                zero.leaf_at(path.skip(1))
            },
        }
    }

    /// A tree with no place filled.
    pub fn new_empty() -> (r: WipHuffmanTree<T>)
        ensures
            r == WipHuffmanTree::<T>::Empty,
    {
        WipHuffmanTree::Empty
    }

    /// A tree that is one symbol.
    pub fn new_leaf(value: T) -> (r: WipHuffmanTree<T>)
        ensures
            r == WipHuffmanTree::Leaf(value),
    {
        WipHuffmanTree::Leaf(value)
    }

    /// An inner node with two empty places.
    pub fn new_tree() -> (r: WipHuffmanTree<T>)
        ensures
            r == WipHuffmanTree::<T>::Tree(
                Box::new(WipHuffmanTree::Empty),
                Box::new(WipHuffmanTree::Empty),
            ),
    {
        WipHuffmanTree::Tree(Box::new(Self::new_empty()), Box::new(Self::new_empty()))
    }

    /// Turns the tree into a complete tree, if no place in it is empty.
    pub fn into_read_tree(self) -> (r: Result<ReadHuffmanTree<T>, HuffmanTreeError>)
        ensures
            r == self.finished(),
        decreases self,
    {
        match self {
            WipHuffmanTree::Empty => Err(HuffmanTreeError::MissingLeaf),
            WipHuffmanTree::Leaf(v) => Ok(ReadHuffmanTree::Leaf(v)),
            WipHuffmanTree::Tree(zero, one) => {
                let zero = (*zero).into_read_tree()?;
                let one = (*one).into_read_tree()?;
                Ok(ReadHuffmanTree::Tree(Box::new(zero), Box::new(one)))
            },
        }
    }

    /// Inserts `symbol` at the place that `code` leads to.
    ///
    /// An insertion that fails adds no symbol and moves none. Where it
    /// fails with `DuplicateLeaf` or `OrphanedLeaf` the tree is left as it
    /// was; where it fails with `InvalidBit` the empty places on the way
    /// to the element at fault may have become inner nodes.
    pub fn add(&mut self, code: &[u8], symbol: T) -> (r: Result<(), HuffmanTreeError>)
        ensures
            match old(self).inserted(code@, symbol) {
                Ok(tree) => r is Ok && *final(self) == tree,
                Err(e) => r == Err::<(), HuffmanTreeError>(e),
            },
            r matches Err(e) ==> {
                &&& e != HuffmanTreeError::InvalidBit ==> *final(self) == *old(self)
                &&& forall|path: Seq<bool>|
                    (#[trigger] final(self).leaf_at(path)) == old(self).leaf_at(path)
            },
        decreases code@.len(), (if *old(self) is Empty { 1nat } else { 0nat }),
    {
        proof {
            lemma_inserted_error_kinds(*self, code@, symbol);
        }
        let r = match self {
            WipHuffmanTree::Empty => {
                if code.len() == 0 {
                    *self = WipHuffmanTree::new_leaf(symbol);
                    Ok(())
                } else {
                    *self = WipHuffmanTree::new_tree();
                    self.add(code, symbol)
                }
            },
            WipHuffmanTree::Leaf(_) => {
                Err(
                    if code.len() == 0 {
                        HuffmanTreeError::DuplicateLeaf
                    } else {
                        HuffmanTreeError::OrphanedLeaf
                    },
                )
            },
            WipHuffmanTree::Tree(zero, one) => {
                if code.len() == 0 {
                    Err(HuffmanTreeError::DuplicateLeaf)
                } else {
                    let rest = vstd::slice::slice_subrange(code, 1, code.len());
                    assert(rest@ =~= code@.skip(1));
                    match code[0] {
                        0 => zero.add(rest, symbol),
                        1 => one.add(rest, symbol),
                        _ => Err(HuffmanTreeError::InvalidBit),
                    }
                }
            },
        };
        proof {
            if r is Err {
                match *old(self) {
                    WipHuffmanTree::Empty => {
                        assert(code@.len() > 0);
                        assert forall|path: Seq<bool>|
                            (#[trigger] self.leaf_at(path)) == old(self).leaf_at(path) by {
                            if path.len() > 0 {
                                assert(WipHuffmanTree::<T>::Empty.leaf_at(path.skip(1)) is None);
                            }
                        }
                    },
                    WipHuffmanTree::Leaf(_) => {
                        assert(*self == *old(self));
                    },
                    WipHuffmanTree::Tree(zero, one) => {
                        assert(*self is Tree);
                        let after_zero = self->Tree_0;
                        let after_one = self->Tree_1;
                        assert(code@.len() > 0 ==> code@[0] != 0 ==> after_zero == zero);
                        assert(code@.len() > 0 ==> code@[0] != 1 ==> after_one == one);
                        assert(code@.len() == 0 ==> *self == *old(self));
                        assert forall|path: Seq<bool>|
                            (#[trigger] self.leaf_at(path)) == old(self).leaf_at(path) by {
                            if path.len() > 0 && code@.len() > 0 {
                                if code@[0] == 0 {
                                    assert(after_zero.leaf_at(path.skip(1)) == zero.leaf_at(
                                        path.skip(1),
                                    ));
                                } else if code@[0] == 1 {
                                    assert(after_one.leaf_at(path.skip(1)) == one.leaf_at(
                                        path.skip(1),
                                    ));
                                }
                            }
                        }
                    },
                }
            }
        }
        r
    }
}

/// An insertion of a code into an empty place, or of a code that is not
/// empty into an inner node with two empty places, fails only with
/// `InvalidBit`; no insertion fails with `MissingLeaf`.
pub proof fn lemma_inserted_error_kinds<T>(tree: WipHuffmanTree<T>, code: Seq<u8>, symbol: T)
    ensures
        tree.inserted(code, symbol) matches Err(e) ==> {
            &&& e != HuffmanTreeError::MissingLeaf
            &&& (tree is Empty || (code.len() > 0 && tree == WipHuffmanTree::<T>::Tree(
                Box::new(WipHuffmanTree::Empty),
                Box::new(WipHuffmanTree::Empty),
            ))) ==> e == HuffmanTreeError::InvalidBit
        },
    decreases code.len(), (if tree is Empty { 1nat } else { 0nat }),
{
    let fresh = WipHuffmanTree::<T>::Tree(
        Box::new(WipHuffmanTree::Empty),
        Box::new(WipHuffmanTree::Empty),
    );
    match tree {
        WipHuffmanTree::Empty => {
            if code.len() > 0 {
                lemma_inserted_error_kinds(fresh, code, symbol);
                assert(tree.inserted(code, symbol) == fresh.inserted(code, symbol));
            }
        },
        WipHuffmanTree::Leaf(_) => {},
        WipHuffmanTree::Tree(zero, one) => {
            if code.len() > 0 {
                if code[0] == 0 {
                    lemma_inserted_error_kinds(*zero, code.skip(1), symbol);
                } else if code[0] == 1 {
                    lemma_inserted_error_kinds(*one, code.skip(1), symbol);
                }
            }
        },
    }
}

impl<T: Copy> ReadHuffmanTree<T> {
    /// The number of bits of the longest code.
    pub open spec fn height(self) -> nat
        decreases self,
    {
        match self {
            ReadHuffmanTree::Leaf(_) => 0,
            ReadHuffmanTree::Tree(zero, one) => 1 + if zero.height() >= one.height() {
                zero.height()
            } else {
                one.height()
            },
        }
    }

    /// Where the descent from this node along `bits` ends: a clear bit
    /// leads to the first child, a set bit to the second.
    pub open spec fn walk(self, bits: Seq<bool>) -> Walk<T>
        decreases bits.len(),
    {
        match self {
            ReadHuffmanTree::Leaf(symbol) => Walk::Found(symbol, 0),
            ReadHuffmanTree::Tree(zero, one) => if bits.len() == 0 {
                Walk::Open(self)
            } else {
                let child = if bits[0] { *one } else { *zero };
                match child.walk(bits.skip(1)) {
                    Walk::Found(symbol, used) => Walk::Found(symbol, used + 1),
                    Walk::Open(node) => Walk::Open(node),
                }
            },
        }
    }

    /// The symbol that `bits` start with and the length of its code, or
    /// `None` if `bits` end before a symbol is complete.
    pub open spec fn decode(self, bits: Seq<bool>) -> Option<(T, nat)> {
        match self.walk(bits) {
            Walk::Found(symbol, used) => Some((symbol, used)),
            Walk::Open(_) => None,
        }
    }

    /// Compiles the table of codes `values` into a Huffman tree.
    ///
    /// Each code is a sequence of elements 0 and 1, the first bit read
    /// first. Every sequence of bits must lead to a symbol: the codes
    /// are inserted in turn, and all places of the tree must be filled at
    /// the end.
    pub fn new(values: Vec<(T, Vec<u8>)>) -> (r: Result<ReadHuffmanTree<T>, HuffmanTreeError>)
        ensures
            r == compiled(code_table(values@)),
            r is Ok <==> valid_table(code_table(values@)) && prefix_free(code_table(values@))
                && complete(code_table(values@)),
            r == Err::<ReadHuffmanTree<T>, HuffmanTreeError>(HuffmanTreeError::MissingLeaf)
                <==> valid_table(code_table(values@)) && prefix_free(code_table(values@))
                && !complete(code_table(values@)),
            r matches Ok(tree) ==> decodes_table(tree, code_table(values@)),
    {
        let mut tree: WipHuffmanTree<T> = WipHuffmanTree::new_empty();
        let ghost table = code_table(values@);
        let mut i: usize = 0;
        proof {
            assert(table.take(0) =~= Seq::<(T, Seq<u8>)>::empty());
        }
        while i < values.len()
            invariant
                i <= values.len(),
                table == code_table(values@),
                built(table.take(i as int)) == Ok::<WipHuffmanTree<T>, HuffmanTreeError>(tree),
            decreases values.len() - i,
        {
            let symbol: T = values[i].0;
            proof {
                assert(table.take(i + 1).drop_last() =~= table.take(i as int));
                lemma_built_error(table, i + 1);
            }
            match tree.add(values[i].1.as_slice(), symbol) {
                Ok(()) => {},
                Err(e) => {
                    proof {
                        lemma_compiles_iff(table);
                    }
                    return Err(e);
                },
            }
            i = i + 1;
        }
        proof {
            assert(table.take(values.len() as int) =~= table);
            lemma_compiles_iff(table);
            lemma_decodes_table(table);
        }
        tree.into_read_tree()
    }
}

/// Once a code of the table fails to go in, the whole table fails with
/// that error.
pub proof fn lemma_built_error<T>(values: Seq<(T, Seq<u8>)>, n: int)
    requires
        0 <= n <= values.len(),
    ensures
        built(values.take(n)) matches Err(e) ==> built(values) == Err::<
            WipHuffmanTree<T>,
            HuffmanTreeError,
        >(e),
    decreases values.len() - n,
{
    if n < values.len() {
        assert(values.take(n + 1).drop_last() =~= values.take(n));
        lemma_built_error(values, n + 1);
    } else {
        assert(values.take(n) =~= values);
    }
}

/// One step of the compiled form of a Huffman tree.
#[derive(Clone, Copy)]
pub enum Transition<T> {
    /// A symbol is complete. The second field counts the bits of the last
    /// byte that lie behind its code, and the third is the number they
    /// spell.
    Done(T, u32, u8),
    /// No symbol is complete yet: the next byte of the stream is looked up
    /// in the table with this index.
    Continue(usize),
    /// Not a step of any descent.
    Invalid,
}

/// A Huffman tree compiled for reading in the bit order `E`: tables that
/// tell, for a whole byte at a time, which symbol its bits lead to.
///
/// The first table is looked up with the bits that a reader holds
/// outside its buffer, by their lookup index. Every other table belongs
/// to an inner node of the tree and is looked up with the next byte of
/// the stream.
pub struct CompiledReadTree<E: Endianness, T> {
    initial: Vec<Transition<T>>,
    tables: Vec<Vec<Transition<T>>>,
    tree: Ghost<ReadHuffmanTree<T>>,
    order: PhantomData<E>,
}

/// The tables as plain values.
pub open spec fn rows<T>(tables: Seq<Vec<Transition<T>>>) -> Seq<Seq<Transition<T>>> {
    Seq::new(tables.len(), |i: int| tables[i]@)
}

/// Whether `longer` starts with the tables of `shorter`.
pub open spec fn extends<T>(shorter: Seq<Seq<Transition<T>>>, longer: Seq<Seq<Transition<T>>>) -> bool {
    &&& shorter.len() <= longer.len()
    &&& forall|i: int| 0 <= i < shorter.len() ==> longer[i] == shorter[i]
}

/// The step that stands for the end of a descent along `bits`: the symbol
/// found, with the bits behind its code.
pub open spec fn done_step<T>(msb_first: bool, symbol: T, used: nat, bits: Seq<bool>) -> Transition<
    T,
> {
    Transition::Done(
        symbol,
        (bits.len() - used) as u32,
        bits_to_nat(msb_first, bits.skip(used as int)) as u8,
    )
}

/// Whether table `t` is the table of `node`: whether each of its 256
/// entries is the step for the descent from `node` along the bits of its
/// index.
pub open spec fn table_matches<T: Copy>(
    msb_first: bool,
    tables: Seq<Seq<Transition<T>>>,
    t: int,
    node: ReadHuffmanTree<T>,
) -> bool
    decreases node.height(), 1nat,
{
    &&& 0 <= t < tables.len()
    &&& tables[t].len() == 256
    &&& forall|b: int|
        0 <= b < 256 ==> slot_matches(
            msb_first,
            tables,
            #[trigger] tables[t][b],
            node,
            nat_to_bits(msb_first, 8, b as nat),
        )
}

/// Whether `entry` is the step for the descent from `node` along `bits`,
/// which lead below `node`: the symbol found, or the table of the inner
/// node reached.
pub open spec fn slot_matches<T: Copy>(
    msb_first: bool,
    tables: Seq<Seq<Transition<T>>>,
    entry: Transition<T>,
    node: ReadHuffmanTree<T>,
    bits: Seq<bool>,
) -> bool
    decreases node.height(), 0nat,
{
    match node.walk(bits) {
        Walk::Found(symbol, used) => entry == done_step(msb_first, symbol, used, bits),
        Walk::Open(below) => match entry {
            Transition::Continue(t) => below.height() < node.height() && table_matches(
                msb_first,
                tables,
                t as int,
                below,
            ),
            _ => false,
        },
    }
}

/// Whether `entry` is the step for the descent from `node` along `bits`:
/// the symbol found, or the table of the inner node reached.
pub open spec fn entry_matches<T: Copy>(
    msb_first: bool,
    tables: Seq<Seq<Transition<T>>>,
    entry: Transition<T>,
    node: ReadHuffmanTree<T>,
    bits: Seq<bool>,
) -> bool {
    match node.walk(bits) {
        Walk::Found(symbol, used) => entry == done_step(msb_first, symbol, used, bits),
        Walk::Open(below) => match entry {
            Transition::Continue(t) => table_matches(msb_first, tables, t as int, below),
            _ => false,
        },
    }
}

/// A descent that finds a symbol uses no more bits than it was given.
pub proof fn lemma_walk_found<T: Copy>(node: ReadHuffmanTree<T>, bits: Seq<bool>)
    ensures
        node.walk(bits) matches Walk::Found(_, used) ==> used <= bits.len(),
    decreases bits.len(),
{
    match node {
        ReadHuffmanTree::Leaf(_) => {},
        ReadHuffmanTree::Tree(zero, one) => {
            if bits.len() > 0 {
                let child = if bits[0] { *one } else { *zero };
                lemma_walk_found(child, bits.skip(1));
            }
        },
    }
}

/// A descent that ends at an inner node ends as many levels below its
/// start as it was given bits.
pub proof fn lemma_walk_open<T: Copy>(node: ReadHuffmanTree<T>, bits: Seq<bool>)
    ensures
        node.walk(bits) matches Walk::Open(below) ==> below is Tree && below.height() + bits.len()
            <= node.height(),
    decreases bits.len(),
{
    match node {
        ReadHuffmanTree::Leaf(_) => {},
        ReadHuffmanTree::Tree(zero, one) => {
            if bits.len() > 0 {
                let child = if bits[0] { *one } else { *zero };
                lemma_walk_open(child, bits.skip(1));
            }
        },
    }
}

/// A descent along two runs of bits in a row is the descent along the
/// first, continued along the second from where the first ended.
pub proof fn lemma_walk_concat<T: Copy>(node: ReadHuffmanTree<T>, a: Seq<bool>, b: Seq<bool>)
    ensures
        node.walk(a + b) == (match node.walk(a) {
            Walk::Found(symbol, used) => Walk::Found(symbol, used),
            Walk::Open(below) => match below.walk(b) {
                Walk::Found(symbol, used) => Walk::Found(symbol, a.len() + used),
                Walk::Open(end) => Walk::Open(end),
            },
        }),
    decreases a.len(),
{
    match node {
        ReadHuffmanTree::Leaf(_) => {},
        ReadHuffmanTree::Tree(zero, one) => {
            if a.len() == 0 {
                assert(a + b =~= b);
            } else {
                let child = if a[0] { *one } else { *zero };
                assert((a + b).skip(1) =~= a.skip(1) + b);
                lemma_walk_concat(child, a.skip(1), b);
            }
        },
    }
}

/// A table that is the table of a node stays so when tables are added
/// behind the others.
pub proof fn lemma_table_matches_extends<T: Copy>(
    msb_first: bool,
    shorter: Seq<Seq<Transition<T>>>,
    longer: Seq<Seq<Transition<T>>>,
    t: int,
    node: ReadHuffmanTree<T>,
)
    requires
        extends(shorter, longer),
        table_matches(msb_first, shorter, t, node),
    ensures
        table_matches(msb_first, longer, t, node),
    decreases node.height(), 1nat,
{
    assert forall|b: int| 0 <= b < 256 implies slot_matches(
        msb_first,
        longer,
        #[trigger] longer[t][b],
        node,
        nat_to_bits(msb_first, 8, b as nat),
    ) by {
        let bits = nat_to_bits(msb_first, 8, b as nat);
        assert(slot_matches(msb_first, shorter, shorter[t][b], node, bits));
        lemma_slot_matches_extends(msb_first, shorter, longer, shorter[t][b], node, bits);
    }
}

/// A step that matches a descent still matches it when tables are added
/// behind the others.
pub proof fn lemma_slot_matches_extends<T: Copy>(
    msb_first: bool,
    shorter: Seq<Seq<Transition<T>>>,
    longer: Seq<Seq<Transition<T>>>,
    entry: Transition<T>,
    node: ReadHuffmanTree<T>,
    bits: Seq<bool>,
)
    requires
        extends(shorter, longer),
        slot_matches(msb_first, shorter, entry, node, bits),
    ensures
        slot_matches(msb_first, longer, entry, node, bits),
    decreases node.height(), 0nat,
{
    match node.walk(bits) {
        Walk::Found(_, _) => {},
        Walk::Open(below) => {
            match entry {
                Transition::Continue(t) => {
                    lemma_table_matches_extends(msb_first, shorter, longer, t as int, below);
                },
                _ => {},
            }
        },
    }
}

/// A step that matches a descent still matches it when tables are added
/// behind the others.
pub proof fn lemma_entry_matches_extends<T: Copy>(
    msb_first: bool,
    shorter: Seq<Seq<Transition<T>>>,
    longer: Seq<Seq<Transition<T>>>,
    entry: Transition<T>,
    node: ReadHuffmanTree<T>,
    bits: Seq<bool>,
)
    requires
        extends(shorter, longer),
        entry_matches(msb_first, shorter, entry, node, bits),
    ensures
        entry_matches(msb_first, longer, entry, node, bits),
{
    match node.walk(bits) {
        Walk::Found(_, _) => {},
        Walk::Open(below) => {
            match entry {
                Transition::Continue(t) => {
                    lemma_table_matches_extends(msb_first, shorter, longer, t as int, below);
                },
                _ => {},
            }
        },
    }
}

/// The entries of the table of a node are the steps for the descents from
/// that node along the bits of each byte.
pub proof fn lemma_table_entry<T: Copy>(
    msb_first: bool,
    tables: Seq<Seq<Transition<T>>>,
    t: int,
    node: ReadHuffmanTree<T>,
    byte: u8,
)
    requires
        table_matches(msb_first, tables, t, node),
    ensures
        0 <= t < tables.len(),
        tables[t].len() == 256,
        entry_matches(
            msb_first,
            tables,
            tables[t][byte as int],
            node,
            nat_to_bits(msb_first, 8, byte as nat),
        ),
{
    let bits = nat_to_bits(msb_first, 8, byte as nat);
    assert(slot_matches(msb_first, tables, tables[t][byte as int], node, bits));
}

/// The step for the descent from `node` along the bits of `queue`. Where
/// the descent ends at an inner node, the table of that node is added to
/// `tables`, with the tables of the nodes below it.
fn compile_queue<E: Endianness, T: Copy>(
    node: &ReadHuffmanTree<T>,
    queue: BitQueue<E>,
    tables: &mut Vec<Vec<Transition<T>>>,
) -> (entry: Transition<T>)
    requires
        queue.wf(),
        queue@.len() <= 8,
    ensures
        extends(rows(old(tables)@), rows(final(tables)@)),
        entry_matches(E::msb_first(), rows(final(tables)@), entry, *node, queue@),
    decreases node.height(), (if queue@.len() == 0 { 2nat } else { 0nat }),
{
    let ghost bits = queue@;
    let mut queue = queue;
    match node {
        ReadHuffmanTree::Leaf(symbol) => {
            proof {
                lemma2_to64();
                lemma_bits_to_nat_bound(E::msb_first(), bits);
                if bits.len() < 8 {
                    lemma_pow2_strictly_increases(bits.len(), 8);
                }
                assert(bits.skip(0) =~= bits);
            }
            Transition::Done(*symbol, queue.len(), queue.value() as u8)
        },
        ReadHuffmanTree::Tree(zero, one) => {
            if queue.is_empty() {
                Transition::Continue(compile_node::<E, T>(node, tables))
            } else {
                let bit: u64 = queue.pop(1);
                proof {
                    lemma_single_bit(E::msb_first(), bits.take(1));
                    assert(bits.take(1)[0] == bits[0]);
                }
                let entry = if bit == 0 {
                    compile_queue(zero, queue, tables)
                } else {
                    compile_queue(one, queue, tables)
                };
                proof {
                    let child = if bits[0] { **one } else { **zero };
                    let rest = bits.skip(1);
                    match child.walk(rest) {
                        Walk::Found(symbol, used) => {
                            lemma_walk_found(child, rest);
                            assert(rest.skip(used as int) =~= bits.skip((used + 1) as int));
                        },
                        Walk::Open(_) => {},
                    }
                }
                entry
            }
        },
    }
}

/// Adds to `tables` the table of the inner node `node`, with the tables
/// of the nodes below it, and returns its index.
fn compile_node<E: Endianness, T: Copy>(
    node: &ReadHuffmanTree<T>,
    tables: &mut Vec<Vec<Transition<T>>>,
) -> (index: usize)
    requires
        *node is Tree,
    ensures
        extends(rows(old(tables)@), rows(final(tables)@)),
        table_matches(E::msb_first(), rows(final(tables)@), index as int, *node),
    decreases node.height(), 1nat,
{
    let mut table: Vec<Transition<T>> = Vec::new();
    let mut byte: u64 = 0;
    while byte < 256
        invariant
            *node is Tree,
            byte <= 256,
            table@.len() == byte,
            extends(rows(old(tables)@), rows(tables@)),
            forall|b: int|
                0 <= b < byte ==> slot_matches(
                    E::msb_first(),
                    rows(tables@),
                    #[trigger] table@[b],
                    *node,
                    nat_to_bits(E::msb_first(), 8, b as nat),
                ),
        decreases 256 - byte,
    {
        let ghost before = rows(tables@);
        let ghost bits = nat_to_bits(E::msb_first(), 8, byte as nat);
        proof {
            lemma2_to64();
            lemma_nat_to_bits_len(E::msb_first(), 8, byte as nat);
        }
        let queue: BitQueue<E> = BitQueue::from_value(byte, 8, 8);
        let entry = compile_queue(node, queue, tables);
        proof {
            let after = rows(tables@);
            lemma_walk_open(*node, bits);
            assert(slot_matches(E::msb_first(), after, entry, *node, bits));
            assert forall|b: int| 0 <= b < byte implies slot_matches(
                E::msb_first(),
                after,
                #[trigger] table@[b],
                *node,
                nat_to_bits(E::msb_first(), 8, b as nat),
            ) by {
                lemma_slot_matches_extends(
                    E::msb_first(),
                    before,
                    after,
                    table@[b],
                    *node,
                    nat_to_bits(E::msb_first(), 8, b as nat),
                );
            }
        }
        table.push(entry);
        byte = byte + 1;
    }
    let index: usize = tables.len();
    let ghost before = rows(tables@);
    let ghost row = table@;
    tables.push(table);
    proof {
        let after = rows(tables@);
        assert(after =~= before.push(row));
        assert forall|b: int| 0 <= b < 256 implies slot_matches(
            E::msb_first(),
            after,
            #[trigger] after[index as int][b],
            *node,
            nat_to_bits(E::msb_first(), 8, b as nat),
        ) by {
            lemma_slot_matches_extends(
                E::msb_first(),
                before,
                after,
                row[b],
                *node,
                nat_to_bits(E::msb_first(), 8, b as nat),
            );
        }
    }
    index
}

impl<E: Endianness, T: Copy> View for CompiledReadTree<E, T> {
    type V = ReadHuffmanTree<T>;

    /// The tree that the tables were compiled from.
    closed spec fn view(&self) -> ReadHuffmanTree<T> {
        self.tree@
    }
}

impl<E: Endianness, T: Copy> CompiledReadTree<E, T> {
    /// The table that is looked up with a reader's residual bits.
    pub closed spec fn initial(&self) -> Seq<Transition<T>> {
        self.initial@
    }

    /// The tables that are looked up with a byte of the stream.
    pub closed spec fn tables(&self) -> Seq<Seq<Transition<T>>> {
        rows(self.tables@)
    }

    /// The tables' invariant: the first table holds, for every run of
    /// fewer than eight bits, the step for the descent from the root along
    /// it; every step that continues names the table of the inner node
    /// that the descent has reached.
    pub open spec fn wf(&self) -> bool {
        &&& self.initial().len() == 256
        &&& forall|k: nat, v: nat|
            k < 8 && v < pow2(k) ==> entry_matches(
                E::msb_first(),
                self.tables(),
                self.initial()[lookup_index(k, v) as int],
                self@,
                #[trigger] nat_to_bits(E::msb_first(), k, v),
            )
    }

    /// The step for a reader that holds the residual bits with the lookup
    /// index `index`.
    pub fn first(&self, index: usize) -> (r: Transition<T>)
        requires
            self.wf(),
            index < 256,
        ensures
            r == self.initial()[index as int],
    {
        self.initial[index]
    }

    /// The step for `byte` in the table `table`.
    pub fn next(&self, table: usize, byte: u8) -> (r: Transition<T>)
        requires
            table < self.tables().len(),
            self.tables()[table as int].len() == 256,
        ensures
            r == self.tables()[table as int][byte as int],
    {
        self.tables[table][byte as usize]
    }
}

impl<T: Copy> ReadHuffmanTree<T> {
    /// Compiles the tree into tables for reading in the bit order `E`.
    pub fn compile<E: Endianness>(&self) -> (r: CompiledReadTree<E, T>)
        ensures
            r.wf(),
            r@ == *self,
    {
        let mut tables: Vec<Vec<Transition<T>>> = Vec::new();
        let mut initial: Vec<Transition<T>> = Vec::new();
        initial.push(Transition::Invalid);
        let mut bits: u32 = 0;
        proof {
            lemma2_to64();
        }
        while bits < 8
            invariant
                bits <= 8,
                initial@.len() == pow2(bits as nat),
                forall|k: nat, v: nat|
                    k < bits && v < pow2(k) ==> entry_matches(
                        E::msb_first(),
                        rows(tables@),
                        initial@[lookup_index(k, v) as int],
                        *self,
                        #[trigger] nat_to_bits(E::msb_first(), k, v),
                    ),
            decreases 8 - bits,
        {
            let count: u64 = pow2_u64(bits);
            let mut value: u64 = 0;
            proof {
                lemma_pow2_unfold((bits + 1) as nat);
            }
            while value < count
                invariant
                    bits < 8,
                    count == pow2(bits as nat),
                    value <= count,
                    pow2((bits + 1) as nat) == 2 * pow2(bits as nat),
                    initial@.len() == count + value,
                    forall|k: nat, v: nat|
                        (k < bits || (k == bits && v < value)) && v < pow2(k) ==> entry_matches(
                            E::msb_first(),
                            rows(tables@),
                            initial@[lookup_index(k, v) as int],
                            *self,
                            #[trigger] nat_to_bits(E::msb_first(), k, v),
                        ),
                decreases count - value,
            {
                let ghost before = rows(tables@);
                let ghost filled = initial@;
                proof {
                    lemma_nat_to_bits_len(E::msb_first(), bits as nat, value as nat);
                }
                let queue: BitQueue<E> = BitQueue::from_value(value, bits, 8);
                let entry = compile_queue(self, queue, &mut tables);
                initial.push(entry);
                proof {
                    let after = rows(tables@);
                    assert forall|k: nat, v: nat|
                        (k < bits || (k == bits && v < value + 1)) && v < pow2(k) implies entry_matches(
                            E::msb_first(),
                            after,
                            initial@[lookup_index(k, v) as int],
                            *self,
                            #[trigger] nat_to_bits(E::msb_first(), k, v),
                        ) by {
                        if k == bits && v == value {
                        } else {
                            if k < bits {
                                lemma_pow2_unfold((k + 1) as nat);
                                if k + 1 < bits {
                                    lemma_pow2_strictly_increases((k + 1) as nat, bits as nat);
                                }
                            }
                            assert(initial@[lookup_index(k, v) as int] == filled[lookup_index(
                                k,
                                v,
                            ) as int]);
                            lemma_entry_matches_extends(
                                E::msb_first(),
                                before,
                                after,
                                filled[lookup_index(k, v) as int],
                                *self,
                                nat_to_bits(E::msb_first(), k, v),
                            );
                        }
                    }
                }
                value = value + 1;
            }
            bits = bits + 1;
        }
        proof {
            lemma2_to64();
        }
        CompiledReadTree { initial, tables, tree: Ghost(*self), order: PhantomData }
    }
}

/// Compiles the table of codes `values` into tables for reading in the
/// bit order `E`.
pub fn compile_read_tree<E: Endianness, T: Copy>(values: Vec<(T, Vec<u8>)>) -> (r: Result<
    CompiledReadTree<E, T>,
    HuffmanTreeError,
>)
    ensures
        match compiled(code_table(values@)) {
            Ok(tree) => r matches Ok(table) && table.wf() && table@ == tree,
            Err(e) => r matches Err(f) && f == e,
        },
        r is Ok <==> valid_table(code_table(values@)) && prefix_free(code_table(values@))
            && complete(code_table(values@)),
        r matches Err(HuffmanTreeError::MissingLeaf) <==> valid_table(code_table(values@))
            && prefix_free(code_table(values@)) && !complete(code_table(values@)),
        r matches Ok(table) ==> decodes_table(table@, code_table(values@)),
{
    match ReadHuffmanTree::new(values) {
        Ok(tree) => Ok(tree.compile()),
        Err(e) => Err(e),
    }
}

/// Whether the order of `T` is a total order that its comparisons follow:
/// what a table keyed by `T` relies on.
///
/// This is known of the integer types (`lemma_ordered_integers`) and of
/// tuples of them. It is not known of `char` or of a type of the
/// caller's own, whose comparisons have no stated laws: verified code
/// that has such symbols keys its table by a number that stands for the
/// symbol, a `char` by its code point.
pub open spec fn ordered<T: Ord>() -> bool {
    vstd::laws_cmp::obeys_cmp::<T>()
}

/// The integer types are ordered as a table of codes needs them to be.
pub proof fn lemma_ordered_integers()
    ensures
        ordered::<u8>(),
        ordered::<u16>(),
        ordered::<u32>(),
        ordered::<u64>(),
        ordered::<u128>(),
        ordered::<usize>(),
        ordered::<i8>(),
        ordered::<i16>(),
        ordered::<i32>(),
        ordered::<i64>(),
        ordered::<i128>(),
        ordered::<isize>(),
{
    broadcast use vstd::laws_cmp::group_laws_cmp;

}

/// Whether every element of `code` is 0 or 1.
pub open spec fn valid_code(code: Seq<u8>) -> bool {
    forall|j: int| 0 <= j < code.len() ==> code[j] == 0 || code[j] == 1
}

/// Whether entry `i` of `values` is the first one for its symbol.
pub open spec fn first_entry<T>(values: Seq<(T, Seq<u8>)>, i: int) -> bool {
    &&& 0 <= i < values.len()
    &&& forall|j: int| 0 <= j < i ==> values[j].0 != values[i].0
}

/// Whether `codes` holds, for each symbol of `values`, the bits of the
/// first code given for it, and nothing else.
pub open spec fn holds_first_codes<T>(codes: Map<T, Seq<bool>>, values: Seq<(T, Seq<u8>)>) -> bool {
    &&& forall|s: T|
        codes.contains_key(s) <==> exists|i: int| 0 <= i < values.len() && #[trigger] values[i].0 == s
    &&& forall|i: int| #[trigger]
        first_entry(values, i) ==> codes.contains_key(values[i].0) && codes[values[i].0]
            == code_bits(values[i].1)
}

/// A table of Huffman codes for writing: for each symbol, the length of
/// its code and the number that the code spells, kept for both bit
/// orders.
///
/// The table is kept in order of its symbols, so what is proved of it
/// holds for symbol types that are `ordered`: the integer types.
pub struct WriteHuffmanTree<T: Ord> {
    big_endian: BTreeMap<T, (u32, u64)>,
    little_endian: BTreeMap<T, (u32, u64)>,
}

impl<T: Ord + Copy> WriteHuffmanTree<T> {
    /// The code of each symbol, first bit first.
    pub closed spec fn codes(&self) -> Map<T, Seq<bool>> {
        Map::new(
            |s: T| self.big_endian@.contains_key(s),
            |s: T| nat_to_bits(true, self.big_endian@[s].0 as nat, self.big_endian@[s].1 as nat),
        )
    }

    /// The table's invariant: it holds the same symbols for both bit
    /// orders, and for each of them the same code, of at most 64 bits,
    /// spelled in each order.
    pub closed spec fn wf(&self) -> bool {
        &&& self.big_endian@.dom() == self.little_endian@.dom()
        &&& forall|s: T| #[trigger]
            self.big_endian@.contains_key(s) ==> {
                let (len, value) = self.big_endian@[s];
                &&& len <= 64
                &&& value < pow2(len as nat)
                &&& self.little_endian@[s].0 == len
                &&& self.little_endian@[s].1 == bits_to_nat(
                    false,
                    nat_to_bits(true, len as nat, value as nat),
                )
            }
    }

    /// No code of a well-formed table is longer than 64 bits.
    pub proof fn lemma_code_len(&self, symbol: T)
        requires
            self.wf(),
            self.codes().contains_key(symbol),
        ensures
            self.codes()[symbol].len() <= 64,
    {
        lemma_nat_to_bits_len(
            true,
            self.big_endian@[symbol].0 as nat,
            self.big_endian@[symbol].1 as nat,
        );
    }

    /// Compiles the table of codes `values` for writing.
    ///
    /// Each code is a sequence of elements 0 and 1, the first bit written
    /// first, and holds at most 64 of them. Where a symbol is given more
    /// than once, its first code counts. The codes need not be complete.
    /// Fails with `InvalidBit` if an element of a code is neither 0 nor 1.
    pub fn new(values: Vec<(T, Vec<u8>)>) -> (r: Result<WriteHuffmanTree<T>, HuffmanTreeError>)
        requires
            ordered::<T>(),
            forall|i: int| 0 <= i < values@.len() ==> (#[trigger] values@[i]).1@.len() <= 64,
        ensures
            match r {
                Ok(tree) => {
                    &&& forall|i: int|
                        0 <= i < values@.len() ==> valid_code(#[trigger] code_table(values@)[i].1)
                    &&& tree.wf()
                    &&& holds_first_codes(tree.codes(), code_table(values@))
                },
                Err(e) => {
                    &&& e == HuffmanTreeError::InvalidBit
                    &&& exists|i: int|
                        0 <= i < values@.len() && !valid_code(#[trigger] code_table(values@)[i].1)
                },
            },
    {
        broadcast use vstd::std_specs::btree::group_btree_axioms;

        let ghost table = code_table(values@);
        let mut tree = WriteHuffmanTree { big_endian: BTreeMap::new(), little_endian: BTreeMap::new() };
        let mut i: usize = 0;
        proof {
            assert(tree.big_endian@.dom() =~= tree.little_endian@.dom());
        }
        while i < values.len()
            invariant
                ordered::<T>(),
                i <= values@.len(),
                table == code_table(values@),
                forall|k: int| 0 <= k < values@.len() ==> (#[trigger] values@[k]).1@.len() <= 64,
                forall|k: int| 0 <= k < i ==> valid_code(#[trigger] table[k].1),
                tree.wf(),
                holds_first_codes(tree.codes(), table.take(i as int)),
            decreases values@.len() - i,
        {
            let symbol: T = values[i].0;
            let code: &Vec<u8> = &values[i].1;
            let ghost bits = code_bits(code@);
            let mut be_encoded: BitQueue<BigEndian> = BitQueue::new(64);
            let mut le_encoded: BitQueue<LittleEndian> = BitQueue::new(64);
            let code_len: u32 = code.len() as u32;
            let mut j: usize = 0;
            proof {
                assert(values@[i as int].1@.len() <= 64);
                assert(code_bits(code@.take(0)) =~= Seq::<bool>::empty());
            }
            while j < code.len()
                invariant
                    j <= code@.len() <= 64,
                    be_encoded.wf(),
                    le_encoded.wf(),
                    be_encoded.limit() == 64,
                    le_encoded.limit() == 64,
                    be_encoded@ == code_bits(code@.take(j as int)),
                    le_encoded@ == code_bits(code@.take(j as int)),
                    forall|k: int| 0 <= k < j ==> code@[k] == 0 || code@[k] == 1,
                    table == code_table(values@),
                    i < values@.len(),
                    code@ == table[i as int].1,
                decreases code@.len() - j,
            {
                let bit: u8 = code[j];
                if bit != 0 && bit != 1 {
                    return Err(HuffmanTreeError::InvalidBit);
                }
                proof {
                    lemma2_to64();
                    lemma_one_bit(true, bit as nat);
                    lemma_one_bit(false, bit as nat);
                    assert(code_bits(code@.take(j + 1)) =~= code_bits(code@.take(j as int)).push(
                        bit == 1,
                    ));
                }
                be_encoded.push(1, bit as u64);
                le_encoded.push(1, bit as u64);
                j = j + 1;
            }
            proof {
                assert(code@.take(code@.len() as int) =~= code@);
                lemma_bits_round_trip(true, bits);
                lemma_bits_to_nat_bound(true, bits);
                assert(table.take(i + 1).drop_last() =~= table.take(i as int));
            }
            let ghost before = tree.codes();
            let known: bool = tree.big_endian.contains_key(&symbol);
            if !known {
                let be_value: u64 = be_encoded.value();
                let le_value: u64 = le_encoded.value();
                tree.big_endian.insert(symbol, (code_len, be_value));
                tree.little_endian.insert(symbol, (code_len, le_value));
                proof {
                    assert(tree.big_endian@.dom() =~= tree.little_endian@.dom());
                    assert(tree.codes() =~= before.insert(symbol, bits));
                }
            }
            proof {
                lemma_first_codes_step(before, tree.codes(), table.take(i + 1));
            }
            i = i + 1;
        }
        proof {
            assert(table.take(values@.len() as int) =~= table);
        }
        Ok(tree)
    }

    /// Whether the table holds a code for `symbol`.
    pub fn has_symbol(&self, symbol: T) -> (r: bool)
        requires
            ordered::<T>(),
        ensures
            r == self.codes().contains_key(symbol),
    {
        broadcast use vstd::std_specs::btree::group_btree_axioms;

        self.big_endian.contains_key(&symbol)
    }

    /// The code of `symbol` for writing most significant bit first: its
    /// length, and the number that it spells in that order.
    pub fn get_be(&self, symbol: T) -> (r: (u32, u64))
        requires
            ordered::<T>(),
            self.wf(),
            self.codes().contains_key(symbol),
        ensures
            r.0 == self.codes()[symbol].len(),
            r.0 <= 64,
            r.1 == bits_to_nat(true, self.codes()[symbol]),
    {
        broadcast use vstd::std_specs::btree::group_btree_axioms;

        proof {
            let (len, value) = self.big_endian@[symbol];
            lemma_nat_to_bits_len(true, len as nat, value as nat);
            crate::bits::lemma_nat_round_trip_exact(true, len as nat, value as nat);
        }
        match self.big_endian.get(&symbol) {
            Some(pair) => *pair,
            None => vstd::pervasive::unreached(),
        }
    }

    /// The code of `symbol` for writing least significant bit first: its
    /// length, and the number that it spells in that order.
    pub fn get_le(&self, symbol: T) -> (r: (u32, u64))
        requires
            ordered::<T>(),
            self.wf(),
            self.codes().contains_key(symbol),
        ensures
            r.0 == self.codes()[symbol].len(),
            r.0 <= 64,
            r.1 == bits_to_nat(false, self.codes()[symbol]),
    {
        broadcast use vstd::std_specs::btree::group_btree_axioms;

        proof {
            let (len, value) = self.big_endian@[symbol];
            lemma_nat_to_bits_len(true, len as nat, value as nat);
            assert(self.little_endian@.dom().contains(symbol));
        }
        match self.little_endian.get(&symbol) {
            Some(pair) => *pair,
            None => vstd::pervasive::unreached(),
        }
    }
}

/// A field of one bit is that bit, in either order.
pub proof fn lemma_one_bit(msb_first: bool, v: nat)
    requires
        v <= 1,
    ensures
        nat_to_bits(msb_first, 1, v) == seq![v == 1],
{
    assert(nat_to_bits(msb_first, 0, v / 2) =~= Seq::<bool>::empty());
    assert(nat_to_bits(msb_first, 1, v) =~= seq![v == 1]);
}

/// A table that holds the first codes of all entries but the last holds
/// the first codes of all entries once the last entry's code has gone in,
/// unless its symbol was there already.
proof fn lemma_first_codes_step<T>(
    before: Map<T, Seq<bool>>,
    after: Map<T, Seq<bool>>,
    values: Seq<(T, Seq<u8>)>,
)
    requires
        values.len() > 0,
        holds_first_codes(before, values.drop_last()),
        after == (if before.contains_key(values.last().0) {
            before
        } else {
            before.insert(values.last().0, code_bits(values.last().1))
        }),
    ensures
        holds_first_codes(after, values),
{
    let shorter = values.drop_last();
    let n = shorter.len() as int;
    let last = values.last();
    assert forall|s: T| after.contains_key(s) <==> exists|i: int|
        0 <= i < values.len() && #[trigger] values[i].0 == s by {
        if after.contains_key(s) {
            if before.contains_key(s) {
                let i = choose|i: int| 0 <= i < shorter.len() && #[trigger] shorter[i].0 == s;
                assert(values[i].0 == s);
            } else {
                assert(values[n].0 == s);
            }
        }
        if exists|i: int| 0 <= i < values.len() && #[trigger] values[i].0 == s {
            let i = choose|i: int| 0 <= i < values.len() && #[trigger] values[i].0 == s;
            if i < n {
                assert(shorter[i].0 == s);
            }
        }
    }
    assert forall|i: int| #[trigger] first_entry(values, i) implies after.contains_key(values[i].0)
        && after[values[i].0] == code_bits(values[i].1) by {
        if i < n {
            assert forall|j: int| 0 <= j < i implies shorter[j].0 != shorter[i].0 by {
                assert(values[j].0 != values[i].0);
            }
            assert(first_entry(shorter, i));
            assert(shorter[i] == values[i]);
        } else {
            if before.contains_key(last.0) {
                let j = choose|j: int| 0 <= j < shorter.len() && #[trigger] shorter[j].0 == last.0;
                assert(values[j].0 == values[i].0);
            }
        }
    }
}

/// An insertion that succeeds was given a code of elements 0 and 1, puts
/// the symbol at the place that the code's bits lead to, and leaves every
/// symbol that was in the tree where it was.
pub proof fn lemma_inserted_leaf<T>(tree: WipHuffmanTree<T>, code: Seq<u8>, symbol: T)
    requires
        tree.inserted(code, symbol) is Ok,
    ensures
        valid_code(code),
        tree.inserted(code, symbol)->Ok_0.leaf_at(code_bits(code)) == Some(symbol),
        forall|path: Seq<bool>| #[trigger]
            tree.leaf_at(path) is Some ==> tree.inserted(code, symbol)->Ok_0.leaf_at(path)
                == tree.leaf_at(path),
    decreases code.len(), (if tree is Empty { 1nat } else { 0nat }),
{
    let after = tree.inserted(code, symbol)->Ok_0;
    let bits = code_bits(code);
    match tree {
        WipHuffmanTree::Empty => {
            if code.len() > 0 {
                let fresh = WipHuffmanTree::<T>::Tree(
                    Box::new(WipHuffmanTree::Empty),
                    Box::new(WipHuffmanTree::Empty),
                );
                lemma_inserted_leaf(fresh, code, symbol);
            }
        },
        WipHuffmanTree::Leaf(_) => {},
        WipHuffmanTree::Tree(zero, one) => {
            let rest = code.skip(1);
            assert(bits.skip(1) =~= code_bits(rest));
            if code[0] == 0 {
                lemma_inserted_leaf(*zero, rest, symbol);
                let child = zero.inserted(rest, symbol)->Ok_0;
                assert(after == WipHuffmanTree::Tree(Box::new(child), one));
                assert forall|path: Seq<bool>| #[trigger] tree.leaf_at(path) is Some implies after.leaf_at(
                    path,
                ) == tree.leaf_at(path) by {
                    if path.len() > 0 && !path[0] {
                        assert(zero.leaf_at(path.skip(1)) is Some);
                    }
                }
            } else {
                lemma_inserted_leaf(*one, rest, symbol);
                let child = one.inserted(rest, symbol)->Ok_0;
                assert(after == WipHuffmanTree::Tree(zero, Box::new(child)));
                assert forall|path: Seq<bool>| #[trigger] tree.leaf_at(path) is Some implies after.leaf_at(
                    path,
                ) == tree.leaf_at(path) by {
                    if path.len() > 0 && path[0] {
                        assert(one.leaf_at(path.skip(1)) is Some);
                    }
                }
            }
            assert forall|j: int| 0 <= j < code.len() implies code[j] == 0 || code[j] == 1 by {
                if j > 0 {
                    assert(rest[j - 1] == code[j]);
                }
            }
        },
    }
}

/// In the complete tree that a tree under construction becomes, the
/// descent along the path to a symbol finds that symbol at the end of the
/// path, whatever bits follow it.
pub proof fn lemma_finished_walk<T: Copy>(
    wip: WipHuffmanTree<T>,
    path: Seq<bool>,
    symbol: T,
    rest: Seq<bool>,
)
    requires
        wip.finished() is Ok,
        wip.leaf_at(path) == Some(symbol),
    ensures
        wip.finished()->Ok_0.walk(path + rest) == Walk::Found(symbol, path.len()),
    decreases path.len(),
{
    match wip {
        WipHuffmanTree::Empty => {},
        WipHuffmanTree::Leaf(_) => {},
        WipHuffmanTree::Tree(zero, one) => {
            assert((path + rest).skip(1) =~= path.skip(1) + rest);
            if path[0] {
                lemma_finished_walk(*one, path.skip(1), symbol, rest);
            } else {
                lemma_finished_walk(*zero, path.skip(1), symbol, rest);
            }
        },
    }
}

/// The tree built from a table of codes holds each symbol of the table
/// at the place that its code leads to, and every code of the table is
/// made of elements 0 and 1.
pub proof fn lemma_built_leaf<T>(values: Seq<(T, Seq<u8>)>, i: int)
    requires
        built(values) is Ok,
        0 <= i < values.len(),
    ensures
        valid_code(values[i].1),
        built(values)->Ok_0.leaf_at(code_bits(values[i].1)) == Some(values[i].0),
    decreases values.len(),
{
    let shorter = values.drop_last();
    let last = values.last();
    let before = built(shorter)->Ok_0;
    lemma_inserted_leaf(before, last.1, last.0);
    if i < values.len() - 1 {
        lemma_built_leaf(shorter, i);
        assert(shorter[i] == values[i]);
        assert(before.leaf_at(code_bits(values[i].1)) is Some);
    }
}

/// Every code of a table decodes to its symbol: in the tree compiled from
/// the table, bits that start with a code of the table decode to that
/// code's symbol and use up the code.
pub proof fn lemma_code_decodes<T: Copy>(values: Seq<(T, Seq<u8>)>, i: int, rest: Seq<bool>)
    requires
        compiled(values) is Ok,
        0 <= i < values.len(),
    ensures
        valid_code(values[i].1),
        compiled(values)->Ok_0.decode(code_bits(values[i].1) + rest) == Some(
            (values[i].0, values[i].1.len()),
        ),
{
    lemma_built_leaf(values, i);
    lemma_finished_walk(built(values)->Ok_0, code_bits(values[i].1), values[i].0, rest);
}

/// Whether `tree` decodes the codes of `values`: whether bits that start
/// with a code of the table decode to that code's symbol and use up the
/// code.
pub open spec fn decodes_table<T: Copy>(tree: ReadHuffmanTree<T>, values: Seq<(T, Seq<u8>)>) -> bool {
    forall|i: int, rest: Seq<bool>|
        0 <= i < values.len() ==> #[trigger] tree.decode(code_bits(values[i].1) + rest) == Some(
            (values[i].0, values[i].1.len()),
        )
}

/// The tree compiled from a table decodes the codes of the table.
pub proof fn lemma_decodes_table<T: Copy>(values: Seq<(T, Seq<u8>)>)
    ensures
        compiled(values) matches Ok(tree) ==> decodes_table(tree, values),
{
    if compiled(values) is Ok {
        let tree = compiled(values)->Ok_0;
        assert forall|i: int, rest: Seq<bool>| 0 <= i < values.len() implies #[trigger] tree.decode(
            code_bits(values[i].1) + rest,
        ) == Some((values[i].0, values[i].1.len())) by {
            lemma_code_decodes(values, i, rest);
        }
    }
}

/// The first entry of a table for a symbol that the table holds.
proof fn lemma_first_entry_exists<T>(values: Seq<(T, Seq<u8>)>, symbol: T, n: int) -> (i: int)
    requires
        0 <= n < values.len(),
        values[n].0 == symbol,
    ensures
        first_entry(values, i),
        values[i].0 == symbol,
    decreases n,
{
    if exists|j: int| 0 <= j < n && values[j].0 == symbol {
        let j = choose|j: int| 0 <= j < n && values[j].0 == symbol;
        lemma_first_entry_exists(values, symbol, j)
    } else {
        n
    }
}

/// What is written with the table of codes for writing is read back with
/// the tree for reading: where both were compiled from one table, bits
/// that start with the code written for a symbol decode to that symbol
/// and use up the code.
pub proof fn lemma_written_code_decodes<T: Copy>(
    values: Seq<(T, Seq<u8>)>,
    codes: Map<T, Seq<bool>>,
    symbol: T,
    rest: Seq<bool>,
)
    requires
        compiled(values) is Ok,
        holds_first_codes(codes, values),
        codes.contains_key(symbol),
    ensures
        compiled(values)->Ok_0.decode(codes[symbol] + rest) == Some((symbol, codes[symbol].len())),
{
    let n = choose|n: int| 0 <= n < values.len() && #[trigger] values[n].0 == symbol;
    let i = lemma_first_entry_exists(values, symbol, n);
    lemma_code_decodes(values, i, rest);
}

/// A complete tree decodes every run of bits that is long enough: bits at
/// least as many as the longest code has always start with a code.
pub proof fn lemma_decode_complete<T: Copy>(tree: ReadHuffmanTree<T>, bits: Seq<bool>)
    requires
        bits.len() >= tree.height(),
    ensures
        tree.decode(bits) is Some,
{
    lemma_walk_open(tree, bits);
}

} // verus!
