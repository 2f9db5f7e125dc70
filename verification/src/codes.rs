//! When a table of codes is a Huffman code: the table compiles exactly
//! when its codes are made of bits, none of them starts with another, and
//! every run of bits starts with one of them or is the start of one.

use vstd::prelude::*;
use crate::huffman::{
    HuffmanTreeError, WipHuffmanTree, built, code_bits, compiled, valid_code, lemma_built_error,
    lemma_built_leaf, lemma_inserted_error_kinds, lemma_inserted_leaf,
};

verus! {

/// Whether `a` is the start of `b`.
pub open spec fn is_prefix(a: Seq<bool>, b: Seq<bool>) -> bool {
    a.len() <= b.len() && b.take(a.len() as int) == a
}

/// Whether one of `a` and `b` is the start of the other.
pub open spec fn comparable(a: Seq<bool>, b: Seq<bool>) -> bool {
    is_prefix(a, b) || is_prefix(b, a)
}

/// Whether every code of the table is made of elements 0 and 1.
pub open spec fn valid_table<T>(values: Seq<(T, Seq<u8>)>) -> bool {
    forall|i: int| 0 <= i < values.len() ==> valid_code(#[trigger] values[i].1)
}

/// Whether no code of the table is the start of another entry's code. A
/// code that is given twice is the start of itself.
pub open spec fn prefix_free<T>(values: Seq<(T, Seq<u8>)>) -> bool {
    forall|i: int, j: int|
        0 <= i < values.len() && 0 <= j < values.len() && i != j ==> !is_prefix(
            code_bits(#[trigger] values[i].1),
            code_bits(#[trigger] values[j].1),
        )
}

/// Whether the table has a code for every run of bits: whether each run
/// of bits starts with a code of the table or is the start of one.
pub open spec fn complete<T>(values: Seq<(T, Seq<u8>)>) -> bool {
    forall|bits: Seq<bool>| #[trigger] covered(values, bits)
}

/// Whether `bits` start with a code of the table or are the start of one.
pub open spec fn covered<T>(values: Seq<(T, Seq<u8>)>, bits: Seq<bool>) -> bool {
    exists|i: int| 0 <= i < values.len() && comparable(code_bits(#[trigger] values[i].1), bits)
}

/// Two runs of bits that are not empty are comparable exactly when they
/// start with the same bit and are comparable behind it.
pub proof fn lemma_comparable_step(a: Seq<bool>, b: Seq<bool>)
    requires
        a.len() > 0,
        b.len() > 0,
    ensures
        is_prefix(a, b) <==> a[0] == b[0] && is_prefix(a.skip(1), b.skip(1)),
        comparable(a, b) <==> a[0] == b[0] && comparable(a.skip(1), b.skip(1)),
{
    lemma_prefix_step(a, b);
    lemma_prefix_step(b, a);
}

/// A run of bits that is not empty is the start of another exactly when
/// the two start with the same bit and the rest of the first is the start
/// of the rest of the second.
proof fn lemma_prefix_step(a: Seq<bool>, b: Seq<bool>)
    requires
        a.len() > 0,
        b.len() > 0,
    ensures
        is_prefix(a, b) <==> a[0] == b[0] && is_prefix(a.skip(1), b.skip(1)),
{
    let n = a.len() as int;
    if is_prefix(a, b) {
        assert(b.take(n)[0] == b[0]);
        assert(b.skip(1).take(n - 1) =~= b.take(n).skip(1));
    }
    if a[0] == b[0] && is_prefix(a.skip(1), b.skip(1)) {
        assert forall|k: int| 0 <= k < n implies b.take(n)[k] == a[k] by {
            if k > 0 {
                assert(b.skip(1).take(n - 1)[k - 1] == a.skip(1)[k - 1]);
            }
        }
        assert(b.take(n) =~= a);
    }
}

impl<T> WipHuffmanTree<T> {
    /// Whether `path` leads to an empty place of the tree.
    pub open spec fn empty_at(self, path: Seq<bool>) -> bool
        decreases path.len(),
    {
        match self {
            WipHuffmanTree::Empty => path.len() == 0,
            WipHuffmanTree::Leaf(_) => false,
            WipHuffmanTree::Tree(zero, one) => if path.len() == 0 {
                false
            } else if path[0] {
                one.empty_at(path.skip(1))
            } else {
                zero.empty_at(path.skip(1))
            },
        }
    }

    /// Whether the tree holds a symbol.
    pub open spec fn has_leaf(self) -> bool {
        exists|path: Seq<bool>| #[trigger] self.leaf_at(path) is Some
    }

    /// Whether no place of the tree is empty.
    pub open spec fn no_empty(self) -> bool {
        forall|path: Seq<bool>| !#[trigger] self.empty_at(path)
    }

    /// Whether no symbol of the tree stands at a place whose path is
    /// comparable with `bits`.
    pub open spec fn apart(self, bits: Seq<bool>) -> bool {
        forall|path: Seq<bool>| #[trigger] self.leaf_at(path) is Some ==> !comparable(path, bits)
    }

    /// Whether every symbol of the tree stands at the place that `bits`
    /// lead to.
    pub open spec fn only_leaf(self, bits: Seq<bool>) -> bool {
        forall|path: Seq<bool>| #[trigger] self.leaf_at(path) is Some ==> path == bits
    }

    /// Whether every inner node of the tree has a symbol below it.
    pub open spec fn populated(self) -> bool
        decreases self,
    {
        match self {
            WipHuffmanTree::Tree(zero, one) => {
                &&& self.has_leaf()
                &&& zero.populated()
                &&& one.populated()
            },
            _ => true,
        }
    }
}

/// The path to a place below an inner node: the bit that chooses the
/// child, then the path from the child.
pub open spec fn below(bit: bool, path: Seq<bool>) -> Seq<bool> {
    seq![bit] + path
}

/// What a path below an inner node leads to is what its rest leads to
/// from the child that its first bit chooses.
proof fn lemma_below<T>(zero: WipHuffmanTree<T>, one: WipHuffmanTree<T>, bit: bool, path: Seq<bool>)
    ensures
        below(bit, path).len() == path.len() + 1,
        below(bit, path)[0] == bit,
        below(bit, path).skip(1) == path,
        WipHuffmanTree::Tree(Box::new(zero), Box::new(one)).leaf_at(below(bit, path)) == (if bit {
            one
        } else {
            zero
        }).leaf_at(path),
        WipHuffmanTree::Tree(Box::new(zero), Box::new(one)).empty_at(below(bit, path)) == (if bit {
            one
        } else {
            zero
        }).empty_at(path),
{
    assert(below(bit, path).skip(1) =~= path);
}

/// A path that is not empty is its first bit followed by its rest.
proof fn lemma_below_self(path: Seq<bool>)
    requires
        path.len() > 0,
    ensures
        below(path[0], path.skip(1)) == path,
{
    assert(below(path[0], path.skip(1)) =~= path);
}

/// The bits of a code that is not empty: the bit of its first element,
/// then the bits of the others.
proof fn lemma_code_bits_step(code: Seq<u8>)
    requires
        code.len() > 0,
    ensures
        code_bits(code).len() == code.len(),
        code_bits(code)[0] == (code[0] == 1),
        code_bits(code).skip(1) == code_bits(code.skip(1)),
        valid_code(code) ==> valid_code(code.skip(1)) && (code[0] == 0 || code[0] == 1),
{
    assert(code_bits(code).skip(1) =~= code_bits(code.skip(1)));
    if valid_code(code) {
        assert forall|j: int| 0 <= j < code.skip(1).len() implies code.skip(1)[j] == 0 || code.skip(
            1,
        )[j] == 1 by {
            assert(code.skip(1)[j] == code[j + 1]);
        }
    }
}

/// Inserting a code of bits into an empty place succeeds and gives a tree
/// in which every inner node has a symbol below it, and whose one symbol
/// stands where the code leads.
proof fn lemma_inserted_fresh<T>(code: Seq<u8>, symbol: T)
    requires
        valid_code(code),
    ensures
        WipHuffmanTree::<T>::Empty.inserted(code, symbol) is Ok,
        WipHuffmanTree::<T>::Empty.inserted(code, symbol)->Ok_0.populated(),
        WipHuffmanTree::<T>::Empty.inserted(code, symbol)->Ok_0.only_leaf(code_bits(code)),
        WipHuffmanTree::<T>::Empty.inserted(code, symbol)->Ok_0.leaf_at(code_bits(code)) is Some,
    decreases code.len(),
{
    let empty = WipHuffmanTree::<T>::Empty;
    let bits = code_bits(code);
    if code.len() == 0 {
        let after = empty.inserted(code, symbol)->Ok_0;
        assert(bits =~= Seq::<bool>::empty());
        assert(after.only_leaf(bits)) by {
            assert forall|path: Seq<bool>| #[trigger] after.leaf_at(path) is Some implies path
                == bits by {
                assert(path =~= bits);
            }
        }
    } else {
        let fresh = WipHuffmanTree::<T>::Tree(Box::new(empty), Box::new(empty));
        let rest = code.skip(1);
        lemma_code_bits_step(code);
        lemma_inserted_fresh(rest, symbol);
        let child = empty.inserted(rest, symbol)->Ok_0;
        assert(empty.inserted(code, symbol) == fresh.inserted(code, symbol));
        let after = fresh.inserted(code, symbol)->Ok_0;
        let zero = if code[0] == 0 { child } else { empty };
        let one = if code[0] == 0 { empty } else { child };
        assert(after == WipHuffmanTree::Tree(Box::new(zero), Box::new(one)));
        lemma_below_self(bits);
        lemma_below(zero, one, bits[0], bits.skip(1));
        assert(after.leaf_at(bits) is Some);
        assert(after.has_leaf());
        assert(zero.populated() && one.populated());
        assert(after.only_leaf(bits)) by {
            assert forall|path: Seq<bool>| #[trigger] after.leaf_at(path) is Some implies path
                == bits by {
                if path.len() > 0 {
                    lemma_below_self(path);
                    if path[0] == bits[0] {
                        assert(child.leaf_at(path.skip(1)) is Some);
                    } else {
                        assert(empty.leaf_at(path.skip(1)) is None);
                    }
                }
            }
        }
    }
}

/// An insertion that succeeds keeps a symbol below every inner node, and
/// adds no symbol but the one at the place that the code leads to.
pub proof fn lemma_inserted_shape<T>(tree: WipHuffmanTree<T>, code: Seq<u8>, symbol: T)
    requires
        tree.inserted(code, symbol) is Ok,
        tree.populated(),
    ensures
        tree.inserted(code, symbol)->Ok_0.populated(),
        forall|path: Seq<bool>| #[trigger]
            tree.inserted(code, symbol)->Ok_0.leaf_at(path) is Some ==> path == code_bits(code)
                || tree.leaf_at(path) is Some,
    decreases code.len(),
{
    let after = tree.inserted(code, symbol)->Ok_0;
    let bits = code_bits(code);
    lemma_inserted_leaf(tree, code, symbol);
    match tree {
        WipHuffmanTree::Empty => {
            lemma_inserted_fresh(code, symbol);
            assert(after.only_leaf(bits));
        },
        WipHuffmanTree::Leaf(_) => {},
        WipHuffmanTree::Tree(zero, one) => {
            let rest = code.skip(1);
            lemma_code_bits_step(code);
            let old_child = if code[0] == 0 { *zero } else { *one };
            lemma_inserted_shape(old_child, rest, symbol);
            let child = old_child.inserted(rest, symbol)->Ok_0;
            let new_zero = if code[0] == 0 { child } else { *zero };
            let new_one = if code[0] == 0 { *one } else { child };
            assert(after == WipHuffmanTree::Tree(Box::new(new_zero), Box::new(new_one)));
            assert(after.leaf_at(bits) is Some);
            assert forall|path: Seq<bool>| #[trigger] after.leaf_at(path) is Some implies path
                == bits || tree.leaf_at(path) is Some by {
                if path.len() > 0 && path[0] == bits[0] {
                    assert(child.leaf_at(path.skip(1)) is Some);
                    if path.skip(1) == bits.skip(1) {
                        lemma_below_self(path);
                        lemma_below_self(bits);
                    }
                }
            }
        },
    }
}

/// An insertion fails where a symbol of the tree stands at a place whose
/// path is comparable with the code's bits.
pub proof fn lemma_insert_fails<T>(
    tree: WipHuffmanTree<T>,
    code: Seq<u8>,
    symbol: T,
    path: Seq<bool>,
)
    requires
        tree.leaf_at(path) is Some,
        comparable(path, code_bits(code)),
    ensures
        tree.inserted(code, symbol) is Err,
    decreases code.len(),
{
    match tree {
        WipHuffmanTree::Empty => {},
        WipHuffmanTree::Leaf(_) => {},
        WipHuffmanTree::Tree(zero, one) => {
            if code.len() > 0 {
                lemma_code_bits_step(code);
                lemma_comparable_step(path, code_bits(code));
                if code[0] == 0 {
                    lemma_insert_fails(*zero, code.skip(1), symbol, path.skip(1));
                } else if code[0] == 1 {
                    lemma_insert_fails(*one, code.skip(1), symbol, path.skip(1));
                }
            }
        },
    }
}

/// An insertion of a code of bits succeeds where every inner node of the
/// tree has a symbol below it and no symbol stands at a place whose path
/// is comparable with the code's bits.
pub proof fn lemma_insert_succeeds<T>(tree: WipHuffmanTree<T>, code: Seq<u8>, symbol: T)
    requires
        valid_code(code),
        tree.populated(),
        tree.apart(code_bits(code)),
    ensures
        tree.inserted(code, symbol) is Ok,
    decreases code.len(),
{
    let bits = code_bits(code);
    match tree {
        WipHuffmanTree::Empty => {
            lemma_inserted_fresh(code, symbol);
        },
        WipHuffmanTree::Leaf(_) => {
            let none = Seq::<bool>::empty();
            assert(tree.leaf_at(none) is Some);
            assert(bits.take(0) =~= none);
            assert(comparable(none, bits));
        },
        WipHuffmanTree::Tree(zero, one) => {
            if code.len() == 0 {
                let path = choose|path: Seq<bool>| #[trigger] tree.leaf_at(path) is Some;
                assert(path.take(0) =~= bits);
                assert(comparable(path, bits));
            } else {
                lemma_code_bits_step(code);
                let child = if code[0] == 0 { *zero } else { *one };
                assert(child.apart(bits.skip(1))) by {
                    assert forall|path: Seq<bool>| #[trigger] child.leaf_at(path) is Some implies !comparable(
                        path,
                        bits.skip(1),
                    ) by {
                        let full = below(bits[0], path);
                        lemma_below(*zero, *one, bits[0], path);
                        assert(tree.leaf_at(full) is Some);
                        lemma_comparable_step(full, bits);
                    }
                }
                lemma_insert_succeeds(child, code.skip(1), symbol);
            }
        },
    }
}

/// Whether `bits` are the bits of a code of the table.
pub open spec fn listed<T>(values: Seq<(T, Seq<u8>)>, bits: Seq<bool>) -> bool {
    exists|i: int| 0 <= i < values.len() && code_bits(#[trigger] values[i].1) == bits
}

/// Building a table never fails with `MissingLeaf`.
pub proof fn lemma_built_error_kind<T>(values: Seq<(T, Seq<u8>)>)
    ensures
        built(values) != Err::<WipHuffmanTree<T>, HuffmanTreeError>(HuffmanTreeError::MissingLeaf),
    decreases values.len(),
{
    if values.len() > 0 {
        lemma_built_error_kind(values.drop_last());
        if built(values.drop_last()) is Ok {
            lemma_inserted_error_kinds(
                built(values.drop_last())->Ok_0,
                values.last().1,
                values.last().0,
            );
        }
    }
}

/// In the tree built from a table, every inner node has a symbol below
/// it, and every symbol stands where a code of the table leads.
pub proof fn lemma_built_shape<T>(values: Seq<(T, Seq<u8>)>)
    requires
        built(values) is Ok,
    ensures
        built(values)->Ok_0.populated(),
        forall|path: Seq<bool>| #[trigger]
            built(values)->Ok_0.leaf_at(path) is Some ==> listed(values, path),
    decreases values.len(),
{
    let tree = built(values)->Ok_0;
    if values.len() > 0 {
        let shorter = values.drop_last();
        let last = values.last();
        let before = built(shorter)->Ok_0;
        lemma_built_shape(shorter);
        lemma_inserted_shape(before, last.1, last.0);
        assert forall|path: Seq<bool>| #[trigger] tree.leaf_at(path) is Some implies listed(
            values,
            path,
        ) by {
            if path == code_bits(last.1) {
                assert(code_bits(values[values.len() - 1].1) == path);
            } else {
                assert(before.leaf_at(path) is Some);
                assert(listed(shorter, path));
                let i = choose|i: int| 0 <= i < shorter.len() && code_bits(#[trigger] shorter[i].1)
                    == path;
                assert(code_bits(values[i].1) == path);
            }
        }
    }
}

/// A table that is built has codes made of bits, none of which is the
/// start of another entry's code.
pub proof fn lemma_built_prefix_free<T>(values: Seq<(T, Seq<u8>)>)
    requires
        built(values) is Ok,
    ensures
        valid_table(values),
        prefix_free(values),
{
    assert forall|i: int| 0 <= i < values.len() implies valid_code(#[trigger] values[i].1) by {
        lemma_built_leaf(values, i);
    }
    assert forall|i: int, j: int|
        0 <= i < values.len() && 0 <= j < values.len() && i != j implies !is_prefix(
        code_bits(#[trigger] values[i].1),
        code_bits(#[trigger] values[j].1),
    ) by {
        if is_prefix(code_bits(values[i].1), code_bits(values[j].1)) {
            let late = if i < j { j } else { i };
            let early = if i < j { i } else { j };
            let prior = values.take(late);
            lemma_built_error(values, late);
            lemma_built_error(values, late + 1);
            lemma_built_leaf(prior, early);
            assert(prior[early] == values[early]);
            assert(values.take(late + 1).drop_last() =~= prior);
            assert(values.take(late + 1).last() == values[late]);
            lemma_insert_fails(
                built(prior)->Ok_0,
                values[late].1,
                values[late].0,
                code_bits(values[early].1),
            );
        }
    }
}

/// A table builds if its codes are made of bits and none of them is the
/// start of another entry's code.
pub proof fn lemma_built_succeeds<T>(values: Seq<(T, Seq<u8>)>)
    requires
        valid_table(values),
        prefix_free(values),
    ensures
        built(values) is Ok,
    decreases values.len(),
{
    if values.len() > 0 {
        let n = values.len() - 1;
        let shorter = values.drop_last();
        let last = values.last();
        assert(valid_table(shorter)) by {
            assert forall|i: int| 0 <= i < shorter.len() implies valid_code(
                #[trigger] shorter[i].1,
            ) by {
                assert(shorter[i] == values[i]);
            }
        }
        assert(prefix_free(shorter)) by {
            assert forall|i: int, j: int|
                0 <= i < shorter.len() && 0 <= j < shorter.len() && i != j implies !is_prefix(
                code_bits(#[trigger] shorter[i].1),
                code_bits(#[trigger] shorter[j].1),
            ) by {
                assert(shorter[i] == values[i] && shorter[j] == values[j]);
            }
        }
        lemma_built_succeeds(shorter);
        lemma_built_shape(shorter);
        let before = built(shorter)->Ok_0;
        assert(before.apart(code_bits(last.1))) by {
            assert forall|path: Seq<bool>| #[trigger] before.leaf_at(path) is Some implies !comparable(
                path,
                code_bits(last.1),
            ) by {
                assert(listed(shorter, path));
                let i = choose|i: int| 0 <= i < shorter.len() && code_bits(#[trigger] shorter[i].1)
                    == path;
                assert(shorter[i] == values[i]);
                assert(!is_prefix(code_bits(values[i].1), code_bits(values[n].1)));
                assert(!is_prefix(code_bits(values[n].1), code_bits(values[i].1)));
            }
        }
        assert(valid_code(values[n].1));
        lemma_insert_succeeds(before, last.1, last.0);
    }
}

/// A tree under construction becomes a complete tree exactly when no
/// place in it is empty, and fails with `MissingLeaf` otherwise.
pub proof fn lemma_finished<T>(tree: WipHuffmanTree<T>)
    ensures
        tree.finished() is Ok <==> tree.no_empty(),
        tree.finished() is Err ==> tree.finished() == Err::<
            crate::huffman::ReadHuffmanTree<T>,
            HuffmanTreeError,
        >(HuffmanTreeError::MissingLeaf),
    decreases tree,
{
    let none = Seq::<bool>::empty();
    match tree {
        WipHuffmanTree::Empty => {
            assert(tree.empty_at(none));
        },
        WipHuffmanTree::Leaf(_) => {},
        WipHuffmanTree::Tree(zero, one) => {
            lemma_finished(*zero);
            lemma_finished(*one);
            if tree.no_empty() {
                assert forall|path: Seq<bool>| !#[trigger] zero.empty_at(path) by {
                    lemma_below(*zero, *one, false, path);
                    assert(!tree.empty_at(below(false, path)));
                }
                assert forall|path: Seq<bool>| !#[trigger] one.empty_at(path) by {
                    lemma_below(*zero, *one, true, path);
                    assert(!tree.empty_at(below(true, path)));
                }
            }
            if zero.no_empty() && one.no_empty() {
                assert forall|path: Seq<bool>| !#[trigger] tree.empty_at(path) by {
                    if path.len() > 0 {
                        assert(!zero.empty_at(path.skip(1)));
                        assert(!one.empty_at(path.skip(1)));
                    }
                }
            }
        },
    }
}

/// The path to an empty place is comparable with the path to no symbol.
pub proof fn lemma_empty_leaf_apart<T>(tree: WipHuffmanTree<T>, hole: Seq<bool>, path: Seq<bool>)
    requires
        tree.empty_at(hole),
        tree.leaf_at(path) is Some,
    ensures
        !comparable(path, hole),
    decreases hole.len(),
{
    match tree {
        WipHuffmanTree::Empty => {},
        WipHuffmanTree::Leaf(_) => {},
        WipHuffmanTree::Tree(zero, one) => {
            lemma_comparable_step(path, hole);
            if path[0] == hole[0] {
                let child = if hole[0] { *one } else { *zero };
                lemma_empty_leaf_apart(child, hole.skip(1), path.skip(1));
            }
        },
    }
}

/// In a tree with no empty place and a symbol below every inner node,
/// every run of bits is comparable with the path to some symbol.
pub proof fn lemma_locate<T>(tree: WipHuffmanTree<T>, bits: Seq<bool>) -> (path: Seq<bool>)
    requires
        tree.no_empty(),
        tree.populated(),
    ensures
        tree.leaf_at(path) is Some,
        comparable(path, bits),
    decreases bits.len(),
{
    let none = Seq::<bool>::empty();
    match tree {
        WipHuffmanTree::Empty => {
            assert(tree.empty_at(none));
            none
        },
        WipHuffmanTree::Leaf(_) => {
            assert(bits.take(0) =~= none);
            none
        },
        WipHuffmanTree::Tree(zero, one) => {
            if bits.len() == 0 {
                let path = choose|path: Seq<bool>| #[trigger] tree.leaf_at(path) is Some;
                assert(path.take(0) =~= bits);
                path
            } else {
                let child = if bits[0] { *one } else { *zero };
                assert forall|path: Seq<bool>| !#[trigger] child.empty_at(path) by {
                    lemma_below(*zero, *one, bits[0], path);
                    assert(!tree.empty_at(below(bits[0], path)));
                }
                let rest = lemma_locate(child, bits.skip(1));
                let path = below(bits[0], rest);
                lemma_below(*zero, *one, bits[0], rest);
                lemma_comparable_step(path, bits);
                path
            }
        },
    }
}

/// A table of codes compiles exactly when its codes are made of bits,
/// none of them is the start of another entry's code, and every run of
/// bits starts with one of them or is the start of one. It fails with
/// `MissingLeaf` exactly when only the last of the three is amiss.
pub proof fn lemma_compiles_iff<T>(values: Seq<(T, Seq<u8>)>)
    ensures
        compiled(values) is Ok <==> valid_table(values) && prefix_free(values) && complete(values),
        compiled(values) == Err::<crate::huffman::ReadHuffmanTree<T>, HuffmanTreeError>(
            HuffmanTreeError::MissingLeaf,
        ) <==> valid_table(values) && prefix_free(values) && !complete(values),
{
    lemma_built_error_kind(values);
    if built(values) is Ok {
        let tree = built(values)->Ok_0;
        lemma_built_prefix_free(values);
        lemma_built_shape(values);
        lemma_finished(tree);
        if tree.no_empty() {
            assert forall|bits: Seq<bool>| #[trigger] covered(values, bits) by {
                let path = lemma_locate(tree, bits);
                assert(listed(values, path));
                let i = choose|i: int| 0 <= i < values.len() && code_bits(#[trigger] values[i].1)
                    == path;
                assert(comparable(code_bits(values[i].1), bits));
            }
        } else {
            let hole = choose|hole: Seq<bool>| #[trigger] tree.empty_at(hole);
            assert(!covered(values, hole)) by {
                assert forall|i: int| 0 <= i < values.len() implies !comparable(
                    code_bits(#[trigger] values[i].1),
                    hole,
                ) by {
                    lemma_built_leaf(values, i);
                    lemma_empty_leaf_apart(tree, hole, code_bits(values[i].1));
                }
            }
        }
    } else {
        if valid_table(values) && prefix_free(values) {
            lemma_built_succeeds(values);
        }
    }
}

} // verus!
