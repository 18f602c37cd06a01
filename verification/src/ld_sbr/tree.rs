//! Binary code trees of small signed differences.
//!
//! A node holds one entry for each value of a bit. A negative entry is a leaf
//! that stands for the entry plus sixty-four; the others are links.

use vstd::prelude::*;

use crate::bits::{lemma_stands_split, stands_at, BitCursor, BitReader};

use super::books::{
    env_balance_10_f, env_balance_10_t, env_balance_11_f, env_balance_11_t, env_level_10_f, env_level_10_t, env_level_11_f,
    env_level_11_t, noise_balance_11_t, noise_level_11_t,
};
use super::error::LdSbrError;

verus! {

/// The codebooks of differences.
#[derive(Debug, Clone, Copy, PartialEq, Eq, Structural)]
pub enum SbrHuffmanBook {
    EnvelopeLevel15Time,
    EnvelopeLevel15Frequency,
    EnvelopeLevel30Time,
    EnvelopeLevel30Frequency,
    EnvelopeBalance15Time,
    EnvelopeBalance15Frequency,
    EnvelopeBalance30Time,
    EnvelopeBalance30Frequency,
    NoiseLevelTime,
    NoiseBalanceTime,
}

/// Whether an entry is a leaf or a link to a later node.
pub open spec fn ascending_entry(entry: i8, node: int, count: int) -> bool {
    entry < 0 || node < entry < count
}

/// Whether both entries of a node are leaves or links to later nodes.
pub open spec fn ascending_node(entries: [i8; 2], node: int, count: int) -> bool {
    ascending_entry(entries@[0], node, count) && ascending_entry(entries@[1], node, count)
}

/// Whether all links of a tree lead to later nodes.
pub open spec fn ascending_tree(tree: Seq<[i8; 2]>) -> bool {
    &&& 0 < tree.len() <= 128
    &&& forall|node: int|
        0 <= node < tree.len() ==> ascending_node(#[trigger] tree[node], node, tree.len() as int)
}

impl SbrHuffmanBook {
    /// The tree of a codebook.
    pub open spec fn nodes(self) -> Seq<[i8; 2]> {
        match self {
            SbrHuffmanBook::EnvelopeLevel15Time => env_level_10_t::nodes(),
            SbrHuffmanBook::EnvelopeLevel15Frequency => env_level_10_f::nodes(),
            SbrHuffmanBook::EnvelopeLevel30Time => env_level_11_t::nodes(),
            SbrHuffmanBook::EnvelopeLevel30Frequency => env_level_11_f::nodes(),
            SbrHuffmanBook::EnvelopeBalance15Time => env_balance_10_t::nodes(),
            SbrHuffmanBook::EnvelopeBalance15Frequency => env_balance_10_f::nodes(),
            SbrHuffmanBook::EnvelopeBalance30Time => env_balance_11_t::nodes(),
            SbrHuffmanBook::EnvelopeBalance30Frequency => env_balance_11_f::nodes(),
            SbrHuffmanBook::NoiseLevelTime => noise_level_11_t::nodes(),
            SbrHuffmanBook::NoiseBalanceTime => noise_balance_11_t::nodes(),
        }
    }

    /// The tree of this codebook.
    pub fn table(self) -> (tree: &'static [[i8; 2]])
        ensures
            tree@ == self.nodes(),
    {
        match self {
            SbrHuffmanBook::EnvelopeLevel15Time => env_level_10_t::tree(),
            SbrHuffmanBook::EnvelopeLevel15Frequency => env_level_10_f::tree(),
            SbrHuffmanBook::EnvelopeLevel30Time => env_level_11_t::tree(),
            SbrHuffmanBook::EnvelopeLevel30Frequency => env_level_11_f::tree(),
            SbrHuffmanBook::EnvelopeBalance15Time => env_balance_10_t::tree(),
            SbrHuffmanBook::EnvelopeBalance15Frequency => env_balance_10_f::tree(),
            SbrHuffmanBook::EnvelopeBalance30Time => env_balance_11_t::tree(),
            SbrHuffmanBook::EnvelopeBalance30Frequency => env_balance_11_f::tree(),
            SbrHuffmanBook::NoiseLevelTime => noise_level_11_t::tree(),
            SbrHuffmanBook::NoiseBalanceTime => noise_balance_11_t::tree(),
        }
    }
}

/// The trees of all codebooks are ascending.
pub proof fn lemma_books_ascend(book: SbrHuffmanBook)
    ensures
        ascending_tree(book.nodes()),
{
    match book {
        SbrHuffmanBook::EnvelopeLevel15Time => env_level_10_t::lemma_ascending(),
        SbrHuffmanBook::EnvelopeLevel15Frequency => env_level_10_f::lemma_ascending(),
        SbrHuffmanBook::EnvelopeLevel30Time => env_level_11_t::lemma_ascending(),
        SbrHuffmanBook::EnvelopeLevel30Frequency => env_level_11_f::lemma_ascending(),
        SbrHuffmanBook::EnvelopeBalance15Time => env_balance_10_t::lemma_ascending(),
        SbrHuffmanBook::EnvelopeBalance15Frequency => env_balance_10_f::lemma_ascending(),
        SbrHuffmanBook::EnvelopeBalance30Time => env_balance_11_t::lemma_ascending(),
        SbrHuffmanBook::EnvelopeBalance30Frequency => env_balance_11_f::lemma_ascending(),
        SbrHuffmanBook::NoiseLevelTime => noise_level_11_t::lemma_ascending(),
        SbrHuffmanBook::NoiseBalanceTime => noise_balance_11_t::lemma_ascending(),
    }
}

/// Decoding one difference from an entry of a tree on.
pub open spec fn decode_entry(tree: Seq<[i8; 2]>, entry: int, cursor: BitCursor) -> (
    Result<i8, LdSbrError>,
    BitCursor,
)
    decreases cursor.remaining(),
{
    if entry < 0 {
        (Ok((entry + 64) as i8), cursor)
    } else if entry >= tree.len() {
        (Err(LdSbrError::InvalidHuffmanCodeword), cursor)
    } else if cursor.remaining() < 1 {
        (Err(LdSbrError::UnexpectedEof), cursor)
    } else {
        decode_entry(
            tree,
            tree[entry]@[if cursor.bits[cursor.pos] { 1int } else { 0int }] as int,
            cursor.advance(1),
        )
    }
}

/// Decoding one difference with a codebook.
pub open spec fn decode_difference(book: SbrHuffmanBook, cursor: BitCursor) -> (Result<i8, LdSbrError>, BitCursor) {
    decode_entry(book.nodes(), 0, cursor)
}

/// The first codeword of a difference from an entry of a tree on.
pub open spec fn entry_code(tree: Seq<[i8; 2]>, entry: int, symbol: i8) -> Option<Seq<bool>>
    decreases tree.len() - entry, 1int,
{
    if entry < 0 {
        if entry + 64 == symbol {
            Some(Seq::empty())
        } else {
            None
        }
    } else if entry >= tree.len() {
        None
    } else {
        match branch_code(tree, entry, false, symbol) {
            Some(code) => Some(code),
            None => branch_code(tree, entry, true, symbol),
        }
    }
}

/// The first codeword of a difference through one branch of a node.
pub open spec fn branch_code(tree: Seq<[i8; 2]>, node: int, bit: bool, symbol: i8) -> Option<Seq<bool>>
    decreases tree.len() - node, 0int,
{
    let next = tree[node]@[if bit { 1int } else { 0int }] as int;
    if next < 0 {
        if next + 64 == symbol {
            Some(seq![bit])
        } else {
            None
        }
    } else if next <= node || next >= tree.len() {
        None
    } else {
        match entry_code(tree, next, symbol) {
            Some(code) => Some(seq![bit] + code),
            None => None,
        }
    }
}

/// The codeword of a difference in a codebook.
pub open spec fn difference_code(book: SbrHuffmanBook, symbol: i8) -> Option<Seq<bool>> {
    entry_code(book.nodes(), 0, symbol)
}

/// Decodes one difference.
pub fn decode_sbr_huffman(reader: &mut BitReader<'_>, book: SbrHuffmanBook) -> (result: Result<i8, LdSbrError>)
    ensures
        (result, final(reader)@) == decode_difference(book, old(reader)@),
        old(reader)@.leads_to(final(reader)@),
{
    let table = book.table();
    let mut index: i8 = 0;
    let mut remaining: usize = reader.remaining_bits();
    let _ = reader.bits_read();
    while index >= 0
        invariant
            table@ == book.nodes(),
            old(reader)@.leads_to(reader@),
            remaining == reader@.remaining(),
            decode_entry(table@, index as int, reader@) == decode_difference(book, old(reader)@),
        decreases remaining + if index >= 0 { 1int } else { 0int },
    {
        if index as usize >= table.len() {
            return Err(LdSbrError::InvalidHuffmanCodeword);
        }
        match reader.read_bool() {
            Ok(bit) => {
                index = table[index as usize][if bit {
                    1
                } else {
                    0
                }];
                remaining = remaining - 1;
            },
            Err(_) => {
                return Err(LdSbrError::UnexpectedEof);
            },
        }
    }
    Ok(index + 64)
}

/// Searches the codeword of a difference from an entry on.
fn find(table: &[[i8; 2]], node: i8, target: i8, bits: &mut Vec<bool>) -> (found: bool)
    requires
        ascending_tree(table@),
        node < table@.len(),
    ensures
        match entry_code(table@, node as int, target) {
            Some(code) => found && final(bits)@ == old(bits)@ + code,
            None => !found && final(bits)@ == old(bits)@,
        },
    decreases table@.len() - node,
{
    if node < 0 {
        assert(bits@ + Seq::<bool>::empty() =~= bits@);
        return node + 64 == target;
    }
    assert(ascending_node(table@[node as int], node as int, table@.len() as int));
    let left: i8 = table[node as usize][0];
    bits.push(false);
    if left < 0 {
        if left + 64 == target {
            assert(bits@ =~= old(bits)@ + seq![false]);
            return true;
        }
    } else if find(table, left, target, bits) {
        assert(bits@ =~= old(bits)@ + (seq![false] + entry_code(table@, left as int, target)->0));
        return true;
    }
    let _ = bits.pop();
    assert(bits@ =~= old(bits)@);
    let right: i8 = table[node as usize][1];
    bits.push(true);
    if right < 0 {
        if right + 64 == target {
            assert(bits@ =~= old(bits)@ + seq![true]);
            return true;
        }
    } else if find(table, right, target, bits) {
        assert(bits@ =~= old(bits)@ + (seq![true] + entry_code(table@, right as int, target)->0));
        return true;
    }
    let _ = bits.pop();
    assert(bits@ =~= old(bits)@);
    false
}

/// The codeword of a difference; `None` where the codebook has none.
pub fn encode_sbr_huffman(book: SbrHuffmanBook, symbol: i8) -> (result: Option<Vec<bool>>)
    ensures
        match difference_code(book, symbol) {
            Some(code) => result matches Some(bits) && bits@ == code,
            None => result is None,
        },
{
    proof {
        lemma_books_ascend(book);
    }
    let mut bits: Vec<bool> = Vec::new();
    if find(book.table(), 0, symbol, &mut bits) {
        assert(Seq::<bool>::empty() + difference_code(book, symbol)->0 =~= difference_code(book, symbol)->0);
        Some(bits)
    } else {
        None
    }
}

proof fn lemma_entry_code_decodes(tree: Seq<[i8; 2]>, entry: int, symbol: i8, cursor: BitCursor)
    requires
        entry_code(tree, entry, symbol) matches Some(code) && stands_at(code, cursor),
    ensures
        decode_entry(tree, entry, cursor) == (
            Ok::<i8, LdSbrError>(symbol),
            cursor.advance(entry_code(tree, entry, symbol)->0.len() as int),
        ),
    decreases tree.len() - entry,
{
    reveal_with_fuel(decode_entry, 2);
    let code = entry_code(tree, entry, symbol)->0;
    if entry >= 0 {
        let bit = branch_code(tree, entry, false, symbol) is None;
        assert(branch_code(tree, entry, bit, symbol) == Some(code));
        let next = tree[entry]@[if bit { 1int } else { 0int }] as int;
        let rest = if next < 0 {
            Seq::<bool>::empty()
        } else {
            entry_code(tree, next, symbol)->0
        };
        assert(code =~= seq![bit] + rest);
        lemma_stands_split(seq![bit], rest, cursor);
        assert(cursor.bits.subrange(cursor.pos, cursor.pos + 1)[0] == bit);
        if next >= 0 {
            lemma_entry_code_decodes(tree, next, symbol, cursor.advance(1));
        }
    }
}

/// Decoding where the codeword of a difference stands gives the difference and
/// consumes exactly the codeword.
pub proof fn lemma_difference_decodes(book: SbrHuffmanBook, symbol: i8, cursor: BitCursor)
    requires
        difference_code(book, symbol) matches Some(code) && stands_at(code, cursor),
    ensures
        decode_difference(book, cursor) == (
            Ok::<i8, LdSbrError>(symbol),
            cursor.advance(difference_code(book, symbol)->0.len() as int),
        ),
{
    lemma_entry_code_decodes(book.nodes(), 0, symbol, cursor);
}

} // verus!
