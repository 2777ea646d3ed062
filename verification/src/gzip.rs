//! A toy DEFLATE-style compressor: LZ77 back-reference tokens followed
//! by Huffman coding of the token symbols.  The LZ77 pass is proved
//! lossless: decoding its tokens reproduces the input exactly.

use vstd::prelude::*;

verus! {

/// Sliding-window size of the reference scheme.
pub const WINDOW_SIZE: usize = 32768;

/// How far ahead a match may extend.
pub const LOOKAHEAD_SIZE: usize = 258;

/// One LZ77 token: either a literal byte or a back-reference copying
/// `length` bytes starting `distance` bytes behind the write head.
#[derive(Debug, Clone, Copy, PartialEq, Eq, Structural)]
pub enum Token {
    Literal(u8),
    Reference { length: usize, distance: usize },
}

/// Appends `length` bytes to `out`, each copied `distance` bytes from
/// behind the end; copies may overlap their own output, exactly as a
/// decoder's write head does.
pub open spec fn extend_copy(out: Seq<u8>, distance: int, length: int) -> Seq<u8>
    decreases length,
{
    if length <= 0 || distance <= 0 || distance > out.len() {
        out
    } else {
        extend_copy(out.push(out[out.len() - distance]), distance, length - 1)
    }
}

/// The byte sequence an LZ77 decoder produces from `tokens`.
pub open spec fn decode(tokens: Seq<Token>) -> Seq<u8>
    decreases tokens.len(),
{
    if tokens.len() == 0 {
        Seq::empty()
    } else {
        let rest = decode(tokens.drop_last());
        match tokens.last() {
            Token::Literal(b) => rest.push(b),
            Token::Reference { length, distance } => extend_copy(
                rest,
                distance as int,
                length as int,
            ),
        }
    }
}

/// The number of bytes a token stream decodes to: one per literal,
/// `length` per reference.
pub open spec fn emitted_len(tokens: Seq<Token>) -> int
    decreases tokens.len(),
{
    if tokens.len() == 0 {
        0
    } else {
        emitted_len(tokens.drop_last()) + (match tokens.last() {
            Token::Literal(_) => 1int,
            Token::Reference { length, .. } => length as int,
        })
    }
}

/// Every reference token points back into already-produced output,
/// is at least three bytes long, and respects the window and
/// lookahead bounds it was compressed with.
pub open spec fn tokens_well_formed(
    tokens: Seq<Token>,
    window_size: int,
    lookahead_size: int,
) -> bool {
    forall|t: int|
        0 <= t < tokens.len() ==> (#[trigger] tokens[t] matches Token::Reference {
            length,
            distance,
        } ==> 3 <= length <= lookahead_size && 1 <= distance <= window_size)
}

proof fn lemma_decode_push_literal(tokens: Seq<Token>, b: u8)
    ensures
        decode(tokens.push(Token::Literal(b))) == decode(tokens).push(b),
{
    let pushed = tokens.push(Token::Literal(b));
    assert(pushed.drop_last() =~= tokens);
    assert(pushed.last() == Token::Literal(b));
}

proof fn lemma_decode_push_reference(tokens: Seq<Token>, length: usize, distance: usize)
    ensures
        decode(tokens.push(Token::Reference { length, distance })) == extend_copy(
            decode(tokens),
            distance as int,
            length as int,
        ),
{
    let pushed = tokens.push(Token::Reference { length, distance });
    assert(pushed.drop_last() =~= tokens);
    assert(pushed.last() == (Token::Reference { length, distance }));
}

/// Copying a match that the compressor found reproduces exactly the
/// next `length` bytes of the source.
proof fn lemma_extend_matches(data: Seq<u8>, pos: int, distance: int, length: int)
    requires
        0 < distance <= pos,
        0 <= length,
        pos + length <= data.len(),
        forall|k: int| 0 <= k < length ==> data[pos - distance + k] == #[trigger] data[pos + k],
    ensures
        extend_copy(data.subrange(0, pos), distance, length) == data.subrange(0, pos + length),
    decreases length,
{
    let out = data.subrange(0, pos);
    if length <= 0 {
        assert(out =~= data.subrange(0, pos + length));
    } else {
        assert(out[out.len() - distance] == data[pos - distance]);
        assert(data[pos - distance + 0] == data[pos + 0]);
        assert(data[pos - distance] == data[pos]);
        assert(out.push(data[pos]) =~= data.subrange(0, pos + 1));
        assert forall|k: int| 0 <= k < length - 1 implies data[(pos + 1) - distance + k]
            == #[trigger] data[(pos + 1) + k] by {
            assert(data[pos - distance + (k + 1)] == data[pos + (k + 1)]);
        }
        lemma_extend_matches(data, pos + 1, distance, length - 1);
    }
}

/// A node of a Huffman tree: a leaf carries one symbol, an internal
/// node the combined weight of its subtrees.
#[derive(Debug)]
pub enum HuffmanNode {
    Leaf { symbol: u16, freq: usize },
    Internal { left: Box<HuffmanNode>, right: Box<HuffmanNode>, freq: usize },
}

impl HuffmanNode {
    /// The weight stored at this node.
    pub open spec fn spec_freq(self) -> usize {
        match self {
            HuffmanNode::Leaf { freq, .. } => freq,
            HuffmanNode::Internal { freq, .. } => freq,
        }
    }

    /// The symbols at this node's leaves, left to right.
    pub open spec fn leaves(self) -> Seq<u16>
        decreases self,
    {
        match self {
            HuffmanNode::Leaf { symbol, .. } => seq![symbol],
            HuffmanNode::Internal { left, right, .. } => left.leaves() + right.leaves(),
        }
    }

    /// The `(symbol, weight)` pairs at this node's leaves, left to
    /// right.
    pub open spec fn leaf_entries(self) -> Seq<(u16, usize)>
        decreases self,
    {
        match self {
            HuffmanNode::Leaf { symbol, freq } => seq![(symbol, freq)],
            HuffmanNode::Internal { left, right, .. } => left.leaf_entries()
                + right.leaf_entries(),
        }
    }

    /// Every internal node's weight is the sum of its subtrees'
    /// weights.
    pub open spec fn well_weighted(self) -> bool
        decreases self,
    {
        match self {
            HuffmanNode::Leaf { .. } => true,
            HuffmanNode::Internal { left, right, freq } => freq == left.spec_freq()
                + right.spec_freq() && left.well_weighted() && right.well_weighted(),
        }
    }

    /// The weight stored at this node.
    pub fn freq(&self) -> (f: usize)
        ensures
            f == self.spec_freq(),
    {
        match self {
            HuffmanNode::Leaf { freq, .. } => *freq,
            HuffmanNode::Internal { freq, .. } => *freq,
        }
    }
}

/// All leaf symbols of a forest of nodes, in node order.
pub open spec fn forest_leaves(nodes: Seq<HuffmanNode>) -> Seq<u16>
    decreases nodes.len(),
{
    if nodes.len() == 0 {
        Seq::empty()
    } else {
        forest_leaves(nodes.drop_last()) + nodes.last().leaves()
    }
}

/// All `(symbol, weight)` leaf pairs of a forest of nodes, in node
/// order.
pub open spec fn forest_entries(nodes: Seq<HuffmanNode>) -> Seq<(u16, usize)>
    decreases nodes.len(),
{
    if nodes.len() == 0 {
        Seq::empty()
    } else {
        forest_entries(nodes.drop_last()) + nodes.last().leaf_entries()
    }
}

/// The total weight of a forest of nodes.
pub open spec fn forest_freq(nodes: Seq<HuffmanNode>) -> int
    decreases nodes.len(),
{
    if nodes.len() == 0 {
        0
    } else {
        forest_freq(nodes.drop_last()) + nodes.last().spec_freq()
    }
}

/// The symbol column of a frequency table.
pub open spec fn table_symbols(entries: Seq<(u16, usize)>) -> Seq<u16> {
    entries.map_values(|e: (u16, usize)| e.0)
}

/// The total count in a frequency table.
pub open spec fn table_total(entries: Seq<(u16, usize)>) -> int
    decreases entries.len(),
{
    if entries.len() == 0 {
        0
    } else {
        table_total(entries.drop_last()) + entries.last().1
    }
}

proof fn lemma_forest_push(nodes: Seq<HuffmanNode>, x: HuffmanNode)
    ensures
        forest_leaves(nodes.push(x)) == forest_leaves(nodes) + x.leaves(),
        forest_entries(nodes.push(x)) == forest_entries(nodes) + x.leaf_entries(),
        forest_freq(nodes.push(x)) == forest_freq(nodes) + x.spec_freq(),
{
    assert(nodes.push(x).drop_last() =~= nodes);
    assert(nodes.push(x).last() == x);
}

proof fn lemma_forest_freq_nonneg(nodes: Seq<HuffmanNode>)
    ensures
        forest_freq(nodes) >= 0,
    decreases nodes.len(),
{
    if nodes.len() > 0 {
        lemma_forest_freq_nonneg(nodes.drop_last());
    }
}

proof fn lemma_forest_remove(nodes: Seq<HuffmanNode>, i: int)
    requires
        0 <= i < nodes.len(),
    ensures
        forest_leaves(nodes).to_multiset() == forest_leaves(nodes.remove(i)).to_multiset().add(
            nodes[i].leaves().to_multiset(),
        ),
        forest_entries(nodes).to_multiset() == forest_entries(nodes.remove(i)).to_multiset().add(
            nodes[i].leaf_entries().to_multiset(),
        ),
        forest_freq(nodes) == forest_freq(nodes.remove(i)) + nodes[i].spec_freq(),
    decreases nodes.len(),
{
    broadcast use vstd::seq_lib::lemma_multiset_commutative;

    if i == nodes.len() - 1 {
        assert(nodes.remove(i) =~= nodes.drop_last());
        assert(forest_leaves(nodes) == forest_leaves(nodes.drop_last()) + nodes[i].leaves());
        assert(forest_entries(nodes) == forest_entries(nodes.drop_last())
            + nodes[i].leaf_entries());
    } else {
        let shorter = nodes.drop_last();
        assert(nodes.remove(i).drop_last() =~= shorter.remove(i));
        assert(nodes.remove(i).last() == nodes.last());
        lemma_forest_remove(shorter, i);
        assert(forest_leaves(nodes).to_multiset() =~= forest_leaves(
            nodes.remove(i),
        ).to_multiset().add(nodes[i].leaves().to_multiset()));
        assert(forest_entries(nodes).to_multiset() =~= forest_entries(
            nodes.remove(i),
        ).to_multiset().add(nodes[i].leaf_entries().to_multiset()));
    }
}

/// Picks the index of a smallest-weight node.
fn min_freq_index(nodes: &Vec<HuffmanNode>) -> (m: usize)
    requires
        nodes@.len() > 0,
    ensures
        m < nodes@.len(),
        forall|j: int| 0 <= j < nodes@.len() ==> nodes@[m as int].spec_freq() <= #[trigger] nodes@[j].spec_freq(),
{
    let mut m: usize = 0;
    let mut j: usize = 1;
    while j < nodes.len()
        invariant
            m < j <= nodes@.len(),
            forall|k: int| 0 <= k < j ==> nodes@[m as int].spec_freq() <= #[trigger] nodes@[k].spec_freq(),
        decreases nodes@.len() - j,
    {
        if nodes[j].freq() < nodes[m].freq() {
            m = j;
        }
        j += 1;
    }
    m
}

/// Builds a Huffman tree over a table of symbol frequencies by
/// repeatedly merging the two lightest nodes.  The tree exists
/// exactly when the table is non-empty; its leaves are exactly the
/// table's symbols and its weight is the table's total count.
pub fn build_huffman_tree(frequencies: &Vec<(u16, usize)>) -> (r: Option<HuffmanNode>)
    requires
        table_total(frequencies@) <= usize::MAX,
    ensures
        r is Some <==> frequencies@.len() > 0,
        r matches Some(t) ==> t.leaves().to_multiset() == table_symbols(
            frequencies@,
        ).to_multiset() && t.leaf_entries().to_multiset() == frequencies@.to_multiset()
            && t.spec_freq() == table_total(frequencies@) && t.well_weighted(),
{
    broadcast use {vstd::seq_lib::group_to_multiset_ensures, vstd::multiset::group_multiset_axioms};

    if frequencies.len() == 0 {
        return None;
    }

    let ghost syms = table_symbols(frequencies@);
    let ghost total = table_total(frequencies@);

    let mut nodes: Vec<HuffmanNode> = Vec::new();
    let mut idx: usize = 0;
    while idx < frequencies.len()
        invariant
            idx <= frequencies@.len(),
            nodes@.len() == idx,
            forest_leaves(nodes@) == table_symbols(frequencies@).take(idx as int),
            forest_entries(nodes@) == frequencies@.take(idx as int),
            forest_freq(nodes@) == table_total(frequencies@.take(idx as int)),
            forall|w: int| 0 <= w < nodes@.len() ==> (#[trigger] nodes@[w]).well_weighted(),
        decreases frequencies@.len() - idx,
    {
        let entry = frequencies[idx];
        let ghost before = nodes@;
        nodes.push(HuffmanNode::Leaf { symbol: entry.0, freq: entry.1 });
        proof {
            lemma_forest_push(before, HuffmanNode::Leaf { symbol: entry.0, freq: entry.1 });
            assert(forest_leaves(nodes@) =~= table_symbols(frequencies@).take(idx as int + 1));
            assert(forest_entries(nodes@) =~= frequencies@.take(idx as int + 1));
            assert(frequencies@.take(idx as int + 1).drop_last() =~= frequencies@.take(
                idx as int,
            ));
        }
        idx += 1;
    }

    proof {
        assert(table_symbols(frequencies@).take(frequencies@.len() as int) =~= syms);
        assert(frequencies@.take(frequencies@.len() as int) =~= frequencies@);
        assert(forest_entries(nodes@) == frequencies@);
    }

    while nodes.len() > 1
        invariant
            nodes@.len() >= 1,
            forest_leaves(nodes@).to_multiset() == syms.to_multiset(),
            forest_entries(nodes@).to_multiset() == frequencies@.to_multiset(),
            forest_freq(nodes@) == total,
            total <= usize::MAX,
            forall|w: int| 0 <= w < nodes@.len() ==> (#[trigger] nodes@[w]).well_weighted(),
        decreases nodes@.len(),
    {
        let a = min_freq_index(&nodes);
        let ghost with_right = nodes@;
        let right = nodes.remove(a);
        proof {
            lemma_forest_remove(with_right, a as int);
            assert forall|w: int|
                0 <= w < nodes@.len() implies (#[trigger] nodes@[w]).well_weighted() by {
                if w < a {
                    assert(nodes@[w] == with_right[w]);
                } else {
                    assert(nodes@[w] == with_right[w + 1]);
                }
            }
        }

        let b = min_freq_index(&nodes);
        let ghost with_left = nodes@;
        let left = nodes.remove(b);
        proof {
            lemma_forest_remove(with_left, b as int);
            lemma_forest_freq_nonneg(nodes@);
            assert forall|w: int|
                0 <= w < nodes@.len() implies (#[trigger] nodes@[w]).well_weighted() by {
                if w < b {
                    assert(nodes@[w] == with_left[w]);
                } else {
                    assert(nodes@[w] == with_left[w + 1]);
                }
            }
        }

        let lf = left.freq();
        let rf = right.freq();
        let combined = HuffmanNode::Internal {
            freq: lf + rf,
            left: Box::new(left),
            right: Box::new(right),
        };

        let ghost before = nodes@;
        nodes.push(combined);
        proof {
            lemma_forest_push(before, combined);
            assert(combined.leaves() == left.leaves() + right.leaves());
            assert(combined.leaf_entries() == left.leaf_entries() + right.leaf_entries());
            vstd::seq_lib::lemma_multiset_commutative(left.leaves(), right.leaves());
            vstd::seq_lib::lemma_multiset_commutative(forest_leaves(before), combined.leaves());
            vstd::seq_lib::lemma_multiset_commutative(left.leaf_entries(), right.leaf_entries());
            vstd::seq_lib::lemma_multiset_commutative(
                forest_entries(before),
                combined.leaf_entries(),
            );
            assert(forest_leaves(nodes@).to_multiset() =~= syms.to_multiset());
            assert(forest_entries(nodes@).to_multiset() =~= frequencies@.to_multiset());
        }
    }

    let ghost pre = nodes@;
    let t = match nodes.pop() {
        Some(t) => t,
        None => {
            return None;
        },
    };

    proof {
        assert(pre =~= nodes@.push(t));
        lemma_forest_push(nodes@, t);
        assert(forest_leaves(nodes@) =~= Seq::<u16>::empty());
        assert(forest_leaves(pre) =~= t.leaves());
        assert(forest_entries(nodes@) =~= Seq::<(u16, usize)>::empty());
        assert(forest_entries(pre) =~= t.leaf_entries());
        assert(t.spec_freq() == table_total(frequencies@));
        assert(t.leaves().to_multiset() == table_symbols(frequencies@).to_multiset());
        assert(t.leaf_entries().to_multiset() == frequencies@.to_multiset());
    }

    Some(t)
}

/// The code table a walk of `node` under `prefix` produces: one entry
/// per leaf, whose code is the path of zeroes and ones to it (a lone
/// leaf gets the one-bit code `0`).
pub open spec fn code_entries(node: HuffmanNode, prefix: Seq<char>) -> Seq<(u16, Seq<char>)>
    decreases node,
{
    match node {
        HuffmanNode::Leaf { symbol, .. } => seq![
            (
                symbol,
                if prefix.len() == 0 {
                    seq!['0']
                } else {
                    prefix
                },
            ),
        ],
        HuffmanNode::Internal { left, right, .. } => code_entries(*left, prefix.push('0'))
            + code_entries(*right, prefix.push('1')),
    }
}

/// A code table with each code as its character sequence.
pub open spec fn entry_views(entries: Seq<(u16, String)>) -> Seq<(u16, Seq<char>)> {
    entries.map_values(|e: (u16, String)| (e.0, e.1@))
}

/// Walks the tree and appends one `(symbol, code)` pair per leaf to
/// `codes`, the code being `prefix` extended by `0` for each left
/// branch and `1` for each right branch.
pub fn generate_codes(node: &HuffmanNode, prefix: String, codes: &mut Vec<(u16, String)>)
    ensures
        entry_views(final(codes)@) == entry_views(old(codes)@) + code_entries(*node, prefix@),
    decreases *node,
{
    match node {
        HuffmanNode::Leaf { symbol, .. } => {
            let code = if prefix.as_str().is_empty() {
                proof {
                    reveal_strlit("0");
                }
                String::from_str("0")
            } else {
                prefix
            };
            let ghost before = codes@;
            codes.push((*symbol, code));
            proof {
                reveal_strlit("0");
                assert(entry_views(codes@) =~~= entry_views(before) + code_entries(
                    *node,
                    prefix@,
                ));
            }
        },
        HuffmanNode::Internal { left, right, .. } => {
            let ghost p = prefix@;

            let mut left_prefix = prefix.clone();
            left_prefix.append("0");

            let mut right_prefix = prefix;
            right_prefix.append("1");

            proof {
                reveal_strlit("0");
                reveal_strlit("1");
                assert(left_prefix@ =~= p.push('0'));
                assert(right_prefix@ =~= p.push('1'));
            }

            let ghost mid0 = codes@;
            generate_codes(left, left_prefix, codes);
            let ghost mid1 = codes@;
            generate_codes(right, right_prefix, codes);

            proof {
                assert(entry_views(codes@) =~~= entry_views(mid0) + code_entries(*node, prefix@));
            }
        },
    }
}

/// The Huffman symbols of a token stream, in order: a literal is its
/// byte, a reference contributes a length symbol offset by 256 and a
/// distance symbol offset by 512.
pub open spec fn token_symbols(tokens: Seq<Token>) -> Seq<u16>
    decreases tokens.len(),
{
    if tokens.len() == 0 {
        Seq::empty()
    } else {
        token_symbols(tokens.drop_last()) + (match tokens.last() {
            Token::Literal(b) => seq![b as u16],
            Token::Reference { length, distance } => seq![
                (256 + length) as u16,
                (512 + distance) as u16,
            ],
        })
    }
}

/// The code of `sym` in a table: its first entry for `sym`, or the
/// empty code if the table has none.
pub open spec fn lookup_code(entries: Seq<(u16, Seq<char>)>, sym: u16) -> Seq<char>
    decreases entries.len(),
{
    if entries.len() == 0 {
        Seq::empty()
    } else if entries[0].0 == sym {
        entries[0].1
    } else {
        lookup_code(entries.drop_first(), sym)
    }
}

/// Whether a table carries a code for `sym`.
pub open spec fn has_code(entries: Seq<(u16, Seq<char>)>, sym: u16) -> bool {
    exists|i: int| 0 <= i < entries.len() && (#[trigger] entries[i]).0 == sym
}

/// The concatenation of the codes of `syms` under a table.
pub open spec fn encode_symbols(entries: Seq<(u16, Seq<char>)>, syms: Seq<u16>) -> Seq<char>
    decreases syms.len(),
{
    if syms.len() == 0 {
        Seq::empty()
    } else {
        encode_symbols(entries, syms.drop_last()) + lookup_code(entries, syms.last())
    }
}

proof fn lemma_encode_push(entries: Seq<(u16, Seq<char>)>, syms: Seq<u16>, sym: u16)
    ensures
        encode_symbols(entries, syms.push(sym)) == encode_symbols(entries, syms) + lookup_code(
            entries,
            sym,
        ),
{
    assert(syms.push(sym).drop_last() =~= syms);
}

/// Looks `sym` up in the running code table.
fn find_code<'a>(codes: &'a Vec<(u16, String)>, sym: u16) -> (r: &'a str)
    ensures
        r@ == lookup_code(entry_views(codes@), sym),
{
    proof {
        assert(entry_views(codes@).skip(0) =~= entry_views(codes@));
    }
    let mut j: usize = 0;
    while j < codes.len()
        invariant
            j <= codes@.len(),
            lookup_code(entry_views(codes@), sym) == lookup_code(
                entry_views(codes@).skip(j as int),
                sym,
            ),
        decreases codes@.len() - j,
    {
        if codes[j].0 == sym {
            proof {
                assert(entry_views(codes@).skip(j as int)[0] == (codes@[j as int].0, codes@[
                j as int].1@));
            }
            return codes[j].1.as_str();
        }
        proof {
            assert(entry_views(codes@).skip(j as int)[0] == (codes@[j as int].0, codes@[
            j as int].1@));
            assert(entry_views(codes@).skip(j as int).drop_first() =~= entry_views(codes@).skip(
                j as int + 1,
            ));
        }
        j += 1;
    }
    proof {
        assert(entry_views(codes@).skip(codes@.len() as int) =~= Seq::<(u16, Seq<char>)>::empty());
        reveal_strlit("");
    }
    ""
}

/// How often `sym` occurs in `syms`.
pub open spec fn count_of(syms: Seq<u16>, sym: u16) -> int
    decreases syms.len(),
{
    if syms.len() == 0 {
        0int
    } else {
        count_of(syms.drop_last(), sym) + if syms.last() == sym {
            1int
        } else {
            0int
        }
    }
}

proof fn lemma_count_of_nonneg(syms: Seq<u16>, sym: u16)
    ensures
        count_of(syms, sym) >= 0,
    decreases syms.len(),
{
    if syms.len() > 0 {
        lemma_count_of_nonneg(syms.drop_last(), sym);
    }
}

proof fn lemma_count_of_le_len(syms: Seq<u16>, sym: u16)
    ensures
        0 <= count_of(syms, sym) <= syms.len(),
    decreases syms.len(),
{
    if syms.len() > 0 {
        lemma_count_of_le_len(syms.drop_last(), sym);
    }
}

/// Tallies the symbols into a frequency table: one entry per distinct
/// symbol, carrying its exact number of occurrences, in order of
/// first appearance.
fn count_frequencies(syms: &Vec<u16>) -> (freqs: Vec<(u16, usize)>)
    ensures
        forall|e: int|
            0 <= e < freqs@.len() ==> (#[trigger] freqs@[e]).1 == count_of(syms@, freqs@[e].0)
                && freqs@[e].1 >= 1,
        forall|s: u16|
            count_of(syms@, s) > 0 <==> table_symbols(freqs@).contains(s),
        table_total(freqs@) <= syms@.len(),
        freqs@.len() > 0 <==> syms@.len() > 0,
{
    let mut freqs: Vec<(u16, usize)> = Vec::new();

    let mut i: usize = 0;
    while i < syms.len()
        invariant
            i <= syms@.len(),
            forall|e: int|
                0 <= e < freqs@.len() ==> (#[trigger] freqs@[e]).1 == count_of(
                    syms@.take(i as int),
                    freqs@[e].0,
                ) && freqs@[e].1 >= 1,
            forall|s: u16|
                count_of(syms@.take(i as int), s) > 0 <==> table_symbols(freqs@).contains(s),
            forall|e1: int, e2: int| #![trigger freqs@[e1], freqs@[e2]]
                0 <= e1 < e2 < freqs@.len() ==> freqs@[e1].0 != freqs@[e2].0,
            table_total(freqs@) <= i,
            freqs@.len() > 0 <==> i > 0,
        decreases syms@.len() - i,
    {
        let sym = syms[i];
        let ghost prefix = syms@.take(i as int);
        let ghost longer = syms@.take(i as int + 1);

        proof {
            assert(longer.drop_last() =~= prefix);
            assert(longer.last() == syms@[i as int]);
            assert forall|s: u16| s != sym implies count_of(longer, s) == count_of(prefix, s) by {}
            assert(count_of(longer, sym) == count_of(prefix, sym) + 1);
            lemma_count_of_nonneg(prefix, sym);
        }

        let mut j: usize = 0;
        let mut found = false;
        while j < freqs.len()
            invariant_except_break
                !found,
            invariant
                j <= freqs@.len(),
                forall|e: int| 0 <= e < j ==> (#[trigger] freqs@[e]).0 != sym,
            ensures
                found ==> j < freqs@.len() && freqs@[j as int].0 == sym,
                !found ==> forall|e: int| 0 <= e < freqs@.len() ==> (#[trigger] freqs@[e]).0 != sym,
            decreases freqs@.len() - j,
        {
            if freqs[j].0 == sym {
                found = true;
                break ;
            }
            j += 1;
        }

        if found {
            // `found` left `j` at the matching entry
            let c = freqs[j].1;
            proof {
                lemma_count_of_le_len(prefix, sym);
            }
            let c1 = c + 1;
            let ghost before = freqs@;
            freqs.set(j, (sym, c1));
            proof {
                lemma_table_total_update(before, j as int, c1);
                assert(table_symbols(freqs@) =~= table_symbols(before));
                assert forall|e: int|
                    0 <= e < freqs@.len() implies (#[trigger] freqs@[e]).1 == count_of(
                    longer,
                    freqs@[e].0,
                ) && freqs@[e].1 >= 1 by {
                    if e != j {
                        assert(freqs@[e] == before[e]);
                        assert(before[e].0 != sym);
                        assert(count_of(longer, before[e].0) == count_of(prefix, before[e].0));
                    }
                }
                assert forall|s: u16|
                    count_of(longer, s) > 0 implies table_symbols(freqs@).contains(s) by {
                    if s == sym {
                        assert(table_symbols(before)[j as int] == sym);
                    } else {
                        assert(count_of(prefix, s) > 0);
                    }
                }
                assert forall|s: u16|
                    table_symbols(freqs@).contains(s) implies count_of(longer, s) > 0 by {
                    assert(table_symbols(before).contains(s));
                    assert(count_of(prefix, s) > 0);
                    if s != sym {
                        assert(count_of(longer, s) == count_of(prefix, s));
                    }
                }
            }
        } else {
            let ghost before = freqs@;
            freqs.push((sym, 1));
            proof {
                lemma_table_total_push(before, sym, 1);
                lemma_count_of_nonneg(prefix, sym);
                assert(table_symbols(freqs@) =~= table_symbols(before).push(sym));
                assert forall|e: int|
                    0 <= e < freqs@.len() implies (#[trigger] freqs@[e]).1 == count_of(
                    longer,
                    freqs@[e].0,
                ) && freqs@[e].1 >= 1 by {
                    if e < before.len() {
                        assert(freqs@[e] == before[e]);
                        assert(before[e].0 != sym);
                        assert(count_of(longer, before[e].0) == count_of(prefix, before[e].0));
                    } else {
                        assert(freqs@[e] == (sym, 1usize));
                        assert(count_of(prefix, sym) == 0) by {
                            if count_of(prefix, sym) > 0 {
                                assert(table_symbols(before).contains(sym));
                                let w = choose|w: int|
                                    0 <= w < table_symbols(before).len() && table_symbols(
                                        before,
                                    )[w] == sym;
                                assert(before[w].0 == sym);
                            }
                        }
                    }
                }
                assert forall|s: u16|
                    count_of(longer, s) > 0 implies table_symbols(freqs@).contains(s) by {
                    if s == sym {
                        assert(table_symbols(freqs@).last() == sym);
                    } else {
                        assert(count_of(prefix, s) > 0);
                        assert(table_symbols(before).contains(s));
                        let w = choose|w: int|
                            0 <= w < table_symbols(before).len() && table_symbols(before)[w] == s;
                        assert(table_symbols(freqs@)[w] == s);
                    }
                }
                assert forall|s: u16|
                    table_symbols(freqs@).contains(s) implies count_of(longer, s) > 0 by {
                    let w = choose|w: int|
                        0 <= w < table_symbols(freqs@).len() && table_symbols(freqs@)[w] == s;
                    if w < before.len() {
                        assert(table_symbols(before)[w] == s);
                        assert(count_of(prefix, s) > 0);
                        if s != sym {
                            assert(count_of(longer, s) == count_of(prefix, s));
                        }
                    } else {
                        assert(s == sym);
                    }
                }
                assert forall|e1: int, e2: int| #![trigger freqs@[e1], freqs@[e2]]
                    0 <= e1 < e2 < freqs@.len() implies freqs@[e1].0 != freqs@[e2].0 by {
                    if e2 == before.len() {
                        assert(freqs@[e1] == before[e1]);
                        assert(before[e1].0 != sym);
                    }
                }
            }
        }

        i += 1;
    }

    proof {
        assert(syms@.take(syms@.len() as int) =~= syms@);
    }

    freqs
}

proof fn lemma_table_total_update(entries: Seq<(u16, usize)>, j: int, c: usize)
    requires
        0 <= j < entries.len(),
        c == entries[j].1 + 1,
    ensures
        table_total(entries.update(j, (entries[j].0, c))) == table_total(entries) + 1,
    decreases entries.len(),
{
    let updated = entries.update(j, (entries[j].0, c));
    if j == entries.len() - 1 {
        assert(updated.drop_last() =~= entries.drop_last());
    } else {
        assert(updated.drop_last() =~= entries.drop_last().update(j, (entries[j].0, c)));
        assert(updated.last() == entries.last());
        lemma_table_total_update(entries.drop_last(), j, c);
    }
}

proof fn lemma_table_total_push(entries: Seq<(u16, usize)>, sym: u16, c: usize)
    ensures
        table_total(entries.push((sym, c))) == table_total(entries) + c,
{
    assert(entries.push((sym, c)).drop_last() =~= entries);
}

proof fn lemma_count_positive_iff_contains(syms: Seq<u16>, s: u16)
    ensures
        count_of(syms, s) > 0 <==> syms.contains(s),
    decreases syms.len(),
{
    if syms.len() > 0 {
        lemma_count_positive_iff_contains(syms.drop_last(), s);
        lemma_count_of_nonneg(syms.drop_last(), s);
        if syms.drop_last().contains(s) {
            let w = choose|w: int| 0 <= w < syms.len() - 1 && syms.drop_last()[w] == s;
            assert(syms[w] == s);
        }
        if syms.contains(s) && syms.last() != s {
            let w = choose|w: int| 0 <= w < syms.len() && syms[w] == s;
            assert(syms.drop_last()[w] == s);
        }
    }
}

proof fn lemma_has_code_concat(a: Seq<(u16, Seq<char>)>, b: Seq<(u16, Seq<char>)>, s: u16)
    ensures
        has_code(a + b, s) <==> has_code(a, s) || has_code(b, s),
{
    if has_code(a + b, s) {
        let i = choose|i: int| 0 <= i < (a + b).len() && (#[trigger] (a + b)[i]).0 == s;
        if i < a.len() {
            assert(a[i] == (a + b)[i]);
        } else {
            assert(b[i - a.len()] == (a + b)[i]);
        }
    }
    if has_code(a, s) {
        let i = choose|i: int| 0 <= i < a.len() && (#[trigger] a[i]).0 == s;
        assert((a + b)[i] == a[i]);
    }
    if has_code(b, s) {
        let i = choose|i: int| 0 <= i < b.len() && (#[trigger] b[i]).0 == s;
        assert((a + b)[a.len() + i] == b[i]);
    }
}

/// The code table of a tree covers exactly the tree's leaf symbols.
proof fn lemma_code_covers(node: HuffmanNode, prefix: Seq<char>, s: u16)
    ensures
        has_code(code_entries(node, prefix), s) <==> node.leaves().contains(s),
    decreases node,
{
    match node {
        HuffmanNode::Leaf { symbol, .. } => {
            if s == symbol {
                assert((#[trigger] code_entries(node, prefix)[0]).0 == s);
                assert(node.leaves()[0] == s);
            }
        },
        HuffmanNode::Internal { left, right, .. } => {
            lemma_code_covers(*left, prefix.push('0'), s);
            lemma_code_covers(*right, prefix.push('1'), s);
            lemma_has_code_concat(
                code_entries(*left, prefix.push('0')),
                code_entries(*right, prefix.push('1')),
                s,
            );
            let ll = left.leaves();
            let rl = right.leaves();
            if (ll + rl).contains(s) {
                let i = choose|i: int| 0 <= i < (ll + rl).len() && (ll + rl)[i] == s;
                if i < ll.len() {
                    assert(ll[i] == s);
                } else {
                    assert(rl[i - ll.len()] == s);
                }
            }
            if ll.contains(s) {
                let i = choose|i: int| 0 <= i < ll.len() && ll[i] == s;
                assert((ll + rl)[i] == s);
            }
            if rl.contains(s) {
                let i = choose|i: int| 0 <= i < rl.len() && rl[i] == s;
                assert((ll + rl)[ll.len() + i] == s);
            }
        },
    }
}

/// Every code a tree walk produces is at least one bit long.
proof fn lemma_codes_nonempty(node: HuffmanNode, prefix: Seq<char>)
    ensures
        forall|k: int|
            0 <= k < code_entries(node, prefix).len() ==> (#[trigger] code_entries(
                node,
                prefix,
            )[k]).1.len() >= 1,
    decreases node,
{
    match node {
        HuffmanNode::Leaf { .. } => {
        },
        HuffmanNode::Internal { left, right, .. } => {
            lemma_codes_nonempty(*left, prefix.push('0'));
            lemma_codes_nonempty(*right, prefix.push('1'));
            let a = code_entries(*left, prefix.push('0'));
            let b = code_entries(*right, prefix.push('1'));
            assert forall|k: int|
                0 <= k < code_entries(node, prefix).len() implies (#[trigger] code_entries(
                node,
                prefix,
            )[k]).1.len() >= 1 by {
                if k < a.len() {
                    assert((a + b)[k] == a[k]);
                } else {
                    assert((a + b)[k] == b[k - a.len()]);
                }
            }
        },
    }
}

/// `a` is an initial segment of `b`.
pub open spec fn is_prefix_of(a: Seq<char>, b: Seq<char>) -> bool {
    a.len() <= b.len() && b.take(a.len() as int) == a
}

/// The codes a tree walk under `prefix` produces all extend `prefix`,
/// and none of them is a prefix of another: the table is prefix-free.
proof fn lemma_codes_prefix_free(node: HuffmanNode, prefix: Seq<char>)
    ensures
        forall|k: int|
            0 <= k < code_entries(node, prefix).len() ==> is_prefix_of(
                prefix,
                (#[trigger] code_entries(node, prefix)[k]).1,
            ),
        forall|k1: int, k2: int|
            #![trigger code_entries(node, prefix)[k1], code_entries(node, prefix)[k2]]
            0 <= k1 < code_entries(node, prefix).len() && 0 <= k2 < code_entries(
                node,
                prefix,
            ).len() && k1 != k2 ==> !is_prefix_of(
                code_entries(node, prefix)[k1].1,
                code_entries(node, prefix)[k2].1,
            ),
    decreases node,
{
    let entries = code_entries(node, prefix);
    match node {
        HuffmanNode::Leaf { .. } => {
            assert forall|k: int|
                0 <= k < entries.len() implies is_prefix_of(
                prefix,
                (#[trigger] entries[k]).1,
            ) by {
                if prefix.len() == 0 {
                    assert(entries[k].1.take(0) =~= prefix);
                } else {
                    assert(entries[k].1.take(prefix.len() as int) =~= prefix);
                }
            }
        },
        HuffmanNode::Internal { left, right, .. } => {
            lemma_codes_prefix_free(*left, prefix.push('0'));
            lemma_codes_prefix_free(*right, prefix.push('1'));
            let a = code_entries(*left, prefix.push('0'));
            let b = code_entries(*right, prefix.push('1'));

            assert forall|k: int|
                0 <= k < entries.len() implies is_prefix_of(
                prefix,
                (#[trigger] entries[k]).1,
            ) by {
                let code = if k < a.len() {
                    assert(entries[k] == a[k]);
                    a[k].1
                } else {
                    assert(entries[k] == b[k - a.len()]);
                    b[k - a.len()].1
                };
                assert(code.take(prefix.len() as int + 1).take(prefix.len() as int) =~= code.take(
                    prefix.len() as int,
                ));
                assert(code.take(prefix.len() as int) =~= prefix);
            }

            assert forall|k1: int, k2: int|
                #![trigger entries[k1], entries[k2]]
                0 <= k1 < entries.len() && 0 <= k2 < entries.len() && k1 != k2 implies
                !is_prefix_of(entries[k1].1, entries[k2].1) by {
                if k1 < a.len() && k2 < a.len() {
                    assert(entries[k1] == a[k1] && entries[k2] == a[k2]);
                } else if k1 >= a.len() && k2 >= a.len() {
                    assert(entries[k1] == b[k1 - a.len()] && entries[k2] == b[k2 - a.len()]);
                } else {
                    let x = entries[k1].1;
                    let y = entries[k2].1;
                    let p = prefix.len() as int;
                    if k1 < a.len() {
                        assert(entries[k1] == a[k1] && entries[k2] == b[k2 - a.len()]);
                        assert(x.take(p + 1) == prefix.push('0'));
                        assert(y.take(p + 1) == prefix.push('1'));
                        if is_prefix_of(x, y) {
                            assert(x[p] == x.take(p + 1)[p]);
                            assert(y[p] == y.take(p + 1)[p]);
                            assert(y.take(x.len() as int)[p] == y[p]);
                        }
                    } else {
                        assert(entries[k1] == b[k1 - a.len()] && entries[k2] == a[k2]);
                        assert(x.take(p + 1) == prefix.push('1'));
                        assert(y.take(p + 1) == prefix.push('0'));
                        if is_prefix_of(x, y) {
                            assert(x[p] == x.take(p + 1)[p]);
                            assert(y[p] == y.take(p + 1)[p]);
                            assert(y.take(x.len() as int)[p] == y[p]);
                        }
                    }
                }
            }
        },
    }
}

/// Every reference token's length and distance leave room for the
/// symbol offsets.
pub open spec fn symbols_fit(tokens: Seq<Token>) -> bool {
    forall|t: int|
        0 <= t < tokens.len() ==> (#[trigger] tokens[t] matches Token::Reference {
            length,
            distance,
        } ==> length + 256 <= u16::MAX && distance + 512 <= u16::MAX)
}

/// Huffman-encodes a token stream: tallies its symbols, builds the
/// tree, walks it into a code table, and concatenates the codes of
/// the symbols in order.  Every symbol of the stream has a code in
/// the returned table.
pub fn huffman_encode(tokens: &Vec<Token>) -> (r: (String, Vec<(u16, String)>))
    requires
        tokens@.len() > 0,
        symbols_fit(tokens@),
    ensures
        r.0@ == encode_symbols(entry_views(r.1@), token_symbols(tokens@)),
        forall|s: u16| token_symbols(tokens@).contains(s) ==> has_code(entry_views(r.1@), s),
        forall|k: int| 0 <= k < r.1@.len() ==> (#[trigger] r.1@[k]).1@.len() >= 1,
        forall|k1: int, k2: int| #![trigger r.1@[k1], r.1@[k2]]
            0 <= k1 < r.1@.len() && 0 <= k2 < r.1@.len() && k1 != k2 ==> !is_prefix_of(
                r.1@[k1].1@,
                r.1@[k2].1@,
            ),
{
    let mut syms: Vec<u16> = Vec::new();
    let mut k: usize = 0;
    while k < tokens.len()
        invariant
            k <= tokens@.len(),
            symbols_fit(tokens@),
            syms@ == token_symbols(tokens@.take(k as int)),
        decreases tokens@.len() - k,
    {
        proof {
            assert(tokens@.take(k as int + 1).drop_last() =~= tokens@.take(k as int));
            assert(tokens@.take(k as int + 1).last() == tokens@[k as int]);
        }
        match tokens[k] {
            Token::Literal(b) => {
                syms.push(b as u16);
                proof {
                    assert(syms@ =~= token_symbols(tokens@.take(k as int + 1)));
                }
            },
            Token::Reference { length, distance } => {
                syms.push(256 + (length as u16));
                syms.push(512 + (distance as u16));
                proof {
                    assert(syms@ =~= token_symbols(tokens@.take(k as int + 1)));
                }
            },
        }
        k += 1;
    }

    proof {
        assert(tokens@.take(tokens@.len() as int) =~= tokens@);
        assert(token_symbols(tokens@).len() > 0);
    }

    let freqs = count_frequencies(&syms);
    let total = syms.len();
    proof {
        assert(table_total(freqs@) <= total <= usize::MAX);
    }

    let tree = match build_huffman_tree(&freqs) {
        Some(t) => t,
        None => {
            // impossible: a non-empty stream yields a non-empty table
            return (String::new(), Vec::new());
        },
    };

    let mut codes: Vec<(u16, String)> = Vec::new();
    generate_codes(&tree, String::new(), &mut codes);

    proof {
        assert(entry_views(codes@) =~~= code_entries(tree, Seq::<char>::empty()));
        lemma_codes_nonempty(tree, Seq::<char>::empty());
        lemma_codes_prefix_free(tree, Seq::<char>::empty());
        assert forall|k1: int, k2: int| #![trigger codes@[k1], codes@[k2]]
            0 <= k1 < codes@.len() && 0 <= k2 < codes@.len() && k1 != k2 implies !is_prefix_of(
            codes@[k1].1@,
            codes@[k2].1@,
        ) by {
            assert(entry_views(codes@)[k1] == (codes@[k1].0, codes@[k1].1@));
            assert(entry_views(codes@)[k2] == (codes@[k2].0, codes@[k2].1@));
            assert(!is_prefix_of(
                code_entries(tree, Seq::<char>::empty())[k1].1,
                code_entries(tree, Seq::<char>::empty())[k2].1,
            ));
        }
        assert forall|k: int|
            0 <= k < codes@.len() implies (#[trigger] codes@[k]).1@.len() >= 1 by {
            assert(entry_views(codes@)[k] == (codes@[k].0, codes@[k].1@));
        }
        assert forall|s: u16|
            token_symbols(tokens@).contains(s) implies has_code(entry_views(codes@), s) by {
            lemma_count_positive_iff_contains(syms@, s);
            assert(table_symbols(freqs@).contains(s));
            table_symbols(freqs@).to_multiset_ensures();
            tree.leaves().to_multiset_ensures();
            assert(tree.leaves().to_multiset().count(s) > 0);
            assert(tree.leaves().contains(s));
            lemma_code_covers(tree, Seq::<char>::empty(), s);
        }
    }

    let mut encoded = String::new();
    let mut k2: usize = 0;
    while k2 < tokens.len()
        invariant
            k2 <= tokens@.len(),
            symbols_fit(tokens@),
            encoded@ == encode_symbols(entry_views(codes@), token_symbols(tokens@.take(k2 as int))),
        decreases tokens@.len() - k2,
    {
        let ghost entries = entry_views(codes@);
        let ghost done = token_symbols(tokens@.take(k2 as int));
        proof {
            assert(tokens@.take(k2 as int + 1).drop_last() =~= tokens@.take(k2 as int));
            assert(tokens@.take(k2 as int + 1).last() == tokens@[k2 as int]);
        }
        match tokens[k2] {
            Token::Literal(b) => {
                let piece = find_code(&codes, b as u16);
                encoded.append(piece);
                proof {
                    assert(done.push(b as u16) =~= token_symbols(tokens@.take(k2 as int + 1)));
                    lemma_encode_push(entries, done, b as u16);
                }
            },
            Token::Reference { length, distance } => {
                let ls = 256 + (length as u16);
                let ds = 512 + (distance as u16);
                let piece = find_code(&codes, ls);
                encoded.append(piece);
                let piece2 = find_code(&codes, ds);
                encoded.append(piece2);
                proof {
                    assert(done.push(ls).push(ds) =~= token_symbols(
                        tokens@.take(k2 as int + 1),
                    ));
                    lemma_encode_push(entries, done, ls);
                    lemma_encode_push(entries, done.push(ls), ds);
                }
            },
        }
        k2 += 1;
    }

    proof {
        assert(tokens@.take(tokens@.len() as int) =~= tokens@);
    }

    (encoded, codes)
}

/// Compresses `data` with LZ77 followed by Huffman coding.  The token
/// stream decodes back to `data` exactly, and the bit string is the
/// concatenation of the code of every token symbol under the
/// returned table.
pub fn compress(data: &[u8]) -> (r: (String, Vec<(u16, String)>, Vec<Token>))
    requires
        data@.len() > 0,
    ensures
        decode(r.2@) == data@,
        tokens_well_formed(r.2@, WINDOW_SIZE as int, LOOKAHEAD_SIZE as int),
        emitted_len(r.2@) == data@.len(),
        forall|t: int|
            0 <= t < r.2@.len() ==> ((#[trigger] r.2@[t]) matches Token::Reference {
                distance,
                ..
            } ==> distance <= emitted_len(r.2@.take(t))),
        r.0@ == encode_symbols(entry_views(r.1@), token_symbols(r.2@)),
        forall|s: u16| token_symbols(r.2@).contains(s) ==> has_code(entry_views(r.1@), s),
        forall|k: int| 0 <= k < r.1@.len() ==> (#[trigger] r.1@[k]).1@.len() >= 1,
        forall|k1: int, k2: int| #![trigger r.1@[k1], r.1@[k2]]
            0 <= k1 < r.1@.len() && 0 <= k2 < r.1@.len() && k1 != k2 ==> !is_prefix_of(
                r.1@[k1].1@,
                r.1@[k2].1@,
            ),
{
    let tokens = lz77_compress(data, WINDOW_SIZE, LOOKAHEAD_SIZE);

    proof {
        if tokens@.len() == 0 {
            assert(decode(tokens@) =~= Seq::<u8>::empty());
        }
        assert forall|t: int|
            0 <= t < tokens@.len() implies (#[trigger] tokens@[t] matches Token::Reference {
            length,
            distance,
        } ==> length + 256 <= u16::MAX && distance + 512 <= u16::MAX) by {
            assert(tokens@[t] matches Token::Reference { length, distance } ==> 3 <= length
                <= LOOKAHEAD_SIZE && 1 <= distance <= WINDOW_SIZE);
        }
    }

    let (encoded, codes) = huffman_encode(&tokens);

    (encoded, codes, tokens)
}

/// LZ77 compression: greedily replaces repeats of at least three
/// bytes within the sliding window by back-references.  The token
/// stream is well formed and decodes to exactly the input.
pub fn lz77_compress(data: &[u8], window_size: usize, lookahead_size: usize) -> (tokens: Vec<
    Token,
>)
    ensures
        decode(tokens@) == data@,
        tokens_well_formed(tokens@, window_size as int, lookahead_size as int),
        emitted_len(tokens@) == data@.len(),
        data@.len() == 0 ==> tokens@.len() == 0,
        forall|t: int|
            0 <= t < tokens@.len() ==> ((#[trigger] tokens@[t]) matches Token::Reference {
                distance,
                ..
            } ==> distance <= emitted_len(tokens@.take(t))),
{
    let mut tokens: Vec<Token> = Vec::new();
    let mut pos: usize = 0;

    let n = data.len();

    while pos < n
        invariant
            pos <= n,
            n == data@.len(),
            decode(tokens@) == data@.subrange(0, pos as int),
            tokens_well_formed(tokens@, window_size as int, lookahead_size as int),
            emitted_len(tokens@) == pos,
            pos == 0 ==> tokens@.len() == 0,
            forall|t: int|
                0 <= t < tokens@.len() ==> ((#[trigger] tokens@[t]) matches Token::Reference {
                    distance,
                    ..
                } ==> distance <= emitted_len(tokens@.take(t))),
        decreases n - pos,
    {
        let mut best_length: usize = 0;
        let mut best_distance: usize = 0;

        let search_start = pos.saturating_sub(window_size);

        let mut i = search_start;
        while i < pos
            invariant
                search_start <= i <= pos < n,
                n == data@.len(),
                pos - search_start <= window_size,
                best_length == 0 ==> best_distance == 0,
                best_length > 0 ==> {
                    &&& 1 <= best_distance <= pos - search_start
                    &&& best_length <= lookahead_size
                    &&& pos + best_length <= n
                    &&& forall|k: int|
                        0 <= k < best_length ==> data@[pos - best_distance + k]
                            == #[trigger] data@[pos as int + k]
                },
            decreases pos - i,
        {
            let mut length: usize = 0;

            while length < lookahead_size && pos + length < n && data[i + length] == data[pos
                + length]
                invariant
                    search_start <= i < pos < n,
                    n == data@.len(),
                    length <= lookahead_size,
                    pos + length <= n,
                    forall|k: int| 0 <= k < length ==> data@[i + k] == #[trigger] data@[pos as int + k],
                decreases n - (pos + length),
            {
                length += 1;
            }

            if length > best_length {
                best_length = length;
                best_distance = pos - i;
            }

            i += 1;
        }

        if best_length >= 3 {
            let ghost before = tokens@;
            tokens.push(Token::Reference { length: best_length, distance: best_distance });
            proof {
                lemma_decode_push_reference(before, best_length, best_distance);
                lemma_extend_matches(
                    data@,
                    pos as int,
                    best_distance as int,
                    best_length as int,
                );
                assert(tokens@.drop_last() =~= before);
                assert forall|t: int|
                    0 <= t < tokens@.len() implies ((#[trigger] tokens@[t])
                    matches Token::Reference { distance, .. } ==> distance <= emitted_len(
                    tokens@.take(t),
                )) by {
                    if t < before.len() {
                        assert(tokens@[t] == before[t]);
                        assert(tokens@.take(t) =~= before.take(t));
                    } else {
                        assert(tokens@.take(t) =~= before);
                    }
                }
            }
            pos += best_length;
        } else {
            let ghost before = tokens@;
            let b = data[pos];
            tokens.push(Token::Literal(b));
            proof {
                lemma_decode_push_literal(before, b);
                assert(decode(tokens@) =~= data@.subrange(0, pos as int + 1));
                assert(tokens@.drop_last() =~= before);
                assert forall|t: int|
                    0 <= t < tokens@.len() implies ((#[trigger] tokens@[t])
                    matches Token::Reference { distance, .. } ==> distance <= emitted_len(
                    tokens@.take(t),
                )) by {
                    if t < before.len() {
                        assert(tokens@[t] == before[t]);
                        assert(tokens@.take(t) =~= before.take(t));
                    } else {
                        assert(tokens@.take(t) =~= before);
                    }
                }
            }
            pos += 1;
        }
    }

    proof {
        assert(data@.subrange(0, n as int) =~= data@);
    }

    tokens
}

} // verus!
