//! Range scans: the entries of a table within two bounds, in order, one
//! block decoded at a time.

use crate::entry::{entries_view, entry_le, sorted, Entry, EntryView};
use crate::key::{key_le, key_lt, lemma_key_le_transitive, lemma_key_trichotomy, KeyBytes, KeyView};
use crate::layout::{
    block_start, lemma_block_facts, lemma_block_start, lemma_flat_index, lemma_table_sorted,
};
use crate::table::{block_entries, table_blocks, table_entries, SsTable, TableView};
use vstd::prelude::*;

verus! {

/// One end of a key range.
#[derive(Debug)]
pub enum KeyBound {
    /// The range has no limit at this end.
    Unbounded,
    /// The range reaches this key and holds it.
    Included(KeyBytes),
    /// The range reaches this key and leaves it out.
    Excluded(KeyBytes),
}

/// The mathematical value of a bound.
pub enum BoundView {
    Unbounded,
    Included(KeyView),
    Excluded(KeyView),
}

impl View for KeyBound {
    type V = BoundView;

    open spec fn view(&self) -> BoundView {
        match self {
            KeyBound::Unbounded => BoundView::Unbounded,
            KeyBound::Included(k) => BoundView::Included(k@),
            KeyBound::Excluded(k) => BoundView::Excluded(k@),
        }
    }
}

/// `k` is not below the lower bound.
pub open spec fn key_above(k: KeyView, lower: BoundView) -> bool {
    match lower {
        BoundView::Unbounded => true,
        BoundView::Included(b) => key_le(b, k),
        BoundView::Excluded(b) => key_lt(b, k),
    }
}

/// `k` is not above the upper bound.
pub open spec fn key_below(k: KeyView, upper: BoundView) -> bool {
    match upper {
        BoundView::Unbounded => true,
        BoundView::Included(b) => key_le(k, b),
        BoundView::Excluded(b) => key_lt(k, b),
    }
}

/// The key of `e` is not below the lower bound.
pub open spec fn above_lower(e: EntryView, lower: BoundView) -> bool {
    key_above(e.key, lower)
}

/// The key of `e` is not above the upper bound.
pub open spec fn below_upper(e: EntryView, upper: BoundView) -> bool {
    key_below(e.key, upper)
}

/// The key of `e` lies within both bounds.
pub open spec fn in_range(e: EntryView, lower: BoundView, upper: BoundView) -> bool {
    above_lower(e, lower) && below_upper(e, upper)
}

/// The entries of `es` within the bounds are exactly those at the positions
/// from `a` up to `b`.
pub open spec fn is_range_of(
    es: Seq<EntryView>,
    lower: BoundView,
    upper: BoundView,
    a: int,
    b: int,
) -> bool {
    &&& 0 <= a <= b <= es.len()
    &&& forall|i: int|
        0 <= i < es.len() ==> (#[trigger] in_range(es[i], lower, upper) <==> a <= i < b)
}

/// Exactly the entries from position `a` on are not below the lower bound.
pub open spec fn is_lower_start(es: Seq<EntryView>, lower: BoundView, a: int) -> bool {
    &&& 0 <= a <= es.len()
    &&& forall|i: int| 0 <= i < es.len() ==> (#[trigger] above_lower(es[i], lower) <==> a <= i)
}

/// Exactly the entries before position `b` are not above the upper bound.
pub open spec fn is_upper_end(es: Seq<EntryView>, upper: BoundView, b: int) -> bool {
    &&& 0 <= b <= es.len()
    &&& forall|i: int| 0 <= i < es.len() ==> (#[trigger] below_upper(es[i], upper) <==> i < b)
}

/// The number of entries of a sorted run that are not above the upper
/// bound.
pub open spec fn upper_end(es: Seq<EntryView>, upper: BoundView) -> int
    decreases es.len(),
{
    if es.len() == 0 {
        0
    } else if below_upper(es.last(), upper) {
        es.len() as int
    } else {
        upper_end(es.drop_last(), upper)
    }
}

/// What is not below a lower bound stays so for larger keys, and what is not
/// above an upper bound stays so for smaller keys.
pub proof fn lemma_bounds_monotone(x: KeyView, y: KeyView, bound: BoundView)
    requires
        key_le(x, y),
    ensures
        key_above(x, bound) ==> key_above(y, bound),
        key_below(y, bound) ==> key_below(x, bound),
{
    match bound {
        BoundView::Unbounded => {},
        BoundView::Included(b) => {
            if key_le(b, x) {
                lemma_key_le_transitive(b, x, y);
            }
            if key_le(y, b) {
                lemma_key_le_transitive(x, y, b);
            }
        },
        BoundView::Excluded(b) => {
            if key_lt(b, x) {
                lemma_key_le_transitive(b, x, y);
            }
            if key_lt(y, b) {
                lemma_key_le_transitive(x, y, b);
            }
        },
    }
}

/// In a sorted run `upper_end` is the position at which the upper bound
/// cuts.
pub proof fn lemma_upper_end(es: Seq<EntryView>, upper: BoundView)
    requires
        sorted(es),
    ensures
        is_upper_end(es, upper, upper_end(es, upper)),
    decreases es.len(),
{
    if es.len() > 0 {
        let front = es.drop_last();
        if below_upper(es.last(), upper) {
            assert forall|i: int| 0 <= i < es.len() implies #[trigger] below_upper(
                es[i],
                upper,
            ) by {
                if i < es.len() - 1 {
                    assert(entry_le(es[i], es[es.len() - 1]));
                    lemma_bounds_monotone(es[i].key, es.last().key, upper);
                }
            }
        } else {
            assert forall|i: int, j: int| 0 <= i < j < front.len() implies #[trigger] entry_le(
                front[i],
                front[j],
            ) by {
                assert(entry_le(es[i], es[j]));
            }
            lemma_upper_end(front, upper);
            assert forall|i: int| 0 <= i < es.len() implies (#[trigger] below_upper(es[i], upper)
                <==> i < upper_end(es, upper)) by {
                if i < front.len() {
                    assert(below_upper(front[i], upper) <==> i < upper_end(front, upper));
                }
            }
        }
    }
}

/// In a sorted run a position is where the lower bound cuts as soon as the
/// entry before it is below the bound and the entry at it is not.
pub proof fn lemma_lower_start_from_neighbours(es: Seq<EntryView>, lower: BoundView, a: int)
    requires
        sorted(es),
        0 <= a <= es.len(),
        a > 0 ==> !above_lower(es[a - 1], lower),
        a < es.len() ==> above_lower(es[a], lower),
    ensures
        is_lower_start(es, lower, a),
{
    assert forall|i: int| 0 <= i < es.len() implies (#[trigger] above_lower(es[i], lower) <==> a
        <= i) by {
        if i < a {
            if i < a - 1 {
                assert(entry_le(es[i], es[a - 1]));
            }
            lemma_bounds_monotone(es[i].key, es[a - 1].key, lower);
        } else {
            if a < i {
                assert(entry_le(es[a], es[i]));
            }
            lemma_bounds_monotone(es[a].key, es[i].key, lower);
        }
    }
}

/// Where the lower bound cuts and where the upper bound cuts, the entries
/// within both bounds lie between.
pub proof fn lemma_range_from_cuts(
    es: Seq<EntryView>,
    lower: BoundView,
    upper: BoundView,
    a: int,
    b: int,
)
    requires
        is_lower_start(es, lower, a),
        is_upper_end(es, upper, b),
    ensures
        is_range_of(es, lower, upper, a, if a <= b { b } else { a }),
{
    assert forall|i: int| 0 <= i < es.len() implies (#[trigger] in_range(es[i], lower, upper)
        <==> a <= i < b) by {
        assert(above_lower(es[i], lower) <==> a <= i);
        assert(below_upper(es[i], upper) <==> i < b);
    }
}

/// The entries within two bounds are determined: whatever positions
/// delimit them, they are the same run.
pub proof fn lemma_range_unique(
    es: Seq<EntryView>,
    lower: BoundView,
    upper: BoundView,
    a: int,
    b: int,
    c: int,
    d: int,
)
    requires
        is_range_of(es, lower, upper, a, b),
        is_range_of(es, lower, upper, c, d),
    ensures
        es.subrange(a, b) == es.subrange(c, d),
{
    if a < b {
        assert(in_range(es[a], lower, upper));
        assert(in_range(es[b - 1], lower, upper));
    }
    if c < d {
        assert(in_range(es[c], lower, upper));
        assert(in_range(es[d - 1], lower, upper));
    }
}

/// Of a table with an entry, the range without bounds is the whole table.
pub proof fn lemma_full_range(es: Seq<EntryView>, a: int, b: int)
    requires
        is_range_of(es, BoundView::Unbounded, BoundView::Unbounded, a, b),
    ensures
        es.subrange(a, b) == es,
{
    if es.len() > 0 {
        assert(in_range(es[0], BoundView::Unbounded, BoundView::Unbounded));
        assert(in_range(es[es.len() - 1], BoundView::Unbounded, BoundView::Unbounded));
    }
}

impl KeyBound {
    /// Whether `key` is not below this bound, taken as a lower bound.
    pub fn covers_from(&self, key: &KeyBytes) -> (r: bool)
        ensures
            r == key_above(key@, self@),
    {
        match self {
            KeyBound::Unbounded => true,
            KeyBound::Included(b) => *b <= *key,
            KeyBound::Excluded(b) => *b < *key,
        }
    }

    /// Whether `key` is not above this bound, taken as an upper bound.
    pub fn covers_upto(&self, key: &KeyBytes) -> (r: bool)
        ensures
            r == key_below(key@, self@),
    {
        match self {
            KeyBound::Unbounded => true,
            KeyBound::Included(b) => *key <= *b,
            KeyBound::Excluded(b) => *key < *b,
        }
    }
}

/// A cursor over the entries of a table within two bounds. It holds one
/// decoded block at a time.
pub struct TableIter<'a> {
    table: &'a SsTable,
    upper: KeyBound,
    block_idx: usize,
    block: Vec<Entry>,
    cursor: usize,
    end: Ghost<int>,
}

impl<'a> TableIter<'a> {
    /// The table that the cursor runs over.
    pub closed spec fn source(&self) -> TableView {
        self.table@
    }

    /// The position of the cursor in the run of all entries.
    spec fn position(&self) -> int {
        block_start(table_blocks(self.table@), self.block_idx as int) + self.cursor
    }

    /// The cursor is in order: it stands in a block of a well-formed table
    /// and holds that block decoded.
    pub closed spec fn wf(&self) -> bool {
        &&& self.table.wf()
        &&& self.block_idx < self.table@.index.len()
        &&& entries_view(self.block@) == block_entries(self.table@, self.block_idx as int)
        &&& self.cursor <= self.block@.len()
        &&& is_upper_end(table_entries(self.table@), self.upper@, self.end@)
    }

    /// The entries that the cursor has yet to yield, in order.
    pub closed spec fn remaining(&self) -> Seq<EntryView> {
        if self.position() < self.end@ {
            table_entries(self.table@).subrange(self.position(), self.end@)
        } else {
            Seq::empty()
        }
    }

    /// Yields the next entry within the bounds, or `None` when there is no
    /// more.
    pub fn next(&mut self) -> (r: Option<Entry>)
        requires
            old(self).wf(),
        ensures
            final(self).wf(),
            final(self).source() == old(self).source(),
            match r {
                Some(e) => {
                    &&& old(self).remaining().len() > 0
                    &&& e@ == old(self).remaining()[0]
                    &&& final(self).remaining() == old(self).remaining().skip(1)
                },
                None => old(self).remaining().len() == 0 && final(self).remaining() == old(
                    self,
                ).remaining(),
            },
    {
        let ghost v = self.table@;
        let ghost blocks = table_blocks(v);
        let ghost es = table_entries(v);
        proof {
            lemma_block_facts(v, self.block_idx as int);
            lemma_block_start(blocks, self.block_idx as int);
        }
        let n = self.table.num_blocks();
        if self.cursor == self.block.len() {
            if self.block_idx + 1 >= n {
                return None;
            }
            self.block = self.table.load_block(self.block_idx + 1);
            self.block_idx = self.block_idx + 1;
            self.cursor = 0;
            proof {
                lemma_block_facts(v, self.block_idx as int);
                lemma_block_start(blocks, self.block_idx as int);
            }
        }
        assert(self.position() == old(self).position());
        let entry = &self.block[self.cursor];
        proof {
            lemma_flat_index(blocks, self.block_idx as int, self.cursor as int);
            assert(entry@ == entries_view(self.block@)[self.cursor as int]);
            assert(entry@ == es[self.position()]);
            assert(below_upper(es[self.position()], self.upper@) <==> self.position() < self.end@);
        }
        if !self.upper.covers_upto(&entry.key) {
            return None;
        }
        let out = entry.clone();
        self.cursor = self.cursor + 1;
        assert(self.remaining() =~= old(self).remaining().skip(1));
        Some(out)
    }

    /// Yields all the entries that remain.
    pub fn collect(self) -> (out: Vec<Entry>)
        requires
            self.wf(),
        ensures
            entries_view(out@) == self.remaining(),
    {
        let mut it = self;
        let mut out: Vec<Entry> = Vec::new();
        assert(entries_view(out@) + it.remaining() =~= self.remaining());
        loop
            invariant
                it.wf(),
                entries_view(out@) + it.remaining() == self.remaining(),
            ensures
                entries_view(out@) == self.remaining(),
            decreases it.remaining().len(),
        {
            let ghost before = it.remaining();
            let ghost got = entries_view(out@);
            match it.next() {
                None => {
                    assert(got + before =~= got);
                    break ;
                },
                Some(e) => {
                    out.push(e);
                    assert(entries_view(out@) =~= got.push(e@));
                    assert(got.push(e@) + before.skip(1) =~= got + before);
                },
            }
        }
        out
    }
}

impl SsTable {
    /// A cursor over the entries whose keys lie within the two bounds, in
    /// table order. Each call scans anew from the lower bound.
    pub fn scan(&self, lower: KeyBound, upper: KeyBound) -> (it: TableIter<'_>)
        requires
            self.wf(),
        ensures
            it.wf(),
            it.source() == self@,
            exists|a: int, b: int|
                #[trigger] is_range_of(self.entries(), lower@, upper@, a, b) && it.remaining()
                    == self.entries().subrange(a, b),
            lower@ is Unbounded && upper@ is Unbounded ==> it.remaining() == self.entries(),
    {
        let ghost v = self@;
        let ghost blocks = table_blocks(v);
        let ghost es = table_entries(v);
        proof {
            lemma_table_sorted(v);
            lemma_upper_end(es, upper@);
        }
        let found = match &lower {
            KeyBound::Unbounded => None,
            KeyBound::Included(k) => self.meta().block_metas.find_block_index(&k.to_key_slice()),
            KeyBound::Excluded(k) => self.meta().block_metas.find_block_index(&k.to_key_slice()),
        };
        let block_idx = match found {
            Some(b) => b,
            None => 0,
        };
        let block = self.load_block(block_idx);
        let ghost bview = entries_view(block@);
        proof {
            lemma_block_facts(v, block_idx as int);
            lemma_block_start(blocks, block_idx as int);
        }
        let mut cursor: usize = 0;
        while cursor < block.len() && !lower.covers_from(&block[cursor].key)
            invariant
                cursor <= block@.len(),
                bview == entries_view(block@),
                forall|j: int| 0 <= j < cursor ==> !#[trigger] above_lower(bview[j], lower@),
            decreases block@.len() - cursor,
        {
            cursor = cursor + 1;
        }
        let ghost a = block_start(blocks, block_idx as int) + cursor;
        let ghost end = upper_end(es, upper@);
        proof {
            if cursor < block.len() {
                lemma_flat_index(blocks, block_idx as int, cursor as int);
            } else if block_idx + 1 < v.index.len() {
                lemma_block_facts(v, block_idx + 1);
                lemma_flat_index(blocks, block_idx + 1, 0);
                assert(!above_lower(bview[0], lower@));
                match lower@ {
                    BoundView::Unbounded => {},
                    BoundView::Included(k) => {
                        lemma_key_trichotomy(k, v.index[0].first_key);
                    },
                    BoundView::Excluded(k) => {
                        lemma_key_trichotomy(k, v.index[0].first_key);
                    },
                }
            }
            if cursor > 0 {
                lemma_flat_index(blocks, block_idx as int, cursor - 1);
            } else if block_idx > 0 {
                lemma_block_facts(v, block_idx - 1);
                lemma_block_start(blocks, block_idx - 1);
                lemma_flat_index(
                    blocks,
                    block_idx - 1,
                    block_entries(v, block_idx - 1).len() - 1,
                );
                let before = block_entries(v, block_idx - 1).last().key;
                let first = v.index[block_idx as int].first_key;
                match lower@ {
                    BoundView::Unbounded => {},
                    BoundView::Included(k) => {
                        lemma_key_le_transitive(before, first, k);
                        lemma_key_trichotomy(before, k);
                    },
                    BoundView::Excluded(k) => {
                        lemma_key_le_transitive(before, first, k);
                        lemma_key_trichotomy(before, k);
                    },
                }
            }
            lemma_lower_start_from_neighbours(es, lower@, a);
            lemma_range_from_cuts(es, lower@, upper@, a, end);
        }
        let it = TableIter { table: self, upper, block_idx, block, cursor, end: Ghost(end) };
        proof {
            let b = if a <= end {
                end
            } else {
                a
            };
            if lower@ is Unbounded && upper@ is Unbounded {
                lemma_full_range(es, a, b);
            }
            assert(is_range_of(self.entries(), lower@, upper@, a, b) && it.remaining()
                == self.entries().subrange(a, b));
        }
        it
    }
}

} // verus!
