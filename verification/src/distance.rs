use crate::fixed::{magnitude, ONE};
use crate::network::{Network, NetworkView};
use vstd::prelude::*;

verus! {

/// The sum of `term(row, j)` over the columns `j` below `columns`.
pub open spec fn row_sum(term: spec_fn(int, int) -> int, row: int, columns: int) -> int
    decreases columns,
{
    if columns <= 0 {
        0
    } else {
        row_sum(term, row, columns - 1) + term(row, columns - 1)
    }
}

/// The sum of `term(k, j)` over the rows `k` below `rows` and the columns `j`
/// below `columns`.
pub open spec fn grid_sum(term: spec_fn(int, int) -> int, rows: int, columns: int) -> int
    decreases rows,
{
    if rows <= 0 {
        0
    } else {
        grid_sum(term, rows - 1, columns) + row_sum(term, rows - 1, columns)
    }
}

impl NetworkView {
    /// The largest innovation id among the first `upto` links, or -1 where
    /// there is none.
    pub open spec fn newest_among(self, upto: int) -> int
        decreases upto,
    {
        if upto <= 0 {
            -1
        } else {
            let before = self.newest_among(upto - 1);
            if self.links[upto - 1].inno_number > before {
                self.links[upto - 1].inno_number as int
            } else {
                before
            }
        }
    }

    /// The largest innovation id of the genome, or -1 where it has no link.
    pub open spec fn newest(self) -> int {
        self.newest_among(self.links.len() as int)
    }

    /// Link `k` of this genome and link `j` of `other` carry the same
    /// innovation id.
    pub open spec fn matches_link(self, other: NetworkView, k: int, j: int) -> bool {
        self.links[k].inno_number == other.links[j].inno_number
    }

    /// Some link of the genome carries the innovation id `id`.
    pub open spec fn carries(self, id: u32) -> bool {
        exists|j: int| 0 <= j < self.links.len() && (#[trigger] self.links[j]).inno_number == id
    }

    /// Link `k` of this genome has the innovation id of some link of `other`.
    pub open spec fn shares(self, other: NetworkView, k: int) -> bool {
        other.carries(self.links[k].inno_number)
    }

    /// Link `k` is newer than everything in `other`.
    pub open spec fn is_excess(self, other: NetworkView, k: int) -> bool {
        self.links[k].inno_number > other.newest()
    }

    /// Link `k` is missing from `other` though `other` has links as new.
    pub open spec fn is_disjoint(self, other: NetworkView, k: int) -> bool {
        self.links[k].inno_number <= other.newest() && !self.shares(other, k)
    }

    /// How many of the first `upto` links are newer than everything in
    /// `other`.
    pub open spec fn excess_among(self, other: NetworkView, upto: int) -> int
        decreases upto,
    {
        if upto <= 0 {
            0
        } else {
            self.excess_among(other, upto - 1) + if self.is_excess(other, upto - 1) {
                1int
            } else {
                0int
            }
        }
    }

    /// How many of the first `upto` links are missing from `other` without
    /// being newer than everything in it.
    pub open spec fn disjoint_among(self, other: NetworkView, upto: int) -> int
        decreases upto,
    {
        if upto <= 0 {
            0
        } else {
            self.disjoint_among(other, upto - 1) + if self.is_disjoint(other, upto - 1) {
                1int
            } else {
                0int
            }
        }
    }

    /// 1 where link `k` of this genome matches link `j` of `other`, else 0.
    pub open spec fn pair_term(self, other: NetworkView, k: int, j: int) -> int {
        if self.matches_link(other, k, j) {
            1
        } else {
            0
        }
    }

    /// The distance between the weights of link `k` of this genome and link
    /// `j` of `other` where the two match, else 0.
    pub open spec fn gap_term(self, other: NetworkView, k: int, j: int) -> int {
        if self.matches_link(other, k, j) {
            magnitude(self.links[k].weight - other.links[j].weight)
        } else {
            0
        }
    }

    /// The number of pairs of matching links, one from each genome.
    pub open spec fn matching(self, other: NetworkView) -> int {
        grid_sum(
            |k: int, j: int| self.pair_term(other, k, j),
            self.links.len() as int,
            other.links.len() as int,
        )
    }

    /// The sum of the weight distances over all pairs of matching links.
    pub open spec fn weight_gap(self, other: NetworkView) -> int {
        grid_sum(
            |k: int, j: int| self.gap_term(other, k, j),
            self.links.len() as int,
            other.links.len() as int,
        )
    }

    /// No two links of the genome carry the same innovation id.
    pub open spec fn distinct_ids(self) -> bool {
        forall|k: int, j: int|
            0 <= k < self.links.len() && 0 <= j < self.links.len() && k != j
                ==> !#[trigger] self.matches_link(
                self,
                k,
                j,
            )
    }
}

/// The number of links of the larger of two genomes, and 1 where neither has
/// a link.
pub open spec fn larger_size(a: NetworkView, b: NetworkView) -> int {
    if a.links.len() == 0 && b.links.len() == 0 {
        1
    } else if a.links.len() >= b.links.len() {
        a.links.len() as int
    } else {
        b.links.len() as int
    }
}

/// The number of links that one of the two genomes has and that are newer
/// than all links of the other.
pub open spec fn excess(a: NetworkView, b: NetworkView) -> int {
    a.excess_among(b, a.links.len() as int) + b.excess_among(a, b.links.len() as int)
}

/// The number of links that one of the two genomes has, that the other lacks
/// and that are not newer than all links of the other.
pub open spec fn disjoint(a: NetworkView, b: NetworkView) -> int {
    a.disjoint_among(b, a.links.len() as int) + b.disjoint_among(a, b.links.len() as int)
}

/// The mean distance between the weights of matching links, and 0 where no
/// links match.
pub open spec fn average_weight_gap(a: NetworkView, b: NetworkView) -> int {
    if a.matching(b) == 0 {
        0
    } else {
        a.weight_gap(b) / a.matching(b)
    }
}

/// The compatibility distance of two genomes:
/// `c1 * excess / n + c2 * disjoint / n + c3 * average weight gap`, where `n`
/// is the size of the larger genome. The coefficients and the result are
/// fixed-point numbers.
pub open spec fn compatibility(a: NetworkView, b: NetworkView, c1: int, c2: int, c3: int) -> int {
    c1 * excess(a, b) / larger_size(a, b) + c2 * disjoint(a, b) / larger_size(a, b) + c3
        * average_weight_gap(a, b) / (ONE as int)
}

/// Adding up row by row gives what adding up column by column gives.
pub proof fn lemma_grid_transpose(
    term: spec_fn(int, int) -> int,
    flipped: spec_fn(int, int) -> int,
    rows: int,
    columns: int,
)
    requires
        forall|k: int, j: int| #[trigger] flipped(j, k) == term(k, j),
    ensures
        grid_sum(term, rows, columns) == grid_sum(flipped, columns, rows),
    decreases rows,
{
    if rows <= 0 {
        lemma_grid_no_columns(flipped, columns, rows);
    } else {
        lemma_grid_transpose(term, flipped, rows - 1, columns);
        lemma_grid_next_column(flipped, term, columns, rows - 1);
    }
}

/// A grid without columns adds up to nothing.
proof fn lemma_grid_no_columns(term: spec_fn(int, int) -> int, rows: int, columns: int)
    requires
        columns <= 0,
    ensures
        grid_sum(term, rows, columns) == 0,
    decreases rows,
{
    if rows > 0 {
        lemma_grid_no_columns(term, rows - 1, columns);
    }
}

/// One more column adds the sum of that column, which is a row of the
/// flipped grid.
proof fn lemma_grid_next_column(
    term: spec_fn(int, int) -> int,
    flipped: spec_fn(int, int) -> int,
    rows: int,
    column: int,
)
    requires
        forall|k: int, j: int| #[trigger] flipped(j, k) == term(k, j),
        column >= 0,
    ensures
        grid_sum(term, rows, column + 1) == grid_sum(term, rows, column) + row_sum(
            flipped,
            column,
            rows,
        ),
    decreases rows,
{
    if rows > 0 {
        lemma_grid_next_column(term, flipped, rows - 1, column);
        assert(flipped(column, rows - 1) == term(rows - 1, column));
    }
}

/// The number of matching pairs and the sum of their weight distances do not
/// depend on which genome is named first.
pub proof fn lemma_matching_symmetric(a: NetworkView, b: NetworkView)
    ensures
        a.matching(b) == b.matching(a),
        a.weight_gap(b) == b.weight_gap(a),
{
    lemma_grid_transpose(
        |k: int, j: int| a.pair_term(b, k, j),
        |k: int, j: int| b.pair_term(a, k, j),
        a.links.len() as int,
        b.links.len() as int,
    );
    lemma_grid_transpose(
        |k: int, j: int| a.gap_term(b, k, j),
        |k: int, j: int| b.gap_term(a, k, j),
        a.links.len() as int,
        b.links.len() as int,
    );
}

/// The compatibility distance is symmetric.
pub proof fn lemma_compatibility_symmetric(
    a: NetworkView,
    b: NetworkView,
    c1: int,
    c2: int,
    c3: int,
)
    ensures
        compatibility(a, b, c1, c2, c3) == compatibility(b, a, c1, c2, c3),
{
    lemma_matching_symmetric(a, b);
}

/// No link is newer than the newest.
pub proof fn lemma_newest_bounds(net: NetworkView, upto: int, k: int)
    requires
        0 <= k < upto,
    ensures
        net.links[k].inno_number <= net.newest_among(upto),
    decreases upto,
{
    if k < upto - 1 {
        lemma_newest_bounds(net, upto - 1, k);
    }
}

/// The newest innovation id is an id, or -1.
pub proof fn lemma_newest_range(net: NetworkView, upto: int)
    ensures
        -1 <= net.newest_among(upto) <= u32::MAX,
    decreases upto,
{
    if upto > 0 {
        lemma_newest_range(net, upto - 1);
    }
}

/// A grid of zeros adds up to zero.
pub proof fn lemma_grid_zero(term: spec_fn(int, int) -> int, rows: int, columns: int)
    requires
        forall|k: int, j: int| 0 <= k < rows && 0 <= j < columns ==> #[trigger] term(k, j) == 0,
    ensures
        grid_sum(term, rows, columns) == 0,
    decreases rows,
{
    if rows > 0 {
        lemma_grid_zero(term, rows - 1, columns);
        lemma_row_zero(term, rows - 1, columns);
    }
}

/// A row of zeros adds up to zero.
proof fn lemma_row_zero(term: spec_fn(int, int) -> int, row: int, columns: int)
    requires
        forall|j: int| 0 <= j < columns ==> #[trigger] term(row, j) == 0,
    ensures
        row_sum(term, row, columns) == 0,
    decreases columns,
{
    if columns > 0 {
        lemma_row_zero(term, row, columns - 1);
    }
}

/// Against itself a genome has no excess and no disjoint links.
proof fn lemma_self_has_no_lone_links(net: NetworkView, upto: int)
    requires
        upto <= net.links.len(),
    ensures
        net.excess_among(net, upto) == 0,
        net.disjoint_among(net, upto) == 0,
    decreases upto,
{
    if upto > 0 {
        lemma_self_has_no_lone_links(net, upto - 1);
        lemma_newest_bounds(net, net.links.len() as int, upto - 1);
        assert(net.links[upto - 1].inno_number == net.links[upto - 1].inno_number);
        assert(net.carries(net.links[upto - 1].inno_number));
    }
}

/// Links with ascending innovation ids carry no id twice.
pub proof fn lemma_ascending_distinct(net: NetworkView)
    requires
        net.ids_ascend(),
    ensures
        net.distinct_ids(),
{
    assert forall|k: int, j: int|
        0 <= k < net.links.len() && 0 <= j < net.links.len() && k != j
            implies !#[trigger] net.matches_link(
        net,
        k,
        j,
    ) by {
        if k < j {
            assert(net.links[k].inno_number < net.links[j].inno_number);
        } else {
            assert(net.links[j].inno_number < net.links[k].inno_number);
        }
    }
}

/// The compatibility distance looks at the links of the two genomes alone.
pub proof fn lemma_same_links_same_distance(
    a: NetworkView,
    b: NetworkView,
    c1: int,
    c2: int,
    c3: int,
)
    requires
        a.links == b.links,
    ensures
        compatibility(a, b, c1, c2, c3) == compatibility(a, a, c1, c2, c3),
{
    lemma_distance_by_links(a, b, a, a.links.len() as int);
    assert((|k: int, j: int| a.pair_term(b, k, j)) =~= (|k: int, j: int| a.pair_term(a, k, j)));
    assert((|k: int, j: int| a.gap_term(b, k, j)) =~= (|k: int, j: int| a.gap_term(a, k, j)));
}

/// The newest innovation id depends on the links alone.
proof fn lemma_newest_by_links(a: NetworkView, b: NetworkView, upto: int)
    requires
        a.links == b.links,
    ensures
        a.newest_among(upto) == b.newest_among(upto),
    decreases upto,
{
    if upto > 0 {
        lemma_newest_by_links(a, b, upto - 1);
    }
}

/// The counts of excess and disjoint links depend on the links of the two
/// genomes alone.
proof fn lemma_distance_by_links(net: NetworkView, other: NetworkView, twin: NetworkView, upto: int)
    requires
        other.links == twin.links,
    ensures
        net.excess_among(other, upto) == net.excess_among(twin, upto),
        net.disjoint_among(other, upto) == net.disjoint_among(twin, upto),
        other.excess_among(net, upto) == twin.excess_among(net, upto),
        other.disjoint_among(net, upto) == twin.disjoint_among(net, upto),
    decreases upto,
{
    lemma_newest_by_links(other, twin, other.links.len() as int);
    if upto > 0 {
        lemma_distance_by_links(net, other, twin, upto - 1);
        let id = net.links[upto - 1].inno_number;
        if other.carries(id) {
            let j = choose|j: int|
                0 <= j < other.links.len() && (#[trigger] other.links[j]).inno_number == id;
            assert(twin.links[j].inno_number == id);
        }
        if twin.carries(id) {
            let j = choose|j: int|
                0 <= j < twin.links.len() && (#[trigger] twin.links[j]).inno_number == id;
            assert(other.links[j].inno_number == id);
        }
    }
}

/// The compatibility distance of a genome with itself is zero, provided that
/// no two of its links carry the same innovation id.
pub proof fn lemma_compatibility_self(net: NetworkView, c1: int, c2: int, c3: int)
    requires
        net.distinct_ids(),
    ensures
        compatibility(net, net, c1, c2, c3) == 0,
{
    lemma_self_has_no_lone_links(net, net.links.len() as int);
    let gaps = |k: int, j: int| net.gap_term(net, k, j);
    assert forall|k: int, j: int|
        0 <= k < net.links.len() && 0 <= j < net.links.len() implies #[trigger] gaps(k, j)
        == 0 by {
        if k != j {
            assert(!net.matches_link(net, k, j));
        }
    }
    lemma_grid_zero(gaps, net.links.len() as int, net.links.len() as int);
    assert(net.weight_gap(net) == 0);
    if net.matching(net) != 0 {
        vstd::arithmetic::div_mod::lemma_div_of0(net.matching(net));
    }
    assert(average_weight_gap(net, net) == 0);
    assert(c1 * 0 == 0 && c2 * 0 == 0 && c3 * 0 == 0) by (nonlinear_arith);
    vstd::arithmetic::div_mod::lemma_div_of0(larger_size(net, net));
}

impl Network {
    /// The largest innovation id among the links, or -1 where there is no
    /// link.
    pub fn newest_innovation(&self) -> (newest: i64)
        ensures
            newest == self@.newest(),
            -1 <= newest <= u32::MAX,
    {
        let mut newest: i64 = -1;
        let mut k: usize = 0;
        while k < self.links.len()
            invariant
                k <= self.links.len(),
                newest == self@.newest_among(k as int),
                -1 <= newest <= u32::MAX,
            decreases self.links.len() - k,
        {
            if self.links[k].inno_number as i64 > newest {
                newest = self.links[k].inno_number as i64;
            }
            k = k + 1;
        }
        newest
    }

    /// Whether some link carries the innovation id `id`.
    pub fn has_innovation(&self, id: u32) -> (found: bool)
        ensures
            found == self@.carries(id),
    {
        let mut j: usize = 0;
        while j < self.links.len()
            invariant
                j <= self.links.len(),
                forall|i: int| 0 <= i < j ==> (#[trigger] self@.links[i]).inno_number != id,
            decreases self.links.len() - j,
        {
            if self.links[j].inno_number == id {
                assert(self@.links[j as int].inno_number == id);
                return true;
            }
            j = j + 1;
        }
        false
    }

    /// Counts the links that `other` lacks: first those newer than
    /// everything in `other`, then the others.
    pub fn lone_links(&self, other: &Network) -> (counts: (usize, usize))
        ensures
            counts.0 == self@.excess_among(other@, self@.links.len() as int),
            counts.1 == self@.disjoint_among(other@, self@.links.len() as int),
            counts.0 + counts.1 <= self@.links.len(),
    {
        let limit = other.newest_innovation();
        let mut excess: usize = 0;
        let mut disjoint: usize = 0;
        let mut k: usize = 0;
        while k < self.links.len()
            invariant
                k <= self.links.len(),
                limit == other@.newest(),
                excess == self@.excess_among(other@, k as int),
                disjoint == self@.disjoint_among(other@, k as int),
                excess + disjoint <= k,
            decreases self.links.len() - k,
        {
            let id = self.links[k].inno_number;
            if id as i64 > limit {
                excess = excess + 1;
            } else if !other.has_innovation(id) {
                disjoint = disjoint + 1;
            }
            k = k + 1;
        }
        (excess, disjoint)
    }

    /// Counts the pairs of links, one of this genome and one of `other`,
    /// that carry the same innovation id, and adds up the distances between
    /// their weights.
    pub fn matching_links(&self, other: &Network) -> (found: (u128, u128))
        requires
            self@.links.len() <= u32::MAX,
            other@.links.len() <= u32::MAX,
        ensures
            found.0 == self@.matching(other@),
            found.1 == self@.weight_gap(other@),
            found.1 <= found.0 * 0xFFFF_FFFF,
    {
        let ghost pairs = |k: int, j: int| self@.pair_term(other@, k, j);
        let ghost gaps = |k: int, j: int| self@.gap_term(other@, k, j);
        let mut matching: u128 = 0;
        let mut gap: u128 = 0;
        let mut k: usize = 0;
        while k < self.links.len()
            invariant
                k <= self.links.len(),
                self@.links.len() <= u32::MAX,
                other@.links.len() <= u32::MAX,
                pairs == (|k: int, j: int| self@.pair_term(other@, k, j)),
                gaps == (|k: int, j: int| self@.gap_term(other@, k, j)),
                matching == grid_sum(pairs, k as int, other@.links.len() as int),
                gap == grid_sum(gaps, k as int, other@.links.len() as int),
                matching <= k * 0xFFFF_FFFF,
                gap <= matching * 0xFFFF_FFFF,
            decreases self.links.len() - k,
        {
            let mine = self.links[k];
            let mut row_matching: u128 = 0;
            let mut row_gap: u128 = 0;
            let mut j: usize = 0;
            while j < other.links.len()
                invariant
                    j <= other.links.len(),
                    k < self.links.len(),
                    mine == self@.links[k as int],
                    other@.links.len() <= u32::MAX,
                    pairs == (|k: int, j: int| self@.pair_term(other@, k, j)),
                    gaps == (|k: int, j: int| self@.gap_term(other@, k, j)),
                    row_matching == row_sum(pairs, k as int, j as int),
                    row_gap == row_sum(gaps, k as int, j as int),
                    row_matching <= j,
                    row_gap <= row_matching * 0xFFFF_FFFF,
                decreases other.links.len() - j,
            {
                let theirs = other.links[j];
                if mine.inno_number == theirs.inno_number {
                    let apart: i64 = mine.weight as i64 - theirs.weight as i64;
                    let size: u128 = if apart < 0 {
                        (-apart) as u128
                    } else {
                        apart as u128
                    };
                    row_matching = row_matching + 1;
                    row_gap = row_gap + size;
                }
                j = j + 1;
            }
            matching = matching + row_matching;
            gap = gap + row_gap;
            k = k + 1;
        }
        (matching, gap)
    }
}

} // verus!
