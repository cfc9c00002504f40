use crate::distance::compatibility;
use crate::network::NetworkView;
use crate::select::{holds, lemma_lists_next, lists_all};
use vstd::prelude::*;

verus! {

/// How genomes are compared: the three coefficients of the compatibility
/// distance and the distance up to which two genomes are of one species.
pub struct Measure {
    pub c1: int,
    pub c2: int,
    pub c3: int,
    pub threshold: int,
}

impl Measure {
    /// The two genomes are within the threshold of each other.
    pub open spec fn near(self, a: NetworkView, b: NetworkView) -> bool {
        compatibility(a, b, self.c1, self.c2, self.c3) <= self.threshold
    }

    /// The first species, from `from` on, whose representative is near
    /// `genome`; the number of species where there is none.
    pub open spec fn home_of(self, genome: NetworkView, reps: Seq<NetworkView>, from: int) -> int
        decreases reps.len() - from,
    {
        if from >= reps.len() {
            reps.len() as int
        } else if self.near(genome, reps[from]) {
            from
        } else {
            self.home_of(genome, reps, from + 1)
        }
    }

    /// The representatives and the species of each genome after the first
    /// `count` genomes of `pop` were placed, one after the other: each goes to
    /// the first species whose representative is near it, and founds a
    /// species, whose representative it is, where there is none.
    pub open spec fn speciated(
        self,
        pop: Seq<NetworkView>,
        seeds: Seq<NetworkView>,
        count: int,
    ) -> (Seq<NetworkView>, Seq<usize>)
        decreases count,
    {
        if count <= 0 {
            (seeds, Seq::empty())
        } else {
            let (reps, home) = self.speciated(pop, seeds, count - 1);
            let place = self.home_of(pop[count - 1], reps, 0);
            if place == reps.len() {
                (reps.push(pop[count - 1]), home.push(place as usize))
            } else {
                (reps, home.push(place as usize))
            }
        }
    }
}

/// The first species near a genome is one of the species, or their number.
pub proof fn lemma_home_range(m: Measure, genome: NetworkView, reps: Seq<NetworkView>, from: int)
    requires
        0 <= from <= reps.len(),
    ensures
        from <= m.home_of(genome, reps, from) <= reps.len(),
    decreases reps.len() - from,
{
    if from < reps.len() && !m.near(genome, reps[from]) {
        lemma_home_range(m, genome, reps, from + 1);
    }
}

/// Placing genomes keeps the seeds, gives each placed genome a species among
/// the representatives, and takes every further representative from the
/// population.
pub proof fn lemma_speciated_shape(
    m: Measure,
    pop: Seq<NetworkView>,
    seeds: Seq<NetworkView>,
    count: int,
)
    requires
        0 <= count <= pop.len(),
    ensures
        m.speciated(pop, seeds, count).1.len() == count,
        seeds.len() <= m.speciated(pop, seeds, count).0.len() <= seeds.len() + count,
        forall|i: int|
            0 <= i < count ==> (#[trigger] m.speciated(pop, seeds, count).1[i]) < m.speciated(
                pop,
                seeds,
                count,
            ).0.len(),
        forall|s: int|
            0 <= s < seeds.len() ==> (#[trigger] m.speciated(pop, seeds, count).0[s]) == seeds[s],
        forall|s: int|
            seeds.len() <= s < m.speciated(pop, seeds, count).0.len() ==> exists|i: int|
                0 <= i < count
                    && (#[trigger] m.speciated(pop, seeds, count).0[s]) == #[trigger] pop[i],
    decreases count,
{
    if count > 0 {
        lemma_speciated_shape(m, pop, seeds, count - 1);
        let before = m.speciated(pop, seeds, count - 1);
        let after = m.speciated(pop, seeds, count);
        lemma_home_range(m, pop[count - 1], before.0, 0);
        assert forall|i: int| 0 <= i < count implies (#[trigger] after.1[i]) < after.0.len() by {
            if i < count - 1 {
                assert(after.1[i] == before.1[i]);
            }
        }
        assert forall|s: int| 0 <= s < seeds.len() implies (#[trigger] after.0[s]) == seeds[s] by {
            assert(after.0[s] == before.0[s]);
        }
        assert forall|s: int| seeds.len() <= s < after.0.len() implies exists|i: int|
            0 <= i < count && (#[trigger] after.0[s]) == #[trigger] pop[i] by {
            if s < before.0.len() {
                assert(after.0[s] == before.0[s]);
                let i = choose|i: int| 0 <= i < count - 1 && before.0[s] == #[trigger] pop[i];
                assert(after.0[s] == pop[i]);
            } else {
                assert(after.0[s] == pop[count - 1]);
            }
        }
    }
}

/// `genome` is one of the genomes whose places `group` lists.
pub open spec fn member_of(genome: NetworkView, pop: Seq<NetworkView>, group: Seq<usize>) -> bool {
    exists|p: int| 0 <= p < group.len() && genome == pop[(#[trigger] group[p]) as int]
}

/// `seeds` holds one genome of each species, in the order of the species.
pub open spec fn represents(
    seeds: Seq<NetworkView>,
    pop: Seq<NetworkView>,
    species: Seq<Seq<usize>>,
) -> bool {
    &&& seeds.len() == species.len()
    &&& forall|s: int| 0 <= s < species.len() ==> member_of(#[trigger] seeds[s], pop, species[s])
}

/// The genomes that stand at the places `places` of their species.
pub open spec fn chosen(pop: Seq<NetworkView>, species: Seq<Seq<usize>>, places: Seq<usize>) -> Seq<
    NetworkView,
> {
    Seq::new(species.len(), |s: int| pop[species[s][places[s] as int] as int])
}

/// Copies a list of species.
pub fn clone_species(species: &Vec<Vec<usize>>) -> (copy: Vec<Vec<usize>>)
    ensures
        groups(copy@) == groups(species@),
{
    let mut copy: Vec<Vec<usize>> = Vec::new();
    let mut s: usize = 0;
    while s < species.len()
        invariant
            s <= species.len(),
            copy@.len() == s,
            forall|g: int| 0 <= g < s ==> (#[trigger] copy@[g])@ == species@[g]@,
        decreases species.len() - s,
    {
        let members = species[s].clone();
        copy.push(members);
        s = s + 1;
    }
    assert(groups(copy@) =~= groups(species@));
    copy
}

/// The mathematical content of a list of species: each species as the
/// sequence of the places of its genomes.
pub open spec fn groups(species: Seq<Vec<usize>>) -> Seq<Seq<usize>> {
    Seq::new(species.len(), |g: int| species[g]@)
}

/// Genome `i` is of species `kind`.
pub open spec fn in_species(home: Seq<usize>, kind: int, i: int) -> bool {
    home[i] == kind
}

/// The species that group `g` stands for: that of its first genome.
pub open spec fn label(species: Seq<Seq<usize>>, home: Seq<usize>, g: int) -> int {
    home[species[g][0] as int] as int
}

/// Some group stands for the species of genome `i`.
pub open spec fn represented(species: Seq<Seq<usize>>, home: Seq<usize>, i: int) -> bool {
    exists|g: int| 0 <= g < species.len() && #[trigger] label(species, home, g) == home[i]
}

/// `species` lists the genomes by their species `home`: one group for each
/// species that has a genome, groups in the order of the species, genomes in
/// the order of their places.
pub open spec fn grouped(species: Seq<Seq<usize>>, home: Seq<usize>) -> bool {
    &&& forall|g: int| 0 <= g < species.len() ==> (#[trigger] species[g]).len() > 0
    &&& forall|g: int|
        0 <= g < species.len() ==> lists_all(
            #[trigger] species[g],
            home.len() as int,
            |i: int| in_species(home, label(species, home, g), i),
        )
    &&& forall|g: int, h: int|
        0 <= g < h < species.len() ==> #[trigger] label(species, home, g) < #[trigger] label(
            species,
            home,
            h,
        )
    &&& forall|i: int| 0 <= i < home.len() ==> #[trigger] represented(species, home, i)
}

/// Place `i` stands in some group.
pub open spec fn placed(species: Seq<Seq<usize>>, i: int) -> bool {
    exists|g: int| 0 <= g < species.len() && holds(#[trigger] species[g], i)
}

/// `species` divides the places below `count` into groups: no group is
/// empty, and each place stands in one group, once.
pub open spec fn is_partition(species: Seq<Seq<usize>>, count: int) -> bool {
    &&& forall|g: int| 0 <= g < species.len() ==> (#[trigger] species[g]).len() > 0
    &&& forall|g: int, p: int|
        0 <= g < species.len() && 0 <= p < species[g].len() ==> (#[trigger] species[g][p]) < count
    &&& forall|i: int| 0 <= i < count ==> #[trigger] placed(species, i)
    &&& forall|g: int, p: int, h: int, q: int|
        0 <= g < species.len() && 0 <= p < species[g].len() && 0 <= h < species.len() && 0 <= q
            < species[h].len() && #[trigger] species[g][p] == #[trigger] species[h][q] ==> g == h
            && p == q
}

/// Genomes listed by their species are divided into groups.
pub proof fn lemma_grouped_partition(species: Seq<Seq<usize>>, home: Seq<usize>)
    requires
        grouped(species, home),
    ensures
        is_partition(species, home.len() as int),
{
    assert forall|g: int, p: int|
        0 <= g < species.len() && 0 <= p < species[g].len() implies (#[trigger] species[g][p])
        < home.len() by {
        assert(species[g].len() > 0);
    }
    assert forall|i: int| 0 <= i < home.len() implies #[trigger] placed(species, i) by {
        assert(represented(species, home, i));
        let g = choose|g: int|
            0 <= g < species.len() && #[trigger] label(species, home, g) == home[i];
        let wanted = |n: int| in_species(home, label(species, home, g), n);
        assert(lists_all(species[g], home.len() as int, wanted));
        assert(wanted(i));
        assert(holds(species[g], i));
    }
    assert forall|g: int, p: int, h: int, q: int|
        0 <= g < species.len() && 0 <= p < species[g].len() && 0 <= h < species.len() && 0 <= q
            < species[h].len() && #[trigger] species[g][p] == #[trigger] species[h][q] implies g
        == h && p == q by {
        let first = |n: int| in_species(home, label(species, home, g), n);
        let second = |n: int| in_species(home, label(species, home, h), n);
        assert(lists_all(species[g], home.len() as int, first));
        assert(lists_all(species[h], home.len() as int, second));
        assert(first(species[g][p] as int));
        assert(second(species[h][q] as int));
        assert(label(species, home, g) == label(species, home, h));
        if g < h {
            assert(label(species, home, g) < label(species, home, h));
        }
        if h < g {
            assert(label(species, home, h) < label(species, home, g));
        }
        if p < q {
            assert(species[g][p] < species[g][q]);
        }
        if q < p {
            assert(species[g][q] < species[g][p]);
        }
    }
}

/// The places of the genomes of species `kind`, in ascending order.
pub fn members_of(home: &Vec<usize>, kind: usize) -> (members: Vec<usize>)
    ensures
        lists_all(members@, home@.len() as int, |i: int| in_species(home@, kind as int, i)),
{
    let ghost wanted = |i: int| in_species(home@, kind as int, i);
    let mut members: Vec<usize> = Vec::new();
    let mut i: usize = 0;
    while i < home.len()
        invariant
            i <= home.len(),
            wanted == (|i: int| in_species(home@, kind as int, i)),
            lists_all(members@, i as int, wanted),
        decreases home.len() - i,
    {
        proof {
            lemma_lists_next(members@, i as int, wanted);
        }
        if home[i] == kind {
            members.push(i);
        }
        i = i + 1;
    }
    members
}

/// Lists the genomes by species: `home` gives the species of each genome, a
/// number below `kinds`. A species without a genome gets no group.
pub fn group_species(home: &Vec<usize>, kinds: usize) -> (species: Vec<Vec<usize>>)
    requires
        forall|i: int| 0 <= i < home@.len() ==> (#[trigger] home@[i]) < kinds,
    ensures
        grouped(groups(species@), home@),
        is_partition(groups(species@), home@.len() as int),
{
    let mut species: Vec<Vec<usize>> = Vec::new();
    let mut kind: usize = 0;
    while kind < kinds
        invariant
            kind <= kinds,
            forall|i: int| 0 <= i < home@.len() ==> (#[trigger] home@[i]) < kinds,
            forall|g: int| 0 <= g < species@.len() ==> (#[trigger] groups(species@)[g]).len() > 0,
            forall|g: int|
                0 <= g < species@.len() ==> lists_all(
                    #[trigger] groups(species@)[g],
                    home@.len() as int,
                    |i: int| in_species(home@, label(groups(species@), home@, g), i),
                ),
            forall|g: int|
                0 <= g < species@.len() ==> #[trigger] label(groups(species@), home@, g) < kind,
            forall|g: int, h: int|
                0 <= g < h < species@.len() ==> #[trigger] label(groups(species@), home@, g)
                    < #[trigger] label(groups(species@), home@, h),
            forall|i: int|
                0 <= i < home@.len() && home@[i] < kind ==> #[trigger] represented(
                    groups(species@),
                    home@,
                    i,
                ),
        decreases kinds - kind,
    {
        let members = members_of(home, kind);
        let ghost before = groups(species@);
        let ghost wanted = |i: int| in_species(home@, kind as int, i);
        if members.len() > 0 {
            assert(wanted(members@[0] as int));
            species.push(members);
            proof {
                let after = groups(species@);
                let last = before.len() as int;
                assert(after[last] == members@);
                assert(label(after, home@, last) == kind);
                assert forall|g: int| 0 <= g < last implies after[g] == before[g] && label(
                    after,
                    home@,
                    g,
                ) == label(before, home@, g) by {}
                assert forall|g: int| 0 <= g < after.len() implies lists_all(
                    #[trigger] after[g],
                    home@.len() as int,
                    |i: int| in_species(home@, label(after, home@, g), i),
                ) by {
                    if g < last {
                        assert(after[g] == before[g]);
                        assert(label(after, home@, g) == label(before, home@, g));
                    }
                }
                assert forall|g: int| 0 <= g < after.len() implies #[trigger] label(
                    after,
                    home@,
                    g,
                ) < kind + 1 by {
                    if g < last {
                        assert(label(before, home@, g) < kind);
                    }
                }
                assert forall|g: int, h: int| 0 <= g < h < after.len() implies #[trigger] label(
                    after,
                    home@,
                    g,
                ) < #[trigger] label(after, home@, h) by {
                    assert(label(before, home@, g) < kind);
                }
                assert forall|i: int|
                    0 <= i < home@.len() && home@[i] < kind + 1 implies #[trigger] represented(
                    after,
                    home@,
                    i,
                ) by {
                    if home@[i] < kind {
                        assert(represented(before, home@, i));
                        let g = choose|g: int|
                            0 <= g < before.len() && #[trigger] label(before, home@, g)
                                == home@[i];
                        assert(label(after, home@, g) == home@[i]);
                    } else {
                        assert(label(after, home@, last) == home@[i]);
                    }
                }
                assert forall|g: int| 0 <= g < after.len() implies (#[trigger] after[g]).len()
                    > 0 by {
                    if g < last {
                        assert(after[g] == before[g]);
                    }
                }
            }
        } else {
            proof {
                assert forall|i: int|
                    0 <= i < home@.len() && home@[i] < kind + 1 implies #[trigger] represented(
                    groups(species@),
                    home@,
                    i,
                ) by {
                    if home@[i] == kind {
                        assert(wanted(i));
                        assert(holds(members@, i));
                    }
                }
            }
        }
        kind = kind + 1;
    }
    proof {
        lemma_grouped_partition(groups(species@), home@);
    }
    species
}

/// The entry `q` of group `h` comes before the entry `p` of group `g` when
/// the groups are read one after the other.
pub open spec fn comes_before(h: int, q: int, g: int, p: int) -> bool {
    h < g || (h == g && q < p)
}

/// Place `i` is listed before the entry `p` of group `g`.
pub open spec fn listed_before(species: Seq<Seq<usize>>, g: int, p: int, i: int) -> bool {
    exists|h: int, q: int|
        0 <= h < species.len() && 0 <= q < species[h].len() && comes_before(h, q, g, p)
            && #[trigger] species[h][q] == i
}

/// Up to the entry `p` of group `g`, the groups list places below `count`,
/// none of them twice, and no group is empty.
pub open spec fn divides_before(species: Seq<Seq<usize>>, count: int, g: int, p: int) -> bool {
    &&& forall|h: int| 0 <= h < g && h < species.len() ==> (#[trigger] species[h]).len() > 0
    &&& forall|h: int, q: int|
        0 <= h < species.len() && 0 <= q < species[h].len() && comes_before(h, q, g, p)
            ==> (#[trigger] species[h][q]) < count
    &&& forall|h: int, q: int, k: int, r: int|
        0 <= h < species.len() && 0 <= q < species[h].len() && comes_before(h, q, g, p) && 0 <= k
            < species.len() && 0 <= r < species[k].len() && comes_before(k, r, g, p)
            && #[trigger] species[h][q] == #[trigger] species[k][r] ==> h == k && q == r
}

/// Whether `species` divides the places below `count` into groups; see
/// [`is_partition`].
pub fn divides(species: &Vec<Vec<usize>>, count: usize) -> (ok: bool)
    ensures
        ok == is_partition(groups(species@), count as int),
{
    let ghost all = groups(species@);
    let mut seen: Vec<bool> = Vec::new();
    let mut i: usize = 0;
    while i < count
        invariant
            i <= count,
            seen@.len() == i,
            forall|j: int| 0 <= j < i ==> !seen@[j],
        decreases count - i,
    {
        seen.push(false);
        i = i + 1;
    }
    let mut g: usize = 0;
    while g < species.len()
        invariant
            g <= species.len(),
            all == groups(species@),
            seen@.len() == count,
            divides_before(all, count as int, g as int, 0),
            forall|i: int| 0 <= i < count ==> seen@[i] == listed_before(all, g as int, 0, i),
        decreases species.len() - g,
    {
        assert(all[g as int] == species@[g as int]@);
        if species[g].len() == 0 {
            return false;
        }
        let mut p: usize = 0;
        while p < species[g].len()
            invariant
                g < species.len(),
                p <= species@[g as int]@.len(),
                all == groups(species@),
                all[g as int] == species@[g as int]@,
                all[g as int].len() > 0,
                seen@.len() == count,
                divides_before(all, count as int, g as int, p as int),
                forall|i: int|
                    0 <= i < count ==> seen@[i] == listed_before(all, g as int, p as int, i),
            decreases species@[g as int]@.len() - p,
        {
            let place = species[g][p];
            assert(all[g as int][p as int] == place);
            if place >= count {
                return false;
            }
            if seen[place] {
                proof {
                    assert(listed_before(all, g as int, p as int, place as int));
                    let (h, q) = choose|h: int, q: int|
                        0 <= h < all.len() && 0 <= q < all[h].len() && comes_before(
                            h,
                            q,
                            g as int,
                            p as int,
                        ) && #[trigger] all[h][q] == place as int;
                    assert(all[h][q] == all[g as int][p as int]);
                }
                return false;
            }
            let ghost before = seen@;
            seen.set(place, true);
            proof {
                assert forall|i: int| 0 <= i < count implies seen@[i] == listed_before(
                    all,
                    g as int,
                    p as int + 1,
                    i,
                ) by {
                    if listed_before(all, g as int, p as int, i) {
                        let (h, q) = choose|h: int, q: int|
                            0 <= h < all.len() && 0 <= q < all[h].len() && comes_before(
                                h,
                                q,
                                g as int,
                                p as int,
                            ) && #[trigger] all[h][q] == i;
                        assert(comes_before(h, q, g as int, p as int + 1));
                        assert(all[h][q] == i);
                    }
                    if i == place {
                        assert(comes_before(g as int, p as int, g as int, p as int + 1));
                        assert(all[g as int][p as int] == i);
                    }
                    if listed_before(all, g as int, p as int + 1, i) {
                        let (h, q) = choose|h: int, q: int|
                            0 <= h < all.len() && 0 <= q < all[h].len() && comes_before(
                                h,
                                q,
                                g as int,
                                p as int + 1,
                            ) && #[trigger] all[h][q] == i;
                        if !(h == g && q == p) {
                            assert(comes_before(h, q, g as int, p as int));
                            assert(all[h][q] == i);
                        }
                    }
                }
                assert forall|h: int, q: int, k: int, r: int|
                    0 <= h < all.len() && 0 <= q < all[h].len() && comes_before(
                        h,
                        q,
                        g as int,
                        p as int + 1,
                    ) && 0 <= k < all.len() && 0 <= r < all[k].len() && comes_before(
                        k,
                        r,
                        g as int,
                        p as int + 1,
                    ) && #[trigger] all[h][q] == #[trigger] all[k][r] implies h == k && q == r by {
                    let first_is_new = h == g && q == p;
                    let second_is_new = k == g && r == p;
                    if first_is_new && !second_is_new {
                        assert(comes_before(k, r, g as int, p as int));
                        assert(all[k][r] == place as int);
                        assert(listed_before(all, g as int, p as int, place as int));
                    }
                    if second_is_new && !first_is_new {
                        assert(comes_before(h, q, g as int, p as int));
                        assert(all[h][q] == place as int);
                        assert(listed_before(all, g as int, p as int, place as int));
                    }
                    if !first_is_new && !second_is_new {
                        assert(comes_before(h, q, g as int, p as int));
                        assert(comes_before(k, r, g as int, p as int));
                    }
                }
                assert forall|h: int, q: int|
                    0 <= h < all.len() && 0 <= q < all[h].len() && comes_before(
                        h,
                        q,
                        g as int,
                        p as int + 1,
                    ) implies (#[trigger] all[h][q]) < count by {
                    if !(h == g && q == p) {
                        assert(comes_before(h, q, g as int, p as int));
                    }
                }
            }
            p = p + 1;
        }
        proof {
            let end = all[g as int].len() as int;
            assert forall|i: int| 0 <= i < count implies seen@[i] == listed_before(
                all,
                g as int + 1,
                0,
                i,
            ) by {
                if listed_before(all, g as int, end, i) {
                    let (h, q) = choose|h: int, q: int|
                        0 <= h < all.len() && 0 <= q < all[h].len() && comes_before(
                            h,
                            q,
                            g as int,
                            end,
                        ) && #[trigger] all[h][q] == i;
                    assert(comes_before(h, q, g as int + 1, 0));
                    assert(all[h][q] == i);
                }
                if listed_before(all, g as int + 1, 0, i) {
                    let (h, q) = choose|h: int, q: int|
                        0 <= h < all.len() && 0 <= q < all[h].len() && comes_before(
                            h,
                            q,
                            g as int + 1,
                            0,
                        ) && #[trigger] all[h][q] == i;
                    assert(comes_before(h, q, g as int, end));
                    assert(all[h][q] == i);
                }
            }
            assert forall|h: int, q: int, k: int, r: int|
                0 <= h < all.len() && 0 <= q < all[h].len() && comes_before(
                    h,
                    q,
                    g as int + 1,
                    0,
                ) && 0 <= k < all.len() && 0 <= r < all[k].len() && comes_before(
                    k,
                    r,
                    g as int + 1,
                    0,
                ) && #[trigger] all[h][q] == #[trigger] all[k][r] implies h == k && q == r by {
                assert(comes_before(h, q, g as int, end));
                assert(comes_before(k, r, g as int, end));
            }
            assert forall|h: int, q: int|
                0 <= h < all.len() && 0 <= q < all[h].len() && comes_before(
                    h,
                    q,
                    g as int + 1,
                    0,
                ) implies (#[trigger] all[h][q]) < count by {
                assert(comes_before(h, q, g as int, end));
            }
        }
        g = g + 1;
    }
    let mut i: usize = 0;
    while i < count
        invariant
            i <= count,
            g == species.len(),
            all == groups(species@),
            seen@.len() == count,
            divides_before(all, count as int, g as int, 0),
            forall|i: int| 0 <= i < count ==> seen@[i] == listed_before(all, g as int, 0, i),
            forall|j: int| 0 <= j < i ==> #[trigger] placed(all, j),
        decreases count - i,
    {
        if !seen[i] {
            proof {
                if placed(all, i as int) {
                    let h = choose|h: int| 0 <= h < all.len() && holds(#[trigger] all[h], i as int);
                    let q = choose|q: int| 0 <= q < all[h].len() && all[h][q] == i as int;
                    assert(comes_before(h, q, g as int, 0));
                    assert(all[h][q] == i as int);
                    assert(listed_before(all, g as int, 0, i as int));
                }
            }
            return false;
        }
        proof {
            assert(listed_before(all, g as int, 0, i as int));
            let (h, q) = choose|h: int, q: int|
                0 <= h < all.len() && 0 <= q < all[h].len() && comes_before(h, q, g as int, 0)
                    && #[trigger] all[h][q] == i as int;
            assert(holds(all[h], i as int));
        }
        i = i + 1;
    }
    proof {
        assert forall|h: int, q: int|
            0 <= h < all.len() && 0 <= q < all[h].len() implies (#[trigger] all[h][q])
            < count by {
            assert(comes_before(h, q, g as int, 0));
        }
        assert forall|h: int, q: int, k: int, r: int|
            0 <= h < all.len() && 0 <= q < all[h].len() && 0 <= k < all.len() && 0 <= r
                < all[k].len() && #[trigger] all[h][q] == #[trigger] all[k][r] implies h == k
            && q == r by {
            assert(comes_before(h, q, g as int, 0));
            assert(comes_before(k, r, g as int, 0));
        }
    }
    true
}

} // verus!
