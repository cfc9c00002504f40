use vstd::prelude::*;

verus! {

/// The number `n` stands somewhere in `picked`.
pub open spec fn holds(picked: Seq<usize>, n: int) -> bool {
    exists|i: int| 0 <= i < picked.len() && picked[i] == n
}

/// `picked` lists, in ascending order and each once, exactly those numbers
/// below `count` for which `wanted` holds.
pub open spec fn lists_all(picked: Seq<usize>, count: int, wanted: spec_fn(int) -> bool) -> bool {
    &&& forall|i: int, j: int| 0 <= i < j < picked.len() ==> picked[i] < picked[j]
    &&& forall|i: int| 0 <= i < picked.len() ==> picked[i] < count && wanted(picked[i] as int)
    &&& forall|n: int| 0 <= n < count && #[trigger] wanted(n) ==> holds(picked, n)
}

/// Going on by one number: it joins the list if it is wanted, and the list
/// stays as it is if not.
pub proof fn lemma_lists_next(picked: Seq<usize>, count: int, wanted: spec_fn(int) -> bool)
    requires
        lists_all(picked, count, wanted),
        0 <= count <= usize::MAX,
    ensures
        wanted(count) ==> lists_all(picked.push(count as usize), count + 1, wanted),
        !wanted(count) ==> lists_all(picked, count + 1, wanted),
{
    if wanted(count) {
        let longer = picked.push(count as usize);
        assert forall|n: int| 0 <= n < count + 1 && #[trigger] wanted(n) implies holds(
            longer,
            n,
        ) by {
            if n < count {
                assert(holds(picked, n));
                let i = choose|i: int| 0 <= i < picked.len() && picked[i] == n;
                assert(longer[i] == n);
            } else {
                assert(longer[picked.len() as int] == n);
            }
        }
    }
}

/// Such a list is empty exactly when nothing is wanted.
pub proof fn lemma_lists_empty(picked: Seq<usize>, count: int, wanted: spec_fn(int) -> bool)
    requires
        lists_all(picked, count, wanted),
    ensures
        picked.len() == 0 <==> forall|n: int| 0 <= n < count ==> !#[trigger] wanted(n),
{
    if picked.len() == 0 {
        assert forall|n: int| 0 <= n < count implies !#[trigger] wanted(n) by {
            if wanted(n) {
                assert(holds(picked, n));
            }
        }
    } else {
        assert(wanted(picked[0] as int));
    }
}

/// The list for one number less: without its last entry if that number is
/// wanted, the same list if not.
proof fn lemma_lists_tail(picked: Seq<usize>, count: int, wanted: spec_fn(int) -> bool)
    requires
        lists_all(picked, count, wanted),
        count > 0,
    ensures
        wanted(count - 1) ==> picked.len() > 0 && picked.last() == count - 1 && lists_all(
            picked.drop_last(),
            count - 1,
            wanted,
        ),
        !wanted(count - 1) ==> lists_all(picked, count - 1, wanted),
{
    if wanted(count - 1) {
        assert(holds(picked, count - 1));
        let at = choose|i: int| 0 <= i < picked.len() && picked[i] == count - 1;
        if at < picked.len() - 1 {
            assert(picked[at] < picked[picked.len() - 1]);
        }
        let rest = picked.drop_last();
        assert forall|n: int| 0 <= n < count - 1 && #[trigger] wanted(n) implies holds(
            rest,
            n,
        ) by {
            assert(holds(picked, n));
            let i = choose|i: int| 0 <= i < picked.len() && picked[i] == n;
            assert(rest[i] == n);
        }
    } else {
        assert forall|i: int| 0 <= i < picked.len() implies picked[i] < count - 1 && wanted(
            picked[i] as int,
        ) by {
            assert(wanted(picked[i] as int));
        }
    }
}

/// There is only one such list.
pub proof fn lemma_lists_unique(
    first: Seq<usize>,
    second: Seq<usize>,
    count: int,
    wanted: spec_fn(int) -> bool,
)
    requires
        lists_all(first, count, wanted),
        lists_all(second, count, wanted),
    ensures
        first == second,
    decreases count,
{
    if count <= 0 {
        if first.len() > 0 {
            assert(first[0] < count);
        }
        if second.len() > 0 {
            assert(second[0] < count);
        }
        assert(first =~= second);
    } else {
        lemma_lists_tail(first, count, wanted);
        lemma_lists_tail(second, count, wanted);
        if wanted(count - 1) {
            lemma_lists_unique(first.drop_last(), second.drop_last(), count - 1, wanted);
            assert(first =~= first.drop_last().push(first.last()));
            assert(second =~= second.drop_last().push(second.last()));
        } else {
            lemma_lists_unique(first, second, count - 1, wanted);
        }
    }
}

} // verus!
