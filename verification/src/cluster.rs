//! Choosing items that are all linked with each other.
//!
//! `links[j][i]`, for `i < j`, tells whether items `i` and `j` are linked. A choice is
//! a mask over the items. Of all choices of enough items, earlier items are preferred.
//! The search is exhaustive: it finds a choice wherever there is one.

use vstd::prelude::*;

verus! {

/// Number of items that a mask takes.
pub open spec fn count(mask: Seq<bool>) -> nat
    decreases mask.len(),
{
    if mask.len() == 0 {
        0
    } else {
        count(mask.drop_last()) + if mask.last() {
            1nat
        } else {
            0nat
        }
    }
}

/// Whether the items taken are all linked with each other.
pub open spec fn all_linked(links: Seq<Seq<bool>>, mask: Seq<bool>) -> bool {
    forall|i: int, j: int|
        0 <= i < j < mask.len() && #[trigger] mask[i] && #[trigger] mask[j] ==> links[j][i]
}

/// Whether the next item after those that `mask` decides on is linked with all that it takes.
pub open spec fn fits(links: Seq<Seq<bool>>, mask: Seq<bool>) -> bool {
    forall|i: int| 0 <= i < mask.len() && #[trigger] mask[i] ==> links[mask.len() as int][i]
}

/// The choice of at least `need` items, all linked with each other, that completes `mask`: each
/// item is taken where a choice with it exists.
pub open spec fn completed(links: Seq<Seq<bool>>, need: nat, mask: Seq<bool>) -> Option<Seq<bool>>
    decreases links.len() - mask.len(),
{
    if mask.len() >= links.len() {
        if count(mask) >= need {
            Some(mask)
        } else {
            None
        }
    } else if fits(links, mask) && completed(links, need, mask.push(true)) is Some {
        completed(links, need, mask.push(true))
    } else {
        completed(links, need, mask.push(false))
    }
}

/// The choice of at least `need` items that are all linked with each other, where there is one.
pub open spec fn choice(links: Seq<Seq<bool>>, need: nat) -> Option<Seq<bool>> {
    completed(links, need, Seq::empty())
}

proof fn lemma_push(links: Seq<Seq<bool>>, mask: Seq<bool>, taken: bool)
    requires
        all_linked(links, mask),
        taken ==> fits(links, mask),
    ensures
        all_linked(links, mask.push(taken)),
        count(mask.push(taken)) == count(mask) + if taken {
            1nat
        } else {
            0nat
        },
{
    let more = mask.push(taken);
    assert(more.drop_last() =~= mask);
    assert forall|i: int, j: int|
        0 <= i < j < more.len() && #[trigger] more[i] && #[trigger] more[j] implies links[j][i] by {
        assert(mask[i]);
        if j < mask.len() {
            assert(mask[j]);
        }
    }
}

proof fn lemma_completed_is_linked(links: Seq<Seq<bool>>, need: nat, mask: Seq<bool>)
    requires
        mask.len() <= links.len(),
        all_linked(links, mask),
        completed(links, need, mask) is Some,
    ensures
        ({
            let m = completed(links, need, mask)->0;
            &&& m.len() == links.len()
            &&& all_linked(links, m)
            &&& count(m) >= need
            &&& m.take(mask.len() as int) == mask
        }),
    decreases links.len() - mask.len(),
{
    let m = completed(links, need, mask)->0;
    if mask.len() == links.len() {
        assert(mask.take(mask.len() as int) =~= mask);
    } else if fits(links, mask) && completed(links, need, mask.push(true)) is Some {
        lemma_push(links, mask, true);
        lemma_completed_is_linked(links, need, mask.push(true));
        assert(m.take(mask.len() as int) =~= m.take(mask.len() as int + 1).take(mask.len() as int));
        assert(mask.push(true).take(mask.len() as int) =~= mask);
    } else {
        lemma_push(links, mask, false);
        lemma_completed_is_linked(links, need, mask.push(false));
        assert(m.take(mask.len() as int) =~= m.take(mask.len() as int + 1).take(mask.len() as int));
        assert(mask.push(false).take(mask.len() as int) =~= mask);
    }
}

proof fn lemma_completed_exists(links: Seq<Seq<bool>>, need: nat, mask: Seq<bool>, m: Seq<bool>)
    requires
        mask.len() <= links.len(),
        m.len() == links.len(),
        m.take(mask.len() as int) == mask,
        all_linked(links, m),
        count(m) >= need,
    ensures
        completed(links, need, mask) is Some,
    decreases links.len() - mask.len(),
{
    if mask.len() == links.len() {
        assert(m.take(mask.len() as int) =~= m);
    } else {
        let k = mask.len() as int;
        assert(m.take(k + 1) =~= mask.push(m[k]));
        if m[k] {
            assert forall|i: int| 0 <= i < mask.len() && #[trigger] mask[i] implies links[k][i] by {
                assert(m.take(k)[i] == m[i]);
                assert(m[i] && m[k]);
            }
        }
        lemma_completed_exists(links, need, mask.push(m[k]), m);
    }
}

proof fn lemma_count_bounds(mask: Seq<bool>)
    ensures
        count(mask) <= mask.len(),
    decreases mask.len(),
{
    if mask.len() > 0 {
        lemma_count_bounds(mask.drop_last());
    }
}

/// Whether an item is linked with all that `mask` takes.
spec fn joins(links: Seq<Seq<bool>>, mask: Seq<bool>, x: int) -> bool {
    forall|i: int| 0 <= i < mask.len() && #[trigger] mask[i] ==> links[x][i]
}

/// Number of items, of those that `mask` leaves open and that come before `end`, that are linked
/// with all that it takes.
spec fn open_count(links: Seq<Seq<bool>>, mask: Seq<bool>, end: int) -> nat
    decreases end - mask.len(),
{
    if end <= mask.len() {
        0
    } else {
        open_count(links, mask, end - 1) + if joins(links, mask, end - 1) {
            1nat
        } else {
            0nat
        }
    }
}

proof fn lemma_open_bounds(links: Seq<Seq<bool>>, mask: Seq<bool>, m: Seq<bool>, end: int)
    requires
        all_linked(links, m),
        mask.len() <= end <= m.len(),
        m.take(mask.len() as int) == mask,
    ensures
        count(m.take(end)) <= count(mask) + open_count(links, mask, end),
    decreases end,
{
    if end > mask.len() {
        lemma_open_bounds(links, mask, m, end - 1);
        assert(m.take(end).drop_last() =~= m.take(end - 1));
        if m[end - 1] {
            assert forall|i: int| 0 <= i < mask.len() && #[trigger] mask[i] implies links[end
                - 1][i] by {
                assert(m.take(mask.len() as int)[i] == m[i]);
                assert(m[i] && m[end - 1]);
            }
        }
    }
}

proof fn lemma_too_few_left(links: Seq<Seq<bool>>, need: nat, mask: Seq<bool>)
    requires
        mask.len() <= links.len(),
        all_linked(links, mask),
        count(mask) + open_count(links, mask, links.len() as int) < need,
    ensures
        completed(links, need, mask) is None,
{
    if completed(links, need, mask) is Some {
        let m = completed(links, need, mask)->0;
        lemma_completed_is_linked(links, need, mask);
        lemma_open_bounds(links, mask, m, links.len() as int);
        assert(m.take(links.len() as int) =~= m);
    }
}

/// A choice is of enough items, and these are all linked with each other.
pub proof fn choice_is_linked(links: Seq<Seq<bool>>, need: nat)
    requires
        choice(links, need) is Some,
    ensures
        choice(links, need)->0.len() == links.len(),
        forall|i: int, j: int|
            0 <= i < j < links.len() && #[trigger] choice(links, need)->0[i] && #[trigger] choice(
                links,
                need,
            )->0[j] ==> links[j][i],
        all_linked(links, choice(links, need)->0),
        count(choice(links, need)->0) >= need,
{
    lemma_completed_is_linked(links, need, Seq::empty());
}

/// There is a choice wherever enough items are all linked with each other.
pub proof fn choice_exists(links: Seq<Seq<bool>>, need: nat, mask: Seq<bool>)
    requires
        mask.len() == links.len(),
        forall|i: int, j: int|
            0 <= i < j < mask.len() && #[trigger] mask[i] && #[trigger] mask[j] ==> links[j][i],
        count(mask) >= need,
    ensures
        choice(links, need) is Some,
{
    assert(mask.take(0) =~= Seq::empty());
    lemma_completed_exists(links, need, Seq::empty(), mask);
}

/// Whether two different items are linked.
pub open spec fn linked(links: Seq<Seq<bool>>, i: int, j: int) -> bool {
    if i < j {
        links[j][i]
    } else {
        links[i][j]
    }
}

/// A choice leaves out no item that is linked with all that it takes.
pub proof fn choice_is_maximal(links: Seq<Seq<bool>>, need: nat, x: int)
    requires
        choice(links, need) is Some,
        0 <= x < links.len(),
        forall|i: int|
            0 <= i < links.len() && i != x && #[trigger] choice(links, need)->0[i] ==> linked(
                links,
                i,
                x,
            ),
    ensures
        choice(links, need)->0[x],
{
    lemma_completed_is_maximal(links, need, Seq::empty(), x);
}

proof fn lemma_completed_is_maximal(links: Seq<Seq<bool>>, need: nat, mask: Seq<bool>, x: int)
    requires
        mask.len() <= x < links.len(),
        all_linked(links, mask),
        completed(links, need, mask) is Some,
        forall|i: int|
            0 <= i < links.len() && i != x && #[trigger] completed(links, need, mask)->0[i]
                ==> linked(links, i, x),
    ensures
        completed(links, need, mask)->0[x],
    decreases links.len() - mask.len(),
{
    let m = completed(links, need, mask)->0;
    let k = mask.len() as int;
    lemma_completed_is_linked(links, need, mask);
    let with = fits(links, mask) && completed(links, need, mask.push(true)) is Some;
    lemma_push(links, mask, with);
    if k < x {
        lemma_completed_is_maximal(links, need, mask.push(with), x);
    } else if !with {
        let more = m.update(x, true);
        assert forall|i: int| 0 <= i < mask.len() && #[trigger] mask[i] implies links[k][i] by {
            assert(m.take(k)[i] == m[i]);
            assert(m[i]);
        }
        assert(more.take(k + 1) =~= mask.push(true)) by {
            assert(m.take(k) =~= more.take(k));
        }
        assert forall|i: int, j: int|
            0 <= i < j < more.len() && #[trigger] more[i] && #[trigger] more[j] implies links[j][i] by {
            if i == x {
                assert(m[j]);
            } else if j == x {
                assert(m[i]);
            } else {
                assert(m[i] && m[j]);
            }
        }
        lemma_count_update(m, x);
        lemma_completed_exists(links, need, mask.push(true), more);
    } else {
        lemma_completed_is_linked(links, need, mask.push(true));
        assert(m.take(k + 1)[k] == m[k]);
    }
}

proof fn lemma_count_update(mask: Seq<bool>, x: int)
    requires
        0 <= x < mask.len(),
    ensures
        count(mask.update(x, true)) >= count(mask),
    decreases mask.len(),
{
    let more = mask.update(x, true);
    if x == mask.len() - 1 {
        assert(more.drop_last() =~= mask.drop_last());
    } else {
        lemma_count_update(mask.drop_last(), x);
        assert(more.drop_last() =~= mask.drop_last().update(x, true));
    }
}

/// Where all items are linked with each other and there are enough, the choice is of all of them.
pub proof fn choice_of_all(links: Seq<Seq<bool>>, need: nat)
    requires
        forall|i: int, j: int| 0 <= i < j < links.len() ==> #[trigger] links[j][i],
    ensures
        choice(links, need) is Some <==> links.len() >= need,
        choice(links, need) matches Some(m) ==> m == Seq::new(links.len(), |i: int| true),
{
    let all = Seq::new(links.len(), |i: int| true);
    lemma_count_all(links.len());
    if links.len() >= need {
        choice_exists(links, need, all);
    }
    if choice(links, need) is Some {
        choice_is_linked(links, need);
        let m = choice(links, need)->0;
        lemma_count_bounds(m);
        assert forall|x: int| 0 <= x < links.len() implies m[x] by {
            choice_is_maximal(links, need, x);
        }
        assert(m =~= all);
    }
}

proof fn lemma_count_all(n: nat)
    ensures
        count(Seq::new(n, |i: int| true)) == n,
    decreases n,
{
    if n > 0 {
        lemma_count_all((n - 1) as nat);
        assert(Seq::new(n, |i: int| true).drop_last() =~= Seq::new((n - 1) as nat, |i: int| true));
    }
}

pub open spec fn link_views(links: Seq<Vec<bool>>) -> Seq<Seq<bool>> {
    links.map_values(|row: Vec<bool>| row@)
}

/// Whether each item has its links with all before it.
pub open spec fn is_triangle(links: Seq<Seq<bool>>) -> bool {
    forall|j: int| 0 <= j < links.len() ==> (#[trigger] links[j]).len() == j
}

fn is_joining(links: &Vec<Vec<bool>>, mask: &Vec<bool>, x: usize) -> (r: bool)
    requires
        is_triangle(link_views(links@)),
        mask@.len() <= x < links@.len(),
    ensures
        r == joins(link_views(links@), mask@, x as int),
{
    let ghost views = link_views(links@);
    assert(views[x as int].len() == x);
    let mut i: usize = 0;
    while i < mask.len()
        invariant
            0 <= i <= mask@.len(),
            mask@.len() <= x < links@.len(),
            views == link_views(links@),
            links@[x as int]@.len() == x,
            forall|h: int| 0 <= h < i && #[trigger] mask@[h] ==> views[x as int][h],
        decreases mask@.len() - i,
    {
        if mask[i] && !links[x][i] {
            assert(mask@[i as int] && !views[x as int][i as int]);
            return false;
        }
        i = i + 1;
    }
    true
}

fn count_open(links: &Vec<Vec<bool>>, mask: &Vec<bool>) -> (n: usize)
    requires
        is_triangle(link_views(links@)),
        mask@.len() <= links@.len(),
    ensures
        n == open_count(link_views(links@), mask@, links@.len() as int),
{
    let mut n: usize = 0;
    let mut x: usize = mask.len();
    while x < links.len()
        invariant
            is_triangle(link_views(links@)),
            mask@.len() <= x <= links@.len(),
            n <= x - mask@.len(),
            n == open_count(link_views(links@), mask@, x as int),
        decreases links@.len() - x,
    {
        if is_joining(links, mask, x) {
            n = n + 1;
        }
        x = x + 1;
    }
    n
}

/// Whether no choice takes an item that `mask` leaves out, with what it takes before that item.
spec fn is_tried(links: Seq<Seq<bool>>, need: nat, mask: Seq<bool>) -> bool {
    forall|j: int|
        0 <= j < mask.len() && !#[trigger] mask[j] ==> !(fits(links, mask.take(j)) && completed(
            links,
            need,
            mask.take(j).push(true),
        ) is Some)
}

proof fn lemma_tried(links: Seq<Seq<bool>>, need: nat, mask: Seq<bool>, taken: bool)
    requires
        is_tried(links, need, mask),
        !taken ==> !(fits(links, mask) && completed(links, need, mask.push(true)) is Some),
    ensures
        is_tried(links, need, mask.push(taken)),
{
    let more = mask.push(taken);
    assert forall|j: int| 0 <= j < more.len() && !#[trigger] more[j] implies !(fits(
        links,
        more.take(j),
    ) && completed(links, need, more.take(j).push(true)) is Some) by {
        assert(more.take(j) =~= mask.take(j));
        if j < mask.len() {
            assert(!mask[j]);
        } else {
            assert(mask.take(j) =~= mask);
        }
    }
}

proof fn lemma_tried_prefix(links: Seq<Seq<bool>>, need: nat, mask: Seq<bool>)
    requires
        mask.len() > 0,
        is_tried(links, need, mask),
        all_linked(links, mask),
    ensures
        is_tried(links, need, mask.drop_last()),
        all_linked(links, mask.drop_last()),
        mask.last() ==> fits(links, mask.drop_last()),
        !mask.last() ==> !(fits(links, mask.drop_last()) && completed(
            links,
            need,
            mask.drop_last().push(true),
        ) is Some),
        count(mask) == count(mask.drop_last()) + if mask.last() {
            1nat
        } else {
            0nat
        },
{
    let fewer = mask.drop_last();
    let n = fewer.len() as int;
    assert(mask.take(n) =~= fewer);
    assert(mask[n] == mask.last());
    assert forall|j: int| 0 <= j < fewer.len() && !#[trigger] fewer[j] implies !(fits(
        links,
        fewer.take(j),
    ) && completed(links, need, fewer.take(j).push(true)) is Some) by {
        assert(!mask[j]);
        assert(fewer.take(j) =~= mask.take(j));
    }
    assert forall|i: int, j: int|
        0 <= i < j < fewer.len() && #[trigger] fewer[i] && #[trigger] fewer[j] implies links[j][i] by {
        assert(mask[i] && mask[j]);
    }
    if mask.last() {
        assert forall|i: int| 0 <= i < n && #[trigger] fewer[i] implies links[n][i] by {
            assert(mask[i] && mask[n]);
        }
    }
}

/// The first choice that completes a mask is the choice, where all before it was tried.
proof fn lemma_first(links: Seq<Seq<bool>>, need: nat, mask: Seq<bool>)
    requires
        mask.len() <= links.len(),
        is_tried(links, need, mask),
        all_linked(links, mask),
        completed(links, need, mask) is Some,
    ensures
        choice(links, need) == completed(links, need, mask),
    decreases mask.len(),
{
    if mask.len() == 0 {
        assert(mask =~= Seq::empty());
    } else {
        let fewer = mask.drop_last();
        lemma_tried_prefix(links, need, mask);
        assert(fewer.push(mask.last()) =~= mask);
        lemma_first(links, need, fewer);
    }
}

/// Bound on the steps below a mask that leaves `open` items open.
spec fn steps_below(open: nat) -> nat
    decreases open,
{
    if open == 0 {
        1
    } else {
        2 * steps_below((open - 1) as nat) + 2
    }
}

/// Bound on the steps for leaving out what a mask takes.
spec fn steps_pending(mask: Seq<bool>, count: nat) -> nat
    decreases mask.len(),
{
    if mask.len() == 0 {
        0
    } else {
        steps_pending(mask.drop_last(), count) + if mask.last() {
            steps_below((count - mask.len()) as nat) + 1
        } else {
            0
        }
    }
}

/// Chooses at least `need` items that are all linked with each other.
pub fn choose_linked(links: &Vec<Vec<bool>>, need: usize) -> (r: Option<Vec<bool>>)
    requires
        is_triangle(link_views(links@)),
    ensures
        r is Some <==> choice(link_views(links@), need as nat) is Some,
        r matches Some(mask) ==> choice(link_views(links@), need as nat) == Some(mask@),
{
    let ghost views = link_views(links@);
    let mut mask: Vec<bool> = Vec::new();
    let mut taken: usize = 0;
    // whether no choice completes the mask
    let mut failed: bool = false;
    assert(mask@ =~= Seq::empty());
    while !failed || mask.len() > 0
        invariant
            views == link_views(links@),
            is_triangle(views),
            mask@.len() <= views.len(),
            views.len() == links@.len(),
            all_linked(views, mask@),
            is_tried(views, need as nat, mask@),
            taken == count(mask@),
            failed ==> completed(views, need as nat, mask@) is None,
        decreases
            steps_pending(mask@, views.len()) + if failed {
                0
            } else {
                steps_below((views.len() - mask@.len()) as nat)
            },
            mask@.len(),
    {
        let ghost before = mask@;
        proof {
            lemma_count_bounds(before);
        }
        if failed {
            proof {
                lemma_tried_prefix(views, need as nat, before);
                assert(before.drop_last().push(before.last()) =~= before);
            }
            let last: bool = mask[mask.len() - 1];
            mask.pop();
            assert(mask@ =~= before.drop_last());
            if last {
                taken = taken - 1;
                proof {
                    lemma_push(views, mask@, false);
                    lemma_tried(views, need as nat, mask@, false);
                    assert(mask@.push(false).drop_last() =~= mask@);
                }
                mask.push(false);
                failed = false;
            }
        } else if mask.len() == links.len() {
            if taken >= need {
                proof {
                    lemma_first(views, need as nat, before);
                }
                return Some(mask);
            }
            failed = true;
        } else if need > taken && need - taken > count_open(links, &mask) {
            proof {
                lemma_too_few_left(views, need as nat, before);
            }
            failed = true;
        } else {
            let joining: bool = is_joining(links, &mask, mask.len());
            proof {
                assert(joining == fits(views, before));
                lemma_push(views, before, joining);
                lemma_tried(views, need as nat, before, joining);
                assert(before.push(joining).drop_last() =~= before);
            }
            if joining {
                taken = taken + 1;
            }
            mask.push(joining);
        }
    }
    assert(mask@ =~= Seq::empty());
    None
}

/// The items whose flag is `want`, in order.
pub open spec fn select<T>(items: Seq<T>, flags: Seq<bool>, want: bool) -> Seq<T>
    decreases items.len(),
{
    if items.len() == 0 {
        Seq::empty()
    } else {
        let before = select(items.drop_last(), flags, want);
        if flags[items.len() - 1] == want {
            before.push(items.last())
        } else {
            before
        }
    }
}

/// Whether an item with the flag `want` is `x`.
pub open spec fn flagged_in<T>(items: Seq<T>, flags: Seq<bool>, want: bool, x: T) -> bool {
    exists|i: int| 0 <= i < items.len() && flags[i] == want && #[trigger] items[i] == x
}

/// What is selected are items with the flag.
pub proof fn lemma_select<T>(items: Seq<T>, flags: Seq<bool>, want: bool)
    requires
        items.len() <= flags.len(),
    ensures
        select(items, flags, want).len() <= items.len(),
        forall|k: int|
            0 <= k < select(items, flags, want).len() ==> flagged_in(
                items,
                flags,
                want,
                #[trigger] select(items, flags, want)[k],
            ),
    decreases items.len(),
{
    if items.len() > 0 {
        let shorter = items.drop_last();
        let fewer = select(shorter, flags, want);
        let chosen = select(items, flags, want);
        lemma_select(shorter, flags, want);
        assert forall|k: int| 0 <= k < chosen.len() implies flagged_in(
            items,
            flags,
            want,
            #[trigger] chosen[k],
        ) by {
            if k < fewer.len() {
                assert(chosen[k] == fewer[k]);
                assert(flagged_in(shorter, flags, want, fewer[k]));
                let i = choose|i: int|
                    0 <= i < shorter.len() && flags[i] == want && #[trigger] shorter[i] == fewer[k];
                assert(items[i] == chosen[k]);
            } else {
                assert(items[items.len() - 1] == chosen[k]);
            }
        }
    }
}

/// Every item is selected by one of the two flags.
pub proof fn lemma_select_splits<T>(items: Seq<T>, flags: Seq<bool>)
    ensures
        items.to_multiset() == select(items, flags, true).to_multiset().add(
            select(items, flags, false).to_multiset(),
        ),
    decreases items.len(),
{
    broadcast use vstd::seq_lib::group_to_multiset_ensures;

    if items.len() > 0 {
        let shorter = items.drop_last();
        lemma_select_splits(shorter, flags);
        assert(items =~= shorter.push(items.last()));
    }
    assert(items.to_multiset() =~= select(items, flags, true).to_multiset().add(
        select(items, flags, false).to_multiset(),
    ));
}

/// Whether of two items with the flag `want` the first is `x` and the later `y`.
pub open spec fn ordered_in<T>(items: Seq<T>, flags: Seq<bool>, want: bool, x: T, y: T) -> bool {
    exists|i: int, j: int|
        0 <= i < j < items.len() && flags[i] == want && flags[j] == want && #[trigger] items[i] == x
            && #[trigger] items[j] == y
}

/// What is selected stands in the order of the items.
pub proof fn lemma_select_keeps_order<T>(items: Seq<T>, flags: Seq<bool>, want: bool)
    requires
        items.len() <= flags.len(),
    ensures
        forall|k: int, m: int|
            0 <= k < m < select(items, flags, want).len() ==> ordered_in(
                items,
                flags,
                want,
                #[trigger] select(items, flags, want)[k],
                #[trigger] select(items, flags, want)[m],
            ),
    decreases items.len(),
{
    if items.len() > 0 {
        let shorter = items.drop_last();
        let fewer = select(shorter, flags, want);
        let all = select(items, flags, want);
        lemma_select_keeps_order(shorter, flags, want);
        lemma_select(shorter, flags, want);
        assert forall|k: int, m: int| 0 <= k < m < all.len() implies ordered_in(
            items,
            flags,
            want,
            #[trigger] all[k],
            #[trigger] all[m],
        ) by {
            assert(all[k] == fewer[k]);
            if m < fewer.len() {
                assert(all[m] == fewer[m]);
                assert(ordered_in(shorter, flags, want, fewer[k], fewer[m]));
                let (i, j) = choose|i: int, j: int|
                    0 <= i < j < shorter.len() && flags[i] == want && flags[j] == want
                        && #[trigger] shorter[i] == fewer[k] && #[trigger] shorter[j] == fewer[m];
                assert(items[i] == all[k] && items[j] == all[m]);
            } else {
                assert(flagged_in(shorter, flags, want, fewer[k]));
                let i = choose|i: int|
                    0 <= i < shorter.len() && flags[i] == want && #[trigger] shorter[i] == fewer[k];
                assert(items[i] == all[k] && items[items.len() - 1] == all[m]);
            }
        }
    }
}

/// As many items are selected as the mask takes.
pub proof fn lemma_select_count<T>(items: Seq<T>, flags: Seq<bool>)
    requires
        items.len() == flags.len(),
    ensures
        select(items, flags, true).len() == count(flags),
    decreases items.len(),
{
    if items.len() > 0 {
        lemma_select_count(items.drop_last(), flags.drop_last());
        lemma_select_prefix(items.drop_last(), flags.drop_last(), flags, true);
    }
}

proof fn lemma_select_prefix<T>(items: Seq<T>, flags: Seq<bool>, more: Seq<bool>, want: bool)
    requires
        items.len() <= flags.len() <= more.len(),
        forall|i: int| 0 <= i < items.len() ==> flags[i] == more[i],
    ensures
        select(items, flags, want) == select(items, more, want),
    decreases items.len(),
{
    if items.len() > 0 {
        lemma_select_prefix(items.drop_last(), flags, more, want);
    }
}

/// Where every flag is set, all items are selected.
pub proof fn lemma_select_all<T>(items: Seq<T>, flags: Seq<bool>)
    requires
        items.len() <= flags.len(),
        forall|i: int| 0 <= i < items.len() ==> flags[i],
    ensures
        select(items, flags, true) == items,
    decreases items.len(),
{
    if items.len() > 0 {
        lemma_select_all(items.drop_last(), flags);
        assert(items =~= items.drop_last().push(items.last()));
    } else {
        assert(items =~= Seq::empty());
    }
}

/// Selecting goes item by item: an item is selected where its flag is the one wanted.
pub proof fn selecting_goes_item_by_item<T>(items: Seq<T>, last: T, flags: Seq<bool>, want: bool)
    ensures
        select(Seq::<T>::empty(), flags, want) == Seq::<T>::empty(),
        flags[items.len() as int] == want ==> select(items.push(last), flags, want) == select(
            items,
            flags,
            want,
        ).push(last),
        flags[items.len() as int] != want ==> select(items.push(last), flags, want) == select(
            items,
            flags,
            want,
        ),
{
    assert(items.push(last).drop_last() =~= items);
}

/// Counting a mask counts the items that it takes, one by one.
pub proof fn counting_goes_item_by_item(mask: Seq<bool>, last: bool)
    ensures
        count(Seq::empty()) == 0,
        last ==> count(mask.push(last)) == count(mask) + 1,
        !last ==> count(mask.push(last)) == count(mask),
{
    assert(mask.push(last).drop_last() =~= mask);
}

/// Of all choices of enough items that are linked with each other, the one made prefers earlier
/// items: where another first differs from it, it takes the item and the other does not.
pub proof fn choice_prefers_earlier_items(links: Seq<Seq<bool>>, need: nat, other: Seq<bool>)
    requires
        choice(links, need) is Some,
        other.len() == links.len(),
        forall|i: int, j: int|
            0 <= i < j < other.len() && #[trigger] other[i] && #[trigger] other[j] ==> links[j][i],
        count(other) >= need,
        other != choice(links, need)->0,
    ensures
        exists|k: int|
            {
                &&& 0 <= k < other.len()
                &&& choice(links, need)->0.take(k) == other.take(k)
                &&& choice(links, need)->0[k]
                &&& !#[trigger] other[k]
            },
{
    assert(other.take(0) =~= Seq::empty());
    lemma_prefers_earlier(links, need, Seq::empty(), other);
}

proof fn lemma_prefers_earlier(
    links: Seq<Seq<bool>>,
    need: nat,
    mask: Seq<bool>,
    other: Seq<bool>,
)
    requires
        mask.len() <= links.len(),
        all_linked(links, mask),
        completed(links, need, mask) is Some,
        other.len() == links.len(),
        other.take(mask.len() as int) == mask,
        all_linked(links, other),
        count(other) >= need,
        other != completed(links, need, mask)->0,
    ensures
        exists|k: int|
            {
                &&& 0 <= k < other.len()
                &&& completed(links, need, mask)->0.take(k) == other.take(k)
                &&& completed(links, need, mask)->0[k]
                &&& !#[trigger] other[k]
            },
    decreases links.len() - mask.len(),
{
    let m = completed(links, need, mask)->0;
    let k = mask.len() as int;
    if k == links.len() {
        assert(other.take(k) =~= other);
    } else {
        let with = fits(links, mask) && completed(links, need, mask.push(true)) is Some;
        lemma_push(links, mask, with);
        lemma_completed_is_linked(links, need, mask);
        lemma_completed_is_linked(links, need, mask.push(with));
        assert(m.take(k + 1)[k] == m[k]);
        assert(other.take(k + 1) =~= mask.push(other[k]));
        if other[k] == with {
            lemma_prefers_earlier(links, need, mask.push(with), other);
        } else if with {
            assert(m.take(k) == other.take(k));
        } else {
            assert forall|i: int| 0 <= i < mask.len() && #[trigger] mask[i] implies links[k][i] by {
                assert(other.take(k)[i] == other[i]);
                assert(other[i] && other[k]);
            }
            lemma_completed_exists(links, need, mask.push(true), other);
        }
    }
}

/// Selecting by flags that tell of a property filters by it.
pub proof fn lemma_select_filter<T>(items: Seq<T>, flags: Seq<bool>, keep: spec_fn(T) -> bool)
    requires
        items.len() <= flags.len(),
        forall|i: int| 0 <= i < items.len() ==> #[trigger] flags[i] == keep(items[i]),
    ensures
        select(items, flags, true) == items.filter(keep),
        select(items, flags, false) == items.filter(|x: T| !keep(x)),
    decreases items.len(),
{
    reveal(Seq::filter);
    if items.len() > 0 {
        let fewer = items.drop_last();
        assert forall|i: int| 0 <= i < fewer.len() implies #[trigger] flags[i] == keep(fewer[i]) by {
            assert(fewer[i] == items[i]);
        }
        lemma_select_filter(fewer, flags, keep);
        assert(flags[items.len() - 1] == keep(items[items.len() - 1]));
    }
}

} // verus!
