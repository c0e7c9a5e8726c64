//! One package for each name: of the packages of one name, the one with the
//! greatest version.

use crate::input::{flats, FlatPackage, FlatView};
use crate::jenkins_plugin_version::version_order;
use crate::order::Order;
use crate::text::{
    chars_of, compare_text, lemma_text_order_equal, lemma_text_order_reversed,
    lemma_text_order_transitive, text_order,
};
use crate::version_laws::lemma_version_order_reversed;
use vstd::prelude::*;

verus! {

/// The packages of the given name, in the order in which they stand.
pub open spec fn group_named(packages: Seq<FlatView>, name: Seq<char>) -> Seq<FlatView>
    decreases packages.len(),
{
    if packages.len() == 0 {
        Seq::empty()
    } else if packages.last().name == name {
        group_named(packages.drop_last(), name).push(packages.last())
    } else {
        group_named(packages.drop_last(), name)
    }
}

/// The place, among the first `n` packages of a group, of the one that is
/// chosen: going through them in their order, a package takes the place of
/// the one chosen so far only where its version is greater. Of packages
/// whose versions compare equal, the first stays.
pub open spec fn best_of(group: Seq<FlatView>, n: int) -> int
    decreases n,
{
    if n <= 1 {
        0
    } else {
        let best = best_of(group, n - 1);
        if version_order(group[n - 1].version, group[best].version) == Order::Greater {
            n - 1
        } else {
            best
        }
    }
}

/// The package that is chosen of a group.
pub open spec fn greatest(group: Seq<FlatView>) -> FlatView {
    group[best_of(group, group.len() as int)]
}

/// The views of a sequence of groups.
pub open spec fn groups(held: Seq<Vec<FlatPackage>>) -> Seq<Seq<FlatView>> {
    Seq::new(held.len(), |k: int| flats(held[k]@))
}

/// Whether the groups are the packages grouped by name: each group holds
/// the packages of one name in their order and is not empty, the names of
/// the groups go up, and no package's name is without a group.
pub open spec fn is_grouping(packages: Seq<FlatView>, grouped: Seq<Seq<FlatView>>) -> bool {
    &&& forall|k: int|
        0 <= k < grouped.len() ==> (#[trigger] grouped[k]).len() > 0 && grouped[k] == group_named(
            packages,
            grouped[k][0].name,
        )
    &&& forall|k: int, l: int|
        0 <= k < l < grouped.len() ==> text_order(
            (#[trigger] grouped[k])[0].name,
            (#[trigger] grouped[l])[0].name,
        ) == Order::Less
    &&& forall|i: int|
        0 <= i < packages.len() ==> exists|k: int|
            0 <= k < grouped.len() && (#[trigger] grouped[k])[0].name == (
            #[trigger] packages[i]).name
}

/// Whether `chosen` holds, for each name among the packages, the package
/// that is chosen of the packages of that name, and nothing else, in the
/// order of the names.
pub open spec fn is_selection(packages: Seq<FlatView>, chosen: Seq<FlatView>) -> bool {
    &&& forall|k: int|
        0 <= k < chosen.len() ==> group_named(packages, (#[trigger] chosen[k]).name).len() > 0
            && chosen[k] == greatest(group_named(packages, chosen[k].name))
    &&& forall|k: int, l: int|
        0 <= k < l < chosen.len() ==> text_order(
            (#[trigger] chosen[k]).name,
            (#[trigger] chosen[l]).name,
        ) == Order::Less
    &&& forall|i: int|
        0 <= i < packages.len() ==> exists|k: int|
            0 <= k < chosen.len() && (#[trigger] chosen[k]).name == (#[trigger] packages[i]).name
}

/// The packages of a name all have that name and are among the packages;
/// there are some exactly where a package has the name.
pub proof fn lemma_group_named(packages: Seq<FlatView>, name: Seq<char>)
    ensures
        forall|k: int|
            0 <= k < group_named(packages, name).len() ==> (#[trigger] group_named(
                packages,
                name,
            )[k]).name == name && exists|i: int|
                0 <= i < packages.len() && #[trigger] packages[i] == group_named(packages, name)[k],
        forall|i: int|
            0 <= i < packages.len() && (#[trigger] packages[i]).name == name ==> group_named(
                packages,
                name,
            ).len() > 0,
        group_named(packages, name).len() <= packages.len(),
    decreases packages.len(),
{
    if packages.len() > 0 {
        let front = packages.drop_last();
        lemma_group_named(front, name);
        let g = group_named(packages, name);
        let gf = group_named(front, name);
        assert forall|k: int| 0 <= k < g.len() implies (#[trigger] g[k]).name == name && exists|
            i: int,
        |
            0 <= i < packages.len() && #[trigger] packages[i] == g[k] by {
            if k < gf.len() {
                assert(g[k] == gf[k]);
                let i = choose|i: int| 0 <= i < front.len() && #[trigger] front[i] == gf[k];
                assert(packages[i] == g[k]);
            } else {
                assert(packages[packages.len() - 1] == g[k]);
            }
        }
        assert forall|i: int|
            0 <= i < packages.len() && (#[trigger] packages[i]).name == name implies g.len()
            > 0 by {
            if i < front.len() {
                assert(front[i] == packages[i]);
            }
        }
    }
}

/// The place of the chosen package is a place among those looked at.
pub proof fn lemma_best_of(group: Seq<FlatView>, n: int)
    ensures
        0 <= best_of(group, n),
        n >= 1 ==> best_of(group, n) < n,
    decreases n,
{
    if n > 1 {
        lemma_best_of(group, n - 1);
    }
}

/// Which of the first packages of a group is chosen does not depend on
/// what follows them.
pub proof fn lemma_best_of_push(group: Seq<FlatView>, next: FlatView, n: int)
    requires
        n <= group.len(),
    ensures
        best_of(group.push(next), n) == best_of(group, n),
    decreases n,
{
    if n > 1 {
        lemma_best_of_push(group, next, n - 1);
        lemma_best_of(group, n - 1);
    }
}

/// A package whose version is greater than that of every other package of
/// its name is the one chosen of its name, wherever it stands among them.
pub proof fn lemma_greatest_is_chosen(packages: Seq<FlatView>, i: int)
    requires
        0 <= i < packages.len(),
        forall|j: int|
            0 <= j < packages.len() && j != i && (#[trigger] packages[j]).name == packages[i].name
                ==> version_order(packages[j].version, packages[i].version) == Order::Less,
    ensures
        group_named(packages, packages[i].name).len() > 0,
        greatest(group_named(packages, packages[i].name)) == packages[i],
    decreases packages.len(),
{
    let name = packages[i].name;
    let front = packages.drop_last();
    let last = packages.last();
    let g = group_named(packages, name);
    let gf = group_named(front, name);
    lemma_group_named(front, name);
    lemma_group_named(packages, name);
    if i == packages.len() - 1 {
        assert(g == gf.push(last));
        if gf.len() > 0 {
            let n = gf.len() as int;
            lemma_best_of_push(gf, last, n);
            lemma_best_of(gf, n);
            let b = best_of(gf, n);
            assert(g[b] == gf[b]);
            let j = choose|j: int| 0 <= j < front.len() && #[trigger] front[j] == gf[b];
            assert(packages[j] == gf[b]);
            assert(packages[j].name == name);
            lemma_version_order_reversed(gf[b].version, last.version);
        }
    } else {
        assert(front[i] == packages[i]);
        assert forall|j: int|
            0 <= j < front.len() && j != i && (#[trigger] front[j]).name
                == front[i].name implies version_order(
            front[j].version,
            front[i].version,
        ) == Order::Less by {
            assert(front[j] == packages[j]);
        }
        lemma_greatest_is_chosen(front, i);
        if last.name == name {
            let n = gf.len() as int;
            lemma_best_of_push(gf, last, n);
            lemma_best_of(gf, n);
            let b = best_of(gf, n);
            assert(g[b] == gf[b]);
            assert(packages[packages.len() - 1].name == packages[i].name);
        }
    }
}

/// The selection holds the package whose version is greater than that of
/// every other package of its name, in whatever order the packages come.
pub proof fn lemma_selection_holds_greatest(
    packages: Seq<FlatView>,
    chosen: Seq<FlatView>,
    i: int,
)
    requires
        is_selection(packages, chosen),
        0 <= i < packages.len(),
        forall|j: int|
            0 <= j < packages.len() && j != i && (#[trigger] packages[j]).name == packages[i].name
                ==> version_order(packages[j].version, packages[i].version) == Order::Less,
    ensures
        exists|k: int| 0 <= k < chosen.len() && #[trigger] chosen[k] == packages[i],
{
    lemma_greatest_is_chosen(packages, i);
    let k = choose|k: int|
        0 <= k < chosen.len() && (#[trigger] chosen[k]).name == (#[trigger] packages[i]).name;
    assert(chosen[k] == packages[i]);
}

/// Every package of a selection is one of the packages it was chosen from.
pub proof fn lemma_selection_members(packages: Seq<FlatView>, chosen: Seq<FlatView>)
    requires
        is_selection(packages, chosen),
    ensures
        forall|k: int|
            0 <= k < chosen.len() ==> exists|i: int|
                0 <= i < packages.len() && #[trigger] packages[i] == (#[trigger] chosen[k]),
{
    assert forall|k: int| 0 <= k < chosen.len() implies exists|i: int|
        0 <= i < packages.len() && #[trigger] packages[i] == (#[trigger] chosen[k]) by {
        let group = group_named(packages, chosen[k].name);
        lemma_group_named(packages, chosen[k].name);
        lemma_best_of(group, group.len() as int);
        let b = best_of(group, group.len() as int);
        assert(chosen[k] == group[b]);
        let i = choose|i: int| 0 <= i < packages.len() && #[trigger] packages[i] == group[b];
        assert(packages[i] == chosen[k]);
    }
}

/// A selection holds each name once.
pub proof fn lemma_selection_names_differ(packages: Seq<FlatView>, chosen: Seq<FlatView>)
    requires
        is_selection(packages, chosen),
    ensures
        forall|k: int, l: int|
            0 <= k < l < chosen.len() ==> (#[trigger] chosen[k]).name != (#[trigger] chosen[l]).name,
{
    assert forall|k: int, l: int| 0 <= k < l < chosen.len() implies (#[trigger] chosen[k]).name != (
    #[trigger] chosen[l]).name by {
        lemma_text_order_equal(chosen[k].name, chosen[l].name);
    }
}

/// Grouping goes on with a package whose name has a group: it joins the group.
proof fn lemma_grouping_joined(
    packages: Seq<FlatView>,
    grouped: Seq<Seq<FlatView>>,
    next: FlatView,
    k: int,
)
    requires
        is_grouping(packages, grouped),
        0 <= k < grouped.len(),
        grouped[k][0].name == next.name,
    ensures
        is_grouping(packages.push(next), grouped.update(k, grouped[k].push(next))),
{
    let more = packages.push(next);
    let after = grouped.update(k, grouped[k].push(next));
    assert(more.drop_last() =~= packages);
    assert forall|l: int| 0 <= l < after.len() implies (#[trigger] after[l]).len() > 0 && after[l]
        == group_named(more, after[l][0].name) by {
        assert(grouped[l].len() > 0);
        if l != k {
            assert(after[l] == grouped[l]);
            if l < k {
                assert(text_order(grouped[l][0].name, grouped[k][0].name) == Order::Less);
            } else {
                assert(text_order(grouped[k][0].name, grouped[l][0].name) == Order::Less);
            }
            lemma_text_order_equal(grouped[l][0].name, grouped[k][0].name);
            lemma_text_order_equal(grouped[k][0].name, grouped[l][0].name);
        } else {
            assert(after[k][0] == grouped[k][0]);
        }
    }
    assert forall|a: int, b: int| 0 <= a < b < after.len() implies text_order(
        (#[trigger] after[a])[0].name,
        (#[trigger] after[b])[0].name,
    ) == Order::Less by {
        assert(grouped[a].len() > 0 && grouped[b].len() > 0);
        assert(after[a][0] == grouped[a][0]);
        assert(after[b][0] == grouped[b][0]);
    }
    assert forall|i: int| 0 <= i < more.len() implies exists|l: int|
        0 <= l < after.len() && (#[trigger] after[l])[0].name == (#[trigger] more[i]).name by {
        if i < packages.len() {
            assert(more[i] == packages[i]);
            let l = choose|l: int|
                0 <= l < grouped.len() && (#[trigger] grouped[l])[0].name == (
                #[trigger] packages[i]).name;
            assert(grouped[l].len() > 0);
            assert(after[l][0] == grouped[l][0]);
        } else {
            assert(grouped[k].len() > 0);
            assert(after[k][0] == grouped[k][0]);
        }
    }
}

/// Grouping goes on with a package whose name has no group: it makes a
/// group of its own, at the place that its name gives it.
proof fn lemma_grouping_opened(
    packages: Seq<FlatView>,
    grouped: Seq<Seq<FlatView>>,
    next: FlatView,
    k: int,
)
    requires
        is_grouping(packages, grouped),
        0 <= k <= grouped.len(),
        forall|l: int|
            0 <= l < k ==> text_order((#[trigger] grouped[l])[0].name, next.name) == Order::Less,
        k < grouped.len() ==> text_order(grouped[k][0].name, next.name) == Order::Greater,
    ensures
        is_grouping(packages.push(next), grouped.insert(k, seq![next])),
{
    let more = packages.push(next);
    let after = grouped.insert(k, seq![next]);
    assert(more.drop_last() =~= packages);
    assert forall|l: int| 0 <= l < grouped.len() implies (#[trigger] grouped[l])[0].name
        != next.name && (l >= k ==> text_order(next.name, grouped[l][0].name) == Order::Less) by {
        lemma_text_order_equal(grouped[l][0].name, next.name);
        if l >= k {
            lemma_text_order_reversed(grouped[k][0].name, next.name);
            if l > k {
                assert(text_order(grouped[k][0].name, grouped[l][0].name) == Order::Less);
                lemma_text_order_transitive(next.name, grouped[k][0].name, grouped[l][0].name);
            }
            lemma_text_order_reversed(next.name, grouped[l][0].name);
        }
    }
    assert forall|i: int| 0 <= i < packages.len() implies (#[trigger] packages[i]).name
        != next.name by {
        let l = choose|l: int|
            0 <= l < grouped.len() && (#[trigger] grouped[l])[0].name == (
            #[trigger] packages[i]).name;
    }
    lemma_group_named(packages, next.name);
    assert(group_named(packages, next.name).len() == 0) by {
        if group_named(packages, next.name).len() > 0 {
            let g = group_named(packages, next.name);
            let i = choose|i: int| 0 <= i < packages.len() && #[trigger] packages[i] == g[0];
            assert(g[0].name == next.name);
        }
    }
    assert(group_named(more, next.name) =~= seq![next]);
    assert forall|l: int| 0 <= l < after.len() implies (#[trigger] after[l]).len() > 0 && after[l]
        == group_named(more, after[l][0].name) by {
        if l < k {
            assert(after[l] == grouped[l]);
        } else if l > k {
            assert(after[l] == grouped[l - 1]);
        }
    }
    assert forall|a: int, b: int| 0 <= a < b < after.len() implies text_order(
        (#[trigger] after[a])[0].name,
        (#[trigger] after[b])[0].name,
    ) == Order::Less by {
        if b < k {
            assert(after[a] == grouped[a] && after[b] == grouped[b]);
        } else if b == k {
            assert(after[a] == grouped[a]);
        } else if a == k {
            assert(after[b] == grouped[b - 1]);
        } else if a < k {
            assert(after[a] == grouped[a] && after[b] == grouped[b - 1]);
        } else {
            assert(after[a] == grouped[a - 1] && after[b] == grouped[b - 1]);
        }
    }
    assert forall|i: int| 0 <= i < more.len() implies exists|l: int|
        0 <= l < after.len() && (#[trigger] after[l])[0].name == (#[trigger] more[i]).name by {
        if i < packages.len() {
            assert(more[i] == packages[i]);
            let l = choose|l: int|
                0 <= l < grouped.len() && (#[trigger] grouped[l])[0].name == (
                #[trigger] packages[i]).name;
            if l < k {
                assert(after[l] == grouped[l]);
            } else {
                assert(after[l + 1] == grouped[l]);
            }
        } else {
            assert(after[k] == seq![next]);
        }
    }
}

/// Where a name stands among the groups: the place of the first group whose
/// name does not come before it, and whether that group has the name.
fn group_place(held: &Vec<Vec<FlatPackage>>, name: &Vec<char>) -> (r: (usize, bool))
    requires
        forall|k: int| 0 <= k < held.len() ==> (#[trigger] groups(held@)[k]).len() > 0,
    ensures
        r.0 <= held.len(),
        forall|l: int|
            0 <= l < r.0 ==> text_order((#[trigger] groups(held@)[l])[0].name, name@)
                == Order::Less,
        r.1 ==> r.0 < held.len() && groups(held@)[r.0 as int][0].name == name@,
        !r.1 && r.0 < held.len() ==> text_order(groups(held@)[r.0 as int][0].name, name@)
            == Order::Greater,
{
    let mut k: usize = 0;
    while k < held.len()
        invariant
            k <= held.len(),
            forall|k: int| 0 <= k < held.len() ==> (#[trigger] groups(held@)[k]).len() > 0,
            forall|l: int|
                0 <= l < k ==> text_order((#[trigger] groups(held@)[l])[0].name, name@)
                    == Order::Less,
        decreases held.len() - k,
    {
        assert(groups(held@)[k as int].len() > 0);
        let o = compare_text(&chars_of(held[k][0].name.as_str()), name);
        proof {
            lemma_text_order_equal(groups(held@)[k as int][0].name, name@);
        }
        if o == Order::Equal {
            return (k, true);
        }
        if o == Order::Greater {
            return (k, false);
        }
        k += 1;
    }
    (k, false)
}

/// The packages grouped by name, see `is_grouping`.
pub fn group_by(xs: Vec<FlatPackage>) -> (r: Vec<Vec<FlatPackage>>)
    ensures
        is_grouping(flats(xs@), groups(r@)),
{
    let mut held: Vec<Vec<FlatPackage>> = Vec::new();
    let mut i: usize = 0;
    assert(flats(xs@).take(0) =~= Seq::<FlatView>::empty());
    while i < xs.len()
        invariant
            i <= xs.len(),
            is_grouping(flats(xs@).take(i as int), groups(held@)),
        decreases xs.len() - i,
    {
        let ghost done = flats(xs@).take(i as int);
        let ghost before = groups(held@);
        assert(flats(xs@).take(i + 1) =~= done.push(xs@[i as int]@));
        let next = xs[i].clone();
        let name = chars_of(next.name.as_str());
        let (k, found) = group_place(&held, &name);
        if found {
            let ghost old_held = held@;
            let mut group = held.remove(k);
            group.push(next);
            let ghost joined = flats(group@);
            assert(joined =~= before[k as int].push(next@));
            held.insert(k, group);
            proof {
                assert forall|l: int| 0 <= l < held@.len() implies groups(held@)[l]
                    == before.update(k as int, before[k as int].push(next@))[l] by {
                    if l != k {
                        assert(held@[l] == old_held[l]);
                    }
                }
                assert(groups(held@) =~= before.update(k as int, before[k as int].push(next@)));
                lemma_grouping_joined(done, before, next@, k as int);
            }
        } else {
            let ghost old_held = held@;
            let mut group: Vec<FlatPackage> = Vec::new();
            group.push(next);
            assert(flats(group@) =~= seq![next@]);
            held.insert(k, group);
            proof {
                assert forall|l: int| 0 <= l < held@.len() implies groups(held@)[l]
                    == before.insert(k as int, seq![next@])[l] by {
                    if l < k {
                        assert(held@[l] == old_held[l]);
                    } else if l > k {
                        assert(held@[l] == old_held[l - 1]);
                    }
                }
                assert(groups(held@) =~= before.insert(k as int, seq![next@]));
                lemma_grouping_opened(done, before, next@, k as int);
            }
        }
        i += 1;
    }
    assert(flats(xs@).take(xs.len() as int) =~= flats(xs@));
    held
}

/// The package that is chosen of a group, see `greatest`.
pub fn select_greatest(group: &Vec<FlatPackage>) -> (r: FlatPackage)
    requires
        group.len() > 0,
    ensures
        r@ == greatest(flats(group@)),
{
    let mut best: usize = 0;
    let mut n: usize = 1;
    while n < group.len()
        invariant
            1 <= n <= group.len(),
            best == best_of(flats(group@), n as int),
            best < n,
        decreases group.len() - n,
    {
        if group[n].version.compare(&group[best].version) == Order::Greater {
            best = n;
        }
        n += 1;
    }
    group[best].clone()
}

/// Of each group, the package that is chosen, in the order of the groups.
pub fn resolve(grouped: Vec<Vec<FlatPackage>>) -> (r: Vec<FlatPackage>)
    requires
        forall|k: int| 0 <= k < grouped.len() ==> (#[trigger] grouped[k]).len() > 0,
    ensures
        r.len() == grouped.len(),
        forall|k: int|
            0 <= k < r.len() ==> (#[trigger] flats(r@)[k]) == greatest(groups(grouped@)[k]),
{
    let mut out: Vec<FlatPackage> = Vec::new();
    let mut k: usize = 0;
    while k < grouped.len()
        invariant
            k <= grouped.len(),
            out.len() == k,
            forall|k: int| 0 <= k < grouped.len() ==> (#[trigger] grouped[k]).len() > 0,
            forall|l: int|
                0 <= l < k ==> (#[trigger] flats(out@)[l]) == greatest(groups(grouped@)[l]),
        decreases grouped.len() - k,
    {
        assert(grouped[k as int].len() > 0);
        let chosen = select_greatest(&grouped[k]);
        let ghost before = flats(out@);
        out.push(chosen);
        assert(flats(out@) =~= before.push(chosen@));
        k += 1;
    }
    out
}

/// Of the packages of each name the one with the greatest version, in the
/// order of the names, see `is_selection`.
pub fn merge_and_select(packages: Vec<FlatPackage>) -> (r: Vec<FlatPackage>)
    ensures
        is_selection(flats(packages@), flats(r@)),
{
    let ghost all = flats(packages@);
    let grouped = group_by(packages);
    let ghost gs = groups(grouped@);
    assert forall|k: int| 0 <= k < grouped.len() implies (#[trigger] grouped[k]).len() > 0 by {
        assert(gs[k].len() > 0);
    }
    let chosen = resolve(grouped);
    proof {
        let cs = flats(chosen@);
        assert forall|k: int| 0 <= k < cs.len() implies (#[trigger] cs[k]).name == gs[k][0].name
            && cs[k] == greatest(group_named(all, gs[k][0].name)) by {
            assert(gs[k].len() > 0);
            assert(cs[k] == greatest(gs[k]));
            lemma_best_of(gs[k], gs[k].len() as int);
            lemma_group_named(all, gs[k][0].name);
        }
        assert forall|i: int| 0 <= i < all.len() implies exists|k: int|
            0 <= k < cs.len() && (#[trigger] cs[k]).name == (#[trigger] all[i]).name by {
            let k = choose|k: int|
                0 <= k < gs.len() && (#[trigger] gs[k])[0].name == (#[trigger] all[i]).name;
            assert(cs[k].name == all[i].name);
        }
        assert forall|k: int, l: int| 0 <= k < l < cs.len() implies text_order(
            (#[trigger] cs[k]).name,
            (#[trigger] cs[l]).name,
        ) == Order::Less by {
            assert(text_order(gs[k][0].name, gs[l][0].name) == Order::Less);
        }
    }
    chosen
}

} // verus!
