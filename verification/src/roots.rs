//! Which plugins a set of trees refers to, which of the roots none of them
//! refers to, and the list that is handed out in the end.

use crate::flatten::{all_pinned, flatten_node, lemma_flatten_pinned};
use crate::input::{
    flat_of, flats, lemma_dependencies_view, nodes, FlatPackage, FlatView, NodeView,
    SatisfiedPackage,
};
use crate::selection::{
    best_of, group_named, is_selection, lemma_best_of, lemma_group_named,
    lemma_selection_members, merge_and_select,
};
use vstd::prelude::*;

verus! {

/// The plugins that a tree refers to, each as often as the tree is walked
/// past it: the first dependency of the root, then what the trees of all
/// the root's dependencies refer to, then the root's other dependencies.
/// The root itself is not among them.
pub open spec fn referenced(node: NodeView) -> Seq<NodeView>
    decreases node, 1nat, 0nat,
{
    if node.dependencies.len() == 0 {
        Seq::empty()
    } else {
        seq![node.dependencies[0]] + referenced_each(node, 0) + node.dependencies.skip(1)
    }
}

/// What the trees of a root's dependencies from position `from` on refer to.
pub open spec fn referenced_each(node: NodeView, from: int) -> Seq<NodeView>
    decreases node, 0nat, node.dependencies.len() - from,
{
    if from < 0 || from >= node.dependencies.len() {
        Seq::empty()
    } else {
        referenced(node.dependencies[from]) + referenced_each(node, from + 1)
    }
}

/// What the trees refer to, tree after tree.
pub open spec fn referenced_all(roots: Seq<NodeView>) -> Seq<NodeView>
    decreases roots.len(),
{
    if roots.len() == 0 {
        Seq::empty()
    } else {
        referenced_all(roots.drop_last()) + referenced(roots.last())
    }
}

/// Whether one of the plugins has the given name.
pub open spec fn has_name(found: Seq<NodeView>, name: Seq<char>) -> bool {
    exists|i: int| 0 <= i < found.len() && (#[trigger] found[i]).name == name
}

/// The plugins found so far, and behind them those of `more` whose name was
/// not found before them, in their order.
pub open spec fn add_new(found: Seq<NodeView>, more: Seq<NodeView>) -> Seq<NodeView>
    decreases more.len(),
{
    if more.len() == 0 {
        found
    } else {
        let front = add_new(found, more.drop_last());
        if has_name(front, more.last().name) {
            front
        } else {
            front.push(more.last())
        }
    }
}

/// The roots, among the first `n`, to which none of the trees refers.
pub open spec fn unreferenced_upto(roots: Seq<NodeView>, n: int) -> Seq<NodeView>
    decreases n,
{
    if n <= 0 {
        Seq::empty()
    } else if has_name(referenced_all(roots), roots[n - 1].name) {
        unreferenced_upto(roots, n - 1)
    } else {
        unreferenced_upto(roots, n - 1).push(roots[n - 1])
    }
}

/// The roots to which none of the trees refers, in their order.
pub open spec fn unreferenced(roots: Seq<NodeView>) -> Seq<NodeView> {
    unreferenced_upto(roots, roots.len() as int)
}

/// The lists of the trees, one after the other.
pub open spec fn flatten_all(roots: Seq<NodeView>) -> Seq<FlatView>
    decreases roots.len(),
{
    if roots.len() == 0 {
        Seq::empty()
    } else {
        flatten_all(roots.drop_last()) + flatten_node(roots.last())
    }
}

/// The list entries of the roots of trees.
pub open spec fn flat_roots(roots: Seq<NodeView>) -> Seq<FlatView> {
    Seq::new(roots.len(), |i: int| flat_of(roots[i]))
}

/// The packages among which the list that is handed out chooses: every
/// plugin of every tree, or, where only roots are wanted, the roots to
/// which no tree refers.
pub open spec fn candidates(roots: Seq<NodeView>, root_only: bool) -> Seq<FlatView> {
    if root_only {
        flat_roots(unreferenced(roots))
    } else {
        flatten_all(roots)
    }
}

/// The views of a sequence of borrowed trees.
pub open spec fn borrowed(held: Seq<&SatisfiedPackage>) -> Seq<NodeView> {
    Seq::new(held.len(), |i: int| (*held[i])@)
}

/// What the trees of a root's dependencies from some position on refer to
/// is what the tree of one of those dependencies refers to.
pub proof fn lemma_referenced_each(node: NodeView, from: int)
    requires
        0 <= from,
    ensures
        forall|x: NodeView|
            referenced_each(node, from).contains(x) <==> exists|k: int|
                from <= k < node.dependencies.len() && referenced(
                    #[trigger] node.dependencies[k],
                ).contains(x),
    decreases node.dependencies.len() - from,
{
    if from < node.dependencies.len() {
        lemma_referenced_each(node, from + 1);
        let first = referenced(node.dependencies[from]);
        let rest = referenced_each(node, from + 1);
        assert forall|x: NodeView|
            referenced_each(node, from).contains(x) <==> exists|k: int|
                from <= k < node.dependencies.len() && referenced(
                    #[trigger] node.dependencies[k],
                ).contains(x) by {
            if (first + rest).contains(x) {
                let i = choose|i: int| 0 <= i < (first + rest).len() && (first + rest)[i] == x;
                if i < first.len() {
                    assert(first[i] == x);
                    assert(referenced(node.dependencies[from]).contains(x));
                } else {
                    assert(rest[i - first.len()] == x);
                    assert(rest.contains(x));
                }
            }
            if exists|k: int|
                from <= k < node.dependencies.len() && referenced(
                    #[trigger] node.dependencies[k],
                ).contains(x) {
                let k = choose|k: int|
                    from <= k < node.dependencies.len() && referenced(
                        #[trigger] node.dependencies[k],
                    ).contains(x);
                if k == from {
                    let i = choose|i: int| 0 <= i < first.len() && first[i] == x;
                    assert((first + rest)[i] == x);
                } else {
                    assert(rest.contains(x));
                    let i = choose|i: int| 0 <= i < rest.len() && rest[i] == x;
                    assert((first + rest)[first.len() + i] == x);
                }
            }
        }
    }
}

/// A tree refers to the dependencies of its root and to what their trees
/// refer to, and to nothing else: to every plugin below the root, at
/// whatever depth.
pub proof fn lemma_referenced(node: NodeView)
    ensures
        forall|x: NodeView|
            referenced(node).contains(x) <==> node.dependencies.contains(x) || exists|k: int|
                0 <= k < node.dependencies.len() && referenced(
                    #[trigger] node.dependencies[k],
                ).contains(x),
{
    lemma_referenced_each(node, 0);
    let held = node.dependencies;
    if held.len() > 0 {
        let head = seq![held[0]];
        let deep = referenced_each(node, 0);
        let others = held.skip(1);
        let all = head + deep + others;
        assert forall|x: NodeView|
            referenced(node).contains(x) <==> held.contains(x) || deep.contains(x) by {
            if all.contains(x) {
                let i = choose|i: int| 0 <= i < all.len() && all[i] == x;
                if i == 0 {
                    assert(held[0] == x);
                } else if i < 1 + deep.len() {
                    assert(deep[i - 1] == x);
                } else {
                    assert(others[i - 1 - deep.len()] == x);
                    assert(held[i - deep.len()] == x);
                }
            }
            if held.contains(x) {
                let j = choose|j: int| 0 <= j < held.len() && held[j] == x;
                if j == 0 {
                    assert(all[0] == x);
                } else {
                    assert(others[j - 1] == x);
                    assert(all[1 + deep.len() + j - 1] == x);
                }
            }
            if deep.contains(x) {
                let i = choose|i: int| 0 <= i < deep.len() && deep[i] == x;
                assert(all[1 + i] == x);
            }
        }
    } else {
        assert forall|x: NodeView| !referenced(node).contains(x) by {}
    }
}

/// Adding in two steps is adding all at once.
pub proof fn lemma_add_new_concat(found: Seq<NodeView>, a: Seq<NodeView>, b: Seq<NodeView>)
    ensures
        add_new(found, a + b) == add_new(add_new(found, a), b),
    decreases b.len(),
{
    if b.len() == 0 {
        assert(a + b =~= a);
    } else {
        assert((a + b).drop_last() =~= a + b.drop_last());
        lemma_add_new_concat(found, a, b.drop_last());
    }
}

/// What was found stays, a name is found afterwards exactly where it was
/// found before or is among the added, and no name is found twice that was
/// not found twice before.
pub proof fn lemma_add_new(found: Seq<NodeView>, more: Seq<NodeView>)
    ensures
        add_new(found, more).len() >= found.len(),
        add_new(found, more).take(found.len() as int) == found,
        forall|name: Seq<char>|
            has_name(add_new(found, more), name) <==> has_name(found, name) || has_name(more, name),
        forall|i: int, j: int|
            found.len() <= j < add_new(found, more).len() && 0 <= i < j ==> (#[trigger] add_new(
                found,
                more,
            )[i]).name != (#[trigger] add_new(found, more)[j]).name,
    decreases more.len(),
{
    let out = add_new(found, more);
    if more.len() == 0 {
        assert(out.take(found.len() as int) =~= found);
        assert forall|name: Seq<char>| has_name(out, name) <==> has_name(found, name) || has_name(
            more,
            name,
        ) by {}
    } else {
        let front_more = more.drop_last();
        let last = more.last();
        let front = add_new(found, front_more);
        lemma_add_new(found, front_more);
        assert(out.take(found.len() as int) =~= front.take(found.len() as int));
        assert forall|name: Seq<char>| has_name(out, name) <==> has_name(found, name) || has_name(
            more,
            name,
        ) by {
            if has_name(out, name) {
                let i = choose|i: int| 0 <= i < out.len() && (#[trigger] out[i]).name == name;
                if i < front.len() {
                    assert(front[i].name == name);
                    assert(has_name(front, name));
                    if !has_name(found, name) {
                        let j = choose|j: int|
                            0 <= j < front_more.len() && (#[trigger] front_more[j]).name == name;
                        assert(more[j].name == name);
                    }
                } else {
                    assert(more[more.len() - 1].name == name);
                }
            }
            if has_name(found, name) {
                assert(has_name(front, name));
                let i = choose|i: int| 0 <= i < front.len() && (#[trigger] front[i]).name == name;
                assert(out[i].name == name);
            }
            if has_name(more, name) {
                let j = choose|j: int| 0 <= j < more.len() && (#[trigger] more[j]).name == name;
                if j < front_more.len() {
                    assert(front_more[j].name == name);
                    assert(has_name(front, name));
                    let i = choose|i: int|
                        0 <= i < front.len() && (#[trigger] front[i]).name == name;
                    assert(out[i].name == name);
                } else if has_name(front, last.name) {
                    let i = choose|i: int|
                        0 <= i < front.len() && (#[trigger] front[i]).name == name;
                    assert(out[i].name == name);
                } else {
                    assert(out[out.len() - 1].name == name);
                }
            }
        }
        assert forall|i: int, j: int|
            found.len() <= j < out.len() && 0 <= i < j implies (#[trigger] out[i]).name != (
        #[trigger] out[j]).name by {
            if j < front.len() {
                assert(out[i] == front[i] && out[j] == front[j]);
            } else {
                assert(out[i] == front[i]);
            }
        }
    }
}

/// The roots to which no tree refers are roots, and no tree refers to them.
pub proof fn lemma_unreferenced(roots: Seq<NodeView>, n: int)
    requires
        0 <= n <= roots.len(),
    ensures
        forall|k: int|
            0 <= k < unreferenced_upto(roots, n).len() ==> !has_name(
                referenced_all(roots),
                (#[trigger] unreferenced_upto(roots, n)[k]).name,
            ) && exists|i: int| 0 <= i < n && #[trigger] roots[i] == unreferenced_upto(roots, n)[k],
    decreases n,
{
    if n > 0 {
        lemma_unreferenced(roots, n - 1);
        let out = unreferenced_upto(roots, n);
        let front = unreferenced_upto(roots, n - 1);
        assert forall|k: int| 0 <= k < out.len() implies !has_name(
            referenced_all(roots),
            (#[trigger] out[k]).name,
        ) && exists|i: int| 0 <= i < n && #[trigger] roots[i] == out[k] by {
            if k < front.len() {
                assert(out[k] == front[k]);
                let i = choose|i: int| 0 <= i < n - 1 && #[trigger] roots[i] == front[k];
                assert(roots[i] == out[k]);
            } else {
                assert(roots[n - 1] == out[k]);
            }
        }
    }
}

/// Where only roots are wanted, the list that is handed out holds nothing
/// but roots, and none to which a tree refers.
pub proof fn lemma_root_only_selection(roots: Seq<NodeView>, chosen: Seq<FlatView>)
    requires
        is_selection(candidates(roots, true), chosen),
    ensures
        forall|k: int|
            0 <= k < chosen.len() ==> !has_name(referenced_all(roots), (#[trigger] chosen[k]).name)
                && exists|i: int| 0 <= i < roots.len() && flat_of(#[trigger] roots[i]) == chosen[k],
{
    let free = unreferenced(roots);
    let among = candidates(roots, true);
    lemma_unreferenced(roots, roots.len() as int);
    assert forall|k: int| 0 <= k < chosen.len() implies !has_name(
        referenced_all(roots),
        (#[trigger] chosen[k]).name,
    ) && exists|i: int| 0 <= i < roots.len() && flat_of(#[trigger] roots[i]) == chosen[k] by {
        let group = group_named(among, chosen[k].name);
        lemma_group_named(among, chosen[k].name);
        lemma_best_of(group, group.len() as int);
        let b = best_of(group, group.len() as int);
        assert(chosen[k] == group[b]);
        let j = choose|j: int| 0 <= j < among.len() && #[trigger] among[j] == group[b];
        assert(among[j] == flat_of(free[j]));
        let i = choose|i: int| 0 <= i < roots.len() && #[trigger] roots[i] == free[j];
        assert(flat_of(roots[i]) == chosen[k]);
    }
}

/// Every candidate is marked as pinned.
pub proof fn lemma_candidates_pinned(roots: Seq<NodeView>, root_only: bool)
    ensures
        all_pinned(candidates(roots, root_only)),
    decreases roots.len(),
{
    if !root_only && roots.len() > 0 {
        lemma_candidates_pinned(roots.drop_last(), false);
        lemma_flatten_pinned(roots.last());
        let front = flatten_all(roots.drop_last());
        let last = flatten_node(roots.last());
        assert forall|i: int| 0 <= i < (front + last).len() implies (#[trigger] (front + last)[i]).pin by {
            if i < front.len() {
                assert((front + last)[i] == front[i]);
            } else {
                assert((front + last)[i] == last[i - front.len()]);
            }
        }
    }
}

/// Every package of the list that is handed out is marked as pinned.
pub proof fn lemma_selection_pinned(roots: Seq<NodeView>, root_only: bool, chosen: Seq<FlatView>)
    requires
        is_selection(candidates(roots, root_only), chosen),
    ensures
        all_pinned(chosen),
{
    let among = candidates(roots, root_only);
    lemma_candidates_pinned(roots, root_only);
    lemma_selection_members(among, chosen);
    assert forall|k: int| 0 <= k < chosen.len() implies (#[trigger] chosen[k]).pin by {
        let i = choose|i: int| 0 <= i < among.len() && #[trigger] among[i] == chosen[k];
        assert(among[i].pin);
    }
}

/// Whether one of the plugins found has the given name.
fn knows(found: &Vec<SatisfiedPackage>, name: &String) -> (r: bool)
    ensures
        r == has_name(nodes(found@), name@),
{
    let mut i: usize = 0;
    while i < found.len()
        invariant
            i <= found.len(),
            forall|j: int| 0 <= j < i ==> (#[trigger] nodes(found@)[j]).name != name@,
        decreases found.len() - i,
    {
        if found[i].name == *name {
            assert(nodes(found@)[i as int].name == name@);
            return true;
        }
        i += 1;
    }
    false
}

/// Adds a plugin to those found, unless its name was found before.
fn note(found: &mut Vec<SatisfiedPackage>, package: &SatisfiedPackage)
    ensures
        nodes(final(found)@) == add_new(nodes(old(found)@), seq![package@]),
{
    let ghost before = nodes(found@);
    let ghost one = seq![package@];
    assert(one.drop_last() =~= Seq::<NodeView>::empty());
    assert(add_new(before, one.drop_last()) == before);
    assert(one.last() == package@);
    if !knows(found, &package.name) {
        found.push(package.clone());
        assert(nodes(found@) =~= before.push(package@));
    }
}

/// Adds the plugins that a tree refers to, in the order of `referenced`.
fn visit(package: &SatisfiedPackage, found: &mut Vec<SatisfiedPackage>)
    ensures
        nodes(final(found)@) == add_new(nodes(old(found)@), referenced(package@)),
    decreases package,
{
    let ghost start = nodes(found@);
    let ghost node = package@;
    proof {
        lemma_dependencies_view(package);
    }
    if package.dependencies.len() == 0 {
        return;
    }
    note(found, &package.dependencies[0]);
    let ghost first = nodes(found@);
    let mut k: usize = 0;
    while k < package.dependencies.len()
        invariant
            k <= package.dependencies.len(),
            node == package@,
            node.dependencies == nodes(package.dependencies@),
            add_new(nodes(found@), referenced_each(node, k as int)) == add_new(
                first,
                referenced_each(node, 0),
            ),
        decreases package.dependencies.len() - k,
    {
        let ghost before = nodes(found@);
        visit(&package.dependencies[k], found);
        proof {
            lemma_add_new_concat(
                before,
                referenced(node.dependencies[k as int]),
                referenced_each(node, k + 1),
            );
        }
        k += 1;
    }
    let ghost second = nodes(found@);
    let mut k: usize = 1;
    while k < package.dependencies.len()
        invariant
            1 <= k <= package.dependencies.len(),
            node == package@,
            node.dependencies == nodes(package.dependencies@),
            add_new(nodes(found@), node.dependencies.skip(k as int)) == add_new(
                second,
                node.dependencies.skip(1),
            ),
        decreases package.dependencies.len() - k,
    {
        let ghost before = nodes(found@);
        note(found, &package.dependencies[k]);
        proof {
            assert(node.dependencies.skip(k as int) =~= seq![node.dependencies[k as int]]
                + node.dependencies.skip(k + 1));
            lemma_add_new_concat(
                before,
                seq![node.dependencies[k as int]],
                node.dependencies.skip(k + 1),
            );
        }
        k += 1;
    }
    proof {
        assert(node.dependencies.skip(package.dependencies.len() as int) =~= Seq::<
            NodeView,
        >::empty());
        lemma_add_new_concat(start, seq![node.dependencies[0]], referenced_each(node, 0));
        lemma_add_new_concat(
            start,
            seq![node.dependencies[0]] + referenced_each(node, 0),
            node.dependencies.skip(1),
        );
    }
}

/// The plugins that the trees refer to, each name once: of the plugins of
/// one name, the one that is met first in the order of `referenced_all`.
pub fn flatten_dependencies(pkgs: &Vec<SatisfiedPackage>) -> (r: Vec<SatisfiedPackage>)
    ensures
        nodes(r@) == add_new(Seq::empty(), referenced_all(nodes(pkgs@))),
{
    let mut found: Vec<SatisfiedPackage> = Vec::new();
    let mut i: usize = 0;
    assert(nodes(pkgs@).take(0) =~= Seq::<NodeView>::empty());
    assert(nodes(found@) =~= Seq::<NodeView>::empty());
    while i < pkgs.len()
        invariant
            i <= pkgs.len(),
            nodes(found@) == add_new(Seq::empty(), referenced_all(nodes(pkgs@).take(i as int))),
        decreases pkgs.len() - i,
    {
        let ghost upto = nodes(pkgs@).take(i + 1);
        assert(upto.drop_last() =~= nodes(pkgs@).take(i as int));
        assert(upto.last() == pkgs@[i as int]@);
        proof {
            lemma_add_new_concat(
                Seq::empty(),
                referenced_all(nodes(pkgs@).take(i as int)),
                referenced(pkgs@[i as int]@),
            );
        }
        visit(&pkgs[i], &mut found);
        i += 1;
    }
    assert(nodes(pkgs@).take(pkgs.len() as int) =~= nodes(pkgs@));
    found
}

/// The roots to which none of the trees refers, in their order.
pub fn filter_referenced(packages: &Vec<SatisfiedPackage>) -> (r: Vec<&SatisfiedPackage>)
    ensures
        borrowed(r@) == unreferenced(nodes(packages@)),
{
    let all = flatten_dependencies(packages);
    let ghost roots = nodes(packages@);
    proof {
        lemma_add_new(Seq::empty(), referenced_all(roots));
    }
    let mut out: Vec<&SatisfiedPackage> = Vec::new();
    let mut i: usize = 0;
    assert(borrowed(out@) =~= Seq::<NodeView>::empty());
    while i < packages.len()
        invariant
            i <= packages.len(),
            roots == nodes(packages@),
            forall|name: Seq<char>|
                has_name(nodes(all@), name) <==> has_name(referenced_all(roots), name),
            borrowed(out@) == unreferenced_upto(roots, i as int),
        decreases packages.len() - i,
    {
        if !knows(&all, &packages[i].name) {
            let ghost before = borrowed(out@);
            out.push(&packages[i]);
            assert(borrowed(out@) =~= before.push(packages@[i as int]@));
        }
        i += 1;
    }
    out
}

/// The list that is handed out of a set of trees: of the candidates of
/// each name the one with the greatest version, in the order of the names.
/// The candidates are all the plugins of the trees, or, where `root_only`
/// is set, the roots to which no tree refers.
pub fn package_set(graph: &Vec<SatisfiedPackage>, root_only: bool) -> (r: Vec<FlatPackage>)
    ensures
        is_selection(candidates(nodes(graph@), root_only), flats(r@)),
        all_pinned(flats(r@)),
{
    let mut packages: Vec<FlatPackage> = Vec::new();
    if root_only {
        let roots = filter_referenced(graph);
        let mut i: usize = 0;
        while i < roots.len()
            invariant
                i <= roots.len(),
                packages.len() == i,
                forall|j: int| 0 <= j < i ==> packages@[j]@ == flat_of(#[trigger] borrowed(roots@)[j]),
            decreases roots.len() - i,
        {
            let p = roots[i];
            packages.push(
                FlatPackage {
                    name: p.name.clone(),
                    version: p.version.clone(),
                    digest_string: p.digest_string.clone(),
                    digest_type: p.digest_type.clone(),
                    pin: true,
                },
            );
            i += 1;
        }
        assert(flats(packages@) =~= flat_roots(unreferenced(nodes(graph@))));
    } else {
        let mut i: usize = 0;
        assert(nodes(graph@).take(0) =~= Seq::<NodeView>::empty());
        assert(flats(packages@) =~= Seq::<FlatView>::empty());
        while i < graph.len()
            invariant
                i <= graph.len(),
                flats(packages@) == flatten_all(nodes(graph@).take(i as int)),
            decreases graph.len() - i,
        {
            let ghost upto = nodes(graph@).take(i + 1);
            assert(upto.drop_last() =~= nodes(graph@).take(i as int));
            assert(upto.last() == graph@[i as int]@);
            let mut part = graph[i].flatten();
            let ghost before = flats(packages@);
            let ghost added = flats(part@);
            packages.append(&mut part);
            assert(flats(packages@) =~= before + added);
            i += 1;
        }
        assert(nodes(graph@).take(graph.len() as int) =~= nodes(graph@));
    }
    let chosen = merge_and_select(packages);
    proof {
        lemma_selection_pinned(nodes(graph@), root_only, flats(chosen@));
    }
    chosen
}

} // verus!
