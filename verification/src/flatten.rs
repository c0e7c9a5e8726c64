//! The list of the plugins of a tree, in the order of their names.

use crate::input::{
    flat_of, flats, lemma_dependencies_view, nodes, FlatPackage, FlatView, NodeView,
    SatisfiedPackage,
};
use crate::order::Order;
use crate::text::{
    chars_of, compare_text, lemma_text_order_reversed, lemma_text_order_transitive, text_order,
};
use vstd::prelude::*;

verus! {

/// Whether the first name does not come after the second.
pub open spec fn name_le(a: Seq<char>, b: Seq<char>) -> bool {
    text_order(a, b) != Order::Greater
}

/// Whether the names of the list entries never go down.
pub open spec fn sorted_by_name(list: Seq<FlatView>) -> bool {
    forall|i: int, j: int| 0 <= i < j < list.len() ==> name_le(list[i].name, list[j].name)
}

/// Where a new entry goes into a list: behind the last entry whose name does
/// not come after the new entry's name.
pub open spec fn insert_place(list: Seq<FlatView>, entry: FlatView) -> int
    decreases list.len(),
{
    if list.len() == 0 {
        0
    } else if name_le(list.last().name, entry.name) {
        list.len() as int
    } else {
        insert_place(list.drop_last(), entry)
    }
}

/// The entries in the order of their names; entries of one name keep the
/// order that they had.
pub open spec fn sort_by_name(list: Seq<FlatView>) -> Seq<FlatView>
    decreases list.len(),
{
    if list.len() == 0 {
        Seq::empty()
    } else {
        let front = sort_by_name(list.drop_last());
        front.insert(insert_place(front, list.last()), list.last())
    }
}

/// The list of a tree: the lists of its dependencies one after the other,
/// then the plugin at the root, all marked as pinned and brought into the
/// order of their names.
pub open spec fn flatten_node(node: NodeView) -> Seq<FlatView>
    decreases node, 1nat, 0nat,
{
    sort_by_name(flatten_each(node, 0).push(flat_of(node)))
}

/// The lists of the dependencies of a tree from position `from` on, one
/// after the other.
pub open spec fn flatten_each(node: NodeView, from: int) -> Seq<FlatView>
    decreases node, 0nat, node.dependencies.len() - from,
{
    if from < 0 || from >= node.dependencies.len() {
        Seq::empty()
    } else {
        flatten_node(node.dependencies[from]) + flatten_each(node, from + 1)
    }
}

/// Where a new entry goes: a place in the list or at its end, behind entries
/// that do not come after it, before entries that do.
pub proof fn lemma_insert_place(list: Seq<FlatView>, entry: FlatView)
    ensures
        0 <= insert_place(list, entry) <= list.len(),
        insert_place(list, entry) > 0 ==> name_le(
            list[insert_place(list, entry) - 1].name,
            entry.name,
        ),
        forall|j: int|
            insert_place(list, entry) <= j < list.len() ==> !name_le(
                (#[trigger] list[j]).name,
                entry.name,
            ),
    decreases list.len(),
{
    if list.len() > 0 && !name_le(list.last().name, entry.name) {
        lemma_insert_place(list.drop_last(), entry);
        let p = insert_place(list.drop_last(), entry);
        assert forall|j: int| p <= j < list.len() implies !name_le(
            (#[trigger] list[j]).name,
            entry.name,
        ) by {
            if j < list.len() - 1 {
                assert(list.drop_last()[j] == list[j]);
            }
        }
    }
}

/// Sorting keeps the number of entries, and gives a list whose names never
/// go down.
pub proof fn lemma_sort_by_name(list: Seq<FlatView>)
    ensures
        sort_by_name(list).len() == list.len(),
        sorted_by_name(sort_by_name(list)),
        sort_by_name(list).to_multiset() == list.to_multiset(),
    decreases list.len(),
{
    if list.len() > 0 {
        let front = sort_by_name(list.drop_last());
        let entry = list.last();
        lemma_sort_by_name(list.drop_last());
        lemma_insert_place(front, entry);
        let p = insert_place(front, entry);
        let out = front.insert(p, entry);
        assert(list =~= list.drop_last().push(entry));
        vstd::seq_lib::to_multiset_insert(front, p, entry);
        vstd::seq_lib::to_multiset_build(list.drop_last(), entry);
        assert(list.drop_last().push(entry).to_multiset() =~= list.drop_last().to_multiset().insert(
            entry,
        ));
        assert(out.to_multiset() =~= list.to_multiset());
        assert forall|i: int, j: int| 0 <= i < j < out.len() implies name_le(
            out[i].name,
            out[j].name,
        ) by {
            if j < p {
                assert(out[i] == front[i] && out[j] == front[j]);
            } else if j == p {
                assert(out[i] == front[i]);
                if i < p - 1 {
                    assert(name_le(front[i].name, front[p - 1].name));
                    lemma_text_order_transitive(front[i].name, front[p - 1].name, entry.name);
                }
            } else if i == p {
                assert(out[j] == front[j - 1]);
                assert(!name_le(front[j - 1].name, entry.name));
                lemma_text_order_reversed(front[j - 1].name, entry.name);
            } else if i < p {
                assert(out[i] == front[i] && out[j] == front[j - 1]);
            } else {
                assert(out[i] == front[i - 1] && out[j] == front[j - 1]);
            }
        }
    } else {
        assert(list =~= Seq::<FlatView>::empty());
    }
}

/// Whether every entry of the list is marked as pinned.
pub open spec fn all_pinned(list: Seq<FlatView>) -> bool {
    forall|i: int| 0 <= i < list.len() ==> (#[trigger] list[i]).pin
}

/// Every entry of the sorted list is an entry of the list that was sorted.
pub proof fn lemma_sort_keeps_members(list: Seq<FlatView>)
    ensures
        forall|i: int|
            0 <= i < sort_by_name(list).len() ==> exists|j: int|
                0 <= j < list.len() && #[trigger] list[j] == (#[trigger] sort_by_name(list)[i]),
{
    let sorted = sort_by_name(list);
    lemma_sort_by_name(list);
    assert forall|i: int| 0 <= i < sorted.len() implies exists|j: int|
        0 <= j < list.len() && #[trigger] list[j] == (#[trigger] sorted[i]) by {
        let x = sorted[i];
        assert(sorted.contains(x));
        vstd::seq_lib::to_multiset_contains(sorted, x);
        vstd::seq_lib::to_multiset_contains(list, x);
        let j = choose|j: int| 0 <= j < list.len() && list[j] == x;
        assert(list[j] == sorted[i]);
    }
}

/// Every entry of the list of a tree is marked as pinned, whether or not
/// the plugin was asked for at the start.
pub proof fn lemma_flatten_pinned(node: NodeView)
    ensures
        all_pinned(flatten_node(node)),
    decreases node, 1nat, 0nat,
{
    let gathered = flatten_each(node, 0).push(flat_of(node));
    lemma_flatten_each_pinned(node, 0);
    lemma_sort_keeps_members(gathered);
    let sorted = sort_by_name(gathered);
    assert forall|i: int| 0 <= i < sorted.len() implies (#[trigger] sorted[i]).pin by {
        let j = choose|j: int| 0 <= j < gathered.len() && #[trigger] gathered[j] == sorted[i];
        if j < gathered.len() - 1 {
            assert(gathered[j] == flatten_each(node, 0)[j]);
        }
    }
}

/// See `lemma_flatten_pinned`, for the dependencies of one plugin.
pub proof fn lemma_flatten_each_pinned(node: NodeView, from: int)
    ensures
        all_pinned(flatten_each(node, from)),
    decreases node, 0nat, node.dependencies.len() - from,
{
    if 0 <= from < node.dependencies.len() {
        lemma_flatten_pinned(node.dependencies[from]);
        lemma_flatten_each_pinned(node, from + 1);
        let first = flatten_node(node.dependencies[from]);
        let rest = flatten_each(node, from + 1);
        assert forall|i: int| 0 <= i < (first + rest).len() implies (#[trigger] (first + rest)[i]).pin by {
            if i < first.len() {
                assert((first + rest)[i] == first[i]);
            } else {
                assert((first + rest)[i] == rest[i - first.len()]);
            }
        }
    }
}

/// Where a new entry goes into a list, see `insert_place`.
fn place_of(list: &Vec<FlatPackage>, entry: &FlatPackage) -> (r: usize)
    ensures
        r == insert_place(flats(list@), entry@),
        r <= list.len(),
{
    let name = chars_of(entry.name.as_str());
    let mut p: usize = list.len();
    assert(flats(list@).take(p as int) =~= flats(list@));
    while p > 0
        invariant
            p <= list.len(),
            name@ == entry@.name,
            insert_place(flats(list@), entry@) == insert_place(
                flats(list@).take(p as int),
                entry@,
            ),
        decreases p,
    {
        let ghost upto = flats(list@).take(p as int);
        assert(upto.last() == list@[p - 1]@);
        assert(upto.drop_last() =~= flats(list@).take(p - 1));
        let o = compare_text(&chars_of(list[p - 1].name.as_str()), &name);
        if o != Order::Greater {
            return p;
        }
        p -= 1;
    }
    p
}

/// The entries in the order of their names, see `sort_by_name`.
pub fn sort_packages(packages: &Vec<FlatPackage>) -> (r: Vec<FlatPackage>)
    ensures
        flats(r@) == sort_by_name(flats(packages@)),
        sorted_by_name(flats(r@)),
        r.len() == packages.len(),
{
    let mut out: Vec<FlatPackage> = Vec::new();
    let mut i: usize = 0;
    assert(flats(packages@).take(0) =~= Seq::<FlatView>::empty());
    assert(flats(out@) =~= Seq::<FlatView>::empty());
    while i < packages.len()
        invariant
            i <= packages.len(),
            flats(out@) == sort_by_name(flats(packages@).take(i as int)),
            out.len() == i,
        decreases packages.len() - i,
    {
        let ghost upto = flats(packages@).take(i + 1);
        assert(upto.drop_last() =~= flats(packages@).take(i as int));
        assert(upto.last() == packages@[i as int]@);
        let entry = packages[i].clone();
        let p = place_of(&out, &entry);
        let ghost before = flats(out@);
        out.insert(p, entry);
        assert(flats(out@) =~= before.insert(p as int, entry@));
        i += 1;
    }
    assert(flats(packages@).take(packages.len() as int) =~= flats(packages@));
    proof {
        lemma_sort_by_name(flats(packages@));
    }
    out
}

impl SatisfiedPackage {
    /// The list of the tree, see `flatten_node`: every plugin of the tree,
    /// each as often as it occurs, in the order of the names.
    pub fn flatten(&self) -> (r: Vec<FlatPackage>)
        ensures
            flats(r@) == flatten_node(self@),
            sorted_by_name(flats(r@)),
            all_pinned(flats(r@)),
        decreases self,
    {
        let mut packages: Vec<FlatPackage> = Vec::new();
        let mut i: usize = 0;
        proof {
            lemma_dependencies_view(self);
        }
        assert(flats(packages@) =~= Seq::<FlatView>::empty());
        while i < self.dependencies.len()
            invariant
                i <= self.dependencies.len(),
                self@.dependencies == nodes(self.dependencies@),
                flatten_each(self@, 0) == flats(packages@) + flatten_each(self@, i as int),
            decreases self.dependencies.len() - i,
        {
            let mut part = self.dependencies[i].flatten();
            let ghost before = flats(packages@);
            let ghost added = flats(part@);
            packages.append(&mut part);
            assert(flats(packages@) =~= before + added);
            assert(before + (added + flatten_each(self@, i + 1)) =~= flats(packages@)
                + flatten_each(self@, i + 1));
            i += 1;
        }
        let ghost before = flats(packages@);
        packages.push(
            FlatPackage {
                name: self.name.clone(),
                version: self.version.clone(),
                digest_string: self.digest_string.clone(),
                digest_type: self.digest_type.clone(),
                pin: true,
            },
        );
        assert(flats(packages@) =~= (before + Seq::<FlatView>::empty()).push(flat_of(self@)));
        assert(before + Seq::<FlatView>::empty() =~= before);
        proof {
            lemma_flatten_pinned(self@);
        }
        sort_packages(&packages)
    }
}

} // verus!
