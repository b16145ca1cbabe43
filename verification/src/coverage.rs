//! What the preorder walk covers: every reachable node, exactly once, and
//! how each emitted path relates to the document's structure.

use vstd::prelude::*;

verus! {

use crate::value::Value;
use crate::{
    child_component,
    child_count,
    child_value,
    classify_key,
    preorder,
    preorder_children,
    PathSeg,
};

/// A document is well formed when every object in it has pairwise
/// distinct keys, as any document produced by a JSON parser does.
pub open spec fn wf_value(v: Value) -> bool
    decreases v,
{
    match v {
        Value::Array(elements) => forall|i: int|
            0 <= i < elements@.len() ==> wf_value(#[trigger] elements@[i]),
        Value::Object(entries) => (forall|i: int, j: int|
            0 <= i < j < entries@.len() ==> entries@[i].0@ != entries@[j].0@) && (forall|i: int|
            0 <= i < entries@.len() ==> wf_value(#[trigger] entries@[i].1)),
        _ => true,
    }
}

/// Whether a sequence of child indices denotes a node of the tree.
pub open spec fn valid_address(v: Value, addr: Seq<int>) -> bool
    decreases addr.len(),
{
    addr.len() == 0 || (0 <= addr[0] < child_count(v) && valid_address(
        child_value(v, addr[0]),
        addr.drop_first(),
    ))
}

/// The node a valid address denotes.
pub open spec fn node_at(v: Value, addr: Seq<int>) -> Value
    decreases addr.len(),
{
    if addr.len() == 0 {
        v
    } else {
        node_at(child_value(v, addr[0]), addr.drop_first())
    }
}

/// The path the walk renders for an address.
pub open spec fn path_at(v: Value, addr: Seq<int>) -> Seq<PathSeg>
    decreases addr.len(),
{
    if addr.len() == 0 {
        Seq::empty()
    } else {
        seq![child_component(v, addr[0])] + path_at(child_value(v, addr[0]), addr.drop_first())
    }
}

/// Every path reachable by following object and array membership from
/// the root.
pub open spec fn reachable_paths(v: Value) -> Set<Seq<PathSeg>> {
    Set::new(
        |p: Seq<PathSeg>|
            exists|addr: Seq<int>| valid_address(v, addr) && p == path_at(v, addr),
    )
}

proof fn lemma_concat_contains<T>(a: Seq<T>, b: Seq<T>, x: T)
    ensures
        (a + b).contains(x) <==> a.contains(x) || b.contains(x),
{
    if a.contains(x) {
        let i = choose|i: int| 0 <= i < a.len() && a[i] == x;
        assert((a + b)[i] == x);
    }
    if b.contains(x) {
        let i = choose|i: int| 0 <= i < b.len() && b[i] == x;
        assert((a + b)[a.len() + i] == x);
    }
    if (a + b).contains(x) {
        let i = choose|i: int| 0 <= i < (a + b).len() && (a + b)[i] == x;
        if i < a.len() {
            assert(a[i] == x);
        } else {
            assert(b[i - a.len()] == x);
        }
    }
}

/// A pair is visited by the walk of the subtree at `v` iff some address
/// into that subtree denotes it.
pub proof fn lemma_preorder_is_reachable(v: Value, path: Seq<PathSeg>, pair: (Seq<PathSeg>, Value))
    ensures
        preorder(v, path).contains(pair) <==> exists|addr: Seq<int>|
            valid_address(v, addr) && pair == (path + path_at(v, addr), node_at(v, addr)),
    decreases v, 1int, 0int,
{
    let s = preorder_children(v, path, 0);
    lemma_concat_contains(seq![(path, v)], s, pair);
    lemma_preorder_children_reachable(v, path, pair, 0);

    if preorder(v, path).contains(pair) {
        if seq![(path, v)].contains(pair) {
            let addr = Seq::<int>::empty();
            assert(valid_address(v, addr));
            assert(path + path_at(v, addr) =~= path);
            assert(pair == (path + path_at(v, addr), node_at(v, addr)));
        } else {
            let (i, rest) = choose|i: int, rest: Seq<int>|
                0 <= i < child_count(v) && valid_address(child_value(v, i), rest) && pair == (
                path.push(child_component(v, i)) + path_at(child_value(v, i), rest),
                node_at(child_value(v, i), rest),
                );
            let addr = seq![i] + rest;
            assert(addr[0] == i);
            assert(addr.drop_first() =~= rest);
            assert(valid_address(v, addr));
            assert(node_at(v, addr) == node_at(child_value(v, i), rest));
            assert(path_at(v, addr) == seq![child_component(v, i)] + path_at(
                child_value(v, i),
                rest,
            ));
            assert(path + path_at(v, addr) =~= path.push(child_component(v, i)) + path_at(
                child_value(v, i),
                rest,
            ));
            assert(pair == (path + path_at(v, addr), node_at(v, addr)));
        }
    }
    if exists|addr: Seq<int>|
        valid_address(v, addr) && pair == (path + path_at(v, addr), node_at(v, addr)) {
        let addr = choose|addr: Seq<int>|
            valid_address(v, addr) && pair == (path + path_at(v, addr), node_at(v, addr));
        if addr.len() == 0 {
            assert(path + path_at(v, addr) =~= path);
            assert(pair == (path, v));
            assert(seq![(path, v)][0] == pair);
            assert(seq![(path, v)].contains(pair));
        } else {
            let i = addr[0];
            let rest = addr.drop_first();
            assert(valid_address(child_value(v, i), rest));
            assert(path + (seq![child_component(v, i)] + path_at(child_value(v, i), rest)) =~= path.push(
                child_component(v, i),
            ) + path_at(child_value(v, i), rest));
            assert(pair == (
                path.push(child_component(v, i)) + path_at(child_value(v, i), rest),
                node_at(child_value(v, i), rest),
            ));
        }
    }
}

/// A pair is visited by the walks of the children of `v` from index
/// `from` on iff an address through one of those children denotes it.
proof fn lemma_preorder_children_reachable(
    v: Value,
    path: Seq<PathSeg>,
    pair: (Seq<PathSeg>, Value),
    from: int,
)
    requires
        0 <= from,
    ensures
        preorder_children(v, path, from).contains(pair) <==> exists|i: int, rest: Seq<int>|
            from <= i < child_count(v) && valid_address(child_value(v, i), rest) && pair == (
            path.push(child_component(v, i)) + path_at(child_value(v, i), rest),
            node_at(child_value(v, i), rest),
            ),
    decreases v, 0int, child_count(v) - from,
{
    if from >= child_count(v) {
        assert(!preorder_children(v, path, from).contains(pair));
    } else {
        let head = preorder(child_value(v, from), path.push(child_component(v, from)));
        let tail = preorder_children(v, path, from + 1);
        lemma_concat_contains(head, tail, pair);
        lemma_preorder_is_reachable(child_value(v, from), path.push(child_component(v, from)), pair);
        lemma_preorder_children_reachable(v, path, pair, from + 1);

        if preorder_children(v, path, from).contains(pair) {
            if head.contains(pair) {
                let rest = choose|rest: Seq<int>|
                    valid_address(child_value(v, from), rest) && pair == (
                    path.push(child_component(v, from)) + path_at(child_value(v, from), rest),
                    node_at(child_value(v, from), rest),
                    );
                assert(from <= from < child_count(v) && valid_address(child_value(v, from), rest)
                    && pair == (
                    path.push(child_component(v, from)) + path_at(child_value(v, from), rest),
                    node_at(child_value(v, from), rest),
                ));
            }
        }
        if exists|i: int, rest: Seq<int>|
            from <= i < child_count(v) && valid_address(child_value(v, i), rest) && pair == (
            path.push(child_component(v, i)) + path_at(child_value(v, i), rest),
            node_at(child_value(v, i), rest),
            ) {
            let (i, rest) = choose|i: int, rest: Seq<int>|
                from <= i < child_count(v) && valid_address(child_value(v, i), rest) && pair == (
                path.push(child_component(v, i)) + path_at(child_value(v, i), rest),
                node_at(child_value(v, i), rest),
                );
            if i == from {
                assert(head.contains(pair));
            } else {
                assert(preorder_children(v, path, from + 1).contains(pair));
            }
        }
    }
}



/// Distinct children are reached through distinct path steps: distinct
/// indices in an array, distinctly classified distinct keys in a well
/// formed object.
proof fn lemma_components_distinct(v: Value)
    requires
        wf_value(v),
    ensures
        forall|i: int, j: int|
            0 <= i < j < child_count(v) ==> child_component(v, i) != child_component(v, j),
{
    match v {
        Value::Object(entries) => {
            assert forall|i: int, j: int| 0 <= i < j < child_count(v) implies child_component(v, i)
                != child_component(v, j) by {
                assert(entries@[i].0@ != entries@[j].0@);
                assert(classify_key(entries@[i].0@) != classify_key(entries@[j].0@));
            }
        },
        _ => {},
    }
}

/// A well formed node has well formed children.
proof fn lemma_wf_child(v: Value, i: int)
    requires
        wf_value(v),
        0 <= i < child_count(v),
    ensures
        wf_value(child_value(v, i)),
{
    match v {
        Value::Array(elements) => {
            assert(wf_value(elements@[i]));
        },
        Value::Object(entries) => {
            assert(wf_value(entries@[i].1));
        },
        _ => {},
    }
}

/// The paths the walk of the subtree at `v` emits: the first is `path`
/// itself, every other one extends it, and no two are the same.
pub proof fn lemma_preorder_distinct(v: Value, path: Seq<PathSeg>)
    requires
        wf_value(v),
    ensures
        preorder(v, path)[0].0 == path,
        forall|t: int|
            0 <= t < preorder(v, path).len() ==> (#[trigger] preorder(v, path)[t]).0.len()
                >= path.len() && preorder(v, path)[t].0.take(path.len() as int) == path,
        forall|t: int|
            1 <= t < preorder(v, path).len() ==> (#[trigger] preorder(v, path)[t]).0.len()
                > path.len(),
        forall|t1: int, t2: int|
            0 <= t1 < t2 < preorder(v, path).len() ==> (#[trigger] preorder(v, path)[t1]).0 != (
            #[trigger] preorder(v, path)[t2]).0,
    decreases v, 1int, 0int,
{
    let pre = preorder(v, path);
    let s = preorder_children(v, path, 0);
    lemma_children_distinct(v, path, 0);
    assert(pre[0] == (path, v));
    assert(path.take(path.len() as int) =~= path);
    assert forall|t: int| 1 <= t < pre.len() implies (#[trigger] pre[t]).0.len() > path.len() && pre[t].0.take(
        path.len() as int,
    ) == path by {
        assert(pre[t] == s[t - 1]);
    }
    assert forall|t1: int, t2: int| 0 <= t1 < t2 < pre.len() implies (#[trigger] pre[t1]).0 != (
    #[trigger] pre[t2]).0 by {
        if t1 == 0 {
            assert(pre[t2].0.len() > path.len());
        } else {
            assert(pre[t1] == s[t1 - 1]);
            assert(pre[t2] == s[t2 - 1]);
        }
    }
}

/// The paths emitted for the children of `v` from index `from` on: each
/// extends `path` by the step to its child, and no two are the same.
proof fn lemma_children_distinct(v: Value, path: Seq<PathSeg>, from: int)
    requires
        wf_value(v),
        0 <= from,
    ensures
        forall|t: int|
            0 <= t < preorder_children(v, path, from).len() ==> (#[trigger] preorder_children(
                v,
                path,
                from,
            )[t]).0.len() > path.len() && preorder_children(v, path, from)[t].0.take(
                path.len() as int,
            ) == path,
        forall|t: int|
            0 <= t < preorder_children(v, path, from).len() ==> exists|i: int|
                from <= i < child_count(v) && (#[trigger] preorder_children(v, path, from)[t]).0[path.len() as int]
                    == child_component(v, i),
        forall|t1: int, t2: int|
            0 <= t1 < t2 < preorder_children(v, path, from).len() ==> (#[trigger] preorder_children(
                v,
                path,
                from,
            )[t1]).0 != (#[trigger] preorder_children(v, path, from)[t2]).0,
    decreases v, 0int, child_count(v) - from,
{
    if from >= child_count(v) {
    } else {
        let s = preorder_children(v, path, from);
        let comp = child_component(v, from);
        let child = child_value(v, from);
        let cpath = path.push(comp);
        let head = preorder(child, cpath);
        let tail = preorder_children(v, path, from + 1);
        lemma_wf_child(v, from);
        lemma_preorder_distinct(child, cpath);
        lemma_children_distinct(v, path, from + 1);
        lemma_components_distinct(v);

        assert forall|t: int| 0 <= t < head.len() implies (#[trigger] head[t]).0.len() > path.len()
            && head[t].0.take(path.len() as int) == path && head[t].0[path.len() as int]
            == comp by {
            assert(head[t].0.len() >= cpath.len());
            assert(head[t].0.take(cpath.len() as int) == cpath);
            assert(head[t].0.take(cpath.len() as int).take(path.len() as int) =~= head[t].0.take(
                path.len() as int,
            ));
            assert(cpath.take(path.len() as int) =~= path);
            assert(head[t].0[path.len() as int] == head[t].0.take(cpath.len() as int)[path.len() as int]);
        }

        assert forall|t: int| 0 <= t < s.len() implies (#[trigger] s[t]).0.len() > path.len() && s[t].0.take(
            path.len() as int,
        ) == path by {
            if t < head.len() {
                assert(s[t] == head[t]);
            } else {
                assert(s[t] == tail[t - head.len()]);
            }
        }

        assert forall|t: int| 0 <= t < s.len() implies exists|i: int|
            from <= i < child_count(v) && (#[trigger] s[t]).0[path.len() as int]
                == child_component(v, i) by {
            if t < head.len() {
                assert(s[t] == head[t]);
                assert(s[t].0[path.len() as int] == child_component(v, from));
            } else {
                assert(s[t] == tail[t - head.len()]);
                let i = choose|i: int|
                    from + 1 <= i < child_count(v) && tail[t - head.len()].0[path.len() as int]
                        == child_component(v, i);
                assert(from <= i < child_count(v) && s[t].0[path.len() as int] == child_component(
                    v,
                    i,
                ));
            }
        }

        assert forall|t1: int, t2: int| 0 <= t1 < t2 < s.len() implies (#[trigger] s[t1]).0 != (
        #[trigger] s[t2]).0 by {
            if t2 < head.len() {
                assert(s[t1] == head[t1]);
                assert(s[t2] == head[t2]);
            } else if t1 >= head.len() {
                assert(s[t1] == tail[t1 - head.len()]);
                assert(s[t2] == tail[t2 - head.len()]);
            } else {
                assert(s[t1] == head[t1]);
                assert(s[t2] == tail[t2 - head.len()]);
                assert(s[t1].0[path.len() as int] == comp);
                let i = choose|i: int|
                    from + 1 <= i < child_count(v) && tail[t2 - head.len()].0[path.len() as int]
                        == child_component(v, i);
                assert(s[t2].0[path.len() as int] == child_component(v, i));
                assert(child_component(v, from) != child_component(v, i));
            }
        }
    }
}


/// Coverage: the set of paths the walk of a document visits — and so, in
/// "all nodes" mode, the set of paths handed to the sink — is exactly the
/// set of paths reachable by following object and array membership from
/// the root, with no omission and no duplicate.
pub proof fn lemma_coverage(root: Value)
    requires
        wf_value(root),
    ensures
        preorder(root, Seq::empty()).map_values(|pr: (Seq<PathSeg>, Value)| pr.0).to_set()
            == reachable_paths(root),
        forall|t1: int, t2: int|
            0 <= t1 < t2 < preorder(root, Seq::empty()).len() ==> (#[trigger] preorder(
                root,
                Seq::empty(),
            )[t1]).0 != (#[trigger] preorder(root, Seq::empty())[t2]).0,
{
    let pre = preorder(root, Seq::<PathSeg>::empty());
    let paths = pre.map_values(|pr: (Seq<PathSeg>, Value)| pr.0);
    lemma_preorder_distinct(root, Seq::<PathSeg>::empty());

    assert forall|p: Seq<PathSeg>| #[trigger]
        paths.to_set().contains(p) implies reachable_paths(root).contains(p) by {
        let t = choose|t: int| 0 <= t < paths.len() && paths[t] == p;
        assert(pre[t].0 == p);
        assert(pre.contains(pre[t]));
        lemma_preorder_is_reachable(root, Seq::<PathSeg>::empty(), pre[t]);
        let addr = choose|addr: Seq<int>|
            valid_address(root, addr) && pre[t] == (
            Seq::<PathSeg>::empty() + path_at(root, addr),
            node_at(root, addr),
            );
        assert(Seq::<PathSeg>::empty() + path_at(root, addr) =~= path_at(root, addr));
        assert(valid_address(root, addr) && p == path_at(root, addr));
    }
    assert forall|p: Seq<PathSeg>| #[trigger]
        reachable_paths(root).contains(p) implies paths.to_set().contains(p) by {
        let addr = choose|addr: Seq<int>| valid_address(root, addr) && p == path_at(root, addr);
        let pair = (Seq::<PathSeg>::empty() + path_at(root, addr), node_at(root, addr));
        lemma_preorder_is_reachable(root, Seq::<PathSeg>::empty(), pair);
        assert(pre.contains(pair));
        let t = choose|t: int| 0 <= t < pre.len() && pre[t] == pair;
        assert(Seq::<PathSeg>::empty() + path_at(root, addr) =~= path_at(root, addr));
        assert(paths[t] == p);
        assert(paths.contains(p));
    }
    assert(paths.to_set() =~= reachable_paths(root));
}

/// The step from a node to one of its children.
pub open spec fn has_component(v: Value, c: PathSeg) -> bool {
    exists|i: int| 0 <= i < child_count(v) && child_component(v, i) == c
}

/// The child index a path step denotes; meaningful when `has_component`
/// holds (and unique in a well formed document).
pub open spec fn component_index(v: Value, c: PathSeg) -> int {
    choose|i: int| 0 <= i < child_count(v) && child_component(v, i) == c
}

/// Follow a path's steps down from a node.
pub open spec fn lookup(v: Value, p: Seq<PathSeg>) -> Option<Value>
    decreases p.len(),
{
    if p.len() == 0 {
        Some(v)
    } else if has_component(v, p[0]) {
        lookup(child_value(v, component_index(v, p[0])), p.drop_first())
    } else {
        None
    }
}

/// Looking up the path of a valid address in a well formed document
/// finds exactly the node at that address.
proof fn lemma_lookup_path_at(v: Value, addr: Seq<int>)
    requires
        wf_value(v),
        valid_address(v, addr),
    ensures
        lookup(v, path_at(v, addr)) == Some(node_at(v, addr)),
    decreases addr.len(),
{
    if addr.len() == 0 {
        assert(path_at(v, addr).len() == 0);
    } else {
        let i = addr[0];
        let p = path_at(v, addr);
        let c = child_component(v, i);
        assert(p[0] == c);
        assert(has_component(v, c));
        lemma_components_distinct(v);
        let i2 = component_index(v, c);
        assert(0 <= i2 < child_count(v) && child_component(v, i2) == c);
        assert(i2 == i) by {
            if i2 < i {
                assert(child_component(v, i2) != child_component(v, i));
            } else if i > i2 {
                assert(child_component(v, i) != child_component(v, i2));
            }
        }
        lemma_wf_child(v, i);
        lemma_lookup_path_at(child_value(v, i), addr.drop_first());
        assert(p.drop_first() =~= path_at(child_value(v, i), addr.drop_first()));
    }
}

/// An address's path step by step: the path of `addr` is the path of its
/// parent prefix extended by the final step, taken inside the parent.
proof fn lemma_path_at_unsnoc(v: Value, addr: Seq<int>)
    requires
        valid_address(v, addr),
        addr.len() > 0,
    ensures
        valid_address(v, addr.drop_last()),
        0 <= addr.last() < child_count(node_at(v, addr.drop_last())),
        node_at(v, addr) == child_value(node_at(v, addr.drop_last()), addr.last()),
        path_at(v, addr) == path_at(v, addr.drop_last()).push(
            child_component(node_at(v, addr.drop_last()), addr.last()),
        ),
    decreases addr.len(),
{
    if addr.len() == 1 {
        assert(addr.drop_last() =~= Seq::<int>::empty());
        assert(addr.drop_first() =~= Seq::<int>::empty());
        assert(addr.last() == addr[0]);
        assert(node_at(v, addr.drop_last()) == v);
        assert(node_at(v, addr) == node_at(child_value(v, addr[0]), addr.drop_first()));
        assert(node_at(v, addr) == child_value(v, addr[0]));
        assert(path_at(v, addr) == seq![child_component(v, addr[0])] + path_at(
            child_value(v, addr[0]),
            addr.drop_first(),
        ));
        assert(path_at(child_value(v, addr[0]), addr.drop_first()) == Seq::<PathSeg>::empty());
        assert(path_at(v, addr.drop_last()) == Seq::<PathSeg>::empty());
        assert(path_at(v, addr) =~= path_at(v, addr.drop_last()).push(
            child_component(v, addr[0]),
        ));
    } else {
        let i = addr[0];
        let child = child_value(v, i);
        let rest = addr.drop_first();
        lemma_path_at_unsnoc(child, rest);
        assert(rest.drop_last() =~= addr.drop_last().drop_first());
        assert(addr.drop_last()[0] == i);
        assert(addr.drop_last().len() > 0);
        assert(rest.last() == addr.last());
        assert(node_at(v, addr.drop_last()) == node_at(child, rest.drop_last()));
        assert(path_at(v, addr.drop_last()) == seq![child_component(v, i)] + path_at(
            child,
            rest.drop_last(),
        ));
        assert(path_at(v, addr) == seq![child_component(v, i)] + path_at(child, rest));
        assert(seq![child_component(v, i)] + path_at(child, rest.drop_last()).push(
            child_component(node_at(child, rest.drop_last()), rest.last()),
        ) =~= (seq![child_component(v, i)] + path_at(child, rest.drop_last())).push(
            child_component(node_at(child, rest.drop_last()), rest.last()),
        ));
    }
}

/// Structure of every emitted non-root pair: removing the last path step
/// and looking the rest up in the document yields the parent node, the
/// parent really contains the removed step, and looking up the whole
/// path yields the pair's own value.
pub proof fn lemma_parent_structure(root: Value, pair: (Seq<PathSeg>, Value))
    requires
        wf_value(root),
        preorder(root, Seq::empty()).contains(pair),
        pair.0.len() > 0,
    ensures
        lookup(root, pair.0.drop_last()) is Some,
        has_component(lookup(root, pair.0.drop_last()).unwrap(), pair.0.last()),
        lookup(root, pair.0) == Some(pair.1),
{
    lemma_preorder_is_reachable(root, Seq::<PathSeg>::empty(), pair);
    let addr = choose|addr: Seq<int>|
        valid_address(root, addr) && pair == (
        Seq::<PathSeg>::empty() + path_at(root, addr),
        node_at(root, addr),
        );
    assert(Seq::<PathSeg>::empty() + path_at(root, addr) =~= path_at(root, addr));
    assert(pair.0 == path_at(root, addr));
    lemma_lookup_path_at(root, addr);
    assert(lookup(root, pair.0) == Some(pair.1));

    assert(addr.len() > 0) by {
        if addr.len() == 0 {
            assert(path_at(root, addr).len() == 0);
        }
    }
    lemma_path_at_unsnoc(root, addr);
    let parent = node_at(root, addr.drop_last());
    assert(pair.0.drop_last() =~= path_at(root, addr.drop_last()));
    lemma_lookup_path_at(root, addr.drop_last());
    assert(lookup(root, pair.0.drop_last()) == Some(parent));
    assert(pair.0.last() == child_component(parent, addr.last()));
    assert(has_component(parent, pair.0.last()));
}

} // verus!
