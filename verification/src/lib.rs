//! Enumerate every path through a parsed JSON document.
//!
//! [`jindex`] walks a [`Value`] tree depth-first and hands each (path,
//! value) pair to a pluggable [`PathValueSink`](path_value_sink::PathValueSink)
//! exactly once, in preorder: a node first, then the subtrees of its
//! children, siblings in the order the document gives them.

pub mod coverage;
pub mod escape;
pub mod ident;
pub mod path_value_sink;
pub mod value;

use vstd::prelude::*;

verus! {

use crate::ident::{is_identifier, spec_is_identifier};
use crate::path_value_sink::PathValueSink;
use crate::value::{render_value, spec_render, Value};

/// A document root must be addressable: only objects and arrays qualify.
pub open spec fn is_root_shape(v: Value) -> bool {
    v is Object || v is Array
}

/// One step of a path: an object key, classified by whether it is a bare
/// identifier, or an array index.  Keys are borrowed from the document.
#[derive(Clone, Copy, Debug)]
pub enum PathComponent<'a> {
    Identifier(&'a str),
    NonIdentifier(&'a str),
    Index(usize),
}

/// The mathematical form of one path step.
pub enum PathSeg {
    Identifier(Seq<char>),
    NonIdentifier(Seq<char>),
    Index(nat),
}

impl<'a> View for PathComponent<'a> {
    type V = PathSeg;

    open spec fn view(&self) -> PathSeg {
        match *self {
            PathComponent::Identifier(k) => PathSeg::Identifier(k@),
            PathComponent::NonIdentifier(k) => PathSeg::NonIdentifier(k@),
            PathComponent::Index(i) => PathSeg::Index(i as nat),
        }
    }
}

impl<'a> DeepView for PathComponent<'a> {
    type V = PathSeg;

    open spec fn deep_view(&self) -> PathSeg {
        self.view()
    }
}

/// One visited node: the path from the root to it, and the value there.
#[derive(Clone)]
pub struct PathValue<'a> {
    pub path_components: Vec<PathComponent<'a>>,
    pub value: &'a Value,
}

impl<'a> View for PathValue<'a> {
    type V = (Seq<PathSeg>, Value);

    open spec fn view(&self) -> (Seq<PathSeg>, Value) {
        (self.path_components.deep_view(), *self.value)
    }
}

impl<'a> PathValue<'a> {
    fn new(value: &'a Value, path_components: Vec<PathComponent<'a>>) -> (r: Self)
        ensures
            r.value == value,
            r.path_components == path_components,
    {
        Self { value, path_components }
    }
}

/// The error a sink reports when it cannot consume a pair.
#[derive(Debug)]
pub struct SinkError {
    pub message: String,
}

/// What can go wrong during a traversal: a root that is not an object or
/// an array (reported with its rendered text), or a sink failure.
#[derive(Debug)]
pub enum JindexError {
    InvalidRoot(String),
    Sink(SinkError),
}

/// An object key as it appears in a path: a bare identifier when it
/// lexically is one, a quoted key otherwise.
pub open spec fn classify_key(k: Seq<char>) -> PathSeg {
    if spec_is_identifier(k) {
        PathSeg::Identifier(k)
    } else {
        PathSeg::NonIdentifier(k)
    }
}

/// How many children a node has.  Terminals have none.
pub open spec fn child_count(v: Value) -> nat {
    match v {
        Value::Array(elements) => elements@.len(),
        Value::Object(entries) => entries@.len(),
        _ => 0,
    }
}

/// The `i`-th child of a node.
pub open spec fn child_value(v: Value, i: int) -> Value
    recommends
        0 <= i < child_count(v),
{
    match v {
        Value::Array(elements) => elements@[i],
        Value::Object(entries) => entries@[i].1,
        _ => v,
    }
}

/// The path step that leads from a node to its `i`-th child.
pub open spec fn child_component(v: Value, i: int) -> PathSeg
    recommends
        0 <= i < child_count(v),
{
    match v {
        Value::Array(_) => PathSeg::Index(i as nat),
        Value::Object(entries) => classify_key(entries@[i].0@),
        _ => PathSeg::Index(0),
    }
}

/// The sequence of (path, value) pairs a depth-first preorder walk of the
/// subtree at `v` visits, where `path` leads from the root to `v`.
pub open spec fn preorder(v: Value, path: Seq<PathSeg>) -> Seq<(Seq<PathSeg>, Value)>
    decreases v, 1int, 0int,
{
    seq![(path, v)] + preorder_children(v, path, 0)
}

/// The concatenated preorder walks of the children of `v` from index
/// `from` on.
pub open spec fn preorder_children(v: Value, path: Seq<PathSeg>, from: int) -> Seq<
    (Seq<PathSeg>, Value),
>
    decreases v, 0int, child_count(v) - from,
{
    if from < 0 || from >= child_count(v) {
        Seq::empty()
    } else {
        preorder(child_value(v, from), path.push(child_component(v, from))) + preorder_children(
            v,
            path,
            from + 1,
        )
    }
}

/// The views of the pairs on the traversal stack.
pub open spec fn stack_view<'a>(stack: Seq<PathValue<'a>>) -> Seq<(Seq<PathSeg>, Value)> {
    stack.map_values(|pv: PathValue<'a>| pv@)
}

/// The pairs a traversal still owes, top of the stack first.
pub open spec fn pending(stack: Seq<(Seq<PathSeg>, Value)>) -> Seq<(Seq<PathSeg>, Value)>
    decreases stack.len(),
{
    if stack.len() == 0 {
        Seq::empty()
    } else {
        preorder(stack.last().1, stack.last().0) + pending(stack.drop_last())
    }
}

/// A preorder walk visits its own root first.
proof fn lemma_preorder_len(v: Value, path: Seq<PathSeg>)
    ensures
        preorder(v, path).len() >= 1,
        preorder(v, path)[0] == (path, v),
{
    assert(preorder(v, path)[0] == (path, v));
}

/// A stack whose top was replaced by that node's children, pushed in
/// reverse order, owes exactly the same pairs minus the popped node.
proof fn lemma_pending_after_push(
    rest: Seq<(Seq<PathSeg>, Value)>,
    v: Value,
    path: Seq<PathSeg>,
    s2: Seq<(Seq<PathSeg>, Value)>,
    from: int,
)
    requires
        0 <= from <= child_count(v),
        s2.len() == rest.len() + (child_count(v) - from),
        forall|i: int| 0 <= i < rest.len() ==> s2[i] == rest[i],
        forall|j: int|
            0 <= j < child_count(v) - from ==> (#[trigger] s2[rest.len() + j]) == (
            path.push(child_component(v, child_count(v) - 1 - j)),
            child_value(v, child_count(v) - 1 - j),
            ),
    ensures
        pending(s2) == preorder_children(v, path, from) + pending(rest),
    decreases child_count(v) - from,
{
    if from == child_count(v) {
        assert(s2 =~= rest);
        assert(preorder_children(v, path, from) + pending(rest) =~= pending(rest));
    } else {
        let cc = child_count(v) as int;
        let j0 = cc - from - 1;
        assert(s2[rest.len() + j0] == (
            path.push(child_component(v, cc - 1 - j0)),
            child_value(v, cc - 1 - j0),
        ));
        assert(cc - 1 - j0 == from);
        assert(s2.last() == s2[rest.len() + j0]);
        assert(s2.last() == (path.push(child_component(v, from)), child_value(v, from)));
        lemma_pending_after_push(rest, v, path, s2.drop_last(), from + 1);
        assert(pending(s2) == preorder(child_value(v, from), path.push(child_component(v, from)))
            + (preorder_children(v, path, from + 1) + pending(rest)));
        assert(preorder(child_value(v, from), path.push(child_component(v, from))) + (
        preorder_children(v, path, from + 1) + pending(rest)) =~= (preorder(
            child_value(v, from),
            path.push(child_component(v, from)),
        ) + preorder_children(v, path, from + 1)) + pending(rest));
    }
}

/// Copy a path, so that a child's path can grow without touching the
/// parent's.
fn clone_components<'a>(components: &Vec<PathComponent<'a>>) -> (r: Vec<PathComponent<'a>>)
    ensures
        r@ == components@,
{
    let mut r: Vec<PathComponent<'a>> = Vec::new();
    let mut i: usize = 0;
    while i < components.len()
        invariant
            i <= components@.len(),
            r@ == components@.take(i as int),
        decreases components@.len() - i,
    {
        let c = components[i];
        r.push(c);
        proof {
            assert(components@.take(i as int).push(components@[i as int]) =~= components@.take(
                (i + 1) as int,
            ));
        }
        i = i + 1;
    }
    proof {
        assert(components@.take(components@.len() as int) =~= components@);
    }
    r
}

/// Push one pending pair per object entry, last entry first, so that the
/// stack pops them in the object's own order.
fn traverse_object<'a>(
    traversal_stack: &mut Vec<PathValue<'a>>,
    entries: &'a Vec<(String, Value)>,
    pathvalue: &PathValue<'a>,
)
    ensures
        final(traversal_stack)@.len() == old(traversal_stack)@.len() + entries@.len(),
        forall|i: int|
            0 <= i < old(traversal_stack)@.len() ==> final(traversal_stack)@[i] == old(
                traversal_stack,
            )@[i],
        forall|j: int|
            0 <= j < entries@.len() ==> (#[trigger] final(traversal_stack)@[old(
                traversal_stack,
            )@.len() + j])@ == (
            pathvalue@.0.push(classify_key(entries@[entries@.len() - 1 - j].0@)),
            entries@[entries@.len() - 1 - j].1,
            ),
{
    let ghost base = traversal_stack@.len();
    let n = entries.len();
    let mut i: usize = n;
    while i > 0
        invariant
            n == entries@.len(),
            i <= n,
            traversal_stack@.len() == base + (n - i),
            forall|k: int| 0 <= k < base ==> traversal_stack@[k] == old(traversal_stack)@[k],
            forall|j: int|
                0 <= j < n - i ==> (#[trigger] traversal_stack@[base + j])@ == (
                pathvalue@.0.push(classify_key(entries@[n - 1 - j].0@)),
                entries@[n - 1 - j].1,
                ),
        decreases i,
    {
        i = i - 1;
        let entry = &entries[i];
        let mut cloned = clone_components(&pathvalue.path_components);
        let component = if is_identifier(entry.0.as_str()) {
            PathComponent::Identifier(entry.0.as_str())
        } else {
            PathComponent::NonIdentifier(entry.0.as_str())
        };
        cloned.push(component);
        proof {
            assert(cloned.deep_view() =~= pathvalue.path_components.deep_view().push(
                classify_key(entry.0@),
            ));
        }
        traversal_stack.push(PathValue::new(&entry.1, cloned));
    }
}

/// Push one pending pair per array element, last element first, so that
/// the stack pops them in index order.
fn traverse_array<'a>(
    traversal_stack: &mut Vec<PathValue<'a>>,
    elements: &'a Vec<Value>,
    pathvalue: &PathValue<'a>,
)
    ensures
        final(traversal_stack)@.len() == old(traversal_stack)@.len() + elements@.len(),
        forall|i: int|
            0 <= i < old(traversal_stack)@.len() ==> final(traversal_stack)@[i] == old(
                traversal_stack,
            )@[i],
        forall|j: int|
            0 <= j < elements@.len() ==> (#[trigger] final(traversal_stack)@[old(
                traversal_stack,
            )@.len() + j])@ == (
            pathvalue@.0.push(PathSeg::Index((elements@.len() - 1 - j) as nat)),
            elements@[elements@.len() - 1 - j],
            ),
{
    let ghost base = traversal_stack@.len();
    let n = elements.len();
    let mut i: usize = n;
    while i > 0
        invariant
            n == elements@.len(),
            i <= n,
            traversal_stack@.len() == base + (n - i),
            forall|k: int| 0 <= k < base ==> traversal_stack@[k] == old(traversal_stack)@[k],
            forall|j: int|
                0 <= j < n - i ==> (#[trigger] traversal_stack@[base + j])@ == (
                pathvalue@.0.push(PathSeg::Index((n - 1 - j) as nat)),
                elements@[n - 1 - j],
                ),
        decreases i,
    {
        i = i - 1;
        let mut cloned = clone_components(&pathvalue.path_components);
        cloned.push(PathComponent::Index(i));
        proof {
            assert(cloned.deep_view() =~= pathvalue.path_components.deep_view().push(
                PathSeg::Index(i as nat),
            ));
        }
        traversal_stack.push(PathValue::new(&elements[i], cloned));
    }
}

/// Enumerate the paths through a JSON document.
///
/// `jindex` calls `sink.handle_pathvalue` once for every node of the
/// document, in depth-first preorder, passing the path to that node and
/// the value there.  A root that is not an object or an array is rejected
/// before any sink call; a sink failure aborts the walk at that node.
pub fn jindex<S: PathValueSink>(sink: &mut S, json: &Value) -> (r: Result<(), JindexError>)
    requires
        old(sink).wf(),
    ensures
        final(sink).wf(),
        final(sink).config() == old(sink).config(),
        r is Ok ==> is_root_shape(*json) && final(sink).received() == old(sink).received()
            + preorder(*json, Seq::empty()),
        r matches Err(JindexError::InvalidRoot(text)) ==> !is_root_shape(*json) && text@
            == spec_render(*json) && final(sink).received() == old(sink).received(),
        r matches Err(JindexError::Sink(_)) ==> is_root_shape(*json) && S::may_fail(
            old(sink).config(),
        ) && exists|k: int|
            0 <= k < preorder(*json, Seq::empty()).len() && final(sink).received() == old(
                sink,
            ).received() + preorder(*json, Seq::empty()).take(k),
        !is_root_shape(*json) ==> r matches Err(JindexError::InvalidRoot(_)),
{
    if !json.is_object() && !json.is_array() {
        return Err(JindexError::InvalidRoot(render_value(json)));
    }
    let root_pathvalue = PathValue::new(json, Vec::new());
    let mut traversal_stack: Vec<PathValue> = Vec::new();
    traversal_stack.push(root_pathvalue);

    let ghost target = preorder(*json, Seq::empty());
    let ghost mut emitted: Seq<(Seq<PathSeg>, Value)> = Seq::empty();
    proof {
        assert(traversal_stack@[0].path_components.deep_view() =~= Seq::<PathSeg>::empty());
        assert(stack_view(traversal_stack@) =~= seq![(Seq::<PathSeg>::empty(), *json)]);
        let sv = stack_view(traversal_stack@);
        assert(sv.last() == (Seq::<PathSeg>::empty(), *json));
        assert(sv.drop_last() =~= Seq::<(Seq<PathSeg>, Value)>::empty());
        assert(pending(sv.drop_last()) == Seq::<(Seq<PathSeg>, Value)>::empty());
        assert(pending(sv) == preorder(*json, Seq::empty()) + pending(sv.drop_last()));
        assert(emitted + pending(sv) =~= target);
    }

    while traversal_stack.len() > 0
        invariant
            is_root_shape(*json),
            sink.wf(),
            sink.config() == old(sink).config(),
            sink.received() == old(sink).received() + emitted,
            emitted + pending(stack_view(traversal_stack@)) == target,
            target == preorder(*json, Seq::empty()),
        decreases pending(stack_view(traversal_stack@)).len(),
    {
        let ghost stack_before = stack_view(traversal_stack@);
        let pathvalue = traversal_stack.pop().unwrap();
        let ghost rest = stack_view(traversal_stack@);
        let ghost p = pathvalue@.0;
        let ghost v = pathvalue@.1;
        proof {
            assert(rest =~= stack_before.drop_last());
            assert(stack_before.last() == (p, v));
            assert(pending(stack_before) == preorder(v, p) + pending(rest));
        }

        match pathvalue.value {
            Value::Object(entries) => {
                traverse_object(&mut traversal_stack, entries, &pathvalue);
                proof {
                    assert(v == Value::Object(*entries));
                    lemma_pending_after_push(rest, v, p, stack_view(traversal_stack@), 0);
                }
            },
            Value::Array(elements) => {
                traverse_array(&mut traversal_stack, elements, &pathvalue);
                proof {
                    assert(v == Value::Array(*elements));
                    assert forall|j: int| 0 <= j < child_count(v) implies (#[trigger] stack_view(
                        traversal_stack@,
                    )[rest.len() + j]) == (
                    p.push(child_component(v, child_count(v) - 1 - j)),
                    child_value(v, child_count(v) - 1 - j),
                    ) by {
                        assert(child_component(v, child_count(v) - 1 - j) == PathSeg::Index(
                            (child_count(v) - 1 - j) as nat,
                        ));
                    }
                    lemma_pending_after_push(rest, v, p, stack_view(traversal_stack@), 0);
                }
            },
            _ => {
                proof {
                    assert(child_count(v) == 0);
                    assert(preorder_children(v, p, 0) =~= Seq::<(Seq<PathSeg>, Value)>::empty());
                    assert(pending(stack_view(traversal_stack@)) =~= preorder_children(v, p, 0)
                        + pending(rest));
                }
            },
        }

        proof {
            assert(pending(stack_view(traversal_stack@)) == preorder_children(v, p, 0) + pending(
                rest,
            ));
            assert(preorder(v, p) == seq![(p, v)] + preorder_children(v, p, 0));
        }

        let res = sink.handle_pathvalue(&pathvalue);
        match res {
            Ok(()) => {
                proof {
                    emitted = emitted.push((p, v));
                    assert(emitted + pending(stack_view(traversal_stack@)) =~= target);
                }
            },
            Err(e) => {
                proof {
                    let k = emitted.len() as int;
                    lemma_preorder_len(v, p);
                    assert(pending(stack_before).len() >= 1);
                    assert(target.len() == emitted.len() + pending(stack_before).len());
                    assert(target.take(k) =~= emitted);
                    assert(sink.received() == old(sink).received() + preorder(
                        *json,
                        Seq::empty(),
                    ).take(k));
                }
                return Err(JindexError::Sink(e));
            },
        }
    }
    proof {
        assert(stack_view(traversal_stack@) =~= Seq::<(Seq<PathSeg>, Value)>::empty());
        assert(pending(stack_view(traversal_stack@)) =~= Seq::<(Seq<PathSeg>, Value)>::empty());
        assert(emitted =~= target);
    }
    Ok(())
}

} // verus!
