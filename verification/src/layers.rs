//! Layers that hang below one another: which of them hang below some roots.

use vstd::prelude::*;

verus! {

/// Whether each layer of the path hangs below the one before it, and the first
/// is a root.
pub open spec fn is_path(children: Seq<Vec<usize>>, roots: Seq<usize>, path: Seq<usize>) -> bool {
    &&& path.len() > 0
    &&& roots.contains(path[0])
    &&& forall|i: int|
        0 <= i < path.len() - 1 ==> #[trigger] hangs_below(children, path[i], path[i + 1])
}

/// Whether `lower` hangs directly below `upper`.
pub open spec fn hangs_below(children: Seq<Vec<usize>>, upper: usize, lower: usize) -> bool {
    upper < children.len() && children[upper as int]@.contains(lower)
}

/// Whether a layer is a root or hangs below one.
pub open spec fn is_reached(children: Seq<Vec<usize>>, roots: Seq<usize>, layer: usize) -> bool {
    exists|path: Seq<usize>| #[trigger] is_path(children, roots, path) && path.last() == layer
}

/// Every layer that is named has its list of children.
pub open spec fn is_complete(children: Seq<Vec<usize>>, roots: Seq<usize>) -> bool {
    &&& forall|i: int| 0 <= i < roots.len() ==> (#[trigger] roots[i]) < children.len()
    &&& forall|i: int, j: int|
        0 <= i < children.len() && 0 <= j < children[i]@.len() ==> (
        #[trigger] children[i]@[j]) < children.len()
}

proof fn lemma_root_is_reached(children: Seq<Vec<usize>>, roots: Seq<usize>, i: int)
    requires
        0 <= i < roots.len(),
    ensures
        is_reached(children, roots, roots[i]),
{
    let path = seq![roots[i]];
    assert(is_path(children, roots, path));
    assert(path.last() == roots[i]);
}

proof fn lemma_child_is_reached(
    children: Seq<Vec<usize>>,
    roots: Seq<usize>,
    upper: usize,
    lower: usize,
)
    requires
        is_reached(children, roots, upper),
        hangs_below(children, upper, lower),
    ensures
        is_reached(children, roots, lower),
{
    let path = choose|path: Seq<usize>| #[trigger]
        is_path(children, roots, path) && path.last() == upper;
    let longer = path.push(lower);
    assert forall|i: int| 0 <= i < longer.len() - 1 implies #[trigger] hangs_below(
        children,
        longer[i],
        longer[i + 1],
    ) by {
        if i < path.len() - 1 {
            assert(hangs_below(children, path[i], path[i + 1]));
        }
    }
    assert(is_path(children, roots, longer));
    assert(longer.last() == lower);
}

proof fn lemma_path_stays(
    children: Seq<Vec<usize>>,
    roots: Seq<usize>,
    found: Seq<usize>,
    path: Seq<usize>,
    n: int,
)
    requires
        is_path(children, roots, path),
        0 <= n < path.len(),
        forall|x: usize| roots.contains(x) ==> found.contains(x),
        forall|x: usize, y: usize|
            found.contains(x) && #[trigger] hangs_below(children, x, y) ==> found.contains(y),
    ensures
        found.contains(path[n]),
    decreases n,
{
    if n > 0 {
        lemma_path_stays(children, roots, found, path, n - 1);
        assert(hangs_below(children, path[n - 1], path[n - 1 + 1]));
    }
}

proof fn lemma_few_numbers(s: Seq<usize>, n: nat)
    requires
        s.no_duplicates(),
        forall|i: int| 0 <= i < s.len() ==> (#[trigger] s[i]) < n,
    ensures
        s.len() <= n,
{
    let t = Seq::new(s.len(), |i: int| s[i] as int);
    assert(t.no_duplicates());
    t.unique_seq_to_set();
    let range = vstd::set_lib::set_int_range(0, n as int);
    vstd::set_lib::lemma_int_range(0, n as int);
    assert forall|x: int| t.to_set().contains(x) implies range.contains(x) by {
        let i = choose|i: int| 0 <= i < t.len() && t[i] == x;
        assert(s[i] < n);
    }
    vstd::set_lib::lemma_len_subset(t.to_set(), range);
}

fn has_layer(layers: &Vec<usize>, layer: usize) -> (r: bool)
    ensures
        r == layers@.contains(layer),
{
    let mut i: usize = 0;
    while i < layers.len()
        invariant
            i <= layers@.len(),
            forall|j: int| 0 <= j < i ==> layers@[j] != layer,
        decreases layers@.len() - i,
    {
        if layers[i] == layer {
            return true;
        }
        i = i + 1;
    }
    false
}

/// What holds while layers are being visited: every layer that is known is
/// reached, and nothing below a visited one is forgotten.
spec fn is_walk(
    children: Seq<Vec<usize>>,
    roots: Seq<usize>,
    found: Seq<usize>,
    stack: Seq<usize>,
) -> bool {
    &&& found.no_duplicates()
    &&& forall|k: int|
        0 <= k < found.len() ==> (#[trigger] found[k]) < children.len() && is_reached(
            children,
            roots,
            found[k],
        )
    &&& forall|k: int|
        0 <= k < stack.len() ==> (#[trigger] stack[k]) < children.len() && is_reached(
            children,
            roots,
            stack[k],
        )
    &&& forall|x: usize| #[trigger] roots.contains(x) ==> found.contains(x) || stack.contains(x)
    &&& forall|x: usize, y: usize|
        found.contains(x) && #[trigger] hangs_below(children, x, y) ==> found.contains(y)
            || stack.contains(y)
}

proof fn lemma_popped(stack: Seq<usize>, x: usize)
    requires
        stack.len() > 0,
        stack.contains(x),
    ensures
        stack.drop_last().contains(x) || x == stack.last(),
{
    let k = choose|k: int| 0 <= k < stack.len() && stack[k] == x;
    if k < stack.len() - 1 {
        assert(stack.drop_last()[k] == x);
    }
}

/// A layer that has been visited before is passed over.
proof fn lemma_pass(
    children: Seq<Vec<usize>>,
    roots: Seq<usize>,
    found: Seq<usize>,
    stack: Seq<usize>,
)
    requires
        is_walk(children, roots, found, stack),
        stack.len() > 0,
        found.contains(stack.last()),
    ensures
        is_walk(children, roots, found, stack.drop_last()),
{
    let rest = stack.drop_last();
    assert forall|k: int| 0 <= k < rest.len() implies (#[trigger] rest[k]) < children.len()
        && is_reached(children, roots, rest[k]) by {
        assert(rest[k] == stack[k]);
    }
    assert forall|x: usize| #[trigger] roots.contains(x) implies found.contains(x)
        || rest.contains(x) by {
        if stack.contains(x) {
            lemma_popped(stack, x);
        }
    }
    assert forall|x: usize, y: usize|
        found.contains(x) && #[trigger] hangs_below(children, x, y) implies found.contains(y)
        || rest.contains(y) by {
        if stack.contains(y) {
            lemma_popped(stack, y);
        }
    }
}

/// A new layer is visited, and what hangs below it waits.
proof fn lemma_visit(
    children: Seq<Vec<usize>>,
    roots: Seq<usize>,
    found: Seq<usize>,
    stack: Seq<usize>,
)
    requires
        is_complete(children, roots),
        is_walk(children, roots, found, stack),
        stack.len() > 0,
        !found.contains(stack.last()),
    ensures
        is_walk(
            children,
            roots,
            found.push(stack.last()),
            stack.drop_last() + children[stack.last() as int]@,
        ),
{
    let layer = stack.last();
    let rest = stack.drop_last();
    assert(stack[stack.len() - 1] == layer);
    let below = children[layer as int]@;
    let more = found.push(layer);
    let next = rest + below;
    assert forall|x: usize| found.contains(x) || x == layer implies more.contains(x) by {
        if found.contains(x) {
            let k = choose|k: int| 0 <= k < found.len() && found[k] == x;
            assert(more[k] == x);
        } else {
            assert(more[found.len() as int] == x);
        }
    }
    assert forall|x: usize| stack.contains(x) implies more.contains(x) || next.contains(x) by {
        lemma_popped(stack, x);
        if rest.contains(x) {
            let k = choose|k: int| 0 <= k < rest.len() && rest[k] == x;
            assert(next[k] == x);
        }
    }
    assert forall|k: int| 0 <= k < next.len() implies (#[trigger] next[k]) < children.len()
        && is_reached(children, roots, next[k]) by {
        if k < rest.len() {
            assert(next[k] == stack[k]);
        } else {
            let m = k - rest.len();
            assert(next[k] == below[m]);
            assert(children[layer as int]@[m] < children.len());
            assert(below.contains(below[m]));
            lemma_child_is_reached(children, roots, layer, below[m]);
        }
    }
    assert forall|k: int| 0 <= k < more.len() implies (#[trigger] more[k]) < children.len()
        && is_reached(children, roots, more[k]) by {
        if k < found.len() {
            assert(more[k] == found[k]);
        }
    }
    assert forall|x: usize, y: usize|
        more.contains(x) && #[trigger] hangs_below(children, x, y) implies more.contains(y)
        || next.contains(y) by {
        if x == layer {
            let m = choose|m: int| 0 <= m < below.len() && below[m] == y;
            assert(next[rest.len() + m] == y);
        } else {
            let k = choose|k: int| 0 <= k < more.len() && more[k] == x;
            assert(found[k] == x);
        }
    }
}

proof fn lemma_walked(children: Seq<Vec<usize>>, roots: Seq<usize>, found: Seq<usize>)
    requires
        is_walk(children, roots, found, Seq::empty()),
    ensures
        forall|layer: usize|
            found.contains(layer) <==> #[trigger] is_reached(children, roots, layer),
{
    assert forall|layer: usize| found.contains(layer) <==> #[trigger] is_reached(
        children,
        roots,
        layer,
    ) by {
        if is_reached(children, roots, layer) {
            let path = choose|path: Seq<usize>| #[trigger]
                is_path(children, roots, path) && path.last() == layer;
            lemma_path_stays(children, roots, found, path, path.len() - 1);
        }
    }
}

/// The roots and all that hangs below them, each layer once.
pub fn descendant_layers(children: &Vec<Vec<usize>>, roots: &Vec<usize>) -> (r: Vec<usize>)
    requires
        is_complete(children@, roots@),
    ensures
        r@.no_duplicates(),
        forall|layer: usize|
            r@.contains(layer) <==> #[trigger] is_reached(children@, roots@, layer),
{
    let mut found: Vec<usize> = Vec::new();
    let mut stack: Vec<usize> = roots.clone();
    proof {
        assert(stack@ =~= roots@);
        assert forall|k: int| 0 <= k < stack@.len() implies (#[trigger] stack@[k])
            < children@.len() && is_reached(children@, roots@, stack@[k]) by {
            assert(roots@[k] < children@.len());
            lemma_root_is_reached(children@, roots@, k);
        }
    }
    while stack.len() > 0
        invariant
            is_complete(children@, roots@),
            is_walk(children@, roots@, found@, stack@),
            found@.len() <= children@.len(),
        decreases children@.len() - found@.len(), stack@.len(),
    {
        let ghost before = stack@;
        let layer: usize = stack[stack.len() - 1];
        stack.pop();
        if has_layer(&found, layer) {
            proof {
                lemma_pass(children@, roots@, found@, before);
            }
        } else {
            proof {
                lemma_visit(children@, roots@, found@, before);
                assert(before[before.len() - 1] < children@.len());
            }
            let mut below = children[layer].clone();
            stack.append(&mut below);
            found.push(layer);
            proof {
                lemma_few_numbers(found@, children@.len());
            }
        }
    }
    proof {
        assert(stack@ =~= Seq::empty());
        lemma_walked(children@, roots@, found@);
    }
    found
}

} // verus!
