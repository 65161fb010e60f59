use vstd::prelude::*;

verus! {

/// One element of the displayed hierarchy.
pub struct Node {
    pub id: String,
    pub label: String,
    pub children: Vec<Node>,
}

/// Why a tree could not be built.
#[derive(Clone, Copy, Debug, PartialEq, Eq, Structural)]
pub enum TreeError {
    /// Two siblings carry the same id.
    DuplicateId,
}

/// One line of the flattened tree: where the node sits (the index of each
/// node on the way down from the roots) and how many children it has.
pub struct Entry {
    pub path: Vec<usize>,
    pub children: usize,
}

pub open spec fn entry_view(e: Entry) -> (Seq<usize>, nat) {
    (e.path@, e.children as nat)
}

pub open spec fn entries_view(es: Seq<Entry>) -> Seq<(Seq<usize>, nat)> {
    es.map_values(|e: Entry| entry_view(e))
}

/// No two of these siblings share an id.
pub open spec fn distinct_ids(nodes: Seq<Node>) -> bool {
    forall|i: int, j: int| 0 <= i < j < nodes.len() ==> nodes[i].id@ != nodes[j].id@
}

/// Sibling ids are distinct at every level below and including `nodes`.
pub open spec fn forest_wf(nodes: Seq<Node>) -> bool
    decreases nodes,
{
    distinct_ids(nodes) && (nodes.len() == 0 || (forest_wf(nodes.drop_last()) && forest_wf(
        nodes.last().children@,
    )))
}

/// The set of index paths that a list of paths holds.
pub open spec fn path_set(paths: Seq<Vec<usize>>) -> Set<Seq<usize>> {
    Set::new(|p: Seq<usize>| exists|i: int| 0 <= i < paths.len() && #[trigger] paths[i]@ == p)
}

/// The lines shown for `nodes`, which sit below the path `prefix`: depth first,
/// children in their order, the children of a node only where its path is open.
pub open spec fn visible(nodes: Seq<Node>, prefix: Seq<usize>, open: Set<Seq<usize>>) -> Seq<
    (Seq<usize>, nat),
>
    decreases nodes,
{
    if nodes.len() == 0 {
        Seq::empty()
    } else {
        let k = nodes.len() - 1;
        let p = prefix.push(k as usize);
        let n = nodes[k];
        visible(nodes.drop_last(), prefix, open) + seq![(p, n.children@.len())] + if open.contains(
            p,
        ) {
            visible(n.children@, p, open)
        } else {
            Seq::empty()
        }
    }
}

/// The ids met on the way down from `nodes` along the index path `q`.
pub open spec fn id_path(nodes: Seq<Node>, q: Seq<usize>) -> Seq<Seq<char>>
    decreases q.len(),
{
    if q.len() == 0 || q[0] >= nodes.len() {
        Seq::empty()
    } else {
        seq![nodes[q[0] as int].id@] + id_path(nodes[q[0] as int].children@, q.drop_first())
    }
}

pub fn paths_equal(a: &Vec<usize>, b: &Vec<usize>) -> (r: bool)
    ensures
        r == (a@ == b@),
{
    if a.len() != b.len() {
        return false;
    }
    let mut i: usize = 0;
    while i < a.len()
        invariant
            a.len() == b.len(),
            i <= a.len(),
            a@.take(i as int) == b@.take(i as int),
        decreases a.len() - i,
    {
        if a[i] != b[i] {
            return false;
        }
        assert(a@.take(i + 1) =~= a@.take(i as int).push(a[i as int]));
        assert(b@.take(i + 1) =~= b@.take(i as int).push(b[i as int]));
        i += 1;
    }
    assert(a@ =~= a@.take(i as int));
    assert(b@ =~= b@.take(i as int));
    true
}

/// Whether `paths` holds `p`.
pub fn contains_path(paths: &Vec<Vec<usize>>, p: &Vec<usize>) -> (r: bool)
    ensures
        r == path_set(paths@).contains(p@),
{
    let mut i: usize = 0;
    while i < paths.len()
        invariant
            i <= paths.len(),
            forall|j: int| 0 <= j < i ==> paths[j]@ != p@,
        decreases paths.len() - i,
    {
        if paths_equal(&paths[i], p) {
            return true;
        }
        i += 1;
    }
    false
}

/// Appends the lines of `nodes` below `prefix` to `out`.
pub fn flatten_into(
    nodes: &Vec<Node>,
    prefix: &Vec<usize>,
    open: &Vec<Vec<usize>>,
    out: &mut Vec<Entry>,
)
    ensures
        entries_view(final(out)@) == entries_view(old(out)@) + visible(
            nodes@,
            prefix@,
            path_set(open@),
        ),
    decreases nodes@,
{
    let ghost start = entries_view(out@);
    let mut i: usize = 0;
    while i < nodes.len()
        invariant
            i <= nodes.len(),
            entries_view(out@) == start + visible(nodes@.take(i as int), prefix@, path_set(open@)),
        decreases nodes.len() - i,
    {
        let mut p = prefix.clone();
        p.push(i);
        let ghost before = entries_view(out@);
        let n = &nodes[i];
        out.push(Entry { path: p.clone(), children: n.children.len() });
        assert(entries_view(out@) =~= before + seq![(p@, n.children@.len())]);
        let is_open = contains_path(open, &p);
        if is_open {
            assert(decreases_to!(nodes@ => nodes@[i as int]));
            assert(decreases_to!(nodes@[i as int] => nodes@[i as int].children));
            flatten_into(&n.children, &p, open, out);
        }
        assert(nodes@.take(i + 1).drop_last() =~= nodes@.take(i as int));
        i += 1;
    }
    assert(nodes@.take(i as int) =~= nodes@);
}

/// Every line below `prefix` extends `prefix` by the index of one of `nodes`,
/// and no two lines share a path.
pub proof fn lemma_visible_shape(nodes: Seq<Node>, prefix: Seq<usize>, open: Set<Seq<usize>>)
    requires
        nodes.len() <= usize::MAX,
    ensures
        forall|i: int|
            #![trigger visible(nodes, prefix, open)[i]]
            0 <= i < visible(nodes, prefix, open).len() ==> {
                let e = visible(nodes, prefix, open)[i].0;
                &&& e.len() > prefix.len()
                &&& e.take(prefix.len() as int) == prefix
                &&& e[prefix.len() as int] < nodes.len()
            },
        forall|i: int, j: int|
            0 <= i < j < visible(nodes, prefix, open).len() ==> visible(nodes, prefix, open)[i].0
                != visible(nodes, prefix, open)[j].0,
    decreases nodes,
{
    if nodes.len() > 0 {
        let k = nodes.len() - 1;
        let p = prefix.push(k as usize);
        let n = nodes[k];
        let pl = prefix.len() as int;
        let a = visible(nodes.drop_last(), prefix, open);
        let c = if open.contains(p) {
            visible(n.children@, p, open)
        } else {
            Seq::empty()
        };
        let v = visible(nodes, prefix, open);
        lemma_visible_shape(nodes.drop_last(), prefix, open);
        assert(n.children@.len() == n.children.len());
        if open.contains(p) {
            lemma_visible_shape(n.children@, p, open);
        }
        assert(v == a + seq![(p, n.children@.len())] + c);
        assert(p.take(pl) =~= prefix);
        assert(p[pl] == k);
        assert forall|i: int| 0 <= i < c.len() implies {
            let e = #[trigger] c[i].0;
            &&& e.len() > p.len()
            &&& e.take(pl) == prefix
            &&& e[pl] == k
        } by {
            let e = c[i].0;
            assert(c[i] == visible(n.children@, p, open)[i]);
            assert(e.take(pl + 1) == p);
            assert(e.take(pl) =~= e.take(pl + 1).take(pl));
            assert(e[pl] == e.take(pl + 1)[pl]);
        }
        assert forall|i: int| 0 <= i < v.len() implies {
            let e = #[trigger] v[i].0;
            &&& e.len() > prefix.len()
            &&& e.take(prefix.len() as int) == prefix
            &&& e[prefix.len() as int] < nodes.len()
        } by {
            if i < a.len() {
                assert(v[i] == a[i]);
            } else if i > a.len() {
                assert(v[i] == c[i - a.len() - 1]);
            }
        }
        assert forall|i: int, j: int| 0 <= i < j < v.len() implies v[i].0 != v[j].0 by {
            if j < a.len() {
                assert(v[i] == a[i] && v[j] == a[j]);
            } else if i < a.len() {
                assert(v[i] == a[i]);
                if j > a.len() {
                    assert(v[j] == c[j - a.len() - 1]);
                }
                assert(v[i].0[pl] < k);
                assert(v[j].0[pl] == k);
            } else if i == a.len() {
                assert(v[j] == c[j - a.len() - 1]);
                assert(v[j].0.len() > p.len());
            } else {
                assert(v[i] == c[i - a.len() - 1]);
                assert(v[j] == c[j - a.len() - 1]);
            }
        }
    }
}

/// Some line of `s` has the path `e`.
pub open spec fn has_path(s: Seq<(Seq<usize>, nat)>, e: Seq<usize>) -> bool {
    exists|i: int| 0 <= i < s.len() && #[trigger] s[i].0 == e
}

/// `q` is a proper beginning of `e`.
pub open spec fn strict_prefix(q: Seq<usize>, e: Seq<usize>) -> bool {
    q.len() < e.len() && e.take(q.len() as int) == q
}

/// The first line below `prefix` is the first of `nodes`.
pub proof fn lemma_visible_first(nodes: Seq<Node>, prefix: Seq<usize>, open: Set<Seq<usize>>)
    requires
        nodes.len() > 0,
    ensures
        visible(nodes, prefix, open).len() > 0,
        visible(nodes, prefix, open)[0].0 == prefix.push(0),
    decreases nodes,
{
    let k = nodes.len() - 1;
    let p = prefix.push(k as usize);
    let n = nodes[k];
    let a = visible(nodes.drop_last(), prefix, open);
    let c = if open.contains(p) {
        visible(n.children@, p, open)
    } else {
        Seq::empty()
    };
    assert(visible(nodes, prefix, open) == a + seq![(p, n.children@.len())] + c);
    if nodes.len() > 1 {
        lemma_visible_first(nodes.drop_last(), prefix, open);
    } else {
        assert(a.len() == 0);
    }
}

/// Whether a line is shown does not depend on whether its own path, or a path
/// that does not lead to it, is open.
pub proof fn lemma_visible_keeps(
    nodes: Seq<Node>,
    prefix: Seq<usize>,
    open: Set<Seq<usize>>,
    open2: Set<Seq<usize>>,
    e: Seq<usize>,
    q: Seq<usize>,
)
    requires
        nodes.len() <= usize::MAX,
        has_path(visible(nodes, prefix, open), e),
        !strict_prefix(q, e),
        open2 == open.insert(q) || open2 == open.remove(q),
    ensures
        has_path(visible(nodes, prefix, open2), e),
    decreases nodes,
{
    let v = visible(nodes, prefix, open);
    let v2 = visible(nodes, prefix, open2);
    let k = nodes.len() - 1;
    let p = prefix.push(k as usize);
    let n = nodes[k];
    let a = visible(nodes.drop_last(), prefix, open);
    let a2 = visible(nodes.drop_last(), prefix, open2);
    let c = if open.contains(p) {
        visible(n.children@, p, open)
    } else {
        Seq::empty()
    };
    let c2 = if open2.contains(p) {
        visible(n.children@, p, open2)
    } else {
        Seq::empty()
    };
    assert(v == a + seq![(p, n.children@.len())] + c);
    assert(v2 == a2 + seq![(p, n.children@.len())] + c2);
    let i = choose|i: int| 0 <= i < v.len() && #[trigger] v[i].0 == e;
    if i < a.len() {
        assert(a[i].0 == e);
        lemma_visible_keeps(nodes.drop_last(), prefix, open, open2, e, q);
        let j = choose|j: int| 0 <= j < a2.len() && #[trigger] a2[j].0 == e;
        assert(v2[j] == a2[j]);
    } else if i == a.len() {
        assert(v2[a2.len() as int].0 == e);
    } else {
        let j = i - a.len() - 1;
        assert(v[i] == c[j]);
        assert(open.contains(p));
        assert(n.children@.len() == n.children.len());
        lemma_visible_shape(n.children@, p, open);
        assert(c[j] == visible(n.children@, p, open)[j]);
        assert(e.take(p.len() as int) == p);
        assert(q != p);
        assert(open2.contains(p));
        assert(n.children@.len() == n.children.len());
        lemma_visible_keeps(n.children@, p, open, open2, e, q);
        let m = choose|m: int| 0 <= m < c2.len() && #[trigger] c2[m].0 == e;
        assert(v2[a2.len() + 1 + m] == c2[m]);
    }
}

/// The parent of a shown line below the top level is shown.
pub proof fn lemma_visible_parent(
    nodes: Seq<Node>,
    prefix: Seq<usize>,
    open: Set<Seq<usize>>,
    e: Seq<usize>,
)
    requires
        nodes.len() <= usize::MAX,
        has_path(visible(nodes, prefix, open), e),
        e.len() > prefix.len() + 1,
    ensures
        has_path(visible(nodes, prefix, open), e.drop_last()),
    decreases nodes,
{
    let v = visible(nodes, prefix, open);
    let k = nodes.len() - 1;
    let p = prefix.push(k as usize);
    let n = nodes[k];
    let a = visible(nodes.drop_last(), prefix, open);
    let c = if open.contains(p) {
        visible(n.children@, p, open)
    } else {
        Seq::empty()
    };
    assert(v == a + seq![(p, n.children@.len())] + c);
    let i = choose|i: int| 0 <= i < v.len() && #[trigger] v[i].0 == e;
    if i < a.len() {
        assert(a[i].0 == e);
        lemma_visible_parent(nodes.drop_last(), prefix, open, e);
        let j = choose|j: int| 0 <= j < a.len() && #[trigger] a[j].0 == e.drop_last();
        assert(v[j] == a[j]);
    } else if i == a.len() {
    } else {
        let j = i - a.len() - 1;
        assert(v[i] == c[j]);
        assert(n.children@.len() == n.children.len());
        lemma_visible_shape(n.children@, p, open);
        assert(c[j] == visible(n.children@, p, open)[j]);
        assert(e.take(p.len() as int) == p);
        if e.len() == p.len() + 1 {
            assert(e.drop_last() =~= e.take(p.len() as int));
            assert(v[a.len() as int].0 == e.drop_last());
        } else {
            assert(n.children@.len() == n.children.len());
            lemma_visible_parent(n.children@, p, open, e);
            let m = choose|m: int| 0 <= m < c.len() && #[trigger] c[m].0 == e.drop_last();
            assert(v[a.len() + 1 + m] == c[m]);
        }
    }
}

/// Below a shown, open line with children, its first child is shown.
pub proof fn lemma_visible_child(
    nodes: Seq<Node>,
    prefix: Seq<usize>,
    open: Set<Seq<usize>>,
    i: int,
)
    requires
        0 <= i < visible(nodes, prefix, open).len(),
        visible(nodes, prefix, open)[i].1 > 0,
        open.contains(visible(nodes, prefix, open)[i].0),
    ensures
        has_path(visible(nodes, prefix, open), visible(nodes, prefix, open)[i].0.push(0)),
    decreases nodes,
{
    let v = visible(nodes, prefix, open);
    let e = v[i].0;
    let k = nodes.len() - 1;
    let p = prefix.push(k as usize);
    let n = nodes[k];
    let a = visible(nodes.drop_last(), prefix, open);
    let c = if open.contains(p) {
        visible(n.children@, p, open)
    } else {
        Seq::empty()
    };
    assert(v == a + seq![(p, n.children@.len())] + c);
    if i < a.len() {
        assert(v[i] == a[i]);
        lemma_visible_child(nodes.drop_last(), prefix, open, i);
        let j = choose|j: int| 0 <= j < a.len() && #[trigger] a[j].0 == e.push(0);
        assert(v[j] == a[j]);
    } else if i == a.len() {
        lemma_visible_first(n.children@, p, open);
        assert(v[a.len() as int + 1] == c[0]);
    } else {
        let j = i - a.len() - 1;
        assert(v[i] == c[j]);
        lemma_visible_child(n.children@, p, open, j);
        let m = choose|m: int| 0 <= m < c.len() && #[trigger] c[m].0 == e.push(0);
        assert(v[a.len() + 1 + m] == c[m]);
    }
}

/// Every one of `nodes` has a line of its own.
pub proof fn lemma_visible_len(nodes: Seq<Node>, prefix: Seq<usize>, open: Set<Seq<usize>>)
    ensures
        visible(nodes, prefix, open).len() >= nodes.len(),
    decreases nodes,
{
    if nodes.len() > 0 {
        lemma_visible_len(nodes.drop_last(), prefix, open);
    }
}

/// Opening a path never hides a line.
pub proof fn lemma_visible_mono(
    nodes: Seq<Node>,
    prefix: Seq<usize>,
    open: Set<Seq<usize>>,
    q: Seq<usize>,
)
    ensures
        visible(nodes, prefix, open).len() <= visible(nodes, prefix, open.insert(q)).len(),
    decreases nodes,
{
    if nodes.len() > 0 {
        let k = nodes.len() - 1;
        let p = prefix.push(k as usize);
        lemma_visible_mono(nodes.drop_last(), prefix, open, q);
        if open.contains(p) {
            lemma_visible_mono(nodes[k].children@, p, open, q);
        }
    }
}

/// Opening a shown, closed node that has children adds lines.
pub proof fn lemma_visible_grows(
    nodes: Seq<Node>,
    prefix: Seq<usize>,
    open: Set<Seq<usize>>,
    i: int,
)
    requires
        0 <= i < visible(nodes, prefix, open).len(),
        visible(nodes, prefix, open)[i].1 > 0,
        !open.contains(visible(nodes, prefix, open)[i].0),
    ensures
        visible(nodes, prefix, open).len() < visible(
            nodes,
            prefix,
            open.insert(visible(nodes, prefix, open)[i].0),
        ).len(),
    decreases nodes,
{
    let v = visible(nodes, prefix, open);
    let q = v[i].0;
    let o2 = open.insert(q);
    let k = nodes.len() - 1;
    let p = prefix.push(k as usize);
    let n = nodes[k];
    let a = visible(nodes.drop_last(), prefix, open);
    let c = if open.contains(p) {
        visible(n.children@, p, open)
    } else {
        Seq::empty()
    };
    assert(v == a + seq![(p, n.children@.len())] + c);
    if i < a.len() {
        assert(v[i] == a[i]);
        lemma_visible_grows(nodes.drop_last(), prefix, open, i);
        if open.contains(p) {
            lemma_visible_mono(n.children@, p, open, q);
        }
    } else if i == a.len() {
        assert(q == p);
        lemma_visible_mono(nodes.drop_last(), prefix, open, q);
        lemma_visible_len(n.children@, p, o2);
    } else {
        let j = i - a.len() - 1;
        assert(v[i] == c[j]);
        lemma_visible_mono(nodes.drop_last(), prefix, open, q);
        lemma_visible_grows(n.children@, p, open, j);
    }
}

/// Whether no two of `nodes` share an id.
pub fn check_distinct_ids(nodes: &Vec<Node>) -> (r: bool)
    ensures
        r == distinct_ids(nodes@),
{
    let mut j: usize = 0;
    while j < nodes.len()
        invariant
            j <= nodes.len(),
            forall|a: int, b: int| 0 <= a < b < j ==> nodes@[a].id@ != nodes@[b].id@,
        decreases nodes.len() - j,
    {
        let mut i: usize = 0;
        while i < j
            invariant
                i <= j < nodes.len(),
                forall|a: int, b: int| 0 <= a < b < j ==> nodes@[a].id@ != nodes@[b].id@,
                forall|a: int| 0 <= a < i ==> nodes@[a].id@ != nodes@[j as int].id@,
            decreases j - i,
        {
            if nodes[i].id == nodes[j].id {
                return false;
            }
            i += 1;
        }
        j += 1;
    }
    true
}

/// Whether sibling ids are distinct at every level of `nodes`.
pub fn check_forest(nodes: &Vec<Node>) -> (r: bool)
    ensures
        r == forest_wf(nodes@),
    decreases nodes@,
{
    if !check_distinct_ids(nodes) {
        return false;
    }
    let mut i: usize = 0;
    while i < nodes.len()
        invariant
            i <= nodes.len(),
            distinct_ids(nodes@),
            forest_wf(nodes@.take(i as int)),
        decreases nodes.len() - i,
    {
        let ghost pre = nodes@.take(i + 1);
        assert(pre.drop_last() =~= nodes@.take(i as int));
        assert(decreases_to!(nodes@ => nodes@[i as int]));
        assert(decreases_to!(nodes@[i as int] => nodes@[i as int].children));
        if !check_forest(&nodes[i].children) {
            assert(!forest_wf(pre));
            proof {
                if forest_wf(nodes@) {
                    lemma_forest_wf_prefix(nodes@, i + 1);
                }
            }
            return false;
        }
        i += 1;
    }
    assert(nodes@.take(i as int) =~= nodes@);
    true
}

/// A well-formed forest stays well-formed when cut short.
pub proof fn lemma_forest_wf_prefix(nodes: Seq<Node>, k: int)
    requires
        0 <= k <= nodes.len(),
        forest_wf(nodes),
    ensures
        forest_wf(nodes.take(k)),
    decreases nodes.len() - k,
{
    if k < nodes.len() {
        assert(nodes.take(k + 1).drop_last() =~= nodes.take(k));
        lemma_forest_wf_prefix(nodes, k + 1);
    } else {
        assert(nodes.take(k) =~= nodes);
    }
}

/// The ids of the nodes along `path`, from the roots down.
pub fn ids_along(nodes: &Vec<Node>, path: &Vec<usize>) -> (r: Vec<String>)
    ensures
        r.deep_view() == id_path(nodes@, path@),
{
    let mut out: Vec<String> = Vec::new();
    let mut cur = nodes;
    let mut j: usize = 0;
    assert(path@.skip(0) =~= path@);
    assert(out.deep_view() + id_path(cur@, path@) =~= id_path(cur@, path@));
    while j < path.len()
        invariant
            j <= path.len(),
            out.deep_view() + id_path(cur@, path@.skip(j as int)) == id_path(nodes@, path@),
        decreases path.len() - j,
    {
        let k = path[j];
        assert(path@.skip(j as int).drop_first() =~= path@.skip(j + 1));
        if k >= cur.len() {
            assert(out.deep_view() + id_path(cur@, path@.skip(j as int)) =~= out.deep_view());
            return out;
        }
        let ghost before = out.deep_view();
        out.push(cur[k].id.clone());
        assert(out.deep_view() =~= before.push(cur@[k as int].id@));
        cur = &cur[k].children;
        j += 1;
    }
    assert(out.deep_view() + id_path(cur@, path@.skip(j as int)) =~= out.deep_view());
    out
}

impl Node {
    /// A node without children.
    pub fn new_leaf(id: String, label: String) -> (r: Node)
        ensures
            r.id == id,
            r.label == label,
            r.children@.len() == 0,
    {
        Node { id, label, children: Vec::new() }
    }

    /// A node over `children`; fails where two of them share an id.
    pub fn new(id: String, label: String, children: Vec<Node>) -> (r: Result<Node, TreeError>)
        ensures
            r is Ok <==> distinct_ids(children@),
            r matches Ok(n) ==> n.id == id && n.label == label && n.children == children,
            r matches Err(e) ==> e == TreeError::DuplicateId,
    {
        if check_distinct_ids(&children) {
            Ok(Node { id, label, children })
        } else {
            Err(TreeError::DuplicateId)
        }
    }
}

} // verus!
