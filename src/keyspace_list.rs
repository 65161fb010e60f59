use vstd::prelude::*;

use crate::action::Action;
use crate::key::{key_action, KeyCode, KeyEvent};
use crate::tree::{
    check_forest, contains_path, entries_view, flatten_into, forest_wf, has_path, id_path,
    ids_along, lemma_visible_child, lemma_visible_grows, lemma_visible_keeps, lemma_visible_len,
    lemma_visible_parent, lemma_visible_shape, path_set, paths_equal, visible, Entry, Node,
    TreeError,
};

verus! {

/// How far one page key scrolls.
pub const PAGE: usize = 3;

/// What a navigator holds, as mathematical values.
pub struct NavView {
    pub roots: Seq<Node>,
    /// Index paths of the expanded nodes.
    pub open: Set<Seq<usize>>,
    /// Index path of the highlighted node; empty when nothing is highlighted.
    pub selected: Seq<usize>,
    pub offset: nat,
    pub height: nat,
}

/// The flattened visible lines.
pub open spec fn lines(v: NavView) -> Seq<(Seq<usize>, nat)> {
    visible(v.roots, Seq::empty(), v.open)
}

/// `i` is the first line whose path is `p`.
pub open spec fn first_at(s: Seq<(Seq<usize>, nat)>, p: Seq<usize>, i: int) -> bool {
    &&& 0 <= i < s.len()
    &&& s[i].0 == p
    &&& forall|j: int| 0 <= j < i ==> s[j].0 != p
}

/// The index of the first line whose path is `p`, or -1.
pub open spec fn position(s: Seq<(Seq<usize>, nat)>, p: Seq<usize>) -> int {
    if exists|i: int| first_at(s, p, i) {
        choose|i: int| first_at(s, p, i)
    } else {
        -1
    }
}

/// The index of the highlighted line, or -1.
pub open spec fn sel_index(v: NavView) -> int {
    position(lines(v), v.selected)
}

/// The highlighted node is shown and has children.
pub open spec fn sel_internal(v: NavView) -> bool {
    sel_index(v) >= 0 && lines(v)[sel_index(v)].1 > 0
}

/// The largest offset at which the viewport still ends inside the lines.
pub open spec fn max_offset(v: NavView) -> nat {
    if lines(v).len() > v.height {
        (lines(v).len() - v.height) as nat
    } else {
        0
    }
}

pub open spec fn with_open(v: NavView, open: Set<Seq<usize>>) -> NavView {
    NavView { open, ..v }
}

pub open spec fn with_selected(v: NavView, selected: Seq<usize>) -> NavView {
    NavView { selected, ..v }
}

pub open spec fn with_offset(v: NavView, offset: nat) -> NavView {
    NavView { offset, ..v }
}

/// Expand or collapse the highlighted node; nothing on a leaf or without a highlight.
pub open spec fn step_toggle(v: NavView) -> NavView {
    if !sel_internal(v) {
        v
    } else if v.open.contains(v.selected) {
        with_open(v, v.open.remove(v.selected))
    } else {
        with_open(v, v.open.insert(v.selected))
    }
}

/// Collapse the highlighted node if it is open, else highlight its parent.
pub open spec fn step_left(v: NavView) -> NavView {
    if v.selected.len() == 0 {
        v
    } else if sel_internal(v) && v.open.contains(v.selected) {
        with_open(v, v.open.remove(v.selected))
    } else {
        with_selected(v, v.selected.drop_last())
    }
}

/// Expand the highlighted node if it is closed, else highlight its first child.
pub open spec fn step_right(v: NavView) -> NavView {
    if !sel_internal(v) {
        v
    } else if !v.open.contains(v.selected) {
        with_open(v, v.open.insert(v.selected))
    } else {
        with_selected(v, v.selected.push(0))
    }
}

/// Highlight the next line; the first one when no line is highlighted.
pub open spec fn step_down(v: NavView) -> NavView {
    let s = lines(v);
    let i = sel_index(v);
    if s.len() == 0 {
        v
    } else if i < 0 {
        with_selected(v, s[0].0)
    } else if i + 1 < s.len() {
        with_selected(v, s[i + 1].0)
    } else {
        v
    }
}

/// Highlight the previous line; the last one when no line is highlighted.
pub open spec fn step_up(v: NavView) -> NavView {
    let s = lines(v);
    let i = sel_index(v);
    if s.len() == 0 {
        v
    } else if i < 0 {
        with_selected(v, s.last().0)
    } else if i > 0 {
        with_selected(v, s[i - 1].0)
    } else {
        v
    }
}

pub open spec fn step_clear(v: NavView) -> NavView {
    with_selected(v, Seq::empty())
}

pub open spec fn step_home(v: NavView) -> NavView {
    if lines(v).len() == 0 {
        with_selected(v, Seq::empty())
    } else {
        with_selected(v, lines(v)[0].0)
    }
}

pub open spec fn step_end(v: NavView) -> NavView {
    if lines(v).len() == 0 {
        with_selected(v, Seq::empty())
    } else {
        with_selected(v, lines(v).last().0)
    }
}

pub open spec fn step_page_down(v: NavView) -> NavView {
    if v.offset + PAGE < max_offset(v) {
        with_offset(v, (v.offset + PAGE) as nat)
    } else {
        with_offset(v, max_offset(v))
    }
}

pub open spec fn step_page_up(v: NavView) -> NavView {
    if v.offset >= PAGE {
        with_offset(v, (v.offset - PAGE) as nat)
    } else {
        with_offset(v, 0)
    }
}

/// What a key does to the navigator.
pub open spec fn nav_key_step(v: NavView, code: KeyCode) -> NavView {
    match code {
        KeyCode::Enter => step_toggle(v),
        KeyCode::Char(c) => {
            if c == '\n' || c == ' ' {
                step_toggle(v)
            } else if c == 'h' || c == 'H' {
                step_left(v)
            } else if c == 'l' || c == 'L' {
                step_right(v)
            } else if c == 'j' || c == 'J' {
                step_down(v)
            } else if c == 'k' || c == 'K' {
                step_up(v)
            } else {
                v
            }
        },
        KeyCode::Left => step_left(v),
        KeyCode::Right => step_right(v),
        KeyCode::Down => step_down(v),
        KeyCode::Up => step_up(v),
        KeyCode::Esc => step_clear(v),
        KeyCode::Home => step_home(v),
        KeyCode::End => step_end(v),
        KeyCode::PageDown => step_page_down(v),
        KeyCode::PageUp => step_page_up(v),
        _ => v,
    }
}

/// The navigator's invariant: nothing is highlighted, or the highlight is on
/// a shown line.
pub open spec fn nav_wf(v: NavView) -> bool {
    &&& v.roots.len() <= usize::MAX
    &&& (v.selected.len() == 0 || has_path(lines(v), v.selected))
}

/// A shown path is found at its line.
pub proof fn lemma_position_found(v: NavView, e: Seq<usize>)
    requires
        v.roots.len() <= usize::MAX,
        has_path(lines(v), e),
    ensures
        0 <= position(lines(v), e) < lines(v).len(),
        lines(v)[position(lines(v), e)].0 == e,
{
    let s = lines(v);
    lemma_visible_shape(v.roots, Seq::empty(), v.open);
    let i = choose|i: int| 0 <= i < s.len() && #[trigger] s[i].0 == e;
    assert(first_at(s, e, i));
    let c = choose|c: int| #[trigger] first_at(s, e, c);
    assert(first_at(s, e, c));
}

proof fn lemma_select_line_wf(v: NavView, j: int)
    requires
        nav_wf(v),
        0 <= j < lines(v).len(),
    ensures
        nav_wf(with_selected(v, lines(v)[j].0)),
{
    assert(lines(with_selected(v, lines(v)[j].0)) == lines(v));
}

proof fn lemma_open_change_wf(v: NavView, open2: Set<Seq<usize>>)
    requires
        nav_wf(v),
        open2 == v.open.insert(v.selected) || open2 == v.open.remove(v.selected),
    ensures
        nav_wf(with_open(v, open2)),
{
    if v.selected.len() > 0 {
        lemma_visible_keeps(v.roots, Seq::empty(), v.open, open2, v.selected, v.selected);
    }
}

/// Toggling keeps the invariant.
pub proof fn lemma_toggle_wf(v: NavView)
    requires
        nav_wf(v),
    ensures
        nav_wf(step_toggle(v)),
{
    if sel_internal(v) {
        if v.open.contains(v.selected) {
            lemma_open_change_wf(v, v.open.remove(v.selected));
        } else {
            lemma_open_change_wf(v, v.open.insert(v.selected));
        }
    }
}

/// Moving left keeps the invariant.
pub proof fn lemma_left_wf(v: NavView)
    requires
        nav_wf(v),
    ensures
        nav_wf(step_left(v)),
{
    if v.selected.len() > 0 {
        if sel_internal(v) && v.open.contains(v.selected) {
            lemma_open_change_wf(v, v.open.remove(v.selected));
        } else if v.selected.len() > 1 {
            lemma_visible_parent(v.roots, Seq::empty(), v.open, v.selected);
            assert(lines(with_selected(v, v.selected.drop_last())) == lines(v));
        }
    }
}

/// Moving right keeps the invariant.
pub proof fn lemma_right_wf(v: NavView)
    requires
        nav_wf(v),
    ensures
        nav_wf(step_right(v)),
{
    if sel_internal(v) {
        if !v.open.contains(v.selected) {
            lemma_open_change_wf(v, v.open.insert(v.selected));
        } else {
            lemma_position_found(v, v.selected);
            lemma_visible_child(v.roots, Seq::empty(), v.open, sel_index(v));
            assert(lines(with_selected(v, v.selected.push(0))) == lines(v));
        }
    }
}

/// The highlight's index is -1 or the index of a line.
pub proof fn lemma_sel_index_range(v: NavView)
    ensures
        sel_index(v) == -1 || 0 <= sel_index(v) < lines(v).len(),
{
    let s = lines(v);
    if exists|c: int| #[trigger] first_at(s, v.selected, c) {
        let c = choose|c: int| #[trigger] first_at(s, v.selected, c);
        assert(first_at(s, v.selected, c));
    }
}

/// Moving down or up, or to either end, keeps the invariant.
pub proof fn lemma_vertical_wf(v: NavView)
    requires
        nav_wf(v),
    ensures
        nav_wf(step_down(v)),
        nav_wf(step_up(v)),
        nav_wf(step_home(v)),
        nav_wf(step_end(v)),
{
    let s = lines(v);
    let i = sel_index(v);
    lemma_sel_index_range(v);
    if s.len() > 0 {
        lemma_select_line_wf(v, 0);
        lemma_select_line_wf(v, s.len() - 1);
        if i >= 0 {
            if i + 1 < s.len() {
                lemma_select_line_wf(v, i + 1);
            }
            if i > 0 {
                lemma_select_line_wf(v, i - 1);
            }
        }
    }
}

/// Clearing and paging keep the invariant.
pub proof fn lemma_clear_page_wf(v: NavView)
    requires
        nav_wf(v),
    ensures
        nav_wf(step_clear(v)),
        nav_wf(step_page_down(v)),
        nav_wf(step_page_up(v)),
{
    assert(lines(step_page_down(v)) == lines(v));
    assert(lines(step_page_up(v)) == lines(v));
    assert(lines(step_clear(v)) == lines(v));
}

/// Every key keeps the navigator's invariant.
pub proof fn lemma_key_step_wf(v: NavView, code: KeyCode)
    requires
        nav_wf(v),
    ensures
        nav_wf(nav_key_step(v, code)),
{
    lemma_toggle_wf(v);
    lemma_left_wf(v);
    lemma_right_wf(v);
    lemma_vertical_wf(v);
    lemma_clear_page_wf(v);
}

/// The tree shows at least one line for each root.
pub proof fn lemma_lines_cover_roots(v: NavView)
    ensures
        lines(v).len() >= v.roots.len(),
{
    lemma_visible_len(v.roots, Seq::empty(), v.open);
}

/// Expanding a shown, collapsed node that has children makes the tree show
/// strictly more lines.
pub proof fn lemma_opening_adds_lines(v: NavView, i: int)
    requires
        0 <= i < lines(v).len(),
        lines(v)[i].1 > 0,
        !v.open.contains(lines(v)[i].0),
    ensures
        lines(with_open(v, v.open.insert(lines(v)[i].0))).len() > lines(v).len(),
{
    lemma_visible_grows(v.roots, Seq::empty(), v.open, i);
}

/// Moving down and then up from a highlighted line that is not the last one
/// comes back to where it started.
pub proof fn lemma_down_then_up(v: NavView)
    requires
        v.roots.len() <= usize::MAX,
        0 <= sel_index(v),
        sel_index(v) + 1 < lines(v).len(),
    ensures
        step_up(step_down(v)) == v,
{
    let s = lines(v);
    let i = sel_index(v);
    assert(exists|c: int| #[trigger] first_at(s, v.selected, c));
    assert(first_at(s, v.selected, i));
    let w = step_down(v);
    assert(w == with_selected(v, s[i + 1].0));
    assert(lines(w) == s);
    lemma_visible_shape(v.roots, Seq::empty(), v.open);
    assert(first_at(s, s[i + 1].0, i + 1));
    let c = choose|c: int| #[trigger] first_at(s, s[i + 1].0, c);
    assert(c == i + 1);
    assert(sel_index(w) == i + 1);
    assert(step_up(w) == with_selected(w, s[i].0));
}

/// Toggling a highlighted leaf changes nothing, once or twice.
pub proof fn lemma_toggle_leaf(v: NavView)
    requires
        sel_index(v) >= 0,
        lines(v)[sel_index(v)].1 == 0,
    ensures
        step_toggle(v) == v,
        step_toggle(step_toggle(v)) == v,
{
}

/// A page down never scrolls past the last full viewport; a page up stops at
/// the top.
pub proof fn lemma_paging_bounds(v: NavView)
    ensures
        step_page_down(v).offset <= max_offset(v),
        step_page_up(v).offset == if v.offset >= PAGE {
            v.offset - PAGE
        } else {
            0
        },
        step_page_down(v).selected == v.selected,
        step_page_up(v).selected == v.selected,
{
}

/// Clearing leaves nothing highlighted, whatever came before.
pub proof fn lemma_clear_empties(v: NavView)
    ensures
        step_clear(v).selected.len() == 0,
{
}

/// The tree panel: a fixed forest and the state of its view.
pub struct KeyspaceList {
    roots: Vec<Node>,
    open: Vec<Vec<usize>>,
    selected: Vec<usize>,
    offset: usize,
    height: usize,
}

impl View for KeyspaceList {
    type V = NavView;

    closed spec fn view(&self) -> NavView {
        NavView {
            roots: self.roots@,
            open: path_set(self.open@),
            selected: self.selected@,
            offset: self.offset as nat,
            height: self.height as nat,
        }
    }
}

/// Keeps the paths of `paths` that are not `p`.
fn remove_path(paths: &Vec<Vec<usize>>, p: &Vec<usize>) -> (r: Vec<Vec<usize>>)
    ensures
        path_set(r@) == path_set(paths@).remove(p@),
{
    let mut r: Vec<Vec<usize>> = Vec::new();
    let mut i: usize = 0;
    while i < paths.len()
        invariant
            i <= paths.len(),
            forall|j: int| 0 <= j < r.len() ==> r@[j]@ != p@,
            path_set(r@) == path_set(paths@.take(i as int)).remove(p@),
        decreases paths.len() - i,
    {
        let ghost old_r = r@;
        if !paths_equal(&paths[i], p) {
            r.push(paths[i].clone());
            assert(r@[r@.len() - 1]@ == paths@[i as int]@);
        }
        assert(path_set(r@) =~= path_set(paths@.take(i + 1)).remove(p@)) by {
            assert(paths@.take(i + 1) =~= paths@.take(i as int).push(paths@[i as int]));
            assert forall|q: Seq<usize>| path_set(r@).contains(q) implies path_set(
                paths@.take(i + 1),
            ).remove(p@).contains(q) by {
                let j = choose|j: int| 0 <= j < r@.len() && #[trigger] r@[j]@ == q;
                if j < old_r.len() {
                    assert(old_r[j]@ == q);
                    assert(path_set(old_r).contains(q));
                    let k = choose|k: int|
                        0 <= k < i && #[trigger] paths@.take(i as int)[k]@ == q;
                    assert(paths@.take(i + 1)[k]@ == q);
                } else {
                    assert(paths@.take(i + 1)[i as int]@ == q);
                }
            }
            assert forall|q: Seq<usize>| path_set(paths@.take(i + 1)).remove(p@).contains(
                q,
            ) implies path_set(r@).contains(q) by {
                let k = choose|k: int| 0 <= k < i + 1 && #[trigger] paths@.take(i + 1)[k]@ == q;
                if k < i {
                    assert(paths@.take(i as int)[k]@ == q);
                    assert(path_set(old_r).contains(q));
                    let j = choose|j: int| 0 <= j < old_r.len() && #[trigger] old_r[j]@ == q;
                    assert(r@[j]@ == q);
                } else {
                    assert(r@[r@.len() - 1]@ == q);
                }
            }
        }
        i += 1;
    }
    assert(paths@.take(i as int) =~= paths@);
    r
}

proof fn lemma_path_set_push(paths: Seq<Vec<usize>>, p: Vec<usize>)
    ensures
        path_set(paths.push(p)) == path_set(paths).insert(p@),
{
    let q = paths.push(p);
    assert forall|x: Seq<usize>| path_set(q).contains(x) implies path_set(paths).insert(
        p@,
    ).contains(x) by {
        let j = choose|j: int| 0 <= j < q.len() && #[trigger] q[j]@ == x;
        if j < paths.len() {
            assert(paths[j]@ == x);
        }
    }
    assert forall|x: Seq<usize>| path_set(paths).insert(p@).contains(x) implies path_set(
        q,
    ).contains(x) by {
        if x == p@ {
            assert(q[paths.len() as int]@ == x);
        } else {
            let j = choose|j: int| 0 <= j < paths.len() && #[trigger] paths[j]@ == x;
            assert(q[j]@ == x);
        }
    }
    assert(path_set(q) =~= path_set(paths).insert(p@));
}

/// The first index at which `es` holds the path `p`.
fn position_of(es: &Vec<Entry>, p: &Vec<usize>) -> (r: Option<usize>)
    ensures
        r matches Some(i) ==> position(entries_view(es@), p@) == i,
        r is None ==> position(entries_view(es@), p@) == -1,
{
    let ghost s = entries_view(es@);
    let mut i: usize = 0;
    while i < es.len()
        invariant
            i <= es.len(),
            s == entries_view(es@),
            forall|j: int| 0 <= j < i ==> s[j].0 != p@,
        decreases es.len() - i,
    {
        if paths_equal(&es[i].path, p) {
            assert(first_at(s, p@, i as int));
            let ghost c = choose|c: int| first_at(s, p@, c);
            assert(c == i) by {
                if c < i {
                    assert(s[c].0 != p@);
                }
                if c > i {
                    assert(s[i as int].0 != p@);
                }
            }
            return Some(i);
        }
        i += 1;
    }
    assert(!exists|c: int| first_at(s, p@, c));
    None
}

impl KeyspaceList {
    /// The navigator over the sample forest: a leaf `keyspace1`, and
    /// `keyspace2` over the leaves `table1` and `table2`.
    pub fn new() -> (r: KeyspaceList)
        ensures
            forest_wf(r@.roots),
            r@.roots.len() == 2,
            r@.roots[0].id@ == "keyspace1"@,
            r@.roots[0].children@.len() == 0,
            r@.roots[1].id@ == "keyspace2"@,
            r@.roots[1].children@.len() == 2,
            r@.roots[1].children@[0].id@ == "table1"@,
            r@.roots[1].children@[0].children@.len() == 0,
            r@.roots[1].children@[1].id@ == "table2"@,
            r@.roots[1].children@[1].children@.len() == 0,
            nav_wf(r@),
            r@.open == Set::<Seq<usize>>::empty(),
            r@.selected.len() == 0,
            r@.offset == 0,
    {
        proof {
            reveal_strlit("keyspace1");
            reveal_strlit("keyspace2");
            reveal_strlit("table1");
            reveal_strlit("table2");
        }
        let t1 = Node::new_leaf("table1".to_string(), "table1".to_string());
        let t2 = Node::new_leaf("table2".to_string(), "table2".to_string());
        let k1 = Node::new_leaf("keyspace1".to_string(), "keyspace1".to_string());
        let mut kids: Vec<Node> = Vec::new();
        kids.push(t1);
        kids.push(t2);
        assert(kids@[0].id@ == "table1"@);
        assert("table1"@[5] != "table2"@[5]);
        assert(kids@[0].id@ != kids@[1].id@);
        let k2 = Node { id: "keyspace2".to_string(), label: "keyspace2".to_string(), children: kids };
        let mut roots: Vec<Node> = Vec::new();
        roots.push(k1);
        roots.push(k2);
        assert(roots@[1].id@ == "keyspace2"@);
        assert("keyspace1"@[8] != "keyspace2"@[8]);
        assert(roots@[0].id@ != roots@[1].id@);
        proof {
            assert(kids@.drop_last().drop_last() =~= Seq::<Node>::empty());
            assert(forest_wf(Seq::<Node>::empty()));
            assert(forest_wf(kids@.drop_last().drop_last()));
            assert(kids@.drop_last().last() == kids@[0]);
            assert(forest_wf(kids@[0].children@));
            assert(forest_wf(kids@[1].children@));
            assert(forest_wf(kids@.drop_last()));
            assert(forest_wf(kids@));
            assert(roots@.drop_last().drop_last() =~= Seq::<Node>::empty());
            assert(forest_wf(roots@.drop_last().drop_last()));
            assert(roots@.drop_last().last() == roots@[0]);
            assert(forest_wf(roots@[0].children@));
            assert(forest_wf(roots@.drop_last()));
            assert(forest_wf(roots@));
        }
        let open: Vec<Vec<usize>> = Vec::new();
        let k = KeyspaceList { roots, open, selected: Vec::new(), offset: 0, height: 0 };
        assert(path_set(k.open@) =~= Set::empty());
        k
    }

    /// Builds a navigator over `roots` with nothing open and nothing selected;
    /// fails where two siblings anywhere in the forest share an id.
    pub fn from_roots(roots: Vec<Node>) -> (r: Result<KeyspaceList, TreeError>)
        ensures
            r is Ok <==> forest_wf(roots@),
            r matches Ok(k) ==> nav_wf(k@),
            r matches Ok(k) ==> k@ == (NavView {
                roots: roots@,
                open: Set::empty(),
                selected: Seq::empty(),
                offset: 0,
                height: 0,
            }),
            r matches Err(e) ==> e == TreeError::DuplicateId,
    {
        assert(roots@.len() == roots.len());
        if !check_forest(&roots) {
            return Err(TreeError::DuplicateId);
        }
        let k = KeyspaceList {
            roots,
            open: Vec::new(),
            selected: Vec::new(),
            offset: 0,
            height: 0,
        };
        assert(path_set(k.open@) =~= Set::empty());
        Ok(k)
    }

    /// The flattened visible lines.
    pub fn visible_lines(&self) -> (r: Vec<Entry>)
        ensures
            entries_view(r@) == lines(self@),
    {
        let mut out: Vec<Entry> = Vec::new();
        let prefix: Vec<usize> = Vec::new();
        assert(entries_view(out@) =~= Seq::empty());
        flatten_into(&self.roots, &prefix, &self.open, &mut out);
        assert(entries_view(out@) =~= lines(self@));
        out
    }

    /// How many lines the tree shows.
    pub fn visible_len(&self) -> (r: usize)
        ensures
            r == lines(self@).len(),
    {
        let es = self.visible_lines();
        assert(entries_view(es@).len() == es@.len());
        es.len()
    }

    /// The ids along the highlighted path; empty when nothing is highlighted.
    pub fn selected(&self) -> (r: Vec<String>)
        ensures
            r.deep_view() == id_path(self@.roots, self@.selected),
    {
        ids_along(&self.roots, &self.selected)
    }

    /// The ids along the index path `path`, as far as it leads into the forest.
    pub fn ids_of(&self, path: &Vec<usize>) -> (r: Vec<String>)
        ensures
            r.deep_view() == id_path(self@.roots, path@),
    {
        ids_along(&self.roots, path)
    }

    /// The forest shown.
    pub fn roots(&self) -> (r: &Vec<Node>)
        ensures
            r@ == self@.roots,
    {
        &self.roots
    }

    /// The index path of the highlighted node.
    pub fn selected_path(&self) -> (r: Vec<usize>)
        ensures
            r@ == self@.selected,
    {
        self.selected.clone()
    }

    /// Whether the node at index path `p` is expanded.
    pub fn is_open(&self, p: &Vec<usize>) -> (r: bool)
        ensures
            r == self@.open.contains(p@),
    {
        contains_path(&self.open, p)
    }

    pub fn offset(&self) -> (r: usize)
        ensures
            r == self@.offset,
    {
        self.offset
    }

    /// Records how many lines the viewport shows.
    pub fn set_viewport_height(&mut self, height: usize)
        requires
            nav_wf(old(self)@),
        ensures
            nav_wf(final(self)@),
            final(self)@ == (NavView { height: height as nat, ..old(self)@ }),
    {
        self.height = height;
    }

    /// Whether the highlighted node is shown and has children.
    fn selected_is_internal(&self, es: &Vec<Entry>) -> (r: bool)
        requires
            entries_view(es@) == lines(self@),
        ensures
            r == sel_internal(self@),
    {
        match position_of(es, &self.selected) {
            Some(i) => {
                assert(entries_view(es@)[i as int].1 == es@[i as int].children);
                es[i].children > 0
            },
            None => false,
        }
    }

    fn open_selected(&mut self)
        ensures
            final(self)@ == with_open(old(self)@, old(self)@.open.insert(old(self)@.selected)),
    {
        let p = self.selected.clone();
        proof {
            lemma_path_set_push(self.open@, p);
        }
        self.open.push(p);
    }

    fn close_selected(&mut self)
        ensures
            final(self)@ == with_open(old(self)@, old(self)@.open.remove(old(self)@.selected)),
    {
        self.open = remove_path(&self.open, &self.selected);
    }

    fn select_path(&mut self, p: &Vec<usize>)
        ensures
            final(self)@ == with_selected(old(self)@, p@),
    {
        self.selected = p.clone();
    }

    /// Expands or collapses the highlighted node.
    pub fn toggle_selected(&mut self)
        requires
            nav_wf(old(self)@),
        ensures
            nav_wf(final(self)@),
            final(self)@ == step_toggle(old(self)@),
    {
        proof {
            lemma_toggle_wf(self@);
        }
        let es = self.visible_lines();
        if self.selected_is_internal(&es) {
            if contains_path(&self.open, &self.selected) {
                self.close_selected();
            } else {
                self.open_selected();
            }
        }
    }

    /// Collapses the highlighted node, or moves to its parent.
    pub fn key_left(&mut self)
        requires
            nav_wf(old(self)@),
        ensures
            nav_wf(final(self)@),
            final(self)@ == step_left(old(self)@),
    {
        proof {
            lemma_left_wf(self@);
        }
        if self.selected.len() == 0 {
            return;
        }
        let es = self.visible_lines();
        if self.selected_is_internal(&es) && contains_path(&self.open, &self.selected) {
            self.close_selected();
        } else {
            self.selected.pop();
        }
    }

    /// Expands the highlighted node, or moves to its first child.
    pub fn key_right(&mut self)
        requires
            nav_wf(old(self)@),
        ensures
            nav_wf(final(self)@),
            final(self)@ == step_right(old(self)@),
    {
        proof {
            lemma_right_wf(self@);
        }
        let es = self.visible_lines();
        if self.selected_is_internal(&es) {
            if !contains_path(&self.open, &self.selected) {
                self.open_selected();
            } else {
                self.selected.push(0);
            }
        }
    }

    /// Moves the highlight one line down.
    pub fn key_down(&mut self)
        requires
            nav_wf(old(self)@),
        ensures
            nav_wf(final(self)@),
            final(self)@ == step_down(old(self)@),
    {
        proof {
            lemma_vertical_wf(self@);
        }
        let es = self.visible_lines();
        if es.len() == 0 {
            return;
        }
        match position_of(&es, &self.selected) {
            None => self.select_path(&es[0].path),
            Some(i) => {
                if i + 1 < es.len() {
                    self.select_path(&es[i + 1].path);
                }
            },
        }
    }

    /// Moves the highlight one line up.
    pub fn key_up(&mut self)
        requires
            nav_wf(old(self)@),
        ensures
            nav_wf(final(self)@),
            final(self)@ == step_up(old(self)@),
    {
        proof {
            lemma_vertical_wf(self@);
        }
        let es = self.visible_lines();
        if es.len() == 0 {
            return;
        }
        match position_of(&es, &self.selected) {
            None => self.select_path(&es[es.len() - 1].path),
            Some(i) => {
                if i > 0 {
                    self.select_path(&es[i - 1].path);
                }
            },
        }
    }

    /// Drops the highlight.
    pub fn clear_selection(&mut self)
        requires
            nav_wf(old(self)@),
        ensures
            nav_wf(final(self)@),
            final(self)@ == step_clear(old(self)@),
            final(self)@.selected.len() == 0,
    {
        proof {
            lemma_clear_page_wf(self@);
        }
        self.selected = Vec::new();
    }

    /// Highlights the first line.
    pub fn select_first(&mut self)
        requires
            nav_wf(old(self)@),
        ensures
            nav_wf(final(self)@),
            final(self)@ == step_home(old(self)@),
    {
        proof {
            lemma_vertical_wf(self@);
        }
        let es = self.visible_lines();
        if es.len() == 0 {
            self.selected = Vec::new();
        } else {
            self.select_path(&es[0].path);
        }
    }

    /// Highlights the last line.
    pub fn select_last(&mut self)
        requires
            nav_wf(old(self)@),
        ensures
            nav_wf(final(self)@),
            final(self)@ == step_end(old(self)@),
    {
        proof {
            lemma_vertical_wf(self@);
        }
        let es = self.visible_lines();
        if es.len() == 0 {
            self.selected = Vec::new();
        } else {
            self.select_path(&es[es.len() - 1].path);
        }
    }

    /// Scrolls a page down, no further than the viewport can go.
    pub fn scroll_down(&mut self)
        requires
            nav_wf(old(self)@),
        ensures
            nav_wf(final(self)@),
            final(self)@ == step_page_down(old(self)@),
            final(self)@.offset <= max_offset(old(self)@),
    {
        proof {
            lemma_clear_page_wf(self@);
        }
        let n = self.visible_len();
        let max: usize = if n > self.height {
            n - self.height
        } else {
            0
        };
        if self.offset < max && max - self.offset > PAGE {
            self.offset = self.offset + PAGE;
        } else {
            self.offset = max;
        }
    }

    /// Scrolls a page up, no further than the top.
    pub fn scroll_up(&mut self)
        requires
            nav_wf(old(self)@),
        ensures
            nav_wf(final(self)@),
            final(self)@ == step_page_up(old(self)@),
    {
        proof {
            lemma_clear_page_wf(self@);
        }
        if self.offset >= PAGE {
            self.offset = self.offset - PAGE;
        } else {
            self.offset = 0;
        }
    }

    /// Reads one key: the focus keys come back as commands, the others move
    /// the view.
    pub fn handle_key_event(&mut self, key: KeyEvent) -> (r: Option<Action>)
        requires
            nav_wf(old(self)@),
        ensures
            nav_wf(final(self)@),
            r == key_action(key.code),
            final(self)@ == nav_key_step(old(self)@, key.code),
    {
        proof {
            lemma_key_step_wf(self@, key.code);
        }
        match key.code {
            KeyCode::Tab => return Some(Action::SwitchFocusForward),
            KeyCode::BackTab => return Some(Action::SwitchFocusBackward),
            KeyCode::Enter => self.toggle_selected(),
            KeyCode::Char(c) => {
                if c == '\n' || c == ' ' {
                    self.toggle_selected();
                } else if c == 'h' || c == 'H' {
                    self.key_left();
                } else if c == 'l' || c == 'L' {
                    self.key_right();
                } else if c == 'j' || c == 'J' {
                    self.key_down();
                } else if c == 'k' || c == 'K' {
                    self.key_up();
                }
            },
            KeyCode::Left => self.key_left(),
            KeyCode::Right => self.key_right(),
            KeyCode::Down => self.key_down(),
            KeyCode::Up => self.key_up(),
            KeyCode::Esc => self.clear_selection(),
            KeyCode::Home => self.select_first(),
            KeyCode::End => self.select_last(),
            KeyCode::PageDown => self.scroll_down(),
            KeyCode::PageUp => self.scroll_up(),
            _ => {},
        }
        None
    }

    /// Takes a command from elsewhere; the navigator acts on none.
    pub fn update(&mut self, action: Action) -> (r: Option<Action>)
        requires
            nav_wf(old(self)@),
        ensures
            nav_wf(final(self)@),
            r is None,
            final(self)@ == old(self)@,
    {
        None
    }
}

} // verus!
