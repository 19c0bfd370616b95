//! Browser state: the tree, its visible rows (pre-order, children of open
//! directories only, the root itself left out) and the selection.

use vstd::prelude::*;
use vstd::string::*;

use crate::scan::last_index_of;
use crate::text::{chars_eq, chars_of, slice_range, starts_with, starts_with_chars, string_of};
use crate::tui::tree::DirEntry;

verus! {

/// One visible row of the tree.
#[derive(Debug, Clone)]
pub struct FlatItem {
    pub depth: usize,
    pub is_dir: bool,
    pub path: String,
    pub name: String,
    pub size: i64,
    pub expanded: bool,
}

/// Browser state.
pub struct App {
    pub db_path: String,
    pub root: DirEntry,
    pub flat: Vec<FlatItem>,
    pub selected: usize,
    pub status: String,
    pub quitting: bool,
}

/// A tree node, as the contracts see it.
pub struct NodeView {
    pub path: Seq<char>,
    pub name: Seq<char>,
    pub is_dir: bool,
    pub size: i64,
    pub depth: usize,
    pub expanded: bool,
    pub loaded: bool,
    pub children: Seq<NodeView>,
}

/// A visible row, as the contracts see it.
pub struct RowView {
    pub depth: usize,
    pub is_dir: bool,
    pub path: Seq<char>,
    pub name: Seq<char>,
    pub size: i64,
    pub expanded: bool,
}

pub open spec fn node_view(n: DirEntry) -> NodeView
    decreases n,
{
    NodeView {
        path: n.path@,
        name: n.name@,
        is_dir: n.is_dir,
        size: n.size,
        depth: n.depth,
        expanded: n.expanded,
        loaded: n.loaded,
        children: nodes_view(n.children@),
    }
}

pub open spec fn nodes_view(cs: Seq<DirEntry>) -> Seq<NodeView>
    decreases cs,
{
    if cs.len() == 0 {
        Seq::empty()
    } else {
        nodes_view(cs.drop_last()).push(node_view(cs.last()))
    }
}

pub open spec fn row_of(v: NodeView) -> RowView {
    RowView { depth: v.depth, is_dir: v.is_dir, path: v.path, name: v.name, size: v.size, expanded: v.expanded }
}

/// Rows of a node and of everything visible below it, in pre-order.
pub open spec fn visible(v: NodeView) -> Seq<RowView>
    decreases v,
{
    seq![row_of(v)] + if v.expanded {
        visible_all(v.children)
    } else {
        Seq::empty()
    }
}

pub open spec fn visible_all(cs: Seq<NodeView>) -> Seq<RowView>
    decreases cs,
{
    if cs.len() == 0 {
        Seq::empty()
    } else {
        visible_all(cs.drop_last()) + visible(cs.last())
    }
}

pub open spec fn item_view(f: FlatItem) -> RowView {
    RowView { depth: f.depth, is_dir: f.is_dir, path: f.path@, name: f.name@, size: f.size, expanded: f.expanded }
}

pub open spec fn items_view(s: Seq<FlatItem>) -> Seq<RowView> {
    s.map_values(|f: FlatItem| item_view(f))
}

/// Rows the browser shows for a tree: everything visible but the root.
pub open spec fn shown_rows(root: NodeView) -> Seq<RowView> {
    visible(root).drop_first()
}

proof fn lemma_nodes_view_index(cs: Seq<DirEntry>)
    ensures
        nodes_view(cs).len() == cs.len(),
        forall|j: int| 0 <= j < cs.len() ==> #[trigger] nodes_view(cs)[j] == node_view(cs[j]),
    decreases cs.len(),
{
    if cs.len() > 0 {
        lemma_nodes_view_index(cs.drop_last());
    }
}

/// Appends the rows of `node` and everything visible below it.
pub fn flatten(node: &DirEntry, out: &mut Vec<FlatItem>)
    ensures
        items_view(final(out)@) == items_view(old(out)@) + visible(node_view(*node)),
    decreases node,
{
    let ghost start = items_view(out@);
    let ghost nv = node_view(*node);
    out.push(FlatItem {
        depth: node.depth,
        is_dir: node.is_dir,
        path: node.path.clone(),
        name: node.name.clone(),
        size: node.size,
        expanded: node.expanded,
    });
    assert(items_view(out@) =~= start + seq![row_of(nv)]);
    if node.expanded {
        let mut k: usize = 0;
        assert(node.children@.subrange(0, 0) =~= Seq::<DirEntry>::empty());
        assert(start + seq![row_of(nv)] + visible_all(nodes_view(node.children@.subrange(0, 0))) =~= start + seq![
            row_of(nv),
        ]);
        while k < node.children.len()
            invariant
                k <= node.children@.len(),
                items_view(out@) == start + seq![row_of(nv)] + visible_all(
                    nodes_view(node.children@.subrange(0, k as int)),
                ),
            decreases node.children.len() - k,
        {
            let ghost pre = node.children@.subrange(0, k as int);
            let ghost before = items_view(out@);
            flatten(&node.children[k], out);
            let ghost nxt = node.children@.subrange(0, k + 1);
            assert(nxt.drop_last() =~= pre);
            assert(nxt.last() == node.children@[k as int]);
            let ghost xs = nodes_view(pre);
            let ghost y = node_view(node.children@[k as int]);
            assert(nodes_view(nxt) == xs.push(y));
            assert(xs.push(y).drop_last() =~= xs);
            assert(xs.push(y).last() == y);
            assert(visible_all(xs.push(y)) == visible_all(xs) + visible(y));
            k = k + 1;
            assert(items_view(out@) =~= start + seq![row_of(nv)] + visible_all(
                nodes_view(node.children@.subrange(0, k as int)),
            ));
        }
        assert(node.children@.subrange(0, k as int) =~= node.children@);
        assert(nv.children == nodes_view(node.children@));
    }
}

fn same_text(a: &str, b: &str) -> (r: bool)
    ensures
        r == (a@ == b@),
{
    let x = chars_of(a);
    let y = chars_of(b);
    chars_eq(x.as_slice(), y.as_slice())
}

/// Index of the first row whose path is `path`.
pub open spec fn row_index(rows: Seq<RowView>, path: Seq<char>, from: int) -> Option<int>
    decreases rows.len() - from,
{
    if from < 0 || from >= rows.len() {
        None
    } else if rows[from].path == path {
        Some(from)
    } else {
        row_index(rows, path, from + 1)
    }
}

fn find_row(flat: &Vec<FlatItem>, path: &str) -> (r: Option<usize>)
    ensures
        match r {
            Some(i) => row_index(items_view(flat@), path@, 0) == Some(i as int) && i < flat@.len(),
            None => row_index(items_view(flat@), path@, 0) is None,
        },
{
    let mut i: usize = 0;
    while i < flat.len()
        invariant
            i <= flat@.len(),
            row_index(items_view(flat@), path@, 0) == row_index(items_view(flat@), path@, i as int),
        decreases flat.len() - i,
    {
        if same_text(flat[i].path.as_str(), path) {
            assert(items_view(flat@)[i as int].path == flat@[i as int].path@);
            return Some(i);
        }
        assert(items_view(flat@)[i as int].path == flat@[i as int].path@);
        i = i + 1;
    }
    None
}

/// First child (from `i`) whose path is a prefix of `path`.
pub open spec fn first_prefix(cs: Seq<NodeView>, path: Seq<char>, i: int) -> Option<int>
    decreases cs.len() - i,
{
    if i < 0 || i >= cs.len() {
        None
    } else if starts_with(path, cs[i].path) {
        Some(i)
    } else {
        first_prefix(cs, path, i + 1)
    }
}

/// The tree after opening or closing the node at `path`: found by
/// descending into the first child whose path is a prefix of `path`. A
/// closed node that was never loaded takes `fresh` as its children; with
/// no `fresh` it stays as it is.
pub open spec fn toggled(v: NodeView, path: Seq<char>, fresh: Option<Seq<NodeView>>) -> NodeView
    decreases v,
{
    if v.path == path {
        if v.expanded {
            NodeView { expanded: false, ..v }
        } else if v.loaded {
            NodeView { expanded: true, ..v }
        } else {
            match fresh {
                Some(c) => NodeView { children: c, loaded: true, expanded: true, ..v },
                None => v,
            }
        }
    } else {
        match first_prefix(v.children, path, 0) {
            Some(i) => if 0 <= i < v.children.len() {
                NodeView { children: v.children.update(i, toggled(v.children[i], path, fresh)), ..v }
            } else {
                v
            },
            None => v,
        }
    }
}

/// The node the toggle acts on, if any.
pub open spec fn toggle_target(v: NodeView, path: Seq<char>) -> Option<NodeView>
    decreases v,
{
    if v.path == path {
        Some(v)
    } else {
        match first_prefix(v.children, path, 0) {
            Some(i) => if 0 <= i < v.children.len() {
                toggle_target(v.children[i], path)
            } else {
                None
            },
            None => None,
        }
    }
}

pub open spec fn fresh_view(fresh: Option<Vec<DirEntry>>) -> Option<Seq<NodeView>> {
    match fresh {
        Some(c) => Some(nodes_view(c@)),
        None => None,
    }
}

fn find_prefix_child(children: &Vec<DirEntry>, path: &str) -> (r: Option<usize>)
    ensures
        match r {
            Some(i) => first_prefix(nodes_view(children@), path@, 0) == Some(i as int) && i < children@.len(),
            None => first_prefix(nodes_view(children@), path@, 0) is None,
        },
{
    proof {
        lemma_nodes_view_index(children@);
    }
    let p = chars_of(path);
    let mut i: usize = 0;
    while i < children.len()
        invariant
            i <= children@.len(),
            p@ == path@,
            nodes_view(children@).len() == children@.len(),
            forall|j: int| 0 <= j < children@.len() ==> #[trigger] nodes_view(children@)[j] == node_view(children@[j]),
            first_prefix(nodes_view(children@), path@, 0) == first_prefix(nodes_view(children@), path@, i as int),
        decreases children.len() - i,
    {
        let cp = chars_of(children[i].path.as_str());
        assert(nodes_view(children@)[i as int].path == children@[i as int].path@);
        if starts_with_chars(p.as_slice(), cp.as_slice()) {
            return Some(i);
        }
        i = i + 1;
    }
    None
}

/// Opens or closes the node at `path` (see `toggled`).
fn toggle_node(node: &mut DirEntry, path: &str, fresh: Option<Vec<DirEntry>>)
    ensures
        node_view(*final(node)) == toggled(node_view(*old(node)), path@, fresh_view(fresh)),
    decreases *old(node),
{
    let ghost old_view = node_view(*node);
    if same_text(node.path.as_str(), path) {
        if node.expanded {
            node.expanded = false;
        } else if node.loaded {
            node.expanded = true;
        } else {
            match fresh {
                Some(c) => {
                    node.children = c;
                    node.loaded = true;
                    node.expanded = true;
                },
                None => {},
            }
        }
        return;
    }
    proof {
        lemma_nodes_view_index(node.children@);
    }
    match find_prefix_child(&node.children, path) {
        Some(i) => {
            let ghost before = node.children@;
            let mut child = node.children.remove(i);
            assert(child == before[i as int]);
            toggle_node(&mut child, path, fresh);
            node.children.insert(i, child);
            proof {
                assert(node.children@ =~= before.update(i as int, child));
                lemma_nodes_view_index(node.children@);
                lemma_nodes_view_index(before);
                assert(nodes_view(node.children@) =~= nodes_view(before).update(
                    i as int,
                    toggled(nodes_view(before)[i as int], path@, fresh_view(fresh)),
                ));
            }
        },
        None => {},
    }
}

/// The selection, when it names a row.
pub open spec fn selected_row(app: App) -> Option<RowView> {
    if app.selected < app.flat@.len() {
        Some(item_view(app.flat@[app.selected as int]))
    } else {
        None
    }
}

/// The closed, never loaded directory that opening the selection acts on.
pub open spec fn load_target(app: App) -> Option<NodeView> {
    match selected_row(app) {
        Some(row) => if row.is_dir {
            match toggle_target(node_view(app.root), row.path) {
                Some(t) => if !t.expanded && !t.loaded {
                    Some(t)
                } else {
                    None
                },
                None => None,
            }
        } else {
            None
        },
        None => None,
    }
}

/// Parent of a path: everything before its last `/`, or `/` when that is
/// the first character or there is none.
pub open spec fn parent_of(path: Seq<char>) -> Seq<char> {
    match last_index_of(path, '/') {
        Some(i) => if i == 0 {
            "/"@
        } else {
            path.subrange(0, i)
        },
        None => "/"@,
    }
}

proof fn lemma_last_index_in_range(s: Seq<char>, c: char)
    ensures
        last_index_of(s, c) matches Some(i) ==> 0 <= i < s.len() && s[i] == c,
    decreases s.len(),
{
    if s.len() > 0 && s.last() != c {
        lemma_last_index_in_range(s.drop_last(), c);
    }
}

/// Parent of a path (see `parent_of`).
pub fn parent_path(path: &str) -> (r: String)
    ensures
        r@ == parent_of(path@),
{
    let p = chars_of(path);
    let n = p.len();
    proof {
        lemma_last_index_in_range(p@, '/');
    }
    let mut k: usize = n;
    assert(p@.subrange(0, n as int) =~= p@);
    while k > 0
        invariant
            k <= n,
            n == p@.len(),
            p@ == path@,
            last_index_of(p@, '/') == last_index_of(p@.subrange(0, k as int), '/'),
        decreases k,
    {
        let ghost pre = p@.subrange(0, k as int);
        assert(pre.drop_last() =~= p@.subrange(0, k - 1));
        if p[k - 1] == '/' {
            assert(pre.last() == '/');
            assert(last_index_of(pre, '/') == Some(k - 1));
            if k - 1 == 0 {
                return "/".to_owned();
            }
            return string_of(slice_range(p.as_slice(), 0, k - 1).as_slice());
        }
        k = k - 1;
    }
    "/".to_owned()
}

/// The selection after moving up: the previous row, or the first.
pub open spec fn row_above(selected: usize) -> usize {
    if selected > 0 {
        (selected - 1) as usize
    } else {
        0
    }
}

/// The selection after moving down among `rows` rows: the next row, if any.
pub open spec fn row_below(selected: usize, rows: nat) -> usize {
    if selected + 1 < rows {
        (selected + 1) as usize
    } else {
        selected
    }
}

/// Moving down and then up returns to the same row whenever there was a
/// row below.
pub proof fn law_down_then_up_returns(selected: usize, rows: nat)
    requires
        selected < usize::MAX,
        selected + 1 < rows,
    ensures
        row_above(row_below(selected, rows)) == selected,
{
}

impl App {
    /// Browser over `root`, showing its visible rows, first row selected.
    pub fn new(db_path: String, root: DirEntry) -> (app: App)
        ensures
            app.db_path == db_path,
            node_view(app.root) == node_view(root),
            items_view(app.flat@) == shown_rows(node_view(root)),
            app.selected == 0,
            app.status@ == Seq::<char>::empty(),
            !app.quitting,
    {
        let mut app = App { db_path, root, flat: Vec::new(), selected: 0, status: String::new(), quitting: false };
        app.rebuild_flat();
        app
    }

    /// Recomputes the visible rows from the tree.
    pub fn rebuild_flat(&mut self)
        ensures
            items_view(final(self).flat@) == shown_rows(node_view(old(self).root)),
            final(self).root == old(self).root,
            final(self).db_path == old(self).db_path,
            final(self).selected == old(self).selected,
            final(self).status == old(self).status,
            final(self).quitting == old(self).quitting,
    {
        let mut flat: Vec<FlatItem> = Vec::new();
        flatten(&self.root, &mut flat);
        assert(items_view(flat@) =~= visible(node_view(self.root)));
        if flat.len() > 0 {
            flat.remove(0);
            assert(items_view(flat@) =~= visible(node_view(self.root)).drop_first());
        }
        self.flat = flat;
    }

    /// Selects the previous row, if any.
    pub fn move_up(&mut self)
        ensures
            final(self).selected == row_above(old(self).selected),
            final(self).flat == old(self).flat,
            final(self).root == old(self).root,
            final(self).status == old(self).status,
            final(self).db_path == old(self).db_path,
            final(self).quitting == old(self).quitting,
    {
        if self.selected > 0 {
            self.selected = self.selected - 1;
        }
    }

    /// Selects the next row, if any.
    pub fn move_down(&mut self)
        requires
            old(self).selected < usize::MAX,
        ensures
            final(self).selected == row_below(old(self).selected, old(self).flat@.len()),
            final(self).flat == old(self).flat,
            final(self).root == old(self).root,
            final(self).status == old(self).status,
            final(self).db_path == old(self).db_path,
            final(self).quitting == old(self).quitting,
    {
        if self.selected + 1 < self.flat.len() {
            self.selected = self.selected + 1;
        }
    }

    /// Path of the selected row.
    pub fn selected_path(&self) -> (p: Option<String>)
        ensures
            match (p, selected_row(*self)) {
                (Some(s), Some(r)) => s@ == r.path,
                (None, None) => true,
                _ => false,
            },
    {
        if self.selected < self.flat.len() {
            Some(self.flat[self.selected].path.clone())
        } else {
            None
        }
    }

    /// Path and depth of the directory that opening the selection must
    /// first load children for: a closed, never loaded directory.
    pub fn pending_load(&self) -> (r: Option<(String, usize)>)
        ensures
            match (r, load_target(*self)) {
                (Some((p, d)), Some(t)) => p@ == t.path && d == t.depth,
                (None, None) => true,
                _ => false,
            },
    {
        if self.selected >= self.flat.len() {
            return None;
        }
        let item = &self.flat[self.selected];
        if !item.is_dir {
            return None;
        }
        match find_target(&self.root, item.path.as_str()) {
            Some((p, d, expanded, loaded)) => {
                if !expanded && !loaded {
                    Some((p, d))
                } else {
                    None
                }
            },
            None => None,
        }
    }

    /// Opens or closes the selected directory (`fresh` supplies the
    /// children of one never loaded), then re-selects the same path.
    pub fn toggle_selected(&mut self, fresh: Option<Vec<DirEntry>>)
        ensures
            match selected_row(*old(self)) {
                Some(row) => if row.is_dir {
                    &&& node_view(final(self).root) == toggled(node_view(old(self).root), row.path, fresh_view(fresh))
                    &&& items_view(final(self).flat@) == shown_rows(node_view(final(self).root))
                    &&& final(self).selected == match row_index(items_view(final(self).flat@), row.path, 0) {
                        Some(i) => i as usize,
                        None => old(self).selected,
                    }
                } else {
                    &&& final(self).root == old(self).root
                    &&& final(self).flat == old(self).flat
                    &&& final(self).selected == old(self).selected
                },
                None => {
                    &&& final(self).root == old(self).root
                    &&& final(self).flat == old(self).flat
                    &&& final(self).selected == old(self).selected
                },
            },
            final(self).status == old(self).status,
            final(self).db_path == old(self).db_path,
            final(self).quitting == old(self).quitting,
    {
        if self.selected >= self.flat.len() {
            return;
        }
        if !self.flat[self.selected].is_dir {
            return;
        }
        let sel = self.flat[self.selected].path.clone();
        toggle_node(&mut self.root, sel.as_str(), fresh);
        self.rebuild_flat();
        match find_row(&self.flat, sel.as_str()) {
            Some(i) => {
                self.selected = i;
            },
            None => {},
        }
    }

    /// Left key: closes the selected open directory; otherwise, below the
    /// top level, selects the row of its parent path.
    pub fn on_left(&mut self)
        ensures
            match selected_row(*old(self)) {
                Some(row) => if row.is_dir && row.expanded {
                    &&& node_view(final(self).root) == toggled(node_view(old(self).root), row.path, None)
                    &&& items_view(final(self).flat@) == shown_rows(node_view(final(self).root))
                    &&& final(self).selected == match row_index(items_view(final(self).flat@), row.path, 0) {
                        Some(i) => i as usize,
                        None => old(self).selected,
                    }
                } else if row.depth > 1 {
                    &&& final(self).root == old(self).root
                    &&& final(self).flat == old(self).flat
                    &&& final(self).selected == match row_index(items_view(old(self).flat@), parent_of(row.path), 0) {
                        Some(i) => i as usize,
                        None => old(self).selected,
                    }
                } else {
                    &&& final(self).root == old(self).root
                    &&& final(self).flat == old(self).flat
                    &&& final(self).selected == old(self).selected
                },
                None => {
                    &&& final(self).root == old(self).root
                    &&& final(self).flat == old(self).flat
                    &&& final(self).selected == old(self).selected
                },
            },
            final(self).status == old(self).status,
            final(self).db_path == old(self).db_path,
            final(self).quitting == old(self).quitting,
    {
        if self.selected >= self.flat.len() {
            return;
        }
        let is_dir = self.flat[self.selected].is_dir;
        let expanded = self.flat[self.selected].expanded;
        let depth = self.flat[self.selected].depth;
        if is_dir && expanded {
            self.toggle_selected(None);
        } else if depth > 1 {
            let parent = parent_path(self.flat[self.selected].path.as_str());
            match find_row(&self.flat, parent.as_str()) {
                Some(i) => {
                    self.selected = i;
                },
                None => {},
            }
        }
    }
}

/// Path, depth, open and loaded flags of the node a toggle at `path`
/// acts on.
fn find_target(node: &DirEntry, path: &str) -> (r: Option<(String, usize, bool, bool)>)
    ensures
        match (r, toggle_target(node_view(*node), path@)) {
            (Some((p, d, e, l)), Some(t)) => p@ == t.path && d == t.depth && e == t.expanded && l == t.loaded,
            (None, None) => true,
            _ => false,
        },
    decreases node,
{
    if same_text(node.path.as_str(), path) {
        return Some((node.path.clone(), node.depth, node.expanded, node.loaded));
    }
    proof {
        lemma_nodes_view_index(node.children@);
    }
    match find_prefix_child(&node.children, path) {
        Some(i) => find_target(&node.children[i], path),
        None => None,
    }
}

proof fn lemma_toggled_keeps_path(v: NodeView, path: Seq<char>, fresh: Option<Seq<NodeView>>)
    ensures
        toggled(v, path, fresh).path == v.path,
{
}

proof fn lemma_first_prefix_by_paths(cs: Seq<NodeView>, ds: Seq<NodeView>, path: Seq<char>, i: int)
    requires
        cs.len() == ds.len(),
        forall|k: int| 0 <= k < cs.len() ==> (#[trigger] cs[k]).path == ds[k].path,
    ensures
        first_prefix(cs, path, i) == first_prefix(ds, path, i),
    decreases cs.len() - i,
{
    if 0 <= i < cs.len() {
        lemma_first_prefix_by_paths(cs, ds, path, i + 1);
    }
}

proof fn lemma_visible_all_update(cs: Seq<NodeView>, i: int, w: NodeView)
    requires
        0 <= i < cs.len(),
        visible(w) == visible(cs[i]),
    ensures
        visible_all(cs.update(i, w)) == visible_all(cs),
    decreases cs.len(),
{
    let us = cs.update(i, w);
    if i == cs.len() - 1 {
        assert(us.drop_last() =~= cs.drop_last());
    } else {
        assert(us.drop_last() =~= cs.drop_last().update(i, w));
        lemma_visible_all_update(cs.drop_last(), i, w);
    }
}

/// Closing a directory that was just opened shows the same rows as before
/// it was opened (whether or not its children had to be loaded).
pub proof fn law_close_undoes_open(
    v: NodeView,
    path: Seq<char>,
    fresh: Option<Seq<NodeView>>,
    again: Option<Seq<NodeView>>,
)
    requires
        toggle_target(v, path) matches Some(t) && !t.expanded && (t.loaded || fresh is Some),
    ensures
        visible(toggled(toggled(v, path, fresh), path, again)) == visible(v),
    decreases v,
{
    if v.path != path {
        let i = first_prefix(v.children, path, 0)->0;
        let c = v.children[i];
        let v1 = toggled(v, path, fresh);
        lemma_toggled_keeps_path(c, path, fresh);
        assert forall|k: int| 0 <= k < v.children.len() implies (#[trigger] v.children[k]).path
            == v1.children[k].path by {}
        lemma_first_prefix_by_paths(v.children, v1.children, path, 0);
        law_close_undoes_open(c, path, fresh, again);
        let w = toggled(toggled(c, path, fresh), path, again);
        assert(v1.children.update(i, toggled(v1.children[i], path, again)) =~= v.children.update(i, w));
        lemma_visible_all_update(v.children, i, w);
    }
}

} // verus!
