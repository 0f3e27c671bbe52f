//! The tree that orders the tests of markdown listings into nested Rust
//! modules.
//!
//! A test is inserted under a path of module names separated by `.`: the
//! path `a.b.t` puts the test `t` into the module `b` inside the module `a`.
//! Within a root or a module, each child is known by its name; inserting a
//! child under a name that is taken replaces the child of that name.
use crate::text::{chars_of, chars_eq, lemma_first_index, split_once, split_once_chars, string_of, trim, trim_chars};
use vstd::prelude::*;

verus! {

/// A tree of generated test code: the root, a module with its name, or a
/// test with its name and its µcad code.
#[derive(Debug)]
pub enum Tree {
    Root(Vec<Tree>),
    Module(String, Vec<Tree>),
    Test(String, String),
}

/// The mathematical value of a [`Tree`].
pub enum TreeView {
    Root(Seq<TreeView>),
    Module(Seq<char>, Seq<TreeView>),
    Test(Seq<char>, Seq<char>),
}

/// The value of a tree.
pub open spec fn tree_view(t: Tree) -> TreeView
    decreases t,
{
    match t {
        Tree::Root(cs) => TreeView::Root(
            Seq::new(
                cs@.len(),
                |i: int|
                    {
                        if 0 <= i < cs@.len() {
                            proof {
                                assert(decreases_to!(t => cs));
                                assert(decreases_to!(cs => cs@));
                                assert(decreases_to!(cs@ => cs@[i]));
                            }
                            tree_view(cs@[i])
                        } else {
                            arbitrary()
                        }
                    },
            ),
        ),
        Tree::Module(n, cs) => TreeView::Module(
            n@,
            Seq::new(
                cs@.len(),
                |i: int|
                    {
                        if 0 <= i < cs@.len() {
                            proof {
                                assert(decreases_to!(t => cs));
                                assert(decreases_to!(cs => cs@));
                                assert(decreases_to!(cs@ => cs@[i]));
                            }
                            tree_view(cs@[i])
                        } else {
                            arbitrary()
                        }
                    },
            ),
        ),
        Tree::Test(n, c) => TreeView::Test(n@, c@),
    }
}

impl View for Tree {
    type V = TreeView;

    open spec fn view(&self) -> TreeView {
        tree_view(*self)
    }
}

/// The values of a sequence of trees.
pub open spec fn tree_views(cs: Seq<Tree>) -> Seq<TreeView> {
    cs.map_values(|t: Tree| t@)
}

/// The name under which a child is known; the root has the empty name.
pub open spec fn name_of(v: TreeView) -> Seq<char> {
    match v {
        TreeView::Root(_) => Seq::empty(),
        TreeView::Module(n, _) => n,
        TreeView::Test(n, _) => n,
    }
}

/// The children of the root or of a module; a test has none.
pub open spec fn kids(v: TreeView) -> Seq<TreeView> {
    match v {
        TreeView::Root(cs) => cs,
        TreeView::Module(_, cs) => cs,
        TreeView::Test(_, _) => Seq::empty(),
    }
}

/// The test function that runs the µcad code `code` of the test `name`.
pub open spec fn test_code(name: Seq<char>, code: Seq<char>) -> Seq<char> {
    "#[test]\n#[allow(non_snake_case)]\nfn r#"@ + name
        + "() {\n    use crate::{language::document::Document,parser};\n    let _ = parser::Parser::parse_rule_or_panic::<Document>(\n        parser::Rule::document,\n        r#\"\n"@
        + code + "\"#\n    );\n}"@
}

/// The lines that open a module: an attribute, an empty line, and the
/// module's head.
pub open spec fn module_head(name: Seq<char>) -> Seq<char> {
    "#[allow(non_snake_case)]\n\n"@ + "mod r#"@ + name + " {\n"@
}

/// The lines that close a module.
pub open spec fn module_foot() -> Seq<char> {
    "}\n\n"@
}

/// The Rust code of a tree: a test is its test function; the root is the
/// code of its children, each trimmed and ended by a line break; a module is
/// that code inside the module's head and foot.
pub open spec fn tree_text(v: TreeView) -> Seq<char>
    decreases v, 1nat, 0nat,
{
    match v {
        TreeView::Test(n, c) => trim(test_code(n, c)) + "\n"@,
        TreeView::Root(cs) => kids_code(v, cs.len()),
        TreeView::Module(n, cs) => module_head(n) + kids_code(v, cs.len()) + module_foot(),
    }
}

/// The code of the first `n` children of `v`, each trimmed and ended by a
/// line break.
pub open spec fn kids_code(v: TreeView, n: nat) -> Seq<char>
    decreases v, 0nat, n,
{
    if n == 0 || n > kids(v).len() {
        Seq::empty()
    } else {
        proof {
            match v {
                TreeView::Root(cs) => {
                    assert(decreases_to!(v => cs));
                    assert(decreases_to!(cs => cs[n - 1]));
                },
                TreeView::Module(_, cs) => {
                    assert(decreases_to!(v => cs));
                    assert(decreases_to!(cs => cs[n - 1]));
                },
                TreeView::Test(_, _) => {},
            }
        }
        kids_code(v, (n - 1) as nat) + trim(tree_text(kids(v)[n - 1])) + "\n"@
    }
}

/// The index of the first child named `name`, if there is one.
pub open spec fn find(cs: Seq<TreeView>, name: Seq<char>) -> Option<int>
    decreases cs.len(),
{
    if cs.len() == 0 {
        None
    } else if name_of(cs[0]) == name {
        Some(0)
    } else {
        match find(cs.drop_first(), name) {
            Some(i) => Some(i + 1),
            None => None,
        }
    }
}

/// The children with `x` put under its name: in place of the child of that
/// name, or after the others.
pub open spec fn put(cs: Seq<TreeView>, x: TreeView) -> Seq<TreeView> {
    match find(cs, name_of(x)) {
        Some(i) => cs.update(i, x),
        None => cs.push(x),
    }
}

/// The part of a path after its first `.` is shorter than the path.
pub proof fn lemma_split_shorter(path: Seq<char>)
    ensures
        split_once(path, '.') matches Some(p) ==> p.1.len() < path.len(),
{
    lemma_first_index(path, '.');
}

/// The children with the test `code` inserted under `path`: the first name
/// of a path with a `.` names a module, which is created where none has that
/// name, and the rest of the path goes on inside it; a path without `.`
/// names the test.
pub open spec fn ins(cs: Seq<TreeView>, path: Seq<char>, code: Seq<char>) -> Seq<TreeView>
    decreases path.len(),
{
    match split_once(path, '.') {
        Some(p) => {
            proof {
                lemma_split_shorter(path);
            }
            match find(cs, p.0) {
                Some(i) => cs.update(i, TreeView::Module(p.0, ins(kids(cs[i]), p.1, code))),
                None => cs.push(TreeView::Module(p.0, ins(Seq::empty(), p.1, code))),
            }
        },
        None => put(cs, TreeView::Test(path, code)),
    }
}

/// Whether a test can be inserted under `path`: no module name on the way
/// is that of a child that is no module.
pub open spec fn insertable(cs: Seq<TreeView>, path: Seq<char>) -> bool
    decreases path.len(),
{
    match split_once(path, '.') {
        Some(p) => {
            proof {
                lemma_split_shorter(path);
            }
            match find(cs, p.0) {
                Some(i) => cs[i] is Module && insertable(kids(cs[i]), p.1),
                None => true,
            }
        },
        None => true,
    }
}

/// The tree with the test `code` inserted under `path`.
pub open spec fn tree_insert(v: TreeView, path: Seq<char>, code: Seq<char>) -> TreeView {
    match v {
        TreeView::Root(cs) => TreeView::Root(ins(cs, path, code)),
        TreeView::Module(n, cs) => TreeView::Module(n, ins(cs, path, code)),
        TreeView::Test(_, _) => v,
    }
}

/// Whether a test can be inserted into the tree under `path`: the tree is
/// the root or a module, and `path` is insertable into its children.
pub open spec fn tree_insertable(v: TreeView, path: Seq<char>) -> bool {
    !(v is Test) && insertable(kids(v), path)
}

/// What `find` returns: the first child with the name, or none.
pub proof fn lemma_find(cs: Seq<TreeView>, name: Seq<char>)
    ensures
        find(cs, name) matches Some(i) ==> 0 <= i < cs.len() && name_of(cs[i]) == name && forall|j: int|
            0 <= j < i ==> name_of(#[trigger] cs[j]) != name,
        find(cs, name) is None ==> forall|j: int| 0 <= j < cs.len() ==> name_of(#[trigger] cs[j]) != name,
    decreases cs.len(),
{
    if cs.len() > 0 {
        lemma_find(cs.drop_first(), name);
        assert forall|j: int| 1 <= j < cs.len() implies #[trigger] cs[j] == cs.drop_first()[j - 1] by {}
        if name_of(cs[0]) != name {
            assert forall|j: int| 0 <= j < cs.len() && name_of(#[trigger] cs[j]) == name implies find(cs, name)
                matches Some(i) && i <= j by {
                if j > 0 {
                    assert(name_of(cs.drop_first()[j - 1]) == name);
                }
            }
        }
    }
}

/// A child's name, as characters.
fn child_name(t: &Tree) -> (r: Vec<char>)
    ensures
        r@ == name_of(t@),
{
    match t {
        Tree::Root(_) => Vec::new(),
        Tree::Module(n, _) => chars_of(n.as_str()),
        Tree::Test(n, _) => chars_of(n.as_str()),
    }
}

/// The index of the first child named `name`.
fn position(children: &Vec<Tree>, name: &Vec<char>) -> (r: Option<usize>)
    ensures
        r matches Some(i) ==> find(tree_views(children@), name@) == Some(i as int),
        r is None ==> find(tree_views(children@), name@) is None,
{
    let ghost cs = tree_views(children@);
    proof {
        lemma_find(cs, name@);
    }
    for i in 0..children.len()
        invariant
            cs == tree_views(children@),
            forall|j: int| 0 <= j < i ==> name_of(#[trigger] cs[j]) != name@,
            find(cs, name@) matches Some(k) ==> 0 <= k < cs.len() && name_of(cs[k]) == name@ && forall|j: int|
                0 <= j < k ==> name_of(#[trigger] cs[j]) != name@,
            find(cs, name@) is None ==> forall|j: int| 0 <= j < cs.len() ==> name_of(#[trigger] cs[j]) != name@,
    {
        let n = child_name(&children[i]);
        assert(cs[i as int] == children@[i as int]@);
        if chars_eq(&n, name) {
            return Some(i);
        }
    }
    None
}

/// Inserts the test `code` under `path` into `children`.
fn insert_child(children: &mut Vec<Tree>, path: &Vec<char>, code: String)
    requires
        insertable(tree_views(old(children)@), path@),
    ensures
        tree_views(final(children)@) == ins(tree_views(old(children)@), path@, code@),
    decreases path@.len(),
{
    let ghost cs = tree_views(children@);
    proof {
        lemma_split_shorter(path@);
    }
    match split_once_chars(path, '.') {
        Some((m, rest)) => {
            match position(children, &m) {
                Some(i) => {
                    proof {
                        lemma_find(cs, m@);
                    }
                    let child = children.remove(i);
                    assert(child@ == cs[i as int]);
                    match child {
                        Tree::Module(n, gc) => {
                            let mut gc = gc;
                            assert(tree_views(gc@) =~= kids(cs[i as int]));
                            insert_child(&mut gc, &rest, code);
                            let ghost new_gc = tree_views(gc@);
                            let new_child = Tree::Module(n, gc);
                            assert(new_child@ == TreeView::Module(m@, new_gc)) by {
                                assert(new_child@->Module_1 =~= new_gc);
                            }
                            children.insert(i, new_child);
                            assert(tree_views(children@) =~= cs.update(
                                i as int,
                                TreeView::Module(m@, ins(kids(cs[i as int]), rest@, code@)),
                            ));
                        },
                        Tree::Root(gc) => {
                            assert(false);
                            children.insert(i, Tree::Root(gc));
                        },
                        Tree::Test(n, c) => {
                            assert(false);
                            children.insert(i, Tree::Test(n, c));
                        },
                    }
                },
                None => {
                    let mut gc: Vec<Tree> = Vec::new();
                    assert(tree_views(gc@) =~= Seq::<TreeView>::empty());
                    insert_child(&mut gc, &rest, code);
                    let ghost new_gc = tree_views(gc@);
                    let new_child = Tree::Module(string_of(&m), gc);
                    assert(new_child@ == TreeView::Module(m@, new_gc)) by {
                        assert(new_child@->Module_1 =~= new_gc);
                    }
                    children.push(new_child);
                    assert(tree_views(children@) =~= cs.push(TreeView::Module(m@, new_gc)));
                },
            }
        },
        None => {
            let leaf = Tree::Test(string_of(path), code);
            match position(children, path) {
                Some(i) => {
                    proof {
                        lemma_find(cs, path@);
                    }
                    children.set(i, leaf);
                    assert(tree_views(children@) =~= cs.update(i as int, leaf@));
                },
                None => {
                    children.push(leaf);
                    assert(tree_views(children@) =~= cs.push(leaf@));
                },
            }
        },
    }
}

/// Whether `path` can be inserted into `children`.
fn can_insert_child(children: &Vec<Tree>, path: &Vec<char>) -> (r: bool)
    ensures
        r == insertable(tree_views(children@), path@),
    decreases path@.len(),
{
    let ghost cs = tree_views(children@);
    proof {
        lemma_split_shorter(path@);
    }
    match split_once_chars(path, '.') {
        Some((m, rest)) => {
            match position(children, &m) {
                Some(i) => {
                    proof {
                        lemma_find(cs, m@);
                    }
                    assert(children@[i as int]@ == cs[i as int]);
                    match &children[i] {
                        Tree::Module(_, gc) => {
                            assert(tree_views(gc@) =~= kids(cs[i as int]));
                            can_insert_child(gc, &rest)
                        },
                        _ => false,
                    }
                },
                None => true,
            }
        },
        None => true,
    }
}

impl Tree {
    /// The root of an empty tree.
    pub fn new() -> (t: Tree)
        ensures
            t@ == TreeView::Root(Seq::empty()),
    {
        let t = Tree::Root(Vec::new());
        assert(t@->Root_0 =~= Seq::<TreeView>::empty());
        t
    }

    /// The Rust code of the tree, as its `Display` text: test functions,
    /// nested in the modules of their paths.
    pub fn to_rust_code(&self) -> (s: String)
        ensures
            s@ == tree_text(self@),
        decreases self,
    {
        let ghost v = self@;
        let (children, mut out) = match self {
            Tree::Test(n, c) => {
                let mut t = String::from_str("#[test]\n#[allow(non_snake_case)]\nfn r#");
                t.append(n.as_str());
                t.append(
                    "() {\n    use crate::{language::document::Document,parser};\n    let _ = parser::Parser::parse_rule_or_panic::<Document>(\n        parser::Rule::document,\n        r#\"\n",
                );
                t.append(c.as_str());
                t.append("\"#\n    );\n}");
                let mut r = string_of(&trim_chars(&chars_of(t.as_str())));
                r.append("\n");
                return r;
            },
            Tree::Root(cs) => (cs, String::new()),
            Tree::Module(n, cs) => {
                let mut h = String::from_str("#[allow(non_snake_case)]\n\n");
                h.append("mod r#");
                h.append(n.as_str());
                h.append(" {\n");
                (cs, h)
            },
        };
        let ghost head = out@;
        assert(tree_views(children@) =~= kids(v));
        for i in 0..children.len()
            invariant
                tree_views(children@) == kids(v),
                v == self@,
                !(v is Test),
                v matches TreeView::Root(_) ==> children@ == self->Root_0@,
                v matches TreeView::Module(_, _) ==> children@ == self->Module_1@,
                out@ == head + kids_code(v, i as nat),
        {
            let child = &children[i];
            proof {
                if v is Root {
                    assert(decreases_to!(self => self->Root_0));
                } else {
                    assert(decreases_to!(self => self->Module_1));
                }
                assert(decreases_to!(children => children@));
                assert(decreases_to!(children@ => children@[i as int]));
            }
            let code = child.to_rust_code();
            let mut line = string_of(&trim_chars(&chars_of(code.as_str())));
            line.append("\n");
            assert(child@ == kids(v)[i as int]);
            out.append(line.as_str());
        }
        if let Tree::Module(_, _) = self {
            out.append("}\n\n");
        }
        out
    }

    /// A copy of the tree.
    pub fn copy(&self) -> (t: Tree)
        ensures
            t@ == self@,
        decreases self,
    {
        let ghost v = self@;
        let children = match self {
            Tree::Test(n, c) => {
                return Tree::Test(n.clone(), c.clone());
            },
            Tree::Root(cs) => cs,
            Tree::Module(_, cs) => cs,
        };
        assert(tree_views(children@) =~= kids(v));
        let mut copies: Vec<Tree> = Vec::new();
        for i in 0..children.len()
            invariant
                tree_views(children@) == kids(v),
                v == self@,
                !(v is Test),
                v matches TreeView::Root(_) ==> children@ == self->Root_0@,
                v matches TreeView::Module(_, _) ==> children@ == self->Module_1@,
                tree_views(copies@) == kids(v).take(i as int),
        {
            proof {
                if v is Root {
                    assert(decreases_to!(self => self->Root_0));
                } else {
                    assert(decreases_to!(self => self->Module_1));
                }
                assert(decreases_to!(children => children@));
                assert(decreases_to!(children@ => children@[i as int]));
            }
            let c = children[i].copy();
            let ghost before = tree_views(copies@);
            copies.push(c);
            assert(tree_views(copies@) =~= before.push(c@));
            assert(kids(v).take(i + 1) =~= kids(v).take(i as int).push(kids(v)[i as int]));
        }
        assert(kids(v).take(children.len() as int) =~= kids(v));
        let ghost cv = tree_views(copies@);
        match self {
            Tree::Module(n, _) => {
                let t = Tree::Module(n.clone(), copies);
                assert(t@->Module_1 =~= cv);
                t
            },
            _ => {
                let t = Tree::Root(copies);
                assert(t@->Root_0 =~= cv);
                t
            },
        }
    }

    /// Whether the test code can be inserted under `path` without running
    /// into a child that is no module.
    pub fn can_insert(&self, path: &str) -> (r: bool)
        ensures
            r == tree_insertable(self@, path@),
    {
        let p = chars_of(path);
        match self {
            Tree::Root(children) => {
                assert(tree_views(children@) =~= kids(self@));
                can_insert_child(children, &p)
            },
            Tree::Module(_, children) => {
                assert(tree_views(children@) =~= kids(self@));
                can_insert_child(children, &p)
            },
            Tree::Test(_, _) => false,
        }
    }

    /// Inserts the test code `code` under `path`, a list of nested module
    /// names separated by `.` whose last part names the test.
    pub fn insert(&mut self, path: &str, code: String)
        requires
            tree_insertable(old(self)@, path@),
        ensures
            final(self)@ == tree_insert(old(self)@, path@, code@),
    {
        let p = chars_of(path);
        let mut placeholder = Tree::Root(Vec::new());
        std::mem::swap(self, &mut placeholder);
        let t = placeholder;
        let ghost v = t@;
        match t {
            Tree::Root(children) => {
                let mut children = children;
                assert(tree_views(children@) =~= kids(v));
                insert_child(&mut children, &p, code);
                let ghost cs = tree_views(children@);
                let r = Tree::Root(children);
                assert(r@->Root_0 =~= cs);
                *self = r;
            },
            Tree::Module(n, children) => {
                let mut children = children;
                assert(tree_views(children@) =~= kids(v));
                insert_child(&mut children, &p, code);
                let ghost cs = tree_views(children@);
                let r = Tree::Module(n, children);
                assert(r@->Module_1 =~= cs);
                *self = r;
            },
            Tree::Test(n, c) => {
                *self = Tree::Test(n, c);
            },
        }
    }
}


/// The code of the test under `path` among the children `cs`, if there is
/// one: the path is followed through modules as `insert` follows it.
pub open spec fn lookup(cs: Seq<TreeView>, path: Seq<char>) -> Option<Seq<char>>
    decreases path.len(),
{
    match split_once(path, '.') {
        Some(p) => {
            proof {
                lemma_split_shorter(path);
            }
            match find(cs, p.0) {
                Some(i) => if cs[i] is Module {
                    lookup(kids(cs[i]), p.1)
                } else {
                    None
                },
                None => None,
            }
        },
        None => match find(cs, path) {
            Some(i) => match cs[i] {
                TreeView::Test(_, c) => Some(c),
                _ => None,
            },
            None => None,
        },
    }
}

/// The code of the test under `path` in the tree.
pub open spec fn tree_lookup(v: TreeView, path: Seq<char>) -> Option<Seq<char>> {
    if v is Test {
        None
    } else {
        lookup(kids(v), path)
    }
}

/// The names along a path: the parts between its dots.
pub open spec fn segments(path: Seq<char>) -> Seq<Seq<char>>
    decreases path.len(),
{
    match split_once(path, '.') {
        Some(p) => {
            proof {
                lemma_split_shorter(path);
            }
            seq![p.0] + segments(p.1)
        },
        None => seq![path],
    }
}

/// Two paths part: neither leads to the other or into it.
pub open spec fn diverge(p: Seq<char>, q: Seq<char>) -> bool {
    !segments(p).is_prefix_of(segments(q)) && !segments(q).is_prefix_of(segments(p))
}

/// Replacing or adding a child under `name` makes it the one `find` finds.
proof fn lemma_find_changed(cs: Seq<TreeView>, x: TreeView, name: Seq<char>)
    requires
        name_of(x) == name,
    ensures
        find(cs, name) matches Some(i) ==> find(cs.update(i, x), name) == Some(i),
        find(cs, name) is None ==> find(cs.push(x), name) == Some(cs.len() as int),
{
    lemma_find(cs, name);
    match find(cs, name) {
        Some(i) => {
            let u = cs.update(i, x);
            lemma_find(u, name);
            assert(u[i] == x);
            if let Some(k) = find(u, name) {
                if k < i {
                    assert(u[k] == cs[k]);
                }
                if i < k {
                    assert(name_of(u[i]) == name);
                }
            }
        },
        None => {
            let u = cs.push(x);
            lemma_find(u, name);
            assert(u[cs.len() as int] == x);
            if let Some(k) = find(u, name) {
                if k < cs.len() {
                    assert(u[k] == cs[k]);
                }
            }
        },
    }
}

/// Replacing or adding a child under another name leaves what `find` finds
/// under `name`.
proof fn lemma_find_other(cs: Seq<TreeView>, i: int, x: TreeView, name: Seq<char>)
    requires
        name_of(x) != name,
        0 <= i < cs.len() ==> name_of(cs[i]) != name,
    ensures
        0 <= i < cs.len() ==> find(cs.update(i, x), name) == find(cs, name),
        find(cs.push(x), name) == find(cs, name),
{
    lemma_find(cs, name);
    if 0 <= i < cs.len() {
        let u = cs.update(i, x);
        lemma_find(u, name);
        if let Some(k) = find(cs, name) {
            assert(u[k] == cs[k]);
            if let Some(l) = find(u, name) {
                assert(u[l] == cs[l]);
            }
        } else {
            if let Some(l) = find(u, name) {
                assert(u[l] == cs[l]);
            }
        }
    }
    let u = cs.push(x);
    lemma_find(u, name);
    if let Some(k) = find(cs, name) {
        assert(u[k] == cs[k]);
        if let Some(l) = find(u, name) {
            if l < cs.len() {
                assert(u[l] == cs[l]);
            }
        }
    } else {
        if let Some(l) = find(u, name) {
            if l < cs.len() {
                assert(u[l] == cs[l]);
            }
        }
    }
}

/// Nothing is found among no children.
proof fn lemma_lookup_empty(path: Seq<char>)
    ensures
        lookup(Seq::empty(), path) is None,
        insertable(Seq::empty(), path),
{
}

/// A test inserted under `path` is found under `path`.
pub proof fn lemma_insert_lookup(cs: Seq<TreeView>, path: Seq<char>, code: Seq<char>)
    requires
        insertable(cs, path),
    ensures
        lookup(ins(cs, path, code), path) == Some(code),
    decreases path.len(),
{
    lemma_split_shorter(path);
    match split_once(path, '.') {
        Some(p) => {
            let m = TreeView::Module(p.0, ins(kids_or_empty(cs, p.0), p.1, code));
            lemma_find(cs, p.0);
            lemma_find_changed(cs, m, p.0);
            match find(cs, p.0) {
                Some(i) => {
                    lemma_insert_lookup(kids(cs[i]), p.1, code);
                    assert(cs.update(i, m)[i] == m);
                },
                None => {
                    lemma_lookup_empty(p.1);
                    lemma_insert_lookup(Seq::empty(), p.1, code);
                    assert(cs.push(m)[cs.len() as int] == m);
                },
            }
        },
        None => {
            let t = TreeView::Test(path, code);
            lemma_find(cs, path);
            lemma_find_changed(cs, t, path);
            match find(cs, path) {
                Some(i) => assert(cs.update(i, t)[i] == t),
                None => assert(cs.push(t)[cs.len() as int] == t),
            }
        },
    }
}

/// The children of the first child named `name`, or none where no child
/// has that name.
pub open spec fn kids_or_empty(cs: Seq<TreeView>, name: Seq<char>) -> Seq<TreeView> {
    match find(cs, name) {
        Some(i) => kids(cs[i]),
        None => Seq::empty(),
    }
}

/// Inserting a test leaves the tests under every path that parts from the
/// inserted one.
pub proof fn lemma_insert_keeps_others(cs: Seq<TreeView>, path: Seq<char>, code: Seq<char>, q: Seq<char>)
    requires
        insertable(cs, path),
        diverge(path, q),
    ensures
        lookup(ins(cs, path, code), q) == lookup(cs, q),
    decreases path.len(),
{
    lemma_split_shorter(path);
    lemma_split_shorter(q);
    let first = segments(path)[0];
    let qfirst = segments(q)[0];
    let new_kid = match split_once(path, '.') {
        Some(p) => TreeView::Module(p.0, ins(kids_or_empty(cs, p.0), p.1, code)),
        None => TreeView::Test(path, code),
    };
    assert(name_of(new_kid) == first);
    lemma_find(cs, first);
    let changed = find(cs, first);
    assert(ins(cs, path, code) == match changed {
        Some(i) => cs.update(i, new_kid),
        None => cs.push(new_kid),
    });
    if first != qfirst {
        match changed {
            Some(i) => lemma_find_other(cs, i, new_kid, qfirst),
            None => lemma_find_other(cs, -1, new_kid, qfirst),
        }
        let u = ins(cs, path, code);
        lemma_find(cs, qfirst);
        if let Some(k) = find(cs, qfirst) {
            match changed {
                Some(i) => assert(u[k] == cs[k]),
                None => assert(u[k] == cs[k]),
            }
        }
    } else {
        let p = split_once(path, '.')->0;
        let pq = split_once(q, '.')->0;
        assert(segments(path) == seq![p.0] + segments(p.1));
        assert(segments(q) == seq![pq.0] + segments(pq.1));
        assert(diverge(p.1, pq.1)) by {
            if segments(p.1).is_prefix_of(segments(pq.1)) {
                assert(segments(path).is_prefix_of(segments(q)));
            }
            if segments(pq.1).is_prefix_of(segments(p.1)) {
                assert(segments(q).is_prefix_of(segments(path)));
            }
        }
        lemma_find_changed(cs, new_kid, first);
        let u = ins(cs, path, code);
        match changed {
            Some(i) => {
                assert(u[i] == new_kid);
                lemma_insert_keeps_others(kids(cs[i]), p.1, code, pq.1);
            },
            None => {
                assert(u[cs.len() as int] == new_kid);
                lemma_lookup_empty(pq.1);
                lemma_insert_keeps_others(Seq::empty(), p.1, code, pq.1);
            },
        }
    }
}


/// No two children share a name.
pub open spec fn distinct_names(cs: Seq<TreeView>) -> bool {
    forall|i: int, j: int| 0 <= i < j < cs.len() ==> name_of(#[trigger] cs[i]) != name_of(#[trigger] cs[j])
}

/// A tree in the shape that `new` and `insert` keep: below the root, no
/// child is a root, and within each root or module no two children share a
/// name.
pub open spec fn well_formed(v: TreeView) -> bool
    decreases v, 1nat, 0nat,
{
    &&& distinct_names(kids(v))
    &&& forall|i: int| 0 <= i < kids(v).len() ==> !(#[trigger] kids(v)[i] is Root)
    &&& kids_well_formed(v, kids(v).len())
}

/// The first `n` children of `v` are well formed.
pub open spec fn kids_well_formed(v: TreeView, n: nat) -> bool
    decreases v, 0nat, n,
{
    if n == 0 || n > kids(v).len() {
        true
    } else {
        proof {
            match v {
                TreeView::Root(cs) => {
                    assert(decreases_to!(v => cs));
                    assert(decreases_to!(cs => cs[n - 1]));
                },
                TreeView::Module(_, cs) => {
                    assert(decreases_to!(v => cs));
                    assert(decreases_to!(cs => cs[n - 1]));
                },
                TreeView::Test(_, _) => {},
            }
        }
        kids_well_formed(v, (n - 1) as nat) && well_formed(kids(v)[n - 1])
    }
}

/// Children that a well formed root or module may hold.
pub open spec fn kids_ok(cs: Seq<TreeView>) -> bool {
    &&& distinct_names(cs)
    &&& forall|i: int| 0 <= i < cs.len() ==> !(#[trigger] cs[i] is Root) && well_formed(cs[i])
}

/// `kids_well_formed` says that each of the first `n` children is well
/// formed.
proof fn lemma_kids_well_formed(v: TreeView, n: nat)
    requires
        n <= kids(v).len(),
    ensures
        kids_well_formed(v, n) <==> forall|i: int| 0 <= i < n ==> well_formed(#[trigger] kids(v)[i]),
    decreases n,
{
    if n > 0 {
        lemma_kids_well_formed(v, (n - 1) as nat);
    }
}

/// A tree is well formed exactly where its children may stand in a well
/// formed root or module.
pub proof fn lemma_well_formed(v: TreeView)
    ensures
        well_formed(v) <==> kids_ok(kids(v)),
{
    lemma_kids_well_formed(v, kids(v).len());
}

/// Inserting a test into children that a well formed tree may hold gives
/// such children again.
proof fn lemma_insert_kids_ok(cs: Seq<TreeView>, path: Seq<char>, code: Seq<char>)
    requires
        kids_ok(cs),
        insertable(cs, path),
    ensures
        kids_ok(ins(cs, path, code)),
    decreases path.len(),
{
    lemma_split_shorter(path);
    let first = segments(path)[0];
    lemma_find(cs, first);
    let new_kid = match split_once(path, '.') {
        Some(p) => TreeView::Module(p.0, ins(kids_or_empty(cs, p.0), p.1, code)),
        None => TreeView::Test(path, code),
    };
    assert(name_of(new_kid) == first);
    match split_once(path, '.') {
        Some(p) => {
            match find(cs, p.0) {
                Some(i) => {
                    lemma_well_formed(cs[i]);
                    lemma_insert_kids_ok(kids(cs[i]), p.1, code);
                },
                None => {
                    lemma_lookup_empty(p.1);
                    lemma_insert_kids_ok(Seq::empty(), p.1, code);
                },
            }
            lemma_well_formed(new_kid);
        },
        None => {
            lemma_well_formed(new_kid);
        },
    }
    let u = ins(cs, path, code);
    match find(cs, first) {
        Some(i) => {
            assert(u == cs.update(i, new_kid));
            assert forall|a: int, b: int| 0 <= a < b < u.len() implies name_of(#[trigger] u[a]) != name_of(
                #[trigger] u[b],
            ) by {
                if a != i && b != i {
                    assert(name_of(cs[a]) != name_of(cs[b]));
                } else if a == i {
                    assert(name_of(cs[a]) != name_of(cs[b]));
                } else {
                    assert(name_of(cs[a]) != name_of(cs[b]));
                }
            }
        },
        None => {
            assert(u == cs.push(new_kid));
            assert forall|a: int, b: int| 0 <= a < b < u.len() implies name_of(#[trigger] u[a]) != name_of(
                #[trigger] u[b],
            ) by {
                if b < cs.len() {
                    assert(name_of(cs[a]) != name_of(cs[b]));
                } else {
                    assert(u[a] == cs[a]);
                }
            }
        },
    }
}

/// An empty tree is well formed.
pub proof fn lemma_new_well_formed()
    ensures
        well_formed(TreeView::Root(Seq::empty())),
{
    lemma_well_formed(TreeView::Root(Seq::empty()));
}

/// Inserting a test keeps a tree well formed: the children of each root or
/// module keep distinct names.
pub proof fn lemma_insert_well_formed(v: TreeView, path: Seq<char>, code: Seq<char>)
    requires
        well_formed(v),
        tree_insertable(v, path),
    ensures
        well_formed(tree_insert(v, path, code)),
{
    lemma_well_formed(v);
    lemma_insert_kids_ok(kids(v), path, code);
    lemma_well_formed(tree_insert(v, path, code));
}

/// A test inserted into a tree under `path` is found under `path`.
pub proof fn lemma_tree_insert_lookup(v: TreeView, path: Seq<char>, code: Seq<char>)
    requires
        tree_insertable(v, path),
    ensures
        tree_lookup(tree_insert(v, path, code), path) == Some(code),
{
    lemma_insert_lookup(kids(v), path, code);
}

/// Inserting a test into a tree leaves the tests under every path that
/// parts from the inserted one.
pub proof fn lemma_tree_insert_keeps_others(v: TreeView, path: Seq<char>, code: Seq<char>, q: Seq<char>)
    requires
        tree_insertable(v, path),
        diverge(path, q),
    ensures
        tree_lookup(tree_insert(v, path, code), q) == tree_lookup(v, q),
{
    lemma_insert_keeps_others(kids(v), path, code, q);
}

} // verus!
