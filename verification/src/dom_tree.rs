use vstd::prelude::*;
use vstd::string::StrSliceExecFns;
use vstd::string::StringExecFns;

use crate::text::str_eq;

verus! {

/// The address of an item: a path of child indices from the root, behind a
/// leading sentinel entry for the root itself.
#[derive(Debug)]
pub struct ItemId(pub Vec<usize>);

impl View for ItemId {
    type V = Seq<usize>;

    open spec fn view(&self) -> Seq<usize> {
        self.0@
    }
}

impl ItemId {
    /// The child-index path, the sentinel dropped.
    pub open spec fn path(&self) -> Seq<usize> {
        self.0@.skip(1)
    }

    /// A copy holding the same path.
    pub fn duplicate(&self) -> (r: ItemId)
        ensures
            r@ == self@,
    {
        let mut v: Vec<usize> = Vec::new();
        let mut i: usize = 0;
        while i < self.0.len()
            invariant
                i <= self.0.len(),
                v@ == self.0@.take(i as int),
            decreases self.0.len() - i,
        {
            v.push(self.0[i]);
            proof {
                assert(self.0@.take(i as int).push(self.0@[i as int]) =~= self.0@.take(i + 1));
            }
            i = i + 1;
        }
        proof {
            assert(self.0@.take(self.0@.len() as int) =~= self.0@);
        }
        ItemId(v)
    }
}

/// The kind of a document item.
#[derive(Clone, Copy, Debug, PartialEq, Eq, Structural)]
pub enum TagType {
    Block,
    Inline,
    PlainText,
    Header,
    HamlComment,
    HtmlComment,
    Root,
}

/// The value of an attribute map: name and value list per attribute, in
/// insertion order.
pub type AttrView = Seq<(Seq<char>, Seq<Seq<char>>)>;

/// The values of a sequence of strings.
pub open spec fn strs_view(v: Seq<String>) -> Seq<Seq<char>> {
    v.map_values(|s: String| s@)
}

/// An order-preserving mapping from attribute names to value lists.
#[derive(Debug)]
pub struct Attributes {
    pub entries: Vec<(String, Vec<String>)>,
}

impl View for Attributes {
    type V = AttrView;

    open spec fn view(&self) -> AttrView {
        self.entries@.map_values(|e: (String, Vec<String>)| (e.0@, strs_view(e.1@)))
    }
}

/// The map with the value list of `k` replaced (or added) whole.
pub open spec fn attrs_set(a: AttrView, k: Seq<char>, vs: Seq<Seq<char>>) -> AttrView
    decreases a.len(),
{
    if a.len() == 0 {
        seq![(k, vs)]
    } else if a[0].0 == k {
        seq![(k, vs)] + a.skip(1)
    } else {
        seq![a[0]] + attrs_set(a.skip(1), k, vs)
    }
}

/// The map with `v` appended to the value list of `k` (the list is created if absent).
pub open spec fn attrs_add(a: AttrView, k: Seq<char>, v: Seq<char>) -> AttrView
    decreases a.len(),
{
    if a.len() == 0 {
        seq![(k, seq![v])]
    } else if a[0].0 == k {
        seq![(a[0].0, a[0].1.push(v))] + a.skip(1)
    } else {
        seq![a[0]] + attrs_add(a.skip(1), k, v)
    }
}

proof fn lemma_attrs_set_prefix(a: AttrView, k: Seq<char>, vs: Seq<Seq<char>>, i: int)
    requires
        0 <= i <= a.len(),
        forall|j: int| 0 <= j < i ==> a[j].0 != k,
    ensures
        attrs_set(a, k, vs) == a.take(i) + attrs_set(a.skip(i), k, vs),
    decreases i,
{
    if i == 0 {
        assert(a.take(0) =~= Seq::<(Seq<char>, Seq<Seq<char>>)>::empty());
        assert(a.skip(0) =~= a);
        assert(a.take(0) + attrs_set(a, k, vs) =~= attrs_set(a, k, vs));
    } else {
        lemma_attrs_set_prefix(a.skip(1), k, vs, i - 1);
        assert(a.skip(1).take(i - 1) =~= a.subrange(1, i));
        assert(a.skip(1).skip(i - 1) =~= a.skip(i));
        assert(seq![a[0]] + (a.subrange(1, i) + attrs_set(a.skip(i), k, vs)) =~= a.take(i)
            + attrs_set(a.skip(i), k, vs));
    }
}

proof fn lemma_attrs_add_prefix(a: AttrView, k: Seq<char>, v: Seq<char>, i: int)
    requires
        0 <= i <= a.len(),
        forall|j: int| 0 <= j < i ==> a[j].0 != k,
    ensures
        attrs_add(a, k, v) == a.take(i) + attrs_add(a.skip(i), k, v),
    decreases i,
{
    if i == 0 {
        assert(a.take(0) =~= Seq::<(Seq<char>, Seq<Seq<char>>)>::empty());
        assert(a.skip(0) =~= a);
        assert(a.take(0) + attrs_add(a, k, v) =~= attrs_add(a, k, v));
    } else {
        lemma_attrs_add_prefix(a.skip(1), k, v, i - 1);
        assert(a.skip(1).take(i - 1) =~= a.subrange(1, i));
        assert(a.skip(1).skip(i - 1) =~= a.skip(i));
        assert(seq![a[0]] + (a.subrange(1, i) + attrs_add(a.skip(i), k, v)) =~= a.take(i)
            + attrs_add(a.skip(i), k, v));
    }
}

impl Attributes {
    pub fn new() -> (r: Attributes)
        ensures
            r@ == Seq::<(Seq<char>, Seq<Seq<char>>)>::empty(),
    {
        let r = Attributes { entries: Vec::new() };
        proof {
            assert(r@ =~= Seq::<(Seq<char>, Seq<Seq<char>>)>::empty());
        }
        r
    }

    pub fn is_empty(&self) -> (r: bool)
        ensures
            r == (self@.len() == 0),
    {
        self.entries.len() == 0
    }

    /// Replace (or add) the whole value list of the attribute `k`.
    pub fn set(&mut self, k: &str, vs: Vec<String>)
        ensures
            final(self)@ == attrs_set(old(self)@, k@, strs_view(vs@)),
    {
        let mut i: usize = 0;
        while i < self.entries.len()
            invariant
                i <= self.entries.len(),
                *self == *old(self),
                forall|j: int| 0 <= j < i ==> old(self)@[j].0 != k@,
            decreases self.entries.len() - i,
        {
            if str_eq(self.entries[i].0.as_str(), k) {
                proof {
                    lemma_attrs_set_prefix(old(self)@, k@, strs_view(vs@), i as int);
                }
                self.entries[i] = (k.to_owned(), vs);
                proof {
                    assert(final(self)@ =~= old(self)@.take(i as int) + attrs_set(
                        old(self)@.skip(i as int),
                        k@,
                        strs_view(vs@),
                    ));
                }
                return ;
            }
            i = i + 1;
        }
        proof {
            lemma_attrs_set_prefix(old(self)@, k@, strs_view(vs@), self.entries@.len() as int);
        }
        self.entries.push((k.to_owned(), vs));
        proof {
            assert(old(self)@.skip(old(self)@.len() as int) =~= Seq::<
                (Seq<char>, Seq<Seq<char>>),
            >::empty());
            assert(final(self)@ =~= old(self)@.take(old(self)@.len() as int) + attrs_set(
                old(self)@.skip(old(self)@.len() as int),
                k@,
                strs_view(vs@),
            ));
        }
    }

    /// Append `v` to the value list of the attribute `k`, creating the list if absent.
    pub fn add(&mut self, k: &str, v: String)
        ensures
            final(self)@ == attrs_add(old(self)@, k@, v@),
    {
        let mut i: usize = 0;
        while i < self.entries.len()
            invariant
                i <= self.entries.len(),
                *self == *old(self),
                forall|j: int| 0 <= j < i ==> old(self)@[j].0 != k@,
            decreases self.entries.len() - i,
        {
            if str_eq(self.entries[i].0.as_str(), k) {
                proof {
                    lemma_attrs_add_prefix(old(self)@, k@, v@, i as int);
                }
                let mut entry = self.entries.remove(i);
                entry.1.push(v);
                self.entries.insert(i, entry);
                proof {
                    assert(self.entries@ =~= old(self).entries@.update(i as int, entry));
                    assert(strs_view(entry.1@) =~= old(self)@[i as int].1.push(entry.1@.last()@));
                    assert(final(self)@ =~= old(self)@.take(i as int) + attrs_add(
                        old(self)@.skip(i as int),
                        k@,
                        v@,
                    ));
                }
                return ;
            }
            i = i + 1;
        }
        proof {
            lemma_attrs_add_prefix(old(self)@, k@, v@, self.entries@.len() as int);
        }
        let mut vs: Vec<String> = Vec::new();
        vs.push(v);
        self.entries.push((k.to_owned(), vs));
        proof {
            assert(strs_view(vs@) =~= seq![vs@[0]@]);
            assert(old(self)@.skip(old(self)@.len() as int) =~= Seq::<
                (Seq<char>, Seq<Seq<char>>),
            >::empty());
            assert(final(self)@ =~= old(self)@.take(old(self)@.len() as int) + attrs_add(
                old(self)@.skip(old(self)@.len() as int),
                k@,
                v@,
            ));
        }
    }
}

/// A node of the document tree.
#[derive(Debug)]
pub struct Item {
    pub parent: ItemId,
    pub childs: Vec<Item>,
    pub attributes: Attributes,
    pub tag: String,
    pub content: String,
    pub tag_type: TagType,
}

/// The value of a document item: its data and its children's values.
pub struct ItemView {
    pub attributes: AttrView,
    pub tag: Seq<char>,
    pub content: Seq<char>,
    pub tag_type: TagType,
    pub children: Seq<ItemView>,
}

/// The values of a sequence of items, in order.
pub open spec fn items_view(s: Seq<Item>) -> Seq<ItemView>
    decreases s,
{
    if s.len() == 0 {
        Seq::empty()
    } else {
        items_view(s.drop_last()).push(item_view(s.last()))
    }
}

/// The value of one item.
pub open spec fn item_view(it: Item) -> ItemView
    decreases it,
{
    ItemView {
        attributes: it.attributes@,
        tag: it.tag@,
        content: it.content@,
        tag_type: it.tag_type,
        children: items_view(it.childs@),
    }
}

impl View for Item {
    type V = ItemView;

    open spec fn view(&self) -> ItemView {
        item_view(*self)
    }
}

/// The item values are the values of the items, position by position.
pub proof fn lemma_items_view_index(s: Seq<Item>)
    ensures
        items_view(s).len() == s.len(),
        forall|i: int| 0 <= i < s.len() ==> items_view(s)[i] == item_view(s[i]),
    decreases s,
{
    if s.len() > 0 {
        lemma_items_view_index(s.drop_last());
    }
}

/// The value of an item whose fields are given and whose children are none.
pub open spec fn leaf_view(
    attributes: AttrView,
    tag: Seq<char>,
    content: Seq<char>,
    tag_type: TagType,
) -> ItemView {
    ItemView { attributes, tag, content, tag_type, children: Seq::empty() }
}

impl Item {
    /// The root item: the container of the whole document.
    pub fn root() -> (r: Item)
        ensures
            r@ == leaf_view(Seq::empty(), Seq::<char>::empty(), Seq::<char>::empty(), TagType::Root),
    {
        let mut sentinel: Vec<usize> = Vec::new();
        sentinel.push(0);
        let r = Item {
            parent: ItemId(sentinel),
            childs: Vec::new(),
            attributes: Attributes::new(),
            tag: String::new(),
            content: String::new(),
            tag_type: TagType::Root,
        };
        proof {
            assert(r@.children =~= Seq::<ItemView>::empty());
            assert(r@.attributes =~= Seq::<(Seq<char>, Seq<Seq<char>>)>::empty());
        }
        r
    }

    /// A comment the output discards, children and all.
    pub fn haml_comment() -> (r: Item)
        ensures
            r@ == leaf_view(
                Seq::empty(),
                Seq::<char>::empty(),
                Seq::<char>::empty(),
                TagType::HamlComment,
            ),
    {
        let mut sentinel: Vec<usize> = Vec::new();
        sentinel.push(0);
        let r = Item {
            parent: ItemId(sentinel),
            childs: Vec::new(),
            attributes: Attributes::new(),
            tag: String::new(),
            content: String::new(),
            tag_type: TagType::HamlComment,
        };
        proof {
            assert(r@.children =~= Seq::<ItemView>::empty());
            assert(r@.attributes =~= Seq::<(Seq<char>, Seq<Seq<char>>)>::empty());
        }
        r
    }

    /// An HTML comment with the given text (empty when its body is nested).
    pub fn html_comment(content: String) -> (r: Item)
        ensures
            r@ == leaf_view(Seq::empty(), Seq::<char>::empty(), content@, TagType::HtmlComment),
    {
        let mut sentinel: Vec<usize> = Vec::new();
        sentinel.push(0);
        let r = Item {
            parent: ItemId(sentinel),
            childs: Vec::new(),
            attributes: Attributes::new(),
            tag: String::new(),
            content,
            tag_type: TagType::HtmlComment,
        };
        proof {
            assert(r@.children =~= Seq::<ItemView>::empty());
            assert(r@.attributes =~= Seq::<(Seq<char>, Seq<Seq<char>>)>::empty());
        }
        r
    }

    /// A block element; a nameless one becomes a `div`.
    pub fn block(tag: String, attributes: Attributes) -> (r: Item)
        ensures
            r@ == leaf_view(
                attributes@,
                if tag@.len() == 0 {
                    "div"@
                } else {
                    tag@
                },
                Seq::<char>::empty(),
                TagType::Block,
            ),
    {
        let mut sentinel: Vec<usize> = Vec::new();
        sentinel.push(0);
        let named = if tag.as_str().is_empty() {
            "div".to_owned()
        } else {
            tag
        };
        let r = Item {
            parent: ItemId(sentinel),
            childs: Vec::new(),
            attributes,
            tag: named,
            content: String::new(),
            tag_type: TagType::Block,
        };
        proof {
            assert(r@.children =~= Seq::<ItemView>::empty());
        }
        r
    }

    /// A document header carrying a doctype line.
    pub fn header(header: String) -> (r: Item)
        ensures
            r@ == leaf_view(Seq::empty(), Seq::<char>::empty(), header@, TagType::Header),
    {
        let mut sentinel: Vec<usize> = Vec::new();
        sentinel.push(0);
        let r = Item {
            parent: ItemId(sentinel),
            childs: Vec::new(),
            attributes: Attributes::new(),
            tag: String::new(),
            content: header,
            tag_type: TagType::Header,
        };
        proof {
            assert(r@.children =~= Seq::<ItemView>::empty());
            assert(r@.attributes =~= Seq::<(Seq<char>, Seq<Seq<char>>)>::empty());
        }
        r
    }

    /// A line of literal text.
    pub fn plain_text(text: String) -> (r: Item)
        ensures
            r@ == leaf_view(Seq::empty(), Seq::<char>::empty(), text@, TagType::PlainText),
    {
        let mut sentinel: Vec<usize> = Vec::new();
        sentinel.push(0);
        let r = Item {
            parent: ItemId(sentinel),
            childs: Vec::new(),
            attributes: Attributes::new(),
            tag: String::new(),
            content: text,
            tag_type: TagType::PlainText,
        };
        proof {
            assert(r@.children =~= Seq::<ItemView>::empty());
            assert(r@.attributes =~= Seq::<(Seq<char>, Seq<Seq<char>>)>::empty());
        }
        r
    }

    /// An element with its content on the same line; a nameless one becomes a `div`.
    pub fn inline(tag: String, attributes: Attributes, content: String) -> (r: Item)
        ensures
            r@ == leaf_view(
                attributes@,
                if tag@.len() == 0 {
                    "div"@
                } else {
                    tag@
                },
                content@,
                TagType::Inline,
            ),
    {
        let mut sentinel: Vec<usize> = Vec::new();
        sentinel.push(0);
        let named = if tag.as_str().is_empty() {
            "div".to_owned()
        } else {
            tag
        };
        let r = Item {
            parent: ItemId(sentinel),
            childs: Vec::new(),
            attributes,
            tag: named,
            content,
            tag_type: TagType::Inline,
        };
        proof {
            assert(r@.children =~= Seq::<ItemView>::empty());
        }
        r
    }

    pub fn had_child(&self) -> (r: bool)
        ensures
            r == (self@.children.len() != 0),
    {
        proof {
            lemma_items_view_index(self.childs@);
        }
        self.childs.len() != 0
    }

    pub fn get_childs(&self) -> (r: &Vec<Item>)
        ensures
            *r == self.childs,
    {
        &self.childs
    }

    pub fn get_mut_childs(&mut self) -> (r: &mut Vec<Item>)
        ensures
            *r == old(self).childs,
            final(self).childs == *final(r),
            final(self).attributes == old(self).attributes,
            final(self).tag == old(self).tag,
            final(self).content == old(self).content,
            final(self).tag_type == old(self).tag_type,
            final(self).parent == old(self).parent,
    {
        &mut self.childs
    }

    pub fn get_parent_id(&self) -> (r: ItemId)
        ensures
            r@ == self.parent@,
    {
        self.parent.duplicate()
    }

    /// Append a child and hand back its index.
    pub fn add_child(&mut self, elt: Item) -> (r: usize)
        ensures
            final(self)@.children == old(self)@.children.push(elt@),
            final(self)@.attributes == old(self)@.attributes,
            final(self)@.tag == old(self)@.tag,
            final(self)@.content == old(self)@.content,
            final(self)@.tag_type == old(self)@.tag_type,
            r == old(self)@.children.len(),
    {
        proof {
            lemma_items_view_index(self.childs@);
        }
        let r = self.childs.len();
        self.childs.push(elt);
        proof {
            assert(self.childs@.drop_last() =~= old(self).childs@);
        }
        r
    }
}


// ---------------------------------------------------------------------------
// Paths into the tree.
// ---------------------------------------------------------------------------

/// Whether the child-index path descends through existing children all the way.
pub open spec fn tree_valid(t: ItemView, path: Seq<usize>) -> bool
    decreases path.len(),
{
    path.len() == 0 || (path[0] < t.children.len() && tree_valid(
        t.children[path[0] as int],
        path.skip(1),
    ))
}

/// The item the path leads to.
pub open spec fn tree_at(t: ItemView, path: Seq<usize>) -> ItemView
    decreases path.len(),
{
    if path.len() == 0 {
        t
    } else {
        tree_at(t.children[path[0] as int], path.skip(1))
    }
}

/// The tree with `item` appended as the last child of the item the path leads to.
pub open spec fn tree_insert(t: ItemView, path: Seq<usize>, item: ItemView) -> ItemView
    decreases path.len(),
{
    if path.len() == 0 {
        ItemView { children: t.children.push(item), ..t }
    } else {
        ItemView {
            children: t.children.update(
                path[0] as int,
                tree_insert(t.children[path[0] as int], path.skip(1), item),
            ),
            ..t
        }
    }
}

/// A prefix of a valid path is valid, and leads to an item on the way down.
pub proof fn lemma_tree_valid_prefix(t: ItemView, path: Seq<usize>)
    requires
        tree_valid(t, path),
        path.len() > 0,
    ensures
        tree_valid(t, path.drop_last()),
    decreases path.len(),
{
    if path.len() > 1 {
        lemma_tree_valid_prefix(t.children[path[0] as int], path.skip(1));
        assert(path.skip(1).drop_last() =~= path.drop_last().skip(1));
    }
}

/// Inserting appends the item as the last child of the addressed parent,
/// leaves the rest of the parent alone, and keeps the path valid.
pub proof fn lemma_tree_insert_appends(t: ItemView, path: Seq<usize>, item: ItemView)
    requires
        tree_valid(t, path),
    ensures
        tree_valid(tree_insert(t, path, item), path),
        tree_at(tree_insert(t, path, item), path).children == tree_at(t, path).children.push(item),
        tree_at(tree_insert(t, path, item), path).attributes == tree_at(t, path).attributes,
        tree_at(tree_insert(t, path, item), path).tag == tree_at(t, path).tag,
        tree_at(tree_insert(t, path, item), path).content == tree_at(t, path).content,
        tree_at(tree_insert(t, path, item), path).tag_type == tree_at(t, path).tag_type,
    decreases path.len(),
{
    if path.len() > 0 {
        let c = t.children[path[0] as int];
        lemma_tree_insert_appends(c, path.skip(1), item);
    }
}

/// Beyond appending, the path extended with the new child's index is valid
/// and leads to the inserted item.
pub proof fn lemma_tree_insert(t: ItemView, path: Seq<usize>, item: ItemView, idx: usize)
    requires
        tree_valid(t, path),
        idx == tree_at(t, path).children.len(),
    ensures
        tree_valid(tree_insert(t, path, item), path),
        tree_at(tree_insert(t, path, item), path).children == tree_at(t, path).children.push(item),
        tree_at(tree_insert(t, path, item), path).attributes == tree_at(t, path).attributes,
        tree_at(tree_insert(t, path, item), path).tag == tree_at(t, path).tag,
        tree_at(tree_insert(t, path, item), path).content == tree_at(t, path).content,
        tree_at(tree_insert(t, path, item), path).tag_type == tree_at(t, path).tag_type,
        tree_valid(tree_insert(t, path, item), path.push(idx)),
        tree_at(tree_insert(t, path, item), path.push(idx)) == item,
    decreases path.len(),
{
    let t2 = tree_insert(t, path, item);
    if path.len() == 0 {
        assert(path.push(idx)[0] == idx);
        assert(path.push(idx).skip(1) =~= Seq::<usize>::empty());
        assert(idx < t2.children.len());
        assert(tree_valid(t2.children[idx as int], path.push(idx).skip(1)));
        assert(tree_valid(t2, path.push(idx)));
        assert(tree_at(t2, path.push(idx)) == tree_at(t2.children[idx as int], Seq::<
            usize,
        >::empty()));
    } else {
        let c = t.children[path[0] as int];
        lemma_tree_insert(c, path.skip(1), item, idx);
        assert(path.push(idx)[0] == path[0]);
        assert(path.push(idx).skip(1) =~= path.skip(1).push(idx));
        assert(t2.children[path[0] as int] == tree_insert(c, path.skip(1), item));
        assert(path.push(idx)[0] < t2.children.len());
        assert(tree_valid(t2.children[path.push(idx)[0] as int], path.push(idx).skip(1)));
        assert(tree_valid(t2, path.push(idx)));
    }
}

// ---------------------------------------------------------------------------
// The tree with its cursor.
// ---------------------------------------------------------------------------

/// The document tree: a root item and a movable cursor naming the item under
/// which the next insertion occurs.
#[derive(Debug)]
pub struct DomTree {
    pub root: Item,
    pub cur_elt_id: ItemId,
}

impl DomTree {
    /// The cursor as a child-index path from the root.
    pub open spec fn cursor(&self) -> Seq<usize> {
        self.cur_elt_id.path()
    }

    /// The cursor names an existing item.
    pub open spec fn wf(&self) -> bool {
        self.cur_elt_id@.len() >= 1 && tree_valid(self.root@, self.cursor())
    }

    /// An empty tree: a bare root with the cursor on it.
    pub fn new() -> (r: DomTree)
        ensures
            r.root@ == leaf_view(
                Seq::empty(),
                Seq::<char>::empty(),
                Seq::<char>::empty(),
                TagType::Root,
            ),
            r.cursor() == Seq::<usize>::empty(),
            r.wf(),
    {
        let mut id: Vec<usize> = Vec::new();
        id.push(0);
        let r = DomTree { root: Item::root(), cur_elt_id: ItemId(id) };
        proof {
            assert(r.cursor() =~= Seq::<usize>::empty());
        }
        r
    }

    /// The item an id leads to; an empty or dangling id yields none.
    pub fn get_elt(&self, elt_id: ItemId) -> (r: Option<&Item>)
        ensures
            ({
                let p = elt_id.path();
                if elt_id@.len() >= 1 && tree_valid(self.root@, p) {
                    r is Some && r.unwrap()@ == tree_at(self.root@, p)
                } else {
                    r is None
                }
            }),
    {
        if elt_id.0.len() == 0 {
            None
        } else {
            rec_get_elt(&self.root, &elt_id.0, 1)
        }
    }

    /// Move the cursor to an existing item.
    pub fn set_current_elt(&mut self, id: ItemId)
        requires
            id@.len() >= 1,
            tree_valid(old(self).root@, id@.skip(1)),
        ensures
            final(self).root == old(self).root,
            final(self).cur_elt_id == id,
            final(self).wf(),
    {
        self.cur_elt_id = id;
    }

    /// The cursor's id.
    pub fn get_current_elt(&self) -> (r: ItemId)
        ensures
            r@ == self.cur_elt_id@,
    {
        self.cur_elt_id.duplicate()
    }

    /// Append `elt` as the last child of the cursor item and move the cursor
    /// into it; its id comes back.
    pub fn insert(&mut self, elt: Item) -> (r: Option<ItemId>)
        requires
            old(self).wf(),
        ensures
            final(self).wf(),
            final(self).root@ == tree_insert(old(self).root@, old(self).cursor(), elt@),
            final(self).cursor() == old(self).cursor().push(
                tree_at(old(self).root@, old(self).cursor()).children.len() as usize,
            ),
            r is Some && r.unwrap()@ == final(self).cur_elt_id@,
    {
        let mut elt = elt;
        elt.parent = self.cur_elt_id.duplicate();
        let ghost old_root = self.root@;
        let ghost p = self.cursor();
        let tmp_pos = rec_insert_elt(&mut self.root, elt, &self.cur_elt_id.0, 1);
        self.cur_elt_id.0.push(tmp_pos);
        proof {
            assert(self.cursor() =~= p.push(tmp_pos));
            lemma_tree_insert(old_root, p, item_view(elt), tmp_pos);
        }
        Some(self.cur_elt_id.duplicate())
    }

    /// Append `elt` as the last child of the cursor item, leaving the cursor
    /// where it was; the cursor's id comes back.
    pub fn insert_and_back(&mut self, elt: Item) -> (r: Option<ItemId>)
        requires
            old(self).wf(),
        ensures
            final(self).wf(),
            final(self).root@ == tree_insert(old(self).root@, old(self).cursor(), elt@),
            final(self).cursor() == old(self).cursor(),
            r is Some && r.unwrap()@ == final(self).cur_elt_id@,
    {
        let ghost oc = old(self).cursor();
        self.insert(elt);
        let ghost mid_id = self.cur_elt_id@;
        self.back();
        proof {
            assert(mid_id.skip(1).len() == oc.len() + 1);
            assert(final(self).cur_elt_id@ == mid_id.drop_last());
            assert(mid_id.drop_last().skip(1) =~= mid_id.skip(1).drop_last());
            assert(mid_id.skip(1).drop_last() =~= oc);
        }
        Some(self.cur_elt_id.duplicate())
    }

    /// Move the cursor to its parent; at the root nothing moves.
    pub fn back(&mut self)
        ensures
            final(self).root == old(self).root,
            old(self).cur_elt_id@.len() <= 1 ==> final(self).cur_elt_id@ == old(
                self,
            ).cur_elt_id@,
            old(self).cur_elt_id@.len() > 1 ==> final(self).cur_elt_id@ == old(
                self,
            ).cur_elt_id@.drop_last(),
            old(self).wf() ==> final(self).wf(),
    {
        if self.cur_elt_id.0.len() > 1 {
            proof {
                if old(self).wf() && old(self).cursor().len() > 0 {
                    lemma_tree_valid_prefix(self.root@, self.cursor());
                }
            }
            self.cur_elt_id.0.pop();
            proof {
                assert(final(self).cursor() =~= old(self).cursor().drop_last());
            }
        }
    }

    /// How deep the cursor sits: the root is at level zero.
    pub fn get_current_lvl(&self) -> (r: usize)
        requires
            self.cur_elt_id@.len() >= 1,
        ensures
            r == self.cursor().len(),
    {
        self.cur_elt_id.0.len() - 1
    }
}

/// Resolve a path suffix against an item.
fn rec_get_elt<'a>(elt: &'a Item, path: &Vec<usize>, pos: usize) -> (r: Option<&'a Item>)
    requires
        pos <= path@.len(),
    ensures
        ({
            let p = path@.skip(pos as int);
            if tree_valid(elt@, p) {
                r is Some && r.unwrap()@ == tree_at(elt@, p)
            } else {
                r is None
            }
        }),
    decreases path@.len() - pos,
{
    if pos == path.len() {
        Some(elt)
    } else {
        let idx = path[pos];
        proof {
            lemma_items_view_index(elt.childs@);
            assert(path@.skip(pos as int)[0] == path@[pos as int]);
            assert(path@.skip(pos as int).skip(1) =~= path@.skip(pos as int + 1));
        }
        if idx < elt.childs.len() {
            rec_get_elt(&elt.childs[idx], path, pos + 1)
        } else {
            None
        }
    }
}

/// Append `new_elt` under the item a path suffix leads to; the new child's
/// index comes back.
fn rec_insert_elt(elt: &mut Item, new_elt: Item, path: &Vec<usize>, pos: usize) -> (r: usize)
    requires
        pos <= path@.len(),
        tree_valid(old(elt)@, path@.skip(pos as int)),
    ensures
        final(elt)@ == tree_insert(old(elt)@, path@.skip(pos as int), new_elt@),
        r == tree_at(old(elt)@, path@.skip(pos as int)).children.len(),
    decreases path@.len() - pos,
{
    proof {
        lemma_items_view_index(elt.childs@);
        assert(path@.skip(pos as int).len() == path@.len() - pos);
    }
    if pos == path.len() {
        let r = elt.childs.len();
        elt.childs.push(new_elt);
        proof {
            assert(path@.skip(pos as int) =~= Seq::<usize>::empty());
            assert(elt.childs@.drop_last() =~= old(elt).childs@);
        }
        r
    } else {
        let idx = path[pos];
        proof {
            assert(path@.skip(pos as int)[0] == path@[pos as int]);
            assert(path@.skip(pos as int).skip(1) =~= path@.skip(pos as int + 1));
        }
        let mut child = elt.childs.remove(idx);
        let r = rec_insert_elt(&mut child, new_elt, path, pos + 1);
        elt.childs.insert(idx, child);
        proof {
            assert(elt.childs@ =~= old(elt).childs@.update(idx as int, child));
            lemma_items_view_index(elt.childs@);
            lemma_items_view_index(old(elt).childs@);
            assert(item_view(*elt).children =~= item_view(*old(elt)).children.update(
                idx as int,
                item_view(child),
            ));
        }
        r
    }
}


// ---------------------------------------------------------------------------
// Rendering to HTML text.
// ---------------------------------------------------------------------------

/// The values joined by single spaces.
pub open spec fn join_space(vs: Seq<Seq<char>>) -> Seq<char>
    decreases vs.len(),
{
    if vs.len() == 0 {
        Seq::empty()
    } else if vs.len() == 1 {
        vs[0]
    } else {
        vs[0] + " "@ + join_space(vs.skip(1))
    }
}

/// The attribute text: ` name='v1 v2 … vk'` for each attribute, in order.
pub open spec fn render_attrs(a: AttrView) -> Seq<char>
    decreases a.len(),
{
    if a.len() == 0 {
        Seq::empty()
    } else {
        " "@ + a[0].0 + "='"@ + join_space(a[0].1) + "'"@ + render_attrs(a.skip(1))
    }
}

/// The HTML text of one item, subtree included, at the given indentation.
///
/// A block without children closes on the same line; with children, each tag
/// has its own line and the children sit two spaces deeper. A comment keeps
/// its one-line or multi-line shape the same way. A discarded comment, the
/// root and anything unknown produce nothing.
pub open spec fn render_item(e: ItemView, indent: Seq<char>) -> Seq<char>
    decreases e,
{
    let attrs = render_attrs(e.attributes);
    match e.tag_type {
        TagType::PlainText => indent + e.content + "\n"@,
        TagType::Inline => indent + "<"@ + e.tag + attrs + ">"@ + e.content + "</"@ + e.tag
            + ">\n"@,
        TagType::Block => if e.children.len() == 0 {
            indent + "<"@ + e.tag + attrs + ">"@ + "</"@ + e.tag + ">\n"@
        } else {
            indent + "<"@ + e.tag + attrs + ">\n"@ + render_items(e.children, indent + "  "@)
                + indent + "</"@ + e.tag + ">\n"@
        },
        TagType::HtmlComment => {
            let open_part = if e.children.len() == 0 {
                indent + "<!-- "@
            } else {
                indent + "<!--\n"@
            };
            let mid = if e.content.len() > 0 {
                e.content
            } else {
                render_items(e.children, indent + "  "@)
            };
            let close_part = if e.children.len() == 0 {
                " -->\n"@
            } else {
                indent + "-->\n"@
            };
            open_part + mid + close_part
        },
        TagType::Header => indent + e.content + "\n"@,
        _ => Seq::empty(),
    }
}

/// The HTML text of a sequence of items, in order.
pub open spec fn render_items(items: Seq<ItemView>, indent: Seq<char>) -> Seq<char>
    decreases items,
{
    if items.len() == 0 {
        Seq::empty()
    } else {
        render_items(items.drop_last(), indent) + render_item(items.last(), indent)
    }
}

/// The HTML text of a whole tree: its root's children at the margin.
pub open spec fn render_tree(t: ItemView) -> Seq<char> {
    render_items(t.children, Seq::empty())
}

/// The attribute text of `attributes`.
fn format_attribut(attributes: &Attributes) -> (r: String)
    ensures
        r@ == render_attrs(attributes@),
{
    let ghost a = attributes@;
    let mut out = String::new();
    let mut i: usize = 0;
    proof {
        assert(Seq::<char>::empty() + render_attrs(a) =~= render_attrs(a));
        assert(a.skip(0) =~= a);
    }
    while i < attributes.entries.len()
        invariant
            i <= attributes.entries.len(),
            a == attributes@,
            a.len() == attributes.entries.len(),
            render_attrs(a) == out@ + render_attrs(a.skip(i as int)),
        decreases attributes.entries.len() - i,
    {
        let ghost pre = out@;
        out.append(" ");
        out.append(attributes.entries[i].0.as_str());
        out.append("='");
        let vs = &attributes.entries[i].1;
        let ghost vseq = a[i as int].1;
        let ghost mid = out@;
        proof {
            assert(a[i as int] == (attributes.entries@[i as int].0@, strs_view(
                attributes.entries@[i as int].1@,
            )));
            assert(mid == pre + " "@ + a[i as int].0 + "='"@);
            assert(vseq.skip(0) =~= vseq);
        }
        let mut j: usize = 0;
        let ghost mut jpart = Seq::<char>::empty();
        proof {
            assert(mid + jpart =~= mid);
        }
        while j < vs.len()
            invariant
                j <= vs.len(),
                vseq.len() == vs@.len(),
                forall|x: int| 0 <= x < vs@.len() ==> vseq[x] == vs@[x]@,
                out@ == mid + jpart,
                join_space(vseq) == jpart + join_space(vseq.skip(j as int)),
            decreases vs.len() - j,
        {
            out.append(vs[j].as_str());
            proof {
                assert(vseq.skip(j as int)[0] == vseq[j as int]);
                assert(vseq.skip(j as int).skip(1) =~= vseq.skip(j as int + 1));
            }
            if j + 1 < vs.len() {
                out.append(" ");
                proof {
                    assert(vseq.skip(j as int).len() >= 2);
                    assert(join_space(vseq.skip(j as int)) == vseq[j as int] + " "@ + join_space(
                        vseq.skip(j as int + 1),
                    ));
                    let jp2 = jpart + vseq[j as int] + " "@;
                    assert(jp2 + join_space(vseq.skip(j as int + 1)) =~= jpart + join_space(
                        vseq.skip(j as int),
                    ));
                    jpart = jp2;
                    assert(out@ =~= mid + jpart);
                }
            } else {
                proof {
                    assert(vseq.skip(j as int).len() == 1);
                    jpart = jpart + vseq[j as int];
                    assert(out@ =~= mid + jpart);
                    assert(vseq.skip(j as int + 1) =~= Seq::<Seq<char>>::empty());
                    assert(jpart + join_space(vseq.skip(j as int + 1)) =~= jpart);
                }
            }
            j = j + 1;
        }
        out.append("'");
        proof {
            assert(vseq.skip(vseq.len() as int) =~= Seq::<Seq<char>>::empty());
            assert(jpart + join_space(vseq.skip(vs@.len() as int)) =~= jpart);
            assert(jpart == join_space(vseq));
            assert(a.skip(i as int)[0] == a[i as int]);
            assert(a.skip(i as int).skip(1) =~= a.skip(i as int + 1));
            assert(render_attrs(a.skip(i as int)) == " "@ + a[i as int].0 + "='"@ + join_space(
                a[i as int].1,
            ) + "'"@ + render_attrs(a.skip(i as int + 1)));
            assert(out@ =~= pre + " "@ + a[i as int].0 + "='"@ + join_space(a[i as int].1)
                + "'"@);
        }
        i = i + 1;
    }
    proof {
        assert(a.skip(a.len() as int) =~= Seq::<(Seq<char>, Seq<Seq<char>>)>::empty());
        assert(out@ + Seq::<char>::empty() =~= out@);
    }
    out
}


/// Emit the HTML text of `elt`'s children at the given indentation.
#[verifier::rlimit(100)]
fn rec_show(elt: &Item, indent: &String, out: &mut String)
    ensures
        final(out)@ == old(out)@ + render_items(elt@.children, indent@),
    decreases *elt,
{
    let ghost cs = elt@.children;
    proof {
        lemma_items_view_index(elt.childs@);
        assert(old(out)@ + render_items(cs.take(0), indent@) =~= old(out)@);
    }
    let mut i: usize = 0;
    while i < elt.childs.len()
        invariant
            i <= elt.childs.len(),
            cs == elt@.children,
            cs.len() == elt.childs.len(),
            forall|x: int| 0 <= x < cs.len() ==> cs[x] == item_view(elt.childs@[x]),
            out@ == old(out)@ + render_items(cs.take(i as int), indent@),
        decreases elt.childs.len() - i,
    {
        let ghost pre = out@;
        let ghost e_v = cs[i as int];
        let e = &elt.childs[i];
        let f_at = format_attribut(&e.attributes);
        let mut nested_indent = indent.clone();
        nested_indent.append("  ");
        proof {
            lemma_items_view_index(e.childs@);
        }
        match e.tag_type {
            TagType::PlainText => {
                out.append(indent.as_str());
                out.append(e.content.as_str());
                out.append("\n");
                proof {
                    assert(out@ =~= pre + render_item(e_v, indent@));
                }
            },
            TagType::Inline => {
                out.append(indent.as_str());
                out.append("<");
                out.append(e.tag.as_str());
                out.append(f_at.as_str());
                out.append(">");
                out.append(e.content.as_str());
                out.append("</");
                out.append(e.tag.as_str());
                out.append(">\n");
                proof {
                    assert(out@ =~= pre + render_item(e_v, indent@));
                }
            },
            TagType::Block => {
                out.append(indent.as_str());
                out.append("<");
                out.append(e.tag.as_str());
                out.append(f_at.as_str());
                if e.childs.len() == 0 {
                    out.append(">");
                } else {
                    out.append(">\n");
                }
                rec_show(e, &nested_indent, out);
                if e.childs.len() == 0 {
                    out.append("</");
                    out.append(e.tag.as_str());
                    out.append(">\n");
                    proof {
                        assert(e_v.children.len() == 0);
                        assert(render_items(e_v.children, nested_indent@) =~= Seq::<
                            char,
                        >::empty());
                        assert(out@ =~= pre + render_item(e_v, indent@));
                    }
                } else {
                    out.append(indent.as_str());
                    out.append("</");
                    out.append(e.tag.as_str());
                    out.append(">\n");
                    proof {
                        assert(e_v.children.len() > 0);
                        assert(out@ =~= pre + render_item(e_v, indent@));
                    }
                }
            },
            TagType::HtmlComment => {
                out.append(indent.as_str());
                if e.childs.len() == 0 {
                    out.append("<!-- ");
                } else {
                    out.append("<!--\n");
                }
                if !e.content.as_str().is_empty() {
                    out.append(e.content.as_str());
                } else {
                    rec_show(e, &nested_indent, out);
                }
                if e.childs.len() == 0 {
                    out.append(" -->\n");
                } else {
                    out.append(indent.as_str());
                    out.append("-->\n");
                }
                proof {
                    assert(out@ =~= pre + render_item(e_v, indent@));
                }
            },
            TagType::Header => {
                out.append(indent.as_str());
                out.append(e.content.as_str());
                out.append("\n");
                proof {
                    assert(out@ =~= pre + render_item(e_v, indent@));
                }
            },
            _ => {
                proof {
                    assert(render_item(e_v, indent@) =~= Seq::<char>::empty());
                    assert(out@ =~= pre + render_item(e_v, indent@));
                }
            },
        }
        proof {
            assert(cs.take(i as int + 1).drop_last() =~= cs.take(i as int));
            assert(cs.take(i as int + 1).last() == e_v);
            assert(render_items(cs.take(i as int + 1), indent@) == render_items(
                cs.take(i as int),
                indent@,
            ) + render_item(e_v, indent@));
            assert(out@ =~= old(out)@ + render_items(cs.take(i as int + 1), indent@));
        }
        i = i + 1;
    }
    proof {
        assert(cs.take(cs.len() as int) =~= cs);
    }
}

impl DomTree {
    /// The HTML text of the whole document.
    pub fn to_html(&self) -> (r: String)
        ensures
            r@ == render_tree(self.root@),
    {
        let mut out = String::new();
        let indent = String::new();
        proof {
            assert(indent@ =~= Seq::<char>::empty());
        }
        rec_show(&self.root, &indent, &mut out);
        proof {
            assert(Seq::<char>::empty() + render_items(self.root@.children, Seq::<char>::empty())
                =~= render_tree(self.root@));
        }
        out
    }
}


/// A block without children renders with its opening and closing tag on one
/// line; with children, the opening tag, each child, and the closing tag each
/// stand on their own line, the children two spaces deeper.
pub proof fn lemma_block_layout(e: ItemView, indent: Seq<char>)
    requires
        e.tag_type == TagType::Block,
    ensures
        e.children.len() == 0 ==> render_item(e, indent) == indent + "<"@ + e.tag + render_attrs(
            e.attributes,
        ) + ">"@ + "</"@ + e.tag + ">\n"@,
        e.children.len() > 0 ==> render_item(e, indent) == indent + "<"@ + e.tag + render_attrs(
            e.attributes,
        ) + ">\n"@ + render_items(e.children, indent + "  "@) + indent + "</"@ + e.tag + ">\n"@,
{
}

/// Inserting an item puts it at the end of its parent's child list and leaves
/// every earlier child in place; an item that was not among the children
/// before is contained exactly once afterwards.
pub proof fn lemma_insert_child_once(t: ItemView, path: Seq<usize>, item: ItemView)
    requires
        tree_valid(t, path),
    ensures
        ({
            let cs0 = tree_at(t, path).children;
            let cs1 = tree_at(tree_insert(t, path, item), path).children;
            &&& cs1.len() == cs0.len() + 1
            &&& cs1.last() == item
            &&& forall|j: int| 0 <= j < cs0.len() ==> cs1[j] == cs0[j]
            &&& (forall|j: int| 0 <= j < cs0.len() ==> cs0[j] != item) ==> (forall|j: int|
                0 <= j < cs1.len() - 1 ==> cs1[j] != item)
        }),
{
    lemma_tree_insert_appends(t, path, item);
}


impl Attributes {
    /// A copy holding the same attributes.
    pub fn duplicate(&self) -> (r: Attributes)
        ensures
            r@ == self@,
    {
        let mut entries: Vec<(String, Vec<String>)> = Vec::new();
        let mut i: usize = 0;
        while i < self.entries.len()
            invariant
                i <= self.entries.len(),
                entries@.len() == i,
                forall|x: int|
                    0 <= x < i ==> (#[trigger] entries@[x]).0@ == self.entries@[x].0@
                        && strs_view(entries@[x].1@) == strs_view(self.entries@[x].1@),
            decreases self.entries.len() - i,
        {
            let name = self.entries[i].0.clone();
            let src = &self.entries[i].1;
            let mut vals: Vec<String> = Vec::new();
            let mut j: usize = 0;
            while j < src.len()
                invariant
                    j <= src.len(),
                    vals@.len() == j,
                    forall|y: int| 0 <= y < j ==> (#[trigger] vals@[y])@ == src@[y]@,
                decreases src.len() - j,
            {
                vals.push(src[j].clone());
                j = j + 1;
            }
            proof {
                assert(strs_view(vals@) =~= strs_view(src@));
            }
            entries.push((name, vals));
            i = i + 1;
        }
        let r = Attributes { entries };
        proof {
            assert(r@ =~= self@);
        }
        r
    }
}

impl Item {
    /// A deep copy holding the same value.
    pub fn duplicate(&self) -> (r: Item)
        ensures
            r@ == self@,
        decreases *self,
    {
        let mut childs: Vec<Item> = Vec::new();
        let mut i: usize = 0;
        proof {
            lemma_items_view_index(self.childs@);
        }
        while i < self.childs.len()
            invariant
                i <= self.childs.len(),
                childs@.len() == i,
                forall|x: int|
                    0 <= x < i ==> item_view(#[trigger] childs@[x]) == item_view(self.childs@[x]),
            decreases self.childs.len() - i,
        {
            let c = self.childs[i].duplicate();
            childs.push(c);
            i = i + 1;
        }
        proof {
            lemma_items_view_index(childs@);
            lemma_items_view_index(self.childs@);
            assert(items_view(childs@) =~= items_view(self.childs@));
        }
        let r = Item {
            parent: self.parent.duplicate(),
            childs,
            attributes: self.attributes.duplicate(),
            tag: self.tag.clone(),
            content: self.content.clone(),
            tag_type: self.tag_type,
        };
        proof {
            assert(r@ == self@);
        }
        r
    }
}

impl DomTree {
    /// A deep copy holding the same tree and cursor.
    pub fn duplicate(&self) -> (r: DomTree)
        ensures
            r.root@ == self.root@,
            r.cur_elt_id@ == self.cur_elt_id@,
            self.wf() ==> r.wf(),
    {
        DomTree { root: self.root.duplicate(), cur_elt_id: self.cur_elt_id.duplicate() }
    }
}


// ---------------------------------------------------------------------------
// How deep the tree reaches.
// ---------------------------------------------------------------------------

/// The larger of two naturals.
pub open spec fn nat_max(a: nat, b: nat) -> nat {
    if a > b {
        a
    } else {
        b
    }
}

/// How deep the tree reaches: the number of edges on its longest downward path.
pub open spec fn tree_depth(t: ItemView) -> nat
    decreases t,
{
    if t.children.len() == 0 {
        0
    } else {
        1 + forest_depth(t.children)
    }
}

/// The deepest reach of any tree in the sequence.
pub open spec fn forest_depth(s: Seq<ItemView>) -> nat
    decreases s,
{
    if s.len() == 0 {
        0
    } else {
        nat_max(forest_depth(s.drop_last()), tree_depth(s.last()))
    }
}

pub proof fn lemma_forest_depth_le(s: Seq<ItemView>)
    ensures
        forall|i: int| 0 <= i < s.len() ==> tree_depth(#[trigger] s[i]) <= forest_depth(s),
    decreases s,
{
    if s.len() > 0 {
        lemma_forest_depth_le(s.drop_last());
        assert forall|i: int| 0 <= i < s.len() implies tree_depth(#[trigger] s[i]) <= forest_depth(
            s,
        ) by {
            if i < s.len() - 1 {
                assert(s[i] == s.drop_last()[i]);
            }
        }
    }
}

proof fn lemma_forest_depth_push(s: Seq<ItemView>, x: ItemView)
    ensures
        forest_depth(s.push(x)) == nat_max(forest_depth(s), tree_depth(x)),
{
    assert(s.push(x).drop_last() =~= s);
}

proof fn lemma_forest_depth_update_ge(s: Seq<ItemView>, i: int, x: ItemView)
    requires
        0 <= i < s.len(),
        tree_depth(s[i]) <= tree_depth(x),
    ensures
        forest_depth(s.update(i, x)) == nat_max(forest_depth(s), tree_depth(x)),
    decreases s,
{
    let u = s.update(i, x);
    if i == s.len() - 1 {
        assert(u.drop_last() =~= s.drop_last());
        assert(u.last() == x);
        lemma_forest_depth_le(s);
    } else {
        assert(u.last() == s.last());
        assert(u.drop_last() =~= s.drop_last().update(i, x));
        assert(s.drop_last()[i] == s[i]);
        lemma_forest_depth_update_ge(s.drop_last(), i, x);
    }
}

/// Inserting a childless item at a valid path makes the tree reach exactly
/// one step past the path, unless it already reached further.
pub proof fn lemma_tree_insert_depth(t: ItemView, p: Seq<usize>, it: ItemView)
    requires
        tree_valid(t, p),
        it.children.len() == 0,
    ensures
        tree_depth(tree_insert(t, p, it)) == nat_max(tree_depth(t), p.len() + 1),
    decreases p.len(),
{
    let t2 = tree_insert(t, p, it);
    if p.len() == 0 {
        lemma_forest_depth_push(t.children, it);
        assert(tree_depth(it) == 0);
    } else {
        let i = p[0] as int;
        let c = t.children[i];
        lemma_tree_insert_depth(c, p.skip(1), it);
        lemma_forest_depth_le(t.children);
        lemma_forest_depth_update_ge(t.children, i, tree_insert(c, p.skip(1), it));
    }
}

/// A valid path never outruns the tree's depth.
pub proof fn lemma_valid_path_depth(t: ItemView, p: Seq<usize>)
    requires
        tree_valid(t, p),
    ensures
        tree_depth(t) >= p.len(),
    decreases p.len(),
{
    if p.len() > 0 {
        lemma_valid_path_depth(t.children[p[0] as int], p.skip(1));
        lemma_forest_depth_le(t.children);
    }
}

/// A valid path extends by any existing child index of the item it reaches.
pub proof fn lemma_valid_extend(t: ItemView, p: Seq<usize>, j: usize)
    requires
        tree_valid(t, p),
        (j as nat) < tree_at(t, p).children.len(),
    ensures
        tree_valid(t, p.push(j)),
    decreases p.len(),
{
    if p.len() == 0 {
        assert(p.push(j)[0] == j);
        assert(p.push(j).skip(1) =~= Seq::<usize>::empty());
        assert(tree_valid(t.children[j as int], p.push(j).skip(1)));
    } else {
        lemma_valid_extend(t.children[p[0] as int], p.skip(1), j);
        assert(p.push(j)[0] == p[0]);
        assert(p.push(j).skip(1) =~= p.skip(1).push(j));
        assert(tree_valid(t.children[p[0] as int], p.push(j).skip(1)));
    }
}

} // verus!
