//! Syntax trees: categories with children, and morphemes at the leaves.
use vstd::prelude::*;
use crate::text::{chars_of, string_from, push_all, push_str, push_joined, join, views, trim, trim_chars};

verus! {

/// A matched piece of text and the name of what it matched.
#[derive(Debug)]
pub struct Morpheme {
    pub text: String,
    pub name: String,
}

pub type Morphemes = Vec<Morpheme>;

/// A named category and its children.
#[derive(Debug)]
pub struct SyntaxTree {
    pub children: Vec<SyntaxTreeNode>,
    pub name: String,
}

/// A node of a syntax tree.
#[derive(Debug)]
pub enum SyntaxTreeNode {
    Category(SyntaxTree),
    Vocab(Morpheme),
}

/// The model of a syntax tree.
pub enum TreeV {
    Category { name: Seq<char>, children: Seq<TreeV> },
    Vocab { text: Seq<char>, name: Seq<char> },
}

/// The model of a node.
pub open spec fn tree_view(n: SyntaxTreeNode) -> TreeV
    decreases n,
{
    match n {
        SyntaxTreeNode::Category(c) => TreeV::Category {
            name: c.name@,
            children: trees_view(c.children@),
        },
        SyntaxTreeNode::Vocab(m) => TreeV::Vocab { text: m.text@, name: m.name@ },
    }
}

/// The models of a sequence of nodes.
pub open spec fn trees_view(s: Seq<SyntaxTreeNode>) -> Seq<TreeV>
    decreases s,
{
    if s.len() == 0 {
        Seq::empty()
    } else {
        trees_view(s.subrange(0, s.len() - 1)).push(tree_view(s[s.len() - 1]))
    }
}

impl DeepView for SyntaxTreeNode {
    type V = TreeV;

    open spec fn deep_view(&self) -> TreeV {
        tree_view(*self)
    }
}

/// The models line up with the nodes, one for one.
pub proof fn lemma_trees_view(s: Seq<SyntaxTreeNode>)
    ensures
        trees_view(s).len() == s.len(),
        forall|i: int| 0 <= i < s.len() ==> #[trigger] trees_view(s)[i] == tree_view(s[i]),
    decreases s.len(),
{
    if s.len() > 0 {
        lemma_trees_view(s.subrange(0, s.len() - 1));
        assert forall|i: int| 0 <= i < s.len() implies #[trigger] trees_view(s)[i] == tree_view(
            s[i],
        ) by {
            if i < s.len() - 1 {
                assert(s.subrange(0, s.len() - 1)[i] == s[i]);
            }
        }
    }
}

/// Pushing a node extends the models by its model.
pub proof fn lemma_trees_view_push(s: Seq<SyntaxTreeNode>, n: SyntaxTreeNode)
    ensures
        trees_view(s.push(n)) == trees_view(s).push(tree_view(n)),
{
    assert(s.push(n).subrange(0, s.len() as int) == s);
}

/// The text of a tree: its morphemes' texts joined with `delim`, level by level.
pub open spec fn collect_of(t: TreeV, delim: Seq<char>) -> Seq<char>
    decreases t,
{
    match t {
        TreeV::Category { name, children } => join(collect_all(children, delim), delim),
        TreeV::Vocab { text, name } => text,
    }
}

/// The texts of a sequence of trees.
pub open spec fn collect_all(s: Seq<TreeV>, delim: Seq<char>) -> Seq<Seq<char>>
    decreases s,
{
    if s.len() == 0 {
        Seq::empty()
    } else {
        collect_all(s.subrange(0, s.len() - 1), delim).push(collect_of(s[s.len() - 1], delim))
    }
}

/// The annotated text of a tree: a category writes as `name[ children ]`, with
/// its children's annotated texts joined with `delim`; a morpheme writes as its
/// text without surrounding whitespace, and a single space as nothing.
pub open spec fn verbose_of(t: TreeV, delim: Seq<char>) -> Seq<char>
    decreases t,
{
    match t {
        TreeV::Category { name, children } => name + "[ "@ + join(
            verbose_all(children, delim),
            delim,
        ) + " ]"@,
        TreeV::Vocab { text, name } => if text == seq![' '] {
            Seq::empty()
        } else {
            trim(text)
        },
    }
}

/// The annotated texts of a sequence of trees.
pub open spec fn verbose_all(s: Seq<TreeV>, delim: Seq<char>) -> Seq<Seq<char>>
    decreases s,
{
    if s.len() == 0 {
        Seq::empty()
    } else {
        verbose_all(s.subrange(0, s.len() - 1), delim).push(verbose_of(s[s.len() - 1], delim))
    }
}

proof fn lemma_collect_all_take(s: Seq<TreeV>, i: int, delim: Seq<char>)
    requires
        0 <= i < s.len(),
    ensures
        collect_all(s.take(i + 1), delim) == collect_all(s.take(i), delim).push(
            collect_of(s[i], delim),
        ),
        verbose_all(s.take(i + 1), delim) == verbose_all(s.take(i), delim).push(
            verbose_of(s[i], delim),
        ),
{
    assert(s.take(i + 1).subrange(0, i) == s.take(i));
}

fn collect_chars(n: &SyntaxTreeNode, delim: &str) -> (r: Vec<char>)
    ensures
        r@ == collect_of(n.deep_view(), delim@),
    decreases n,
{
    match n {
        SyntaxTreeNode::Category(c) => {
            proof {
                lemma_trees_view(c.children@);
            }
            let ghost tv = trees_view(c.children@);
            let mut items: Vec<Vec<char>> = Vec::new();
            let mut i: usize = 0;
            while i < c.children.len()
                invariant
                    i <= c.children.len(),
                    *n == SyntaxTreeNode::Category(*c),
                    tv == trees_view(c.children@),
                    tv.len() == c.children.len(),
                    forall|j: int| 0 <= j < tv.len() ==> #[trigger] tv[j] == tree_view(c.children@[j]),
                    views(items@) == collect_all(tv.take(i as int), delim@),
                decreases c.children.len() - i,
            {
                proof {
                    assert(n->Category_0 == *c);
                    assert(decreases_to!(*n => n->Category_0));
                    assert(decreases_to!(*c => c.children));
                    assert(decreases_to!(c.children => c.children@));
                    assert(decreases_to!(c.children@ => c.children@[i as int]));
                    assert(decreases_to!(*n => c.children@[i as int]));
                }
                let x = collect_chars(&c.children[i], delim);
                let ghost before = views(items@);
                items.push(x);
                assert(views(items@) =~= before.push(x@));
                proof {
                    lemma_collect_all_take(tv, i as int, delim@);
                }
                i = i + 1;
            }
            assert(tv.take(i as int) == tv);
            let mut out: Vec<char> = Vec::new();
            push_joined(&mut out, &items, delim);
            out
        },
        SyntaxTreeNode::Vocab(v) => chars_of(v.text.as_str()),
    }
}

fn verbose_chars(n: &SyntaxTreeNode, delim: &str) -> (r: Vec<char>)
    ensures
        r@ == verbose_of(n.deep_view(), delim@),
    decreases n,
{
    match n {
        SyntaxTreeNode::Category(c) => {
            proof {
                lemma_trees_view(c.children@);
            }
            let ghost tv = trees_view(c.children@);
            let mut items: Vec<Vec<char>> = Vec::new();
            let mut i: usize = 0;
            while i < c.children.len()
                invariant
                    i <= c.children.len(),
                    *n == SyntaxTreeNode::Category(*c),
                    tv == trees_view(c.children@),
                    tv.len() == c.children.len(),
                    forall|j: int| 0 <= j < tv.len() ==> #[trigger] tv[j] == tree_view(c.children@[j]),
                    views(items@) == verbose_all(tv.take(i as int), delim@),
                decreases c.children.len() - i,
            {
                proof {
                    assert(n->Category_0 == *c);
                    assert(decreases_to!(*n => n->Category_0));
                    assert(decreases_to!(*c => c.children));
                    assert(decreases_to!(c.children => c.children@));
                    assert(decreases_to!(c.children@ => c.children@[i as int]));
                    assert(decreases_to!(*n => c.children@[i as int]));
                }
                let x = verbose_chars(&c.children[i], delim);
                let ghost before = views(items@);
                items.push(x);
                assert(views(items@) =~= before.push(x@));
                proof {
                    lemma_collect_all_take(tv, i as int, delim@);
                }
                i = i + 1;
            }
            assert(tv.take(i as int) == tv);
            let mut joined: Vec<char> = Vec::new();
            push_joined(&mut joined, &items, delim);
            let mut out: Vec<char> = Vec::new();
            push_str(&mut out, c.name.as_str());
            push_str(&mut out, "[ ");
            push_all(&mut out, joined.as_slice());
            push_str(&mut out, " ]");
            out
        },
        SyntaxTreeNode::Vocab(v) => {
            let t = chars_of(v.text.as_str());
            if t.len() == 1 && t[0] == ' ' {
                assert(t@ == seq![' ']);
                Vec::new()
            } else {
                assert(t@ != seq![' ']);
                trim_chars(t.as_slice())
            }
        },
    }
}

/// A copy of a tree.
pub fn copy_node(n: &SyntaxTreeNode) -> (r: SyntaxTreeNode)
    ensures
        r.deep_view() == n.deep_view(),
    decreases n,
{
    match n {
        SyntaxTreeNode::Category(c) => {
            let mut children: Vec<SyntaxTreeNode> = Vec::new();
            let mut i: usize = 0;
            while i < c.children.len()
                invariant
                    i <= c.children.len(),
                    *n == SyntaxTreeNode::Category(*c),
                    trees_view(children@) == trees_view(c.children@.take(i as int)),
                decreases c.children.len() - i,
            {
                proof {
                    assert(n->Category_0 == *c);
                    assert(decreases_to!(*n => n->Category_0));
                    assert(decreases_to!(*c => c.children));
                    assert(decreases_to!(c.children => c.children@));
                    assert(decreases_to!(c.children@ => c.children@[i as int]));
                    assert(decreases_to!(*n => c.children@[i as int]));
                }
                let x = copy_node(&c.children[i]);
                let ghost before = children@;
                children.push(x);
                proof {
                    lemma_trees_view_push(before, x);
                    lemma_trees_view_push(c.children@.take(i as int), c.children@[i as int]);
                    assert(c.children@.take(i as int).push(c.children@[i as int]) == c.children@.take(
                        i + 1,
                    ));
                }
                i = i + 1;
            }
            assert(c.children@.take(i as int) == c.children@);
            SyntaxTreeNode::Category(SyntaxTree { children, name: c.name.clone() })
        },
        SyntaxTreeNode::Vocab(m) => SyntaxTreeNode::Vocab(
            Morpheme { text: m.text.clone(), name: m.name.clone() },
        ),
    }
}

impl SyntaxTreeNode {
    /// A category without children.
    pub fn new_category(name: &str) -> (r: SyntaxTreeNode)
        ensures
            r.deep_view() == (TreeV::Category { name: name@, children: Seq::empty() }),
    {
        let r = SyntaxTreeNode::Category(SyntaxTree { name: name.to_owned(), children: Vec::new() });
        assert(trees_view(Seq::<SyntaxTreeNode>::empty()) == Seq::<TreeV>::empty());
        r
    }

    /// A morpheme.
    pub fn new_morpheme(name: String, text: String) -> (r: SyntaxTreeNode)
        ensures
            r.deep_view() == (TreeV::Vocab { text: text@, name: name@ }),
    {
        SyntaxTreeNode::Vocab(Morpheme { name: name, text: text })
    }

    /// Adds a child to a category; a morpheme takes no children and is left as
    /// it is.
    pub fn push_category(&mut self, node: SyntaxTreeNode) -> (r: Option<()>)
        ensures
            match old(self).deep_view() {
                TreeV::Category { name, children } => {
                    &&& r is Some
                    &&& final(self).deep_view() == (TreeV::Category {
                        name,
                        children: children.push(node.deep_view()),
                    })
                },
                TreeV::Vocab { .. } => r is None && *final(self) == *old(self),
            },
    {
        match self {
            SyntaxTreeNode::Category(c) => {
                let ghost before = c.children@;
                c.children.push(node);
                proof {
                    lemma_trees_view_push(before, node);
                }
                Some(())
            },
            SyntaxTreeNode::Vocab(_) => None,
        }
    }

    /// The morphemes' texts joined with `delim`, level by level (see [`collect_of`]).
    pub fn collect(&self, delim: &str) -> (r: String)
        ensures
            r@ == collect_of(self.deep_view(), delim@),
    {
        let v = collect_chars(self, delim);
        string_from(v.as_slice())
    }

    /// The annotated text of the tree (see [`verbose_of`]).
    pub fn collect_verbose(&self, delim: &str) -> (r: String)
        ensures
            r@ == verbose_of(self.deep_view(), delim@),
    {
        let v = verbose_chars(self, delim);
        string_from(v.as_slice())
    }

    /// Whether this is a category.
    pub fn is_category(&self) -> (r: bool)
        ensures
            r == self is Category,
    {
        match self {
            Self::Category(_) => true,
            _ => false,
        }
    }

    /// Whether this is a morpheme.
    pub fn is_vocab(&self) -> (r: bool)
        ensures
            r == self is Vocab,
    {
        match self {
            Self::Vocab(_) => true,
            _ => false,
        }
    }

    /// The morpheme, if this is one.
    pub fn get_vocab(&self) -> (r: Option<&Morpheme>)
        ensures
            match self {
                SyntaxTreeNode::Vocab(v) => r == Some(v),
                SyntaxTreeNode::Category(_) => r is None,
            },
    {
        match self {
            Self::Vocab(v) => Some(v),
            _ => None,
        }
    }

    /// The category, if this is one.
    pub fn get_category(&self) -> (r: Option<&SyntaxTree>)
        ensures
            match self {
                SyntaxTreeNode::Category(c) => r == Some(c),
                SyntaxTreeNode::Vocab(_) => r is None,
            },
    {
        match self {
            Self::Category(v) => Some(v),
            _ => None,
        }
    }
}

} // verus!
