//! Syntax trees of the first parser generation: categories with children, and
//! morphemes at the leaves, printed with single spaces.
use vstd::prelude::*;
use crate::text::{chars_of, string_from, push_str, push_joined, join, views};
use crate::lan::parse::syntree::{TreeV, collect_of, collect_all};

verus! {

/// A matched piece of text and the name of what it matched.
#[derive(Debug)]
pub struct Morpheme {
    pub text: String,
    pub name: String,
}

pub type Morphemes = Vec<Morpheme>;

/// A named category and its children.
pub struct SyntaxTree {
    pub children: Vec<SyntaxTreeNode>,
    pub name: String,
}

/// A node of a syntax tree.
pub enum SyntaxTreeNode {
    Category(SyntaxTree),
    Vocab(Morpheme),
}

/// The model of a node.
pub open spec fn tree_view(n: SyntaxTreeNode) -> TreeV
    decreases n,
{
    match n {
        SyntaxTreeNode::Category(c) => TreeV::Category {
            name: c.name@,
            children: trees_view(c.children@),
        },
        SyntaxTreeNode::Vocab(m) => TreeV::Vocab { text: m.text@, name: m.name@ },
    }
}

/// The models of a sequence of nodes.
pub open spec fn trees_view(s: Seq<SyntaxTreeNode>) -> Seq<TreeV>
    decreases s,
{
    if s.len() == 0 {
        Seq::empty()
    } else {
        trees_view(s.subrange(0, s.len() - 1)).push(tree_view(s[s.len() - 1]))
    }
}

impl DeepView for SyntaxTreeNode {
    type V = TreeV;

    open spec fn deep_view(&self) -> TreeV {
        tree_view(*self)
    }
}

/// The models line up with the nodes, one for one.
pub proof fn lemma_trees_view(s: Seq<SyntaxTreeNode>)
    ensures
        trees_view(s).len() == s.len(),
        forall|i: int| 0 <= i < s.len() ==> #[trigger] trees_view(s)[i] == tree_view(s[i]),
    decreases s.len(),
{
    if s.len() > 0 {
        lemma_trees_view(s.subrange(0, s.len() - 1));
        assert forall|i: int| 0 <= i < s.len() implies #[trigger] trees_view(s)[i] == tree_view(
            s[i],
        ) by {
            if i < s.len() - 1 {
                assert(s.subrange(0, s.len() - 1)[i] == s[i]);
            }
        }
    }
}

/// Pushing a node extends the models by its model.
pub proof fn lemma_trees_view_push(s: Seq<SyntaxTreeNode>, n: SyntaxTreeNode)
    ensures
        trees_view(s.push(n)) == trees_view(s).push(tree_view(n)),
{
    assert(s.push(n).subrange(0, s.len() as int) == s);
}

/// The annotated text of a tree: a category as its name followed by its
/// children's annotated texts, space-separated, in `[ ` and ` ]`; a morpheme as
/// its text.
pub open spec fn annotated(t: TreeV) -> Seq<char>
    decreases t,
{
    match t {
        TreeV::Category { name, children } => name + "[ "@ + join(annotated_all(children), " "@)
            + " ]"@,
        TreeV::Vocab { text, name } => text,
    }
}

/// The annotated texts of a sequence of trees.
pub open spec fn annotated_all(s: Seq<TreeV>) -> Seq<Seq<char>>
    decreases s,
{
    if s.len() == 0 {
        Seq::empty()
    } else {
        annotated_all(s.subrange(0, s.len() - 1)).push(annotated(s[s.len() - 1]))
    }
}

proof fn lemma_take_step(s: Seq<TreeV>, i: int)
    requires
        0 <= i < s.len(),
    ensures
        collect_all(s.take(i + 1), " "@) == collect_all(s.take(i), " "@).push(
            collect_of(s[i], " "@),
        ),
        annotated_all(s.take(i + 1)) == annotated_all(s.take(i)).push(annotated(s[i])),
{
    assert(s.take(i + 1).subrange(0, i) == s.take(i));
}

fn collect_chars(n: &SyntaxTreeNode) -> (r: Vec<char>)
    ensures
        r@ == collect_of(n.deep_view(), " "@),
    decreases n,
{
    match n {
        SyntaxTreeNode::Category(c) => {
            proof {
                lemma_trees_view(c.children@);
            }
            let ghost tv = trees_view(c.children@);
            let mut items: Vec<Vec<char>> = Vec::new();
            let mut i: usize = 0;
            while i < c.children.len()
                invariant
                    i <= c.children.len(),
                    *n == SyntaxTreeNode::Category(*c),
                    tv == trees_view(c.children@),
                    tv.len() == c.children.len(),
                    forall|j: int| 0 <= j < tv.len() ==> #[trigger] tv[j] == tree_view(c.children@[j]),
                    views(items@) == collect_all(tv.take(i as int), " "@),
                decreases c.children.len() - i,
            {
                proof {
                    assert(n->Category_0 == *c);
                    assert(decreases_to!(*n => c.children@[i as int]));
                }
                let x = collect_chars(&c.children[i]);
                let ghost before = views(items@);
                items.push(x);
                assert(views(items@) =~= before.push(x@));
                proof {
                    lemma_take_step(tv, i as int);
                }
                i = i + 1;
            }
            assert(tv.take(i as int) == tv);
            let mut out: Vec<char> = Vec::new();
            push_joined(&mut out, &items, " ");
            out
        },
        SyntaxTreeNode::Vocab(v) => chars_of(v.text.as_str()),
    }
}

fn annotated_chars(n: &SyntaxTreeNode) -> (r: Vec<char>)
    ensures
        r@ == annotated(n.deep_view()),
    decreases n,
{
    match n {
        SyntaxTreeNode::Category(c) => {
            proof {
                lemma_trees_view(c.children@);
            }
            let ghost tv = trees_view(c.children@);
            let mut items: Vec<Vec<char>> = Vec::new();
            let mut i: usize = 0;
            while i < c.children.len()
                invariant
                    i <= c.children.len(),
                    *n == SyntaxTreeNode::Category(*c),
                    tv == trees_view(c.children@),
                    tv.len() == c.children.len(),
                    forall|j: int| 0 <= j < tv.len() ==> #[trigger] tv[j] == tree_view(c.children@[j]),
                    views(items@) == annotated_all(tv.take(i as int)),
                decreases c.children.len() - i,
            {
                proof {
                    assert(n->Category_0 == *c);
                    assert(decreases_to!(*n => c.children@[i as int]));
                }
                let x = annotated_chars(&c.children[i]);
                let ghost before = views(items@);
                items.push(x);
                assert(views(items@) =~= before.push(x@));
                proof {
                    lemma_take_step(tv, i as int);
                }
                i = i + 1;
            }
            assert(tv.take(i as int) == tv);
            let mut out: Vec<char> = Vec::new();
            push_str(&mut out, c.name.as_str());
            push_str(&mut out, "[ ");
            push_joined(&mut out, &items, " ");
            push_str(&mut out, " ]");
            out
        },
        SyntaxTreeNode::Vocab(v) => chars_of(v.text.as_str()),
    }
}

/// A copy of a tree.
pub fn copy_node(n: &SyntaxTreeNode) -> (r: SyntaxTreeNode)
    ensures
        r.deep_view() == n.deep_view(),
    decreases n,
{
    match n {
        SyntaxTreeNode::Category(c) => {
            let mut children: Vec<SyntaxTreeNode> = Vec::new();
            let mut i: usize = 0;
            while i < c.children.len()
                invariant
                    i <= c.children.len(),
                    *n == SyntaxTreeNode::Category(*c),
                    trees_view(children@) == trees_view(c.children@.take(i as int)),
                decreases c.children.len() - i,
            {
                proof {
                    assert(n->Category_0 == *c);
                    assert(decreases_to!(*n => c.children@[i as int]));
                }
                let x = copy_node(&c.children[i]);
                let ghost before = children@;
                children.push(x);
                proof {
                    lemma_trees_view_push(before, x);
                    lemma_trees_view_push(c.children@.take(i as int), c.children@[i as int]);
                    assert(c.children@.take(i as int).push(c.children@[i as int]) == c.children@.take(
                        i + 1,
                    ));
                }
                i = i + 1;
            }
            assert(c.children@.take(i as int) == c.children@);
            SyntaxTreeNode::Category(SyntaxTree { children, name: c.name.clone() })
        },
        SyntaxTreeNode::Vocab(m) => SyntaxTreeNode::Vocab(
            Morpheme { text: m.text.clone(), name: m.name.clone() },
        ),
    }
}

impl SyntaxTreeNode {
    /// A category without children.
    pub fn new_category(name: &str) -> (r: SyntaxTreeNode)
        ensures
            r.deep_view() == (TreeV::Category { name: name@, children: Seq::empty() }),
    {
        let r = SyntaxTreeNode::Category(SyntaxTree { name: name.to_owned(), children: Vec::new() });
        assert(trees_view(Seq::<SyntaxTreeNode>::empty()) == Seq::<TreeV>::empty());
        r
    }

    /// A morpheme.
    pub fn new_morpheme(name: String, text: String) -> (r: SyntaxTreeNode)
        ensures
            r.deep_view() == (TreeV::Vocab { text: text@, name: name@ }),
    {
        SyntaxTreeNode::Vocab(Morpheme { name: name, text: text })
    }

    /// Adds a child to a category; a morpheme takes no children and is left as
    /// it is.
    pub fn push_category(&mut self, node: SyntaxTreeNode) -> (r: Option<()>)
        ensures
            match old(self).deep_view() {
                TreeV::Category { name, children } => {
                    &&& r is Some
                    &&& final(self).deep_view() == (TreeV::Category {
                        name,
                        children: children.push(node.deep_view()),
                    })
                },
                TreeV::Vocab { .. } => r is None && *final(self) == *old(self),
            },
    {
        match self {
            SyntaxTreeNode::Category(c) => {
                let ghost before = c.children@;
                c.children.push(node);
                proof {
                    lemma_trees_view_push(before, node);
                }
                Some(())
            },
            SyntaxTreeNode::Vocab(_) => None,
        }
    }

    /// The morphemes' texts joined with single spaces, level by level (see
    /// [`collect_of`]).
    pub fn collect(&self) -> (r: String)
        ensures
            r@ == collect_of(self.deep_view(), " "@),
    {
        let v = collect_chars(self);
        string_from(v.as_slice())
    }

    /// The annotated text of the tree (see [`annotated`]).
    pub fn collect_verbose(&self) -> (r: String)
        ensures
            r@ == annotated(self.deep_view()),
    {
        let v = annotated_chars(self);
        string_from(v.as_slice())
    }
}

} // verus!
