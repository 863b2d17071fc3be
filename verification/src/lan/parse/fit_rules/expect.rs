//! Expectations: partial matches of a rule, each waiting for its next node.
use vstd::prelude::*;
use crate::lan::lanparser::declaration::{TemplateNode, TemplateNodeV};
use crate::lan::parse::syntree::{SyntaxTreeNode, TreeV, copy_node};

verus! {

/// A partial match of the rule `name`: the nodes still to match, the tree built
/// so far, the position reached, and the attributes of the dictionary words
/// matched so far.
pub struct Expectation<'p> {
    pub voca_attrs: Vec<&'p Vec<String>>,
    pub rule: &'p [TemplateNode],
    pub tree: Option<SyntaxTreeNode>,
    pub reading: usize,
    pub name: &'p str,
    pub alive: bool,
}

/// The model of an expectation.
pub struct ExpectationV {
    pub voca_attrs: Seq<Seq<Seq<char>>>,
    pub rule: Seq<TemplateNodeV>,
    pub tree: Option<TreeV>,
    pub reading: usize,
    pub name: Seq<char>,
    pub alive: bool,
}

impl<'p> DeepView for Expectation<'p> {
    type V = ExpectationV;

    open spec fn deep_view(&self) -> ExpectationV {
        ExpectationV {
            voca_attrs: self.voca_attrs.deep_view(),
            rule: self.rule.deep_view(),
            tree: self.tree.deep_view(),
            reading: self.reading,
            name: self.name@,
            alive: self.alive,
        }
    }
}

/// Whether a node may be skipped or repeated (and so does not end the choice of
/// where a match can continue).
pub open spec fn skippable(n: TemplateNode) -> bool {
    n.is_optional || n.is_free
}

/// The number of leading nodes that may be skipped or repeated.
pub open spec fn lead(rule: Seq<TemplateNode>) -> int
    decreases rule.len(),
{
    if rule.len() == 0 || !skippable(rule[0]) {
        0
    } else {
        1 + lead(rule.drop_first())
    }
}

proof fn lemma_lead(rule: Seq<TemplateNode>)
    ensures
        0 <= lead(rule) <= rule.len(),
        forall|j: int| 0 <= j < lead(rule) ==> skippable(#[trigger] rule[j]),
        lead(rule) < rule.len() ==> !skippable(rule[lead(rule)]),
    decreases rule.len(),
{
    if rule.len() > 0 && skippable(rule[0]) {
        lemma_lead(rule.drop_first());
        assert forall|j: int| 0 <= j < lead(rule) implies skippable(#[trigger] rule[j]) by {
            if j > 0 {
                assert(rule[j] == rule.drop_first()[j - 1]);
            }
        }
        if lead(rule) < rule.len() {
            assert(rule[lead(rule)] == rule.drop_first()[lead(rule) - 1]);
        }
    }
}

/// How many continuations a fresh match of a rule starts with: one for each
/// leading node that may be skipped or repeated, and one for the first node that
/// must be matched.
pub open spec fn start_count(rule: Seq<TemplateNode>) -> int {
    if lead(rule) < rule.len() {
        lead(rule) + 1
    } else {
        rule.len() as int
    }
}

/// How many continuations an expectation moves on to: as for a fresh match, and
/// one more that has finished when every node may be skipped or repeated and the
/// last may be skipped.
pub open spec fn next_count(rule: Seq<TemplateNode>) -> int {
    if lead(rule) < rule.len() {
        lead(rule) + 1
    } else if rule.len() > 0 && rule.last().is_optional {
        rule.len() + 1int
    } else {
        rule.len() as int
    }
}

/// Whether the tree of `e` was handed on to the continuations.
pub open spec fn hands_tree_on(rule: Seq<TemplateNode>) -> bool {
    lead(rule) < rule.len() || (rule.len() > 0 && rule.last().is_optional)
}

impl<'p> Expectation<'p> {
    /// A fresh expectation of `rule`, with tree `tree`, at `reading`.
    pub fn from(name: &'p str, rule: &'p [TemplateNode], tree: SyntaxTreeNode, reading: usize) -> (r:
        Expectation<'p>)
        ensures
            r.voca_attrs@ == Seq::<&'p Vec<String>>::empty(),
            r.rule == rule,
            r.tree == Some(tree),
            r.reading == reading,
            r.name == name,
            r.alive,
    {
        Expectation { voca_attrs: Vec::new(), tree: Some(tree), alive: true, reading, rule, name }
    }

    /// Marks the expectation as failed.
    pub fn kill(&mut self)
        ensures
            *final(self) == (Expectation { alive: false, ..*old(self) }),
    {
        self.alive = false;
    }

    /// Moves past the first node, unless it may repeat.
    pub fn next_rule(&mut self)
        requires
            old(self).rule@.len() > 0,
        ensures
            final(self).rule@ == if old(self).rule@[0].is_free {
                old(self).rule@
            } else {
                old(self).rule@.drop_first()
            },
            final(self).voca_attrs == old(self).voca_attrs,
            final(self).tree == old(self).tree,
            final(self).reading == old(self).reading,
            final(self).name == old(self).name,
            final(self).alive == old(self).alive,
    {
        if !self.rule[0].is_free {
            self.rule = &self.rule[1..self.rule.len()];
        }
    }

    /// Hands out the tree built so far.
    pub fn take_tree(&mut self) -> (r: SyntaxTreeNode)
        requires
            old(self).tree is Some,
        ensures
            r == old(self).tree->0,
            *final(self) == (Expectation { tree: None, ..*old(self) }),
    {
        match self.tree.take() {
            Some(t) => t,
            None => {
                assert(false);
                SyntaxTreeNode::new_category("")
            },
        }
    }

    /// Moves the position forward by `amount`.
    pub fn read(&mut self, amount: usize)
        requires
            old(self).reading + amount <= usize::MAX,
        ensures
            *final(self) == (Expectation { reading: (old(self).reading + amount) as usize, ..*old(self) }),
    {
        self.reading = self.reading + amount;
    }

    /// Records the attributes of a matched dictionary word.
    pub fn register_attr(&mut self, attr: &'p Vec<String>)
        ensures
            final(self).voca_attrs@ == old(self).voca_attrs@.push(attr),
            final(self).rule == old(self).rule,
            final(self).tree == old(self).tree,
            final(self).reading == old(self).reading,
            final(self).name == old(self).name,
            final(self).alive == old(self).alive,
    {
        self.voca_attrs.push(attr);
    }

    /// Adds a node to the tree built so far (a morpheme tree takes no children).
    pub fn push_category(&mut self, stn: SyntaxTreeNode)
        requires
            old(self).tree is Some,
        ensures
            final(self).tree is Some,
            match old(self).tree->0.deep_view() {
                TreeV::Category { name, children } => final(self).tree->0.deep_view() == (
                TreeV::Category { name, children: children.push(stn.deep_view()) }),
                TreeV::Vocab { .. } => final(self).tree == old(self).tree,
            },
            final(self).voca_attrs == old(self).voca_attrs,
            final(self).rule == old(self).rule,
            final(self).reading == old(self).reading,
            final(self).name == old(self).name,
            final(self).alive == old(self).alive,
    {
        match self.tree.as_mut() {
            Some(t) => {
                t.push_category(stn);
            },
            None => {},
        }
    }

    fn copy_attrs(&self) -> (r: Vec<&'p Vec<String>>)
        ensures
            r@ == self.voca_attrs@,
    {
        let mut r: Vec<&'p Vec<String>> = Vec::new();
        let mut i: usize = 0;
        while i < self.voca_attrs.len()
            invariant
                i <= self.voca_attrs.len(),
                r@ == self.voca_attrs@.take(i as int),
            decreases self.voca_attrs.len() - i,
        {
            r.push(self.voca_attrs[i]);
            assert(self.voca_attrs@.take(i + 1) == self.voca_attrs@.take(i as int).push(
                self.voca_attrs@[i as int],
            ));
            i = i + 1;
        }
        assert(self.voca_attrs@.take(i as int) == self.voca_attrs@);
        r
    }

    fn copy(&self) -> (r: Expectation<'p>)
        ensures
            r.deep_view() == self.deep_view(),
            r.voca_attrs@ == self.voca_attrs@,
            r.rule == self.rule,
            r.reading == self.reading,
            r.name == self.name,
            r.alive == self.alive,
    {
        Expectation {
            voca_attrs: self.copy_attrs(),
            rule: self.rule,
            tree: match &self.tree {
                Some(t) => Some(copy_node(t)),
                None => None,
            },
            reading: self.reading,
            name: self.name,
            alive: self.alive,
        }
    }

    /// The ways the match can go on: one continuation for each leading node that
    /// may be skipped or repeated, starting at that node, and one starting at the
    /// first node that must be matched; when every node may be skipped or
    /// repeated and the last may be skipped, one more that has finished. Each
    /// keeps the name and position, and all but the finished one keep the
    /// attributes. An expectation with nothing left to match goes on as itself.
    /// The last continuation takes over the tree; the others get copies.
    pub fn nexts(&mut self) -> (r: Vec<Expectation<'p>>)
        requires
            old(self).tree is Some,
        ensures
            old(self).rule@.len() == 0 ==> r@.len() == 1 && r@[0].deep_view()
                == old(self).deep_view() && r@[0].rule == old(self).rule && *final(self)
                == *old(self),
            old(self).rule@.len() > 0 ==> {
                &&& r@.len() == next_count(old(self).rule@)
                &&& forall|k: int|
                    #![trigger r@[k]]
                    0 <= k < r@.len() ==> {
                        &&& r@[k].rule@ == old(self).rule@.skip(k)
                        &&& r@[k].voca_attrs@ == if k == old(self).rule@.len() {
                            Seq::empty()
                        } else {
                            old(self).voca_attrs@
                        }
                        &&& r@[k].tree is Some
                        &&& r@[k].tree->0.deep_view() == old(self).tree->0.deep_view()
                        &&& r@[k].reading == old(self).reading
                        &&& r@[k].name == old(self).name
                        &&& r@[k].alive
                    }
                &&& final(self).tree == if hands_tree_on(old(self).rule@) {
                    None
                } else {
                    old(self).tree
                }
                &&& final(self).rule == old(self).rule
                &&& final(self).reading == old(self).reading
                &&& final(self).voca_attrs == old(self).voca_attrs
            },
    {
        if self.rule.len() == 0 {
            let c = self.copy();
            return vec![c];
        }
        proof {
            lemma_lead(self.rule@);
        }
        let ghost old_tree = self.tree;
        let ghost tv = self.tree->0.deep_view();
        let mut ret: Vec<Expectation<'p>> = Vec::new();
        let mut i: usize = 0;
        while i < self.rule.len()
            invariant
                self.rule == old(self).rule,
                self.reading == old(self).reading,
                self.voca_attrs == old(self).voca_attrs,
                self.name == old(self).name,
                self.tree == old_tree,
                old_tree == old(self).tree,
                old_tree is Some,
                tv == old_tree->0.deep_view(),
                0 <= lead(self.rule@) <= self.rule@.len(),
                forall|j: int| 0 <= j < lead(self.rule@) ==> skippable(#[trigger] self.rule@[j]),
                lead(self.rule@) < self.rule@.len() ==> !skippable(self.rule@[lead(self.rule@)]),
                i <= self.rule.len(),
                i <= lead(self.rule@),
                ret@.len() == i,
                forall|k: int|
                    #![trigger ret@[k]]
                    0 <= k < i ==> {
                        &&& ret@[k].rule@ == self.rule@.skip(k)
                        &&& ret@[k].voca_attrs@ == self.voca_attrs@
                        &&& ret@[k].tree is Some
                        &&& ret@[k].tree->0.deep_view() == tv
                        &&& ret@[k].reading == self.reading
                        &&& ret@[k].name == self.name
                        &&& ret@[k].alive
                    },
            decreases self.rule.len() - i,
        {
            let r = &self.rule[i];
            let rest = &self.rule[i..self.rule.len()];
            assert(rest@ == self.rule@.skip(i as int));
            if r.is_optional || r.is_free {
                let t = match &self.tree {
                    Some(t) => copy_node(t),
                    None => SyntaxTreeNode::new_category(""),
                };
                let mut p = Expectation::from(self.name, rest, t, self.reading);
                p.voca_attrs = self.copy_attrs();
                ret.push(p);
            } else {
                let t = self.take_tree();
                let mut p = Expectation::from(self.name, rest, t, self.reading);
                p.voca_attrs = self.copy_attrs();
                ret.push(p);
                return ret;
            }
            i = i + 1;
        }
        if self.rule[self.rule.len() - 1].is_optional {
            let t = self.take_tree();
            let empty = &self.rule[0..0];
            assert(empty@ == self.rule@.skip(i as int));
            ret.push(Expectation::from(self.name, empty, t, self.reading));
        }
        ret
    }
}

/// The ways a fresh match of `rule` starts: one expectation for each leading node
/// that may be skipped or repeated, starting at that node, and one starting at the
/// first node that must be matched; each with an empty category named `name`, at
/// position 0.
pub fn nexts<'p>(name: &'p str, rule: &'p [TemplateNode]) -> (r: Vec<Expectation<'p>>)
    ensures
        r@.len() == start_count(rule@),
        forall|k: int|
            #![trigger r@[k]]
            0 <= k < r@.len() ==> {
                &&& r@[k].rule@ == rule@.skip(k)
                &&& r@[k].voca_attrs@.len() == 0
                &&& r@[k].tree is Some
                &&& r@[k].tree->0.deep_view() == (TreeV::Category {
                    name: name@,
                    children: Seq::empty(),
                })
                &&& r@[k].reading == 0
                &&& r@[k].name@ == name@
                &&& r@[k].alive
            },
{
    proof {
        lemma_lead(rule@);
    }
    let mut ret: Vec<Expectation<'p>> = Vec::new();
    let mut i: usize = 0;
    while i < rule.len()
        invariant
            0 <= lead(rule@) <= rule@.len(),
            forall|j: int| 0 <= j < lead(rule@) ==> skippable(#[trigger] rule@[j]),
            lead(rule@) < rule@.len() ==> !skippable(rule@[lead(rule@)]),
            i <= rule.len(),
            i <= lead(rule@),
            ret@.len() == i,
            forall|k: int|
                #![trigger ret@[k]]
                0 <= k < i ==> {
                    &&& ret@[k].rule@ == rule@.skip(k)
                    &&& ret@[k].voca_attrs@.len() == 0
                    &&& ret@[k].tree is Some
                    &&& ret@[k].tree->0.deep_view() == (TreeV::Category {
                        name: name@,
                        children: Seq::empty(),
                    })
                    &&& ret@[k].reading == 0
                    &&& ret@[k].name@ == name@
                    &&& ret@[k].alive
                },
        decreases rule.len() - i,
    {
        let r = &rule[i];
        let rest = &rule[i..rule.len()];
        assert(rest@ == rule@.skip(i as int));
        let t = SyntaxTreeNode::new_category(name);
        ret.push(Expectation::from(name, rest, t, 0));
        if !(r.is_optional || r.is_free) {
            return ret;
        }
        i = i + 1;
    }
    ret
}

} // verus!
