//! Expectations of the first parser generation: partial matches of a rule,
//! which move on node by node and branch where a node may be left out.
use vstd::prelude::*;
use crate::lan::parse::syntree::TreeV;
use crate::lanparser::declaration::TemplateNode;
use super::ParsingRule;
use super::syntree::{SyntaxTreeNode, copy_node};

verus! {

/// A partial match of a rule: the attributes of the words matched so far, the
/// nodes still to match, the tree built so far, the position reached, the
/// rule's name, and whether the match is still going.
pub struct Expectation<'p> {
    pub voca_attrs: Vec<&'p Vec<String>>,
    pub rule: ParsingRule<'p>,
    pub tree: Option<SyntaxTreeNode>,
    pub reading: usize,
    pub name: &'p str,
    pub alive: bool,
}

/// The number of leading nodes that may be left out.
pub open spec fn lead(rule: Seq<TemplateNode>) -> int
    decreases rule.len(),
{
    if rule.len() == 0 || !rule[0].is_optional {
        0
    } else {
        1 + lead(rule.drop_first())
    }
}

proof fn lemma_lead(rule: Seq<TemplateNode>)
    ensures
        0 <= lead(rule) <= rule.len(),
        forall|j: int| 0 <= j < lead(rule) ==> (#[trigger] rule[j]).is_optional,
        lead(rule) < rule.len() ==> !rule[lead(rule)].is_optional,
    decreases rule.len(),
{
    if rule.len() > 0 && rule[0].is_optional {
        lemma_lead(rule.drop_first());
        assert forall|j: int| 0 <= j < lead(rule) implies (#[trigger] rule[j]).is_optional by {
            if j > 0 {
                assert(rule[j] == rule.drop_first()[j - 1]);
            }
        }
        if lead(rule) < rule.len() {
            assert(rule[lead(rule)] == rule.drop_first()[lead(rule) - 1]);
        }
    }
}

/// How many expectations a fresh match of a rule starts with: one for each
/// leading node that may be left out, and one for the first node that must be
/// matched, if there is one.
pub open spec fn start_count(rule: Seq<TemplateNode>) -> int {
    if lead(rule) < rule.len() {
        lead(rule) + 1
    } else {
        rule.len() as int
    }
}

/// How many continuations an expectation moves on to: as for a fresh match, and
/// one more that has finished when every node may be left out.
pub open spec fn next_count(rule: Seq<TemplateNode>) -> int {
    if lead(rule) < rule.len() {
        lead(rule) + 1
    } else {
        rule.len() + 1int
    }
}

impl<'p> Expectation<'p> {
    /// A fresh expectation of `rule`, with tree `tree`, at `reading`.
    pub fn from(name: &'p str, rule: ParsingRule<'p>, tree: SyntaxTreeNode, reading: usize) -> (r:
        Expectation<'p>)
        ensures
            r.voca_attrs@ == Seq::<&'p Vec<String>>::empty(),
            r.rule == rule,
            r.tree == Some(tree),
            r.reading == reading,
            r.name == name,
            r.alive,
    {
        Expectation { voca_attrs: Vec::new(), tree: Some(tree), alive: true, reading, rule, name }
    }

    /// Marks the expectation as failed.
    pub fn kill(&mut self)
        ensures
            *final(self) == (Expectation { alive: false, ..*old(self) }),
    {
        self.alive = false;
    }

    /// Moves past the first node.
    pub fn next_rule(&mut self)
        requires
            old(self).rule@.len() > 0,
        ensures
            *final(self) == (Expectation { rule: final(self).rule, ..*old(self) }),
            final(self).rule@ == old(self).rule@.drop_first(),
    {
        self.rule = &self.rule[1..self.rule.len()];
    }

    /// Hands out the tree built so far.
    pub fn take_tree(&mut self) -> (r: SyntaxTreeNode)
        requires
            old(self).tree is Some,
        ensures
            r == old(self).tree->0,
            *final(self) == (Expectation { tree: None, ..*old(self) }),
    {
        match self.tree.take() {
            Some(t) => t,
            None => SyntaxTreeNode::new_category(""),
        }
    }

    /// Moves the position forward by `amount`.
    pub fn read(&mut self, amount: usize)
        requires
            old(self).reading + amount <= usize::MAX,
        ensures
            *final(self) == (Expectation { reading: (old(self).reading + amount) as usize, ..*old(self) }),
    {
        self.reading = self.reading + amount;
    }

    /// Records the attributes of a matched dictionary word.
    pub fn register_attr(&mut self, attr: &'p Vec<String>)
        ensures
            final(self).voca_attrs@ == old(self).voca_attrs@.push(attr),
            *final(self) == (Expectation { voca_attrs: final(self).voca_attrs, ..*old(self) }),
    {
        self.voca_attrs.push(attr);
    }

    /// Adds a node to the tree built so far (a morpheme tree takes no children).
    pub fn push_category(&mut self, stn: SyntaxTreeNode)
        requires
            old(self).tree is Some,
        ensures
            final(self).tree is Some,
            match old(self).tree->0.deep_view() {
                TreeV::Category { name, children } => final(self).tree->0.deep_view() == (
                TreeV::Category { name, children: children.push(stn.deep_view()) }),
                TreeV::Vocab { .. } => final(self).tree == old(self).tree,
            },
            *final(self) == (Expectation { tree: final(self).tree, ..*old(self) }),
    {
        match self.tree.as_mut() {
            Some(t) => {
                t.push_category(stn);
            },
            None => {},
        }
    }

    fn copy_attrs(&self) -> (r: Vec<&'p Vec<String>>)
        ensures
            r@ == self.voca_attrs@,
    {
        let mut r: Vec<&'p Vec<String>> = Vec::new();
        let mut i: usize = 0;
        while i < self.voca_attrs.len()
            invariant
                i <= self.voca_attrs.len(),
                r@ == self.voca_attrs@.take(i as int),
            decreases self.voca_attrs.len() - i,
        {
            r.push(self.voca_attrs[i]);
            assert(self.voca_attrs@.take(i + 1) == self.voca_attrs@.take(i as int).push(
                self.voca_attrs@[i as int],
            ));
            i = i + 1;
        }
        assert(self.voca_attrs@.take(i as int) == self.voca_attrs@);
        r
    }

    /// The ways the match can go on: one continuation for each leading node that
    /// may be left out, starting at that node, and one starting at the first node
    /// that must be matched; when every node may be left out, one more that has
    /// finished. Each has a copy of the tree and keeps the name and position; all
    /// but the finished one keep the attributes. An expectation with nothing left
    /// to match goes on as a copy of itself.
    pub fn nexts(&self) -> (r: Vec<Expectation<'p>>)
        requires
            self.rule@.len() > 0 ==> self.tree is Some,
        ensures
            self.rule@.len() == 0 ==> {
                &&& r@.len() == 1
                &&& r@[0].voca_attrs@ == self.voca_attrs@
                &&& r@[0].rule == self.rule
                &&& r@[0].tree.deep_view() == self.tree.deep_view()
                &&& r@[0].reading == self.reading
                &&& r@[0].name == self.name
                &&& r@[0].alive == self.alive
            },
            self.rule@.len() > 0 ==> {
                &&& r@.len() == next_count(self.rule@)
                &&& forall|k: int|
                    #![trigger r@[k]]
                    0 <= k < r@.len() ==> {
                        &&& r@[k].rule@ == self.rule@.skip(k)
                        &&& r@[k].voca_attrs@ == if k == self.rule@.len() {
                            Seq::empty()
                        } else {
                            self.voca_attrs@
                        }
                        &&& r@[k].tree is Some
                        &&& r@[k].tree->0.deep_view() == self.tree->0.deep_view()
                        &&& r@[k].reading == self.reading
                        &&& r@[k].name == self.name
                        &&& r@[k].alive
                    }
            },
    {
        if self.rule.len() == 0 {
            let c = Expectation {
                voca_attrs: self.copy_attrs(),
                rule: self.rule,
                tree: match &self.tree {
                    Some(t) => Some(copy_node(t)),
                    None => None,
                },
                reading: self.reading,
                name: self.name,
                alive: self.alive,
            };
            return vec![c];
        }
        proof {
            lemma_lead(self.rule@);
        }
        let ghost tv = self.tree->0.deep_view();
        let mut ret: Vec<Expectation<'p>> = Vec::new();
        let mut i: usize = 0;
        while i < self.rule.len()
            invariant
                self.tree is Some,
                tv == self.tree->0.deep_view(),
                0 <= lead(self.rule@) <= self.rule@.len(),
                forall|j: int| 0 <= j < lead(self.rule@) ==> (#[trigger] self.rule@[j]).is_optional,
                lead(self.rule@) < self.rule@.len() ==> !self.rule@[lead(self.rule@)].is_optional,
                i <= self.rule.len(),
                i <= lead(self.rule@),
                ret@.len() == i,
                forall|k: int|
                    #![trigger ret@[k]]
                    0 <= k < i ==> {
                        &&& ret@[k].rule@ == self.rule@.skip(k)
                        &&& ret@[k].voca_attrs@ == self.voca_attrs@
                        &&& ret@[k].tree is Some
                        &&& ret@[k].tree->0.deep_view() == tv
                        &&& ret@[k].reading == self.reading
                        &&& ret@[k].name == self.name
                        &&& ret@[k].alive
                    },
            decreases self.rule.len() - i,
        {
            let rest = &self.rule[i..self.rule.len()];
            assert(rest@ == self.rule@.skip(i as int));
            let t = match &self.tree {
                Some(t) => copy_node(t),
                None => SyntaxTreeNode::new_category(""),
            };
            let mut p = Expectation::from(self.name, rest, t, self.reading);
            p.voca_attrs = self.copy_attrs();
            ret.push(p);
            if !self.rule[i].is_optional {
                return ret;
            }
            i = i + 1;
        }
        let t = match &self.tree {
            Some(t) => copy_node(t),
            None => SyntaxTreeNode::new_category(""),
        };
        let empty = &self.rule[0..0];
        assert(empty@ == self.rule@.skip(i as int));
        ret.push(Expectation::from(self.name, empty, t, self.reading));
        ret
    }
}

/// The ways a fresh match of `rule` starts: one expectation for each leading node
/// that may be left out, starting at that node, and one starting at the first
/// node that must be matched; each with an empty category named `name`, at
/// position 0.
pub fn nexts<'p>(name: &'p str, rule: ParsingRule<'p>) -> (r: Vec<Expectation<'p>>)
    ensures
        r@.len() == start_count(rule@),
        forall|k: int|
            #![trigger r@[k]]
            0 <= k < r@.len() ==> {
                &&& r@[k].rule@ == rule@.skip(k)
                &&& r@[k].voca_attrs@.len() == 0
                &&& r@[k].tree is Some
                &&& r@[k].tree->0.deep_view() == (TreeV::Category {
                    name: name@,
                    children: Seq::empty(),
                })
                &&& r@[k].reading == 0
                &&& r@[k].name == name
                &&& r@[k].alive
            },
{
    proof {
        lemma_lead(rule@);
    }
    let mut ret: Vec<Expectation<'p>> = Vec::new();
    let mut i: usize = 0;
    while i < rule.len()
        invariant
            0 <= lead(rule@) <= rule@.len(),
            forall|j: int| 0 <= j < lead(rule@) ==> (#[trigger] rule@[j]).is_optional,
            lead(rule@) < rule@.len() ==> !rule@[lead(rule@)].is_optional,
            i <= rule.len(),
            i <= lead(rule@),
            ret@.len() == i,
            forall|k: int|
                #![trigger ret@[k]]
                0 <= k < i ==> {
                    &&& ret@[k].rule@ == rule@.skip(k)
                    &&& ret@[k].voca_attrs@.len() == 0
                    &&& ret@[k].tree is Some
                    &&& ret@[k].tree->0.deep_view() == (TreeV::Category {
                        name: name@,
                        children: Seq::empty(),
                    })
                    &&& ret@[k].reading == 0
                    &&& ret@[k].name == name
                    &&& ret@[k].alive
                },
        decreases rule.len() - i,
    {
        let rest = &rule[i..rule.len()];
        assert(rest@ == rule@.skip(i as int));
        let t = SyntaxTreeNode::new_category(name);
        ret.push(Expectation::from(name, rest, t, 0));
        if !rule[i].is_optional {
            return ret;
        }
        i = i + 1;
    }
    ret
}

} // verus!
