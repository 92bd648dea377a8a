use crate::error::RuleError;
use crate::hir::{Body, Expr, Item, Node};
use crate::span::Span;
use vstd::prelude::*;

verus! {

/// What the search for the changed code has come to.
#[derive(Copy, Clone)]
pub enum Candidate<'a> {
    NotFound,
    /// An expression, the body it is in, and the item that is in.
    Expr(&'a Expr, usize, &'a Item),
}

/// What is found once `nodes` were searched for the innermost expression around the span
/// `changed`, within `item` and `body` and after `before` was found. Expressions that a macro made
/// are not candidates, but what is within them can be.
pub open spec fn found_in<'a>(
    nodes: Seq<Node>,
    changed: Span,
    item: Option<&'a Item>,
    body: Option<usize>,
    before: Candidate<'a>,
) -> Result<Candidate<'a>, RuleError>
    decreases nodes,
{
    if nodes.len() == 0 {
        Ok(before)
    } else {
        match found_in(nodes.drop_last(), changed, item, body, before) {
            Err(e) => Err(e),
            Ok(so_far) => found_at(nodes.last(), changed, item, body, so_far),
        }
    }
}

pub open spec fn found_at<'a>(
    node: Node,
    changed: Span,
    item: Option<&'a Item>,
    body: Option<usize>,
    before: Candidate<'a>,
) -> Result<Candidate<'a>, RuleError>
    decreases node,
{
    match node {
        Node::Item(inner) => found_in(inner.children@, changed, Some(&inner), body, before),
        Node::Body(inner) => found_in(inner.children@, changed, item, Some(inner.id), before),
        Node::Path(path) => found_in(path.children@, changed, item, body, before),
        Node::Expr(expr) => if expr.span.is_expanded() {
            found_in(expr.children@, changed, item, body, before)
        } else if expr.span.covers(changed) {
            match (body, item) {
                (Some(body_id), Some(owner)) => found_in(
                    expr.children@,
                    changed,
                    item,
                    body,
                    Candidate::Expr(&expr, body_id, owner),
                ),
                _ => Err(RuleError::OutsideBody),
            }
        } else {
            Ok(before)
        },
    }
}

proof fn lemma_found_error<'a>(
    nodes: Seq<Node>,
    part: Seq<Node>,
    changed: Span,
    item: Option<&'a Item>,
    body: Option<usize>,
    before: Candidate<'a>,
)
    requires
        part.len() <= nodes.len(),
        part == nodes.take(part.len() as int),
        found_in(part, changed, item, body, before) is Err,
    ensures
        found_in(nodes, changed, item, body, before) == found_in(
            part,
            changed,
            item,
            body,
            before,
        ),
    decreases nodes.len(),
{
    if part.len() < nodes.len() {
        assert(nodes.drop_last().take(part.len() as int) =~= part);
        lemma_found_error(nodes.drop_last(), part, changed, item, body, before);
    } else {
        assert(part =~= nodes);
    }
}

/// Looks for the innermost expression around the changed code.
pub struct RuleFinder<'a> {
    pub changed_span: Span,
    pub candidate: Candidate<'a>,
    pub body_id: Option<usize>,
    pub current_item: Option<&'a Item>,
}

impl<'a> RuleFinder<'a> {
    pub fn new(changed_span: Span) -> (r: RuleFinder<'a>)
        ensures
            r.changed_span == changed_span,
            r.candidate == Candidate::NotFound::<'a>,
            r.body_id == None::<usize>,
            r.current_item == None::<&'a Item>,
    {
        RuleFinder {
            changed_span,
            candidate: Candidate::NotFound,
            body_id: None,
            current_item: None,
        }
    }

    /// Whether the finder went from `before` to `self` with the result `due`.
    pub open spec fn went(
        self,
        before: RuleFinder<'a>,
        r: Result<(), RuleError>,
        due: Result<Candidate<'a>, RuleError>,
    ) -> bool {
        &&& self.changed_span == before.changed_span
        &&& match due {
            Ok(candidate) => {
                &&& r is Ok
                &&& self.candidate == candidate
                &&& self.body_id == before.body_id
                &&& self.current_item == before.current_item
            },
            Err(e) => r is Err && r->Err_0 == e,
        }
    }

    /// Searches the parts of a crate or of a node of it.
    pub fn visit_nodes(&mut self, nodes: &'a Vec<Node>) -> (r: Result<(), RuleError>)
        ensures
            final(self).went(
                *old(self),
                r,
                found_in(
                    nodes@,
                    old(self).changed_span,
                    old(self).current_item,
                    old(self).body_id,
                    old(self).candidate,
                ),
            ),
        decreases nodes, 0nat,
    {
        let ghost before = *self;
        let mut i: usize = 0;
        assert(nodes@.take(0) =~= Seq::empty());
        while i < nodes.len()
            invariant
                i <= nodes.len(),
                before == *old(self),
                self.changed_span == before.changed_span,
                self.body_id == before.body_id,
                self.current_item == before.current_item,
                found_in(
                    nodes@.take(i as int),
                    before.changed_span,
                    before.current_item,
                    before.body_id,
                    before.candidate,
                ) == Ok::<Candidate<'a>, RuleError>(self.candidate),
            decreases nodes.len() - i,
        {
            assert(nodes@.take(i + 1).drop_last() =~= nodes@.take(i as int));
            let ghost prev = *self;
            let r = match &nodes[i] {
                Node::Item(item) => self.visit_item(item),
                Node::Body(body) => self.visit_body(body),
                Node::Path(path) => self.visit_nodes(&path.children),
                Node::Expr(expr) => self.visit_expr(expr),
            };
            assert(self.went(
                prev,
                r,
                found_at(
                    nodes@[i as int],
                    prev.changed_span,
                    prev.current_item,
                    prev.body_id,
                    prev.candidate,
                ),
            ));
            assert(nodes@.take(i + 1).last() == nodes@[i as int]);
            match r {
                Err(e) => {
                    proof {
                        lemma_found_error(
                            nodes@,
                            nodes@.take(i + 1),
                            before.changed_span,
                            before.current_item,
                            before.body_id,
                            before.candidate,
                        );
                    }
                    return Err(e);
                },
                Ok(_) => {},
            }
            i = i + 1;
        }
        assert(nodes@.take(i as int) =~= nodes@);
        Ok(())
    }

    pub fn visit_item(&mut self, item: &'a Item) -> (r: Result<(), RuleError>)
        ensures
            final(self).went(
                *old(self),
                r,
                found_at(
                    Node::Item(*item),
                    old(self).changed_span,
                    old(self).current_item,
                    old(self).body_id,
                    old(self).candidate,
                ),
            ),
        decreases item, 1nat,
    {
        let old_item = self.current_item;
        self.current_item = Some(item);
        let r = self.visit_nodes(&item.children);
        self.current_item = old_item;
        r
    }

    pub fn visit_body(&mut self, body: &'a Body) -> (r: Result<(), RuleError>)
        ensures
            final(self).went(
                *old(self),
                r,
                found_at(
                    Node::Body(*body),
                    old(self).changed_span,
                    old(self).current_item,
                    old(self).body_id,
                    old(self).candidate,
                ),
            ),
        decreases body, 1nat,
    {
        let old_body_id = self.body_id;
        self.body_id = Some(body.id);
        let r = self.visit_nodes(&body.children);
        self.body_id = old_body_id;
        r
    }

    pub fn visit_expr(&mut self, expr: &'a Expr) -> (r: Result<(), RuleError>)
        ensures
            final(self).went(
                *old(self),
                r,
                found_at(
                    Node::Expr(*expr),
                    old(self).changed_span,
                    old(self).current_item,
                    old(self).body_id,
                    old(self).candidate,
                ),
            ),
        decreases expr, 1nat,
    {
        if expr.span.from_expansion() {
            self.visit_nodes(&expr.children)
        } else if expr.span.contains(&self.changed_span) {
            match (self.body_id, self.current_item) {
                (Some(body_id), Some(item)) => {
                    self.candidate = Candidate::Expr(expr, body_id, item);
                    self.visit_nodes(&expr.children)
                },
                _ => Err(RuleError::OutsideBody),
            }
        } else {
            Ok(())
        }
    }
}

} // verus!
