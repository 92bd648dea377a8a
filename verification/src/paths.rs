use crate::hir::{Def, Expr, Node, Path};
use crate::text::texts;
use vstd::prelude::*;
use vstd::string::*;

verus! {

impl Def {
    /// Whether a rule can import what the path leads to.
    pub open spec fn importable(self) -> bool {
        self != Def::Other
    }

    /// Whether a rule can import what the path leads to.
    pub fn is_importable(&self) -> (r: bool)
        ensures
            r == self.importable(),
    {
        match self {
            Def::Mod
            | Def::Struct
            | Def::Union
            | Def::Enum
            | Def::Variant
            | Def::Trait
            | Def::TyAlias
            | Def::TyForeign
            | Def::Fn
            | Def::Const
            | Def::Static
            | Def::StructCtor
            | Def::VariantCtor => true,
            Def::Other => false,
        }
    }
}

/// Each of the names behind `::`.
pub open spec fn qualified(names: Seq<Seq<char>>) -> Seq<char>
    decreases names.len(),
{
    if names.len() == 0 {
        Seq::empty()
    } else {
        qualified(names.drop_last()) + "::"@ + names.last()
    }
}

/// The importable paths in `nodes` and in what is within them, as an import writes them. What
/// stands in the generic arguments of a path does not count.
pub open spec fn referenced_in(nodes: Seq<Node>) -> Set<Seq<char>>
    decreases nodes,
{
    if nodes.len() == 0 {
        Set::empty()
    } else {
        referenced_in(nodes.drop_last()).union(referenced_at(nodes.last()))
    }
}

pub open spec fn referenced_at(node: Node) -> Set<Seq<char>>
    decreases node,
{
    match node {
        Node::Item(item) => referenced_in(item.children@),
        Node::Body(body) => referenced_in(body.children@),
        Node::Expr(expr) => referenced_in(expr.children@),
        Node::Path(path) => if path.def.importable() {
            set![qualified(texts(path.components@))]
        } else {
            Set::empty()
        },
    }
}

/// Finds the paths that a rule has to import.
pub struct ReferencedPathsFinder {
    /// The paths that were found, each once.
    pub result: Vec<String>,
}

impl ReferencedPathsFinder {
    /// The paths that were found.
    pub open spec fn paths(self) -> Set<Seq<char>> {
        texts(self.result@).to_set()
    }

    /// No path is there twice.
    pub open spec fn wf(self) -> bool {
        texts(self.result@).no_duplicates()
    }

    /// The paths that a rule about `expr` has to import, each once.
    pub fn paths_in_expr(expr: &Expr) -> (r: Vec<String>)
        ensures
            texts(r@).no_duplicates(),
            texts(r@).to_set() == referenced_in(expr.children@),
    {
        let mut finder = ReferencedPathsFinder { result: Vec::new() };
        assert(finder.paths() =~= Set::empty());
        finder.visit_nodes(&expr.children);
        assert(finder.paths() =~= referenced_in(expr.children@));
        finder.result
    }

    fn visit_nodes(&mut self, nodes: &Vec<Node>)
        requires
            old(self).wf(),
        ensures
            final(self).wf(),
            final(self).paths() == old(self).paths().union(referenced_in(nodes@)),
        decreases nodes,
    {
        let mut i: usize = 0;
        assert(nodes@.take(0) =~= Seq::empty());
        assert(self.paths() =~= old(self).paths().union(Set::empty()));
        while i < nodes.len()
            invariant
                i <= nodes.len(),
                self.wf(),
                self.paths() == old(self).paths().union(referenced_in(nodes@.take(i as int))),
            decreases nodes.len() - i,
        {
            let ghost before = self.paths();
            match &nodes[i] {
                Node::Item(item) => self.visit_nodes(&item.children),
                Node::Body(body) => self.visit_nodes(&body.children),
                Node::Expr(expr) => self.visit_nodes(&expr.children),
                Node::Path(path) => self.visit_path(path),
            }
            proof {
                assert(self.paths() =~= before.union(referenced_at(nodes@[i as int])));
                assert(nodes@.take(i + 1).drop_last() =~= nodes@.take(i as int));
                assert(self.paths() =~= old(self).paths().union(
                    referenced_in(nodes@.take(i + 1)),
                ));
            }
            i = i + 1;
        }
        assert(nodes@.take(i as int) =~= nodes@);
    }

    fn visit_path(&mut self, path: &Path)
        requires
            old(self).wf(),
        ensures
            final(self).wf(),
            final(self).paths() == old(self).paths().union(referenced_at(Node::Path(*path))),
    {
        if path.def.is_importable() {
            let mut qualified_path = String::new();
            let ghost names = texts(path.components@);
            assert(names.take(0) =~= Seq::empty());
            let mut i: usize = 0;
            while i < path.components.len()
                invariant
                    i <= path.components.len(),
                    names == texts(path.components@),
                    qualified_path@ == qualified(names.take(i as int)),
                decreases path.components.len() - i,
            {
                assert(names.take(i + 1).drop_last() =~= names.take(i as int));
                qualified_path.append("::");
                qualified_path.append(path.components[i].as_str());
                i = i + 1;
            }
            assert(names.take(i as int) =~= names);
            self.insert(qualified_path);
        }
        assert(self.paths() =~= old(self).paths().union(referenced_at(Node::Path(*path))));
    }

    fn insert(&mut self, path: String)
        requires
            old(self).wf(),
        ensures
            final(self).wf(),
            final(self).paths() == old(self).paths().insert(path@),
    {
        let ghost before = texts(self.result@);
        let mut i: usize = 0;
        while i < self.result.len()
            invariant
                i <= self.result.len(),
                *self == *old(self),
                self.wf(),
                before == texts(self.result@),
                forall|j: int| 0 <= j < i ==> #[trigger] before[j] != path@,
            decreases self.result.len() - i,
        {
            assert(before[i as int] == self.result@[i as int]@);
            if self.result[i] == path {
                proof {
                    assert(before.to_set().contains(before[i as int]));
                    assert(before.to_set().insert(path@) =~= before.to_set());
                }
                return;
            }
            i = i + 1;
        }
        let ghost text = path@;
        self.result.push(path);
        proof {
            let after = texts(self.result@);
            assert(after =~= before.push(text));
            before.lemma_push_to_set_commute(text);
        }
    }
}

} // verus!
