//! A tree of category names, grown one path at a time.

use vstd::prelude::*;

verus! {

/// A node of the category tree: a name, the id of the category that ends
/// here, if one does, and the nodes below, each under a name of its own.
#[derive(Debug)]
pub struct CategoryNode {
    name: String,
    children: Vec<CategoryNode>,
    id: Option<usize>,
}

/// What a node says: its name, its id and the nodes below it, in the order
/// in which they were added.
pub struct Tree {
    pub name: Seq<char>,
    pub id: Option<usize>,
    pub children: Seq<Tree>,
}

/// The first id, or the second where there is no first.
pub open spec fn or_else(first: Option<usize>, second: Option<usize>) -> Option<usize> {
    if first is Some {
        first
    } else {
        second
    }
}

/// The place of the child called `name`, or the number of children where
/// none is called so.
pub open spec fn place_of(children: Seq<Tree>, name: Seq<char>) -> int
    decreases children.len(),
{
    if children.len() == 0 {
        0
    } else if children[0].name == name {
        0
    } else {
        1 + place_of(children.drop_first(), name)
    }
}

impl Tree {
    /// The tree with `path` added below it. An empty path, or one that
    /// begins with an empty name, adds nothing. Else the child called by
    /// the first name is found, or added behind all others, and the rest of
    /// the path is added below that child. `id` goes to the node where the
    /// path ends, which is where the names run out or the next name is
    /// empty; a node that has an id keeps it.
    pub open spec fn appended(self, id: Option<usize>, path: Seq<Seq<char>>) -> Tree
        decreases path.len(),
    {
        if path.len() == 0 || path[0].len() == 0 {
            self
        } else {
            let here = if path.len() == 1 || path[1].len() == 0 {
                id
            } else {
                None
            };
            let at = place_of(self.children, path[0]);
            let child = if at < self.children.len() {
                Tree { id: or_else(self.children[at].id, here), ..self.children[at] }
            } else {
                Tree { name: path[0], id: here, children: Seq::empty() }
            };
            let grown = child.appended(id, path.drop_first());
            let children = if at < self.children.len() {
                self.children.update(at, grown)
            } else {
                self.children.push(grown)
            };
            Tree { children, ..self }
        }
    }
}

/// No two of the trees share a name.
pub open spec fn distinct_names(trees: Seq<Tree>) -> bool {
    forall|i: int, j: int| 0 <= i < j < trees.len() ==> (#[trigger] trees[i]).name != (#[trigger] trees[j]).name
}

impl CategoryNode {
    /// No two nodes below one node share a name.
    #[verifier::type_invariant]
    spec fn unique(&self) -> bool {
        forall|i: int, j: int|
            0 <= i < j < self.children@.len() ==> (#[trigger] self.children@[i]).name@ != (
            #[trigger] self.children@[j]).name@
    }

    /// What the node says.
    pub closed spec fn view(&self) -> Tree
        decreases self,
    {
        Tree {
            name: self.name@,
            id: self.id,
            children: Seq::new(
                self.children@.len(),
                |i: int|
                    if 0 <= i < self.children@.len() {
                        self.children@[i].view()
                    } else {
                        arbitrary()
                    },
            ),
        }
    }

    /// The string that holds the node's name.
    pub closed spec fn label(&self) -> String {
        self.name
    }

    /// A node without children, named by what `name` converts into.
    pub fn new<S>(id: Option<usize>, name: S) -> (node: CategoryNode) where S: Into<String>
        ensures
            call_ensures(S::into, (name,), node.label()),
            node@ == (Tree { name: node.label()@, id, children: Seq::empty() }),
    {
        CategoryNode::named(id, name.into())
    }

    /// A node without children, with the given name.
    pub fn named(id: Option<usize>, name: String) -> (node: CategoryNode)
        ensures
            node@ == (Tree { name: name@, id, children: Seq::empty() }),
            node.label() == name,
    {
        let node = CategoryNode { id, name, children: Vec::new() };
        assert(node@.children =~= Seq::<Tree>::empty());
        node
    }

    /// A copy of the node with everything below it.
    pub fn duplicate(&self) -> (copy: CategoryNode)
        ensures
            copy@ == self@,
        decreases self,
    {
        proof {
            use_type_invariant(self);
            self.lemma_view();
        }
        let mut children: Vec<CategoryNode> = Vec::new();
        let mut i: usize = 0;
        while i < self.children.len()
            invariant
                i <= self.children@.len(),
                children@.len() == i,
                forall|j: int| 0 <= j < i ==> (#[trigger] children@[j])@ == self.children@[j]@,
            decreases self.children@.len() - i,
        {
            let child = self.children[i].duplicate();
            children.push(child);
            i = i + 1;
        }
        proof {
            assert forall|a: int, b: int| 0 <= a < b < children@.len() implies (#[trigger] children@[a]).name@ != (
            #[trigger] children@[b]).name@ by {
                children@[a].lemma_view();
                children@[b].lemma_view();
                self.children@[a].lemma_view();
                self.children@[b].lemma_view();
            }
        }
        let copy = CategoryNode { name: self.name.clone(), children, id: self.id };
        proof {
            copy.lemma_view();
            assert(copy@.children =~= self@.children);
        }
        copy
    }

    /// The node's name.
    pub fn name(&self) -> (name: &String)
        ensures
            name@ == self@.name,
    {
        &self.name
    }

    /// The id of the category that ends at this node.
    pub fn id(&self) -> (id: Option<usize>)
        ensures
            id == self@.id,
    {
        self.id
    }

    /// The nodes below this one, in the order in which they were added.
    pub fn children(&self) -> (children: &Vec<CategoryNode>)
        ensures
            children@.len() == self@.children.len(),
            forall|i: int| 0 <= i < children@.len() ==> (#[trigger] children@[i])@ == self@.children[i],
            distinct_names(self@.children),
    {
        proof {
            use_type_invariant(self);
            self.lemma_view();
            assert forall|i: int, j: int| 0 <= i < j < self@.children.len() implies (
            #[trigger] self@.children[i]).name != (#[trigger] self@.children[j]).name by {
                self.children@[i].lemma_view();
                self.children@[j].lemma_view();
            }
        }
        &self.children
    }

    /// The view, spelled out one level deep.
    proof fn lemma_view(&self)
        ensures
            self@.name == self.name@,
            self@.id == self.id,
            self@.children.len() == self.children@.len(),
            forall|i: int| 0 <= i < self.children@.len() ==> self@.children[i] == (#[trigger] self.children@[i])@,
    {
    }

    /// The place of the child called `name`, or the number of children
    /// where none is called so.
    fn find(&self, name: &String) -> (at: usize)
        ensures
            at == place_of(self@.children, name@),
            at <= self.children@.len(),
            at < self.children@.len() ==> self.children@[at as int].name@ == name@,
            forall|j: int| 0 <= j < at ==> (#[trigger] self.children@[j]).name@ != name@,
    {
        let ghost below = self@.children;
        let mut at: usize = 0;
        proof {
            self.lemma_view();
            assert(below.skip(0) =~= below);
        }
        while at < self.children.len()
            invariant
                at <= self.children@.len(),
                below == self@.children,
                below.len() == self.children@.len(),
                place_of(below, name@) == at + place_of(below.skip(at as int), name@),
                forall|j: int| 0 <= j < at ==> (#[trigger] self.children@[j]).name@ != name@,
            decreases self.children.len() - at,
        {
            proof {
                let rest = below.skip(at as int);
                assert(rest[0] == below[at as int]);
                assert(rest.drop_first() =~= below.skip(at + 1));
                self.lemma_view();
                self.children@[at as int].lemma_view();
            }
            if self.children[at].name == *name {
                return at;
            }
            at = at + 1;
        }
        assert(below.skip(at as int).len() == 0);
        at
    }

    /// Adds a path of names below this node, and gives `id` to the node
    /// where the path ends.
    pub fn append(&mut self, id: Option<usize>, path: Vec<String>)
        ensures
            final(self)@ == old(self)@.appended(id, path@.map_values(|name: String| name@)),
        decreases path@.len(),
    {
        let ghost names = path@.map_values(|name: String| name@);
        if path.len() == 0 || path[0].as_str().is_empty() {
            return ;
        }
        let here: Option<usize> = if path.len() == 1 || path[1].as_str().is_empty() {
            id
        } else {
            None
        };
        let mut path = path;
        let rest = path.split_off(1);
        let first = path.remove(0);
        let ghost before = old(self)@;
        let at = self.find(&first);
        proof {
            use_type_invariant(&*self);
            self.lemma_view();
            assert(first@ == names[0]);
            assert(rest@.map_values(|name: String| name@) =~= names.drop_first());
        }
        let mut children: Vec<CategoryNode> = Vec::new();
        core::mem::swap(&mut self.children, &mut children);
        let ghost start = children@;
        if at < children.len() {
            let found = &children[at];
            proof {
                found.lemma_view();
                use_type_invariant(found);
            }
            if children[at].id.is_none() {
                children[at].id = here;
            }
            proof {
                children@[at as int].lemma_view();
                assert(children@[at as int]@.children =~= before.children[at as int].children);
            }
        } else {
            let fresh = CategoryNode { id: here, name: first, children: Vec::new() };
            proof {
                fresh.lemma_view();
                assert(fresh@.children =~= Seq::<Tree>::empty());
            }
            children.push(fresh);
        }
        let ghost child = children@[at as int]@;
        let ghost others = children@;
        proof {
            children@[at as int].lemma_view();
        }
        children[at].append(id, rest);
        proof {
            children@[at as int].lemma_view();
            assert forall|i: int| 0 <= i < children@.len() && i != at implies children@[i] == others[i] by {}
            assert forall|i: int, j: int| 0 <= i < j < children@.len() implies (#[trigger] children@[i]).name@ != (
            #[trigger] children@[j]).name@ by {
                if i < start.len() && j < start.len() {
                    assert(start[i].name@ != start[j].name@);
                }
            }
        }
        core::mem::swap(&mut self.children, &mut children);
        proof {
            self.lemma_view();
            let grown = child.appended(id, names.drop_first());
            assert(self.children@[at as int]@ == grown);
            if at < before.children.len() {
                assert(self@.children =~= before.children.update(at as int, grown));
            } else {
                assert(self@.children =~= before.children.push(grown));
            }
        }
    }
}

/// A copy of a node is a second tree that says the same.
impl Clone for CategoryNode {
    fn clone(&self) -> (copy: Self)
        ensures
            copy@ == self@,
    {
        self.duplicate()
    }
}

} // verus!
