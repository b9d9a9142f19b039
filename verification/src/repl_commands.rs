//! The command language of the interactive front end: commands form a
//! rooted tree whose edges are keywords or argument placeholders, and a
//! line of input is dispatched by walking the tree token by token.

use vstd::prelude::*;

use crate::lang::is_prefix_of;

verus! {

/// One edge of the command tree: a literal keyword, or a placeholder for a
/// file name or a variable name.
pub enum Edge {
    Keyword(String),
    Filename,
    Variable,
}

/// What a completed command asks the front end to do.  The front end
/// performs the input and output; the tree only decides which action a
/// line names.
#[derive(Clone, Copy, PartialEq, Eq, Structural, Debug)]
pub enum Action {
    Help,
    Quit,
    Store,
    LoadProgram,
    LoadRelation,
    LoadMatrix,
    SaveRelation,
    SaveMatrix,
}

/// A node of the command tree: its outgoing edges in match order, and the
/// action of the command ending here, if this node completes one.
pub struct Node {
    pub edges: Vec<(Edge, Node)>,
    pub func: Option<Action>,
}

/// Whether a token takes an edge: a keyword matches any prefix of itself,
/// and the placeholders match every token.
pub open spec fn edge_matches(e: Edge, arg: Seq<char>) -> bool {
    match e {
        Edge::Keyword(k) => is_prefix_of(arg, k@),
        Edge::Filename => true,
        Edge::Variable => true,
    }
}

/// The first edge from `j` on that the token takes, if any.
pub open spec fn first_match(edges: Seq<(Edge, Node)>, arg: Seq<char>, j: int) -> Option<Node>
    decreases edges.len() - j,
{
    if 0 <= j < edges.len() {
        if edge_matches(edges[j].0, arg) {
            Some(edges[j].1)
        } else {
            first_match(edges, arg, j + 1)
        }
    } else {
        None
    }
}

/// The node reached by walking the tokens from `i` on, taking at each
/// step the first edge the token matches.
pub open spec fn spec_traverse(n: Node, args: Seq<Seq<char>>, i: int) -> Option<Node>
    decreases args.len() - i,
{
    if 0 <= i < args.len() {
        match first_match(n.edges@, args[i], 0) {
            Some(n2) => spec_traverse(n2, args, i + 1),
            None => None,
        }
    } else {
        Some(n)
    }
}

/// Edges before `j` that the token does not take leave the search
/// unchanged.
proof fn lemma_first_match_skip(edges: Seq<(Edge, Node)>, arg: Seq<char>, lo: int, hi: int)
    requires
        0 <= lo <= hi <= edges.len(),
        forall|j: int| lo <= j < hi ==> !edge_matches((#[trigger] edges[j]).0, arg),
    ensures
        first_match(edges, arg, lo) == first_match(edges, arg, hi),
    decreases hi - lo,
{
    if lo < hi {
        lemma_first_match_skip(edges, arg, lo + 1, hi);
    }
}

impl Node {
    /// A leaf that completes no command.
    fn leaf() -> (r: Node)
        ensures
            r.edges@.len() == 0,
            r.func is None,
    {
        Node { edges: Vec::new(), func: None }
    }

    /// A leaf that completes the given command.
    fn act(a: Action) -> (r: Node)
        ensures
            r.edges@.len() == 0,
            r.func == Some(a),
    {
        Node { edges: Vec::new(), func: Some(a) }
    }

    /// The whole command tree: dotted keywords at the root in ascending
    /// order, with their subcommands and argument placeholders below.
    pub fn root() -> Node {
        let mut load_edges: Vec<(Edge, Node)> = Vec::new();
        let mut mat_arg: Vec<(Edge, Node)> = Vec::new();
        mat_arg.push((Edge::Filename, Node::act(Action::LoadMatrix)));
        let mut mat_var: Vec<(Edge, Node)> = Vec::new();
        mat_var.push((Edge::Variable, Node { edges: mat_arg, func: None }));
        load_edges.push((Edge::Keyword("mat".to_owned()), Node { edges: mat_var, func: None }));
        let mut prog_arg: Vec<(Edge, Node)> = Vec::new();
        prog_arg.push((Edge::Filename, Node::act(Action::LoadProgram)));
        load_edges.push((Edge::Keyword("prog".to_owned()), Node { edges: prog_arg, func: None }));
        let mut rel_arg: Vec<(Edge, Node)> = Vec::new();
        rel_arg.push((Edge::Filename, Node::act(Action::LoadRelation)));
        let mut rel_var: Vec<(Edge, Node)> = Vec::new();
        rel_var.push((Edge::Variable, Node { edges: rel_arg, func: None }));
        load_edges.push((Edge::Keyword("rel".to_owned()), Node { edges: rel_var, func: None }));
        let load = Node { edges: load_edges, func: None };

        let mut save_edges: Vec<(Edge, Node)> = Vec::new();
        let mut smat_file: Vec<(Edge, Node)> = Vec::new();
        smat_file.push((Edge::Filename, Node::act(Action::SaveMatrix)));
        let mut smat_var: Vec<(Edge, Node)> = Vec::new();
        smat_var.push((Edge::Variable, Node { edges: smat_file, func: None }));
        save_edges.push((Edge::Keyword("mat".to_owned()), Node { edges: smat_var, func: None }));
        let mut srel_file: Vec<(Edge, Node)> = Vec::new();
        srel_file.push((Edge::Filename, Node::act(Action::SaveRelation)));
        let mut srel_var: Vec<(Edge, Node)> = Vec::new();
        srel_var.push((Edge::Variable, Node { edges: srel_file, func: None }));
        save_edges.push((Edge::Keyword("rel".to_owned()), Node { edges: srel_var, func: None }));
        let save = Node { edges: save_edges, func: None };

        let mut store_var: Vec<(Edge, Node)> = Vec::new();
        store_var.push((Edge::Variable, Node::act(Action::Store)));
        let store = Node { edges: store_var, func: None };

        let mut root_edges: Vec<(Edge, Node)> = Vec::new();
        root_edges.push((Edge::Keyword(".exit".to_owned()), Node::act(Action::Quit)));
        root_edges.push((Edge::Keyword(".help".to_owned()), Node::act(Action::Help)));
        root_edges.push((Edge::Keyword(".load".to_owned()), load));
        root_edges.push((Edge::Keyword(".save".to_owned()), save));
        root_edges.push((Edge::Keyword(".store".to_owned()), store));
        Node { edges: root_edges, func: None }
    }

    /// Walks the tokens down the tree, taking at each step the first edge
    /// in order that the token matches, and returns the node reached.
    pub fn traverse(&self, args: &Vec<String>) -> (r: Option<&Node>)
        ensures
            match r {
                Some(n) => spec_traverse(*self, args@.map_values(|s: String| s@), 0) == Some(*n),
                None => spec_traverse(*self, args@.map_values(|s: String| s@), 0) is None,
            },
    {
        let ghost views = args@.map_values(|s: String| s@);
        let mut cur: &Node = self;
        let mut i: usize = 0;
        while i < args.len()
            invariant
                i <= args@.len(),
                views == args@.map_values(|s: String| s@),
                spec_traverse(*self, views, 0) == spec_traverse(*cur, views, i as int),
            decreases args@.len() - i,
        {
            let arg: &String = &args[i];
            let mut j: usize = 0;
            let mut found: bool = false;
            let mut next: &Node = cur;
            while j < cur.edges.len() && !found
                invariant
                    j <= cur.edges@.len(),
                    i < args@.len(),
                    arg@ == views[i as int],
                    !found ==> forall|k: int|
                        0 <= k < j ==> !edge_matches((#[trigger] cur.edges@[k]).0, arg@),
                    found ==> first_match(cur.edges@, arg@, 0) == Some(*next),
                decreases cur.edges@.len() - j + (if found {
                    0int
                } else {
                    1int
                }),
            {
                let hit = match &cur.edges[j].0 {
                    Edge::Keyword(k) => crate::lang::str_starts_with(k.as_str(), arg.as_str()),
                    Edge::Filename => true,
                    Edge::Variable => true,
                };
                if hit {
                    next = &cur.edges[j].1;
                    found = true;
                    proof {
                        lemma_first_match_skip(cur.edges@, arg@, 0, j as int);
                        let ji: int = j as int;
                        assert(first_match(cur.edges@, arg@, ji) == Some(cur.edges@[ji].1));
                    }
                } else {
                    j += 1;
                }
            }
            if !found {
                proof {
                    lemma_first_match_skip(cur.edges@, arg@, 0, cur.edges@.len() as int);
                }
                return None;
            }
            cur = next;
            i += 1;
        }
        Some(cur)
    }

    /// The keywords of this node's edges that begin with the prefix, in
    /// edge order.
    pub fn next_keywords_by_prefix(&self, prefix: &str) -> (r: Vec<String>)
        ensures
            forall|j: int|
                0 <= j < r@.len() ==> is_prefix_of(prefix@, (#[trigger] r@[j])@),
            forall|k: int|
                0 <= k < self.edges@.len() ==> match (#[trigger] self.edges@[k]).0 {
                    Edge::Keyword(kw) => is_prefix_of(prefix@, kw@) ==> exists|j: int|
                        0 <= j < r@.len() && (#[trigger] r@[j])@ == kw@,
                    _ => true,
                },
    {
        let mut out: Vec<String> = Vec::new();
        let mut k: usize = 0;
        while k < self.edges.len()
            invariant
                k <= self.edges@.len(),
                forall|j: int|
                    0 <= j < out@.len() ==> is_prefix_of(prefix@, (#[trigger] out@[j])@),
                forall|k2: int|
                    0 <= k2 < k ==> match (#[trigger] self.edges@[k2]).0 {
                        Edge::Keyword(kw) => is_prefix_of(prefix@, kw@) ==> exists|j: int|
                            0 <= j < out@.len() && (#[trigger] out@[j])@ == kw@,
                        _ => true,
                    },
            decreases self.edges@.len() - k,
        {
            match &self.edges[k].0 {
                Edge::Keyword(kw) => {
                    if crate::lang::str_starts_with(kw.as_str(), prefix) {
                        let ghost prev = out@;
                        out.push(kw.clone());
                        proof {
                            let j0 = out@.len() - 1;
                            assert(out@[j0]@ == kw@);
                            assert forall|k2: int|
                                0 <= k2 < k as int + 1 implies match (
                            #[trigger] self.edges@[k2]).0 {
                                Edge::Keyword(kw2) => is_prefix_of(prefix@, kw2@) ==> exists|
                                    j: int,
                                |
                                    0 <= j < out@.len() && (#[trigger] out@[j])@ == kw2@,
                                _ => true,
                            } by {
                                if k2 < k as int {
                                    match self.edges@[k2].0 {
                                        Edge::Keyword(kw2) => {
                                            if is_prefix_of(prefix@, kw2@) {
                                                let j = choose|j: int|
                                                    0 <= j < prev.len() && (#[trigger] prev[j])@
                                                        == kw2@;
                                                assert(out@[j]@ == kw2@);
                                            }
                                        }
                                        _ => {}
                                    }
                                }
                            }
                        }
                    }
                }
                _ => {}
            }
            k += 1;
        }
        out
    }
}

} // verus!
