//! Point evaluation: walking a diagram under a finite assignment.

use vstd::prelude::*;

use crate::manager::Manager;
use crate::node::{NodeData, Node};

verus! {

/// What evaluating the node at `i` under the finite assignment `a` yields:
/// the terminal reached, or `None` when the walk needs a variable beyond the
/// end of `a`.
pub open spec fn eval_path(nodes: Seq<NodeData>, i: int, a: Seq<bool>) -> Option<bool>
    decreases i,
{
    if 0 <= i < nodes.len() {
        match nodes[i] {
            NodeData::False => Some(false),
            NodeData::True => Some(true),
            NodeData::Branch { level, then_id, else_id } => {
                if then_id < i && else_id < i {
                    if (level as int) < a.len() {
                        if a[level as int] {
                            eval_path(nodes, then_id as int, a)
                        } else {
                            eval_path(nodes, else_id as int, a)
                        }
                    } else {
                        None
                    }
                } else {
                    None
                }
            }
        }
    } else {
        None
    }
}

impl Manager {
    /// Evaluates the function denoted by `f` on a finite assignment indexed
    /// by variable level.  Returns `None` exactly when the walk reaches a
    /// branch whose variable lies beyond the end of the assignment.
    pub fn eval(&self, f: Node, assignment: &Vec<bool>) -> (r: Option<bool>)
        requires
            self.wf(),
            self.valid(f),
        ensures
            r == eval_path(self@, f.id as int, assignment@),
    {
        let mut cur = f;
        loop
            invariant
                self.wf(),
                self.valid(cur),
                eval_path(self@, cur.id as int, assignment@) == eval_path(
                    self@,
                    f.id as int,
                    assignment@,
                ),
            decreases cur.id,
        {
            if cur.id == 0 {
                return Some(false);
            }
            if cur.id == 1 {
                return Some(true);
            }
            let (level, t, e) = self.branch_parts(cur);
            if level >= assignment.len() as u64 {
                return None;
            }
            cur = if assignment[level as usize] {
                t
            } else {
                e
            };
        }
    }
}

} // verus!
