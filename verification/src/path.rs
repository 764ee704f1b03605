use crate::graph::Graph;
use crate::search::CostGuidedTreeSearchResult;
use vstd::prelude::*;

verus! {

/// A sequence of states, in the order in which they are passed through.
#[derive(Debug)]
pub struct Path<T> {
    pub(crate) vertices: Vec<T>,
}

/// The states in `graph` of the vertices that `indices` names, in the same order.
pub open spec fn states_along<T>(graph: Graph<T>, indices: Seq<usize>) -> Seq<T> {
    Seq::new(indices.len(), |k: int| graph.states()[indices[k] as int])
}

/// The states on the tree path of `found` from its start to its target: none if the search
/// did not reach the target.
pub open spec fn path_states<T>(found: CostGuidedTreeSearchResult<'_, T>) -> Seq<T> {
    match found.path_spec(found.stop()) {
        Some(indices) => states_along(found.searched(), indices),
        None => Seq::empty(),
    }
}

impl<T> View for Path<T> {
    type V = Seq<T>;

    /// The states of the path, first to last.
    closed spec fn view(&self) -> Seq<T> {
        self.vertices@
    }
}

impl<T> Path<T> {
    /// The number of states on the path.
    pub fn len(&self) -> (n: usize)
        ensures
            n == self@.len(),
    {
        self.vertices.len()
    }

    /// The states of the path, first to last.
    pub fn vertices(&self) -> (states: &Vec<T>)
        ensures
            states@ == self@,
    {
        &self.vertices
    }
}

impl<'a, T: Copy> vstd::std_specs::convert::FromSpecImpl<&CostGuidedTreeSearchResult<'a, T>> for Path<T> {
    open spec fn obeys_from_spec() -> bool {
        false
    }

    open spec fn from_spec(found: &CostGuidedTreeSearchResult<'a, T>) -> Self {
        arbitrary()
    }
}

impl<'a, T: Copy> From<&CostGuidedTreeSearchResult<'a, T>> for Path<T> {
    /// The states along the tree path from the start of the search to its target. The path
    /// is empty if the search did not reach the target.
    fn from(ts: &CostGuidedTreeSearchResult<'a, T>) -> (path: Path<T>)
        ensures
            path@ == path_states(*ts),
    {
        proof {
            use_type_invariant(ts);
        }
        let mut vertices: Vec<T> = Vec::new();
        match ts.path_to_stop() {
            None => {
                assert(vertices@ =~= path_states(*ts));
            },
            Some(indices) => {
                proof {
                    crate::search::lemma_chain_is_walk(*ts, ts.stop());
                }
                let graph = ts.graph();
                let mut k: usize = 0;
                while k < indices.len()
                    invariant
                        k <= indices@.len(),
                        vertices@.len() == k,
                        graph == ts.searched(),
                        forall|i: int|
                            0 <= i < indices@.len() ==> (#[trigger] indices@[i]) < graph.size(),
                        forall|i: int|
                            0 <= i < k ==> vertices@[i] == graph.states()[indices@[i] as int],
                    decreases indices@.len() - k,
                {
                    vertices.push(*graph.state(indices[k]));
                    k = k + 1;
                }
                assert(vertices@ =~= path_states(*ts));
            },
        }
        Path { vertices }
    }
}

} // verus!
