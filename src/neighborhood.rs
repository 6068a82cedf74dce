//! Neighborhoods: for each solution, the solutions reachable from it in one move.
use std::collections::VecDeque;
use vstd::prelude::*;

verus! {

/// `s` with its first `r` elements moved to the end (all of them where `r` exceeds the length).
pub open spec fn rotated<S>(s: Seq<S>, r: int) -> Seq<S> {
    let k = if r < s.len() {
        r
    } else {
        s.len() as int
    };
    s.skip(k) + s.take(k)
}

/// A local search neighborhood: for each solution the sequence of its neighbors.
/// `neighbors` states the neighbors of a solution; `neighbors_of` returns exactly them, so the
/// neighborhood is deterministic.
pub trait Neighborhood<S>: Send + Sync {
    /// The neighbors of `solution`, in the order in which they are explored.
    spec fn neighbors(&self, solution: S) -> Vec<S>;

    /// Returns the neighbors of `current_solution`.
    fn neighbors_of(&self, current_solution: &S) -> (r: Vec<S>)
        ensures
            r@ == self.neighbors(*current_solution)@,
    ;

    /// Returns the neighbors of `current_solution` with the first `rotation` of them moved to
    /// the end (12345 -> 34512).
    fn neighbors_of_rotated(&self, current_solution: &S, rotation: usize) -> (r: Vec<S>)
        ensures
            r@ == rotated(self.neighbors(*current_solution)@, rotation as int),
    {
        let mut first = self.neighbors_of(current_solution);
        let mut second = self.neighbors_of(current_solution);
        let k = if rotation < first.len() {
            rotation
        } else {
            first.len()
        };
        let mut tail = first.split_off(k);
        second.truncate(k);
        tail.append(&mut second);
        assert(tail@ =~= rotated(self.neighbors(*current_solution)@, rotation as int));
        tail
    }
}

/// A tabu search neighborhood: for a solution and a tabu list, the neighbors that the tabu
/// list allows, each paired with the tabus that moving there adds.
pub trait TabuNeighborhood<S, T>: Send + Sync {
    /// The allowed neighbors of `solution` under `tabu_list`, each with its new tabus.
    spec fn neighbors(&self, solution: S, tabu_list: VecDeque<T>) -> Vec<(S, Vec<T>)>;

    /// Returns the allowed neighbors of `solution` under `tabu_list`, each with its new tabus.
    fn neighbors_of(&self, solution: &S, tabu_list: &VecDeque<T>) -> (r: Vec<(S, Vec<T>)>)
        ensures
            r@ == self.neighbors(*solution, *tabu_list)@,
    ;
}

/// The elements of `v` in reverse order.
pub fn reversed<T>(v: Vec<T>) -> (r: Vec<T>)
    ensures
        r@.len() == v@.len(),
        forall|j: int| 0 <= j < v@.len() ==> #[trigger] r@[j] == v@[v@.len() - 1 - j],
{
    let ghost input = v@;
    let mut v = v;
    let mut r: Vec<T> = Vec::new();
    while v.len() > 0
        invariant
            v@ == input.take(v@.len() as int),
            r@.len() + v@.len() == input.len(),
            forall|j: int| 0 <= j < r@.len() ==> #[trigger] r@[j] == input[input.len() - 1 - j],
        decreases v@.len(),
    {
        let x = v.pop().unwrap();
        r.push(x);
        assert(v@ =~= input.take(v@.len() as int));
    }
    r
}

} // verus!
