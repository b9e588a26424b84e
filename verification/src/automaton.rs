//! The automaton model: states identified by coordinates, labelled edges
//! between them, and the mathematical view every algorithm is stated over.

use crate::coordinate::Coordinate;
use vstd::prelude::*;

verus! {

/// The reserved symbol of an edge that is taken without reading input.
pub const EPSILON: char = '\u{3f5}';

/// One labelled edge leaving a state: reading `symbol` may lead to `target`.
#[derive(Clone, Copy, Debug, PartialEq, Eq, Hash, Structural)]
pub struct Edge {
    pub symbol: char,
    pub target: Coordinate,
}

/// A state: its key, its flags, and the edges that leave it.
///
/// The edges are a set kept in insertion order. For a symbol that labels
/// several edges, the first one in that order is the one a deterministic walk
/// takes.
#[derive(Debug)]
pub struct State {
    pub position: Coordinate,
    pub connections: Vec<Edge>,
    pub is_start: bool,
    pub is_final: bool,
}

/// What a state is, mathematically.
pub struct StateView {
    pub position: Coordinate,
    pub is_start: bool,
    pub is_final: bool,
    pub edges: Seq<Edge>,
}

impl View for State {
    type V = StateView;

    open spec fn view(&self) -> StateView {
        StateView {
            position: self.position,
            is_start: self.is_start,
            is_final: self.is_final,
            edges: self.connections@,
        }
    }
}

/// An automaton as a sequence of state views, in the order the states were
/// added.
pub type AutomatonView = Seq<StateView>;

/// The targets of the edges labelled `symbol`, in edge order.
pub open spec fn targets_on(edges: Seq<Edge>, symbol: char) -> Seq<Coordinate> {
    edges.filter(|e: Edge| e.symbol == symbol).map_values(|e: Edge| e.target)
}

/// Whether some edge is labelled `symbol`.
pub open spec fn has_edge_on(edges: Seq<Edge>, symbol: char) -> bool {
    exists|i: int| 0 <= i < edges.len() && (#[trigger] edges[i]).symbol == symbol
}

/// Whether `i` is the position of the first edge labelled `symbol`.
pub open spec fn is_first_edge_on(edges: Seq<Edge>, symbol: char, i: int) -> bool {
    &&& 0 <= i < edges.len()
    &&& edges[i].symbol == symbol
    &&& forall|j: int| 0 <= j < i ==> (#[trigger] edges[j]).symbol != symbol
}

/// The target of the first edge labelled `symbol`, if there is one.
pub open spec fn first_target(edges: Seq<Edge>, symbol: char) -> Option<Coordinate>
    decreases edges.len(),
{
    if edges.len() == 0 {
        None
    } else {
        match first_target(edges.drop_last(), symbol) {
            Some(t) => Some(t),
            None => if edges.last().symbol == symbol {
                Some(edges.last().target)
            } else {
                None
            },
        }
    }
}

/// The edges of a state form a set: none occurs twice.
pub open spec fn edges_distinct(edges: Seq<Edge>) -> bool {
    forall|i: int, j: int| 0 <= i < j < edges.len() ==> edges[i] != edges[j]
}

/// Whether a state with key `key` is present.
pub open spec fn has_key(a: AutomatonView, key: Coordinate) -> bool {
    exists|i: int| 0 <= i < a.len() && (#[trigger] a[i]).position == key
}

/// The position of the state with key `key` (meaningful when `has_key`).
pub open spec fn index_of(a: AutomatonView, key: Coordinate) -> int {
    choose|i: int| 0 <= i < a.len() && (#[trigger] a[i]).position == key
}

/// No two states share a key.
pub open spec fn keys_distinct(a: AutomatonView) -> bool {
    forall|i: int, j: int| 0 <= i < j < a.len() ==> (#[trigger] a[i]).position != (#[trigger] a[j]).position
}

/// The validity of an automaton: keys are unique and every state's edges
/// form a set.
pub open spec fn well_formed(a: AutomatonView) -> bool {
    &&& keys_distinct(a)
    &&& forall|i: int| 0 <= i < a.len() ==> edges_distinct((#[trigger] a[i]).edges)
}

/// Every edge leads to a state that is present.
pub open spec fn targets_present(a: AutomatonView) -> bool {
    forall|i: int, j: int|
        0 <= i < a.len() && 0 <= j < a[i].edges.len() ==> has_key(a, (#[trigger] a[i].edges[j]).target)
}

/// Every state has at most one edge per symbol.
pub open spec fn deterministic(a: AutomatonView) -> bool {
    forall|i: int, j: int, k: int|
        0 <= i < a.len() && 0 <= j < k < a[i].edges.len() ==> (#[trigger] a[i].edges[j]).symbol != (
        #[trigger] a[i].edges[k]).symbol
}

/// In a well-formed automaton a key determines its position.
pub proof fn lemma_index_of_unique(a: AutomatonView, i: int)
    requires
        keys_distinct(a),
        0 <= i < a.len(),
    ensures
        has_key(a, a[i].position),
        index_of(a, a[i].position) == i,
{
    let k = index_of(a, a[i].position);
    assert(0 <= k < a.len() && a[k].position == a[i].position);
    if k < i {
        assert(a[k].position != a[i].position);
    } else if i < k {
        assert(a[i].position != a[k].position);
    }
}

/// There is a first target exactly when some edge carries the symbol.
pub proof fn lemma_first_target_is_some(edges: Seq<Edge>, symbol: char)
    ensures
        first_target(edges, symbol) is Some <==> has_edge_on(edges, symbol),
        first_target(edges, symbol) is Some ==> exists|i: int|
            0 <= i < edges.len() && (#[trigger] edges[i]).symbol == symbol && edges[i].target == first_target(
                edges,
                symbol,
            )->0,
    decreases edges.len(),
{
    if edges.len() > 0 {
        let front = edges.drop_last();
        lemma_first_target_is_some(front, symbol);
        if has_edge_on(front, symbol) {
            let i = choose|i: int| 0 <= i < front.len() && (#[trigger] front[i]).symbol == symbol;
            assert(edges[i].symbol == symbol);
            let k = choose|k: int|
                0 <= k < front.len() && (#[trigger] front[k]).symbol == symbol && front[k].target == first_target(
                    front,
                    symbol,
                )->0;
            assert(edges[k].symbol == symbol);
        } else if edges.last().symbol == symbol {
            assert(edges[edges.len() - 1].symbol == symbol);
        } else if has_edge_on(edges, symbol) {
            let i = choose|i: int| 0 <= i < edges.len() && (#[trigger] edges[i]).symbol == symbol;
            assert(front[i].symbol == symbol);
        }
    }
}

/// The first edge on a symbol gives the first target.
pub proof fn lemma_first_target(edges: Seq<Edge>, symbol: char, i: int)
    requires
        is_first_edge_on(edges, symbol, i),
    ensures
        first_target(edges, symbol) == Some(edges[i].target),
    decreases edges.len(),
{
    let front = edges.drop_last();
    if i == edges.len() - 1 {
        lemma_first_target_is_some(front, symbol);
        if has_edge_on(front, symbol) {
            let k = choose|k: int| 0 <= k < front.len() && (#[trigger] front[k]).symbol == symbol;
            assert(edges[k].symbol != symbol);
        }
    } else {
        assert(front[i] == edges[i]);
        assert forall|j: int| 0 <= j < i implies (#[trigger] front[j]).symbol != symbol by {
            assert(edges[j].symbol != symbol);
        }
        lemma_first_target(front, symbol, i);
    }
}

/// Without an edge on a symbol there is no first target.
pub proof fn lemma_no_first_target(edges: Seq<Edge>, symbol: char)
    requires
        forall|j: int| 0 <= j < edges.len() ==> (#[trigger] edges[j]).symbol != symbol,
    ensures
        first_target(edges, symbol) is None,
{
    lemma_first_target_is_some(edges, symbol);
}

impl Clone for State {
    fn clone(&self) -> (res: State)
        ensures
            res@ == self@,
    {
        let mut connections: Vec<Edge> = Vec::new();
        let mut i: usize = 0;
        while i < self.connections.len()
            invariant
                i <= self.connections.len(),
                connections@ == self.connections@.subrange(0, i as int),
            decreases self.connections.len() - i,
        {
            connections.push(self.connections[i]);
            i += 1;
        }
        assert(connections@ == self.connections@);
        State {
            position: self.position,
            connections,
            is_start: self.is_start,
            is_final: self.is_final,
        }
    }
}

impl State {
    /// Whether the state is valid: its edges form a set.
    pub open spec fn well_formed(&self) -> bool {
        edges_distinct(self.connections@)
    }

    /// Whether the edges of the state form a set.
    #[verifier::loop_isolation(false)]
    pub fn is_well_formed(&self) -> (b: bool)
        ensures
            b == self.well_formed(),
    {
        let mut i: usize = 0;
        while i < self.connections.len()
            invariant
                i <= self.connections.len(),
                forall|p: int, q: int| 0 <= p < q < i ==> self.connections@[p] != self.connections@[q],
            decreases self.connections.len() - i,
        {
            let mut j: usize = 0;
            while j < i
                invariant
                    j <= i < self.connections.len(),
                    forall|p: int| 0 <= p < j ==> self.connections@[p] != self.connections@[i as int],
                decreases i - j,
            {
                if self.connections[j] == self.connections[i] {
                    return false;
                }
                j += 1;
            }
            i += 1;
        }
        true
    }

    /// A state without edges.
    pub fn new(position: Coordinate, is_start: bool, is_final: bool) -> (s: State)
        ensures
            s@ == (StateView { position, is_start, is_final, edges: Seq::<Edge>::empty() }),
            s.well_formed(),
    {
        State { position, connections: Vec::new(), is_start, is_final }
    }

    /// Whether the edge labelled `symbol` to `target` is present.
    pub fn has_connection(&self, symbol: char, target: Coordinate) -> (b: bool)
        ensures
            b == self@.edges.contains(Edge { symbol, target }),
    {
        let mut i: usize = 0;
        while i < self.connections.len()
            invariant
                i <= self.connections.len(),
                forall|j: int| 0 <= j < i ==> self.connections@[j] != (Edge { symbol, target }),
            decreases self.connections.len() - i,
        {
            let e = self.connections[i];
            if e.symbol == symbol && e.target == target {
                return true;
            }
            i += 1;
        }
        false
    }

    /// Adds the edge labelled `symbol` to `target`, unless it is there already.
    pub fn add_connection(&mut self, symbol: char, target: Coordinate)
        requires
            old(self).well_formed(),
        ensures
            final(self).well_formed(),
            final(self)@.position == old(self)@.position,
            final(self)@.is_start == old(self)@.is_start,
            final(self)@.is_final == old(self)@.is_final,
            final(self)@.edges == if old(self)@.edges.contains(Edge { symbol, target }) {
                old(self)@.edges
            } else {
                old(self)@.edges.push(Edge { symbol, target })
            },
    {
        if !self.has_connection(symbol, target) {
            self.connections.push(Edge { symbol, target });
        }
    }

    /// The keys this state has an edge to, each once, in the order in which
    /// the edges first name them.
    pub fn get_all_connected_state_keys(&self) -> (keys: Vec<Coordinate>)
        ensures
            keys@.no_duplicates(),
            forall|k: Coordinate|
                keys@.contains(k) <==> exists|i: int|
                    0 <= i < self@.edges.len() && (#[trigger] self@.edges[i]).target == k,
    {
        let mut keys: Vec<Coordinate> = Vec::new();
        let mut i: usize = 0;
        while i < self.connections.len()
            invariant
                i <= self.connections.len(),
                keys@.no_duplicates(),
                forall|k: Coordinate|
                    keys@.contains(k) <==> exists|j: int|
                        0 <= j < i && (#[trigger] self@.edges[j]).target == k,
            decreases self.connections.len() - i,
        {
            let t = self.connections[i].target;
            let ghost before = keys@;
            if !contains_key(&keys, t) {
                keys.push(t);
                assert forall|k: Coordinate| keys@.contains(k) implies exists|j: int|
                    0 <= j < i + 1 && (#[trigger] self@.edges[j]).target == k by {
                    let p = choose|p: int| 0 <= p < keys@.len() && keys@[p] == k;
                    if p < before.len() {
                        assert(before[p] == k);
                        assert(before.contains(k));
                    } else {
                        assert(self@.edges[i as int].target == k);
                    }
                }
                assert forall|k: Coordinate|
                    (exists|j: int| 0 <= j < i + 1 && (#[trigger] self@.edges[j]).target == k)
                    implies keys@.contains(k) by {
                    let j = choose|j: int| 0 <= j < i + 1 && (#[trigger] self@.edges[j]).target == k;
                    if j < i {
                        assert(before.contains(k));
                        let p = choose|p: int| 0 <= p < before.len() && before[p] == k;
                        assert(keys@[p] == k);
                    } else {
                        assert(keys@[before.len() as int] == k);
                    }
                }
            } else {
                assert forall|k: Coordinate|
                    (exists|j: int| 0 <= j < i + 1 && (#[trigger] self@.edges[j]).target == k)
                    implies keys@.contains(k) by {
                    let j = choose|j: int| 0 <= j < i + 1 && (#[trigger] self@.edges[j]).target == k;
                    if j == i {
                        assert(keys@.contains(t));
                    }
                }
            }
            i += 1;
        }
        keys
    }

    /// The edges of the state, in insertion order.
    pub fn get_all_connections(&self) -> (edges: &Vec<Edge>)
        ensures
            edges@ == self@.edges,
    {
        &self.connections
    }

    pub fn is_final(&self) -> (b: bool)
        ensures
            b == self@.is_final,
    {
        self.is_final
    }

    pub fn make_final(&mut self)
        ensures
            final(self)@ == (StateView { is_final: true, ..old(self)@ }),
    {
        self.is_final = true;
    }

    pub fn is_start(&self) -> (b: bool)
        ensures
            b == self@.is_start,
    {
        self.is_start
    }

    pub fn make_start(&mut self)
        ensures
            final(self)@ == (StateView { is_start: true, ..old(self)@ }),
    {
        self.is_start = true;
    }

    /// The targets of the edges labelled `symbol`, in edge order, or `None`
    /// when no edge carries that label.
    pub fn get_connections_by_character(&self, symbol: char) -> (targets: Option<Vec<Coordinate>>)
        ensures
            targets is Some <==> has_edge_on(self@.edges, symbol),
            targets is Some ==> targets->0@ == targets_on(self@.edges, symbol),
    {
        let mut found: Vec<Coordinate> = Vec::new();
        let mut i: usize = 0;
        while i < self.connections.len()
            invariant
                i <= self.connections.len(),
                found@ == targets_on(self.connections@.subrange(0, i as int), symbol),
                found@.len() > 0 <==> has_edge_on(self.connections@.subrange(0, i as int), symbol),
            decreases self.connections.len() - i,
        {
            let e = self.connections[i];
            proof {
                let prefix = self.connections@.subrange(0, i as int);
                let next = self.connections@.subrange(0, i + 1);
                assert(next == prefix.push(e));
                lemma_targets_on_push(prefix, e, symbol);
                if has_edge_on(next, symbol) && e.symbol != symbol {
                    let j = choose|j: int| 0 <= j < next.len() && (#[trigger] next[j]).symbol == symbol;
                    assert(prefix[j].symbol == symbol);
                }
                if has_edge_on(prefix, symbol) {
                    let j = choose|j: int| 0 <= j < prefix.len() && (#[trigger] prefix[j]).symbol == symbol;
                    assert(next[j].symbol == symbol);
                }
                if e.symbol == symbol {
                    assert(next[i as int].symbol == symbol);
                }
            }
            if e.symbol == symbol {
                found.push(e.target);
            }
            i += 1;
        }
        assert(self.connections@.subrange(0, i as int) == self.connections@);
        if found.len() > 0 {
            Some(found)
        } else {
            None
        }
    }

    pub fn get_position(&self) -> (p: Coordinate)
        ensures
            p == self@.position,
    {
        self.position
    }

    /// The written form of the key of the state.
    pub fn get_position_as_string(&self) -> (r: String)
        ensures
            r@ == crate::coordinate::key_text(self@.position),
    {
        self.position.to_key()
    }

    /// Replaces the edges by `connections`, keeping the first occurrence of
    /// each edge.
    pub fn set_all_connections(&mut self, connections: Vec<Edge>)
        ensures
            final(self).well_formed(),
            final(self)@.position == old(self)@.position,
            final(self)@.is_start == old(self)@.is_start,
            final(self)@.is_final == old(self)@.is_final,
            final(self)@.edges == first_occurrences(connections@),
    {
        let mut kept: Vec<Edge> = Vec::new();
        let mut i: usize = 0;
        while i < connections.len()
            invariant
                i <= connections.len(),
                kept@ == first_occurrences(connections@.subrange(0, i as int)),
                edges_distinct(kept@),
            decreases connections.len() - i,
        {
            let e = connections[i];
            proof {
                assert(connections@.subrange(0, i + 1).drop_last() == connections@.subrange(0, i as int));
            }
            if !contains_edge(&kept, e) {
                kept.push(e);
            }
            i += 1;
        }
        assert(connections@.subrange(0, i as int) == connections@);
        self.connections = kept;
    }

    /// Removes the edge labelled `symbol` to `target` if it is present.
    /// Fails, leaving the state as it was, when no edge carries that label.
    pub fn remove_connection_by_character(&mut self, symbol: char, target: Coordinate) -> (r: Result<(), ()>)
        requires
            old(self).well_formed(),
        ensures
            r is Ok <==> has_edge_on(old(self)@.edges, symbol),
            r is Err ==> final(self)@ == old(self)@,
            final(self).well_formed(),
            final(self)@.position == old(self)@.position,
            final(self)@.is_start == old(self)@.is_start,
            final(self)@.is_final == old(self)@.is_final,
            final(self)@.edges == old(self)@.edges.filter(|e: Edge| e != (Edge { symbol, target })),
    {
        let mut kept: Vec<Edge> = Vec::new();
        let mut seen: bool = false;
        let mut i: usize = 0;
        let ghost keep = |e: Edge| e != (Edge { symbol, target });
        while i < self.connections.len()
            invariant
                i <= self.connections.len(),
                keep == (|e: Edge| e != (Edge { symbol, target })),
                kept@ == self.connections@.subrange(0, i as int).filter(keep),
                seen <==> has_edge_on(self.connections@.subrange(0, i as int), symbol),
            decreases self.connections.len() - i,
        {
            let e = self.connections[i];
            proof {
                let prefix = self.connections@.subrange(0, i as int);
                let next = self.connections@.subrange(0, i + 1);
                assert(next == prefix.push(e));
                assert(next.drop_last() == prefix);
                reveal(Seq::filter);
                if has_edge_on(next, symbol) && e.symbol != symbol {
                    let j = choose|j: int| 0 <= j < next.len() && (#[trigger] next[j]).symbol == symbol;
                    assert(prefix[j].symbol == symbol);
                }
                if has_edge_on(prefix, symbol) {
                    let j = choose|j: int| 0 <= j < prefix.len() && (#[trigger] prefix[j]).symbol == symbol;
                    assert(next[j].symbol == symbol);
                }
                if e.symbol == symbol {
                    assert(next[i as int].symbol == symbol);
                }
            }
            if e.symbol == symbol {
                seen = true;
            }
            if !(e.symbol == symbol && e.target == target) {
                kept.push(e);
            }
            i += 1;
        }
        proof {
            assert(self.connections@.subrange(0, i as int) == self.connections@);
            lemma_filter_distinct(self.connections@, keep);
            if !seen {
                lemma_filter_all(self.connections@, keep);
            }
        }
        self.connections = kept;
        if seen {
            Ok(())
        } else {
            Err(())
        }
    }

    /// The target of the first edge labelled `symbol`: the one a
    /// deterministic walk follows.
    pub fn get_first_connected_state_key_by_character(&self, symbol: char) -> (t: Option<Coordinate>)
        ensures
            t == first_target(self@.edges, symbol),
    {
        let mut i: usize = 0;
        while i < self.connections.len()
            invariant
                i <= self.connections.len(),
                forall|j: int| 0 <= j < i ==> (#[trigger] self.connections@[j]).symbol != symbol,
            decreases self.connections.len() - i,
        {
            if self.connections[i].symbol == symbol {
                proof {
                    lemma_first_target(self.connections@, symbol, i as int);
                }
                return Some(self.connections[i].target);
            }
            i += 1;
        }
        proof {
            lemma_no_first_target(self.connections@, symbol);
        }
        None
    }

    /// Removes every edge labelled `symbol`.
    pub fn remove_all_connections_by_character(&mut self, symbol: char)
        requires
            old(self).well_formed(),
        ensures
            final(self).well_formed(),
            final(self)@.position == old(self)@.position,
            final(self)@.is_start == old(self)@.is_start,
            final(self)@.is_final == old(self)@.is_final,
            final(self)@.edges == old(self)@.edges.filter(|e: Edge| e.symbol != symbol),
    {
        let mut kept: Vec<Edge> = Vec::new();
        let mut i: usize = 0;
        let ghost keep = |e: Edge| e.symbol != symbol;
        while i < self.connections.len()
            invariant
                i <= self.connections.len(),
                keep == (|e: Edge| e.symbol != symbol),
                kept@ == self.connections@.subrange(0, i as int).filter(keep),
            decreases self.connections.len() - i,
        {
            let e = self.connections[i];
            proof {
                assert(self.connections@.subrange(0, i + 1).drop_last() == self.connections@.subrange(
                    0,
                    i as int,
                ));
                reveal(Seq::filter);
            }
            if e.symbol != symbol {
                kept.push(e);
            }
            i += 1;
        }
        proof {
            assert(self.connections@.subrange(0, i as int) == self.connections@);
            lemma_filter_distinct(self.connections@, keep);
        }
        self.connections = kept;
    }
}

/// A finite automaton: states looked up by key. The states keep the order
/// in which they were added, which is the order every scan follows.
#[derive(Debug)]
pub struct Automaton {
    pub states: Vec<State>,
}

impl View for Automaton {
    type V = AutomatonView;

    open spec fn view(&self) -> AutomatonView {
        Seq::new(self.states@.len(), |i: int| self.states@[i]@)
    }
}

impl Clone for Automaton {
    fn clone(&self) -> (res: Automaton)
        ensures
            res@ == self@,
    {
        let mut states: Vec<State> = Vec::new();
        let mut i: usize = 0;
        while i < self.states.len()
            invariant
                i <= self.states.len(),
                states@.len() == i,
                forall|j: int| 0 <= j < i ==> (#[trigger] states@[j])@ == self.states@[j]@,
            decreases self.states.len() - i,
        {
            states.push(self.states[i].clone());
            i += 1;
        }
        let res = Automaton { states };
        assert(res@ =~= self@);
        res
    }
}

impl Automaton {
    /// Whether the automaton is valid: keys are unique and the edges of
    /// every state form a set.
    pub open spec fn well_formed(&self) -> bool {
        well_formed(self@)
    }

    /// The automaton without states.
    pub fn new() -> (a: Automaton)
        ensures
            a@ == Seq::<StateView>::empty(),
            a.well_formed(),
    {
        let a = Automaton { states: Vec::new() };
        assert(a@ =~= Seq::<StateView>::empty());
        a
    }

    /// The number of states.
    pub fn len(&self) -> (n: usize)
        ensures
            n == self@.len(),
    {
        self.states.len()
    }

    /// The position of the state with key `key`, if it is present.
    pub fn position_of(&self, key: Coordinate) -> (r: Option<usize>)
        ensures
            r is Some <==> has_key(self@, key),
            r is Some ==> r->0 < self@.len() && self@[r->0 as int].position == key,
            r is Some ==> forall|j: int| 0 <= j < r->0 ==> (#[trigger] self@[j]).position != key,
            r is Some && keys_distinct(self@) ==> r->0 == index_of(self@, key),
    {
        let mut i: usize = 0;
        while i < self.states.len()
            invariant
                i <= self.states.len(),
                forall|j: int| 0 <= j < i ==> (#[trigger] self@[j]).position != key,
            decreases self.states.len() - i,
        {
            if self.states[i].position == key {
                proof {
                    assert(self@[i as int].position == key);
                    if keys_distinct(self@) {
                        lemma_index_of_unique(self@, i as int);
                    }
                }
                return Some(i);
            }
            i += 1;
        }
        None
    }

    /// Whether a state with key `key` is present.
    pub fn contains_key(&self, key: Coordinate) -> (b: bool)
        ensures
            b == has_key(self@, key),
    {
        self.position_of(key).is_some()
    }

    /// The state with key `key`, if it is present.
    pub fn get(&self, key: Coordinate) -> (r: Option<&State>)
        ensures
            r is Some <==> has_key(self@, key),
            r is Some ==> r->0@.position == key && self@.contains(r->0@),
            r is Some && keys_distinct(self@) ==> r->0@ == self@[index_of(self@, key)],
    {
        match self.position_of(key) {
            Some(i) => {
                assert(self@[i as int] == self.states@[i as int]@);
                Some(&self.states[i])
            },
            None => None,
        }
    }

    /// Whether the automaton is valid.
    #[verifier::loop_isolation(false)]
    pub fn is_well_formed(&self) -> (b: bool)
        ensures
            b == self.well_formed(),
    {
        let mut i: usize = 0;
        while i < self.states.len()
            invariant
                i <= self.states.len(),
                forall|p: int, q: int| 0 <= p < q < i ==> (#[trigger] self@[p]).position != (#[trigger] self@[q]).position,
                forall|p: int| 0 <= p < i ==> edges_distinct((#[trigger] self@[p]).edges),
            decreases self.states.len() - i,
        {
            assert(self@[i as int] == self.states@[i as int]@);
            if !self.states[i].is_well_formed() {
                return false;
            }
            let mut j: usize = 0;
            while j < i
                invariant
                    j <= i < self.states.len(),
                    forall|p: int| 0 <= p < j ==> (#[trigger] self@[p]).position != self@[i as int].position,
                decreases i - j,
            {
                assert(self@[j as int] == self.states@[j as int]@);
                if self.states[j].position == self.states[i].position {
                    return false;
                }
                j += 1;
            }
            i += 1;
        }
        true
    }

    /// Whether every edge leads to a state that is present.
    #[verifier::loop_isolation(false)]
    pub fn has_all_targets(&self) -> (b: bool)
        ensures
            b == targets_present(self@),
    {
        let mut i: usize = 0;
        while i < self.states.len()
            invariant
                i <= self.states.len(),
                forall|p: int, q: int|
                    0 <= p < i && 0 <= q < self@[p].edges.len() ==> has_key(
                        self@,
                        (#[trigger] self@[p].edges[q]).target,
                    ),
            decreases self.states.len() - i,
        {
            assert(self@[i as int] == self.states@[i as int]@);
            let mut j: usize = 0;
            while j < self.states[i].connections.len()
                invariant
                    i < self.states.len(),
                    j <= self.states[i as int].connections.len(),
                    forall|q: int| 0 <= q < j ==> has_key(self@, (#[trigger] self@[i as int].edges[q]).target),
                decreases self.states[i as int].connections.len() - j,
            {
                if !self.contains_key(self.states[i].connections[j].target) {
                    assert(!has_key(self@, self@[i as int].edges[j as int].target));
                    return false;
                }
                j += 1;
            }
            i += 1;
        }
        true
    }

    /// Puts `state` under its key: in place of the state that has the key,
    /// or behind the others when none has it.
    pub fn insert(&mut self, state: State)
        requires
            old(self).well_formed(),
            state.well_formed(),
        ensures
            final(self).well_formed(),
            final(self)@ == if has_key(old(self)@, state@.position) {
                old(self)@.update(index_of(old(self)@, state@.position), state@)
            } else {
                old(self)@.push(state@)
            },
    {
        let ghost before = self@;
        match self.position_of(state.position) {
            Some(i) => {
                let ghost sv = state@;
                self.states.set(i, state);
                proof {
                    assert(self@ =~= before.update(i as int, sv));
                    assert forall|p: int, q: int| 0 <= p < q < self@.len() implies (#[trigger] self@[p]).position
                        != (#[trigger] self@[q]).position by {
                        assert(before[p].position != before[q].position);
                    }
                    assert forall|p: int| 0 <= p < self@.len() implies edges_distinct(
                        (#[trigger] self@[p]).edges,
                    ) by {
                        if p != i {
                            assert(self@[p] == before[p]);
                        }
                    }
                }
            },
            None => {
                let ghost sv = state@;
                self.states.push(state);
                proof {
                    assert(self@ =~= before.push(sv));
                    assert forall|p: int, q: int| 0 <= p < q < self@.len() implies (#[trigger] self@[p]).position
                        != (#[trigger] self@[q]).position by {
                        if q < before.len() {
                            assert(before[p].position != before[q].position);
                        } else {
                            assert(before[p].position != sv.position);
                        }
                    }
                    assert forall|p: int| 0 <= p < self@.len() implies edges_distinct(
                        (#[trigger] self@[p]).edges,
                    ) by {
                        if p < before.len() {
                            assert(self@[p] == before[p]);
                        }
                    }
                }
            },
        }
    }
}

/// The automaton that holds the given states, each under its key. Where two
/// of them share a key the later one stands.
pub fn create_state_positions_from_states(states: Vec<&State>) -> (a: Automaton)
    requires
        forall|i: int| 0 <= i < states@.len() ==> (#[trigger] states@[i]).well_formed(),
    ensures
        a.well_formed(),
        a@ == collect_states(Seq::new(states@.len(), |i: int| states@[i]@)),
{
    let mut a = Automaton::new();
    let ghost views = Seq::new(states@.len(), |i: int| states@[i]@);
    let mut i: usize = 0;
    while i < states.len()
        invariant
            i <= states.len(),
            a.well_formed(),
            views == Seq::new(states@.len(), |i: int| states@[i]@),
            a@ == collect_states(views.subrange(0, i as int)),
            forall|i: int| 0 <= i < states@.len() ==> (#[trigger] states@[i]).well_formed(),
        decreases states.len() - i,
    {
        proof {
            assert(views.subrange(0, i + 1).drop_last() == views.subrange(0, i as int));
            assert(views.subrange(0, i + 1).last() == states@[i as int]@);
        }
        a.insert(states[i].clone());
        i += 1;
    }
    assert(views.subrange(0, i as int) == views);
    a
}

/// The automaton that results from inserting the given states one after
/// another.
pub open spec fn collect_states(states: Seq<StateView>) -> AutomatonView
    decreases states.len(),
{
    if states.len() == 0 {
        Seq::empty()
    } else {
        let before = collect_states(states.drop_last());
        let s = states.last();
        if has_key(before, s.position) {
            before.update(index_of(before, s.position), s)
        } else {
            before.push(s)
        }
    }
}

/// The edges of `edges` with every repetition of an earlier edge left out.
pub open spec fn first_occurrences(edges: Seq<Edge>) -> Seq<Edge>
    decreases edges.len(),
{
    if edges.len() == 0 {
        Seq::empty()
    } else {
        let rest = first_occurrences(edges.drop_last());
        if rest.contains(edges.last()) {
            rest
        } else {
            rest.push(edges.last())
        }
    }
}

/// Extending a sequence of edges extends the targets on a symbol accordingly.
pub proof fn lemma_targets_on_push(edges: Seq<Edge>, e: Edge, symbol: char)
    ensures
        targets_on(edges.push(e), symbol) == if e.symbol == symbol {
            targets_on(edges, symbol).push(e.target)
        } else {
            targets_on(edges, symbol)
        },
{
    let keep = |e: Edge| e.symbol == symbol;
    reveal(Seq::filter);
    assert(edges.push(e).drop_last() == edges);
    assert(edges.push(e).filter(keep) == if keep(e) {
        edges.filter(keep).push(e)
    } else {
        edges.filter(keep)
    });
}

/// Filtering keeps a set of edges a set.
pub proof fn lemma_filter_distinct(edges: Seq<Edge>, keep: spec_fn(Edge) -> bool)
    requires
        edges_distinct(edges),
    ensures
        edges_distinct(edges.filter(keep)),
    decreases edges.len(),
{
    reveal(Seq::filter);
    if edges.len() > 0 {
        let front = edges.drop_last();
        assert forall|i: int, j: int| 0 <= i < j < front.len() implies front[i] != front[j] by {
            assert(edges[i] != edges[j]);
        }
        lemma_filter_distinct(front, keep);
        if keep(edges.last()) {
            let f = front.filter(keep);
            assert forall|i: int| 0 <= i < f.len() implies f[i] != edges.last() by {
                front.lemma_filter_contains_rev(keep, f[i]);
                let p = choose|p: int| 0 <= p < front.len() && front[p] == f[i];
                assert(edges[p] != edges[edges.len() - 1]);
            }
        }
    }
}

/// A filter that every element passes changes nothing.
pub proof fn lemma_filter_all(edges: Seq<Edge>, keep: spec_fn(Edge) -> bool)
    requires
        forall|i: int| 0 <= i < edges.len() ==> keep(#[trigger] edges[i]),
    ensures
        edges.filter(keep) == edges,
    decreases edges.len(),
{
    reveal(Seq::filter);
    if edges.len() > 0 {
        lemma_filter_all(edges.drop_last(), keep);
        assert(edges.drop_last().push(edges.last()) == edges);
    }
}

/// Whether `keys` holds `key`.
pub fn contains_key(keys: &Vec<Coordinate>, key: Coordinate) -> (b: bool)
    ensures
        b == keys@.contains(key),
{
    let mut i: usize = 0;
    while i < keys.len()
        invariant
            i <= keys.len(),
            forall|j: int| 0 <= j < i ==> keys@[j] != key,
        decreases keys.len() - i,
    {
        if keys[i] == key {
            return true;
        }
        i += 1;
    }
    false
}

/// Whether `edges` holds `edge`.
pub fn contains_edge(edges: &Vec<Edge>, edge: Edge) -> (b: bool)
    ensures
        b == edges@.contains(edge),
{
    let mut i: usize = 0;
    while i < edges.len()
        invariant
            i <= edges.len(),
            forall|j: int| 0 <= j < i ==> edges@[j] != edge,
        decreases edges.len() - i,
    {
        if edges[i] == edge {
            return true;
        }
        i += 1;
    }
    false
}

} // verus!
