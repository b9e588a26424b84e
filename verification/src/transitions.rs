//! Single transitions spelled out by key, and what sequences of them have
//! to be to form a loop.

use crate::text::{chars_of, string_of};
use vstd::prelude::*;

verus! {

/// One transition: from the state with one key, on a symbol, to the state
/// with another key.
#[derive(Debug, PartialEq, Eq, Hash)]
pub struct RegularAutomataTransition {
    pub starting_state_key: String,
    pub connection_character: String,
    pub ending_state_key: String,
}

/// What a transition is, mathematically.
pub struct TransitionView {
    pub start: Seq<char>,
    pub symbol: Seq<char>,
    pub end: Seq<char>,
}

impl View for RegularAutomataTransition {
    type V = TransitionView;

    open spec fn view(&self) -> TransitionView {
        TransitionView {
            start: self.starting_state_key@,
            symbol: self.connection_character@,
            end: self.ending_state_key@,
        }
    }
}

impl Clone for RegularAutomataTransition {
    fn clone(&self) -> (r: RegularAutomataTransition)
        ensures
            r@ == self@,
    {
        RegularAutomataTransition {
            starting_state_key: self.starting_state_key.clone(),
            connection_character: self.connection_character.clone(),
            ending_state_key: self.ending_state_key.clone(),
        }
    }
}

/// A sequence of transitions.
pub type RegularAutomataTransitions = Vec<RegularAutomataTransition>;

/// Why a sequence of transitions is no loop.
#[derive(Debug, PartialEq, Eq, Clone, Copy, Structural)]
pub enum LoopingTransitionErrors {
    ZeroLengthTransitionsProvided,
    TransitionsDoNotFormLoop,
    TransitionsNotContinuous,
}

impl RegularAutomataTransition {
    /// The transition from `starting_state_key` on `connection_character`
    /// to `ending_state_key`.
    pub fn new(starting_state_key: &str, connection_character: &str, ending_state_key: &str) -> (r: Self)
        ensures
            r@ == (TransitionView {
                start: starting_state_key@,
                symbol: connection_character@,
                end: ending_state_key@,
            }),
    {
        RegularAutomataTransition {
            starting_state_key: starting_state_key.to_owned(),
            connection_character: connection_character.to_owned(),
            ending_state_key: ending_state_key.to_owned(),
        }
    }

    /// The keys of the state the transition leaves and of the state it
    /// enters.
    pub fn get_start_and_end_state_keys(&self) -> (r: (String, String))
        ensures
            r.0@ == self@.start,
            r.1@ == self@.end,
    {
        (self.starting_state_key.clone(), self.ending_state_key.clone())
    }

    /// The symbol of the transition.
    pub fn get_connection_character(&self) -> (r: &str)
        ensures
            r@ == self@.symbol,
    {
        self.connection_character.as_str()
    }

    /// Whether two transitions are the same.
    pub fn same_as(&self, other: &RegularAutomataTransition) -> (b: bool)
        ensures
            b == (self@ == other@),
    {
        self.starting_state_key == other.starting_state_key && self.connection_character
            == other.connection_character && self.ending_state_key == other.ending_state_key
    }
}

/// The views of a sequence of transitions.
pub open spec fn transition_views(ts: Seq<RegularAutomataTransition>) -> Seq<TransitionView> {
    Seq::new(ts.len(), |i: int| ts[i]@)
}

/// Whether the transitions close a loop: there is one, and the last one
/// ends where the first one starts.
pub open spec fn loop_check(ts: Seq<TransitionView>) -> Result<(), LoopingTransitionErrors> {
    if ts.len() == 0 {
        Err(LoopingTransitionErrors::ZeroLengthTransitionsProvided)
    } else if ts[0].start != ts.last().end {
        Err(LoopingTransitionErrors::TransitionsDoNotFormLoop)
    } else {
        Ok(())
    }
}

/// Whether every transition starts where the one before it ends.
pub open spec fn is_continuous(ts: Seq<TransitionView>) -> bool {
    forall|i: int| 0 <= i < ts.len() - 1 ==> (#[trigger] ts[i]).end == ts[i + 1].start
}

/// Whether every transition starts where the one before it ends.
pub open spec fn continuity_check(ts: Seq<TransitionView>) -> Result<(), LoopingTransitionErrors> {
    if is_continuous(ts) {
        Ok(())
    } else {
        Err(LoopingTransitionErrors::TransitionsNotContinuous)
    }
}

/// Whether the transitions form a valid loop: they close a loop, and they
/// are continuous.
pub open spec fn valid_loop_check(ts: Seq<TransitionView>) -> Result<(), LoopingTransitionErrors> {
    match loop_check(ts) {
        Err(e) => Err(e),
        Ok(_) => continuity_check(ts),
    }
}

/// The symbols of the transitions, one after another.
pub open spec fn consumed_string(ts: Seq<TransitionView>) -> Seq<char>
    decreases ts.len(),
{
    if ts.len() == 0 {
        Seq::empty()
    } else {
        consumed_string(ts.drop_last()) + ts.last().symbol
    }
}

/// Whether some transition starts or ends at the state with the key.
pub open spec fn touches_key(ts: Seq<TransitionView>, key: Seq<char>) -> bool {
    exists|i: int| 0 <= i < ts.len() && ((#[trigger] ts[i]).start == key || ts[i].end == key)
}

/// The position in a loop of `len` transitions that lies `k` behind
/// position `p`, going round.
pub open spec fn rotated(p: int, k: int, len: int) -> int {
    if p + k < len {
        p + k
    } else {
        p + k - len
    }
}

/// Whether `p` is the first position at which `t` occurs.
pub open spec fn is_first_position(ts: Seq<TransitionView>, t: TransitionView, p: int) -> bool {
    &&& 0 <= p < ts.len()
    &&& ts[p] == t
    &&& forall|j: int| 0 <= j < p ==> #[trigger] ts[j] != t
}

/// Whether two loops of the same length are the same loop, begun at
/// different transitions: read from the first place at which the first
/// transition of the one occurs in the other, and going round, the other
/// holds the same transitions in the same order.
pub open spec fn same_loop(ts: Seq<TransitionView>, other: Seq<TransitionView>) -> bool {
    &&& ts.len() == other.len()
    &&& ts.len() > 0
    &&& exists|p: int|
        is_first_position(other, ts[0], p) && forall|k: int|
            0 <= k < ts.len() ==> #[trigger] ts[k] == other[rotated(p, k, ts.len() as int)]
}

/// What sequences of transitions offer where loops are looked for.
pub trait LoopHandling {
    spec fn views(&self) -> Seq<TransitionView>;

    /// Whether the transitions close a loop: fails without a transition,
    /// and where the last one does not end at the start of the first.
    fn are_transitions_a_loop(&self) -> (r: Result<(), LoopingTransitionErrors>)
        ensures
            r == loop_check(self.views()),
    ;

    /// Whether every transition starts where the one before it ends.
    fn are_transitions_continuous(&self) -> (r: Result<(), LoopingTransitionErrors>)
        ensures
            r == continuity_check(self.views()),
    ;

    /// Whether the transitions form a valid loop.
    fn do_transitions_form_valid_loop(&self) -> (r: Result<(), LoopingTransitionErrors>)
        ensures
            r == valid_loop_check(self.views()),
    ;

    /// The string that going round the loop consumes.
    fn get_string_consumed_by_loop(&self) -> (r: Result<String, LoopingTransitionErrors>)
        ensures
            r is Ok <==> valid_loop_check(self.views()) is Ok,
            r is Err ==> Err::<(), LoopingTransitionErrors>(r->Err_0) == valid_loop_check(self.views()),
            r is Ok ==> (r->Ok_0)@ == consumed_string(self.views()),
    ;

    /// Whether the loop passes the state with the key.
    fn is_state_key_in_loop(&self, state_key: &str) -> (r: Result<bool, LoopingTransitionErrors>)
        ensures
            r is Ok <==> valid_loop_check(self.views()) is Ok,
            r is Err ==> Err::<(), LoopingTransitionErrors>(r->Err_0) == valid_loop_check(self.views()),
            r is Ok ==> r->Ok_0 == touches_key(self.views(), state_key@),
    ;

    /// Whether two loops are the same loop, begun at different
    /// transitions. Fails where one of them is no valid loop, the first
    /// one deciding the error.
    fn are_loops_equivalent(&self, transitions_to_compare: &RegularAutomataTransitions) -> (r: Result<
        bool,
        LoopingTransitionErrors,
    >)
        ensures
            valid_loop_check(self.views()) is Err ==> r == Err::<bool, LoopingTransitionErrors>(
                valid_loop_check(self.views())->Err_0,
            ),
            valid_loop_check(self.views()) is Ok && valid_loop_check(transition_views(transitions_to_compare@))
                is Err ==> r == Err::<bool, LoopingTransitionErrors>(
                valid_loop_check(transition_views(transitions_to_compare@))->Err_0,
            ),
            valid_loop_check(self.views()) is Ok && valid_loop_check(transition_views(transitions_to_compare@))
                is Ok ==> r == Ok::<bool, LoopingTransitionErrors>(
                same_loop(self.views(), transition_views(transitions_to_compare@)),
            ),
    ;
}

impl LoopHandling for Vec<RegularAutomataTransition> {
    open spec fn views(&self) -> Seq<TransitionView> {
        transition_views(self@)
    }

    fn are_transitions_a_loop(&self) -> (r: Result<(), LoopingTransitionErrors>) {
        if self.len() < 1 {
            return Err(LoopingTransitionErrors::ZeroLengthTransitionsProvided);
        }
        let first = &self[0];
        let last = &self[self.len() - 1];
        assert(self.views()[0] == self@[0]@);
        assert(self.views().last() == self@[self@.len() - 1]@);
        if first.starting_state_key != last.ending_state_key {
            return Err(LoopingTransitionErrors::TransitionsDoNotFormLoop);
        }
        Ok(())
    }

    fn are_transitions_continuous(&self) -> (r: Result<(), LoopingTransitionErrors>) {
        let ghost ts = self.views();
        if self.len() == 0 {
            assert(is_continuous(ts));
            return Ok(());
        }
        let mut i: usize = 0;
        while i < self.len() - 1
            invariant
                ts == transition_views(self@),
                self@.len() > 0,
                i <= self@.len(),
                forall|j: int| 0 <= j < i && j < ts.len() - 1 ==> (#[trigger] ts[j]).end == ts[j + 1].start,
            decreases self.len() - i,
        {
            assert(ts[i as int] == self@[i as int]@);
            assert(ts[i + 1] == self@[i + 1]@);
            if self[i].ending_state_key != self[i + 1].starting_state_key {
                assert(!is_continuous(ts)) by {
                    if is_continuous(ts) {
                        assert(ts[i as int].end == ts[i as int + 1].start);
                    }
                }
                return Err(LoopingTransitionErrors::TransitionsNotContinuous);
            }
            i += 1;
        }
        assert(is_continuous(ts));
        Ok(())
    }

    fn do_transitions_form_valid_loop(&self) -> (r: Result<(), LoopingTransitionErrors>) {
        match self.are_transitions_a_loop() {
            Err(e) => Err(e),
            Ok(_) => self.are_transitions_continuous(),
        }
    }

    #[verifier::loop_isolation(false)]
    fn get_string_consumed_by_loop(&self) -> (r: Result<String, LoopingTransitionErrors>) {
        match self.do_transitions_form_valid_loop() {
            Err(e) => {
                return Err(e);
            },
            Ok(_) => {},
        }
        let ghost ts = self.views();
        let mut consumed: Vec<char> = Vec::new();
        let mut i: usize = 0;
        assert(ts.subrange(0, 0) =~= Seq::<TransitionView>::empty());
        while i < self.len()
            invariant
                ts == transition_views(self@),
                i <= self@.len(),
                consumed@ == consumed_string(ts.subrange(0, i as int)),
            decreases self.len() - i,
        {
            let symbol = chars_of(self[i].connection_character.as_str());
            proof {
                assert(ts.subrange(0, i + 1).drop_last() == ts.subrange(0, i as int));
                assert(ts.subrange(0, i + 1).last() == self@[i as int]@);
            }
            let mut k: usize = 0;
            let ghost before = consumed@;
            while k < symbol.len()
                invariant
                    k <= symbol@.len(),
                    consumed@ == before + symbol@.subrange(0, k as int),
                decreases symbol.len() - k,
            {
                consumed.push(symbol[k]);
                assert(consumed@ =~= before + symbol@.subrange(0, k + 1));
                k += 1;
            }
            assert(symbol@.subrange(0, k as int) == symbol@);
            i += 1;
        }
        assert(ts.subrange(0, i as int) == ts);
        Ok(string_of(&consumed))
    }

    #[verifier::loop_isolation(false)]
    fn is_state_key_in_loop(&self, state_key: &str) -> (r: Result<bool, LoopingTransitionErrors>) {
        match self.do_transitions_form_valid_loop() {
            Err(e) => {
                return Err(e);
            },
            Ok(_) => {},
        }
        let ghost ts = self.views();
        let key = state_key.to_owned();
        let mut i: usize = 0;
        while i < self.len()
            invariant
                ts == transition_views(self@),
                key@ == state_key@,
                i <= self@.len(),
                forall|j: int| 0 <= j < i ==> !((#[trigger] ts[j]).start == key@ || ts[j].end == key@),
            decreases self.len() - i,
        {
            assert(ts[i as int] == self@[i as int]@);
            if self[i].starting_state_key == key || self[i].ending_state_key == key {
                assert(ts[i as int].start == key@ || ts[i as int].end == key@);
                return Ok(true);
            }
            i += 1;
        }
        Ok(false)
    }

    #[verifier::loop_isolation(false)]
    fn are_loops_equivalent(&self, transitions_to_compare: &RegularAutomataTransitions) -> (r: Result<
        bool,
        LoopingTransitionErrors,
    >) {
        match self.do_transitions_form_valid_loop() {
            Err(e) => {
                return Err(e);
            },
            Ok(_) => {},
        }
        match transitions_to_compare.do_transitions_form_valid_loop() {
            Err(e) => {
                return Err(e);
            },
            Ok(_) => {},
        }
        let ghost ts = self.views();
        let ghost other = transition_views(transitions_to_compare@);
        if self.len() != transitions_to_compare.len() {
            return Ok(false);
        }
        let len = self.len();
        assert(ts[0] == self@[0]@);
        let mut p: usize = 0;
        while p < len && !self[0].same_as(&transitions_to_compare[p])
            invariant
                ts == transition_views(self@),
                other == transition_views(transitions_to_compare@),
                len == ts.len(),
                len == other.len(),
                len > 0,
                p <= len,
                forall|j: int| 0 <= j < p ==> #[trigger] other[j] != ts[0],
            decreases len - p,
        {
            assert(other[p as int] == transitions_to_compare@[p as int]@);
            p += 1;
        }
        if p == len {
            assert(!same_loop(ts, other)) by {
                if same_loop(ts, other) {
                    let q = choose|q: int| is_first_position(other, ts[0], q);
                    assert(other[q] != ts[0]);
                }
            }
            return Ok(false);
        }
        assert(other[p as int] == transitions_to_compare@[p as int]@);
        assert(is_first_position(other, ts[0], p as int));
        let mut k: usize = 0;
        let mut at: usize = p;
        while k < len
            invariant
                ts == transition_views(self@),
                other == transition_views(transitions_to_compare@),
                len == ts.len(),
                len == other.len(),
                len > 0,
                p < len,
                k <= len,
                at < len,
                at == rotated(p as int, k as int, len as int) || k == len,
                is_first_position(other, ts[0], p as int),
                forall|j: int| 0 <= j < k ==> #[trigger] ts[j] == other[rotated(p as int, j, len as int)],
            decreases len - k,
        {
            assert(ts[k as int] == self@[k as int]@);
            assert(other[at as int] == transitions_to_compare@[at as int]@);
            if !self[k].same_as(&transitions_to_compare[at]) {
                assert(!same_loop(ts, other)) by {
                    if same_loop(ts, other) {
                        let q = choose|q: int|
                            is_first_position(other, ts[0], q) && forall|j: int|
                                0 <= j < ts.len() ==> #[trigger] ts[j] == other[rotated(q, j, ts.len() as int)];
                        if q < p {
                            assert(other[q] != ts[0]);
                        } else if p < q {
                            assert(other[p as int] != ts[0]);
                        }
                        assert(ts[k as int] == other[rotated(q, k as int, ts.len() as int)]);
                    }
                }
                return Ok(false);
            }
            k += 1;
            at += 1;
            if at == len {
                at = 0;
            }
        }
        assert(same_loop(ts, other));
        Ok(true)
    }
}

} // verus!
