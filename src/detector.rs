use crate::key::ConnectorKey;
use crate::state::ConnectorState;
use vstd::prelude::*;

verus! {

/// A reading of one connector as handed to the change detector or reported
/// out of the debounce filter.
pub type Reading = (ConnectorKey, ConnectorState);

/// Why a candidate was produced.
#[derive(Clone, Copy, Debug, PartialEq, Eq, Structural)]
pub enum ChangeKind {
    /// The key was not in the baseline: its first observation.
    Initial,
    /// The key was in the baseline with another state.
    Transition,
}

/// A reading that differs from the baseline, not yet confirmed stable.
#[derive(Clone, Copy, Debug, PartialEq, Eq, Structural)]
pub struct Candidate {
    pub key: ConnectorKey,
    pub state: ConnectorState,
    pub kind: ChangeKind,
}

/// The map that a sequence of readings describes; where a key occurs more
/// than once, its last reading wins.
pub open spec fn map_of(s: Seq<Reading>) -> Map<ConnectorKey, ConnectorState>
    decreases s.len(),
{
    if s.len() == 0 {
        Map::empty()
    } else {
        map_of(s.drop_last()).insert(s.last().0, s.last().1)
    }
}

/// No key occurs twice in `s`.
pub open spec fn keys_unique(s: Seq<Reading>) -> bool {
    forall|i: int, j: int| 0 <= i < j < s.len() ==> s[i].0 != s[j].0
}

/// The candidate, if any, that a reading gives against a baseline.
pub open spec fn candidate_for(base: Map<ConnectorKey, ConnectorState>, r: Reading) -> Option<Candidate> {
    if !base.contains_key(r.0) {
        Some(Candidate { key: r.0, state: r.1, kind: ChangeKind::Initial })
    } else if base[r.0] != r.1 {
        Some(Candidate { key: r.0, state: r.1, kind: ChangeKind::Transition })
    } else {
        None
    }
}

/// The candidates that a snapshot gives against a baseline, in snapshot order.
pub open spec fn candidates_of(base: Map<ConnectorKey, ConnectorState>, s: Seq<Reading>) -> Seq<Candidate>
    decreases s.len(),
{
    if s.len() == 0 {
        Seq::empty()
    } else {
        let rest = candidates_of(base, s.drop_last());
        match candidate_for(base, s.last()) {
            Some(c) => rest.push(c),
            None => rest,
        }
    }
}

/// A key is in `map_of(s)` exactly when some reading of `s` has it, and its
/// value there is that of the last such reading.
pub proof fn lemma_map_of_lookup(s: Seq<Reading>, k: ConnectorKey)
    ensures
        map_of(s).contains_key(k) <==> exists|j: int| 0 <= j < s.len() && (#[trigger] s[j]).0 == k,
        forall|j: int|
            0 <= j < s.len() && (#[trigger] s[j]).0 == k && (forall|l: int| j < l < s.len() ==> s[l].0 != k)
                ==> map_of(s)[k] == s[j].1,
    decreases s.len(),
{
    if s.len() > 0 {
        let p = s.drop_last();
        lemma_map_of_lookup(p, k);
        assert forall|j: int| 0 <= j < p.len() implies #[trigger] p[j] == s[j] by {}
        if s.last().0 != k {
            if exists|j: int| 0 <= j < s.len() && (#[trigger] s[j]).0 == k {
                let j = choose|j: int| 0 <= j < s.len() && (#[trigger] s[j]).0 == k;
                assert(p[j].0 == k);
            }
            assert forall|j: int|
                0 <= j < s.len() && (#[trigger] s[j]).0 == k && (forall|l: int| j < l < s.len() ==> s[l].0 != k)
                implies map_of(s)[k] == s[j].1 by {
                assert(p[j].0 == k);
                assert forall|l: int| j < l < p.len() implies p[l].0 != k by {
                    assert(p[l] == s[l]);
                }
            }
        } else {
            assert(s[s.len() - 1].0 == k);
        }
    }
}

/// Holds the baseline: the last snapshot of every connector's state.
pub struct ChangeDetector {
    baseline: Vec<Reading>,
}

impl View for ChangeDetector {
    type V = Map<ConnectorKey, ConnectorState>;

    closed spec fn view(&self) -> Map<ConnectorKey, ConnectorState> {
        map_of(self.baseline@)
    }
}

impl ChangeDetector {
    /// A detector with an empty baseline.
    pub fn new() -> (r: ChangeDetector)
        ensures
            r@ == Map::<ConnectorKey, ConnectorState>::empty(),
    {
        ChangeDetector { baseline: Vec::new() }
    }

    /// The baseline state of `key`, if it has one.
    pub fn baseline_state(&self, key: ConnectorKey) -> (r: Option<ConnectorState>)
        ensures
            r == (if self@.contains_key(key) { Some(self@[key]) } else { None::<ConnectorState> }),
    {
        let mut i: usize = self.baseline.len();
        while i > 0
            invariant
                i <= self.baseline@.len(),
                forall|l: int| i <= l < self.baseline@.len() ==> self.baseline@[l].0 != key,
            decreases i,
        {
            i = i - 1;
            if self.baseline[i].0 == key {
                proof {
                    lemma_map_of_lookup(self.baseline@, key);
                }
                return Some(self.baseline[i].1);
            }
        }
        proof {
            lemma_map_of_lookup(self.baseline@, key);
        }
        None
    }

    /// Compares a snapshot with the baseline and then makes the snapshot the
    /// new baseline (a full replace: keys missing from the snapshot leave it).
    ///
    /// For each reading, in order: a key not in the baseline gives an
    /// `Initial` candidate, a key whose baseline state differs gives a
    /// `Transition` candidate, and an unchanged key gives nothing.
    pub fn diff(&mut self, new_states: Vec<Reading>) -> (r: Vec<Candidate>)
        ensures
            r@ == candidates_of(old(self)@, new_states@),
            final(self)@ == map_of(new_states@),
    {
        let mut out: Vec<Candidate> = Vec::new();
        let mut i: usize = 0;
        while i < new_states.len()
            invariant
                i <= new_states@.len(),
                out@ == candidates_of(self@, new_states@.take(i as int)),
            decreases new_states@.len() - i,
        {
            let (key, state) = new_states[i];
            let found = self.baseline_state(key);
            proof {
                let t = new_states@.take(i as int + 1);
                assert(t.drop_last() =~= new_states@.take(i as int));
                assert(t.last() == (key, state));
            }
            match found {
                None => {
                    out.push(Candidate { key, state, kind: ChangeKind::Initial });
                },
                Some(prev) => {
                    if prev != state {
                        out.push(Candidate { key, state, kind: ChangeKind::Transition });
                    }
                },
            }
            i = i + 1;
        }
        assert(new_states@.take(new_states@.len() as int) =~= new_states@);
        self.baseline = new_states;
        out
    }
}

} // verus!
