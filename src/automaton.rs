use vstd::prelude::*;
use crate::symbol::{Symbol, in_range};

verus! {

/// Index of the start state of every automaton.
pub const START: usize = 0;

/// One state of an automaton: its transitions, tried in order, and whether it accepts.
struct State<Sym> {
    transitions: Vec<(Sym, Sym, usize)>,
    accepting: bool,
}

/// The mathematical content of a state: each transition is an inclusive
/// symbol range `(lo, hi)` and a target state index.
pub struct StateView<Sym> {
    pub transitions: Seq<(Sym, Sym, usize)>,
    pub accepting: bool,
}

impl<Sym> View for State<Sym> {
    type V = StateView<Sym>;

    closed spec fn view(&self) -> StateView<Sym> {
        StateView { transitions: self.transitions@, accepting: self.accepting }
    }
}

/// A state with no transitions.
pub open spec fn empty_state<Sym>(accepting: bool) -> StateView<Sym> {
    StateView { transitions: Seq::empty(), accepting }
}

/// Target of the first transition in `ts` whose range contains `s`.
pub open spec fn first_match<Sym: Symbol>(ts: Seq<(Sym, Sym, usize)>, s: Sym) -> Option<usize>
    decreases ts.len(),
{
    if ts.len() == 0 {
        None
    } else if in_range(ts[0].0, ts[0].1, s) {
        Some(ts[0].2)
    } else {
        first_match(ts.drop_first(), s)
    }
}

/// The state that `cur` moves to on `sym`; the end-of-input sentinel (`None`),
/// a symbol that no transition takes, or a dead automaton all give `None`.
pub open spec fn next_state<Sym: Symbol>(
    table: Seq<StateView<Sym>>,
    cur: Option<usize>,
    sym: Option<Sym>,
) -> Option<usize> {
    match (cur, sym) {
        (Some(q), Some(s)) => first_match(table[q as int].transitions, s),
        _ => None,
    }
}

/// Whether `cur` is a live, accepting state.
pub open spec fn accepting_at<Sym>(table: Seq<StateView<Sym>>, cur: Option<usize>) -> bool {
    match cur {
        Some(q) => table[q as int].accepting,
        None => false,
    }
}

/// The state reached from `from` after `input`, one symbol at a time.
pub open spec fn run<Sym: Symbol>(
    table: Seq<StateView<Sym>>,
    from: Option<usize>,
    input: Seq<Option<Sym>>,
) -> Option<usize>
    decreases input.len(),
{
    if input.len() == 0 {
        from
    } else {
        next_state(table, run(table, from, input.drop_last()), input.last())
    }
}

/// A well-formed state table: a non-accepting start state, and every
/// transition targets an existing state.
pub open spec fn table_wf<Sym>(table: Seq<StateView<Sym>>) -> bool {
    &&& table.len() > 0
    &&& !table[START as int].accepting
    &&& forall|q: int, k: int|
        0 <= q < table.len() && 0 <= k < table[q].transitions.len()
            ==> (#[trigger] table[q].transitions[k]).2 < table.len()
}

/// A deterministic finite automaton over symbols `Sym`, with a current state
/// (`None` once it has died) and whether the state it held before the last
/// symbol was accepting.
pub struct Automaton<Sym> {
    states: Vec<State<Sym>>,
    current_state: Option<usize>,
    previous_accepting: bool,
}

/// The mathematical content of an automaton.
pub struct AutomatonView<Sym> {
    pub table: Seq<StateView<Sym>>,
    pub current: Option<usize>,
    pub previous_accepting: bool,
}

impl<Sym> View for Automaton<Sym> {
    type V = AutomatonView<Sym>;

    closed spec fn view(&self) -> AutomatonView<Sym> {
        AutomatonView {
            table: self.states@.map_values(|s: State<Sym>| s@),
            current: self.current_state,
            previous_accepting: self.previous_accepting,
        }
    }
}

/// An automaton with table `table`, positioned at its start state.
pub open spec fn fresh<Sym>(table: Seq<StateView<Sym>>) -> AutomatonView<Sym> {
    AutomatonView { table, current: Some(START), previous_accepting: false }
}

/// The automaton `v` after it is fed `sym`.
pub open spec fn after_transition<Sym: Symbol>(v: AutomatonView<Sym>, sym: Option<Sym>) -> AutomatonView<Sym> {
    AutomatonView {
        table: v.table,
        current: next_state(v.table, v.current, sym),
        previous_accepting: accepting_at(v.table, v.current),
    }
}

/// The automaton `v` after it is fed each symbol of `input` in turn.
pub open spec fn feed<Sym: Symbol>(v: AutomatonView<Sym>, input: Seq<Option<Sym>>) -> AutomatonView<Sym>
    decreases input.len(),
{
    if input.len() == 0 {
        v
    } else {
        after_transition(feed(v, input.drop_last()), input.last())
    }
}

impl<Sym: Symbol> State<Sym> {
    /// A state without transitions.
    fn new(accepting: bool) -> (r: Self)
        ensures
            r@ == empty_state::<Sym>(accepting),
    {
        State { transitions: Vec::new(), accepting }
    }

    /// The target of the first transition whose range holds `symbol`, if any.
    fn transition(&self, symbol: Option<Sym>) -> (r: Option<usize>)
        ensures
            r == (match symbol {
                Some(s) => first_match(self@.transitions, s),
                None => None,
            }),
    {
        if let Some(s) = symbol {
            let mut k: usize = 0;
            assert(self.transitions@.subrange(0, self.transitions@.len() as int) =~= self.transitions@);
            while k < self.transitions.len()
                invariant
                    0 <= k <= self.transitions.len(),
                    symbol == Some(s),
                    first_match(self.transitions@, s) == first_match(
                        self.transitions@.subrange(k as int, self.transitions@.len() as int),
                        s,
                    ),
                decreases self.transitions.len() - k,
            {
                let (lo, hi, target) = self.transitions[k];
                let ghost rest = self.transitions@.subrange(k as int, self.transitions@.len() as int);
                assert(rest.drop_first() =~= self.transitions@.subrange(
                    k + 1,
                    self.transitions@.len() as int,
                ));
                assert(rest[0] == (lo, hi, target));
                if lo.sym_le(&s) && s.sym_le(&hi) {
                    return Some(target);
                }
                k = k + 1;
            }
        }
        None
    }
}

impl<Sym: Symbol> Automaton<Sym> {
    /// Well-formed: a well-formed table and a current state inside it.
    pub open spec fn wf(&self) -> bool {
        &&& table_wf(self@.table)
        &&& match self@.current {
            Some(q) => q < self@.table.len(),
            None => true,
        }
    }

    /// Feeds one symbol (`None` is the end-of-input sentinel): records whether
    /// the current state accepts, then moves along the first transition whose
    /// range holds the symbol, or dies.
    pub fn transition(&mut self, symbol: Option<Sym>)
        requires
            old(self).wf(),
        ensures
            final(self).wf(),
            final(self)@ == after_transition(old(self)@, symbol),
    {
        let ghost t = self@.table;
        self.previous_accepting = match self.current_state {
            Some(idx) => self.states[idx].accepting,
            None => false,
        };
        if let Some(state_idx) = self.current_state {
            let next = self.states[state_idx].transition(symbol);
            proof {
                assert(t[state_idx as int] == self.states@[state_idx as int]@);
                if next is Some {
                    lemma_first_match_in_table(t, state_idx as int, symbol.unwrap());
                }
            }
            self.current_state = next;
        }
    }

    /// Whether the state held before the last symbol was accepting.
    pub fn is_previous_accepting(&self) -> (r: bool)
        ensures
            r == self@.previous_accepting,
    {
        self.previous_accepting
    }

    /// Whether the automaton has not died.
    pub fn is_alive(&self) -> (r: bool)
        ensures
            r == self@.current is Some,
    {
        self.current_state.is_some()
    }

    /// Returns to the start state, forgetting all history.
    pub fn reset(&mut self)
        requires
            old(self).wf(),
        ensures
            final(self).wf(),
            final(self)@ == fresh(old(self)@.table),
    {
        self.current_state = Some(START);
        self.previous_accepting = false;
    }
}

/// Incremental construction of an automaton's state table.
pub struct AutomatonBuilder<Sym> {
    states: Vec<State<Sym>>,
}

impl<Sym> View for AutomatonBuilder<Sym> {
    type V = Seq<StateView<Sym>>;

    closed spec fn view(&self) -> Seq<StateView<Sym>> {
        self.states@.map_values(|s: State<Sym>| s@)
    }
}

impl<Sym: Symbol> AutomatonBuilder<Sym> {
    /// Well-formed: the table built so far is a well-formed table.
    pub open spec fn wf(&self) -> bool {
        table_wf(self@)
    }

    /// A table holding only the non-accepting start state.
    pub fn new() -> (r: Self)
        ensures
            r.wf(),
            r@ == seq![empty_state::<Sym>(false)],
    {
        let mut states: Vec<State<Sym>> = Vec::new();
        states.push(State::new(false));
        let r = AutomatonBuilder { states };
        assert(r@ =~= seq![empty_state::<Sym>(false)]);
        r
    }

    /// Appends a state without transitions and returns its index.
    pub fn add_state(&mut self, accepting: bool) -> (r: usize)
        requires
            old(self).wf(),
        ensures
            final(self).wf(),
            r == old(self)@.len(),
            final(self)@ == old(self)@.push(empty_state::<Sym>(accepting)),
    {
        let idx = self.states.len();
        self.states.push(State::new(accepting));
        assert(self@ =~= old(self)@.push(empty_state::<Sym>(accepting)));
        proof {
            let t = self@;
            assert forall|q: int, k: int|
                0 <= q < t.len() && 0 <= k < t[q].transitions.len()
                    implies (#[trigger] t[q].transitions[k]).2 < t.len() by {
                assert(q < old(self)@.len());
                assert(t[q] == old(self)@[q]);
            }
        }
        idx
    }

    /// Appends a transition from state `from` to state `to` on every symbol
    /// from `lo` to `hi` inclusive. It is tried after the transitions that
    /// `from` already has.
    pub fn add_transition(&mut self, from: usize, to: usize, lo: Sym, hi: Sym)
        requires
            old(self).wf(),
            from < old(self)@.len(),
            to < old(self)@.len(),
        ensures
            final(self).wf(),
            final(self)@ == old(self)@.update(
                from as int,
                StateView {
                    transitions: old(self)@[from as int].transitions.push((lo, hi, to)),
                    accepting: old(self)@[from as int].accepting,
                },
            ),
    {
        let ghost before = self@;
        self.states[from].transitions.push((lo, hi, to));
        let ghost new_state = StateView {
            transitions: before[from as int].transitions.push((lo, hi, to)),
            accepting: before[from as int].accepting,
        };
        assert(self@ =~= before.update(from as int, new_state));
        proof {
            let t = self@;
            assert forall|q: int, k: int|
                0 <= q < t.len() && 0 <= k < t[q].transitions.len()
                    implies (#[trigger] t[q].transitions[k]).2 < t.len() by {
                if q == from {
                    if k < before[q].transitions.len() {
                        assert(t[q].transitions[k] == before[q].transitions[k]);
                    }
                } else {
                    assert(t[q] == before[q]);
                }
            }
        }
    }

    /// Freezes the table into an automaton positioned at its start state.
    pub fn build(self) -> (r: Automaton<Sym>)
        requires
            self.wf(),
        ensures
            r.wf(),
            r@ == fresh(self@),
    {
        Automaton { states: self.states, current_state: Some(START), previous_accepting: false }
    }
}

/// The table of the automaton that recognizes exactly `keyword`: a chain of
/// states, one per symbol, where state `i` moves to `i + 1` on `keyword[i]`
/// only, and the last state accepts (unless the keyword is empty).
pub open spec fn keyword_table<Sym>(keyword: Seq<Sym>) -> Seq<StateView<Sym>> {
    Seq::new(
        (keyword.len() + 1) as nat,
        |i: int|
            StateView {
                transitions: if i < keyword.len() {
                    seq![(keyword[i], keyword[i], (i + 1) as usize)]
                } else {
                    Seq::empty()
                },
                accepting: i > 0 && i == keyword.len(),
            },
    )
}

/// Builds the automaton that recognizes exactly the symbol sequence `keyword`.
pub fn keyword_automaton<Sym: Symbol>(keyword: &[Sym]) -> (r: Automaton<Sym>)
    requires
        keyword@.len() < usize::MAX,
    ensures
        r.wf(),
        r@ == fresh(keyword_table(keyword@)),
{
    let n = keyword.len();
    let mut builder = AutomatonBuilder::new();
    let mut i: usize = 0;
    while i < n
        invariant
            n == keyword@.len(),
            n < usize::MAX,
            0 <= i <= n,
            builder.wf(),
            builder@.len() == i + 1,
            forall|q: int|
                0 <= q < i ==> #[trigger] builder@[q] == keyword_table(keyword@)[q],
            builder@[i as int].transitions.len() == 0,
            builder@[i as int].accepting == (i > 0 && i == n),
        decreases n - i,
    {
        let sym = keyword[i];
        let new_state_idx = builder.add_state(i + 1 == n);
        builder.add_transition(new_state_idx - 1, new_state_idx, sym, sym);
        proof {
            let kt = keyword_table(keyword@);
            assert(builder@[i as int].transitions =~= kt[i as int].transitions);
        }
        i = i + 1;
    }
    proof {
        let kt = keyword_table(keyword@);
        assert(builder@[n as int].transitions =~= kt[n as int].transitions);
        assert(builder@ =~= kt);
    }
    builder.build()
}

/// Another name for [`Automaton`].
pub type Automata<Sym> = Automaton<Sym>;

/// Another name for [`AutomatonBuilder`].
pub type AutomataBuilder<Sym> = AutomatonBuilder<Sym>;

/// Another name for [`keyword_automaton`].
pub fn keyword_automata<Sym: Symbol>(keyword: &[Sym]) -> (r: Automata<Sym>)
    requires
        keyword@.len() < usize::MAX,
    ensures
        r.wf(),
        r@ == fresh(keyword_table(keyword@)),
{
    keyword_automaton(keyword)
}

/// Feeding an automaton never changes its table.
pub proof fn lemma_feed_keeps_table<Sym: Symbol>(v: AutomatonView<Sym>, input: Seq<Option<Sym>>)
    ensures
        feed(v, input).table == v.table,
    decreases input.len(),
{
    if input.len() > 0 {
        lemma_feed_keeps_table(v, input.drop_last());
    }
}

/// Resetting forgets all history: an automaton reset after any sequence of
/// symbols is the automaton freshly built from the same table, so it behaves
/// as that one does on every later input.
pub proof fn lemma_reset_restores_fresh<Sym: Symbol>(
    table: Seq<StateView<Sym>>,
    history: Seq<Option<Sym>>,
    input: Seq<Option<Sym>>,
)
    ensures
        fresh(feed(fresh(table), history).table) == fresh(table),
        feed(fresh(feed(fresh(table), history).table), input) == feed(fresh(table), input),
{
    lemma_feed_keeps_table(fresh(table), history);
}

/// The symbols of `keyword`, each as a present (non-sentinel) input.
pub open spec fn present<Sym>(keyword: Seq<Sym>) -> Seq<Option<Sym>> {
    keyword.map_values(|s: Sym| Some(s))
}

/// On the keyword automaton, each prefix of the keyword leads to the state
/// numbered by its length.
proof fn lemma_keyword_prefix<Sym: Symbol>(keyword: Seq<Sym>, i: int)
    requires
        0 <= i <= keyword.len(),
        keyword.len() < usize::MAX,
    ensures
        feed(fresh(keyword_table(keyword)), present(keyword.take(i))).current == Some(i as usize),
        feed(fresh(keyword_table(keyword)), present(keyword.take(i))).table == keyword_table(keyword),
    decreases i,
{
    let kt = keyword_table(keyword);
    lemma_feed_keeps_table(fresh(kt), present(keyword.take(i)));
    if i > 0 {
        lemma_keyword_prefix(keyword, i - 1);
        let input = present(keyword.take(i));
        assert(input.drop_last() =~= present(keyword.take(i - 1)));
        let k = keyword[i - 1];
        k.lemma_le_reflexive();
        let ts = kt[i - 1].transitions;
        assert(ts == seq![(k, k, i as usize)]);
        assert(in_range(ts[0].0, ts[0].1, k));
        assert(input.last() == Some(k));
    }
}

/// A keyword automaton fed exactly its keyword is in an accepting state; the
/// end-of-input sentinel then kills it, and it records that the state it left
/// was accepting.
pub proof fn lemma_keyword_accepts_itself<Sym: Symbol>(keyword: Seq<Sym>)
    requires
        0 < keyword.len() < usize::MAX,
    ensures
        feed(fresh(keyword_table(keyword)), present(keyword)).current is Some,
        accepting_at(
            keyword_table(keyword),
            feed(fresh(keyword_table(keyword)), present(keyword)).current,
        ),
        after_transition(feed(fresh(keyword_table(keyword)), present(keyword)), None).current
            is None,
        after_transition(
            feed(fresh(keyword_table(keyword)), present(keyword)),
            None,
        ).previous_accepting,
{
    lemma_keyword_prefix(keyword, keyword.len() as int);
    assert(keyword.take(keyword.len() as int) =~= keyword);
}

/// Whether `w` is a prefix of `keyword`.
pub open spec fn is_prefix<Sym>(w: Seq<Sym>, keyword: Seq<Sym>) -> bool {
    w.len() <= keyword.len() && w == keyword.take(w.len() as int)
}

/// On the keyword automaton, a prefix of the keyword leads to the state
/// numbered by its length, and any other sequence kills it.
proof fn lemma_keyword_run<Sym: Symbol>(keyword: Seq<Sym>, w: Seq<Sym>)
    requires
        keyword.len() < usize::MAX,
    ensures
        run(keyword_table(keyword), Some(START), present(w)) == if is_prefix(w, keyword) {
            Some(w.len() as usize)
        } else {
            None
        },
    decreases w.len(),
{
    let kt = keyword_table(keyword);
    if w.len() == 0 {
        assert(w =~= keyword.take(0));
    } else {
        let d = w.drop_last();
        let x = w.last();
        lemma_keyword_run(keyword, d);
        assert(present(w).drop_last() =~= present(d));
        assert(d.push(x) =~= w);
        assert(present(w).last() == Some(x));
        assert(run(kt, Some(START), present(w)) == next_state(kt, run(kt, Some(START), present(d)), Some(x)));
        let i = d.len() as int;
        if is_prefix(d, keyword) && i < keyword.len() {
            let k = keyword[i];
            let ts = kt[i].transitions;
            assert(ts == seq![(k, k, (i + 1) as usize)]);
            assert(ts.drop_first() =~= Seq::<(Sym, Sym, usize)>::empty());
            k.lemma_le_reflexive();
            if in_range(k, k, x) {
                k.lemma_le_antisymmetric(&x);
                assert(w =~= keyword.take(w.len() as int));
                assert(first_match(ts, x) == Some((i + 1) as usize));
            } else {
                assert(first_match(ts, x) == first_match(ts.drop_first(), x));
                if is_prefix(w, keyword) {
                    assert(w[i] == keyword.take(w.len() as int)[i]);
                }
            }
        } else if is_prefix(d, keyword) {
            assert(kt[i].transitions =~= Seq::<(Sym, Sym, usize)>::empty());
        } else {
            if is_prefix(w, keyword) {
                assert(d =~= keyword.take(d.len() as int));
            }
        }
    }
}

/// A keyword automaton recognizes its keyword and nothing else: after any
/// sequence of symbols it is in an accepting state exactly when that
/// sequence is the (non-empty) keyword.
pub proof fn lemma_keyword_accepts_only_itself<Sym: Symbol>(keyword: Seq<Sym>, w: Seq<Sym>)
    requires
        keyword.len() < usize::MAX,
    ensures
        accepting_at(keyword_table(keyword), run(keyword_table(keyword), Some(START), present(w)))
            <==> (w == keyword && keyword.len() > 0),
{
    lemma_keyword_run(keyword, w);
    assert(keyword.take(keyword.len() as int) =~= keyword);
}

/// The first matching transition of a list whose targets are all below `n` targets a state below `n`.
proof fn lemma_first_match_bounded<Sym: Symbol>(ts: Seq<(Sym, Sym, usize)>, s: Sym, n: int)
    requires
        forall|k: int| 0 <= k < ts.len() ==> (#[trigger] ts[k]).2 < n,
    ensures
        first_match(ts, s) matches Some(t) ==> t < n,
    decreases ts.len(),
{
    if ts.len() > 0 {
        assert(forall|k: int| 0 <= k < ts.drop_first().len() ==> ts.drop_first()[k] == ts[k + 1]);
        lemma_first_match_bounded(ts.drop_first(), s, n);
    }
}

/// The first matching transition of a state in a well-formed table targets a state of the table.
proof fn lemma_first_match_in_table<Sym: Symbol>(table: Seq<StateView<Sym>>, q: int, s: Sym)
    requires
        table_wf(table),
        0 <= q < table.len(),
    ensures
        first_match(table[q].transitions, s) matches Some(t) ==> t < table.len(),
{
    let ts = table[q].transitions;
    assert forall|k: int| 0 <= k < ts.len() implies (#[trigger] ts[k]).2 < table.len() by {
        assert(table[q].transitions[k].2 < table.len());
    }
    lemma_first_match_bounded(ts, s, table.len() as int);
}

} // verus!
