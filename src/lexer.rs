use vstd::prelude::*;
use crate::symbol::Symbol;
use crate::automaton::{Automaton, StateView, run, accepting_at, next_state, fresh, START};
use crate::scan::{reachable, lemma_step_reachable};

verus! {

/// A closed set of token tags chosen by the caller: one of them stands for
/// input that no automaton recognizes, and each says whether its tokens keep
/// the symbols they matched.
pub trait TokenKind: Copy + Eq {
    /// The tag of tokens that no automaton recognized.
    fn unknown() -> Self;

    /// Whether tokens of this kind keep their matched symbols.
    fn has_text(&self) -> bool;
}

/// A classified run of input symbols.
pub struct Token<Sym, K> {
    pub kind: K,
    /// The matched symbols, kept only where the kind asks for them.
    pub text: Option<Vec<Sym>>,
    /// The number of symbols matched.
    pub len: usize,
}

impl<Sym, K: TokenKind> Token<Sym, K> {
    /// A token of kind `kind` over `text`; the text stays only if the kind keeps text.
    fn new(kind: K, text: Vec<Sym>) -> (r: Self)
        ensures
            r.kind == kind,
            r.len == text@.len(),
            match r.text {
                Some(t) => t@ == text@,
                None => true,
            },
    {
        let len = text.len();
        let keep = kind.has_text();
        Token { kind, text: if keep { Some(text) } else { None }, len }
    }
}

/// The state that an automaton with table `table` reaches from its start on `fed`.
pub open spec fn state_after<Sym: Symbol>(table: Seq<StateView<Sym>>, fed: Seq<Option<Sym>>) -> Option<usize> {
    run(table, Some(START), fed)
}

/// Whether an automaton with table `table` is still alive after `fed`.
pub open spec fn alive_after<Sym: Symbol>(table: Seq<StateView<Sym>>, fed: Seq<Option<Sym>>) -> bool {
    state_after(table, fed) is Some
}

/// Whether an automaton with table `table` is in an accepting state after `fed`.
pub open spec fn accepts<Sym: Symbol>(table: Seq<StateView<Sym>>, fed: Seq<Option<Sym>>) -> bool {
    accepting_at(table, state_after(table, fed))
}

/// Whether some automaton of `tables` is still alive after `fed`.
pub open spec fn some_alive<Sym: Symbol>(tables: Seq<Seq<StateView<Sym>>>, fed: Seq<Option<Sym>>) -> bool {
    exists|i: int| 0 <= i < tables.len() && alive_after(#[trigger] tables[i], fed)
}

/// The lowest index below `n` whose automaton accepts after `fed`.
pub open spec fn first_accepting<Sym: Symbol>(
    tables: Seq<Seq<StateView<Sym>>>,
    fed: Seq<Option<Sym>>,
    n: int,
) -> Option<int>
    decreases n,
{
    if n <= 0 {
        None
    } else {
        match first_accepting(tables, fed, n - 1) {
            Some(i) => Some(i),
            None => if accepts(tables[n - 1], fed) {
                Some(n - 1)
            } else {
                None
            },
        }
    }
}

/// The symbols of `fed`, without sentinels.
pub open spec fn symbols_of<Sym>(fed: Seq<Option<Sym>>) -> Seq<Sym>
    decreases fed.len(),
{
    if fed.len() == 0 {
        Seq::empty()
    } else {
        match fed.last() {
            Some(s) => symbols_of(fed.drop_last()).push(s),
            None => symbols_of(fed.drop_last()),
        }
    }
}

/// A token as the scan decides it: the index of the automaton that
/// classifies it (`None` for unknown input) and the symbols it covers.
pub struct Lexeme<Sym> {
    pub winner: Option<int>,
    pub symbols: Seq<Sym>,
}

/// One step of the scan. `fed` holds what every automaton has been fed since
/// the last token boundary. When no automaton survives `s`, the symbols fed
/// so far form a token, classified by the first automaton that accepted them,
/// and `s` starts the next one.
pub open spec fn scan_step<Sym: Symbol>(
    tables: Seq<Seq<StateView<Sym>>>,
    fed: Seq<Option<Sym>>,
    s: Option<Sym>,
) -> (Seq<Option<Sym>>, Option<Lexeme<Sym>>) {
    if some_alive(tables, fed.push(s)) {
        (fed.push(s), None)
    } else {
        (
            seq![s],
            Some(Lexeme { winner: first_accepting(tables, fed, tables.len() as int), symbols: symbols_of(fed) }),
        )
    }
}

/// The scan of `input` from `fed`: what is fed at its end, and the tokens, in order.
pub open spec fn scan<Sym: Symbol>(
    tables: Seq<Seq<StateView<Sym>>>,
    fed: Seq<Option<Sym>>,
    input: Seq<Option<Sym>>,
) -> (Seq<Option<Sym>>, Seq<Lexeme<Sym>>)
    decreases input.len(),
{
    if input.len() == 0 {
        (fed, Seq::empty())
    } else {
        let (f, ts) = scan(tables, fed, input.drop_last());
        let (f2, t) = scan_step(tables, f, input.last());
        (
            f2,
            match t {
                Some(x) => ts.push(x),
                None => ts,
            },
        )
    }
}

/// Whether `tok` is the token that `lx` describes, with `kinds` the tags of
/// the automata and `unknown` the tag of unknown input.
pub open spec fn token_of<Sym, K>(tok: Token<Sym, K>, lx: Lexeme<Sym>, kinds: Seq<K>, unknown: K) -> bool {
    &&& tok.kind == (match lx.winner {
        Some(i) => kinds[i],
        None => unknown,
    })
    &&& tok.len == lx.symbols.len()
    &&& match tok.text {
        Some(t) => t@ == lx.symbols,
        None => true,
    }
}

/// The longest-match driver: runs a priority-ordered list of automata in
/// lock step over the input and emits a token each time all of them have died.
pub struct Lexer<Sym, K> {
    automata: Vec<(Automaton<Sym>, K)>,
    active_automata: Vec<usize>,
    token_text: Vec<Sym>,
    unknown: K,
    fed: Ghost<Seq<Option<Sym>>>,
}

impl<Sym: Symbol, K: TokenKind> Lexer<Sym, K> {
    /// The tables of the automata, in priority order.
    pub closed spec fn tables(&self) -> Seq<Seq<StateView<Sym>>> {
        self.automata@.map_values(|p: (Automaton<Sym>, K)| p.0@.table)
    }

    /// The token kinds of the automata, in priority order.
    pub closed spec fn kinds(&self) -> Seq<K> {
        self.automata@.map_values(|p: (Automaton<Sym>, K)| p.1)
    }

    /// The kind given to unknown input, as `K::unknown()` gave it at construction.
    pub closed spec fn unknown_kind(&self) -> K {
        self.unknown
    }

    /// What the automata have been fed since the last token boundary.
    pub closed spec fn fed(&self) -> Seq<Option<Sym>> {
        self.fed@
    }

    /// Whether index `i` is still in contention at the start of the next step.
    closed spec fn in_contention(&self, i: int) -> bool {
        self.fed@.len() == 0 || alive_after(self.tables()[i], self.fed@.drop_last())
    }

    /// Well-formed: each automaton is well formed and sits where its table
    /// leads on what was fed since the last boundary; the indices in
    /// contention are, in increasing order, those whose automaton was alive
    /// before the last symbol; the kept text is what was fed, without the
    /// sentinel; and what was fed is reachable by the scan.
    pub closed spec fn wf(&self) -> bool {
        let n = self.automata@.len();
        &&& forall|i: int| 0 <= i < n ==> (#[trigger] self.automata@[i]).0.wf()
        &&& forall|i: int|
            0 <= i < n ==> (#[trigger] self.automata@[i]).0@.current == state_after(
                self.tables()[i],
                self.fed@,
            )
        &&& forall|a: int, b: int|
            0 <= a < b < self.active_automata@.len() ==> self.active_automata@[a]
                < self.active_automata@[b]
        &&& forall|m: int|
            0 <= m < self.active_automata@.len() ==> #[trigger] self.active_automata@[m] < n
        &&& forall|i: int|
            0 <= i < n ==> (self.active_automata@.contains(i as usize) <==> self.in_contention(i))
        &&& self.token_text@ == symbols_of(self.fed@)
        &&& reachable(self.tables(), self.fed@)
    }

    /// What a well-formed lexer has fed since the last boundary is reachable by the scan.
    pub proof fn lemma_fed_reachable(&self)
        requires
            self.wf(),
        ensures
            reachable(self.tables(), self.fed()),
    {
    }
}


/// Feeding one more symbol moves each automaton one step on from where it was.
pub proof fn lemma_state_after_push<Sym: Symbol>(table: Seq<StateView<Sym>>, fed: Seq<Option<Sym>>, s: Option<Sym>)
    ensures
        state_after(table, fed.push(s)) == next_state(table, state_after(table, fed), s),
{
    assert(fed.push(s).drop_last() =~= fed);
}

/// `first_accepting` is the lowest accepting index, or `None` when none below `n` accepts.
pub proof fn lemma_first_accepting<Sym: Symbol>(tables: Seq<Seq<StateView<Sym>>>, fed: Seq<Option<Sym>>, n: int)
    requires
        0 <= n <= tables.len(),
    ensures
        match first_accepting(tables, fed, n) {
            Some(w) => 0 <= w < n && accepts(tables[w], fed) && forall|j: int|
                0 <= j < w ==> !accepts(#[trigger] tables[j], fed),
            None => forall|j: int| 0 <= j < n ==> !accepts(#[trigger] tables[j], fed),
        },
    decreases n,
{
    if n > 0 {
        lemma_first_accepting(tables, fed, n - 1);
    }
}

/// An automaton dead after `fed` stays dead after one more symbol.
proof fn lemma_dead_stays_dead<Sym: Symbol>(table: Seq<StateView<Sym>>, fed: Seq<Option<Sym>>, s: Option<Sym>)
    requires
        !alive_after(table, fed),
    ensures
        !alive_after(table, fed.push(s)),
        state_after(table, fed.push(s)) == state_after(table, fed),
{
    lemma_state_after_push(table, fed, s);
}

/// An automaton alive after `fed` was alive after every shorter prefix of it.
pub proof fn lemma_alive_prefix<Sym: Symbol>(table: Seq<StateView<Sym>>, fed: Seq<Option<Sym>>)
    requires
        fed.len() > 0,
        alive_after(table, fed),
    ensures
        alive_after(table, fed.drop_last()),
{
    assert(fed.drop_last().push(fed.last()) =~= fed);
    lemma_state_after_push(table, fed.drop_last(), fed.last());
}

/// The symbols of `fed` followed by `s`.
pub proof fn lemma_symbols_of_push<Sym>(fed: Seq<Option<Sym>>, s: Option<Sym>)
    ensures
        symbols_of(fed.push(s)) == (match s {
            Some(x) => symbols_of(fed).push(x),
            None => symbols_of(fed),
        }),
{
    assert(fed.push(s).drop_last() =~= fed);
}

impl<Sym: Symbol, K: TokenKind> Lexer<Sym, K> {
    /// A driver over `automata`, in priority order: an earlier automaton wins
    /// a tie. Each automaton starts from its start state.
    pub fn new(automata: Vec<(Automaton<Sym>, K)>) -> (r: Self)
        requires
            forall|i: int| 0 <= i < automata@.len() ==> (#[trigger] automata@[i]).0.wf(),
        ensures
            r.wf(),
            r.tables() == automata@.map_values(|p: (Automaton<Sym>, K)| p.0@.table),
            r.kinds() == automata@.map_values(|p: (Automaton<Sym>, K)| p.1),
            r.fed() == Seq::<Option<Sym>>::empty(),
    {
        let unknown = K::unknown();
        let mut lexer = Lexer {
            automata,
            active_automata: Vec::new(),
            token_text: Vec::new(),
            unknown,
            fed: Ghost(Seq::empty()),
        };
        lexer.reset_automata();
        proof {
            assert(lexer.tables() =~= automata@.map_values(|p: (Automaton<Sym>, K)| p.0@.table));
            assert(lexer.kinds() =~= automata@.map_values(|p: (Automaton<Sym>, K)| p.1));
            let n = lexer.automata@.len();
            assert forall|i: int| 0 <= i < n implies #[trigger] lexer.active_automata@.contains(i as usize) by {
                assert(lexer.active_automata@[i] == i);
            }
            assert(lexer.token_text@ =~= symbols_of(lexer.fed@));
            assert forall|i: int| 0 <= i < n implies (#[trigger] lexer.automata@[i]).0@.current == state_after(
                lexer.tables()[i],
                lexer.fed@,
            ) by {
                assert(lexer.automata@[i].0@ == fresh(lexer.tables()[i]));
            }
        }
        lexer
    }

    /// Puts every automaton back at its start state, all of them in contention.
    fn reset_automata(&mut self)
        requires
            forall|i: int| 0 <= i < old(self).automata@.len() ==> (#[trigger] old(self).automata@[i]).0.wf(),
        ensures
            final(self).automata@.len() == old(self).automata@.len(),
            final(self).tables() == old(self).tables(),
            final(self).kinds() == old(self).kinds(),
            final(self).token_text == old(self).token_text,
            final(self).unknown == old(self).unknown,
            final(self).fed == old(self).fed,
            forall|i: int|
                0 <= i < final(self).automata@.len() ==> (#[trigger] final(self).automata@[i]).0.wf()
                    && final(self).automata@[i].0@ == fresh(final(self).tables()[i]),
            final(self).active_automata@.len() == final(self).automata@.len(),
            forall|j: int|
                0 <= j < final(self).automata@.len() ==> #[trigger] final(self).active_automata@[j] == j,
    {
        let n = self.automata.len();
        let mut active: Vec<usize> = Vec::new();
        let mut i: usize = 0;
        while i < n
            invariant
                n == self.automata@.len(),
                n == old(self).automata@.len(),
                0 <= i <= n,
                self.tables() == old(self).tables(),
                self.kinds() == old(self).kinds(),
                self.token_text == old(self).token_text,
                self.unknown == old(self).unknown,
                self.fed == old(self).fed,
                forall|j: int| 0 <= j < n ==> (#[trigger] self.automata@[j]).0.wf(),
                forall|j: int| 0 <= j < i ==> (#[trigger] self.automata@[j]).0@ == fresh(self.tables()[j]),
                active@.len() == i,
                forall|j: int| 0 <= j < i ==> #[trigger] active@[j] == j,
            decreases n - i,
        {
            let ghost before = self.automata@;
            self.automata[i].0.reset();
            proof {
                assert forall|j: int| 0 <= j < n && j != i implies self.automata@[j] == before[j] by {}
                assert(self.tables() =~= old(self).tables()) by {
                    assert forall|j: int| 0 <= j < n implies self.tables()[j] == old(self).tables()[j] by {
                        if j != i {
                            assert(self.automata@[j] == before[j]);
                        }
                    }
                }
                assert(self.kinds() =~= old(self).kinds()) by {
                    assert forall|j: int| 0 <= j < n implies self.kinds()[j] == old(self).kinds()[j] by {
                        if j != i {
                            assert(self.automata@[j] == before[j]);
                        }
                    }
                }
            }
            active.push(i);
            i = i + 1;
        }
        self.active_automata = active;
    }

    /// Feeds one symbol (`None` ends the input) to every automaton still in
    /// contention. When all of them have died, returns the token made of the
    /// symbols fed since the last boundary, classified by the first automaton
    /// (in priority order) that was accepting just before it died, or as
    /// unknown input when none was; `symbol` then starts the next token.
    pub fn step(&mut self, symbol: Option<Sym>) -> (r: Option<Token<Sym, K>>)
        requires
            old(self).wf(),
        ensures
            final(self).wf(),
            final(self).tables() == old(self).tables(),
            final(self).kinds() == old(self).kinds(),
            final(self).unknown_kind() == old(self).unknown_kind(),
            final(self).fed() == scan_step(old(self).tables(), old(self).fed(), symbol).0,
            match (r, scan_step(old(self).tables(), old(self).fed(), symbol).1) {
                (Some(tok), Some(lx)) => token_of(tok, lx, old(self).kinds(), old(self).unknown_kind()),
                (None, None) => true,
                _ => false,
            },
    {
        let ghost fed = self.fed@;
        let ghost tables = self.tables();
        let ghost kinds = self.kinds();
        let ghost active = self.active_automata@;
        proof {
            lemma_step_reachable(tables, fed, symbol);
        }
        let n = self.automata.len();
        let mut kept: Vec<usize> = Vec::new();
        let mut any_alive = false;
        let mut k: usize = 0;
        proof {
            assert forall|i: int| 0 <= i < n && (active.len() > 0 ==> i < active[0]) implies
                !alive_after(#[trigger] tables[i], fed)
                && state_after(tables[i], fed.push(symbol)) == state_after(tables[i], fed) by {
                if alive_after(tables[i], fed) {
                    if fed.len() > 0 {
                        lemma_alive_prefix(tables[i], fed);
                    }
                    assert(old(self).in_contention(i));
                    assert(active.contains(i as usize));
                    let m = choose|m: int| 0 <= m < active.len() && active[m] == i as usize;
                    if m > 0 {
                        assert(active[0] < active[m]);
                    }
                }
                lemma_dead_stays_dead(tables[i], fed, symbol);
            }
        }
        while k < self.active_automata.len()
            invariant
                self.automata@.len() == n,
                self.active_automata@ == active,
                self.token_text == old(self).token_text,
                self.unknown == old(self).unknown,
                self.fed == old(self).fed,
                fed == old(self).fed@,
                tables == old(self).tables(),
                kinds == old(self).kinds(),
                self.tables() == tables,
                self.kinds() == kinds,
                old(self).wf(),
                active == old(self).active_automata@,
                n == old(self).automata@.len(),
                0 <= k <= active.len(),
                forall|i: int| 0 <= i < n ==> (#[trigger] self.automata@[i]).0.wf(),
                forall|i: int|
                    0 <= i < n ==> (#[trigger] self.automata@[i]).0@.current == if k < active.len() && i
                        >= active[k as int] {
                        state_after(tables[i], fed)
                    } else {
                        state_after(tables[i], fed.push(symbol))
                    },
                forall|a: int, b: int| 0 <= a < b < kept@.len() ==> kept@[a] < kept@[b],
                forall|m: int|
                    0 <= m < kept@.len() ==> {
                        &&& #[trigger] kept@[m] < n
                        &&& alive_after(tables[kept@[m] as int], fed)
                        &&& self.automata@[kept@[m] as int].0@.previous_accepting == accepts(
                            tables[kept@[m] as int],
                            fed,
                        )
                        &&& (k < active.len() ==> kept@[m] < active[k as int])
                    },
                forall|i: int|
                    0 <= i < n && alive_after(tables[i], fed) && (k < active.len() ==> i
                        < active[k as int]) ==> kept@.contains(i as usize),
                any_alive == exists|i: int|
                    0 <= i < n && (k < active.len() ==> i < active[k as int]) && alive_after(
                        #[trigger] tables[i],
                        fed.push(symbol),
                    ),
            decreases active.len() - k,
        {
            let idx = self.active_automata[k];
            let ghost before = self.automata@;
            let ghost old_kept = kept@;
            proof {
                assert(old(self).active_automata@.contains(idx));
                assert forall|i: int| 0 <= i < n && !old(self).in_contention(i) implies
                    !alive_after(#[trigger] tables[i], fed)
                    && !alive_after(tables[i], fed.push(symbol))
                    && state_after(tables[i], fed.push(symbol)) == state_after(tables[i], fed) by {
                    if alive_after(tables[i], fed) && fed.len() > 0 {
                        lemma_alive_prefix(tables[i], fed);
                    }
                    lemma_dead_stays_dead(tables[i], fed, symbol);
                }
            }
            if self.automata[idx].0.is_alive() {
                self.automata[idx].0.transition(symbol);
                kept.push(idx);
                any_alive = any_alive || self.automata[idx].0.is_alive();
                proof {
                    lemma_state_after_push(tables[idx as int], fed, symbol);
                }
            } else {
                proof {
                    lemma_dead_stays_dead(tables[idx as int], fed, symbol);
                }
            }
            proof {
                assert forall|j: int| 0 <= j < n && j != idx implies self.automata@[j] == before[j] by {}
                assert(self.tables() =~= tables) by {
                    assert forall|j: int| 0 <= j < n implies self.tables()[j] == tables[j] by {
                        if j != idx {
                            assert(self.automata@[j] == before[j]);
                        }
                    }
                }
                assert(self.kinds() =~= kinds) by {
                    assert forall|j: int| 0 <= j < n implies self.kinds()[j] == kinds[j] by {
                        if j != idx {
                            assert(self.automata@[j] == before[j]);
                        }
                    }
                }
                if k + 1 < active.len() {
                    assert(active[k as int] < active[k + 1]);
                }
                assert forall|i: int|
                    0 <= i < n && alive_after(tables[i], fed) && (k + 1 < active.len() ==> i
                        < active[k + 1]) implies kept@.contains(i as usize) by {
                    if i != idx {
                        if fed.len() > 0 {
                            lemma_alive_prefix(tables[i], fed);
                        }
                        assert(old(self).in_contention(i));
                        assert(active.contains(i as usize));
                        let m = choose|m: int| 0 <= m < active.len() && active[m] == i as usize;
                        if m < k {
                            assert(active[m] < active[k as int]);
                            assert(old_kept.contains(i as usize));
                            let w = choose|w: int| 0 <= w < old_kept.len() && old_kept[w] == i as usize;
                            assert(kept@[w] == i as usize);
                        } else if m > k + 1 {
                            assert(active[k + 1] < active[m]);
                        }
                    } else {
                        assert(kept@[kept@.len() - 1] == idx);
                    }
                }
            }
            k = k + 1;
        }
        self.active_automata = kept;
        proof {
            assert(any_alive == some_alive(tables, fed.push(symbol)));
        }
        if any_alive {
            if let Some(sym) = symbol {
                self.token_text.push(sym);
            }
            self.fed = Ghost(fed.push(symbol));
            proof {
                lemma_symbols_of_push(fed, symbol);
                assert(fed.push(symbol).drop_last() =~= fed);
                assert forall|i: int| 0 <= i < n implies (self.active_automata@.contains(i as usize)
                    <==> #[trigger] self.in_contention(i)) by {
                    if self.active_automata@.contains(i as usize) {
                        let m = choose|m: int| 0 <= m < kept@.len() && kept@[m] == i as usize;
                        assert(alive_after(tables[kept@[m] as int], fed));
                    }
                }
            }
            return None;
        }
        let mut winner: Option<usize> = None;
        let mut m: usize = 0;
        while m < self.active_automata.len() && winner.is_none()
            invariant
                self.active_automata@ == kept@,
                self.automata@.len() == n,
                self.tables() == tables,
                0 <= m <= kept@.len(),
                forall|a: int, b: int| 0 <= a < b < kept@.len() ==> kept@[a] < kept@[b],
                forall|j: int|
                    0 <= j < kept@.len() ==> {
                        &&& #[trigger] kept@[j] < n
                        &&& alive_after(tables[kept@[j] as int], fed)
                        &&& self.automata@[kept@[j] as int].0@.previous_accepting == accepts(
                            tables[kept@[j] as int],
                            fed,
                        )
                    },
                match winner {
                    Some(w) => m > 0 && w == kept@[m - 1] && accepts(tables[w as int], fed) && forall|j: int|
                        0 <= j < m - 1 ==> !accepts(tables[#[trigger] kept@[j] as int], fed),
                    None => forall|j: int| 0 <= j < m ==> !accepts(tables[#[trigger] kept@[j] as int], fed),
                },
            decreases kept@.len() - m,
        {
            let idx = self.active_automata[m];
            if self.automata[idx].0.is_previous_accepting() {
                winner = Some(idx);
            }
            m = m + 1;
        }
        proof {
            lemma_first_accepting(tables, fed, n as int);
            assert forall|i: int| 0 <= i < n && accepts(tables[i], fed) implies exists|j: int|
                0 <= j < kept@.len() && #[trigger] kept@[j] == i as usize by {
                assert(kept@.contains(i as usize));
            }
            match winner {
                Some(w) => {
                    assert forall|i: int| 0 <= i < w implies !accepts(#[trigger] tables[i], fed) by {
                        if accepts(tables[i], fed) {
                            let j = choose|j: int| 0 <= j < kept@.len() && #[trigger] kept@[j] == i as usize;
                            if j >= m - 1 {
                                if j > m - 1 {
                                    assert(kept@[m - 1] < kept@[j]);
                                }
                            }
                        }
                    }
                    assert(first_accepting(tables, fed, n as int) == Some(w as int));
                },
                None => {
                    assert forall|i: int| 0 <= i < n implies !accepts(#[trigger] tables[i], fed) by {
                        if accepts(tables[i], fed) {
                            let j = choose|j: int| 0 <= j < kept@.len() && #[trigger] kept@[j] == i as usize;
                        }
                    }
                    assert(first_accepting(tables, fed, n as int) is None);
                },
            }
        }
        let kind = match winner {
            Some(w) => self.automata[w].1,
            None => self.unknown,
        };
        let mut text: Vec<Sym> = Vec::new();
        std::mem::swap(&mut self.token_text, &mut text);
        let token = Token::new(kind, text);
        self.reset_automata();
        let mut i: usize = 0;
        while i < n
            invariant
                self.automata@.len() == n,
                self.tables() == tables,
                self.kinds() == kinds,
                self.token_text@ == Seq::<Sym>::empty(),
                self.unknown == old(self).unknown,
                self.active_automata@.len() == n,
                forall|j: int| 0 <= j < n ==> #[trigger] self.active_automata@[j] == j,
                0 <= i <= n,
                forall|j: int| 0 <= j < n ==> (#[trigger] self.automata@[j]).0.wf(),
                forall|j: int|
                    0 <= j < n ==> (#[trigger] self.automata@[j]).0@.current == if j < i {
                        state_after(tables[j], seq![symbol])
                    } else {
                        Some(START)
                    },
            decreases n - i,
        {
            let ghost before = self.automata@;
            self.automata[i].0.transition(symbol);
            proof {
                assert(Seq::<Option<Sym>>::empty().push(symbol) =~= seq![symbol]);
                lemma_state_after_push(tables[i as int], Seq::empty(), symbol);
                assert forall|j: int| 0 <= j < n && j != i implies self.automata@[j] == before[j] by {}
                assert(self.tables() =~= tables) by {
                    assert forall|j: int| 0 <= j < n implies self.tables()[j] == tables[j] by {
                        if j != i {
                            assert(self.automata@[j] == before[j]);
                        }
                    }
                }
                assert(self.kinds() =~= kinds) by {
                    assert forall|j: int| 0 <= j < n implies self.kinds()[j] == kinds[j] by {
                        if j != i {
                            assert(self.automata@[j] == before[j]);
                        }
                    }
                }
            }
            i = i + 1;
        }
        if let Some(sym) = symbol {
            self.token_text.push(sym);
        }
        let ghost next_fed = seq![symbol];
        self.fed = Ghost(next_fed);
        proof {
            lemma_symbols_of_push(Seq::<Option<Sym>>::empty(), symbol);
            assert(Seq::<Option<Sym>>::empty().push(symbol) =~= seq![symbol]);
            assert(seq![symbol].drop_last() =~= Seq::<Option<Sym>>::empty());
            assert forall|j: int| 0 <= j < n implies (self.active_automata@.contains(j as usize)
                <==> #[trigger] self.in_contention(j)) by {
                assert(self.active_automata@[j] == j);
            }
        }
        Some(token)
    }

    /// Scans `symbols` to their end and returns the tokens, in input order.
    /// A complete input ends with one `None`, the end-of-input sentinel.
    pub fn lex(self, symbols: &[Option<Sym>]) -> (r: Vec<Token<Sym, K>>)
        requires
            self.wf(),
        ensures
            r@.len() == scan(self.tables(), self.fed(), symbols@).1.len(),
            forall|t: int|
                0 <= t < r@.len() ==> token_of(
                    #[trigger] r@[t],
                    scan(self.tables(), self.fed(), symbols@).1[t],
                    self.kinds(),
                    self.unknown_kind(),
                ),
    {
        let ghost tables = self.tables();
        let ghost kinds = self.kinds();
        let ghost unknown = self.unknown_kind();
        let ghost fed0 = self.fed();
        let mut lexer = self;
        let mut tokens: Vec<Token<Sym, K>> = Vec::new();
        let mut i: usize = 0;
        while i < symbols.len()
            invariant
                0 <= i <= symbols@.len(),
                lexer.wf(),
                lexer.tables() == tables,
                lexer.kinds() == kinds,
                lexer.unknown_kind() == unknown,
                lexer.fed() == scan(tables, fed0, symbols@.take(i as int)).0,
                tokens@.len() == scan(tables, fed0, symbols@.take(i as int)).1.len(),
                forall|t: int|
                    0 <= t < tokens@.len() ==> token_of(
                        #[trigger] tokens@[t],
                        scan(tables, fed0, symbols@.take(i as int)).1[t],
                        kinds,
                        unknown,
                    ),
            decreases symbols@.len() - i,
        {
            let ghost before = tokens@;
            proof {
                assert(symbols@.take(i + 1).drop_last() =~= symbols@.take(i as int));
                assert(symbols@.take(i + 1).last() == symbols@[i as int]);
            }
            if let Some(token) = lexer.step(symbols[i]) {
                tokens.push(token);
                proof {
                    assert forall|t: int| 0 <= t < tokens@.len() implies token_of(
                        #[trigger] tokens@[t],
                        scan(tables, fed0, symbols@.take(i + 1)).1[t],
                        kinds,
                        unknown,
                    ) by {
                        if t < before.len() {
                            assert(tokens@[t] == before[t]);
                        }
                    }
                }
            }
            i = i + 1;
        }
        proof {
            assert(symbols@.take(symbols@.len() as int) =~= symbols@);
        }
        tokens
    }
}

} // verus!
