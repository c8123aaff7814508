use vstd::prelude::*;
use crate::symbol::Symbol;
use crate::automaton::{StateView, present, table_wf};
use crate::lexer::{
    Lexeme, alive_after, accepts, some_alive, symbols_of, scan_step,
    scan, lemma_state_after_push, lemma_alive_prefix, lemma_first_accepting, lemma_symbols_of_push,
};

verus! {

/// What the scan can have fed since a token boundary: every prefix of it
/// longer than one symbol kept some automaton alive.
pub open spec fn reachable<Sym: Symbol>(tables: Seq<Seq<StateView<Sym>>>, fed: Seq<Option<Sym>>) -> bool {
    forall|k: int| 2 <= k <= fed.len() ==> some_alive(tables, #[trigger] fed.take(k))
}

/// The length of the longest prefix of `w` after which some automaton is still alive.
pub open spec fn longest_alive<Sym: Symbol>(tables: Seq<Seq<StateView<Sym>>>, w: Seq<Option<Sym>>) -> nat
    decreases w.len(),
{
    if w.len() == 0 {
        0
    } else if some_alive(tables, w) {
        w.len()
    } else {
        longest_alive(tables, w.drop_last())
    }
}

/// The symbols of `tokens`, put end to end.
pub open spec fn concat_symbols<Sym>(tokens: Seq<Lexeme<Sym>>) -> Seq<Sym>
    decreases tokens.len(),
{
    if tokens.len() == 0 {
        Seq::empty()
    } else {
        concat_symbols(tokens.drop_last()) + tokens.last().symbols
    }
}

/// An automaton alive after a prefix of `x` was alive after every shorter prefix.
proof fn lemma_alive_shorter<Sym: Symbol>(table: Seq<StateView<Sym>>, x: Seq<Option<Sym>>, j: int, k: int)
    requires
        0 <= j <= k <= x.len(),
        alive_after(table, x.take(k)),
    ensures
        alive_after(table, x.take(j)),
    decreases k - j,
{
    if j < k {
        assert(x.take(k).drop_last() =~= x.take(k - 1));
        lemma_alive_prefix(table, x.take(k));
        lemma_alive_shorter(table, x, j, k - 1);
    }
}

/// `longest_alive` is `l` when the prefix of length `l` keeps some automaton
/// alive (or `l` is zero) and no longer prefix does.
proof fn lemma_longest_alive_is<Sym: Symbol>(tables: Seq<Seq<StateView<Sym>>>, w: Seq<Option<Sym>>, l: int)
    requires
        0 <= l <= w.len(),
        l == 0 || some_alive(tables, w.take(l)),
        forall|k: int| l < k <= w.len() ==> !some_alive(tables, #[trigger] w.take(k)),
    ensures
        longest_alive(tables, w) == l,
    decreases w.len(),
{
    if w.len() == l {
        assert(w.take(l) =~= w);
    } else {
        assert(w.take(w.len() as int) =~= w);
        let d = w.drop_last();
        assert forall|k: int| l < k <= d.len() implies !some_alive(tables, #[trigger] d.take(k)) by {
            assert(d.take(k) =~= w.take(k));
        }
        assert(d.take(l) =~= w.take(l));
        lemma_longest_alive_is(tables, d, l);
    }
}

/// Each step of the scan keeps what was fed reachable.
pub proof fn lemma_step_reachable<Sym: Symbol>(tables: Seq<Seq<StateView<Sym>>>, fed: Seq<Option<Sym>>, s: Option<Sym>)
    requires
        reachable(tables, fed),
    ensures
        reachable(tables, scan_step(tables, fed, s).0),
{
    let f = fed.push(s);
    if some_alive(tables, f) {
        assert forall|k: int| 2 <= k <= f.len() implies some_alive(tables, #[trigger] f.take(k)) by {
            if k <= fed.len() {
                assert(f.take(k) =~= fed.take(k));
            } else {
                assert(f.take(k) =~= f);
            }
        }
    }
}

/// The scan of any input keeps what was fed reachable.
pub proof fn lemma_scan_reachable<Sym: Symbol>(
    tables: Seq<Seq<StateView<Sym>>>,
    fed: Seq<Option<Sym>>,
    input: Seq<Option<Sym>>,
)
    requires
        reachable(tables, fed),
    ensures
        reachable(tables, scan(tables, fed, input).0),
    decreases input.len(),
{
    if input.len() > 0 {
        lemma_scan_reachable(tables, fed, input.drop_last());
        lemma_step_reachable(tables, scan(tables, fed, input.drop_last()).0, input.last());
    }
}

/// Longest match: when a step ends a token, the token covers the longest
/// prefix of the input from the token's start (whatever follows) after which
/// some automaton was still alive. The one exception is a lone first symbol
/// that no automaton can start with: it forms a token by itself.
pub proof fn lemma_longest_match<Sym: Symbol>(
    tables: Seq<Seq<StateView<Sym>>>,
    fed: Seq<Option<Sym>>,
    s: Option<Sym>,
    rest: Seq<Option<Sym>>,
)
    requires
        reachable(tables, fed),
        !some_alive(tables, fed.push(s)),
        !(fed.len() == 1 && !some_alive(tables, fed)),
    ensures
        scan_step(tables, fed, s).1 matches Some(lx) && lx.symbols.len() == longest_alive(
            tables,
            fed.push(s) + rest,
        ),
{
    let w = fed.push(s) + rest;
    let l = fed.len() as int;
    assert(w.take(l) =~= fed);
    assert(w.take(l + 1) =~= fed.push(s));
    if l >= 2 {
        assert(fed.take(l) =~= fed);
    }
    assert forall|k: int| l < k <= w.len() implies !some_alive(tables, #[trigger] w.take(k)) by {
        if some_alive(tables, w.take(k)) {
            let i = choose|i: int| 0 <= i < tables.len() && alive_after(#[trigger] tables[i], w.take(k));
            lemma_alive_shorter(tables[i], w, l + 1, k);
        }
    }
    lemma_longest_alive_is(tables, w, l);
    if l > 0 {
        let i = choose|i: int| 0 <= i < tables.len() && alive_after(#[trigger] tables[i], fed);
        lemma_alive_all_present(tables[i], fed);
    }
    lemma_present_symbols(fed);
}

/// Priority: when several automata accept the symbols of a token, the token
/// takes the kind of the one registered first.
pub proof fn lemma_first_registered_wins<Sym: Symbol>(
    tables: Seq<Seq<StateView<Sym>>>,
    fed: Seq<Option<Sym>>,
    s: Option<Sym>,
    i: int,
)
    requires
        !some_alive(tables, fed.push(s)),
        0 <= i < tables.len(),
        accepts(tables[i], fed),
    ensures
        scan_step(tables, fed, s).1 matches Some(lx) && lx.winner matches Some(w) && w <= i
            && accepts(tables[w], fed) && forall|j: int| 0 <= j < w ==> !accepts(#[trigger] tables[j], fed),
{
    lemma_first_accepting(tables, fed, tables.len() as int);
}

/// An automaton alive after `fed` has seen no sentinel in it.
proof fn lemma_alive_all_present<Sym: Symbol>(table: Seq<StateView<Sym>>, fed: Seq<Option<Sym>>)
    requires
        alive_after(table, fed),
    ensures
        forall|k: int| 0 <= k < fed.len() ==> (#[trigger] fed[k]) is Some,
    decreases fed.len(),
{
    if fed.len() > 0 {
        lemma_alive_prefix(table, fed);
        lemma_alive_all_present(table, fed.drop_last());
        assert(fed.drop_last().push(fed.last()) =~= fed);
        lemma_state_after_push(table, fed.drop_last(), fed.last());
        assert forall|k: int| 0 <= k < fed.len() implies (#[trigger] fed[k]) is Some by {
            if k < fed.len() - 1 {
                assert(fed[k] == fed.drop_last()[k]);
            }
        }
    }
}

/// A sentinel-free sequence is exactly its symbols.
proof fn lemma_present_symbols<Sym>(fed: Seq<Option<Sym>>)
    requires
        forall|k: int| 0 <= k < fed.len() ==> (#[trigger] fed[k]) is Some,
    ensures
        present(symbols_of(fed)) == fed,
        symbols_of(fed).len() == fed.len(),
    decreases fed.len(),
{
    if fed.len() > 0 {
        let d = fed.drop_last();
        assert forall|k: int| 0 <= k < d.len() implies (#[trigger] d[k]) is Some by {
            assert(d[k] == fed[k]);
        }
        lemma_present_symbols(d);
        let x = fed.last().unwrap();
        assert(symbols_of(fed) == symbols_of(d).push(x));
        assert(present(symbols_of(d).push(x)) =~= present(symbols_of(d)).push(Some(x)));
        assert(d.push(Some(x)) =~= fed);
    }
}

/// The symbols of a sentinel-free sequence built from `w` are `w`.
proof fn lemma_symbols_of_present<Sym>(w: Seq<Sym>)
    ensures
        symbols_of(present(w)) == w,
    decreases w.len(),
{
    if w.len() > 0 {
        lemma_symbols_of_present(w.drop_last());
        assert(present(w).drop_last() =~= present(w.drop_last()));
        assert(w.drop_last().push(w.last()) =~= w);
    }
}

/// Unknown input: a token that a step emits is classified as unknown
/// exactly when no automaton accepts its symbols.
pub proof fn lemma_step_unknown<Sym: Symbol>(tables: Seq<Seq<StateView<Sym>>>, fed: Seq<Option<Sym>>, s: Option<Sym>)
    requires
        reachable(tables, fed),
        forall|i: int| 0 <= i < tables.len() ==> table_wf(#[trigger] tables[i]),
    ensures
        scan_step(tables, fed, s).1 matches Some(lx) ==> (lx.winner is None <==> forall|i: int|
            0 <= i < tables.len() ==> !accepts(#[trigger] tables[i], present(lx.symbols))),
{
    lemma_first_accepting(tables, fed, tables.len() as int);
    if !some_alive(tables, fed.push(s)) {
        if fed.len() >= 2 {
            assert(fed.take(fed.len() as int) =~= fed);
            let i = choose|i: int| 0 <= i < tables.len() && alive_after(#[trigger] tables[i], fed);
            lemma_alive_all_present(tables[i], fed);
            lemma_present_symbols(fed);
        } else if fed.len() == 1 && fed[0] is None {
            assert(fed.drop_last() =~= Seq::<Option<Sym>>::empty());
            assert(fed.last() is None);
            assert(symbols_of(fed) == symbols_of(fed.drop_last()));
            assert(symbols_of(fed) =~= Seq::<Sym>::empty());
            assert(present(symbols_of(fed)) =~= Seq::<Option<Sym>>::empty());
        } else {
            assert forall|k: int| 0 <= k < fed.len() implies (#[trigger] fed[k]) is Some by {}
            lemma_present_symbols(fed);
        }
    }
}

/// Unknown input: in the scan of any input, a token is classified as unknown
/// exactly when no automaton accepts its symbols.
pub proof fn lemma_unknown_iff_unmatched<Sym: Symbol>(
    tables: Seq<Seq<StateView<Sym>>>,
    input: Seq<Option<Sym>>,
)
    requires
        forall|i: int| 0 <= i < tables.len() ==> table_wf(#[trigger] tables[i]),
    ensures
        forall|t: int|
            0 <= t < scan(tables, Seq::empty(), input).1.len() ==> ((
            #[trigger] scan(tables, Seq::empty(), input).1[t]).winner is None <==> forall|i: int|
                0 <= i < tables.len() ==> !accepts(
                    #[trigger] tables[i],
                    present(scan(tables, Seq::empty(), input).1[t].symbols),
                )),
    decreases input.len(),
{
    if input.len() > 0 {
        let d = input.drop_last();
        lemma_unknown_iff_unmatched(tables, d);
        lemma_scan_reachable(tables, Seq::empty(), d);
        lemma_step_unknown(tables, scan(tables, Seq::empty(), d).0, input.last());
        let ts = scan(tables, Seq::empty(), d).1;
        let ts2 = scan(tables, Seq::empty(), input).1;
        assert forall|t: int| 0 <= t < ts.len() implies ts2[t] == ts[t] by {}
    }
}

/// Each token of a scan, followed by what is still fed, accounts for every
/// symbol: nothing is dropped or repeated.
proof fn lemma_scan_accounts<Sym: Symbol>(
    tables: Seq<Seq<StateView<Sym>>>,
    fed: Seq<Option<Sym>>,
    input: Seq<Option<Sym>>,
)
    ensures
        concat_symbols(scan(tables, fed, input).1) + symbols_of(scan(tables, fed, input).0)
            == symbols_of(fed) + symbols_of(input),
    decreases input.len(),
{
    if input.len() > 0 {
        let d = input.drop_last();
        let x = input.last();
        lemma_scan_accounts(tables, fed, d);
        let (f, ts) = scan(tables, fed, d);
        assert(d.push(x) =~= input);
        lemma_symbols_of_push(d, x);
        lemma_symbols_of_push(f, x);
        if some_alive(tables, f.push(x)) {
            match x {
                Some(y) => {
                    assert((concat_symbols(ts) + symbols_of(f)).push(y) =~= concat_symbols(ts) + symbols_of(f).push(y));
                    assert((symbols_of(fed) + symbols_of(d)).push(y) =~= symbols_of(fed) + symbols_of(d).push(y));
                },
                None => {},
            }
        } else {
            let lx = scan_step(tables, f, x).1.unwrap();
            assert(ts.push(lx).drop_last() =~= ts);
            lemma_symbols_of_push(Seq::empty(), x);
            assert(Seq::<Option<Sym>>::empty().push(x) =~= seq![x]);
            match x {
                Some(y) => {
                    assert(concat_symbols(ts) + symbols_of(f) + symbols_of(seq![x]) =~= symbols_of(fed) + symbols_of(d).push(y));
                },
                None => {
                    assert(symbols_of(seq![x]) =~= Seq::<Sym>::empty());
                    assert(concat_symbols(ts) + symbols_of(f) + symbols_of(seq![x]) =~= symbols_of(fed) + symbols_of(d));
                },
            }
        }
    }
}

/// Losslessness: the tokens of a complete input (its symbols, then the
/// end-of-input sentinel), put end to end, give back exactly its symbols.
pub proof fn lemma_lossless<Sym: Symbol>(tables: Seq<Seq<StateView<Sym>>>, input: Seq<Sym>)
    ensures
        concat_symbols(scan(tables, Seq::empty(), present(input).push(None)).1) == input,
{
    let full = present(input).push(None);
    lemma_scan_accounts(tables, Seq::empty(), full);
    let (f, ts) = scan(tables, Seq::empty(), present(input));
    assert(full.drop_last() =~= present(input));
    assert forall|i: int| 0 <= i < tables.len() implies !alive_after(#[trigger] tables[i], f.push(None)) by {
        lemma_state_after_push(tables[i], f, None);
    }
    lemma_symbols_of_push(present(input), None);
    lemma_symbols_of_present(input);
    lemma_symbols_of_push::<Sym>(Seq::empty(), None);
    assert(Seq::<Option<Sym>>::empty().push(None) =~= seq![None]);
    assert(symbols_of(Seq::<Option<Sym>>::empty()) =~= Seq::<Sym>::empty());
    assert(concat_symbols(scan(tables, Seq::empty(), full).1) =~= concat_symbols(scan(tables, Seq::empty(), full).1) + symbols_of(scan(tables, Seq::empty(), full).0));
    assert(symbols_of(Seq::<Option<Sym>>::empty()) + symbols_of(full) =~= input);
}

} // verus!
