//! The Earley engine: the worklist loop that grows a chart of state
//! sets through prediction, scanning and completion, and the acceptance
//! check over the finished chart.

use vstd::prelude::*;

use crate::grammar::{atom_ok, deriv_ok, derivable, AtomDeriv, Deriv, Grammar, Item, Rule, RuleAtom, Terminal};

verus! {

broadcast use vstd::seq_lib::lemma_seq_contains_after_push;

/// Every item of the state set at position `p` is well formed and its
/// origin does not lie beyond `p`.
pub open spec fn set_wf<G: Grammar>(s: Seq<Item<G>>, p: int) -> bool {
    forall|k: int| 0 <= k < s.len() ==> (#[trigger] s[k]).wf() && s[k].start <= p
}

/// The state set holds no duplicate item: it is a set in the
/// mathematical sense, keyed by the `(rule, dot, origin)` triple.
pub open spec fn no_dups<G: Grammar>(s: Seq<Item<G>>) -> bool {
    forall|k1: int, k2: int| 0 <= k1 < k2 < s.len() ==> s[k1] != s[k2]
}

/// The view of a chart: each state set as a mathematical sequence.
pub open spec fn chart_view<G: Grammar>(chart: Seq<Vec<Item<G>>>) -> Seq<Seq<Item<G>>> {
    chart.map_values(|v: Vec<Item<G>>| v@)
}

/// Every state set of the chart is well formed and duplicate-free.
pub open spec fn chart_wf<G: Grammar>(chart: Seq<Seq<Item<G>>>) -> bool {
    forall|p: int| 0 <= p < chart.len() ==> set_wf(#[trigger] chart[p], p) && no_dups(chart[p])
}

/// The item `it` is one of the items the chart is seeded with at
/// position 0: an alternative of the start symbol, dot at the left end,
/// origin 0.
pub open spec fn is_seed<G: Grammar>(start: G, p: int, it: Item<G>) -> bool {
    &&& p == 0
    &&& it.rule.gram == start
    &&& it.dot == 0
    &&& it.start == 0
}

/// The item `it` at position `p` arises by prediction from the source
/// item `src`: `src` waits for the nonterminal that `it`'s rule expands,
/// and `it` starts that expansion at `p`.
pub open spec fn predicted_from<G: Grammar>(src: Item<G>, p: int, it: Item<G>) -> bool {
    &&& src.wf()
    &&& !src.is_complete()
    &&& src.spec_next() == RuleAtom::<G>::Grammar(it.rule.gram)
    &&& it.dot == 0
    &&& it.start == p
}

/// The item `it` at position `p` arises by scanning: the source item
/// `src` at position `p - 1` waits for a terminal that matches the input
/// byte there, and `it` is `src` advanced over it.
pub open spec fn scanned_from<G: Grammar>(src: Item<G>, input: Seq<u8>, p: int, it: Item<G>) -> bool {
    &&& src.wf()
    &&& !src.is_complete()
    &&& src.dot < usize::MAX
    &&& match src.spec_next() {
        RuleAtom::Terminal(t) => t.spec_test(input[p - 1]),
        RuleAtom::Grammar(_) => false,
    }
    &&& it == src.advanced()
}

/// The item `it` arises by completion: `fin` has matched the whole body
/// of a rule for its symbol, `src` waits for that symbol, and `it` is
/// `src` advanced over it.
pub open spec fn completed_from<G: Grammar>(fin: Item<G>, src: Item<G>, it: Item<G>) -> bool {
    &&& fin.wf()
    &&& fin.is_complete()
    &&& src.wf()
    &&& !src.is_complete()
    &&& src.dot < usize::MAX
    &&& src.spec_next() == RuleAtom::<G>::Grammar(fin.rule.gram)
    &&& it == src.advanced()
}

/// The item at position `p`, index `k` of the chart is justified: it is
/// a seed, or it arises by prediction, scanning or completion from items
/// that stand earlier in the chart (at a lower position, or at the same
/// position with a lower index).  The ordering makes the justification
/// well founded: chains of justifications bottom out at the seeds.
pub open spec fn justified_at<G: Grammar>(
    chart: Seq<Seq<Item<G>>>,
    start: G,
    input: Seq<u8>,
    p: int,
    k: int,
) -> bool {
    let it = chart[p][k];
    ||| is_seed(start, p, it)
    ||| (exists|k2: int| 0 <= k2 < k && predicted_from(#[trigger] chart[p][k2], p, it))
    ||| (1 <= p <= input.len() && exists|k2: int|
        0 <= k2 < chart[p - 1].len() && scanned_from(#[trigger] chart[p - 1][k2], input, p, it))
    ||| (exists|k2: int, m: int|
        {
            &&& 0 <= k2 < k
            &&& 0 <= (#[trigger] chart[p][k2]).start <= p
            &&& 0 <= m < chart[chart[p][k2].start as int].len()
            &&& (chart[p][k2].start < p || m < k)
            &&& completed_from(chart[p][k2], #[trigger] chart[chart[p][k2].start as int][m], it)
        })
}

/// Every item of the chart is justified.
pub open spec fn sound<G: Grammar>(chart: Seq<Seq<Item<G>>>, start: G, input: Seq<u8>) -> bool {
    forall|p: int, k: int|
        0 <= p < chart.len() && 0 <= k < chart[p].len() ==> #[trigger] justified_at(
            chart,
            start,
            input,
            p,
            k,
        )
}

/// The item witnesses acceptance: a fully matched rule for the start
/// symbol whose match began at position 0.
pub open spec fn accepting<G: Grammar>(it: Item<G>, start: G) -> bool {
    &&& it.is_complete()
    &&& it.start == 0
    &&& it.rule.gram == start
}

/// The chart demonstrates that `input` is derivable from `start`: it
/// spans the whole input, is well formed and duplicate-free, every item
/// in it is justified by the seed items and the three Earley operations,
/// and its state set at the last position holds an accepting item.
pub open spec fn recognized_by<G: Grammar>(chart: Seq<Seq<Item<G>>>, start: G, input: Seq<u8>) -> bool {
    &&& chart.len() == input.len() + 1
    &&& chart_wf(chart)
    &&& sound(chart, start, input)
    &&& exists|k: int|
        0 <= k < chart[input.len() as int].len() && accepting(
            #[trigger] chart[input.len() as int][k],
            start,
        )
}

/// The item `src` waits for the nonterminal `g`: its next expected atom
/// is a reference to that symbol.
pub open spec fn waits_for<G: Grammar>(src: Item<G>, g: G) -> bool {
    &&& !src.is_complete()
    &&& src.spec_next() == RuleAtom::<G>::Grammar(g)
}

/// The item that prediction makes for alternative `alt` of the symbol
/// `g` at position `p`: dot at the left end, origin `p`.
pub open spec fn predicted_item<G: Grammar>(g: G, alt: int, p: int) -> Item<G> {
    Item { rule: Rule { gram: g, idx: alt as usize }, dot: 0, start: p as usize }
}

/// The first state set holds every alternative of the start symbol.
pub open spec fn seeded<G: Grammar>(chart: Seq<Seq<Item<G>>>, start: G) -> bool {
    &&& chart.len() >= 1
    &&& forall|alt: int|
        0 <= alt < start.spec_variants() ==> chart[0].contains(
            #[trigger] predicted_item(start, alt, 0),
        )
}

/// All consequences of the item `it` at position `p` already stand in
/// the chart: prediction has opened every alternative of an expected
/// nonterminal (and advanced `it` over an empty alternative on the
/// spot), scanning has carried a matched terminal into the next state
/// set, and a finished match whose origin precedes `p` has advanced
/// every item that waits for its symbol in the origin's state set.
pub open spec fn item_closed<G: Grammar>(
    chart: Seq<Seq<Item<G>>>,
    input: Seq<u8>,
    p: int,
    it: Item<G>,
) -> bool {
    if it.is_complete() {
        it.start < p ==> forall|m: int|
            0 <= m < chart[it.start as int].len() && waits_for(
                #[trigger] chart[it.start as int][m],
                it.rule.gram,
            ) ==> chart[p].contains(chart[it.start as int][m].advanced())
    } else {
        match it.spec_next() {
            RuleAtom::Grammar(g) => {
                &&& forall|alt: int|
                    0 <= alt < g.spec_variants() ==> chart[p].contains(
                        #[trigger] predicted_item(g, alt, p),
                    )
                &&& (exists|alt: int| 0 <= alt < g.spec_variants() && g.spec_len(alt) == 0)
                    ==> chart[p].contains(it.advanced())
            },
            RuleAtom::Terminal(t) => (p < input.len() && t.spec_test(input[p])) ==> (p + 1
                < chart.len() && chart[p + 1].contains(it.advanced())),
        }
    }
}

/// No state set can grow any further: every item of the chart has had
/// all its consequences drawn.
pub open spec fn saturated<G: Grammar>(chart: Seq<Seq<Item<G>>>, input: Seq<u8>) -> bool {
    forall|p: int, k: int|
        0 <= p < chart.len() && 0 <= k < chart[p].len() ==> item_closed(
            chart,
            input,
            p,
            #[trigger] chart[p][k],
        )
}

/// The chart demonstrates that `input` is not derivable from `start`:
/// it is well formed, sound, seeded with every alternative of `start`,
/// and saturated — the exhaustive search ran to its fixed point — yet
/// either no scan could reach the end of the input or the last state
/// set holds no accepting item.
pub open spec fn refuted_by<G: Grammar>(chart: Seq<Seq<Item<G>>>, start: G, input: Seq<u8>) -> bool {
    &&& 1 <= chart.len() <= input.len() + 1
    &&& chart_wf(chart)
    &&& sound(chart, start, input)
    &&& seeded(chart, start)
    &&& saturated(chart, input)
    &&& chart.len() == input.len() + 1 ==> forall|k: int|
        0 <= k < chart[input.len() as int].len() ==> !accepting(
            #[trigger] chart[input.len() as int][k],
            start,
        )
}

/// The chart with `it` appended to its last state set.
pub open spec fn append_last<G: Grammar>(chart: Seq<Seq<Item<G>>>, it: Item<G>) -> Seq<
    Seq<Item<G>>,
> {
    chart.update(chart.len() - 1, chart.last().push(it))
}

/// A mixed-radix numbering of the items that can stand in a state set
/// at position `p`: symbol, alternative, dot and origin each contribute
/// one digit.
pub open spec fn pos_key<G: Grammar>(it: Item<G>, p: int) -> int {
    ((it.rule.gram.sym_id() * G::max_alts() + it.rule.idx) * (G::max_len() + 1) + it.dot) * (p + 1)
        + it.start
}

/// The number of distinct well-formed items with origin at most `p`:
/// an exclusive upper bound on `pos_key` and so, by counting, on the
/// size of a duplicate-free state set at position `p`.
pub open spec fn set_bound<G: Grammar>(p: int) -> int {
    G::sym_bound() * G::max_alts() * (G::max_len() + 1) * (p + 1)
}

proof fn lemma_digit(t: int, hi: int, d: int, base: int)
    requires
        0 <= t < hi,
        0 <= d < base,
    ensures
        0 <= t * base + d < hi * base,
{
    assert(0 <= t * base + d < hi * base) by (nonlinear_arith)
        requires
            0 <= t < hi,
            0 <= d < base,
    ;
}

proof fn lemma_digit_inj(t1: int, d1: int, t2: int, d2: int, base: int)
    requires
        0 <= d1 < base,
        0 <= d2 < base,
        t1 * base + d1 == t2 * base + d2,
    ensures
        t1 == t2,
        d1 == d2,
{
    assert(t1 == t2 && d1 == d2) by (nonlinear_arith)
        requires
            0 <= d1 < base,
            0 <= d2 < base,
            t1 * base + d1 == t2 * base + d2,
    ;
}

proof fn lemma_key_range<G: Grammar>(it: Item<G>, p: int)
    requires
        it.wf(),
        0 <= it.start <= p,
    ensures
        0 <= pos_key(it, p) < set_bound::<G>(p),
{
    it.rule.gram.bounds();
    let s = it.rule.gram.sym_id();
    let a = G::max_alts();
    let l1 = G::max_len() + 1;
    lemma_digit(s, G::sym_bound(), it.rule.idx as int, a);
    lemma_digit(s * a + it.rule.idx, G::sym_bound() * a, it.dot as int, l1);
    lemma_digit(
        (s * a + it.rule.idx) * l1 + it.dot,
        G::sym_bound() * a * l1,
        it.start as int,
        p + 1,
    );
}

proof fn lemma_key_inj<G: Grammar>(x: Item<G>, y: Item<G>, p: int)
    requires
        x.wf(),
        y.wf(),
        0 <= x.start <= p,
        0 <= y.start <= p,
        pos_key(x, p) == pos_key(y, p),
    ensures
        x == y,
{
    x.rule.gram.bounds();
    y.rule.gram.bounds();
    let a = G::max_alts();
    let l1 = G::max_len() + 1;
    let tx = (x.rule.gram.sym_id() * a + x.rule.idx) * l1 + x.dot;
    let ty = (y.rule.gram.sym_id() * a + y.rule.idx) * l1 + y.dot;
    lemma_digit_inj(tx, x.start as int, ty, y.start as int, p + 1);
    lemma_digit_inj(
        x.rule.gram.sym_id() * a + x.rule.idx,
        x.dot as int,
        y.rule.gram.sym_id() * a + y.rule.idx,
        y.dot as int,
        l1,
    );
    lemma_digit_inj(x.rule.gram.sym_id(), x.rule.idx as int, y.rule.gram.sym_id(), y.rule.idx as int, a);
    G::sym_id_injective(x.rule.gram, y.rule.gram);
    assert(x.rule == y.rule);
}

/// A duplicate-free, well-formed state set at position `p` holds at
/// most `set_bound` items: each item has a distinct key in the range
/// `[0, set_bound)`.  This cardinality bound is what lets the worklist
/// loops of `recognize` terminate even while their state set grows.
pub proof fn lemma_set_len_bounded<G: Grammar>(s: Seq<Item<G>>, p: int)
    requires
        no_dups(s),
        set_wf(s, p),
        p >= 0,
    ensures
        s.len() == 0 || s.len() <= set_bound::<G>(p),
{
    if s.len() > 0 {
        let ks = Seq::new(s.len(), |k: int| pos_key(s[k], p));
        assert forall|k1: int, k2: int| 0 <= k1 < k2 < ks.len() implies ks[k1] != ks[k2] by {
            if ks[k1] == ks[k2] {
                lemma_key_inj(s[k1], s[k2], p);
            }
        }
        assert(ks.no_duplicates());
        assert forall|k: int| 0 <= k < ks.len() implies 0 <= #[trigger] ks[k] < set_bound::<G>(p) by {
            lemma_key_range(s[k], p);
        }
        ks.unique_seq_to_set();
        assert(ks.to_set().subset_of(vstd::set_lib::set_int_range(0, set_bound::<G>(p)))) by {
            assert forall|e: int| ks.to_set().contains(e) implies vstd::set_lib::set_int_range(
                0,
                set_bound::<G>(p),
            ).contains(e) by {
                let k = choose|k: int| 0 <= k < ks.len() && ks[k] == e;
            }
        }
        assert(0 <= ks[0] < set_bound::<G>(p));
        vstd::set_lib::lemma_int_range(0, set_bound::<G>(p));
        vstd::set_lib::lemma_len_subset(
            ks.to_set(),
            vstd::set_lib::set_int_range(0, set_bound::<G>(p)),
        );
    }
}

/// Justification refers to chart entries only by position and index, so
/// it survives appending an item to the last state set.
proof fn lemma_justified_append_last<G: Grammar>(
    chart: Seq<Seq<Item<G>>>,
    start: G,
    input: Seq<u8>,
    it: Item<G>,
    p: int,
    k: int,
)
    requires
        chart.len() >= 1,
        0 <= p < chart.len(),
        0 <= k < chart[p].len(),
        justified_at(chart, start, input, p, k),
    ensures
        justified_at(append_last(chart, it), start, input, p, k),
{
    let c2 = append_last(chart, it);
    let last = chart.len() - 1;
    assert(c2.len() == chart.len());
    assert forall|q: int| 0 <= q < chart.len() implies c2[q].len() >= chart[q].len() && (forall|
        x: int,
    |
        0 <= x < chart[q].len() ==> c2[q][x] == chart[q][x]) by {
        if q == last {
            assert(c2[q] == chart[q].push(it));
        }
    }
    let it0 = chart[p][k];
    assert(c2[p][k] == it0);
    if is_seed(start, p, it0) {
    } else if exists|k2: int| 0 <= k2 < k && predicted_from(#[trigger] chart[p][k2], p, it0) {
        let k2 = choose|k2: int| 0 <= k2 < k && predicted_from(#[trigger] chart[p][k2], p, it0);
        assert(predicted_from(c2[p][k2], p, it0));
    } else if 1 <= p <= input.len() && exists|k2: int|
        0 <= k2 < chart[p - 1].len() && scanned_from(#[trigger] chart[p - 1][k2], input, p, it0) {
        let k2 = choose|k2: int|
            0 <= k2 < chart[p - 1].len() && scanned_from(#[trigger] chart[p - 1][k2], input, p, it0);
        assert(scanned_from(c2[p - 1][k2], input, p, it0));
    } else {
        let (k2, m) = choose|k2: int, m: int|
            {
                &&& 0 <= k2 < k
                &&& 0 <= (#[trigger] chart[p][k2]).start <= p
                &&& 0 <= m < chart[chart[p][k2].start as int].len()
                &&& (chart[p][k2].start < p || m < k)
                &&& completed_from(chart[p][k2], #[trigger] chart[chart[p][k2].start as int][m], it0)
            };
        let fin = chart[p][k2];
        assert(c2[p][k2] == fin);
        assert(c2[fin.start as int][m] == chart[fin.start as int][m]);
        assert(completed_from(c2[p][k2], c2[c2[p][k2].start as int][m], it0));
    }
}

/// Justification likewise survives opening a new state set at the end
/// of the chart.
proof fn lemma_justified_push_set<G: Grammar>(
    chart: Seq<Seq<Item<G>>>,
    start: G,
    input: Seq<u8>,
    s_new: Seq<Item<G>>,
    p: int,
    k: int,
)
    requires
        0 <= p < chart.len(),
        0 <= k < chart[p].len(),
        justified_at(chart, start, input, p, k),
    ensures
        justified_at(chart.push(s_new), start, input, p, k),
{
    let c2 = chart.push(s_new);
    assert forall|q: int| 0 <= q < chart.len() implies c2[q] == chart[q] by {}
    let it0 = chart[p][k];
    if is_seed(start, p, it0) {
    } else if exists|k2: int| 0 <= k2 < k && predicted_from(#[trigger] chart[p][k2], p, it0) {
        let k2 = choose|k2: int| 0 <= k2 < k && predicted_from(#[trigger] chart[p][k2], p, it0);
        assert(predicted_from(c2[p][k2], p, it0));
    } else if 1 <= p <= input.len() && exists|k2: int|
        0 <= k2 < chart[p - 1].len() && scanned_from(#[trigger] chart[p - 1][k2], input, p, it0) {
        let k2 = choose|k2: int|
            0 <= k2 < chart[p - 1].len() && scanned_from(#[trigger] chart[p - 1][k2], input, p, it0);
        assert(scanned_from(c2[p - 1][k2], input, p, it0));
    } else {
        let (k2, m) = choose|k2: int, m: int|
            {
                &&& 0 <= k2 < k
                &&& 0 <= (#[trigger] chart[p][k2]).start <= p
                &&& 0 <= m < chart[chart[p][k2].start as int].len()
                &&& (chart[p][k2].start < p || m < k)
                &&& completed_from(chart[p][k2], #[trigger] chart[chart[p][k2].start as int][m], it0)
            };
        let fin = chart[p][k2];
        assert(c2[p][k2] == fin);
        assert(completed_from(c2[p][k2], c2[c2[p][k2].start as int][m], it0));
    }
}

/// Decides whether two items are the same `(rule, dot, origin)` triple.
fn item_eq<G: Grammar>(a: &Item<G>, b: &Item<G>) -> (r: bool)
    ensures
        r == (*a == *b),
{
    let r = a.dot == b.dot && a.start == b.start && a.rule.idx == b.rule.idx && a.rule.gram.eq_sym(
        &b.rule.gram,
    );
    proof {
        if r {
            assert(a.rule == b.rule);
            assert(*a == *b);
        }
    }
    r
}

/// Appends `it` to the state set only if the set does not already hold
/// it: state sets are sets, and re-deriving an item that is already
/// present leaves the set unchanged.
pub fn push_unique<G: Grammar>(set: &mut Vec<Item<G>>, it: Item<G>) -> (added: bool)
    ensures
        old(set)@.contains(it) ==> !added && final(set)@ == old(set)@,
        !old(set)@.contains(it) ==> added && final(set)@ == old(set)@.push(it),
        no_dups(old(set)@) ==> no_dups(final(set)@),
{
    let n = set.len();
    let mut k: usize = 0;
    while k < n
        invariant
            n == set.len(),
            k <= n,
            forall|k2: int| 0 <= k2 < k ==> set@[k2] != it,
        decreases n - k,
    {
        if item_eq(&set[k], &it) {
            return false;
        }
        k += 1;
    }
    set.push(it);
    proof {
        if no_dups(old(set)@) {
            assert forall|k1: int, k2: int| 0 <= k1 < k2 < set@.len() implies set@[k1]
                != set@[k2] by {
                if k2 == set@.len() - 1 {
                    assert(set@[k2] == it);
                }
            }
        }
    }
    true
}

/// The item `it`, bound for the state set at position `p`, is justified
/// by scanning from some item of the sequence `from` (the state set at
/// position `p - 1`).
pub open spec fn scan_justified<G: Grammar>(
    from: Seq<Item<G>>,
    input: Seq<u8>,
    p: int,
    it: Item<G>,
) -> bool {
    exists|k: int| 0 <= k < from.len() && scanned_from(#[trigger] from[k], input, p, it)
}

proof fn lemma_scan_justified_mono<G: Grammar>(
    from1: Seq<Item<G>>,
    from2: Seq<Item<G>>,
    input: Seq<u8>,
    p: int,
    it: Item<G>,
)
    requires
        scan_justified(from1, input, p, it),
        from1.len() <= from2.len(),
        forall|k: int| 0 <= k < from1.len() ==> from2[k] == from1[k],
    ensures
        scan_justified(from2, input, p, it),
{
    let k = choose|k: int| 0 <= k < from1.len() && scanned_from(#[trigger] from1[k], input, p, it);
    assert(scanned_from(from2[k], input, p, it));
}

/// Like `item_closed`, but for an item of the state set still being
/// processed (the last set of `chart`): a consequence drawn by scanning
/// stands in the staging set `nxt` for the following position, which is
/// not part of the chart yet.
pub open spec fn item_processed<G: Grammar>(
    chart: Seq<Seq<Item<G>>>,
    nxt: Seq<Item<G>>,
    input: Seq<u8>,
    p: int,
    it: Item<G>,
) -> bool {
    if it.is_complete() {
        it.start < p ==> forall|m: int|
            0 <= m < chart[it.start as int].len() && waits_for(
                #[trigger] chart[it.start as int][m],
                it.rule.gram,
            ) ==> chart[p].contains(chart[it.start as int][m].advanced())
    } else {
        match it.spec_next() {
            RuleAtom::Grammar(g) => {
                &&& forall|alt: int|
                    0 <= alt < g.spec_variants() ==> chart[p].contains(
                        #[trigger] predicted_item(g, alt, p),
                    )
                &&& (exists|alt: int| 0 <= alt < g.spec_variants() && g.spec_len(alt) == 0)
                    ==> chart[p].contains(it.advanced())
            },
            RuleAtom::Terminal(t) => (p < input.len() && t.spec_test(input[p])) ==> nxt.contains(
                it.advanced(),
            ),
        }
    }
}

/// The monotone progress facts of the engine at one position: the chart
/// is seeded, every item at a finished position is closed, and the
/// first `jdone` items of the worklist have been processed.
pub open spec fn progress_inv<G: Grammar>(
    fin: Seq<Seq<Item<G>>>,
    cur: Seq<Item<G>>,
    nxt: Seq<Item<G>>,
    start: G,
    input: Seq<u8>,
    jdone: int,
) -> bool {
    &&& seeded(fin.push(cur), start)
    &&& forall|p: int, k: int|
        0 <= p < fin.len() && 0 <= k < fin.push(cur)[p].len() ==> item_closed(
            fin.push(cur),
            input,
            p,
            #[trigger] fin.push(cur)[p][k],
        )
    &&& forall|k: int|
        0 <= k < jdone ==> item_processed(
            fin.push(cur),
            nxt,
            input,
            fin.len() as int,
            #[trigger] cur[k],
        )
}

/// Containment survives extending a sequence at its end.
proof fn lemma_contains_prefix<G: Grammar>(s1: Seq<Item<G>>, s2: Seq<Item<G>>, y: Item<G>)
    requires
        s1.len() <= s2.len(),
        forall|x: int| 0 <= x < s1.len() ==> #[trigger] s2[x] == s1[x],
        s1.contains(y),
    ensures
        s2.contains(y),
{
    let idx = choose|idx: int| 0 <= idx < s1.len() && s1[idx] == y;
    assert(s2[idx] == y);
}

/// Closedness of an item survives growing the last state set of the
/// chart, appending further state sets, and growing the staging set:
/// every clause either reads an unchanged set or asks that a set
/// contain an element, and containment is preserved.
proof fn lemma_closed_extend<G: Grammar>(
    c1: Seq<Seq<Item<G>>>,
    c2: Seq<Seq<Item<G>>>,
    input: Seq<u8>,
    p: int,
    it: Item<G>,
)
    requires
        0 <= p < c1.len(),
        c1.len() <= c2.len(),
        forall|q: int| 0 <= q < c1.len() - 1 ==> #[trigger] c2[q] == c1[q],
        c1[c1.len() - 1].len() <= c2[c1.len() - 1].len(),
        forall|x: int|
            0 <= x < c1[c1.len() - 1].len() ==> #[trigger] c2[c1.len() - 1][x] == c1[c1.len()
                - 1][x],
        0 <= it.start <= p,
        item_closed(c1, input, p, it),
    ensures
        item_closed(c2, input, p, it),
{
    let last = c1.len() - 1;
    assert forall|q: int, y: Item<G>|
        0 <= q < c1.len() && c1[q].contains(y) implies #[trigger] c2[q].contains(y) by {
        let idx = choose|idx: int| 0 <= idx < c1[q].len() && c1[q][idx] == y;
        if q == last {
            assert(c2[q][idx] == y);
        } else {
            assert(c2[q][idx] == y);
        }
    }
    if it.is_complete() {
        if it.start < p {
            let s = it.start as int;
            assert(c2[s] == c1[s]);
            assert forall|m: int|
                0 <= m < c2[s].len() && waits_for(#[trigger] c2[s][m], it.rule.gram) implies c2[p].contains(
                c2[s][m].advanced(),
            ) by {
                assert(c1[p].contains(c1[s][m].advanced()));
            }
        }
    } else {
        match it.spec_next() {
            RuleAtom::Grammar(g) => {
                assert forall|alt: int| 0 <= alt < g.spec_variants() implies c2[p].contains(
                    #[trigger] predicted_item(g, alt, p),
                ) by {
                    assert(c1[p].contains(predicted_item(g, alt, p)));
                }
            },
            RuleAtom::Terminal(t) => {
                if p < input.len() && t.spec_test(input[p]) {
                    assert(c1[p + 1].contains(it.advanced()));
                }
            },
        }
    }
}

/// The same stability for an item of the set under processing.
proof fn lemma_processed_extend<G: Grammar>(
    fin: Seq<Seq<Item<G>>>,
    cur1: Seq<Item<G>>,
    cur2: Seq<Item<G>>,
    nxt1: Seq<Item<G>>,
    nxt2: Seq<Item<G>>,
    input: Seq<u8>,
    it: Item<G>,
)
    requires
        cur1.len() <= cur2.len(),
        forall|x: int| 0 <= x < cur1.len() ==> #[trigger] cur2[x] == cur1[x],
        nxt1.len() <= nxt2.len(),
        forall|x: int| 0 <= x < nxt1.len() ==> #[trigger] nxt2[x] == nxt1[x],
        0 <= it.start <= fin.len(),
        item_processed(fin.push(cur1), nxt1, input, fin.len() as int, it),
    ensures
        item_processed(fin.push(cur2), nxt2, input, fin.len() as int, it),
{
    let c1 = fin.push(cur1);
    let c2 = fin.push(cur2);
    let p = fin.len() as int;
    assert forall|q: int| 0 <= q < p implies c2[q] == c1[q] by {}
    assert(c1[p] == cur1);
    assert(c2[p] == cur2);
    assert forall|y: Item<G>| cur1.contains(y) implies cur2.contains(y) by {
        let idx = choose|idx: int| 0 <= idx < cur1.len() && cur1[idx] == y;
        assert(cur2[idx] == y);
    }
    assert forall|y: Item<G>| nxt1.contains(y) implies nxt2.contains(y) by {
        let idx = choose|idx: int| 0 <= idx < nxt1.len() && nxt1[idx] == y;
        assert(nxt2[idx] == y);
    }
    if it.is_complete() {
        if it.start < p {
            let s = it.start as int;
            assert(c2[s] == c1[s]);
            assert forall|m: int|
                0 <= m < c2[s].len() && waits_for(#[trigger] c2[s][m], it.rule.gram) implies c2[p].contains(
                c2[s][m].advanced(),
            ) by {
                assert(c1[p].contains(c1[s][m].advanced()));
            }
        }
    } else {
        match it.spec_next() {
            RuleAtom::Grammar(g) => {
                assert forall|alt: int| 0 <= alt < g.spec_variants() implies c2[p].contains(
                    #[trigger] predicted_item(g, alt, p),
                ) by {
                    assert(c1[p].contains(predicted_item(g, alt, p)));
                }
            },
            RuleAtom::Terminal(_) => {},
        }
    }
}

/// The whole progress invariant survives appending one item to the
/// worklist or to the staging set.
proof fn lemma_progress_inv_mono<G: Grammar>(
    fin: Seq<Seq<Item<G>>>,
    cur1: Seq<Item<G>>,
    cur2: Seq<Item<G>>,
    nxt1: Seq<Item<G>>,
    nxt2: Seq<Item<G>>,
    start: G,
    input: Seq<u8>,
    jdone: int,
)
    requires
        cur1.len() <= cur2.len(),
        forall|x: int| 0 <= x < cur1.len() ==> #[trigger] cur2[x] == cur1[x],
        nxt1.len() <= nxt2.len(),
        forall|x: int| 0 <= x < nxt1.len() ==> #[trigger] nxt2[x] == nxt1[x],
        0 <= jdone <= cur1.len(),
        set_wf(cur1, fin.len() as int),
        chart_wf(fin.push(cur1)),
        progress_inv(fin, cur1, nxt1, start, input, jdone),
    ensures
        progress_inv(fin, cur2, nxt2, start, input, jdone),
{
    let c1 = fin.push(cur1);
    let c2 = fin.push(cur2);
    assert forall|q: int| 0 <= q < fin.len() implies c2[q] == c1[q] by {}
    assert(c1[fin.len() as int] == cur1);
    assert(c2[fin.len() as int] == cur2);
    assert forall|alt: int| 0 <= alt < start.spec_variants() implies c2[0].contains(
        #[trigger] predicted_item(start, alt, 0),
    ) by {
        assert(c1[0].contains(predicted_item(start, alt, 0)));
        if fin.len() == 0 {
            let idx = choose|idx: int| 0 <= idx < cur1.len() && cur1[idx] == predicted_item(
                start,
                alt,
                0,
            );
            assert(cur2[idx] == predicted_item(start, alt, 0));
        }
    }
    assert forall|p: int, k: int|
        0 <= p < fin.len() && 0 <= k < c2[p].len() implies item_closed(
        c2,
        input,
        p,
        #[trigger] c2[p][k],
    ) by {
        assert(c2[p][k] == c1[p][k]);
        assert(item_closed(c1, input, p, c1[p][k]));
        assert(set_wf(c1[p], p));
        lemma_closed_extend(c1, c2, input, p, c1[p][k]);
    }
    assert forall|k: int| 0 <= k < jdone implies item_processed(
        c2,
        nxt2,
        input,
        fin.len() as int,
        #[trigger] cur2[k],
    ) by {
        assert(cur2[k] == cur1[k]);
        assert(item_processed(c1, nxt1, input, fin.len() as int, cur1[k]));
        lemma_processed_extend(fin, cur1, cur2, nxt1, nxt2, input, cur1[k]);
    }
}

/// Appends `it` to the worklist `cur`, the still-growing state set at
/// position `i` of a chart whose earlier state sets stand in `chart`,
/// keeping the whole chart well formed, duplicate-free and sound.  The
/// caller supplies the justification of `it` at the position it would
/// occupy if appended.
fn push_sound<G: Grammar>(
    chart: &Vec<Vec<Item<G>>>,
    cur: &mut Vec<Item<G>>,
    input: &[u8],
    start: G,
    i: usize,
    it: Item<G>,
)
    requires
        chart@.len() == i as int,
        i <= input@.len(),
        it.wf(),
        it.start <= i,
        chart_wf(chart_view(chart@).push(old(cur)@)),
        sound(chart_view(chart@).push(old(cur)@), start, input@),
        justified_at(
            append_last(chart_view(chart@).push(old(cur)@), it),
            start,
            input@,
            i as int,
            old(cur)@.len() as int,
        ),
    ensures
        final(cur)@ == old(cur)@ || final(cur)@ == old(cur)@.push(it),
        final(cur)@.len() >= old(cur)@.len(),
        final(cur)@.len() <= old(cur)@.len() + 1,
        forall|k: int| 0 <= k < old(cur)@.len() ==> final(cur)@[k] == old(cur)@[k],
        final(cur)@.contains(it),
        chart_wf(chart_view(chart@).push(final(cur)@)),
        sound(chart_view(chart@).push(final(cur)@), start, input@),
{
    let ghost full0 = chart_view(chart@).push(old(cur)@);
    let ghost n0 = old(cur)@.len() as int;
    let added = push_unique(cur, it);
    proof {
        let full1 = chart_view(chart@).push(cur@);
        if added {
            assert(cur@ == old(cur)@.push(it));
            assert(cur@[n0] == it);
            assert(full1 =~= append_last(full0, it)) by {
                assert(full0.last() == old(cur)@);
                assert(append_last(full0, it)[i as int] == old(cur)@.push(it));
            }
            assert forall|p: int, k: int|
                0 <= p < full1.len() && 0 <= k < full1[p].len() implies justified_at(
                full1,
                start,
                input@,
                p,
                k,
            ) by {
                if p == i as int && k == n0 {
                } else {
                    assert(0 <= p < full0.len());
                    if p == i as int {
                        assert(full1[p] == old(cur)@.push(it));
                        assert(0 <= k < full0[p].len());
                    } else {
                        assert(full1[p] == full0[p]);
                    }
                    lemma_justified_append_last(full0, start, input@, it, p, k);
                }
            }
            assert forall|p: int| 0 <= p < full1.len() implies set_wf(#[trigger] full1[p], p)
                && no_dups(full1[p]) by {
                assert(0 <= p < full0.len());
                if p == i as int {
                    assert(full0[p] == old(cur)@);
                    assert(set_wf(old(cur)@, p));
                    assert forall|k: int| 0 <= k < full1[p].len() implies (#[trigger] full1[p][k]).wf()
                        && full1[p][k].start <= p by {
                        if k < n0 {
                            assert(full1[p][k] == old(cur)@[k]);
                        } else {
                            assert(full1[p][k] == it);
                        }
                    }
                } else {
                    assert(full1[p] == full0[p]);
                }
            }
        } else {
            assert(cur@ == old(cur)@);
            assert(full1 == full0);
        }
    }
}

/// Soundness of the chart: every item records a genuine partial
/// derivation.  In a well-formed, sound chart, the item at position
/// `p`, index `k` has matched the first `dot` atoms of its production
/// body against `input[origin..p]`.  The proof follows the item's
/// justification chain, which the index ordering makes well founded.
pub proof fn lemma_item_derives<G: Grammar>(
    chart: Seq<Seq<Item<G>>>,
    start: G,
    input: Seq<u8>,
    p: int,
    k: int,
)
    requires
        chart_wf(chart),
        sound(chart, start, input),
        chart.len() <= input.len() + 1,
        input.len() <= usize::MAX,
        0 <= p < chart.len(),
        0 <= k < chart[p].len(),
    ensures
        exists|d: Deriv|
            #[trigger] deriv_ok(
                d,
                chart[p][k].rule,
                chart[p][k].dot as int,
                input,
                chart[p][k].start as int,
                p,
            ),
    decreases p, k,
{
    let it = chart[p][k];
    assert(justified_at(chart, start, input, p, k));
    assert(set_wf(chart[p], p));
    assert(it.wf() && it.start <= p);
    if is_seed(start, p, it) {
        assert(deriv_ok(Deriv::Nil, it.rule, it.dot as int, input, it.start as int, p));
    } else if exists|k2: int| 0 <= k2 < k && predicted_from(#[trigger] chart[p][k2], p, it) {
        assert(deriv_ok(Deriv::Nil, it.rule, it.dot as int, input, it.start as int, p));
    } else if 1 <= p <= input.len() && exists|k2: int|
        0 <= k2 < chart[p - 1].len() && scanned_from(#[trigger] chart[p - 1][k2], input, p, it) {
        let k2 = choose|k2: int|
            0 <= k2 < chart[p - 1].len() && scanned_from(#[trigger] chart[p - 1][k2], input, p, it);
        let src = chart[p - 1][k2];
        assert(set_wf(chart[p - 1], p - 1));
        assert(src.start <= p - 1);
        lemma_item_derives(chart, start, input, p - 1, k2);
        let dpre = choose|d: Deriv|
            #[trigger] deriv_ok(d, src.rule, src.dot as int, input, src.start as int, p - 1);
        let w = Deriv::Step { pre: Box::new(dpre), mid: (p - 1) as usize, atom: Box::new(AtomDeriv::Byte) };
        assert(atom_ok::<G>(AtomDeriv::Byte, src.spec_next(), input, p - 1, p));
        assert(it.rule == src.rule && it.dot == src.dot + 1 && it.start == src.start);
        assert(deriv_ok(dpre, it.rule, it.dot as int - 1, input, it.start as int, p - 1));
        assert(it.rule.spec_atom(it.dot as int - 1) == src.spec_next());
        assert(deriv_ok(w, it.rule, it.dot as int, input, it.start as int, p));
    } else {
        let (k2, m) = choose|k2: int, m: int|
            {
                &&& 0 <= k2 < k
                &&& 0 <= (#[trigger] chart[p][k2]).start <= p
                &&& 0 <= m < chart[chart[p][k2].start as int].len()
                &&& (chart[p][k2].start < p || m < k)
                &&& completed_from(chart[p][k2], #[trigger] chart[chart[p][k2].start as int][m], it)
            };
        let fin = chart[p][k2];
        let s = fin.start as int;
        let src = chart[s][m];
        assert(set_wf(chart[s], s));
        assert(src.start <= s);
        lemma_item_derives(chart, start, input, p, k2);
        lemma_item_derives(chart, start, input, s, m);
        let dfin = choose|d: Deriv|
            #[trigger] deriv_ok(d, fin.rule, fin.dot as int, input, s, p);
        let dsrc = choose|d: Deriv|
            #[trigger] deriv_ok(d, src.rule, src.dot as int, input, src.start as int, s);
        let ad = AtomDeriv::Sub { alt: fin.rule.idx, sub: Box::new(dfin) };
        assert(atom_ok::<G>(ad, src.spec_next(), input, s, p)) by {
            assert(Rule { gram: fin.rule.gram, idx: fin.rule.idx } == fin.rule);
            assert(fin.dot == fin.rule.spec_len());
        }
        let w = Deriv::Step { pre: Box::new(dsrc), mid: s as usize, atom: Box::new(ad) };
        assert(it.rule == src.rule && it.dot == src.dot + 1 && it.start == src.start);
        assert(deriv_ok(dsrc, it.rule, it.dot as int - 1, input, it.start as int, s));
        assert(it.rule.spec_atom(it.dot as int - 1) == src.spec_next());
        assert(deriv_ok(w, it.rule, it.dot as int, input, it.start as int, p));
    }
}

/// Any chart that witnesses recognition yields a derivation of the
/// whole input from the start symbol.
pub proof fn lemma_recognized_derivable<G: Grammar>(
    chart: Seq<Seq<Item<G>>>,
    start: G,
    input: Seq<u8>,
)
    requires
        recognized_by(chart, start, input),
        input.len() <= usize::MAX,
    ensures
        derivable(start, input),
{
    let n = input.len() as int;
    let k = choose|k: int| 0 <= k < chart[n].len() && accepting(#[trigger] chart[n][k], start);
    lemma_item_derives(chart, start, input, n, k);
    let it = chart[n][k];
    assert(set_wf(chart[n], n));
    assert(it.wf());
    let d = choose|d: Deriv|
        #[trigger] deriv_ok(d, it.rule, it.dot as int, input, it.start as int, n);
    assert(it.rule.idx < start.spec_variants());
    assert(deriv_ok(
        d,
        Rule { gram: start, idx: it.rule.idx },
        start.spec_len(it.rule.idx as int) as int,
        input,
        0,
        n,
    )) by {
        assert(Rule { gram: start, idx: it.rule.idx } == it.rule);
        assert(it.dot == it.rule.spec_len());
        assert(it.start == 0);
    }
}

/// Decides whether `input` is derivable from the `start` symbol.
///
/// The chart is seeded at position 0 with every alternative of `start`
/// and grown to a fixed point by prediction, scanning and completion;
/// the input is accepted exactly when the finished chart spans the whole
/// input and its last state set holds a fully matched rule for `start`
/// whose match began at position 0.  A `true` answer comes with a
/// derivation of the whole input from `start`, and is backed by such a
/// chart: well formed, duplicate-free, and with every item justified.
/// A `false` answer is backed by a seeded, saturated chart in which the
/// exhaustive search found no accepting item.
pub fn recognize<G: Grammar>(start: G, input: &[u8]) -> (r: bool)
    ensures
        r ==> derivable(start, input@),
        r ==> exists|chart: Seq<Seq<Item<G>>>| recognized_by(chart, start, input@),
        !r ==> exists|chart: Seq<Seq<Item<G>>>| refuted_by(chart, start, input@),
{
    let n = input.len();
    let mut chart: Vec<Vec<Item<G>>> = Vec::new();
    let mut cur: Vec<Item<G>> = Vec::new();
    let vn = start.variants();
    let mut a: usize = 0;
    while a < vn
        invariant
            vn == start.spec_variants(),
            a <= vn,
            no_dups(cur@),
            forall|k: int|
                0 <= k < cur@.len() ==> (#[trigger] cur@[k]).wf() && is_seed(start, 0, cur@[k]),
            forall|alt: int|
                0 <= alt < a as int ==> cur@.contains(#[trigger] predicted_item(start, alt, 0)),
        decreases vn - a,
    {
        let seed = Item::new(Rule::new(start, a), 0, 0);
        let ghost seeds_before = cur@;
        push_unique(&mut cur, seed);
        proof {
            assert(seed == predicted_item(start, a as int, 0));
            assert(cur@.contains(seed));
            assert forall|alt: int|
                0 <= alt < a as int + 1 implies cur@.contains(
                #[trigger] predicted_item(start, alt, 0),
            ) by {
                if alt < a as int {
                    lemma_contains_prefix(seeds_before, cur@, predicted_item(start, alt, 0));
                }
            }
        }
        a += 1;
    }
    let mut i: usize = 0;
    proof {
        let full = chart_view(chart@).push(cur@);
        assert(full.len() == 1);
        assert(full[0] == cur@);
        assert forall|p: int| 0 <= p < full.len() implies set_wf(#[trigger] full[p], p) && no_dups(
            full[p],
        ) by {}
        assert forall|p: int, k: int|
            0 <= p < full.len() && 0 <= k < full[p].len() implies justified_at(
            full,
            start,
            input@,
            p,
            k,
        ) by {
            assert(is_seed(start, p, full[p][k]));
        }
        assert(full[0] == cur@);
        assert(progress_inv(chart_view(chart@), cur@, Seq::<Item<G>>::empty(), start, input@, 0));
    }
    loop
        invariant_except_break
            input@.len() <= usize::MAX,
            chart@.len() == i as int,
            i <= input@.len(),
            chart_wf(chart_view(chart@).push(cur@)),
            sound(chart_view(chart@).push(cur@), start, input@),
            progress_inv(chart_view(chart@), cur@, Seq::<Item<G>>::empty(), start, input@, 0),
        ensures
            chart@.len() >= 1,
            chart@.len() <= input@.len() + 1,
            chart_wf(chart_view(chart@)),
            sound(chart_view(chart@), start, input@),
            seeded(chart_view(chart@), start),
            saturated(chart_view(chart@), input@),
        decreases input@.len() - i,
    {
        let mut next: Vec<Item<G>> = Vec::new();
        let mut j: usize = 0;
        proof {
            assert(chart_view(chart@).push(cur@)[i as int] == cur@);
            lemma_set_len_bounded::<G>(cur@, i as int);
            assert(next@ == Seq::<Item<G>>::empty());
            assert(progress_inv(chart_view(chart@), cur@, next@, start, input@, 0));
        }
        while j < cur.len()
            invariant
                chart@.len() == i as int,
                i <= input@.len(),
                j <= cur@.len(),
                cur@.len() == 0 || cur@.len() <= set_bound::<G>(i as int),
                chart_wf(chart_view(chart@).push(cur@)),
                sound(chart_view(chart@).push(cur@), start, input@),
                no_dups(next@),
                forall|k: int|
                    0 <= k < next@.len() ==> (#[trigger] next@[k]).wf() && next@[k].start <= i + 1
                        && scan_justified(cur@, input@, i as int + 1, next@[k]),
                next@.len() > 0 ==> i < input@.len(),
                progress_inv(chart_view(chart@), cur@, next@, start, input@, j as int),
            decreases set_bound::<G>(i as int) - j,
        {
            let item = cur[j];
            proof {
                assert(chart_view(chart@).push(cur@)[i as int] == cur@);
                assert(set_wf(cur@, i as int));
                assert(item.wf() && item.start <= i);
            }
            let rule = item.rule;
            let l = rule.len();
            if item.dot == l {
                // Completion: advance every item that waits, in the set
                // where this item's match began, for this item's symbol.
                let g = rule.gram;
                if item.start == i {
                    let mut k: usize = 0;
                    while k < cur.len()
                        invariant
                            chart@.len() == i as int,
                            i <= input@.len(),
                            item.wf(),
                            item.is_complete(),
                            item.rule == rule,
                            rule.gram == g,
                            item.start == i,
                            j < cur@.len(),
                            cur@[j as int] == item,
                            k <= cur@.len(),
                            cur@.len() <= set_bound::<G>(i as int),
                            chart_wf(chart_view(chart@).push(cur@)),
                            sound(chart_view(chart@).push(cur@), start, input@),
                            no_dups(next@),
                            forall|kk: int|
                                0 <= kk < next@.len() ==> (#[trigger] next@[kk]).wf()
                                    && next@[kk].start <= i + 1 && scan_justified(
                                    cur@,
                                    input@,
                                    i as int + 1,
                                    next@[kk],
                                ),
                            next@.len() > 0 ==> i < input@.len(),
                            progress_inv(chart_view(chart@), cur@, next@, start, input@, j as int),
                        decreases set_bound::<G>(i as int) - k,
                    {
                        let x = cur[k];
                        proof {
                            assert(chart_view(chart@).push(cur@)[i as int] == cur@);
                            assert(set_wf(cur@, i as int));
                            assert(x.wf() && x.start <= i);
                        }
                        let xl = x.rule.len();
                        let willpush = if x.dot != xl {
                            match x.rule.getatom(x.dot) {
                                RuleAtom::Grammar(h) => h.eq_sym(&g),
                                RuleAtom::Terminal(_) => false,
                            }
                        } else {
                            false
                        };
                        if willpush {
                            let newit = x.incr();
                            proof {
                                let full = chart_view(chart@).push(cur@);
                                let c2 = append_last(full, newit);
                                let kn = cur@.len() as int;
                                assert(full.last() == cur@);
                                assert(c2[i as int] == cur@.push(newit));
                                assert(c2[i as int][kn] == newit);
                                assert(c2[i as int][j as int] == item);
                                assert(c2[i as int][k as int] == x);
                                assert(completed_from(
                                    c2[i as int][j as int],
                                    c2[c2[i as int][j as int].start as int][k as int],
                                    newit,
                                ));
                                assert(justified_at(c2, start, input@, i as int, kn));
                            }
                            let ghost cur_before = cur@;
                            push_sound(&chart, &mut cur, input, start, i, newit);
                            proof {
                                assert forall|kk: int| 0 <= kk < next@.len() implies (
                                #[trigger] next@[kk]).wf() && next@[kk].start <= i + 1
                                    && scan_justified(cur@, input@, i as int + 1, next@[kk]) by {
                                    lemma_scan_justified_mono(
                                        cur_before,
                                        cur@,
                                        input@,
                                        i as int + 1,
                                        next@[kk],
                                    );
                                }
                                assert(cur@[j as int] == item);
                                assert(chart_view(chart@).push(cur@)[i as int] == cur@);
                                assert(set_wf(cur@, i as int) && no_dups(cur@));
                                lemma_set_len_bounded::<G>(cur@, i as int);
                                lemma_progress_inv_mono(
                                    chart_view(chart@),
                                    cur_before,
                                    cur@,
                                    next@,
                                    next@,
                                    start,
                                    input@,
                                    j as int,
                                );
                            }
                        }
                        k += 1;
                    }
                    proof {
                        assert(item_processed(
                            chart_view(chart@).push(cur@),
                            next@,
                            input@,
                            i as int,
                            item,
                        ));
                    }
                } else {
                    let s = item.start;
                    let m_len = chart[s].len();
                    let mut k: usize = 0;
                    while k < m_len
                        invariant
                            chart@.len() == i as int,
                            i <= input@.len(),
                            item.wf(),
                            item.is_complete(),
                            item.rule == rule,
                            rule.gram == g,
                            item.start == s,
                            s < i,
                            m_len == chart@[s as int]@.len(),
                            j < cur@.len(),
                            cur@[j as int] == item,
                            k <= m_len,
                            chart_wf(chart_view(chart@).push(cur@)),
                            sound(chart_view(chart@).push(cur@), start, input@),
                            progress_inv(chart_view(chart@), cur@, next@, start, input@, j as int),
                            forall|m2: int|
                                0 <= m2 < k as int && waits_for(
                                    #[trigger] chart@[s as int]@[m2],
                                    g,
                                ) ==> cur@.contains(chart@[s as int]@[m2].advanced()),
                            no_dups(next@),
                            forall|kk: int|
                                0 <= kk < next@.len() ==> (#[trigger] next@[kk]).wf()
                                    && next@[kk].start <= i + 1 && scan_justified(
                                    cur@,
                                    input@,
                                    i as int + 1,
                                    next@[kk],
                                ),
                            next@.len() > 0 ==> i < input@.len(),
                        decreases m_len - k,
                    {
                        let x = chart[s][k];
                        proof {
                            let full = chart_view(chart@).push(cur@);
                            assert(full[s as int] == chart@[s as int]@);
                            assert(set_wf(full[s as int], s as int));
                            assert(x == full[s as int][k as int]);
                            assert(x.wf() && x.start <= s);
                        }
                        let xl = x.rule.len();
                        let willpush = if x.dot != xl {
                            match x.rule.getatom(x.dot) {
                                RuleAtom::Grammar(h) => h.eq_sym(&g),
                                RuleAtom::Terminal(_) => false,
                            }
                        } else {
                            false
                        };
                        proof {
                            assert(willpush || !waits_for(x, g));
                        }
                        if willpush {
                            let newit = x.incr();
                            proof {
                                let full = chart_view(chart@).push(cur@);
                                let c2 = append_last(full, newit);
                                let kn = cur@.len() as int;
                                assert(full.last() == cur@);
                                assert(c2[i as int] == cur@.push(newit));
                                assert(c2[i as int][kn] == newit);
                                assert(c2[i as int][j as int] == item);
                                assert(c2[s as int] == full[s as int]);
                                assert(c2[s as int][k as int] == x);
                                assert(completed_from(
                                    c2[i as int][j as int],
                                    c2[c2[i as int][j as int].start as int][k as int],
                                    newit,
                                ));
                                assert(justified_at(c2, start, input@, i as int, kn));
                            }
                            let ghost cur_before = cur@;
                            push_sound(&chart, &mut cur, input, start, i, newit);
                            proof {
                                assert forall|kk: int| 0 <= kk < next@.len() implies (
                                #[trigger] next@[kk]).wf() && next@[kk].start <= i + 1
                                    && scan_justified(cur@, input@, i as int + 1, next@[kk]) by {
                                    lemma_scan_justified_mono(
                                        cur_before,
                                        cur@,
                                        input@,
                                        i as int + 1,
                                        next@[kk],
                                    );
                                }
                                assert(cur@[j as int] == item);
                                lemma_progress_inv_mono(
                                    chart_view(chart@),
                                    cur_before,
                                    cur@,
                                    next@,
                                    next@,
                                    start,
                                    input@,
                                    j as int,
                                );
                                assert(cur@.contains(newit));
                                assert forall|m2: int|
                                    0 <= m2 < k as int + 1 && waits_for(
                                        #[trigger] chart@[s as int]@[m2],
                                        g,
                                    ) implies cur@.contains(chart@[s as int]@[m2].advanced()) by {
                                    if m2 < k as int {
                                        lemma_contains_prefix(
                                            cur_before,
                                            cur@,
                                            chart@[s as int]@[m2].advanced(),
                                        );
                                    } else {
                                        assert(chart@[s as int]@[m2] == x);
                                        assert(newit == x.advanced());
                                    }
                                }
                            }
                        } else {
                            proof {
                                assert forall|m2: int|
                                    0 <= m2 < k as int + 1 && waits_for(
                                        #[trigger] chart@[s as int]@[m2],
                                        g,
                                    ) implies cur@.contains(chart@[s as int]@[m2].advanced()) by {
                                    if m2 == k as int {
                                        assert(chart@[s as int]@[m2] == x);
                                    }
                                }
                            }
                        }
                        k += 1;
                    }
                    proof {
                        let full = chart_view(chart@).push(cur@);
                        assert(full[s as int] == chart@[s as int]@);
                        assert(full[i as int] == cur@);
                        assert(item.rule.gram == g);
                        assert forall|m2: int|
                            0 <= m2 < full[s as int].len() && waits_for(
                                #[trigger] full[s as int][m2],
                                item.rule.gram,
                            ) implies full[i as int].contains(full[s as int][m2].advanced()) by {
                            assert(cur@.contains(chart@[s as int]@[m2].advanced()));
                        }
                        assert(item_processed(full, next@, input@, i as int, item));
                    }
                }
            } else {
                match rule.getatom(item.dot) {
                    RuleAtom::Terminal(term) => {
                        // Scanning: if the next input byte matches, the
                        // advanced item belongs to the next state set.
                        if i < input.len() {
                            if term.test(input[i]) {
                                let newit = item.incr();
                                let ghost next_before = next@;
                                push_unique(&mut next, newit);
                                proof {
                                    assert(scanned_from(
                                        cur@[j as int],
                                        input@,
                                        i as int + 1,
                                        newit,
                                    ));
                                    assert forall|kk: int| 0 <= kk < next@.len() implies (
                                    #[trigger] next@[kk]).wf() && next@[kk].start <= i + 1
                                        && scan_justified(cur@, input@, i as int + 1, next@[kk]) by {
                                        if kk < next_before.len() {
                                            assert(next@[kk] == next_before[kk]);
                                        } else {
                                            assert(next@[kk] == newit);
                                        }
                                    }
                                    lemma_progress_inv_mono(
                                        chart_view(chart@),
                                        cur@,
                                        cur@,
                                        next_before,
                                        next@,
                                        start,
                                        input@,
                                        j as int,
                                    );
                                    assert(next@.contains(newit));
                                }
                            }
                        }
                        proof {
                            assert(item_processed(
                                chart_view(chart@).push(cur@),
                                next@,
                                input@,
                                i as int,
                                item,
                            ));
                        }
                    }
                    RuleAtom::Grammar(g2) => {
                        // Prediction: open every alternative of the
                        // expected nonterminal at this position.  An
                        // empty alternative completes on the spot, so
                        // the waiting item advances immediately.
                        let vn2 = g2.variants();
                        let mut x: usize = 0;
                        while x < vn2
                            invariant
                                vn2 == g2.spec_variants(),
                                x <= vn2,
                                chart@.len() == i as int,
                                i <= input@.len(),
                                item.wf(),
                                item.rule == rule,
                                l == rule.spec_len(),
                                item.dot < l,
                                item.spec_next() == RuleAtom::<G>::Grammar(g2),
                                item.start <= i,
                                j < cur@.len(),
                                cur@[j as int] == item,
                                chart_wf(chart_view(chart@).push(cur@)),
                                sound(chart_view(chart@).push(cur@), start, input@),
                                progress_inv(chart_view(chart@), cur@, next@, start, input@, j as int),
                                forall|alt: int|
                                    0 <= alt < x as int ==> cur@.contains(
                                        #[trigger] predicted_item(g2, alt, i as int),
                                    ),
                                (exists|alt: int| 0 <= alt < x as int && g2.spec_len(alt) == 0)
                                    ==> cur@.contains(item.advanced()),
                                no_dups(next@),
                                forall|kk: int|
                                    0 <= kk < next@.len() ==> (#[trigger] next@[kk]).wf()
                                        && next@[kk].start <= i + 1 && scan_justified(
                                        cur@,
                                        input@,
                                        i as int + 1,
                                        next@[kk],
                                    ),
                                next@.len() > 0 ==> i < input@.len(),
                            decreases vn2 - x,
                        {
                            let alt_len = g2.len(x);
                            let newit = Item::new(Rule::new(g2, x), 0, i);
                            proof {
                                let full = chart_view(chart@).push(cur@);
                                let c2 = append_last(full, newit);
                                let kn = cur@.len() as int;
                                assert(full.last() == cur@);
                                assert(c2[i as int] == cur@.push(newit));
                                assert(c2[i as int][kn] == newit);
                                assert(c2[i as int][j as int] == item);
                                assert(predicted_from(c2[i as int][j as int], i as int, newit));
                                assert(justified_at(c2, start, input@, i as int, kn));
                            }
                            let ghost cur_before = cur@;
                            push_sound(&chart, &mut cur, input, start, i, newit);
                            proof {
                                assert forall|kk: int| 0 <= kk < next@.len() implies (
                                #[trigger] next@[kk]).wf() && next@[kk].start <= i + 1
                                    && scan_justified(cur@, input@, i as int + 1, next@[kk]) by {
                                    lemma_scan_justified_mono(
                                        cur_before,
                                        cur@,
                                        input@,
                                        i as int + 1,
                                        next@[kk],
                                    );
                                }
                                assert(cur@[j as int] == item);
                                lemma_progress_inv_mono(
                                    chart_view(chart@),
                                    cur_before,
                                    cur@,
                                    next@,
                                    next@,
                                    start,
                                    input@,
                                    j as int,
                                );
                                assert(newit == predicted_item(g2, x as int, i as int));
                                assert(cur@.contains(newit));
                            }
                            if alt_len == 0 {
                                let adv = item.incr();
                                proof {
                                    let full = chart_view(chart@).push(cur@);
                                    let c2 = append_last(full, adv);
                                    let kn = cur@.len() as int;
                                    assert(full.last() == cur@);
                                    assert(c2[i as int] == cur@.push(adv));
                                    assert(c2[i as int][kn] == adv);
                                    assert(c2[i as int][j as int] == item);
                                    let e = choose|e: int| 0 <= e < cur@.len() && cur@[e] == newit;
                                    assert(c2[i as int][e] == newit);
                                    assert(newit.is_complete());
                                    assert(completed_from(
                                        c2[i as int][e],
                                        c2[c2[i as int][e].start as int][j as int],
                                        adv,
                                    ));
                                    assert(justified_at(c2, start, input@, i as int, kn));
                                }
                                let ghost cur_before2 = cur@;
                                push_sound(&chart, &mut cur, input, start, i, adv);
                                proof {
                                    assert forall|kk: int| 0 <= kk < next@.len() implies (
                                    #[trigger] next@[kk]).wf() && next@[kk].start <= i + 1
                                        && scan_justified(cur@, input@, i as int + 1, next@[kk]) by {
                                        lemma_scan_justified_mono(
                                            cur_before2,
                                            cur@,
                                            input@,
                                            i as int + 1,
                                            next@[kk],
                                        );
                                    }
                                    assert(cur@[j as int] == item);
                                    lemma_progress_inv_mono(
                                        chart_view(chart@),
                                        cur_before2,
                                        cur@,
                                        next@,
                                        next@,
                                        start,
                                        input@,
                                        j as int,
                                    );
                                    assert(cur@.contains(adv));
                                    assert(adv == item.advanced());
                                    lemma_contains_prefix(cur_before2, cur@, newit);
                                }
                            }
                            proof {
                                assert forall|alt: int|
                                    0 <= alt < x as int + 1 implies cur@.contains(
                                    #[trigger] predicted_item(g2, alt, i as int),
                                ) by {
                                    if alt < x as int {
                                        lemma_contains_prefix(
                                            cur_before,
                                            cur@,
                                            predicted_item(g2, alt, i as int),
                                        );
                                    } else {
                                        assert(cur@.contains(newit));
                                    }
                                }
                                assert((exists|alt: int|
                                    0 <= alt < x as int + 1 && g2.spec_len(alt) == 0)
                                    ==> cur@.contains(item.advanced())) by {
                                    if exists|alt: int|
                                        0 <= alt < x as int + 1 && g2.spec_len(alt) == 0 {
                                        let alt = choose|alt: int|
                                            0 <= alt < x as int + 1 && g2.spec_len(alt) == 0;
                                        if alt < x as int {
                                            assert(cur_before.contains(item.advanced()));
                                            lemma_contains_prefix(
                                                cur_before,
                                                cur@,
                                                item.advanced(),
                                            );
                                        } else {
                                            assert(g2.spec_len(x as int) == 0);
                                        }
                                    }
                                }
                            }
                            x += 1;
                        }
                        proof {
                            let full = chart_view(chart@).push(cur@);
                            assert(full[i as int] == cur@);
                            assert(item_processed(full, next@, input@, i as int, item));
                        }
                    }
                }
            }
            j += 1;
            proof {
                assert(chart_view(chart@).push(cur@)[i as int] == cur@);
                assert(set_wf(cur@, i as int) && no_dups(cur@));
                lemma_set_len_bounded::<G>(cur@, i as int);
                assert forall|k2: int| 0 <= k2 < j as int implies item_processed(
                    chart_view(chart@).push(cur@),
                    next@,
                    input@,
                    i as int,
                    #[trigger] cur@[k2],
                ) by {
                    if k2 == j as int - 1 {
                        assert(cur@[k2] == item);
                    }
                }
                assert(progress_inv(chart_view(chart@), cur@, next@, start, input@, j as int));
            }
        }
        // Position `i` is saturated: its state set becomes final.
        let ghost chart_snap = chart@;
        let ghost cur_snap = cur@;
        chart.push(cur);
        proof {
            assert(chart_view(chart@) =~= chart_view(chart_snap).push(cur_snap));
        }
        if next.len() > 0 {
            let ghost next_snap = next@;
            i = i + 1;
            cur = next;
            proof {
                let fin_chart = chart_view(chart@);
                let full2 = fin_chart.push(cur@);
                assert(fin_chart.len() == i as int);
                assert forall|p: int| 0 <= p < full2.len() implies set_wf(#[trigger] full2[p], p)
                    && no_dups(full2[p]) by {
                    if p < i as int {
                        assert(full2[p] == fin_chart[p]);
                    } else {
                        assert(full2[p] == cur@);
                    }
                }
                assert forall|p: int, k: int|
                    0 <= p < full2.len() && 0 <= k < full2[p].len() implies justified_at(
                    full2,
                    start,
                    input@,
                    p,
                    k,
                ) by {
                    if p < i as int {
                        assert(full2[p] == fin_chart[p]);
                        lemma_justified_push_set(fin_chart, start, input@, cur@, p, k);
                    } else {
                        assert(full2[p] == cur@);
                        assert(scan_justified(cur_snap, input@, i as int, cur@[k]));
                        let k2 = choose|k2: int|
                            0 <= k2 < cur_snap.len() && scanned_from(
                                #[trigger] cur_snap[k2],
                                input@,
                                i as int,
                                cur@[k],
                            );
                        assert(full2[p - 1] == fin_chart[i as int - 1]);
                        assert(fin_chart[i as int - 1] == cur_snap);
                        assert(scanned_from(full2[p - 1][k2], input@, p, cur@[k]));
                    }
                }
                let c1 = chart_view(chart_snap).push(cur_snap);
                assert(fin_chart == c1);
                assert forall|q: int| 0 <= q < c1.len() implies full2[q] == c1[q] by {}
                assert(c1[0] == full2[0]);
                assert(seeded(full2, start));
                assert forall|p: int, k: int|
                    0 <= p < fin_chart.len() && 0 <= k < full2[p].len() implies item_closed(
                    full2,
                    input@,
                    p,
                    #[trigger] full2[p][k],
                ) by {
                    if p < i as int - 1 {
                        assert(full2[p][k] == c1[p][k]);
                        assert(item_closed(c1, input@, p, c1[p][k]));
                        assert(set_wf(c1[p], p));
                        lemma_closed_extend(c1, full2, input@, p, c1[p][k]);
                    } else {
                        assert(full2[p] == cur_snap);
                        let it = full2[p][k];
                        assert(item_processed(c1, next_snap, input@, p, it));
                        assert(set_wf(cur_snap, p));
                        if it.is_complete() {
                            if it.start < p {
                                assert(c1[it.start as int] == full2[it.start as int]);
                                assert(c1[p] == full2[p]);
                            }
                        } else {
                            match it.spec_next() {
                                RuleAtom::Grammar(_) => {
                                    assert(c1[p] == full2[p]);
                                },
                                RuleAtom::Terminal(t) => {
                                    if p < input@.len() && t.spec_test(input@[p]) {
                                        assert(next_snap.contains(it.advanced()));
                                        assert(full2[p + 1] == next_snap);
                                    }
                                },
                            }
                        }
                        assert(item_closed(full2, input@, p, it));
                    }
                }
                assert(progress_inv(
                    chart_view(chart@),
                    cur@,
                    Seq::<Item<G>>::empty(),
                    start,
                    input@,
                    0,
                ));
            }
        } else {
            proof {
                let c1 = chart_view(chart_snap).push(cur_snap);
                assert(chart_view(chart@) == c1);
                assert(seeded(chart_view(chart@), start));
                assert forall|p: int, k: int|
                    0 <= p < c1.len() && 0 <= k < c1[p].len() implies item_closed(
                    c1,
                    input@,
                    p,
                    #[trigger] c1[p][k],
                ) by {
                    if p == i as int {
                        let it = c1[p][k];
                        assert(c1[p] == cur_snap);
                        assert(item_processed(c1, next@, input@, p, it));
                        assert(next@.len() == 0);
                        if !it.is_complete() {
                            match it.spec_next() {
                                RuleAtom::Grammar(_) => {},
                                RuleAtom::Terminal(t) => {
                                    if p < input@.len() && t.spec_test(input@[p]) {
                                        assert(next@.contains(it.advanced()));
                                        assert(false);
                                    }
                                },
                            }
                        }
                        assert(item_closed(c1, input@, p, it));
                    }
                }
                assert(saturated(chart_view(chart@), input@));
            }
            break;
        }
    }
    if chart.len() > n {
        proof {
            assert(chart_view(chart@)[n as int] == chart@[n as int]@);
            assert(set_wf(chart_view(chart@)[n as int], n as int));
        }
        let r = contains_accepting(&chart[n], start);
        proof {
            if r {
                assert(recognized_by(chart_view(chart@), start, input@));
                lemma_recognized_derivable(chart_view(chart@), start, input@);
            } else {
                assert(refuted_by(chart_view(chart@), start, input@));
            }
        }
        r
    } else {
        proof {
            assert(chart_view(chart@).len() <= input@.len());
            assert(refuted_by(chart_view(chart@), start, input@));
        }
        false
    }
}

/// Searches a state set for an accepting item for `start`.
fn contains_accepting<G: Grammar>(set: &Vec<Item<G>>, start: G) -> (r: bool)
    requires
        forall|k: int| 0 <= k < set@.len() ==> (#[trigger] set@[k]).wf(),
    ensures
        r == exists|k: int| 0 <= k < set@.len() && accepting(#[trigger] set@[k], start),
{
    let n = set.len();
    let mut k: usize = 0;
    while k < n
        invariant
            n == set.len(),
            k <= n,
            forall|k2: int| 0 <= k2 < set@.len() ==> (#[trigger] set@[k2]).wf(),
            forall|k2: int| 0 <= k2 < k ==> !accepting(#[trigger] set@[k2], start),
        decreases n - k,
    {
        let it = set[k];
        if it.dot == it.rule.len() && it.start == 0 && it.rule.gram.eq_sym(&start) {
            return true;
        }
        k += 1;
    }
    false
}

} // verus!
