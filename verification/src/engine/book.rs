//! The model of one side of an order book: a multiset of resting orders,
//! served in a fixed priority order, and what sweeping it with an incoming
//! order takes from it.
use crate::engine::engine_bheap::EngineOfferBH;
use vstd::multiset::Multiset;
use vstd::prelude::*;

verus! {

broadcast use vstd::multiset::group_multiset_axioms;

/// `a` is served strictly before `b`: it is the greater in the
/// lexicographic order of price, key and amount, in which no price (a
/// market order) is below every price. So the higher signed price comes
/// first, market orders last; among equal prices the greater (newer) key
/// comes first, then the larger amount. Keys compare as their counters,
/// which is how their big-endian bytes compare.
pub open spec fn outranks(a: EngineOfferBH, b: EngineOfferBH) -> bool {
    if a.price != b.price {
        match a.price {
            None => false,
            Some(pa) => match b.price {
                None => true,
                Some(pb) => pa > pb,
            },
        }
    } else if a.key != b.key {
        a.key > b.key
    } else {
        a.amount > b.amount
    }
}

/// `a` is served no later than `b`.
pub open spec fn ranks_at_least(a: EngineOfferBH, b: EngineOfferBH) -> bool {
    a == b || outranks(a, b)
}

/// The priority order is a strict total order.
pub proof fn lemma_outranks_order(a: EngineOfferBH, b: EngineOfferBH, c: EngineOfferBH)
    ensures
        !outranks(a, a),
        outranks(a, b) ==> !outranks(b, a),
        a != b ==> outranks(a, b) || outranks(b, a),
        outranks(a, b) && outranks(b, c) ==> outranks(a, c),
{
}

/// `ranks_at_least` is transitive.
pub proof fn lemma_ranks_trans(a: EngineOfferBH, b: EngineOfferBH, c: EngineOfferBH)
    requires
        ranks_at_least(a, b),
        ranks_at_least(b, c),
    ensures
        ranks_at_least(a, c),
{
    lemma_outranks_order(a, b, c);
}

/// `x` is an order of `m` served no later than any other order of `m`.
pub open spec fn is_best(m: Multiset<EngineOfferBH>, x: EngineOfferBH) -> bool {
    &&& m.contains(x)
    &&& forall|y: EngineOfferBH| #[trigger] m.contains(y) ==> ranks_at_least(x, y)
}

/// The order of `m` that is served first.
pub open spec fn best(m: Multiset<EngineOfferBH>) -> EngineOfferBH {
    choose|x: EngineOfferBH| is_best(m, x)
}

/// Every non-empty book has exactly one order that is served first.
pub proof fn lemma_best(m: Multiset<EngineOfferBH>)
    requires
        m.len() > 0,
    ensures
        is_best(m, best(m)),
        forall|x: EngineOfferBH| is_best(m, x) ==> x == best(m),
    decreases m.len(),
{
    let c = m.choose();
    let rest = m.remove(c);
    if rest.len() == 0 {
        assert forall|y: EngineOfferBH| #[trigger] m.contains(y) implies ranks_at_least(c, y) by {
            if y != c {
                assert(rest.count(y) == m.count(y));
            }
        }
        assert(is_best(m, c));
    } else {
        lemma_best(rest);
        let b = best(rest);
        lemma_outranks_order(c, b, c);
        let w = if outranks(c, b) { c } else { b };
        assert forall|y: EngineOfferBH| #[trigger] m.contains(y) implies ranks_at_least(w, y) by {
            if y != c {
                assert(rest.count(y) == m.count(y));
                assert(rest.contains(y));
                assert(ranks_at_least(b, y));
                lemma_ranks_trans(w, b, y);
            } else {
                lemma_outranks_order(c, b, c);
            }
        }
        assert(is_best(m, w));
    }
    assert forall|x: EngineOfferBH| is_best(m, x) implies x == best(m) by {
        let b = best(m);
        assert(ranks_at_least(x, b));
        assert(ranks_at_least(b, x));
        lemma_outranks_order(x, b, x);
    }
}

/// `limit` is the signed price of an incoming order (`None` for a market
/// order). Matching stops at a priced resting order whose signed price lies
/// below it.
pub open spec fn stops_at(limit: Option<i64>, o: EngineOfferBH) -> bool {
    match (limit, o.price) {
        (Some(l), Some(p)) => l > p,
        _ => false,
    }
}

/// How a sweep of a book ends.
pub enum Fill {
    /// The book ran out, or its first order lies beyond the limit;
    /// `remaining` of the incoming amount is left over.
    Halted { remaining: u64 },
    /// The first order left, `top`, is larger than what is still wanted;
    /// `taken` is taken from it and it stays in the book.
    Partial { top: EngineOfferBH, taken: u64 },
    /// The last order taken had exactly the amount still wanted.
    Exact,
}

/// What a sweep takes from a book: the orders taken whole, in the order in
/// which they are taken, what is left of the book, and how it ended.
pub struct Sweep {
    pub filled: Seq<EngineOfferBH>,
    pub rest: Multiset<EngineOfferBH>,
    pub end: Fill,
}

/// Sweeping `book` for `wanted` units up to `limit`: orders are taken in
/// priority order while they are within the limit and no larger than what
/// is still wanted.
pub open spec fn sweep(book: Multiset<EngineOfferBH>, wanted: u64, limit: Option<i64>) -> Sweep
    decreases book.len(),
{
    if book.len() == 0 {
        Sweep { filled: Seq::empty(), rest: book, end: Fill::Halted { remaining: wanted } }
    } else {
        let o = best(book);
        if stops_at(limit, o) {
            Sweep { filled: Seq::empty(), rest: book, end: Fill::Halted { remaining: wanted } }
        } else if o.amount > wanted {
            Sweep { filled: Seq::empty(), rest: book, end: Fill::Partial { top: o, taken: wanted } }
        } else if o.amount == wanted {
            Sweep { filled: seq![o], rest: book.remove(o), end: Fill::Exact }
        } else {
            proof {
                lemma_best(book);
            }
            let s = sweep(book.remove(o), (wanted - o.amount) as u64, limit);
            Sweep { filled: seq![o] + s.filled, rest: s.rest, end: s.end }
        }
    }
}

/// The sum of the amounts of a sequence of orders.
pub open spec fn total(s: Seq<EngineOfferBH>) -> int
    decreases s.len(),
{
    if s.len() == 0 {
        0
    } else {
        s[0].amount + total(s.drop_first())
    }
}

/// The part of the incoming amount that a sweep did not take whole orders for.
pub open spec fn end_amount(f: Fill) -> int {
    match f {
        Fill::Halted { remaining } => remaining as int,
        Fill::Partial { taken, .. } => taken as int,
        Fill::Exact => 0,
    }
}

/// What every sweep satisfies, proved by induction over the book.
proof fn lemma_sweep_facts(book: Multiset<EngineOfferBH>, wanted: u64, limit: Option<i64>)
    ensures
        ({
            let s = sweep(book, wanted, limit);
            &&& total(s.filled) + end_amount(s.end) == wanted
            &&& s.rest.add(s.filled.to_multiset()) == book
            &&& forall|i: int|
                0 <= i < s.filled.len() ==> !stops_at(limit, #[trigger] s.filled[i]) && book.contains(
                    s.filled[i],
                )
            &&& forall|i: int, y: EngineOfferBH|
                0 <= i < s.filled.len() && #[trigger] s.rest.contains(y) ==> ranks_at_least(
                    #[trigger] s.filled[i],
                    y,
                )
            &&& forall|i: int, j: int|
                0 <= i < j < s.filled.len() ==> ranks_at_least(
                    #[trigger] s.filled[i],
                    #[trigger] s.filled[j],
                )
            &&& match s.end {
                Fill::Partial { top, taken } => {
                    &&& is_best(s.rest, top)
                    &&& top.amount > taken
                    &&& !stops_at(limit, top)
                },
                Fill::Halted { .. } => s.rest.len() == 0 || stops_at(limit, best(s.rest)),
                Fill::Exact => true,
            }
        }),
    decreases book.len(),
{
    broadcast use vstd::seq_lib::group_to_multiset_ensures;

    let s = sweep(book, wanted, limit);
    if book.len() == 0 {
        assert(s.rest.add(s.filled.to_multiset()) =~= book);
    } else {
        lemma_best(book);
        let o = best(book);
        if stops_at(limit, o) {
            assert(s.rest.add(s.filled.to_multiset()) =~= book);
        } else if o.amount > wanted {
            assert(s.rest.add(s.filled.to_multiset()) =~= book);
        } else if o.amount == wanted {
            assert(s.filled =~= Seq::<EngineOfferBH>::empty().push(o));
            assert(s.rest.add(s.filled.to_multiset()) =~= book);
            assert(total(s.filled.drop_first()) == 0);
            assert forall|i: int, y: EngineOfferBH|
                0 <= i < s.filled.len() && #[trigger] s.rest.contains(y) implies ranks_at_least(
                #[trigger] s.filled[i],
                y,
            ) by {
                assert(book.contains(y));
            }
        } else {
            let rem = (wanted - o.amount) as u64;
            let inner = book.remove(o);
            lemma_sweep_facts(inner, rem, limit);
            let t = sweep(inner, rem, limit);
            assert(s.filled == seq![o] + t.filled);
            assert(s.filled.drop_first() =~= t.filled);
            assert(s.filled =~= t.filled.insert(0, o));
            assert(s.filled.to_multiset() == t.filled.to_multiset().insert(o));
            assert(t.rest.add(t.filled.to_multiset()) == inner);
            assert(s.rest.add(s.filled.to_multiset()) =~= inner.insert(o));
            assert(inner.insert(o) =~= book);
            assert forall|i: int|
                0 <= i < s.filled.len() implies !stops_at(limit, #[trigger] s.filled[i])
                && book.contains(s.filled[i]) by {
                if i > 0 {
                    assert(s.filled[i] == t.filled[i - 1]);
                    assert(inner.contains(t.filled[i - 1]));
                }
            }
            assert forall|i: int, y: EngineOfferBH|
                0 <= i < s.filled.len() && #[trigger] s.rest.contains(y) implies ranks_at_least(
                #[trigger] s.filled[i],
                y,
            ) by {
                assert(t.rest.add(t.filled.to_multiset()).count(y) == inner.count(y));
                assert(inner.contains(y));
                assert(book.contains(y));
                if i > 0 {
                    assert(s.filled[i] == t.filled[i - 1]);
                }
            }
            assert forall|i: int, j: int| 0 <= i < j < s.filled.len() implies ranks_at_least(
                #[trigger] s.filled[i],
                #[trigger] s.filled[j],
            ) by {
                assert(s.filled[j] == t.filled[j - 1]);
                assert(inner.contains(t.filled[j - 1]));
                assert(book.contains(s.filled[j]));
                if i > 0 {
                    assert(s.filled[i] == t.filled[i - 1]);
                }
            }
        }
    }
}

/// Sweeping conserves quantity: the amounts of the orders taken whole, plus
/// what is taken from a partly filled order or what is left over, make up
/// exactly the amount wanted.
pub proof fn law_sweep_conserves_amount(book: Multiset<EngineOfferBH>, wanted: u64, limit: Option<i64>)
    ensures
        total(sweep(book, wanted, limit).filled) + end_amount(sweep(book, wanted, limit).end)
            == wanted,
{
    lemma_sweep_facts(book, wanted, limit);
}

/// Sweeping only moves orders out of the book: what is left and what was
/// taken whole together are the book.
pub proof fn law_sweep_takes_from_book(book: Multiset<EngineOfferBH>, wanted: u64, limit: Option<i64>)
    ensures
        sweep(book, wanted, limit).rest.add(sweep(book, wanted, limit).filled.to_multiset()) == book,
        sweep(book, wanted, limit).rest.len() + sweep(book, wanted, limit).filled.len()
            == book.len(),
{
    broadcast use vstd::seq_lib::group_to_multiset_ensures;

    lemma_sweep_facts(book, wanted, limit);
}

/// Priority: orders are taken in priority order, and every order
/// taken is served no later than any order left in the book.
pub proof fn law_sweep_priority(
    book: Multiset<EngineOfferBH>,
    wanted: u64,
    limit: Option<i64>,
    i: int,
    j: int,
    y: EngineOfferBH,
)
    requires
        0 <= i < j < sweep(book, wanted, limit).filled.len(),
    ensures
        ranks_at_least(sweep(book, wanted, limit).filled[i], sweep(book, wanted, limit).filled[j]),
        sweep(book, wanted, limit).rest.contains(y) ==> ranks_at_least(
            sweep(book, wanted, limit).filled[i],
            y,
        ),
{
    lemma_sweep_facts(book, wanted, limit);
}

/// Price protection: no order beyond the limit is taken, and a partly
/// filled order is within it too.
pub proof fn law_sweep_within_limit(
    book: Multiset<EngineOfferBH>,
    wanted: u64,
    limit: Option<i64>,
    i: int,
)
    requires
        0 <= i < sweep(book, wanted, limit).filled.len(),
    ensures
        !stops_at(limit, sweep(book, wanted, limit).filled[i]),
        sweep(book, wanted, limit).end matches Fill::Partial { top, .. } ==> !stops_at(limit, top),
{
    lemma_sweep_facts(book, wanted, limit);
}

/// A sweep stops early only for a reason: a partly filled order is the
/// first one left and is larger than what was still wanted; an order left
/// over means the book ran out or its first order lies beyond the limit.
pub proof fn law_sweep_stops_for_a_reason(book: Multiset<EngineOfferBH>, wanted: u64, limit: Option<i64>)
    ensures
        match sweep(book, wanted, limit).end {
            Fill::Partial { top, taken } => is_best(sweep(book, wanted, limit).rest, top)
                && top.amount > taken,
            Fill::Halted { .. } => sweep(book, wanted, limit).rest.len() == 0 || stops_at(
                limit,
                best(sweep(book, wanted, limit).rest),
            ),
            Fill::Exact => true,
        },
{
    lemma_sweep_facts(book, wanted, limit);
}

/// A market order never rests while the opposite side has orders: if any
/// of it is left over, the opposite side was swept empty.
pub proof fn law_market_sweeps_book(book: Multiset<EngineOfferBH>, wanted: u64)
    ensures
        sweep(book, wanted, None).end is Halted ==> sweep(book, wanted, None).rest.len() == 0,
{
    lemma_sweep_facts(book, wanted, None);
}

/// The sum of the amounts of the orders of a book.
pub open spec fn book_total(m: Multiset<EngineOfferBH>) -> int
    decreases m.len(),
{
    if m.len() == 0 {
        0
    } else {
        let x = m.choose();
        proof {
            assert(m.contains(x));
        }
        x.amount + book_total(m.remove(x))
    }
}

/// Taking an order out of a book takes its amount out of the book's total.
pub proof fn lemma_book_total_remove(m: Multiset<EngineOfferBH>, x: EngineOfferBH)
    requires
        m.contains(x),
    ensures
        book_total(m) == x.amount + book_total(m.remove(x)),
    decreases m.len(),
{
    let c = m.choose();
    assert(m.contains(c));
    if c != x {
        let mc = m.remove(c);
        let mx = m.remove(x);
        assert(mc.contains(x));
        assert(mx.contains(c));
        lemma_book_total_remove(mc, x);
        lemma_book_total_remove(mx, c);
        assert(mc.remove(x) =~= mx.remove(c));
    }
}

/// Adding an order to a book adds its amount to the book's total.
pub proof fn lemma_book_total_insert(m: Multiset<EngineOfferBH>, x: EngineOfferBH)
    ensures
        book_total(m.insert(x)) == book_total(m) + x.amount,
{
    lemma_book_total_remove(m.insert(x), x);
    assert(m.insert(x).remove(x) =~= m);
}

/// A sweep splits the book's total into what is left and what was taken
/// whole.
proof fn lemma_sweep_totals(book: Multiset<EngineOfferBH>, wanted: u64, limit: Option<i64>)
    ensures
        book_total(book) == book_total(sweep(book, wanted, limit).rest) + total(
            sweep(book, wanted, limit).filled,
        ),
    decreases book.len(),
{
    let s = sweep(book, wanted, limit);
    if book.len() > 0 {
        lemma_best(book);
        let o = best(book);
        if !stops_at(limit, o) && o.amount <= wanted {
            lemma_book_total_remove(book, o);
            if o.amount == wanted {
                assert(s.filled.drop_first() =~= Seq::<EngineOfferBH>::empty());
                assert(total(Seq::<EngineOfferBH>::empty()) == 0);
            } else {
                let rem = (wanted - o.amount) as u64;
                lemma_sweep_totals(book.remove(o), rem, limit);
                let t = sweep(book.remove(o), rem, limit);
                assert(s.filled.drop_first() =~= t.filled);
            }
        } else {
            assert(s.filled.len() == 0);
        }
    } else {
        assert(s.filled.len() == 0);
    }
}

/// Sweeping takes from the book exactly the amounts of the orders taken
/// whole.
pub proof fn law_sweep_takes_amounts(book: Multiset<EngineOfferBH>, wanted: u64, limit: Option<i64>)
    ensures
        book_total(book) == book_total(sweep(book, wanted, limit).rest) + total(
            sweep(book, wanted, limit).filled,
        ),
{
    lemma_sweep_totals(book, wanted, limit);
}

/// A sum of amounts is never negative.
pub proof fn lemma_total_nonneg(s: Seq<EngineOfferBH>)
    ensures
        total(s) >= 0,
    decreases s.len(),
{
    if s.len() > 0 {
        lemma_total_nonneg(s.drop_first());
    }
}

/// The priority order is the lexicographic order of price, key and amount,
/// greatest first, with no price (a market order) below every price: a
/// priced order outranks a market order; of two prices the higher comes
/// first; at the same price (or both at market) the greater key comes
/// first; at the same price and key the larger amount comes first.
pub proof fn law_outranks_is_lexicographic(a: EngineOfferBH, b: EngineOfferBH)
    ensures
        a.price is Some && b.price is None ==> outranks(a, b),
        a.price is None && b.price is Some ==> !outranks(a, b),
        (a.price matches Some(x) && b.price matches Some(y) && x > y) ==> outranks(a, b),
        (a.price matches Some(x) && b.price matches Some(y) && x < y) ==> !outranks(a, b),
        a.price == b.price && a.key > b.key ==> outranks(a, b),
        a.price == b.price && a.key < b.key ==> !outranks(a, b),
        a.price == b.price && a.key == b.key && a.amount > b.amount ==> outranks(a, b),
        a.price == b.price && a.key == b.key && a.amount <= b.amount ==> !outranks(a, b),
{
}

} // verus!
