use vstd::multiset::Multiset;
use vstd::prelude::*;

use crate::card::{value_rank, Card};
use crate::war::{
    stake_trace,
    only_holder,
    after_award, battle_round, position_of, stake,
    battle_to_spoils, best_rank, players_with_rank, lemma_best_rank_is_highest,
    battle_faces,
    after_deal, after_find, after_play, after_restore, after_spoils, dealt, played, restore_step,
    restore_through, spoils_step, spoils_through, without_top, winners_of_battle,
    TableView,
};

verus! {

/// Position `j` of `b` holds a card whose value is the highest in `b`.
pub open spec fn holds_highest(b: Seq<(usize, Card)>, j: int) -> bool {
    forall|i: int| 0 <= i < b.len() ==> value_rank(#[trigger] b[i].1.value) <= value_rank(b[j].1.value)
}

/// The positions among the first `k` of `b` whose value has rank `r`, in order.
pub open spec fn positions_with_rank(b: Seq<(usize, Card)>, k: nat, r: int) -> Seq<int>
    decreases k,
{
    if k == 0 {
        Seq::empty()
    } else if value_rank(b[k - 1].1.value) == r {
        positions_with_rank(b, (k - 1) as nat, r).push(k - 1)
    } else {
        positions_with_rank(b, (k - 1) as nat, r)
    }
}

proof fn lemma_positions_with_rank(b: Seq<(usize, Card)>, k: nat, r: int)
    requires
        k <= b.len(),
    ensures
        ({
            let ps = positions_with_rank(b, k, r);
            &&& ps.len() == players_with_rank(b, k, r).len()
            &&& forall|a: int|
                0 <= a < ps.len() ==> 0 <= #[trigger] ps[a] < k && players_with_rank(b, k, r)[a]
                    == b[ps[a]].0
            &&& forall|a: int, c: int| 0 <= a < c < ps.len() ==> #[trigger] ps[a] < #[trigger] ps[c]
            &&& forall|j: int|
                0 <= j < k ==> (ps.contains(j) <==> value_rank(#[trigger] b[j].1.value) == r)
        }),
    decreases k,
{
    if k > 0 {
        lemma_positions_with_rank(b, (k - 1) as nat, r);
        let ps0 = positions_with_rank(b, (k - 1) as nat, r);
        let ps = positions_with_rank(b, k, r);
        assert forall|j: int| 0 <= j < k implies (ps.contains(j) <==> value_rank(
            #[trigger] b[j].1.value,
        ) == r) by {
            if j < k - 1 {
                if ps0.contains(j) {
                    let a = choose|a: int| 0 <= a < ps0.len() && ps0[a] == j;
                    assert(ps[a] == j);
                }
                if ps.contains(j) {
                    let a = choose|a: int| 0 <= a < ps.len() && ps[a] == j;
                    if a < ps0.len() {
                        assert(ps0[a] == j);
                    }
                }
            } else {
                if value_rank(b[j].1.value) == r {
                    assert(ps[ps.len() - 1] == j);
                }
                if ps.contains(j) {
                    let a = choose|a: int| 0 <= a < ps.len() && ps[a] == j;
                    if a < ps0.len() {
                        assert(ps0[a] < k - 1);
                    }
                }
            }
        }
    }
}

/// Highest card wins: the winners of a face-off are the players of exactly
/// those battle cards whose value is the highest, in the order of the
/// battle cards; there is at least one where any card was played.
pub proof fn lemma_winners_are_highest(b: Seq<(usize, Card)>)
    ensures
        ({
            let w = winners_of_battle(b);
            let ps = positions_with_rank(b, b.len(), best_rank(b, b.len()));
            &&& (b.len() > 0 <==> w.len() > 0)
            &&& ps.len() == w.len()
            &&& forall|a: int| 0 <= a < ps.len() ==> 0 <= #[trigger] ps[a] < b.len() && w[a] == b[ps[a]].0
            &&& forall|a: int, c: int| 0 <= a < c < ps.len() ==> #[trigger] ps[a] < #[trigger] ps[c]
            &&& forall|j: int| 0 <= j < b.len() ==> (ps.contains(j) <==> #[trigger] holds_highest(b, j))
        }),
{
    let n = b.len();
    let r = best_rank(b, n);
    lemma_best_rank_is_highest(b, n);
    lemma_positions_with_rank(b, n, r);
    let ps = positions_with_rank(b, n, r);
    assert forall|j: int| 0 <= j < n implies (ps.contains(j) <==> #[trigger] holds_highest(b, j)) by {
        if holds_highest(b, j) {
            let i = choose|i: int| 0 <= i < n && value_rank(#[trigger] b[i].1.value) == r;
            assert(value_rank(b[i].1.value) <= value_rank(b[j].1.value));
        }
    }
    if n > 0 {
        let i = choose|i: int| 0 <= i < n && value_rank(#[trigger] b[i].1.value) == r;
        assert(ps.contains(i));
    }
}

proof fn lemma_best_rank_ignores_suits(b1: Seq<(usize, Card)>, b2: Seq<(usize, Card)>, k: nat)
    requires
        k <= b1.len(),
        b1.len() == b2.len(),
        forall|i: int| 0 <= i < b1.len() ==> (#[trigger] b1[i]).1.value == b2[i].1.value,
    ensures
        best_rank(b1, k) == best_rank(b2, k),
    decreases k,
{
    if k > 0 {
        lemma_best_rank_ignores_suits(b1, b2, (k - 1) as nat);
        assert(b1[k - 1].1.value == b2[k - 1].1.value);
    }
}

proof fn lemma_players_with_rank_ignores_suits(
    b1: Seq<(usize, Card)>,
    b2: Seq<(usize, Card)>,
    k: nat,
    r: int,
)
    requires
        k <= b1.len(),
        b1.len() == b2.len(),
        forall|i: int|
            0 <= i < b1.len() ==> (#[trigger] b1[i]).0 == b2[i].0 && b1[i].1.value == b2[i].1.value,
    ensures
        players_with_rank(b1, k, r) == players_with_rank(b2, k, r),
    decreases k,
{
    if k > 0 {
        lemma_players_with_rank_ignores_suits(b1, b2, (k - 1) as nat, r);
        assert(b1[k - 1].0 == b2[k - 1].0 && b1[k - 1].1.value == b2[k - 1].1.value);
    }
}

/// A card's suit never affects who wins: two face-offs with the same
/// players and the same values, in the same order, have the same winners.
pub proof fn lemma_winners_ignore_suits(b1: Seq<(usize, Card)>, b2: Seq<(usize, Card)>)
    requires
        b1.len() == b2.len(),
        forall|i: int|
            0 <= i < b1.len() ==> (#[trigger] b1[i]).0 == b2[i].0 && b1[i].1.value == b2[i].1.value,
    ensures
        winners_of_battle(b1) == winners_of_battle(b2),
{
    lemma_best_rank_ignores_suits(b1, b2, b1.len());
    lemma_players_with_rank_ignores_suits(b1, b2, b1.len(), best_rank(b1, b1.len()));
}

/// The cards played by the first `k` players: one per player with cards,
/// its top card, in increasing order of players.
proof fn lemma_played_entries(players: Seq<Seq<Card>>, k: nat)
    requires
        k <= players.len(),
        players.len() <= usize::MAX,
    ensures
        ({
            let b = played(players, k);
            &&& forall|a: int|
                0 <= a < b.len() ==> (#[trigger] b[a]).0 < k && players[b[a].0 as int].len() > 0
                    && b[a].1 == players[b[a].0 as int].last()
            &&& forall|a: int, c: int| 0 <= a < c < b.len() ==> (#[trigger] b[a]).0 < (#[trigger] b[c]).0
            &&& forall|i: int|
                0 <= i < k && #[trigger] players[i].len() > 0 ==> exists|a: int|
                    0 <= a < b.len() && (#[trigger] b[a]).0 == i
        }),
    decreases k,
{
    if k > 0 {
        lemma_played_entries(players, (k - 1) as nat);
        let b0 = played(players, (k - 1) as nat);
        let b = played(players, k);
        assert forall|i: int| 0 <= i < k && #[trigger] players[i].len() > 0 implies exists|a: int|
            0 <= a < b.len() && (#[trigger] b[a]).0 == i by {
            if i < k - 1 {
                let a = choose|a: int| 0 <= a < b0.len() && (#[trigger] b0[a]).0 == i;
                assert(b[a] == b0[a]);
            } else {
                assert(b[b.len() - 1].0 == i);
            }
        }
    }
}

/// Player `j` has cards and its top card has the highest value among the
/// top cards of the players with cards.
pub open spec fn top_is_highest(players: Seq<Seq<Card>>, j: int) -> bool {
    &&& players[j].len() > 0
    &&& forall|i: int|
        0 <= i < players.len() && players[i].len() > 0 ==> value_rank(
            #[trigger] players[i].last().value,
        ) <= value_rank(players[j].last().value)
}

/// Highest card wins, at the table: in a face-off that starts with no
/// battle cards (as every face-off does once the previous one was decided
/// or went to war), the winners are exactly the players with cards whose
/// top card has the highest value, in player order; there is at least one
/// where any player has cards.
pub proof fn lemma_face_off_highest_wins(v: TableView)
    requires
        v.battle.len() == 0,
        v.players.len() <= usize::MAX,
    ensures
        ({
            let w = after_find(after_play(v)).winners;
            &&& ((exists|i: int| 0 <= i < v.players.len() && #[trigger] v.players[i].len() > 0)
                ==> w.len() > 0)
            &&& forall|a: int, c: int| 0 <= a < c < w.len() ==> #[trigger] w[a] < #[trigger] w[c]
            &&& forall|a: int| 0 <= a < w.len() ==> #[trigger] w[a] < v.players.len()
            &&& forall|j: int|
                0 <= j < v.players.len() ==> (w.contains(j as usize) <==> #[trigger] top_is_highest(
                    v.players,
                    j,
                ))
        }),
{
    let n = v.players.len();
    let b = after_play(v).battle;
    lemma_played_entries(v.players, n);
    assert(b =~= played(v.players, n));
    lemma_winners_are_highest(b);
    let w = winners_of_battle(b);
    let ps = positions_with_rank(b, b.len(), best_rank(b, b.len()));
    assert(after_find(after_play(v)).winners == w);
    if exists|i: int| 0 <= i < n && #[trigger] v.players[i].len() > 0 {
        let i = choose|i: int| 0 <= i < n && #[trigger] v.players[i].len() > 0;
        let a = choose|a: int| 0 <= a < b.len() && (#[trigger] b[a]).0 == i;
        assert(b.len() > 0);
    }
    assert forall|a: int, c: int| 0 <= a < c < w.len() implies #[trigger] w[a] < #[trigger] w[c] by {
        assert(ps[a] < ps[c]);
    }
    assert forall|a: int| 0 <= a < w.len() implies #[trigger] w[a] < n by {
        assert(w[a] == b[ps[a]].0);
    }
    assert forall|j: int| 0 <= j < n implies (w.contains(j as usize) <==> #[trigger] top_is_highest(
        v.players,
        j,
    )) by {
        if w.contains(j as usize) {
            let a = choose|a: int| 0 <= a < w.len() && w[a] == j as usize;
            let p = ps[a];
            assert(ps.contains(p));
            assert(holds_highest(b, p));
            assert forall|i: int|
                0 <= i < n && v.players[i].len() > 0 implies value_rank(
                #[trigger] v.players[i].last().value,
            ) <= value_rank(v.players[j].last().value) by {
                let e = choose|e: int| 0 <= e < b.len() && (#[trigger] b[e]).0 == i;
                assert(value_rank(b[e].1.value) <= value_rank(b[p].1.value));
            }
        }
        if top_is_highest(v.players, j) {
            let p = choose|e: int| 0 <= e < b.len() && (#[trigger] b[e]).0 == j;
            assert forall|i: int| 0 <= i < b.len() implies value_rank(#[trigger] b[i].1.value)
                <= value_rank(b[p].1.value) by {
                let pl = b[i].0 as int;
                assert(v.players[pl].len() > 0);
            }
            assert(holds_highest(b, p));
            assert(ps.contains(p));
            let a = choose|a: int| 0 <= a < ps.len() && ps[a] == p;
            assert(w[a] == j as usize);
        }
    }
}

/// Before a war, a winner with an empty deck takes its battle card back:
/// wherever that succeeds, every winner then holds at least one card.
pub proof fn lemma_restore_gives_last_card(v: TableView)
    requires
        after_restore(v) is Some,
    ensures
        forall|a: int|
            0 <= a < v.winners.len() ==> #[trigger] after_restore(v).unwrap().players[v.winners[a] as int].len()
                >= 1,
        after_restore(v).unwrap().players.len() == v.players.len(),
        after_restore(v).unwrap().winners == v.winners,
{
    lemma_restore_through_holds(v, v.winners.len());
}

proof fn lemma_restore_through_holds(v: TableView, k: nat)
    requires
        k <= v.winners.len(),
        restore_through(v, k) is Some,
    ensures
        forall|a: int|
            0 <= a < k ==> #[trigger] restore_through(v, k).unwrap().players[v.winners[a] as int].len()
                >= 1,
        forall|a: int|
            0 <= a < k ==> #[trigger] v.winners[a] < v.players.len(),
        restore_through(v, k).unwrap().players.len() == v.players.len(),
        restore_through(v, k).unwrap().winners == v.winners,
    decreases k,
{
    if k > 0 {
        let prev = restore_through(v, (k - 1) as nat);
        if prev is None {
            assert(restore_through(v, k) is None);
        }
        lemma_restore_through_holds(v, (k - 1) as nat);
        let u = prev.unwrap();
        let w = v.winners[k - 1];
        let u2 = restore_step(u, w).unwrap();
        assert forall|a: int| 0 <= a < k implies #[trigger] u2.players[v.winners[a] as int].len()
            >= 1 by {
            if a < k - 1 {
                assert(u.players[v.winners[a] as int].len() >= 1);
            }
        }
    }
}

/// Collecting the stakes of a war leaves every winner at least one card:
/// a winner with fewer than four cards keeps exactly one, one with more
/// keeps all but three.
pub proof fn lemma_war_leaves_last_card(v: TableView)
    requires
        after_spoils(v) is Some,
    ensures
        forall|a: int|
            0 <= a < v.winners.len() ==> #[trigger] after_spoils(v).unwrap().players[v.winners[a] as int].len()
                >= 1,
{
    lemma_spoils_through_holds(battle_to_spoils(v), v.winners.len());
}

proof fn lemma_spoils_through_holds(v: TableView, k: nat)
    requires
        k <= v.winners.len(),
        spoils_through(v, k) is Some,
    ensures
        forall|a: int|
            0 <= a < k ==> #[trigger] spoils_through(v, k).unwrap().players[v.winners[a] as int].len()
                >= 1,
        forall|a: int| 0 <= a < k ==> #[trigger] v.winners[a] < v.players.len(),
        spoils_through(v, k).unwrap().players.len() == v.players.len(),
    decreases k,
{
    if k > 0 {
        let prev = spoils_through(v, (k - 1) as nat);
        if prev is None {
            assert(spoils_through(v, k) is None);
        }
        lemma_spoils_through_holds(v, (k - 1) as nat);
        let u = prev.unwrap();
        let w = v.winners[k - 1];
        let u2 = spoils_step(u, w).unwrap();
        assert forall|a: int| 0 <= a < k implies #[trigger] u2.players[v.winners[a] as int].len()
            >= 1 by {
            if v.winners[a] != w {
                assert(u.players[v.winners[a] as int].len() >= 1);
            }
        }
    }
}

/// Dealing round the players: player `p` of `n` receives
/// `ceil((k - p) / n)` of the first `k` cards, so no two players' shares
/// differ by more than one card.
pub proof fn lemma_dealt_size(d: Seq<Card>, n: nat, p: int, k: nat)
    requires
        n > 0,
        0 <= p < n,
        k <= d.len(),
    ensures
        dealt(d, n, p, k).len() == (k + n - 1 - p) / (n as int),
    decreases k,
{
    if k == 0 {
        vstd::arithmetic::div_mod::lemma_fundamental_div_mod_converse(
            n - 1 - p,
            n as int,
            0,
            n - 1 - p,
        );
    } else {
        lemma_dealt_size(d, n, p, (k - 1) as nat);
        let m = k - 1;
        let ni = n as int;
        vstd::arithmetic::div_mod::lemma_fundamental_div_mod(m, ni);
        let q = m / ni;
        let r = m % ni;
        assert(m == q * ni + r) by (nonlinear_arith)
            requires
                m == ni * q + r,
        ;
        assert((q + 1) * ni == q * ni + ni) by (nonlinear_arith);
        if r == p {
            vstd::arithmetic::div_mod::lemma_fundamental_div_mod_converse(
                m + ni - 1 - p,
                ni,
                q,
                ni - 1,
            );
            vstd::arithmetic::div_mod::lemma_fundamental_div_mod_converse(m + ni - p, ni, q + 1, 0);
        } else if r > p {
            vstd::arithmetic::div_mod::lemma_fundamental_div_mod_converse(
                m + ni - 1 - p,
                ni,
                q + 1,
                r - p - 1,
            );
            vstd::arithmetic::div_mod::lemma_fundamental_div_mod_converse(
                m + ni - p,
                ni,
                q + 1,
                r - p,
            );
        } else {
            vstd::arithmetic::div_mod::lemma_fundamental_div_mod_converse(
                m + ni - 1 - p,
                ni,
                q,
                ni + r - p - 1,
            );
            vstd::arithmetic::div_mod::lemma_fundamental_div_mod_converse(
                m + ni - p,
                ni,
                q,
                ni + r - p,
            );
        }
    }
}

/// After a deal, every player's share of the dealer's deck is as large as
/// any other's or one card apart, and the dealer's deck is empty.
pub proof fn lemma_deal_is_even(v: TableView, p: int, p2: int)
    requires
        v.players.len() > 0,
        0 <= p < p2 < v.players.len(),
    ensures
        after_deal(v).dealer.len() == 0,
        ({
            let share = dealt(v.dealer, v.players.len(), p, v.dealer.len()).len();
            let share2 = dealt(v.dealer, v.players.len(), p2, v.dealer.len()).len();
            share2 <= share <= share2 + 1
        }),
{
    let n = v.players.len() as int;
    let k = v.dealer.len() as int;
    lemma_dealt_size(v.dealer, v.players.len(), p, v.dealer.len());
    lemma_dealt_size(v.dealer, v.players.len(), p2, v.dealer.len());
    assert((k + n - 1 - p2) / n <= (k + n - 1 - p) / n) by {
        vstd::arithmetic::div_mod::lemma_div_is_ordered(k + n - 1 - p2, k + n - 1 - p, n);
    }
    assert((k + n - 1 - p) / n <= (k + n - 1 - p2) / n + 1) by {
        vstd::arithmetic::div_mod::lemma_div_is_ordered(k + n - 1 - p, k + n - 1 - p2 + n, n);
        vstd::arithmetic::div_mod::lemma_div_plus_one(k + n - 1 - p2, n);
    }
}

/// All the cards in a list of decks, each as often as it occurs.
pub open spec fn cards_in(hs: Seq<Seq<Card>>) -> Multiset<Card>
    decreases hs.len(),
{
    if hs.len() == 0 {
        Multiset::empty()
    } else {
        cards_in(hs.drop_last()).add(hs.last().to_multiset())
    }
}

/// Replacing one deck changes the cards in all decks by the two decks' cards.
proof fn lemma_cards_in_update(hs: Seq<Seq<Card>>, p: int, s2: Seq<Card>)
    requires
        0 <= p < hs.len(),
    ensures
        cards_in(hs.update(p, s2)).add(hs[p].to_multiset()) =~= cards_in(hs).add(s2.to_multiset()),
    decreases hs.len(),
{
    broadcast use vstd::multiset::group_multiset_axioms;

    let h2 = hs.update(p, s2);
    let a = cards_in(h2.drop_last());
    let b = cards_in(hs.drop_last());
    assert(cards_in(h2) == a.add(h2.last().to_multiset()));
    assert(cards_in(hs) == b.add(hs.last().to_multiset()));
    if p == hs.len() - 1 {
        assert(h2.drop_last() =~= hs.drop_last());
        assert(h2.last() == s2);
    } else {
        assert(h2.drop_last() =~= hs.drop_last().update(p, s2));
        lemma_cards_in_update(hs.drop_last(), p, s2);
        assert(h2.last() == hs.last());
        assert(hs.drop_last()[p] == hs[p]);
        assert forall|x: Card|
            #[trigger] a.count(x) + hs[p].to_multiset().count(x) == b.count(x)
                + s2.to_multiset().count(x) by {
            assert(a.add(hs[p].to_multiset()).count(x) == b.add(s2.to_multiset()).count(x));
        }
    }
}

/// The decks after `k` rounds of dealing `d` round `players`.
pub open spec fn hands_after_dealing(players: Seq<Seq<Card>>, d: Seq<Card>, k: nat) -> Seq<
    Seq<Card>,
> {
    Seq::new(players.len(), |p: int| players[p] + dealt(d, players.len(), p, k))
}

proof fn lemma_dealing_keeps_cards(players: Seq<Seq<Card>>, d: Seq<Card>, k: nat)
    requires
        players.len() > 0,
        k <= d.len(),
    ensures
        cards_in(hands_after_dealing(players, d, k)).add(d.take(d.len() - k).to_multiset())
            =~= cards_in(players).add(d.to_multiset()),
    decreases k,
{
    broadcast use vstd::multiset::group_multiset_axioms;
    broadcast use vstd::seq_lib::group_to_multiset_ensures;

    let n = players.len();
    if k == 0 {
        assert(hands_after_dealing(players, d, 0) =~~= players);
        assert(d.take(d.len() as int) =~= d);
    } else {
        lemma_dealing_keeps_cards(players, d, (k - 1) as nat);
        let hs = hands_after_dealing(players, d, (k - 1) as nat);
        let q = (k - 1) % (n as int);
        let x = d[d.len() - k];
        assert(hands_after_dealing(players, d, k) =~~= hs.update(q, hs[q].push(x)));
        let h2 = hands_after_dealing(players, d, k);
        lemma_cards_in_update(hs, q, hs[q].push(x));
        assert(d.take(d.len() - (k - 1)) =~= d.take(d.len() - k).push(x));
        assert(hs[q].push(x).to_multiset() =~= hs[q].to_multiset().insert(x));
        assert(d.take(d.len() - (k - 1)).to_multiset() =~= d.take(d.len() - k).to_multiset().insert(
            x,
        ));
        assert(cards_in(h2) == cards_in(hs.update(q, hs[q].push(x))));
        assert forall|y: Card|
            #[trigger] cards_in(h2).count(y) + hs[q].to_multiset().count(y) == cards_in(hs).count(y)
                + hs[q].push(x).to_multiset().count(y) by {
            assert(cards_in(h2).add(hs[q].to_multiset()).count(y) == cards_in(hs).add(
                hs[q].push(x).to_multiset(),
            ).count(y));
        }
    }
}

/// Dealing keeps every card: the players end with the cards they had and
/// the dealer's deck, each card as often as before.
pub proof fn lemma_deal_keeps_cards(v: TableView)
    requires
        v.players.len() > 0,
    ensures
        cards_in(after_deal(v).players) == cards_in(v.players).add(v.dealer.to_multiset()),
{
    broadcast use vstd::multiset::group_multiset_axioms;

    broadcast use vstd::seq_lib::group_to_multiset_ensures;

    lemma_dealing_keeps_cards(v.players, v.dealer, v.dealer.len());
    assert(after_deal(v).players =~~= hands_after_dealing(v.players, v.dealer, v.dealer.len()));
    assert(v.dealer.take(0) =~= Seq::<Card>::empty());
    assert(v.dealer.take(0).to_multiset() =~= Multiset::empty());
}

proof fn lemma_playing_keeps_cards(players: Seq<Seq<Card>>, k: nat)
    requires
        k <= players.len(),
    ensures
        cards_in(Seq::new(k, |i: int| without_top(players[i]))).add(
            battle_faces(played(players, k)).to_multiset(),
        ) =~= cards_in(players.take(k as int)),
    decreases k,
{
    broadcast use vstd::multiset::group_multiset_axioms;
    broadcast use vstd::seq_lib::group_to_multiset_ensures;

    if k == 0 {
        assert(battle_faces(played(players, 0)) =~= Seq::<Card>::empty());
    } else {
        lemma_playing_keeps_cards(players, (k - 1) as nat);
        let d = players[k - 1];
        assert(Seq::new(k, |i: int| without_top(players[i])).drop_last() =~= Seq::new(
            (k - 1) as nat,
            |i: int| without_top(players[i]),
        ));
        assert(players.take(k as int).drop_last() =~= players.take(k - 1));
        if d.len() > 0 {
            assert(battle_faces(played(players, k)) =~= battle_faces(
                played(players, (k - 1) as nat),
            ).push(d.last()));
            assert(d =~= d.drop_last().push(d.last()));
        } else {
            assert(battle_faces(played(players, k)) =~= battle_faces(
                played(players, (k - 1) as nat),
            ));
        }
    }
}

/// Playing a face-off keeps every card: the cards left in the decks and
/// the cards put down are the cards the decks held.
pub proof fn lemma_play_keeps_cards(v: TableView)
    ensures
        cards_in(after_play(v).players).add(
            battle_faces(after_play(v).battle).to_multiset(),
        ) == cards_in(v.players).add(battle_faces(v.battle).to_multiset()),
{
    broadcast use vstd::multiset::group_multiset_axioms;
    broadcast use vstd::seq_lib::group_to_multiset_ensures;

    let n = v.players.len();
    lemma_playing_keeps_cards(v.players, n);
    assert(after_play(v).players =~= Seq::new(n, |i: int| without_top(v.players[i])));
    assert(v.players.take(n as int) =~= v.players);
    assert(battle_faces(after_play(v).battle) =~= battle_faces(v.battle) + battle_faces(
        played(v.players, n),
    ));
    vstd::seq_lib::lemma_multiset_commutative(
        battle_faces(v.battle),
        battle_faces(played(v.players, n)),
    );
}

/// All the cards in play at a table: in the players' decks, on the spoils
/// of war and on the battle pile, each as often as it occurs.
pub open spec fn cards_in_play(v: TableView) -> Multiset<Card> {
    cards_in(v.players).add(v.spoils.to_multiset()).add(battle_faces(v.battle).to_multiset())
}

proof fn lemma_concat_to_multiset(a: Seq<Card>, b: Seq<Card>)
    ensures
        (a + b).to_multiset() == a.to_multiset().add(b.to_multiset()),
{
    vstd::seq_lib::lemma_multiset_commutative(a, b);
}

/// Awarding keeps every card in play: the winner takes the spoils and the
/// battle cards, and no card is left behind or copied.
pub proof fn lemma_award_keeps_cards(v: TableView)
    requires
        after_award(v) is Some,
    ensures
        cards_in_play(after_award(v).unwrap()) == cards_in_play(v),
{
    broadcast use vstd::multiset::group_multiset_axioms;
    broadcast use vstd::seq_lib::group_to_multiset_ensures;

    let w = v.winners[0] as int;
    let sp = v.spoils;
    let f = battle_faces(v.battle);
    let d = v.players[w];
    let a = after_award(v).unwrap();
    lemma_cards_in_update(v.players, w, sp + f + d);
    lemma_concat_to_multiset(sp + f, d);
    lemma_concat_to_multiset(sp, f);
    assert(battle_faces(a.battle) =~= Seq::<Card>::empty());
    assert(battle_faces(a.battle).to_multiset() =~= Multiset::empty());
    assert(a.spoils.to_multiset() =~= Multiset::empty());
    assert forall|x: Card| #[trigger] cards_in_play(a).count(x) == cards_in_play(v).count(x) by {
        assert(cards_in(a.players).add(d.to_multiset()).count(x) == cards_in(v.players).add(
            (sp + f + d).to_multiset(),
        ).count(x));
    }
    assert(cards_in_play(a) =~= cards_in_play(v));
}

proof fn lemma_restore_step_keeps_cards(u: TableView, w: usize)
    requires
        restore_step(u, w) is Some,
    ensures
        cards_in_play(restore_step(u, w).unwrap()) == cards_in_play(u),
{
    broadcast use vstd::multiset::group_multiset_axioms;
    broadcast use vstd::seq_lib::group_to_multiset_ensures;

    let u2 = restore_step(u, w).unwrap();
    if u.players[w as int].len() >= 1 {
    } else {
        let p = position_of(u.battle, w, u.battle.len()).unwrap();
        lemma_position_of_in_range(u.battle, w, u.battle.len());
        let c = u.battle[p].1;
        let d = u.players[w as int];
        let f = battle_faces(u.battle);
        lemma_cards_in_update(u.players, w as int, d.push(c));
        assert(battle_faces(u2.battle) =~= f.remove(p));
        assert(f[p] == c);
        assert(f.contains(c));
        assert forall|x: Card| #[trigger] cards_in_play(u2).count(x) == cards_in_play(u).count(x) by {
            assert(cards_in(u2.players).add(d.to_multiset()).count(x) == cards_in(u.players).add(
                d.push(c).to_multiset(),
            ).count(x));
        }
        assert(cards_in_play(u2) =~= cards_in_play(u));
    }
}

proof fn lemma_position_of_in_range(b: Seq<(usize, Card)>, w: usize, k: nat)
    requires
        k <= b.len(),
    ensures
        position_of(b, w, k) matches Some(p) ==> 0 <= p < k && b[p].0 == w,
    decreases k,
{
    if k > 0 {
        lemma_position_of_in_range(b, w, (k - 1) as nat);
    }
}

proof fn lemma_restore_through_keeps_cards(v: TableView, k: nat)
    requires
        k <= v.winners.len(),
        restore_through(v, k) is Some,
    ensures
        cards_in_play(restore_through(v, k).unwrap()) == cards_in_play(v),
    decreases k,
{
    if k > 0 {
        let prev = restore_through(v, (k - 1) as nat);
        if prev is None {
            assert(restore_through(v, k) is None);
        }
        lemma_restore_through_keeps_cards(v, (k - 1) as nat);
        lemma_restore_step_keeps_cards(prev.unwrap(), v.winners[k - 1]);
    }
}

proof fn lemma_battle_to_spoils_keeps_cards(v: TableView)
    ensures
        cards_in_play(battle_to_spoils(v)) == cards_in_play(v),
{
    broadcast use vstd::multiset::group_multiset_axioms;
    broadcast use vstd::seq_lib::group_to_multiset_ensures;

    let v1 = battle_to_spoils(v);
    lemma_concat_to_multiset(v.spoils, battle_faces(v.battle));
    assert(battle_faces(v1.battle) =~= Seq::<Card>::empty());
    assert(battle_faces(v1.battle).to_multiset() =~= Multiset::empty());
    assert(cards_in_play(v1) =~= cards_in_play(v));
}

proof fn lemma_spoils_step_keeps_cards(u: TableView, w: usize)
    requires
        spoils_step(u, w) is Some,
    ensures
        cards_in_play(spoils_step(u, w).unwrap()) == cards_in_play(u),
{
    broadcast use vstd::multiset::group_multiset_axioms;
    broadcast use vstd::seq_lib::group_to_multiset_ensures;

    let u2 = spoils_step(u, w).unwrap();
    let d = u.players[w as int];
    let keep = d.len() - stake(d.len());
    let top = d.skip(keep);
    lemma_cards_in_update(u.players, w as int, d.take(keep));
    assert(d =~= d.take(keep) + top);
    lemma_concat_to_multiset(d.take(keep), top);
    top.lemma_reverse_to_multiset();
    lemma_concat_to_multiset(u.spoils, top.reverse());
    assert forall|x: Card| #[trigger] cards_in_play(u2).count(x) == cards_in_play(u).count(x) by {
        assert(cards_in(u2.players).add(d.to_multiset()).count(x) == cards_in(u.players).add(
            d.take(keep).to_multiset(),
        ).count(x));
    }
    assert(cards_in_play(u2) =~= cards_in_play(u));
}

proof fn lemma_spoils_through_keeps_cards(v: TableView, k: nat)
    requires
        k <= v.winners.len(),
        spoils_through(v, k) is Some,
    ensures
        cards_in_play(spoils_through(v, k).unwrap()) == cards_in_play(v),
    decreases k,
{
    if k > 0 {
        let prev = spoils_through(v, (k - 1) as nat);
        if prev is None {
            assert(spoils_through(v, k) is None);
        }
        lemma_spoils_through_keeps_cards(v, (k - 1) as nat);
        lemma_spoils_step_keeps_cards(prev.unwrap(), v.winners[k - 1]);
    }
}

/// Giving winners their battle card back keeps every card in play.
pub proof fn lemma_return_last_cards_keeps_cards(v: TableView)
    requires
        after_restore(v) is Some,
    ensures
        cards_in_play(after_restore(v).unwrap()) == cards_in_play(v),
{
    lemma_restore_through_keeps_cards(v, v.winners.len());
}

/// Collecting the spoils of war keeps every card in play: the battle cards
/// and the stakes are moved onto the spoils, none is copied or lost.
pub proof fn lemma_collect_spoils_keeps_cards(v: TableView)
    requires
        after_spoils(v) is Some,
    ensures
        cards_in_play(after_spoils(v).unwrap()) == cards_in_play(v),
{
    lemma_battle_to_spoils_keeps_cards(v);
    lemma_spoils_through_keeps_cards(battle_to_spoils(v), v.winners.len());
}

/// Playing keeps every card in play: each top card goes onto the battle pile.
pub proof fn lemma_play_keeps_cards_in_play(v: TableView)
    ensures
        cards_in_play(after_play(v)) == cards_in_play(v),
{
    broadcast use vstd::multiset::group_multiset_axioms;

    let p = after_play(v);
    lemma_play_keeps_cards(v);
    assert forall|x: Card| #[trigger] cards_in_play(p).count(x) == cards_in_play(v).count(x) by {
        assert(cards_in(p.players).add(battle_faces(p.battle).to_multiset()).count(x) == cards_in(
            v.players,
        ).add(battle_faces(v.battle).to_multiset()).count(x));
    }
    assert(cards_in_play(p) =~= cards_in_play(v));
}

/// A face-off keeps every card in play: after it, the players' decks, the
/// spoils of war and the battle pile hold the same cards, each as often,
/// as before it; cards are moved, never copied or lost.
pub proof fn lemma_face_off_keeps_cards(v: TableView)
    requires
        battle_round(v) is Some,
    ensures
        cards_in_play(battle_round(v).unwrap().0) == cards_in_play(v),
{
    broadcast use vstd::multiset::group_multiset_axioms;

    let p = after_play(v);
    lemma_play_keeps_cards(v);
    assert forall|x: Card| #[trigger] cards_in_play(p).count(x) == cards_in_play(v).count(x) by {
        assert(cards_in(p.players).add(battle_faces(p.battle).to_multiset()).count(x) == cards_in(
            v.players,
        ).add(battle_faces(v.battle).to_multiset()).count(x));
    }
    assert(cards_in_play(p) =~= cards_in_play(v));
    let f = after_find(p);
    assert(cards_in_play(f) == cards_in_play(p));
    if f.winners.len() == 1 {
        lemma_award_keeps_cards(f);
    } else {
        lemma_restore_through_keeps_cards(f, f.winners.len());
        let r = after_restore(f).unwrap();
        lemma_battle_to_spoils_keeps_cards(r);
        lemma_spoils_through_keeps_cards(battle_to_spoils(r), r.winners.len());
        let s = after_spoils(r).unwrap();
        assert(cards_in_play(TableView { winners: Seq::empty(), ..s }) == cards_in_play(s));
    }
}

/// The table after `n` face-offs played from `v`, with whether the last of
/// them was decided by a single winner (`true` where none was played);
/// `None` where one of them cannot be played.
pub open spec fn after_face_offs(v: TableView, n: nat) -> Option<(TableView, bool)>
    decreases n,
{
    if n == 0 {
        Some((v, true))
    } else {
        match after_face_offs(v, (n - 1) as nat) {
            None => None,
            Some(x) => battle_round(x.0),
        }
    }
}

/// The cards in decks of which all but deck `w` are empty are those of deck `w`.
proof fn lemma_cards_in_single_deck(hs: Seq<Seq<Card>>, w: int)
    requires
        0 <= w < hs.len(),
        forall|j: int| 0 <= j < hs.len() && j != w ==> #[trigger] hs[j].len() == 0,
    ensures
        cards_in(hs) =~= hs[w].to_multiset(),
    decreases hs.len(),
{
    broadcast use vstd::multiset::group_multiset_axioms;
    broadcast use vstd::seq_lib::group_to_multiset_ensures;

    let last = hs.last();
    if w == hs.len() - 1 {
        lemma_cards_in_none(hs.drop_last());
    } else {
        lemma_cards_in_single_deck(hs.drop_last(), w);
        assert(last.len() == 0);
        assert(last.to_multiset() =~= Multiset::empty());
    }
}

/// Decks that are all empty hold no cards.
proof fn lemma_cards_in_none(hs: Seq<Seq<Card>>)
    requires
        forall|j: int| 0 <= j < hs.len() ==> #[trigger] hs[j].len() == 0,
    ensures
        cards_in(hs) =~= Multiset::<Card>::empty(),
    decreases hs.len(),
{
    broadcast use vstd::multiset::group_multiset_axioms;
    broadcast use vstd::seq_lib::group_to_multiset_ensures;

    if hs.len() > 0 {
        lemma_cards_in_none(hs.drop_last());
        assert(hs.last().len() == 0);
    }
}

/// The end of a game: from a table whose spoils and battle piles are empty
/// (as after the deal), any number of face-offs keeps every card in play;
/// after the last of them, if it was decided by a single winner (or none was
/// played), the spoils and battle piles are empty, and where one player is
/// the only one holding cards (where the game stops, as `check_win`
/// reports), that player holds
/// every card in play, each as often as before.
pub proof fn lemma_game_ends_with_all_cards(v: TableView, n: nat)
    requires
        v.battle.len() == 0,
        v.spoils.len() == 0,
        after_face_offs(v, n) is Some,
        after_face_offs(v, n).unwrap().1,
    ensures
        ({
            let u = after_face_offs(v, n).unwrap().0;
            &&& cards_in_play(u) == cards_in_play(v)
            &&& u.battle.len() == 0
            &&& u.spoils.len() == 0
            &&& forall|w: int|
                #[trigger] only_holder(u.players, w) ==> u.players[w].to_multiset() == cards_in_play(
                    v,
                )
        }),
{
    broadcast use vstd::multiset::group_multiset_axioms;
    broadcast use vstd::seq_lib::group_to_multiset_ensures;

    lemma_face_offs_keep_cards(v, n);
    let u = after_face_offs(v, n).unwrap().0;
    if n > 0 {
        let x = after_face_offs(v, (n - 1) as nat).unwrap().0;
        let f = after_find(after_play(x));
        assert(f.winners.len() == 1);
        assert(u == after_award(f).unwrap());
    }
    assert(battle_faces(u.battle) =~= Seq::<Card>::empty());
    assert(battle_faces(u.battle).to_multiset() =~= Multiset::empty());
    assert(u.spoils.to_multiset() =~= Multiset::empty());
    assert(cards_in_play(u) =~= cards_in(u.players));
    assert forall|w: int| #[trigger] only_holder(u.players, w) implies u.players[w].to_multiset()
        == cards_in_play(v) by {
        lemma_cards_in_single_deck(u.players, w);
    }
}

/// Every face-off keeps the cards in play, however many are played.
proof fn lemma_face_offs_keep_cards(v: TableView, n: nat)
    requires
        after_face_offs(v, n) is Some,
    ensures
        cards_in_play(after_face_offs(v, n).unwrap().0) == cards_in_play(v),
    decreases n,
{
    if n > 0 {
        let prev = after_face_offs(v, (n - 1) as nat);
        if prev is None {
            assert(after_face_offs(v, n) is None);
        }
        lemma_face_offs_keep_cards(v, (n - 1) as nat);
        lemma_face_off_keeps_cards(prev.unwrap().0);
    }
}

/// Playing takes exactly the top card of each deck that has one: the rest
/// of the deck stays in the same order, with the card below on top; an
/// empty deck stays empty. The battle pile keeps its cards and grows by
/// one card per player with cards, each that player's old top card.
pub proof fn lemma_play_takes_top_cards(v: TableView)
    requires
        v.players.len() <= usize::MAX,
    ensures
        ({
            let p = after_play(v);
            &&& p.players.len() == v.players.len()
            &&& forall|i: int|
                0 <= i < v.players.len() && v.players[i].len() > 0 ==> #[trigger] p.players[i]
                    == v.players[i].subrange(0, v.players[i].len() - 1)
            &&& forall|i: int|
                0 <= i < v.players.len() && v.players[i].len() == 0 ==> #[trigger] p.players[i]
                    == v.players[i]
            &&& p.battle.len() >= v.battle.len()
            &&& p.battle.subrange(0, v.battle.len() as int) == v.battle
            &&& forall|a: int|
                v.battle.len() <= a < p.battle.len() ==> (#[trigger] p.battle[a]).0 < v.players.len()
                    && v.players[p.battle[a].0 as int].len() > 0 && p.battle[a].1
                    == v.players[p.battle[a].0 as int][v.players[p.battle[a].0 as int].len() - 1]
        }),
{
    let n = v.players.len();
    let p = after_play(v);
    lemma_played_entries(v.players, n);
    let b = played(v.players, n);
    assert(p.battle =~= v.battle + b);
    assert(p.battle.subrange(0, v.battle.len() as int) =~= v.battle);
    assert forall|i: int| 0 <= i < n && v.players[i].len() > 0 implies #[trigger] p.players[i]
        == v.players[i].subrange(0, v.players[i].len() - 1) by {
        assert(p.players[i] =~= v.players[i].subrange(0, v.players[i].len() - 1));
    }
    assert forall|a: int| v.battle.len() <= a < p.battle.len() implies (#[trigger] p.battle[a]).0
        < n && v.players[p.battle[a].0 as int].len() > 0 && p.battle[a].1 == v.players[p.battle[a].0 as int][v.players[p.battle[a].0 as int].len() - 1] by {
        assert(p.battle[a] == b[a - v.battle.len()]);
    }
}

/// The single winner takes its winnings under its deck: its new deck is the
/// spoils, then the battle cards in order, then its old deck, which stays
/// on top to be played next; no other deck changes and both piles are left
/// empty.
pub proof fn lemma_award_puts_winnings_under(v: TableView)
    requires
        after_award(v) is Some,
    ensures
        ({
            let a = after_award(v).unwrap();
            let w = v.winners[0] as int;
            let d = v.players[w];
            let ns = v.spoils.len() as int;
            let n = ns + v.battle.len();
            &&& a.players.len() == v.players.len()
            &&& a.players[w].len() == n + d.len()
            &&& a.players[w].subrange(n, n + d.len()) == d
            &&& a.players[w].subrange(0, ns) == v.spoils
            &&& forall|k: int| 0 <= k < v.battle.len() ==> #[trigger] a.players[w][ns + k] == v.battle[k].1
            &&& forall|i: int| 0 <= i < v.players.len() && i != w ==> #[trigger] a.players[i] == v.players[i]
            &&& a.spoils.len() == 0
            &&& a.battle.len() == 0
        }),
{
    let a = after_award(v).unwrap();
    let w = v.winners[0] as int;
    let d = v.players[w];
    let ns = v.spoils.len() as int;
    let n = ns + v.battle.len();
    assert(a.players[w].subrange(n, n + d.len()) =~= d);
    assert(a.players[w].subrange(0, ns) =~= v.spoils);
    assert forall|k: int| 0 <= k < v.battle.len() implies #[trigger] a.players[w][ns + k] == v.battle[k].1 by {
        assert(a.players[w][ns + k] == battle_faces(v.battle)[k]);
    }
}

/// The winners of the first `k` turns of collecting stakes, all distinct.
proof fn lemma_stakes_through(v1: TableView, k: nat)
    requires
        k <= v1.winners.len(),
        spoils_through(v1, k) is Some,
        forall|a: int, c: int| 0 <= a < c < v1.winners.len() ==> v1.winners[a] != v1.winners[c],
    ensures
        ({
            let u = spoils_through(v1, k).unwrap();
            &&& u.players.len() == v1.players.len()
            &&& u.battle == v1.battle
            &&& forall|a: int| 0 <= a < k ==> #[trigger] v1.winners[a] < v1.players.len()
            &&& u.spoils.len() >= v1.spoils.len()
            &&& u.spoils.subrange(0, v1.spoils.len() as int) == v1.spoils
            &&& forall|i: int|
                0 <= i < v1.players.len() && (forall|a: int| 0 <= a < k ==> v1.winners[a] != i)
                    ==> #[trigger] u.players[i] == v1.players[i]
            &&& forall|a: int|
                0 <= a < k ==> #[trigger] u.players[v1.winners[a] as int] == v1.players[v1.winners[a] as int].subrange(
                    0,
                    v1.players[v1.winners[a] as int].len() - stake(v1.players[v1.winners[a] as int].len()),
                )
            &&& forall|a: int, j: int|
                0 <= a < k && v1.players[v1.winners[a] as int].len() - stake(
                    v1.players[v1.winners[a] as int].len(),
                ) <= j < v1.players[v1.winners[a] as int].len() ==> u.spoils.contains(
                    #[trigger] v1.players[v1.winners[a] as int][j],
                )
        }),
    decreases k,
{
    if k > 0 {
        let prev = spoils_through(v1, (k - 1) as nat);
        if prev is None {
            assert(spoils_through(v1, k) is None);
        }
        lemma_stakes_through(v1, (k - 1) as nat);
        let u = prev.unwrap();
        let w = v1.winners[k - 1];
        let u2 = spoils_through(v1, k).unwrap();
        assert(w < v1.players.len());
        assert(forall|a: int| 0 <= a < k - 1 ==> v1.winners[a] != w);
        let d = u.players[w as int];
        assert(d == v1.players[w as int]);
        let keep = d.len() - stake(d.len());
        let top = d.skip(keep).reverse();
        assert(u2.spoils == u.spoils + top);
        assert(u2.spoils.subrange(0, v1.spoils.len() as int) =~= v1.spoils) by {
            assert(u2.spoils.subrange(0, v1.spoils.len() as int) =~= u.spoils.subrange(
                0,
                v1.spoils.len() as int,
            ));
        }
        assert forall|a: int, j: int|
            0 <= a < k && v1.players[v1.winners[a] as int].len() - stake(
                v1.players[v1.winners[a] as int].len(),
            ) <= j < v1.players[v1.winners[a] as int].len() implies u2.spoils.contains(
            #[trigger] v1.players[v1.winners[a] as int][j],
        ) by {
            if a < k - 1 {
                let x = v1.players[v1.winners[a] as int][j];
                let idx = choose|idx: int| 0 <= idx < u.spoils.len() && u.spoils[idx] == x;
                assert(u2.spoils[idx] == x);
            } else {
                let x = d[j];
                let idx = d.len() - 1 - j;
                assert(top[idx - 0] == d.skip(keep)[d.len() - keep - 1 - idx]);
                assert(top[idx] == x);
                assert(u2.spoils[u.spoils.len() + idx] == x);
            }
        }
        assert forall|a: int|
            0 <= a < k implies #[trigger] u2.players[v1.winners[a] as int] == v1.players[v1.winners[a] as int].subrange(
            0,
            v1.players[v1.winners[a] as int].len() - stake(v1.players[v1.winners[a] as int].len()),
        ) by {
            if a < k - 1 {
                assert(v1.winners[a] != w);
                assert(u2.players[v1.winners[a] as int] == u.players[v1.winners[a] as int]);
            } else {
                assert(u2.players[w as int] =~= d.subrange(0, keep));
            }
        }
    }
}

/// In a war, each winner with at least four cards puts exactly three at
/// stake, from its top: its deck keeps all but its top three cards, in
/// order, and those three go onto the spoils; a winner with one to three
/// cards keeps only its bottom card. The stakes reported are three and
/// `len - 1`. The battle cards go onto the spoils first, other decks do not
/// change, and the battle pile is left empty.
pub proof fn lemma_war_stakes(v: TableView)
    requires
        after_spoils(v) is Some,
        forall|a: int, c: int| 0 <= a < c < v.winners.len() ==> v.winners[a] != v.winners[c],
    ensures
        ({
            let r = after_spoils(v).unwrap();
            &&& r.battle.len() == 0
            &&& r.spoils.len() >= v.spoils.len() + v.battle.len()
            &&& r.spoils.subrange(0, (v.spoils.len() + v.battle.len()) as int) == v.spoils + battle_faces(v.battle)
            &&& forall|i: int|
                0 <= i < v.players.len() && (forall|a: int| 0 <= a < v.winners.len() ==> v.winners[a] != i)
                    ==> #[trigger] r.players[i] == v.players[i]
            &&& forall|a: int|
                0 <= a < v.winners.len() && #[trigger] v.players[v.winners[a] as int].len() >= 4 ==> {
                    let d = v.players[v.winners[a] as int];
                    &&& r.players[v.winners[a] as int] == d.subrange(0, d.len() - 3)
                    &&& r.spoils.contains(d[d.len() - 1])
                    &&& r.spoils.contains(d[d.len() - 2])
                    &&& r.spoils.contains(d[d.len() - 3])
                    &&& stake_trace(v)[a] == (v.winners[a], 3usize)
                }
            &&& forall|a: int|
                0 <= a < v.winners.len() && 1 <= #[trigger] v.players[v.winners[a] as int].len() < 4
                    ==> {
                    let d = v.players[v.winners[a] as int];
                    &&& r.players[v.winners[a] as int] == d.subrange(0, 1)
                    &&& stake_trace(v)[a] == (v.winners[a], (d.len() - 1) as usize)
                }
        }),
{
    let v1 = battle_to_spoils(v);
    let n = v.winners.len();
    lemma_stakes_through(v1, n);
    let r = after_spoils(v).unwrap();
    assert(r.spoils.subrange(0, (v.spoils.len() + v.battle.len()) as int) =~= v1.spoils);
    assert forall|a: int|
        0 <= a < n && #[trigger] v.players[v.winners[a] as int].len() >= 4 implies {
        let d = v.players[v.winners[a] as int];
        &&& r.players[v.winners[a] as int] == d.subrange(0, d.len() - 3)
        &&& r.spoils.contains(d[d.len() - 1])
        &&& r.spoils.contains(d[d.len() - 2])
        &&& r.spoils.contains(d[d.len() - 3])
        &&& stake_trace(v)[a] == (v.winners[a], 3usize)
    } by {
        let w = v.winners[a];
        let d = v.players[w as int];
        assert(stake(d.len()) == 3);
        assert(v1.players[w as int] == d);
        assert(r.spoils.contains(v1.players[w as int][d.len() - 1]));
        assert(r.spoils.contains(v1.players[w as int][d.len() - 2]));
        assert(r.spoils.contains(v1.players[w as int][d.len() - 3]));
        lemma_spoils_through_some(v1, a as nat, n);
        lemma_stakes_through(v1, a as nat);
        assert(forall|c: int| 0 <= c < a ==> v1.winners[c] != w);
        assert(spoils_through(v1, a as nat).unwrap().players[w as int] == d);
    }
    assert forall|a: int|
        0 <= a < n && 1 <= #[trigger] v.players[v.winners[a] as int].len() < 4 implies {
        let d = v.players[v.winners[a] as int];
        &&& r.players[v.winners[a] as int] == d.subrange(0, 1)
        &&& stake_trace(v)[a] == (v.winners[a], (d.len() - 1) as usize)
    } by {
        let w = v.winners[a];
        let d = v.players[w as int];
        assert(stake(d.len()) == d.len() - 1);
        assert(v1.players[w as int] == d);
        lemma_spoils_through_some(v1, a as nat, n);
        lemma_stakes_through(v1, a as nat);
        assert(forall|c: int| 0 <= c < a ==> v1.winners[c] != w);
        assert(spoils_through(v1, a as nat).unwrap().players[w as int] == d);
    }
}

/// Where collecting all stakes succeeds, collecting the first `k` does too.
proof fn lemma_spoils_through_some(v: TableView, k: nat, m: nat)
    requires
        k <= m,
        spoils_through(v, m) is Some,
    ensures
        spoils_through(v, k) is Some,
    decreases m - k,
{
    if k < m {
        lemma_spoils_through_some(v, k + 1, m);
        if spoils_through(v, k) is None {
            assert(spoils_through(v, k + 1) is None);
        }
    }
}

} // verus!
