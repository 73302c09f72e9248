use vstd::prelude::*;
use vstd::string::StringExecFns;

use crate::card::{card_text, suit_order, suit_position, value_order, value_position, Card, CardValue, Suit};
use crate::rng::{random_index, RandomSource};

verus! {

/// A pile of cards. The top of the pile is the end of `cards`.
#[derive(Clone, PartialEq, Debug)]
pub struct Deck {
    pub cards: Vec<Card>,
}

impl View for Deck {
    type V = Seq<Card>;

    open spec fn view(&self) -> Seq<Card> {
        self.cards@
    }
}

/// The 52 cards of a fresh deck: suit by suit (spades, hearts, diamonds,
/// clubs), and within a suit from the ace down to the two.
pub open spec fn standard_deck() -> Seq<Card> {
    Seq::new(52, |i: int| Card { suit: suit_order()[i / 13], value: value_order()[i % 13] })
}

/// `s` with the items at `i` and `j` exchanged.
pub open spec fn swap_at(s: Seq<Card>, i: int, j: int) -> Seq<Card> {
    s.update(i, s[j]).update(j, s[i])
}

/// `s` after the first `k` steps of a shuffle: step `i` exchanges the item
/// at `i` with the item at `picks[i]`.
pub open spec fn swapped(s: Seq<Card>, picks: Seq<usize>, k: nat) -> Seq<Card>
    decreases k,
{
    if k == 0 {
        s
    } else {
        swap_at(swapped(s, picks, (k - 1) as nat), k - 1, picks[k - 1] as int)
    }
}

/// `s` after a whole shuffle driven by `picks`, one step per pick.
pub open spec fn shuffled(s: Seq<Card>, picks: Seq<usize>) -> Seq<Card> {
    swapped(s, picks, picks.len())
}

/// Picks that drive a shuffle of `n` items: one per item, each in bounds.
pub open spec fn picks_in_bounds(picks: Seq<usize>, n: nat) -> bool {
    &&& picks.len() == n
    &&& forall|i: int| 0 <= i < picks.len() ==> #[trigger] picks[i] < n
}

/// Draws of a Fisher-Yates shuffle of `n` cards: one per card, in order,
/// draw `i` asking for an index in `0..=i`.
pub open spec fn fisher_yates_draws(draws: Seq<(usize, usize)>, n: nat) -> bool {
    &&& draws.len() == n
    &&& forall|i: int| 0 <= i < n ==> (#[trigger] draws[i]).0 == i && draws[i].1 <= i
}

/// The indices drawn, in order.
pub open spec fn drawn(draws: Seq<(usize, usize)>) -> Seq<usize> {
    draws.map_values(|d: (usize, usize)| d.1)
}

/// The text of a pile: the text of each card, bottom first.
pub open spec fn deck_text(s: Seq<Card>) -> Seq<char>
    decreases s.len(),
{
    if s.len() == 0 {
        Seq::empty()
    } else {
        deck_text(s.drop_last()) + card_text(s.last())
    }
}

/// Updating one position changes the multiset by the item taken out and the item put in.
proof fn lemma_update_to_multiset(s: Seq<Card>, i: int, x: Card)
    requires
        0 <= i < s.len(),
    ensures
        s.update(i, x).to_multiset() =~= s.to_multiset().remove(s[i]).insert(x),
{
    broadcast use vstd::seq_lib::group_to_multiset_ensures;

    let t = s.update(i, x);
    assert(t.remove(i) =~= s.remove(i));
    assert(t[i] == x);
    assert(t.contains(x));
    assert(t.to_multiset() =~= t.to_multiset().remove(x).insert(x));
}

/// Exchanging two items keeps the multiset of items.
proof fn lemma_swap_to_multiset(s: Seq<Card>, i: int, j: int)
    requires
        0 <= i < s.len(),
        0 <= j < s.len(),
    ensures
        swap_at(s, i, j).to_multiset() =~= s.to_multiset(),
        swap_at(s, i, j).len() == s.len(),
{
    broadcast use vstd::multiset::group_multiset_axioms;

    let s1 = s.update(i, s[j]);
    lemma_update_to_multiset(s, i, s[j]);
    lemma_update_to_multiset(s1, j, s[i]);
    assert(s1[j] == s[j]);
    assert(s.to_multiset().count(s[i]) > 0) by {
        broadcast use vstd::seq_lib::group_to_multiset_ensures;

        assert(s.contains(s[i]));
    }
    let m = s.to_multiset();
    assert forall|x: Card| #[trigger]
        m.remove(s[i]).insert(s[j]).remove(s[j]).insert(s[i]).count(x) == m.count(x) by {}
}

/// Every prefix of a shuffle keeps the length and the multiset of items.
proof fn lemma_swapped_to_multiset(s: Seq<Card>, picks: Seq<usize>, k: nat)
    requires
        k <= picks.len(),
        picks_in_bounds(picks, s.len()),
    ensures
        swapped(s, picks, k).len() == s.len(),
        swapped(s, picks, k).to_multiset() =~= s.to_multiset(),
    decreases k,
{
    if k > 0 {
        lemma_swapped_to_multiset(s, picks, (k - 1) as nat);
        assert(picks[k - 1] < s.len());
        lemma_swap_to_multiset(swapped(s, picks, (k - 1) as nat), k - 1, picks[k - 1] as int);
    }
}

/// Every step of a shuffle is carried out, none skipped: step `k` exchanges
/// the card at `k` with the card at `picks[k]` and leaves every other card
/// where it is.
pub proof fn lemma_shuffle_step(s: Seq<Card>, picks: Seq<usize>, k: nat)
    requires
        picks_in_bounds(picks, s.len()),
        k < picks.len(),
    ensures
        ({
            let before = swapped(s, picks, k);
            let after = swapped(s, picks, k + 1);
            let p = picks[k as int] as int;
            &&& before.len() == s.len()
            &&& after.len() == s.len()
            &&& after[k as int] == before[p]
            &&& after[p] == before[k as int]
            &&& forall|j: int| 0 <= j < s.len() && j != k && j != p ==> #[trigger] after[j] == before[j]
        }),
{
    lemma_swapped_to_multiset(s, picks, k);
    lemma_swapped_to_multiset(s, picks, k + 1);
    assert(picks[k as int] < s.len());
}

/// A shuffle driven by in-bounds picks is a permutation: the same cards,
/// each as often as before.
pub proof fn lemma_shuffle_is_permutation(s: Seq<Card>, picks: Seq<usize>)
    requires
        picks_in_bounds(picks, s.len()),
    ensures
        shuffled(s, picks).len() == s.len(),
        shuffled(s, picks).to_multiset() == s.to_multiset(),
{
    lemma_swapped_to_multiset(s, picks, picks.len());
}

/// The fresh deck holds each of the 52 cards exactly once.
pub proof fn lemma_standard_deck_complete(c: Card)
    ensures
        standard_deck().len() == 52,
        standard_deck().contains(c),
        standard_deck().to_multiset().count(c) == 1,
{
    broadcast use vstd::seq_lib::group_to_multiset_ensures;

    let d = standard_deck();
    let i = 13 * suit_position(c.suit) + value_position(c.value);
    assert(0 <= i < 52);
    assert(i / 13 == suit_position(c.suit) && i % 13 == value_position(c.value));
    assert(d[i] == c);
    assert forall|a: int, b: int| 0 <= a < b < 52 implies d[a] != d[b] by {
        lemma_standard_deck_entry(a);
        lemma_standard_deck_entry(b);
        assert((13 * (a / 13) + a % 13) == a && (13 * (b / 13) + b % 13) == b) by (nonlinear_arith)
            requires
                0 <= a,
                0 <= b,
        ;
    }
    assert(d.no_duplicates());
    d.lemma_multiset_has_no_duplicates();
}

/// The card at position `i` of the fresh deck sits at suit position `i / 13`
/// and value position `i % 13`.
proof fn lemma_standard_deck_entry(i: int)
    requires
        0 <= i < 52,
    ensures
        suit_position(standard_deck()[i].suit) == i / 13,
        value_position(standard_deck()[i].value) == i % 13,
        0 <= i / 13 < 4,
        0 <= i % 13 < 13,
{
    assert(0 <= i / 13 < 4);
    assert(0 <= i % 13 < 13);
}

impl Default for Deck {
    /// An empty pile.
    fn default() -> (deck: Deck)
        ensures
            deck@ == Seq::<Card>::empty(),
    {
        Deck { cards: Vec::new() }
    }
}

impl Deck {
    /// A fresh deck of 52 cards: spades, hearts, diamonds, then clubs, each
    /// suit from the ace down to the two.
    pub fn new() -> (deck: Deck)
        ensures
            deck@ == standard_deck(),
    {
        let suits = Suit::all();
        let values = CardValue::all();
        let mut cards: Vec<Card> = Vec::new();
        let mut s: usize = 0;
        while s < 4
            invariant
                s <= 4,
                suits@ == suit_order(),
                values@ == value_order(),
                cards@ == standard_deck().take(13 * s),
            decreases 4 - s,
        {
            let mut v: usize = 0;
            while v < 13
                invariant
                    s < 4,
                    v <= 13,
                    suits@ == suit_order(),
                    values@ == value_order(),
                    cards@ == standard_deck().take(13 * s + v),
                decreases 13 - v,
            {
                let card = Card { value: values[v], suit: suits[s] };
                assert((13 * s + v) / 13 == s && (13 * s + v) % 13 == v) by (nonlinear_arith)
                    requires
                        v < 13,
                ;
                assert(standard_deck().take(13 * s + v + 1) =~= standard_deck().take(
                    13 * s + v,
                ).push(card));
                cards.push(card);
                v += 1;
            }
            s += 1;
        }
        assert(standard_deck().take(52) =~= standard_deck());
        Deck { cards }
    }

    /// Exchanges the cards at positions `i` and `j`.
    fn swap(&mut self, i: usize, j: usize)
        requires
            i < old(self).cards.len(),
            j < old(self).cards.len(),
        ensures
            final(self)@ == swap_at(old(self)@, i as int, j as int),
    {
        let a = self.cards[i];
        let b = self.cards[j];
        self.cards.set(i, b);
        self.cards.set(j, a);
    }

    /// Shuffles the pile with the given picks: for each position `i` from
    /// the bottom up, the card at `i` is exchanged with the card at `picks[i]`.
    pub fn shuffle_by(&mut self, picks: &Vec<usize>)
        requires
            picks_in_bounds(picks@, old(self).cards.len() as nat),
        ensures
            final(self)@ == shuffled(old(self)@, picks@),
    {
        let n = self.cards.len();
        let mut index: usize = 0;
        while index < n
            invariant
                n == picks@.len(),
                n == old(self)@.len(),
                index <= n,
                picks_in_bounds(picks@, n as nat),
                self@ == swapped(old(self)@, picks@, index as nat),
                self@.len() == n,
            decreases n - index,
        {
            proof {
                lemma_swapped_to_multiset(old(self)@, picks@, index as nat);
            }
            let pick = picks[index];
            self.swap(index, pick);
            index += 1;
        }
    }

    /// Shuffles the pile with draws from `source` (Fisher-Yates as written
    /// here): for each position `i` from the bottom up, in order, an index is
    /// drawn from `0..=i` and the cards at `i` and at the drawn index are
    /// exchanged. The draws are exactly these, one per card, in this order;
    /// the result holds the same cards.
    pub fn shuffle(&mut self, source: &mut RandomSource)
        ensures
            final(source).draws@.take(old(source).draws@.len() as int) == old(source).draws@,
            fisher_yates_draws(
                final(source).draws@.skip(old(source).draws@.len() as int),
                old(self)@.len(),
            ),
            final(self)@ == shuffled(
                old(self)@,
                drawn(final(source).draws@.skip(old(source).draws@.len() as int)),
            ),
            final(self)@.to_multiset() == old(self)@.to_multiset(),
            final(self)@.len() == old(self)@.len(),
    {
        let ghost start = source.draws@;
        let n = self.cards.len();
        let mut picks: Vec<usize> = Vec::new();
        let mut index: usize = 0;
        while index < n
            invariant
                index <= n,
                picks@.len() == index,
                forall|i: int| 0 <= i < index ==> #[trigger] picks@[i] <= i,
                source.draws@.len() == start.len() + index,
                source.draws@.take(start.len() as int) == start,
                forall|i: int|
                    0 <= i < index ==> #[trigger] source.draws@[start.len() + i] == (
                        i as usize,
                        picks@[i],
                    ),
            decreases n - index,
        {
            let pick = random_index(source, index);
            picks.push(pick);
            proof {
                assert(source.draws@.take(start.len() as int) =~= start);
            }
            index += 1;
        }
        let ghost before = self@;
        self.shuffle_by(&picks);
        proof {
            let fresh = source.draws@.skip(start.len() as int);
            assert(fresh.len() == n);
            assert forall|i: int| 0 <= i < n implies #[trigger] fresh[i] == (i as usize, picks@[i]) by {
                assert(source.draws@[start.len() + i] == (i as usize, picks@[i]));
            }
            assert(drawn(fresh) =~= picks@);
            assert(fisher_yates_draws(fresh, before.len()));
            lemma_shuffle_is_permutation(before, picks@);
        }
    }

    /// The text of the pile: the text of each card, bottom first.
    pub fn to_string(&self) -> (s: String)
        ensures
            s@ == deck_text(self@),
    {
        let mut s = String::new();
        let mut i: usize = 0;
        while i < self.cards.len()
            invariant
                i <= self.cards.len(),
                s@ == deck_text(self@.take(i as int)),
            decreases self.cards.len() - i,
        {
            let text = self.cards[i].to_string();
            s.append(text.as_str());
            assert(self@.take(i + 1).drop_last() =~= self@.take(i as int));
            i += 1;
        }
        assert(self@.take(self.cards.len() as int) =~= self@);
        s
    }
}

} // verus!
