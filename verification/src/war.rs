use vstd::prelude::*;

use crate::card::{value_rank, Card};
use crate::deck::{standard_deck, Deck};
use crate::rng::RandomSource;
use crate::war_laws::{
    cards_in_play, lemma_award_keeps_cards, lemma_collect_spoils_keeps_cards, lemma_face_off_keeps_cards,
    lemma_play_keeps_cards_in_play, lemma_return_last_cards_keeps_cards,
};

verus! {

/// What a table holds, as plain values.
#[verifier::ext_equal]
pub struct TableView {
    pub dealer: Seq<Card>,
    pub players: Seq<Seq<Card>>,
    pub spoils: Seq<Card>,
    pub battle: Seq<(usize, Card)>,
    pub winners: Seq<usize>,
}

/// A game of War: the dealer's deck, one deck per player, and the piles of
/// the current face-off.
pub struct Table {
    /// The generator that shuffles the dealer's deck.
    pub rng: RandomSource,
    /// The deck that is dealt out.
    pub dealer: Deck,
    /// One deck per player; each plays from its top (the end).
    pub players: Vec<Deck>,
    /// The cards at stake in a war.
    pub spoils_of_war: Vec<Card>,
    /// The cards played in the current face-off, each with its player.
    pub battle_cards: Vec<(usize, Card)>,
    /// The players whose cards won the current face-off.
    pub winners: Vec<usize>,
}

/// What one face-off reports: whether a single winner took the cards, and,
/// for a war, each winner with the size of its deck when it was checked for
/// a last card, and each winner with the number of cards it put at stake.
pub struct BattleReport {
    pub decided: bool,
    pub deck_sizes: Vec<(usize, usize)>,
    pub stakes: Vec<(usize, usize)>,
}

/// The cards of each deck.
pub open spec fn hands(players: Seq<Deck>) -> Seq<Seq<Card>> {
    players.map_values(|d: Deck| d@)
}

impl View for Table {
    type V = TableView;

    open spec fn view(&self) -> TableView {
        TableView {
            dealer: self.dealer@,
            players: hands(self.players@),
            spoils: self.spoils_of_war@,
            battle: self.battle_cards@,
            winners: self.winners@,
        }
    }
}

/// A new table: a fresh deck at the dealer, no players, empty piles.
pub open spec fn initial_table() -> TableView {
    TableView {
        dealer: standard_deck(),
        players: Seq::empty(),
        spoils: Seq::empty(),
        battle: Seq::empty(),
        winners: Seq::empty(),
    }
}

/// `v` with `n` more players, each with an empty deck.
pub open spec fn with_new_players(v: TableView, n: nat) -> TableView {
    TableView { players: v.players + Seq::new(n, |i: int| Seq::<Card>::empty()), ..v }
}

/// The cards that player `p` of `n` receives in the first `k` rounds of
/// dealing `d` from its top: card `j` (counted from the top) goes to player
/// `j % n`, at the top of its deck.
pub open spec fn dealt(d: Seq<Card>, n: nat, p: int, k: nat) -> Seq<Card>
    decreases k,
{
    if k == 0 {
        Seq::empty()
    } else if (k - 1) % (n as int) == p {
        dealt(d, n, p, (k - 1) as nat).push(d[d.len() - k])
    } else {
        dealt(d, n, p, (k - 1) as nat)
    }
}

/// `v` after the dealer's whole deck was dealt round the players.
pub open spec fn after_deal(v: TableView) -> TableView {
    TableView {
        dealer: Seq::empty(),
        players: Seq::new(
            v.players.len(),
            |p: int| v.players[p] + dealt(v.dealer, v.players.len(), p, v.dealer.len()),
        ),
        ..v
    }
}

/// The cards that the first `k` players put down in a face-off: the top
/// card of each that has one, with the player's index.
pub open spec fn played(players: Seq<Seq<Card>>, k: nat) -> Seq<(usize, Card)>
    decreases k,
{
    if k == 0 {
        Seq::empty()
    } else if players[k - 1].len() > 0 {
        played(players, (k - 1) as nat).push(((k - 1) as usize, players[k - 1].last()))
    } else {
        played(players, (k - 1) as nat)
    }
}

/// A deck after its top card was played, if it had one.
pub open spec fn without_top(d: Seq<Card>) -> Seq<Card> {
    if d.len() > 0 {
        d.drop_last()
    } else {
        d
    }
}

/// `v` after every player with cards put its top card down.
pub open spec fn after_play(v: TableView) -> TableView {
    TableView {
        players: Seq::new(v.players.len(), |i: int| without_top(v.players[i])),
        battle: v.battle + played(v.players, v.players.len()),
        ..v
    }
}

/// The highest rank of a value among the first `k` battle cards of `b`;
/// -1 where `k` is 0.
pub open spec fn best_rank(b: Seq<(usize, Card)>, k: nat) -> int
    decreases k,
{
    if k == 0 {
        -1
    } else if best_rank(b, (k - 1) as nat) < value_rank(b[k - 1].1.value) {
        value_rank(b[k - 1].1.value) as int
    } else {
        best_rank(b, (k - 1) as nat)
    }
}

/// The players of those among the first `k` battle cards of `b` whose value
/// has rank `r`, in the order of the battle cards.
pub open spec fn players_with_rank(b: Seq<(usize, Card)>, k: nat, r: int) -> Seq<usize>
    decreases k,
{
    if k == 0 {
        Seq::empty()
    } else if value_rank(b[k - 1].1.value) == r {
        players_with_rank(b, (k - 1) as nat, r).push(b[k - 1].0)
    } else {
        players_with_rank(b, (k - 1) as nat, r)
    }
}

/// The winners of the face-off `b`: the players of exactly those battle
/// cards whose value is the highest, in the order of the battle cards.
pub open spec fn winners_of_battle(b: Seq<(usize, Card)>) -> Seq<usize> {
    players_with_rank(b, b.len(), best_rank(b, b.len()))
}

/// `v` with the winners of its face-off found.
pub open spec fn after_find(v: TableView) -> TableView {
    TableView { winners: winners_of_battle(v.battle), ..v }
}

/// The player with cards, if exactly one has any.
pub open spec fn sole_holder(players: Seq<Seq<Card>>) -> Option<usize> {
    if exists|i: int| #[trigger] only_holder(players, i) {
        Some((choose|i: int| #[trigger] only_holder(players, i)) as usize)
    } else {
        None
    }
}

/// Player `i` has cards and every other player has none.
pub open spec fn only_holder(players: Seq<Seq<Card>>, i: int) -> bool {
    &&& 0 <= i < players.len()
    &&& players[i].len() > 0
    &&& forall|j: int| 0 <= j < players.len() && j != i ==> #[trigger] players[j].len() == 0
}

/// The faces of the played cards, in order.
pub open spec fn battle_faces(b: Seq<(usize, Card)>) -> Seq<Card> {
    b.map_values(|x: (usize, Card)| x.1)
}

/// `v` after its first winner took the spoils and the battle cards, under
/// its deck, leaving both piles empty; `None` where there is no winner or
/// it is no player.
pub open spec fn after_award(v: TableView) -> Option<TableView> {
    if v.winners.len() == 0 || v.winners[0] >= v.players.len() {
        None
    } else {
        let w = v.winners[0] as int;
        Some(
            TableView {
                players: v.players.update(w, v.spoils + battle_faces(v.battle) + v.players[w]),
                spoils: Seq::empty(),
                battle: Seq::empty(),
                ..v
            },
        )
    }
}

/// The position of the first of the first `k` battle cards of `b` that
/// player `w` played, if any.
pub open spec fn position_of(b: Seq<(usize, Card)>, w: usize, k: nat) -> Option<int>
    decreases k,
{
    if k == 0 {
        None
    } else {
        match position_of(b, w, (k - 1) as nat) {
            Some(p) => Some(p),
            None => if b[k - 1].0 == w {
                Some(k - 1)
            } else {
                None
            },
        }
    }
}

/// One step of giving winner `w` its battle card back: a winner with an
/// empty deck takes its own battle card (the first that it played) off the
/// battle pile onto its deck. `None` where `w` is no player, or where it
/// has an empty deck and no battle card.
pub open spec fn restore_step(v: TableView, w: usize) -> Option<TableView> {
    if w >= v.players.len() {
        None
    } else if v.players[w as int].len() >= 1 {
        Some(v)
    } else {
        match position_of(v.battle, w, v.battle.len()) {
            None => None,
            Some(p) => Some(
                TableView {
                    players: v.players.update(w as int, v.players[w as int].push(v.battle[p].1)),
                    battle: v.battle.remove(p),
                    ..v
                },
            ),
        }
    }
}

/// `v` after the first `k` winners were given their battle card back where
/// their deck is empty.
pub open spec fn restore_through(v: TableView, k: nat) -> Option<TableView>
    decreases k,
{
    if k == 0 {
        Some(v)
    } else {
        match restore_through(v, (k - 1) as nat) {
            None => None,
            Some(u) => restore_step(u, v.winners[k - 1]),
        }
    }
}

/// `v` after every winner with an empty deck took its battle card back.
pub open spec fn after_restore(v: TableView) -> Option<TableView> {
    restore_through(v, v.winners.len())
}

/// How many cards a winner with a deck of `len` cards puts at stake in a
/// war: three, or all but one where it has fewer than four.
pub open spec fn stake(len: nat) -> nat {
    if len < 4 {
        (len - 1) as nat
    } else {
        3
    }
}

/// One step of collecting the spoils of war from winner `w`: its stake,
/// taken from its top one by one. `None` where `w` is no player or its
/// deck is empty.
pub open spec fn spoils_step(v: TableView, w: usize) -> Option<TableView> {
    if w >= v.players.len() || v.players[w as int].len() == 0 {
        None
    } else {
        let d = v.players[w as int];
        let keep = d.len() - stake(d.len());
        Some(
            TableView {
                players: v.players.update(w as int, d.take(keep)),
                spoils: v.spoils + d.skip(keep).reverse(),
                ..v
            },
        )
    }
}

/// `v` after the stakes of the first `k` winners were collected.
pub open spec fn spoils_through(v: TableView, k: nat) -> Option<TableView>
    decreases k,
{
    if k == 0 {
        Some(v)
    } else {
        match spoils_through(v, (k - 1) as nat) {
            None => None,
            Some(u) => spoils_step(u, v.winners[k - 1]),
        }
    }
}

/// `v` with its battle cards moved onto the spoils.
pub open spec fn battle_to_spoils(v: TableView) -> TableView {
    TableView { spoils: v.spoils + battle_faces(v.battle), battle: Seq::empty(), ..v }
}

/// `v` after the battle cards were moved onto the spoils and every winner's
/// stake was collected.
pub open spec fn after_spoils(v: TableView) -> Option<TableView> {
    spoils_through(battle_to_spoils(v), v.winners.len())
}

/// For each winner in turn, the winner and the size of its deck when its
/// turn comes to take its battle card back.
pub open spec fn restore_trace(v: TableView) -> Seq<(usize, usize)> {
    Seq::new(
        v.winners.len(),
        |a: int|
            (
                v.winners[a],
                restore_through(v, a as nat).unwrap().players[v.winners[a] as int].len() as usize,
            ),
    )
}

/// For each winner in turn, the winner and the number of cards it puts at
/// stake.
pub open spec fn stake_trace(v: TableView) -> Seq<(usize, usize)> {
    Seq::new(
        v.winners.len(),
        |a: int|
            (
                v.winners[a],
                stake(
                    spoils_through(battle_to_spoils(v), a as nat).unwrap().players[v.winners[a] as int].len(),
                ) as usize,
            ),
    )
}

/// One face-off: every player with cards plays its top card, the winners
/// are found; a single winner takes the cards (`true`), several go to war
/// (`false`): those with an empty deck take their battle card back, the
/// battle cards and the stakes go onto the spoils and the winners are
/// cleared. `None` where a step would fail, or where no card was played.
pub open spec fn battle_round(v: TableView) -> Option<(TableView, bool)> {
    let f = after_find(after_play(v));
    if f.winners.len() == 1 {
        match after_award(f) {
            None => None,
            Some(a) => Some((a, true)),
        }
    } else if f.winners.len() > 1 {
        match after_restore(f) {
            None => None,
            Some(r) => match after_spoils(r) {
                None => None,
                Some(s) => Some((TableView { winners: Seq::empty(), ..s }, false)),
            },
        }
    } else {
        None
    }
}

/// No value among the first `k` battle cards ranks above the best rank.
pub proof fn lemma_best_rank_is_highest(b: Seq<(usize, Card)>, k: nat)
    requires
        k <= b.len(),
    ensures
        forall|j: int| 0 <= j < k ==> value_rank(#[trigger] b[j].1.value) <= best_rank(b, k),
        k > 0 ==> exists|j: int| 0 <= j < k && value_rank(#[trigger] b[j].1.value) == best_rank(b, k),
        k == 0 ==> best_rank(b, k) == -1,
    decreases k,
{
    if k > 0 {
        lemma_best_rank_is_highest(b, (k - 1) as nat);
        if best_rank(b, (k - 1) as nat) < value_rank(b[k - 1].1.value) {
            assert(value_rank(b[k - 1].1.value) == best_rank(b, k));
        } else {
            let j = choose|j: int|
                0 <= j < k - 1 && value_rank(#[trigger] b[j].1.value) == best_rank(
                    b,
                    (k - 1) as nat,
                );
            assert(value_rank(b[j].1.value) == best_rank(b, k));
        }
    }
}

/// Where no value among the first `k` battle cards has rank `r`, none of
/// their players is listed for it.
proof fn lemma_players_with_rank_none(b: Seq<(usize, Card)>, k: nat, r: int)
    requires
        k <= b.len(),
        forall|j: int| 0 <= j < k ==> value_rank(#[trigger] b[j].1.value) < r,
    ensures
        players_with_rank(b, k, r) == Seq::<usize>::empty(),
    decreases k,
{
    if k > 0 {
        lemma_players_with_rank_none(b, (k - 1) as nat, r);
    }
}

/// Once a battle card of player `w` is found, later cards do not move it.
proof fn lemma_position_of_stays(b: Seq<(usize, Card)>, w: usize, k: nat, m: nat)
    requires
        k <= m,
        position_of(b, w, k) is Some,
    ensures
        position_of(b, w, m) == position_of(b, w, k),
    decreases m - k,
{
    if k < m {
        lemma_position_of_stays(b, w, k, (m - 1) as nat);
    }
}

/// Once giving battle cards back has failed, it stays failed.
proof fn lemma_restore_through_none(v: TableView, k: nat, m: nat)
    requires
        k <= m,
        restore_through(v, k) is None,
    ensures
        restore_through(v, m) is None,
    decreases m - k,
{
    if k < m {
        lemma_restore_through_none(v, k, (m - 1) as nat);
    }
}

/// Once collecting the stakes has failed, it stays failed.
proof fn lemma_spoils_through_none(v: TableView, k: nat, m: nat)
    requires
        k <= m,
        spoils_through(v, k) is None,
    ensures
        spoils_through(v, m) is None,
    decreases m - k,
{
    if k < m {
        lemma_spoils_through_none(v, k, (m - 1) as nat);
    }
}

/// At most one player can be the only one holding cards.
proof fn lemma_only_holder_unique(players: Seq<Seq<Card>>, i: int)
    requires
        only_holder(players, i),
    ensures
        sole_holder(players) == Some(i as usize),
{
    let k = choose|k: int| #[trigger] only_holder(players, k);
    if k != i {
        assert(players[k].len() == 0);
    }
}

/// The decks of a table after one deck was replaced.
proof fn lemma_hands_update(players: Seq<Deck>, i: int, d: Deck)
    requires
        0 <= i < players.len(),
    ensures
        hands(players.update(i, d)) =~= hands(players).update(i, d@),
{
}

/// The winners of the face-off `b`: the players of the battle cards of the
/// highest value, in order.
fn winners_of(b: &Vec<(usize, Card)>) -> (w: Vec<usize>)
    ensures
        w@ == winners_of_battle(b@),
{
    let mut acc: Vec<usize> = Vec::new();
    let mut best: u8 = 0;
    let mut index: usize = 0;
    while index < b.len()
        invariant
            index <= b.len(),
            index > 0 ==> best == best_rank(b@, index as nat),
            acc@ == players_with_rank(b@, index as nat, best_rank(b@, index as nat)),
        decreases b.len() - index,
    {
        let here = b[index].1.value.rank();
        if index == 0 || best < here {
            proof {
                lemma_best_rank_is_highest(b@, index as nat);
                lemma_players_with_rank_none(b@, index as nat, here as int);
            }
            acc = Vec::new();
            acc.push(b[index].0);
            best = here;
            assert(acc@ =~= players_with_rank(b@, (index + 1) as nat, here as int));
        } else if best == here {
            acc.push(b[index].0);
        }
        index += 1;
    }
    acc
}

/// Plays `after_restore(f)` on the deck sizes and the battle pile alone:
/// whether it succeeds, and the deck sizes after it.
fn simulate_restore(
    winners: &Vec<usize>,
    lens: &mut Vec<usize>,
    battle: &mut Vec<(usize, Card)>,
    Ghost(f): Ghost<TableView>,
) -> (ok: bool)
    requires
        winners@ == f.winners,
        old(lens)@.len() == f.players.len(),
        forall|a: int| 0 <= a < old(lens)@.len() ==> #[trigger] old(lens)@[a] == f.players[a].len(),
        old(battle)@ == f.battle,
    ensures
        ok == after_restore(f) is Some,
        ok ==> final(lens)@.len() == f.players.len(),
        ok ==> forall|a: int|
            0 <= a < final(lens)@.len() ==> #[trigger] final(lens)@[a] == after_restore(
                f,
            ).unwrap().players[a].len(),
        ok ==> after_restore(f).unwrap().winners == f.winners,
        ok ==> after_restore(f).unwrap().players.len() == f.players.len(),
{
    let n = lens.len();
    let mut k: usize = 0;
    while k < winners.len()
        invariant
            k <= winners.len(),
            winners@ == f.winners,
            n == f.players.len(),
            restore_through(f, k as nat) is Some,
            battle@ == restore_through(f, k as nat).unwrap().battle,
            lens@.len() == n,
            forall|a: int|
                0 <= a < n ==> #[trigger] lens@[a] == restore_through(
                    f,
                    k as nat,
                ).unwrap().players[a].len(),
            restore_through(f, k as nat).unwrap().players.len() == n,
            restore_through(f, k as nat).unwrap().winners == f.winners,
        decreases winners.len() - k,
    {
        let ghost u = restore_through(f, k as nat).unwrap();
        let w = winners[k];
        if w >= n {
            proof {
                lemma_restore_through_none(f, (k + 1) as nat, f.winners.len());
            }
            return false;
        }
        if lens[w] < 1 {
            let mut pos: usize = 0;
            while pos < battle.len() && battle[pos].0 != w
                invariant
                    pos <= battle.len(),
                    battle@ == u.battle,
                    position_of(u.battle, w, pos as nat) is None,
                decreases battle.len() - pos,
            {
                pos += 1;
            }
            if pos == battle.len() {
                proof {
                    lemma_restore_through_none(f, (k + 1) as nat, f.winners.len());
                }
                return false;
            }
            proof {
                lemma_position_of_stays(u.battle, w, (pos + 1) as nat, u.battle.len());
            }
            battle.remove(pos);
            lens.set(w, 1);
            proof {
                let u2 = restore_step(u, w).unwrap();
                assert forall|a: int| 0 <= a < n implies #[trigger] lens@[a]
                    == u2.players[a].len() by {}
            }
        }
        k += 1;
    }
    true
}

/// Plays `spoils_through(r1, ..)` over all winners on the deck sizes alone:
/// whether it succeeds.
fn simulate_spoils(winners: &Vec<usize>, lens: &mut Vec<usize>, Ghost(r1): Ghost<TableView>) -> (ok:
    bool)
    requires
        winners@ == r1.winners,
        old(lens)@.len() == r1.players.len(),
        forall|a: int| 0 <= a < old(lens)@.len() ==> #[trigger] old(lens)@[a] == r1.players[a].len(),
    ensures
        ok == spoils_through(r1, r1.winners.len()) is Some,
{
    let n = lens.len();
    let mut k: usize = 0;
    while k < winners.len()
        invariant
            k <= winners.len(),
            winners@ == r1.winners,
            n == r1.players.len(),
            spoils_through(r1, k as nat) is Some,
            lens@.len() == n,
            forall|a: int|
                0 <= a < n ==> #[trigger] lens@[a] == spoils_through(
                    r1,
                    k as nat,
                ).unwrap().players[a].len(),
            spoils_through(r1, k as nat).unwrap().players.len() == n,
        decreases winners.len() - k,
    {
        let ghost u = spoils_through(r1, k as nat).unwrap();
        let w = winners[k];
        if w >= n || lens[w] == 0 {
            proof {
                lemma_spoils_through_none(r1, (k + 1) as nat, r1.winners.len());
            }
            return false;
        }
        let len = lens[w];
        let kept = len - ((if len < 4 { len } else { 4 }) - 1);
        lens.set(w, kept);
        proof {
            let u2 = spoils_step(u, w).unwrap();
            assert forall|a: int| 0 <= a < n implies #[trigger] lens@[a]
                == u2.players[a].len() by {}
        }
        k += 1;
    }
    true
}

impl Table {
    /// A new table with a generator seeded from the operating system: a
    /// fresh deck at the dealer, no players and empty piles.
    pub fn new() -> (table: Table)
        ensures
            table@ == initial_table(),
            table.rng.draws@ == Seq::<(usize, usize)>::empty(),
    {
        Table::with_source(RandomSource::from_entropy())
    }

    /// A new table that shuffles with `rng`: a fresh deck at the dealer, no
    /// players and empty piles.
    pub fn with_rng(rng: rand::rngs::StdRng) -> (table: Table)
        ensures
            table@ == initial_table(),
            table.rng.rng == rng,
            table.rng.draws@ == Seq::<(usize, usize)>::empty(),
    {
        Table::with_source(RandomSource::new(rng))
    }

    /// A new table that shuffles with draws from `source`.
    fn with_source(source: RandomSource) -> (table: Table)
        ensures
            table@ == initial_table(),
            table.rng == source,
    {
        let table = Table {
            rng: source,
            dealer: Deck::new(),
            players: Vec::new(),
            spoils_of_war: Vec::new(),
            battle_cards: Vec::new(),
            winners: Vec::new(),
        };
        assert(hands(table.players@) =~= Seq::<Seq<Card>>::empty());
        table
    }

    /// Seats `player_count` more players, each with an empty deck.
    pub fn set_player_count(&mut self, player_count: usize)
        ensures
            final(self)@ == with_new_players(old(self)@, player_count as nat),
            final(self).rng == old(self).rng,
    {
        let ghost v0 = old(self)@;
        let mut i: usize = 0;
        while i < player_count
            invariant
                i <= player_count,
                self@ == with_new_players(v0, i as nat),
                self.rng == old(self).rng,
            decreases player_count - i,
        {
            let ghost before = self.players@;
            self.players.push(Deck { cards: Vec::new() });
            proof {
                assert(hands(self.players@) =~= hands(before).push(Seq::<Card>::empty()));
                assert(with_new_players(v0, (i + 1) as nat).players =~= with_new_players(
                    v0,
                    i as nat,
                ).players.push(Seq::<Card>::empty()));
            }
            i += 1;
        }
    }

    /// Deals the dealer's whole deck round the players: the top card to
    /// player 0, the next to player 1, and so on, each onto the top of the
    /// player's deck.
    pub fn deal(&mut self)
        requires
            old(self).players.len() > 0 || old(self).dealer.cards.len() == 0,
        ensures
            final(self)@ == after_deal(old(self)@),
            final(self).rng == old(self).rng,
    {
        let ghost v0 = old(self)@;
        let ghost d = v0.dealer;
        let player_count = self.players.len();
        let mut i: usize = 0;
        while self.dealer.cards.len() > 0
            invariant
                player_count == self.players.len(),
                player_count == v0.players.len(),
                player_count > 0 || self.dealer.cards.len() == 0,
                i <= d.len(),
                d.len() == old(self).dealer.cards.len(),
                self.dealer@ == d.take(d.len() - i),
                forall|p: int|
                    0 <= p < player_count ==> #[trigger] self.players@[p]@ == v0.players[p]
                        + dealt(d, player_count as nat, p, i as nat),
                self.spoils_of_war@ == v0.spoils,
                self.battle_cards@ == v0.battle,
                self.winners@ == v0.winners,
                self.rng == old(self).rng,
            decreases self.dealer.cards.len(),
        {
            let card = self.dealer.cards.pop().unwrap();
            let p = i % player_count;
            let ghost before = self.players@;
            self.players[p].cards.push(card);
            proof {
                assert(card == d[d.len() - (i + 1)]);
                assert forall|q: int| 0 <= q < player_count implies #[trigger] self.players@[q]@
                    == v0.players[q] + dealt(d, player_count as nat, q, (i + 1) as nat) by {
                    if q == p {
                        assert(self.players@[q]@ =~= before[q]@.push(card));
                    } else {
                        assert(self.players@[q] == before[q]);
                    }
                }
            }
            i += 1;
        }
        proof {
            assert(self@.players =~= after_deal(v0).players);
            assert(self@.dealer =~= Seq::<Card>::empty());
        }
    }
    /// Every player with cards puts its top card down on the battle pile,
    /// with its index, in player order.
    pub fn play_cards(&mut self)
        ensures
            final(self)@ == after_play(old(self)@),
            cards_in_play(final(self)@) == cards_in_play(old(self)@),
            final(self).rng == old(self).rng,
    {
        let ghost v0 = old(self)@;
        proof {
            lemma_play_keeps_cards_in_play(v0);
        }
        let n = self.players.len();
        let mut i: usize = 0;
        while i < n
            invariant
                n == self.players.len(),
                n == v0.players.len(),
                i <= n,
                forall|q: int| 0 <= q < i ==> #[trigger] self.players@[q]@ == without_top(v0.players[q]),
                forall|q: int| i <= q < n ==> #[trigger] self.players@[q]@ == v0.players[q],
                self.battle_cards@ == v0.battle + played(v0.players, i as nat),
                self.dealer@ == v0.dealer,
                self.spoils_of_war@ == v0.spoils,
                self.winners@ == v0.winners,
                self.rng == old(self).rng,
            decreases n - i,
        {
            let ghost before = self.players@;
            assert(before[i as int]@ == v0.players[i as int]);
            if let Some(card) = self.players[i].cards.pop() {
                self.battle_cards.push((i, card));
                proof {
                    assert(self.battle_cards@ =~= v0.battle + played(v0.players, (i + 1) as nat));
                }
            } else {
                assert(self.battle_cards@ =~= v0.battle + played(v0.players, (i + 1) as nat));
            }
            proof {
                assert forall|q: int| 0 <= q < i + 1 implies #[trigger] self.players@[q]@
                    == without_top(v0.players[q]) by {
                    if q == i {
                        assert(self.players@[q]@ =~= without_top(v0.players[q]));
                    } else {
                        assert(self.players@[q] == before[q]);
                    }
                }
                assert forall|q: int| i + 1 <= q < n implies #[trigger] self.players@[q]@
                    == v0.players[q] by {
                    assert(self.players@[q] == before[q]);
                }
            }
            i += 1;
        }
        proof {
            assert(self@.players =~= after_play(v0).players);
        }
    }

    /// Finds the winners of the face-off: the players of exactly those
    /// battle cards whose value is the highest, in the order of the battle
    /// cards. One winner takes the cards; more than one go to war.
    pub fn find_winners(&mut self)
        ensures
            final(self)@ == after_find(old(self)@),
            final(self).rng == old(self).rng,
    {
        self.winners = winners_of(&self.battle_cards);
    }

    /// Moves the battle cards, in order, onto the spoils of war.
    fn move_battle_to_spoils(&mut self)
        ensures
            final(self)@ == battle_to_spoils(old(self)@),
            final(self).rng == old(self).rng,
    {
        let ghost v0 = old(self)@;
        let mut i: usize = 0;
        while i < self.battle_cards.len()
            invariant
                i <= self.battle_cards.len(),
                self.battle_cards@ == v0.battle,
                self.spoils_of_war@ == v0.spoils + battle_faces(v0.battle).take(i as int),
                hands(self.players@) == v0.players,
                self.winners@ == v0.winners,
                self.dealer@ == v0.dealer,
                self.rng == old(self).rng,
            decreases self.battle_cards.len() - i,
        {
            self.spoils_of_war.push(self.battle_cards[i].1);
            assert(self.spoils_of_war@ =~= v0.spoils + battle_faces(v0.battle).take(i + 1));
            i += 1;
        }
        assert(battle_faces(v0.battle).take(i as int) =~= battle_faces(v0.battle));
        self.battle_cards.clear();
        assert(self@ =~= battle_to_spoils(v0));
    }

    /// The single winner takes all the cards: the spoils of war and the
    /// battle cards, in that order, go under its own cards, and both piles
    /// are left empty.
    pub fn award_player(&mut self)
        requires
            old(self).winners.len() > 0,
            old(self).winners[0] < old(self).players.len(),
        ensures
            final(self)@ == after_award(old(self)@).unwrap(),
            cards_in_play(final(self)@) == cards_in_play(old(self)@),
            final(self)@.battle.len() == 0,
            final(self)@.spoils.len() == 0,
            final(self).rng == old(self).rng,
    {
        let ghost v0 = old(self)@;
        proof {
            lemma_award_keeps_cards(v0);
        }
        self.move_battle_to_spoils();
        let mut new_deck: Vec<Card> = Vec::new();
        std::mem::swap(&mut new_deck, &mut self.spoils_of_war);
        let w = self.winners[0];
        let ghost before = self.players@;
        new_deck.append(&mut self.players[w].cards);
        self.players[w].cards = new_deck;
        proof {
            lemma_hands_update(before, w as int, self.players@[w as int]);
            assert(self.players@ == before.update(w as int, self.players@[w as int]));
            assert(self@.players =~= after_award(v0).unwrap().players);
            assert(self@.spoils =~= Seq::<Card>::empty());
            assert(self@ =~= after_award(v0).unwrap());
        }
    }

    /// Before a war: every winner whose deck is empty takes its own battle
    /// card back onto its deck, so that it has a card to fight the war with.
    /// Returns, for each winner in turn, the winner and the size of its deck
    /// when its turn came.
    pub fn ensure_player_has_last_card(&mut self) -> (sizes: Vec<(usize, usize)>)
        requires
            after_restore(old(self)@) is Some,
        ensures
            final(self)@ == after_restore(old(self)@).unwrap(),
            cards_in_play(final(self)@) == cards_in_play(old(self)@),
            sizes@ == restore_trace(old(self)@),
            final(self).rng == old(self).rng,
    {
        let ghost v0 = old(self)@;
        proof {
            lemma_return_last_cards_keeps_cards(v0);
        }
        let mut sizes: Vec<(usize, usize)> = Vec::new();
        let mut k: usize = 0;
        while k < self.winners.len()
            invariant
                k <= self.winners.len(),
                self.winners@ == v0.winners,
                restore_through(v0, v0.winners.len()) is Some,
                restore_through(v0, k as nat) == Some(self@),
                sizes@ == restore_trace(v0).take(k as int),
                self.rng == old(self).rng,
            decreases self.winners.len() - k,
        {
            proof {
                if restore_through(v0, (k + 1) as nat) is None {
                    lemma_restore_through_none(v0, (k + 1) as nat, v0.winners.len());
                }
            }
            let w = self.winners[k];
            let ghost u = self@;
            let ghost before = self.players@;
            let len = self.players[w].cards.len();
            sizes.push((w, len));
            assert(sizes@ =~= restore_trace(v0).take(k + 1));
            if len < 1 {
                let mut pos: usize = 0;
                while pos < self.battle_cards.len() && self.battle_cards[pos].0 != w
                    invariant
                        pos <= self.battle_cards.len(),
                        self.battle_cards@ == u.battle,
                        position_of(u.battle, w, pos as nat) is None,
                    decreases self.battle_cards.len() - pos,
                {
                    pos += 1;
                }
                if pos == self.battle_cards.len() {
                    assert(false);
                }
                proof {
                    lemma_position_of_stays(u.battle, w, (pos + 1) as nat, u.battle.len());
                }
                let (_, card) = self.battle_cards.remove(pos);
                self.players[w].cards.push(card);
                proof {
                    lemma_hands_update(before, w as int, self.players@[w as int]);
                    assert(self.players@ == before.update(w as int, self.players@[w as int]));
                    assert(self@.players =~= restore_step(u, w).unwrap().players);
                    assert(self@ =~= restore_step(u, w).unwrap());
                }
            }
            k += 1;
        }
        assert(restore_trace(v0).take(k as int) =~= restore_trace(v0));
        sizes
    }

    /// Collects the spoils of a war: the battle cards are moved onto the
    /// spoils, then each winner puts its stake (three cards, or all but one
    /// where it has fewer than four) from its top onto the spoils, one by
    /// one. Returns, for each winner in turn, the winner and its stake.
    pub fn build_spoils_of_war(&mut self) -> (stakes: Vec<(usize, usize)>)
        requires
            after_spoils(old(self)@) is Some,
        ensures
            final(self)@ == after_spoils(old(self)@).unwrap(),
            cards_in_play(final(self)@) == cards_in_play(old(self)@),
            final(self)@.battle.len() == 0,
            stakes@ == stake_trace(old(self)@),
            final(self).rng == old(self).rng,
    {
        let ghost v0 = old(self)@;
        proof {
            lemma_collect_spoils_keeps_cards(v0);
        }
        self.move_battle_to_spoils();
        let ghost v1 = self@;
        let mut stakes: Vec<(usize, usize)> = Vec::new();
        let mut k: usize = 0;
        while k < self.winners.len()
            invariant
                k <= self.winners.len(),
                v1 == battle_to_spoils(v0),
                self.winners@ == v1.winners,
                self.battle_cards@.len() == 0,
                spoils_through(v1, v1.winners.len()) is Some,
                spoils_through(v1, k as nat) == Some(self@),
                stakes@ == stake_trace(v0).take(k as int),
                self.rng == old(self).rng,
            decreases self.winners.len() - k,
        {
            proof {
                if spoils_through(v1, (k + 1) as nat) is None {
                    lemma_spoils_through_none(v1, (k + 1) as nat, v1.winners.len());
                }
            }
            let w = self.winners[k];
            let ghost u = self@;
            let ghost d = u.players[w as int];
            let len = self.players[w].cards.len();
            assert(self.players@[w as int]@ == d);
            let war_card_count = (if len < 4 { len } else { 4 }) - 1;
            stakes.push((w, war_card_count));
            assert(stakes@ =~= stake_trace(v0).take(k + 1));
            let mut j: usize = 0;
            while j < war_card_count
                invariant
                    war_card_count == stake(d.len()),
                    len == d.len(),
                    len >= 1,
                    j <= war_card_count,
                    w < self.players.len(),
                    self.players.len() == u.players.len(),
                    self.players@[w as int]@ == d.take(len - j),
                    forall|q: int|
                        0 <= q < self.players.len() && q != w ==> #[trigger] self.players@[q]@
                            == u.players[q],
                    self.spoils_of_war@ == u.spoils + d.skip(len - j).reverse(),
                    self.battle_cards@ == u.battle,
                    self.winners@ == u.winners,
                    self.dealer@ == u.dealer,
                    self.rng == old(self).rng,
                decreases war_card_count - j,
            {
                let ghost before = self.players@;
                if let Some(card) = self.players[w].cards.pop() {
                    self.spoils_of_war.push(card);
                    proof {
                        assert(card == d[len - j - 1]);
                        assert(d.skip(len - j - 1).reverse() =~= d.skip(len - j).reverse().push(
                            d[len - j - 1],
                        ));
                    }
                }
                proof {
                    assert(self.players@[w as int]@ =~= d.take(len - j - 1));
                    assert forall|q: int|
                        0 <= q < self.players.len() && q != w implies #[trigger] self.players@[q]@
                        == u.players[q] by {
                        assert(self.players@[q] == before[q]);
                    }
                }
                j += 1;
            }
            proof {
                assert(self@.players =~= spoils_step(u, w).unwrap().players);
                assert(self@ =~= spoils_step(u, w).unwrap());
            }
            k += 1;
        }
        assert(stake_trace(v0).take(k as int) =~= stake_trace(v0));
        stakes
    }

    /// The winner of the game: the only player with cards left, if there is
    /// exactly one.
    pub fn check_win(&self) -> (winner: Option<usize>)
        ensures
            winner == sole_holder(self@.players),
            winner matches Some(i) ==> only_holder(self@.players, i as int),
            winner is None ==> forall|i: int| !#[trigger] only_holder(self@.players, i),
    {
        let ghost ps = self@.players;
        let mut count: usize = 0;
        let mut last: usize = 0;
        let mut idx: usize = 0;
        while idx < self.players.len()
            invariant
                idx <= self.players.len(),
                ps == hands(self.players@),
                count <= idx,
                count == 0 ==> forall|q: int| 0 <= q < idx ==> #[trigger] ps[q].len() == 0,
                count >= 1 ==> last < idx && ps[last as int].len() > 0,
                count == 1 ==> forall|q: int|
                    0 <= q < idx && q != last ==> #[trigger] ps[q].len() == 0,
                count >= 2 ==> exists|q: int| 0 <= q < idx && q != last && #[trigger] ps[q].len() > 0,
            decreases self.players.len() - idx,
        {
            assert(ps[idx as int] == self.players@[idx as int]@);
            if !self.players[idx].cards.is_empty() {
                if count >= 1 {
                    assert(ps[last as int].len() > 0);
                }
                if count < 2 {
                    count += 1;
                }
                last = idx;
            }
            idx += 1;
        }
        if count == 1 {
            assert(only_holder(ps, last as int));
            proof {
                lemma_only_holder_unique(ps, last as int);
            }
            Some(last)
        } else {
            assert forall|i: int| !#[trigger] only_holder(ps, i) by {
                if only_holder(ps, i) {
                    if count >= 2 {
                        let q = choose|q: int| 0 <= q < ps.len() && q != last && #[trigger] ps[q].len() > 0;
                        assert(q == i || last == i);
                    }
                }
            }
            None
        }
    }

    /// Plays one face-off (one pass of the game's inner loop): every player
    /// with cards plays its top card and the winners are found. A single
    /// winner takes the cards (`decided`); several winners go to war: those
    /// with an empty deck take their battle card back, the battle cards and
    /// the stakes go onto the spoils, the winners are cleared. The report
    /// holds what the war steps return.
    pub fn play_battle(&mut self) -> (report: BattleReport)
        requires
            battle_round(old(self)@) is Some,
        ensures
            (final(self)@, report.decided) == battle_round(old(self)@).unwrap(),
            cards_in_play(final(self)@) == cards_in_play(old(self)@),
            final(self)@.battle.len() == 0,
            report.decided ==> report.deck_sizes@.len() == 0 && report.stakes@.len() == 0,
            !report.decided ==> report.deck_sizes@ == restore_trace(after_find(after_play(old(self)@))),
            !report.decided ==> report.stakes@ == stake_trace(
                after_restore(after_find(after_play(old(self)@))).unwrap(),
            ),
            final(self).rng == old(self).rng,
    {
        proof {
            lemma_face_off_keeps_cards(old(self)@);
        }
        self.play_cards();
        self.find_winners();
        if self.winners.len() == 1 {
            self.award_player();
            BattleReport { decided: true, deck_sizes: Vec::new(), stakes: Vec::new() }
        } else {
            let deck_sizes = self.ensure_player_has_last_card();
            let stakes = self.build_spoils_of_war();
            self.winners.clear();
            proof {
                assert(self@ =~= battle_round(old(self)@).unwrap().0);
            }
            BattleReport { decided: false, deck_sizes, stakes }
        }
    }

    /// Whether `play_battle` can run on this table: whether some card would
    /// be played and no step of the face-off would fail.
    pub fn battle_is_playable(&self) -> (playable: bool)
        ensures
            playable == battle_round(self@) is Some,
    {
        let ghost v = self@;
        let ghost p = after_play(v);
        let n = self.players.len();
        // the battle cards and deck sizes after every player played its top card
        let mut battle = self.battle_copy();
        let mut lens: Vec<usize> = Vec::new();
        let mut q: usize = 0;
        while q < n
            invariant
                n == self.players.len(),
                n == v.players.len(),
                q <= n,
                v == self@,
                battle@ == v.battle + played(v.players, q as nat),
                lens@.len() == q,
                forall|a: int| 0 <= a < q ==> #[trigger] lens@[a] == without_top(v.players[a]).len(),
            decreases n - q,
        {
            let len = self.players[q].cards.len();
            assert(len == v.players[q as int].len());
            if len > 0 {
                battle.push((q, self.players[q].cards[len - 1]));
                lens.push(len - 1);
            } else {
                lens.push(len);
            }
            assert(battle@ =~= v.battle + played(v.players, (q + 1) as nat));
            q += 1;
        }
        assert(battle@ == p.battle);
        let winners = winners_of(&battle);
        let ghost f = after_find(p);
        assert(f.winners == winners@);
        if winners.len() == 1 {
            return winners[0] < n;
        } else if winners.len() == 0 {
            return false;
        }
        if !simulate_restore(&winners, &mut lens, &mut battle, Ghost(f)) {
            return false;
        }
        let ghost r = after_restore(f).unwrap();
        simulate_spoils(&winners, &mut lens, Ghost(battle_to_spoils(r)))
    }

    /// Whether `award_player` can run on this table: whether there is a
    /// winner and the first winner is a player.
    pub fn can_award(&self) -> (ok: bool)
        ensures
            ok == after_award(self@) is Some,
    {
        self.winners.len() > 0 && self.winners[0] < self.players.len()
    }

    /// Whether `ensure_player_has_last_card` can run on this table: whether
    /// every winner is a player and every winner whose deck is empty at its
    /// turn still has a battle card of its own.
    pub fn can_return_last_cards(&self) -> (ok: bool)
        ensures
            ok == after_restore(self@) is Some,
    {
        let mut lens = self.deck_sizes();
        let mut battle = self.battle_copy();
        simulate_restore(&self.winners, &mut lens, &mut battle, Ghost(self@))
    }

    /// Whether `build_spoils_of_war` can run on this table: whether every
    /// winner is a player whose deck is not empty at its turn.
    pub fn can_collect_spoils(&self) -> (ok: bool)
        ensures
            ok == after_spoils(self@) is Some,
    {
        let mut lens = self.deck_sizes();
        proof {
            assert forall|a: int| 0 <= a < lens@.len() implies #[trigger] lens@[a]
                == battle_to_spoils(self@).players[a].len() by {}
        }
        simulate_spoils(&self.winners, &mut lens, Ghost(battle_to_spoils(self@)))
    }

    /// The size of each player's deck.
    fn deck_sizes(&self) -> (lens: Vec<usize>)
        ensures
            lens@.len() == self@.players.len(),
            forall|a: int| 0 <= a < lens@.len() ==> #[trigger] lens@[a] == self@.players[a].len(),
    {
        let mut lens: Vec<usize> = Vec::new();
        let mut q: usize = 0;
        while q < self.players.len()
            invariant
                q <= self.players.len(),
                lens@.len() == q,
                forall|a: int| 0 <= a < q ==> #[trigger] lens@[a] == self@.players[a].len(),
            decreases self.players.len() - q,
        {
            lens.push(self.players[q].cards.len());
            q += 1;
        }
        lens
    }

    /// A copy of the battle pile.
    fn battle_copy(&self) -> (battle: Vec<(usize, Card)>)
        ensures
            battle@ == self@.battle,
    {
        let mut battle: Vec<(usize, Card)> = Vec::new();
        let mut i: usize = 0;
        while i < self.battle_cards.len()
            invariant
                i <= self.battle_cards.len(),
                battle@ == self.battle_cards@.take(i as int),
            decreases self.battle_cards.len() - i,
        {
            battle.push(self.battle_cards[i]);
            assert(battle@ =~= self.battle_cards@.take(i + 1));
            i += 1;
        }
        assert(battle@ =~= self.battle_cards@);
        battle
    }
}

} // verus!
