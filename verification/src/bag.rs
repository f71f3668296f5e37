//! The bag: the supply of pieces. A full bag holds one piece of each kind in
//! a random order; pieces are drawn from its end, and when the last one is
//! drawn the bag is filled anew.

use rand::seq::SliceRandom;
use vstd::prelude::*;
use vstd::seq_lib::group_to_multiset_ensures;
use crate::tetromino::{Kind, Tetromino};
use crate::types::{Cells, Shape, Shapes};

verus! {

/// The seven kinds, in the order in which a bag is laid out before it is
/// shuffled.
pub open spec fn all_kinds() -> Seq<Kind> {
    seq![Kind::O, Kind::I, Kind::S, Kind::Z, Kind::T, Kind::L, Kind::J]
}

/// Each of the seven kinds stands exactly once in `order`.
pub open spec fn each_kind_once(order: Seq<Kind>) -> bool {
    forall|kind: Kind| #[trigger] order.to_multiset().count(kind) == 1
}

/// The fresh pieces of the kinds in `order`, as the cells of each.
pub open spec fn shapes_of(order: Seq<Kind>) -> Seq<Cells> {
    Seq::new(order.len(), |i: int| order[i].shape())
}

/// The kind whose fresh piece has the cells `piece`.
pub open spec fn kind_of(piece: Cells) -> Kind {
    choose|kind: Kind| piece == kind.shape()
}

/// The kinds of the fresh pieces in `pieces`.
pub open spec fn kinds_of(pieces: Seq<Cells>) -> Seq<Kind> {
    Seq::new(pieces.len(), |i: int| kind_of(pieces[i]))
}

/// What a bag holds after one draw: the pieces but the last; where that
/// leaves nothing, the pieces of a new filling.
pub open spec fn after_draw<T>(bag: Seq<T>, fresh: Seq<T>) -> Seq<T> {
    if bag.len() > 1 {
        bag.drop_last()
    } else {
        fresh
    }
}

/// The first `n` pieces drawn from `bag`, in the order of the draws, and
/// what the bag holds after them. Each draw takes the last piece; a bag that
/// a draw empties is filled with `fresh`.
pub open spec fn draws<T>(bag: Seq<T>, fresh: Seq<T>, n: nat) -> (Seq<T>, Seq<T>)
    decreases n,
{
    if n == 0 {
        (Seq::empty(), bag)
    } else {
        let (drawn, left) = draws(bag, fresh, (n - 1) as nat);
        (drawn.push(left.last()), after_draw(left, fresh))
    }
}

/// Two kinds with the same fresh piece are the same kind.
pub proof fn lemma_shapes_differ(a: Kind, b: Kind)
    requires
        a.shape() == b.shape(),
    ensures
        a == b,
{
    assert(a.shape()[1][1] == Some(crate::tetromino::Brick { color: a.spec_color(), moving: false }));
    assert(b.shape()[1][1] == Some(crate::tetromino::Brick { color: b.spec_color(), moving: false }));
}

/// The kinds of the fresh pieces of `order` are `order`.
pub proof fn lemma_kinds_of_shapes(order: Seq<Kind>)
    ensures
        kinds_of(shapes_of(order)) == order,
{
    assert forall|i: int| 0 <= i < order.len() implies kind_of(#[trigger] shapes_of(order)[i])
        == order[i] by {
        let found = kind_of(order[i].shape());
        lemma_shapes_differ(found, order[i]);
    }
    assert(kinds_of(shapes_of(order)) =~= order);
}

/// The seven kinds as laid out hold each kind once.
pub proof fn lemma_all_kinds_once()
    ensures
        each_kind_once(all_kinds()),
{
    broadcast use group_to_multiset_ensures;

    let a0 = Seq::<Kind>::empty();
    let a1 = a0.push(Kind::O);
    let a2 = a1.push(Kind::I);
    let a3 = a2.push(Kind::S);
    let a4 = a3.push(Kind::Z);
    let a5 = a4.push(Kind::T);
    let a6 = a5.push(Kind::L);
    let a7 = a6.push(Kind::J);
    assert(a7 =~= all_kinds());
    assert(a0.to_multiset().len() == 0);
    assert forall|kind: Kind| #[trigger] a7.to_multiset().count(kind) == 1 by {
        assert(a0.to_multiset().count(kind) == 0) by {
            if a0.to_multiset().count(kind) > 0 {
                assert(a0.contains(kind));
            }
        }
        assert(a1.to_multiset() =~= a0.to_multiset().insert(Kind::O));
        assert(a2.to_multiset() =~= a1.to_multiset().insert(Kind::I));
        assert(a3.to_multiset() =~= a2.to_multiset().insert(Kind::S));
        assert(a4.to_multiset() =~= a3.to_multiset().insert(Kind::Z));
        assert(a5.to_multiset() =~= a4.to_multiset().insert(Kind::T));
        assert(a6.to_multiset() =~= a5.to_multiset().insert(Kind::L));
        assert(a7.to_multiset() =~= a6.to_multiset().insert(Kind::J));
    }
}

/// An order that holds each kind once has seven places, no kind twice, and
/// every kind.
pub proof fn lemma_each_kind_once(order: Seq<Kind>)
    requires
        each_kind_once(order),
    ensures
        order.len() == 7,
        order.no_duplicates(),
        forall|kind: Kind| order.contains(kind),
{
    broadcast use group_to_multiset_ensures;

    lemma_all_kinds_once();
    assert(order.to_multiset() =~= all_kinds().to_multiset());
    assert(order.to_multiset().len() == all_kinds().to_multiset().len());
    assert(all_kinds().len() == 7);
    order.lemma_multiset_has_no_duplicates_conv();
    assert forall|kind: Kind| order.contains(kind) by {
        assert(order.to_multiset().count(kind) == 1);
    }
}

/// An order without a kind twice has at most seven places.
pub proof fn lemma_at_most_seven(order: Seq<Kind>)
    requires
        order.no_duplicates(),
    ensures
        order.len() <= 7,
{
    broadcast use vstd::seq_lib::seq_to_set_is_finite;

    let all = all_kinds();
    order.unique_seq_to_set();
    all.lemma_cardinality_of_set();
    assert(order.to_set().subset_of(all.to_set())) by {
        assert forall|kind: Kind| all.to_set().contains(kind) by {
            let i: int = match kind {
                Kind::O => 0,
                Kind::I => 1,
                Kind::S => 2,
                Kind::Z => 3,
                Kind::T => 4,
                Kind::L => 5,
                Kind::J => 6,
            };
            assert(all[i] == kind);
        }
    }
    vstd::set_lib::lemma_len_subset(order.to_set(), all.to_set());
}

/// Seven draws from a full bag bring each of the seven kinds exactly once,
/// and leave the bag full again, with the new filling.
pub proof fn lemma_bag_fairness(bag: Seq<Kind>, fresh: Seq<Kind>)
    requires
        each_kind_once(bag),
    ensures
        each_kind_once(draws(bag, fresh, 7).0),
        draws(bag, fresh, 7).1 == fresh,
{
    lemma_each_kind_once(bag);
    lemma_draws_within(bag, fresh, 6);
    let (drawn, left) = draws(bag, fresh, 6);
    assert(left =~= bag.take(1));
    let all = draws(bag, fresh, 7).0;
    assert(all == drawn.push(left.last()));
    assert(all =~= bag.reverse());
    bag.lemma_reverse_to_multiset();
}

/// While the bag holds more pieces than are drawn, the draws bring its last
/// pieces, the last one first, and leave the others.
pub proof fn lemma_draws_within<T>(bag: Seq<T>, fresh: Seq<T>, n: nat)
    requires
        n < bag.len(),
    ensures
        draws(bag, fresh, n).0 == Seq::new(n, |i: int| bag[bag.len() - 1 - i]),
        draws(bag, fresh, n).1 == bag.take(bag.len() - n),
    decreases n,
{
    if n == 0 {
        assert(draws(bag, fresh, n).0 =~= Seq::new(n, |i: int| bag[bag.len() - 1 - i]));
        assert(bag.take(bag.len() as int) =~= bag);
    } else {
        lemma_draws_within(bag, fresh, (n - 1) as nat);
        let (drawn, left) = draws(bag, fresh, (n - 1) as nat);
        assert(left.len() > 1);
        assert(left.drop_last() =~= bag.take(bag.len() - n));
        assert(drawn.push(left.last()) =~= Seq::new(n, |i: int| bag[bag.len() - 1 - i]));
    }
}

/// A kind may come twice in a row where one filling ends and the next
/// begins: the last piece of one full bag and the first of the next can be
/// of one kind.
pub proof fn lemma_repeat_across_refill()
    ensures
        exists|bag: Seq<Kind>, fresh: Seq<Kind>|
            each_kind_once(bag) && each_kind_once(fresh) && #[trigger] draws(bag, fresh, 8).0[6]
                == draws(bag, fresh, 8).0[7],
{
    let bag = all_kinds();
    let fresh = all_kinds().reverse();
    lemma_all_kinds_once();
    bag.lemma_reverse_to_multiset();
    assert(fresh.to_multiset() =~= bag.to_multiset());
    lemma_bag_fairness(bag, fresh);
    lemma_draws_within(bag, fresh, 6);
    let (drawn6, left6) = draws(bag, fresh, 6);
    let (drawn7, left7) = draws(bag, fresh, 7);
    let (drawn8, left8) = draws(bag, fresh, 8);
    assert(left6 =~= bag.take(1));
    assert(drawn7 == drawn6.push(left6.last()));
    assert(drawn7[6] == Kind::O);
    assert(left7 == fresh);
    assert(drawn8 == drawn7.push(left7.last()));
    assert(fresh.last() == Kind::O);
    assert(drawn8[7] == Kind::O);
    assert(drawn8[6] == drawn7[6]);
}

/// Shuffles `kinds` in place: a call of `rand::seq::SliceRandom::shuffle`
/// with the thread's generator `rand::rng()`. The contract is not proved
/// but taken from the shuffle's source, which does nothing to the slice but
/// swap two of its elements at a time: whatever order comes out, it holds
/// the same kinds as often as before. Nothing is said of which order comes
/// out.
#[verifier::external_body]
fn shuffle(kinds: &mut Vec<Kind>)
    ensures
        final(kinds)@.to_multiset() == old(kinds)@.to_multiset(),
{
    kinds.shuffle(&mut rand::rng());
}

/// The seven kinds in a random order.
pub fn shuffled_kinds() -> (order: Vec<Kind>)
    ensures
        each_kind_once(order@),
{
    let mut kinds = vec![Kind::O, Kind::I, Kind::S, Kind::Z, Kind::T, Kind::L, Kind::J];
    proof {
        assert(kinds@ =~= all_kinds());
        lemma_all_kinds_once();
    }
    shuffle(&mut kinds);
    kinds
}

/// The supply of pieces. The next piece to be drawn is the last of `items`.
#[derive(Default, Debug)]
pub struct Bag {
    pub items: Shapes,
}

impl Bag {
    /// The cells of the pieces in the bag, the next to be drawn last.
    pub open spec fn pieces(&self) -> Seq<Cells> {
        Seq::new(self.items@.len(), |i: int| self.items@[i].cells())
    }

    /// The kinds of the pieces in the bag, where they are fresh pieces.
    pub open spec fn kinds(&self) -> Seq<Kind> {
        kinds_of(self.pieces())
    }

    /// The bag holds at least one piece, only fresh pieces, and no two of
    /// one kind.
    pub open spec fn well_formed(&self) -> bool {
        &&& self.items@.len() >= 1
        &&& self.pieces() == shapes_of(self.kinds())
        &&& self.kinds().no_duplicates()
    }

    /// The bag holds one fresh piece of each kind.
    pub open spec fn is_full(&self) -> bool {
        &&& self.pieces() == shapes_of(self.kinds())
        &&& each_kind_once(self.kinds())
    }

    /// A well-formed bag holds at most seven pieces.
    pub proof fn lemma_well_formed_size(&self)
        requires
            self.well_formed(),
        ensures
            1 <= self.items@.len() <= 7,
    {
        lemma_at_most_seven(self.kinds());
    }

    /// A full bag is well formed and holds seven pieces.
    pub proof fn lemma_full_is_well_formed(&self)
        requires
            self.is_full(),
        ensures
            self.well_formed(),
            self.items@.len() == 7,
    {
        lemma_each_kind_once(self.kinds());
    }

    /// Whether the bag holds at least one piece, only fresh pieces, and no
    /// two of one kind.
    pub fn is_well_formed(&self) -> (sound: bool)
        ensures
            sound == self.well_formed(),
    {
        if self.items.len() < 1 {
            return false;
        }
        let mut found: Vec<Kind> = Vec::new();
        let mut i: usize = 0;
        while i < self.items.len()
            invariant
                i <= self.items@.len(),
                found@.len() == i,
                forall|k: int| 0 <= k < i ==> self.pieces()[k] == (#[trigger] found@[k]).shape(),
                forall|k: int| 0 <= k < i ==> self.kinds()[k] == #[trigger] found@[k],
                forall|a: int, b: int| 0 <= a < b < i ==> found@[a] != found@[b],
            decreases self.items@.len() - i,
        {
            match self.items[i].kind() {
                None => {
                    proof {
                        let piece = self.pieces()[i as int];
                        assert(piece == self.items@[i as int].cells());
                        assert(self.items@[i as int].is_kind(self.kinds()[i as int])
                            == (piece == shapes_of(self.kinds())[i as int]));
                    }
                    return false;
                },
                Some(kind) => {
                    proof {
                        let piece = self.pieces()[i as int];
                        assert(piece == self.items@[i as int].cells());
                        lemma_shapes_differ(kind_of(piece), kind);
                        assert(self.kinds().len() == self.items@.len());
                        assert(self.kinds()[i as int] == kind);
                    }
                    let mut j: usize = 0;
                    while j < i
                        invariant
                            j <= i,
                            i < self.items@.len(),
                            found@.len() == i,
                            self.kinds().len() == self.items@.len(),
                            self.kinds()[i as int] == kind,
                            forall|k: int| 0 <= k < i ==> self.kinds()[k] == #[trigger] found@[k],
                            forall|a: int| 0 <= a < j ==> found@[a] != kind,
                        decreases i - j,
                    {
                        if found[j] == kind {
                            proof {
                                assert(self.kinds()[j as int] == self.kinds()[i as int]);
                            }
                            return false;
                        }
                        j += 1;
                    }
                    found.push(kind);
                },
            }
            i += 1;
        }
        proof {
            assert(self.kinds() =~= found@);
            assert(self.pieces() =~= shapes_of(self.kinds()));
        }
        true
    }

    /// A full bag in a random order.
    pub fn new() -> (bag: Self)
        ensures
            bag.is_full(),
    {
        let default_items = Bag::create_items();

        Self { items: default_items }
    }

    /// A bag that holds fresh pieces of the kinds in `order`, the last of
    /// them to be drawn first.
    pub fn from_kinds(order: &Vec<Kind>) -> (bag: Self)
        ensures
            bag.pieces() == shapes_of(order@),
            bag.kinds() == order@,
    {
        let items = Bag::pieces_of(order);
        let bag = Self { items };
        proof {
            assert(bag.pieces() =~= shapes_of(order@));
            lemma_kinds_of_shapes(order@);
        }
        bag
    }

    /// The piece that the next draw brings.
    pub fn peek_next(&self) -> (next: Shape)
        requires
            self.items@.len() >= 1,
        ensures
            next.cells() == self.pieces().last(),
    {
        self.items[self.items.len() - 1].clone()
    }

    /// Draws a piece: takes the last piece out of the bag and fills the bag
    /// anew, in a random order, where that was its last. Returns the piece
    /// drawn and a copy of the piece that the next draw brings.
    pub fn get_item(&mut self) -> (drawn: (Shape, Shape))
        requires
            old(self).items@.len() >= 1,
        ensures
            drawn.0.cells() == old(self).pieces().last(),
            final(self).pieces() == after_draw(old(self).pieces(), final(self).pieces()),
            final(self).kinds() == after_draw(old(self).kinds(), final(self).kinds()),
            old(self).items@.len() == 1 ==> final(self).is_full(),
            old(self).well_formed() ==> final(self).well_formed(),
            drawn.1.cells() == final(self).pieces().last(),
    {
        let ghost before = self.pieces();
        let ghost sound = self.well_formed();
        let shape = self.items.pop().unwrap();

        if self.items.len() < 1 {
            self.refill();
            proof {
                self.lemma_full_is_well_formed();
            }
        } else {
            proof {
                assert(self.pieces() =~= before.drop_last());
                assert(self.kinds() =~= kinds_of(before).drop_last());
                if sound {
                    lemma_part_of_bag(before);
                }
            }
        }

        let next_item = self.peek_next();

        (shape, next_item)
    }

    /// Draws a piece as [`Bag::get_item`] does, but fills an emptied bag with
    /// fresh pieces of the kinds in `fresh`, in that order.
    pub fn draw(&mut self, fresh: &Vec<Kind>) -> (drawn: (Shape, Shape))
        requires
            old(self).items@.len() >= 1,
            fresh@.len() >= 1,
        ensures
            drawn.0.cells() == old(self).pieces().last(),
            final(self).pieces() == after_draw(old(self).pieces(), shapes_of(fresh@)),
            final(self).kinds() == after_draw(old(self).kinds(), fresh@),
            old(self).well_formed() && each_kind_once(fresh@) ==> final(self).well_formed(),
            drawn.1.cells() == final(self).pieces().last(),
    {
        let ghost before = self.pieces();
        let ghost sound = self.well_formed();
        let shape = self.items.pop().unwrap();

        if self.items.len() < 1 {
            self.refill_with(fresh);
            proof {
                if each_kind_once(fresh@) {
                    self.lemma_full_is_well_formed();
                }
            }
        } else {
            proof {
                assert(self.pieces() =~= before.drop_last());
                assert(self.kinds() =~= kinds_of(before).drop_last());
                if sound {
                    lemma_part_of_bag(before);
                }
            }
        }

        let next_item = self.peek_next();

        (shape, next_item)
    }

    /// Fills the bag anew: one fresh piece of each kind, in a random order.
    pub fn refill(&mut self)
        ensures
            final(self).is_full(),
    {
        self.items = Bag::create_items();
    }

    /// Fills the bag anew with fresh pieces of the kinds in `order`, the last
    /// of them to be drawn first.
    pub fn refill_with(&mut self, order: &Vec<Kind>)
        ensures
            final(self).pieces() == shapes_of(order@),
            final(self).kinds() == order@,
            each_kind_once(order@) ==> final(self).is_full(),
    {
        self.items = Bag::pieces_of(order);
        proof {
            assert(self.pieces() =~= shapes_of(order@));
            lemma_kinds_of_shapes(order@);
        }
    }

    /// Fresh pieces of the kinds in `order`, in that order.
    fn pieces_of(order: &Vec<Kind>) -> (items: Shapes)
        ensures
            items@.len() == order@.len(),
            forall|i: int| 0 <= i < items@.len() ==> (#[trigger] items@[i]).is_kind(order@[i]),
    {
        let mut items: Shapes = Vec::new();
        let mut i: usize = 0;
        while i < order.len()
            invariant
                i <= order@.len(),
                items@.len() == i,
                forall|k: int| 0 <= k < i ==> (#[trigger] items@[k]).is_kind(order@[k]),
            decreases order@.len() - i,
        {
            items.push(Tetromino::create(order[i]));
            i += 1;
        }
        items
    }

    /// One fresh piece of each kind, in a random order.
    fn create_items() -> (items: Shapes)
        ensures
            (Bag { items }).is_full(),
    {
        let kinds = shuffled_kinds();
        let items = Bag::pieces_of(&kinds);
        proof {
            let bag = Bag { items };
            assert(bag.pieces() =~= shapes_of(kinds@));
            lemma_kinds_of_shapes(kinds@);
        }
        items
    }
}

/// What is left of a bag of fresh pieces, no two of one kind, when its last
/// piece is taken is again such a bag.
proof fn lemma_part_of_bag(pieces: Seq<Cells>)
    requires
        pieces == shapes_of(kinds_of(pieces)),
        kinds_of(pieces).no_duplicates(),
        pieces.len() >= 1,
    ensures
        pieces.drop_last() == shapes_of(kinds_of(pieces.drop_last())),
        kinds_of(pieces.drop_last()).no_duplicates(),
{
    let rest = pieces.drop_last();
    assert(kinds_of(rest) =~= kinds_of(pieces).drop_last());
    assert forall|i: int| 0 <= i < rest.len() implies #[trigger] rest[i] == shapes_of(kinds_of(rest))[i] by {
        assert(rest[i] == pieces[i]);
        assert(pieces[i] == shapes_of(kinds_of(pieces))[i]);
    }
    assert(rest =~= shapes_of(kinds_of(rest)));
}

} // verus!
