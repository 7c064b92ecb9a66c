use vstd::prelude::*;
use crate::lexorder::{lex_lt, span_less, group_lex};

verus! {

broadcast use group_lex;

/// A counted triplet, named by its span in the normalized buffer; the span
/// is that of its first occurrence. The empty sentinel has count 0.
#[derive(Debug, Clone, Copy, PartialEq, Eq, Structural)]
pub struct Triplet {
    pub start: usize,
    pub end: usize,
    pub count: u32,
}

/// The empty sentinel entry.
pub open spec fn sentinel() -> Triplet {
    Triplet { start: 0, end: 0, count: 0 }
}

impl Triplet {
    /// The empty sentinel entry.
    pub fn new() -> (r: Triplet)
        ensures
            r == sentinel(),
    {
        Triplet { start: 0, end: 0, count: 0 }
    }
}

/// The text of an entry.
pub open spec fn entry_text(bytes: Seq<u8>, e: Triplet) -> Seq<u8> {
    bytes.subrange(e.start as int, e.end as int)
}

/// The entry's span lies within the buffer.
pub open spec fn span_ok(bytes: Seq<u8>, e: Triplet) -> bool {
    e.start <= e.end <= bytes.len()
}

/// All three spans of a result lie within the buffer.
pub open spec fn spans3_ok(bytes: Seq<u8>, t: Top3Triplets) -> bool {
    span_ok(bytes, t.gold) && span_ok(bytes, t.silver) && span_ok(bytes, t.bronze)
}

/// The ranking order: more occurrences first, then the smaller text.
pub open spec fn beats(bytes: Seq<u8>, a: Triplet, b: Triplet) -> bool {
    a.count > b.count || (a.count == b.count && lex_lt(entry_text(bytes, a), entry_text(bytes, b)))
}

/// A ranked (gold, silver, bronze) triple.
#[derive(Debug, Clone, Copy, PartialEq, Eq, Structural)]
pub struct Top3Triplets {
    pub gold: Triplet,
    pub silver: Triplet,
    pub bronze: Triplet,
}

/// Three empty sentinels.
pub open spec fn empty_top3() -> Top3Triplets {
    Top3Triplets { gold: sentinel(), silver: sentinel(), bronze: sentinel() }
}

/// One step of the shift-and-insert rule.
pub open spec fn insert_spec(bytes: Seq<u8>, t: Top3Triplets, c: Triplet) -> Top3Triplets {
    if beats(bytes, c, t.gold) {
        Top3Triplets { gold: c, silver: t.gold, bronze: t.silver }
    } else if beats(bytes, c, t.silver) {
        Top3Triplets { gold: t.gold, silver: c, bronze: t.silver }
    } else if beats(bytes, c, t.bronze) {
        Top3Triplets { gold: t.gold, silver: t.silver, bronze: c }
    } else {
        t
    }
}

/// Inserts each entry of `s` in turn.
pub open spec fn rank_all(bytes: Seq<u8>, t: Top3Triplets, s: Seq<Triplet>) -> Top3Triplets
    decreases s.len(),
{
    if s.len() == 0 {
        t
    } else {
        insert_spec(bytes, rank_all(bytes, t, s.drop_last()), s.last())
    }
}

/// The three entries of a result, best first.
pub open spec fn podium(t: Top3Triplets) -> Seq<Triplet> {
    seq![t.gold, t.silver, t.bronze]
}

/// Gold is not beaten by silver, nor silver by bronze.
pub open spec fn ordered(bytes: Seq<u8>, t: Top3Triplets) -> bool {
    !beats(bytes, t.silver, t.gold) && !beats(bytes, t.bronze, t.silver)
}

/// Inserting never lowers the gold entry and keeps the triple ordered;
/// the new gold is beaten by none of the inserted entries.
pub proof fn lemma_rank_all(bytes: Seq<u8>, t: Top3Triplets, s: Seq<Triplet>)
    requires
        ordered(bytes, t),
    ensures
        ordered(bytes, rank_all(bytes, t, s)),
        !beats(bytes, t.gold, rank_all(bytes, t, s).gold),
        rank_all(bytes, t, s).gold.count >= t.gold.count,
        forall|k: int| 0 <= k < s.len() ==> !beats(bytes, #[trigger] s[k], rank_all(bytes, t, s).gold),
    decreases s.len(),
{
    if s.len() > 0 {
        lemma_rank_all(bytes, t, s.drop_last());
        let r = rank_all(bytes, t, s.drop_last());
        assert forall|k: int| 0 <= k < s.len() implies !beats(bytes, #[trigger] s[k], rank_all(bytes, t, s).gold) by {
            if k < s.len() - 1 {
                assert(s.drop_last()[k] == s[k]);
            }
        }
    }
}

/// Every entry of the result of `rank_all` was on the starting podium or in `s`;
/// a property held by all of those holds of the result.
pub proof fn lemma_rank_members(bytes: Seq<u8>, t: Top3Triplets, s: Seq<Triplet>, p: spec_fn(Triplet) -> bool)
    requires
        p(t.gold),
        p(t.silver),
        p(t.bronze),
        forall|k: int| 0 <= k < s.len() ==> p(#[trigger] s[k]),
    ensures
        p(rank_all(bytes, t, s).gold),
        p(rank_all(bytes, t, s).silver),
        p(rank_all(bytes, t, s).bronze),
    decreases s.len(),
{
    if s.len() > 0 {
        assert forall|k: int| 0 <= k < s.drop_last().len() implies p(#[trigger] s.drop_last()[k]) by {
            assert(s.drop_last()[k] == s[k]);
        }
        lemma_rank_members(bytes, t, s.drop_last(), p);
        assert(p(s[s.len() - 1]));
    }
}

/// `y` is on the podium of `t`, or ranks no higher than its bronze entry.
pub open spec fn keeps(bytes: Seq<u8>, t: Top3Triplets, y: Triplet) -> bool {
    y == t.gold || y == t.silver || y == t.bronze || !beats(bytes, y, t.bronze)
}

/// An entry with at least one occurrence.
pub open spec fn occurs(e: Triplet) -> bool {
    e.count >= 1
}

/// The real entries of `u` are told apart by `f`.
pub open spec fn distinct_by(u: Seq<Triplet>, f: spec_fn(Triplet) -> Seq<u8>) -> bool {
    forall|i: int, j: int|
        0 <= i < j < u.len() && occurs(#[trigger] u[i]) && occurs(#[trigger] u[j]) ==> f(u[i]) != f(u[j])
}

proof fn lemma_insert_keeps(bytes: Seq<u8>, t: Top3Triplets, c: Triplet, y: Triplet)
    requires
        ordered(bytes, t),
        keeps(bytes, t, y),
    ensures
        keeps(bytes, insert_spec(bytes, t, c), y),
        keeps(bytes, insert_spec(bytes, t, c), c),
        !beats(bytes, t.bronze, insert_spec(bytes, t, c).bronze),
        ordered(bytes, insert_spec(bytes, t, c)),
{
}

/// After inserting `s`, every entry of the starting podium and of `s` is on
/// the podium or ranks no higher than bronze; bronze never falls.
pub proof fn lemma_rank_keeps(bytes: Seq<u8>, t: Top3Triplets, s: Seq<Triplet>)
    requires
        ordered(bytes, t),
    ensures
        keeps(bytes, rank_all(bytes, t, s), t.gold),
        keeps(bytes, rank_all(bytes, t, s), t.silver),
        keeps(bytes, rank_all(bytes, t, s), t.bronze),
        forall|k: int| 0 <= k < s.len() ==> keeps(bytes, rank_all(bytes, t, s), #[trigger] s[k]),
        !beats(bytes, t.bronze, rank_all(bytes, t, s).bronze),
        ordered(bytes, rank_all(bytes, t, s)),
    decreases s.len(),
{
    if s.len() > 0 {
        let d = s.drop_last();
        lemma_rank_keeps(bytes, t, d);
        lemma_rank_all(bytes, t, d);
        let r = rank_all(bytes, t, d);
        let c = s.last();
        lemma_insert_keeps(bytes, r, c, t.gold);
        lemma_insert_keeps(bytes, r, c, t.silver);
        lemma_insert_keeps(bytes, r, c, t.bronze);
        assert forall|k: int| 0 <= k < s.len() implies keeps(bytes, rank_all(bytes, t, s), #[trigger] s[k]) by {
            if k < s.len() - 1 {
                assert(d[k] == s[k]);
                lemma_insert_keeps(bytes, r, c, s[k]);
            } else {
                assert(s[k] == c);
            }
        }
    }
}

/// Where the starting podium and `s` hold real entries told apart by `f`,
/// so does the resulting podium.
pub proof fn lemma_rank_distinct(bytes: Seq<u8>, t: Top3Triplets, s: Seq<Triplet>, f: spec_fn(Triplet) -> Seq<u8>)
    requires
        distinct_by(podium(t) + s, f),
    ensures
        distinct_by(podium(rank_all(bytes, t, s)), f),
        forall|k: int|
            0 <= k < 3 && occurs(#[trigger] podium(rank_all(bytes, t, s))[k]) ==> exists|i: int|
                0 <= i < (podium(t) + s).len() && (podium(t) + s)[i] == podium(rank_all(bytes, t, s))[k],
    decreases s.len(),
{
    let u = podium(t) + s;
    if s.len() == 0 {
        assert(u =~= podium(t));
        assert forall|k: int| 0 <= k < 3 && occurs(#[trigger] podium(rank_all(bytes, t, s))[k]) implies exists|i: int|
            0 <= i < u.len() && u[i] == podium(rank_all(bytes, t, s))[k] by {
            assert(u[k] == podium(rank_all(bytes, t, s))[k]);
        }
    } else {
        let d = s.drop_last();
        let ud = podium(t) + d;
        assert(ud =~= u.drop_last());
        assert forall|i: int, j: int|
            0 <= i < j < ud.len() && occurs(#[trigger] ud[i]) && occurs(#[trigger] ud[j]) implies f(ud[i]) != f(
            ud[j]) by {
            assert(ud[i] == u[i] && ud[j] == u[j]);
        }
        lemma_rank_distinct(bytes, t, d, f);
        let r = rank_all(bytes, t, d);
        let c = s.last();
        let n = rank_all(bytes, t, s);
        assert(u[u.len() - 1] == c);
        assert(n == insert_spec(bytes, r, c));
        // each real slot of r sits at an index of u before c
        assert forall|k: int| 0 <= k < 3 && occurs(#[trigger] podium(r)[k]) && occurs(c) implies f(podium(r)[k]) != f(c) by {
            let i = choose|i: int| 0 <= i < ud.len() && ud[i] == podium(r)[k];
            assert(u[i] == podium(r)[k]);
        }
        assert(podium(r)[0] == r.gold && podium(r)[1] == r.silver && podium(r)[2] == r.bronze);
        assert(podium(n)[0] == n.gold && podium(n)[1] == n.silver && podium(n)[2] == n.bronze);
        assert forall|i: int, j: int|
            0 <= i < j < 3 && occurs(#[trigger] podium(n)[i]) && occurs(#[trigger] podium(n)[j]) implies f(podium(n)[i]) != f(
            podium(n)[j]) by {
            assert(podium(r)[0] == r.gold && podium(r)[1] == r.silver && podium(r)[2] == r.bronze);
        }
        assert forall|k: int| 0 <= k < 3 && occurs(#[trigger] podium(n)[k]) implies exists|i: int|
            0 <= i < u.len() && u[i] == podium(n)[k] by {
            if podium(n)[k] == c {
                assert(u[u.len() - 1] == podium(n)[k]);
            } else {
                let m: int = if podium(n)[k] == r.gold { 0 } else if podium(n)[k] == r.silver { 1 } else { 2 };
                assert(podium(r)[m] == podium(n)[k]);
                let i = choose|i: int| 0 <= i < ud.len() && ud[i] == podium(r)[m];
                assert(u[i] == podium(n)[k]);
            }
        }
    }
}

impl Top3Triplets {
    /// Three empty sentinels.
    pub fn empty() -> (r: Top3Triplets)
        ensures
            r == empty_top3(),
    {
        Top3Triplets { gold: Triplet::new(), silver: Triplet::new(), bronze: Triplet::new() }
    }

    /// Whether `c` ranks above `e`.
    fn ranks_above(bytes: &Vec<u8>, c: Triplet, e: Triplet) -> (r: bool)
        requires
            span_ok(bytes@, c),
            span_ok(bytes@, e),
        ensures
            r == beats(bytes@, c, e),
    {
        c.count > e.count || (c.count == e.count && span_less(bytes, (c.start, c.end), (e.start, e.end)))
    }

    /// Places `c` by the shift-and-insert rule.
    pub fn insert(&mut self, bytes: &Vec<u8>, c: Triplet)
        requires
            spans3_ok(bytes@, *old(self)),
            span_ok(bytes@, c),
        ensures
            *final(self) == insert_spec(bytes@, *old(self), c),
            spans3_ok(bytes@, *final(self)),
    {
        if Self::ranks_above(bytes, c, self.gold) {
            self.bronze = self.silver;
            self.silver = self.gold;
            self.gold = c;
        } else if Self::ranks_above(bytes, c, self.silver) {
            self.bronze = self.silver;
            self.silver = c;
        } else if Self::ranks_above(bytes, c, self.bronze) {
            self.bronze = c;
        }
    }

    /// Merges another result into this one: its gold, then silver, then bronze.
    pub fn merge(&mut self, bytes: &Vec<u8>, other: &Top3Triplets)
        requires
            spans3_ok(bytes@, *old(self)),
            spans3_ok(bytes@, *other),
        ensures
            *final(self) == rank_all(bytes@, *old(self), podium(*other)),
            spans3_ok(bytes@, *final(self)),
    {
        let ghost p = podium(*other);
        assert(p.drop_last().drop_last().drop_last() =~= Seq::<Triplet>::empty());
        assert(p.drop_last().drop_last() =~= seq![other.gold]);
        assert(p.drop_last() =~= seq![other.gold, other.silver]);
        self.insert(bytes, other.gold);
        self.insert(bytes, other.silver);
        self.insert(bytes, other.bronze);
        proof {
            reveal_with_fuel(rank_all, 4);
        }
    }
}

/// Ranks counted entries by the shift-and-insert rule, in the order given.
pub fn find_top3triplets_from_hashmap(bytes: &Vec<u8>, entries: &Vec<Triplet>) -> (r: Top3Triplets)
    requires
        forall|k: int| 0 <= k < entries@.len() ==> span_ok(bytes@, #[trigger] entries@[k]),
    ensures
        r == rank_all(bytes@, empty_top3(), entries@),
{
    let mut winners = Top3Triplets::empty();
    let mut i: usize = 0;
    while i < entries.len()
        invariant
            0 <= i <= entries@.len(),
            forall|k: int| 0 <= k < entries@.len() ==> span_ok(bytes@, #[trigger] entries@[k]),
            winners == rank_all(bytes@, empty_top3(), entries@.take(i as int)),
            spans3_ok(bytes@, winners),
        decreases entries@.len() - i,
    {
        assert(entries@.take(i + 1).drop_last() =~= entries@.take(i as int));
        winners.insert(bytes, entries[i]);
        i = i + 1;
    }
    assert(entries@.take(i as int) =~= entries@);
    winners
}

} // verus!
