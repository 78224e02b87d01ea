//! Chaining loose boundary pieces into closed loops.
//!
//! The pieces of a region's boundary arrive in no particular order and each
//! may run either way. Starting from the first piece, the chain repeatedly
//! takes the first unused piece one of whose ends meets the chain's free end,
//! running it forwards when its start meets and backwards when only its
//! finish does, until the free end meets the chain's own start. If that
//! fails with the first piece run forwards, it is tried run backwards.
//!
//! Whether two ends meet is a measurement, and the caller makes it: an
//! [`EndContacts`] holds the answers, end against end.

use vstd::prelude::*;

verus! {

/// Which ends of which boundary pieces meet, as measured by the caller.
///
/// Piece `i` has two ends: its start, numbered `2 * i`, and its finish,
/// numbered `2 * i + 1`. Entry `[a][b]` says whether end `a` lies within
/// joining distance of end `b`.
pub struct EndContacts {
    pieces: usize,
    touching: Vec<Vec<bool>>,
}

/// The end numbered for piece `id`: its finish when `finish` holds, else its
/// start.
pub open spec fn end_of(id: int, finish: bool) -> int {
    if finish {
        2 * id + 1
    } else {
        2 * id
    }
}

/// The end a chain leaves a piece by: its finish when the piece runs
/// forwards, its start when it runs backwards.
pub open spec fn exit_end(link: (usize, bool)) -> int {
    end_of(link.0 as int, link.1)
}

/// The end a chain enters a piece by.
pub open spec fn entry_end(link: (usize, bool)) -> int {
    end_of(link.0 as int, !link.1)
}

impl EndContacts {
    /// How many pieces the table describes.
    pub closed spec fn count(self) -> nat {
        self.pieces as nat
    }

    /// The table, end against end.
    pub closed spec fn matrix(self) -> Seq<Seq<bool>> {
        self.touching@.map_values(|row: Vec<bool>| row@)
    }

    /// A square table over every end of every piece.
    pub open spec fn wf(self) -> bool {
        &&& 2 * self.count() <= usize::MAX
        &&& self.matrix().len() == 2 * self.count()
        &&& forall|a: int| 0 <= a < 2 * self.count() ==> #[trigger] self.matrix()[a].len() == 2 * self.count()
    }

    /// A table for `pieces` pieces, or `None` when `touching` is not a square
    /// table with one row and one column per end.
    pub fn new(pieces: usize, touching: Vec<Vec<bool>>) -> (made: Option<Self>)
        ensures
            made is Some <==> (2 * pieces <= usize::MAX && touching@.len() == 2 * pieces && forall|
                a: int,
            | 0 <= a < 2 * pieces ==> #[trigger] touching@[a]@.len() == 2 * pieces),
            made matches Some(table) ==> table.wf() && table.count() == pieces && table.matrix()
                == touching@.map_values(|row: Vec<bool>| row@),
    {
        if pieces > usize::MAX / 2 {
            return None;
        }
        let ends = 2 * pieces;
        if touching.len() != ends {
            return None;
        }
        let mut a: usize = 0;
        while a < ends
            invariant
                ends == 2 * pieces,
                touching@.len() == ends,
                a <= ends,
                forall|b: int| 0 <= b < a ==> #[trigger] touching@[b]@.len() == ends,
            decreases ends - a,
        {
            if touching[a].len() != ends {
                return None;
            }
            a = a + 1;
        }
        let made = EndContacts { pieces, touching };
        assert forall|b: int| 0 <= b < 2 * made.count() implies #[trigger] made.matrix()[b].len() == 2
            * made.count() by {
            assert(made.matrix()[b] == made.touching@[b]@);
        }
        Some(made)
    }

    /// How many pieces the table describes.
    pub fn pieces(&self) -> (count: usize)
        ensures
            count == self.count(),
    {
        self.pieces
    }

    /// Whether end `a` meets end `b`.
    pub fn touches(&self, a: usize, b: usize) -> (meet: bool)
        requires
            self.wf(),
            a < 2 * self.count(),
            b < 2 * self.count(),
        ensures
            meet == self.matrix()[a as int][b as int],
    {
        assert(self.matrix()[a as int] == self.touching@[a as int]@);
        self.touching[a][b]
    }
}

/// Whether piece `id` already runs somewhere in `order`.
pub open spec fn is_used(order: Seq<(usize, bool)>, id: int) -> bool {
    exists|k: int| 0 <= k < order.len() && order[k].0 == id
}

/// The first piece at or after position `from` of `pending` that is not yet
/// in `order` and has an end meeting the chain's free end: forwards when its
/// start meets, else backwards when its finish does.
pub open spec fn first_link(
    m: Seq<Seq<bool>>,
    pending: Seq<usize>,
    order: Seq<(usize, bool)>,
    from: int,
) -> Option<(usize, bool)>
    decreases pending.len() - from,
{
    if from < 0 || from >= pending.len() {
        None
    } else {
        let id = pending[from];
        let head = exit_end(order.last());
        if !is_used(order, id as int) && m[head][end_of(id as int, false)] {
            Some((id, true))
        } else if !is_used(order, id as int) && m[head][end_of(id as int, true)] {
            Some((id, false))
        } else {
            first_link(m, pending, order, from + 1)
        }
    }
}

/// The chain grown from `order` until its free end meets its start, or
/// `None` when it runs out of pieces that join first.
pub open spec fn walk(m: Seq<Seq<bool>>, pending: Seq<usize>, order: Seq<(usize, bool)>) -> Option<
    Seq<(usize, bool)>,
>
    decreases pending.len() - order.len(),
{
    if m[exit_end(order.last())][entry_end(order[0])] {
        Some(order)
    } else if order.len() >= pending.len() {
        None
    } else {
        match first_link(m, pending, order, 0) {
            None => None,
            Some(link) => walk(m, pending, order.push(link)),
        }
    }
}

/// The closed chain through the pieces of `pending` that starts with its
/// first piece: run forwards if that closes, otherwise run backwards.
pub open spec fn chain_order(m: Seq<Seq<bool>>, pending: Seq<usize>) -> Option<Seq<(usize, bool)>> {
    if pending.len() == 0 {
        None
    } else {
        match walk(m, pending, seq![(pending[0], true)]) {
            Some(order) => Some(order),
            None => walk(m, pending, seq![(pending[0], false)]),
        }
    }
}

/// Every piece of the table, in order.
pub open spec fn all_pieces(count: nat) -> Seq<usize> {
    Seq::new(count, |i: int| i as usize)
}

proof fn lemma_used_push(order: Seq<(usize, bool)>, link: (usize, bool), id: int)
    ensures
        is_used(order.push(link), id) <==> (is_used(order, id) || link.0 == id),
{
    let grown = order.push(link);
    if is_used(order, id) {
        let k = choose|k: int| 0 <= k < order.len() && order[k].0 == id;
        assert(grown[k] == order[k]);
    }
    if link.0 == id {
        assert(grown[order.len() as int] == link);
    }
    if is_used(grown, id) {
        let k = choose|k: int| 0 <= k < grown.len() && grown[k].0 == id;
        if k < order.len() {
            assert(grown[k] == order[k]);
        }
    }
}

/// The first joining piece of `pending`, scanning from its start.
fn next_link(
    table: &EndContacts,
    pending: &Vec<usize>,
    order: &Vec<(usize, bool)>,
    used: &Vec<bool>,
) -> (link: Option<(usize, bool)>)
    requires
        table.wf(),
        order@.len() > 0,
        order@.last().0 < table.count(),
        forall|p: int| 0 <= p < pending@.len() ==> (#[trigger] pending@[p]) < table.count(),
        used@.len() == table.count(),
        forall|id: int| 0 <= id < table.count() ==> used@[id] == is_used(order@, id),
    ensures
        link == first_link(table.matrix(), pending@, order@, 0),
{
    let last = order[order.len() - 1];
    let head = if last.1 {
        2 * last.0 + 1
    } else {
        2 * last.0
    };
    let mut p: usize = 0;
    while p < pending.len()
        invariant
            table.wf(),
            p <= pending@.len(),
            head == exit_end(order@.last()),
            head < 2 * table.count(),
            forall|q: int| 0 <= q < pending@.len() ==> (#[trigger] pending@[q]) < table.count(),
            used@.len() == table.count(),
            forall|id: int| 0 <= id < table.count() ==> used@[id] == is_used(order@, id),
            first_link(table.matrix(), pending@, order@, 0) == first_link(
                table.matrix(),
                pending@,
                order@,
                p as int,
            ),
        decreases pending@.len() - p,
    {
        let id = pending[p];
        if !used[id] {
            if table.touches(head, 2 * id) {
                return Some((id, true));
            }
            if table.touches(head, 2 * id + 1) {
                return Some((id, false));
            }
        }
        p = p + 1;
    }
    None
}

/// Grows a chain from a single first piece running the given way, as
/// [`walk`] describes.
fn walk_from(table: &EndContacts, pending: &Vec<usize>, first: (usize, bool)) -> (chain: Option<
    Vec<(usize, bool)>,
>)
    requires
        table.wf(),
        pending@.len() >= 1,
        first.0 < table.count(),
        forall|p: int| 0 <= p < pending@.len() ==> (#[trigger] pending@[p]) < table.count(),
    ensures
        match chain {
            Some(order) => walk(table.matrix(), pending@, seq![first]) == Some(order@),
            None => walk(table.matrix(), pending@, seq![first]) is None,
        },
{
    let n = table.pieces();
    let mut used: Vec<bool> = Vec::new();
    let mut i: usize = 0;
    while i < n
        invariant
            n == table.count(),
            i <= n,
            used@.len() == i,
            forall|id: int| 0 <= id < i ==> used@[id] == (id == first.0),
        decreases n - i,
    {
        used.push(i == first.0);
        i = i + 1;
    }
    let mut order: Vec<(usize, bool)> = Vec::new();
    order.push(first);
    assert forall|id: int| 0 <= id < table.count() implies used@[id] == is_used(order@, id) by {
        if id == first.0 {
            assert(order@[0] == first);
        }
    }
    loop
        invariant
            table.wf(),
            n == table.count(),
            1 <= order@.len() <= pending@.len(),
            order@[0] == first,
            forall|k: int| 0 <= k < order@.len() ==> (#[trigger] order@[k]).0 < table.count(),
            forall|p: int| 0 <= p < pending@.len() ==> (#[trigger] pending@[p]) < table.count(),
            used@.len() == table.count(),
            forall|id: int| 0 <= id < table.count() ==> used@[id] == is_used(order@, id),
            walk(table.matrix(), pending@, order@) == walk(table.matrix(), pending@, seq![first]),
        decreases pending@.len() - order@.len(),
    {
        let last = order[order.len() - 1];
        let head = if last.1 {
            2 * last.0 + 1
        } else {
            2 * last.0
        };
        let start = if first.1 {
            2 * first.0
        } else {
            2 * first.0 + 1
        };
        if table.touches(head, start) {
            return Some(order);
        }
        if order.len() >= pending.len() {
            return None;
        }
        match next_link(table, pending, &order, &used) {
            None => {
                return None;
            },
            Some(link) => {
                proof {
                    lemma_first_link_is_unused_pending(table.matrix(), pending@, order@, 0);
                }
                let ghost before = order@;
                order.push(link);
                used.set(link.0, true);
                proof {
                    assert forall|id: int| 0 <= id < table.count() implies used@[id] == is_used(
                        order@,
                        id,
                    ) by {
                        lemma_used_push(before, link, id);
                    }
                    assert(order@[0] == before[0]);
                }
            },
        }
    }
}

/// What [`first_link`] finds is a piece of `pending`, not yet in the chain,
/// whose chosen end meets the chain's free end.
proof fn lemma_first_link_is_unused_pending(
    m: Seq<Seq<bool>>,
    pending: Seq<usize>,
    order: Seq<(usize, bool)>,
    from: int,
)
    ensures
        first_link(m, pending, order, from) matches Some(link) ==> {
            &&& pending.contains(link.0)
            &&& !is_used(order, link.0 as int)
            &&& m[exit_end(order.last())][entry_end(link)]
        },
    decreases pending.len() - from,
{
    if 0 <= from < pending.len() {
        lemma_first_link_is_unused_pending(m, pending, order, from + 1);
        let id = pending[from];
        if first_link(m, pending, order, from) == Some((id, true)) || first_link(
            m,
            pending,
            order,
            from,
        ) == Some((id, false)) {
            assert(pending[from] == id);
        }
    }
}

/// The closed chain through the given pieces that starts with the first of
/// them, as [`chain_order`] describes; `None` when neither direction of the
/// first piece closes.
pub fn chain_within(table: &EndContacts, pending: &Vec<usize>) -> (chain: Option<Vec<(usize, bool)>>)
    requires
        table.wf(),
        forall|p: int| 0 <= p < pending@.len() ==> (#[trigger] pending@[p]) < table.count(),
    ensures
        match chain {
            Some(order) => chain_order(table.matrix(), pending@) == Some(order@),
            None => chain_order(table.matrix(), pending@) is None,
        },
{
    if pending.len() == 0 {
        return None;
    }
    let first = pending[0];
    match walk_from(table, pending, (first, true)) {
        Some(order) => Some(order),
        None => walk_from(table, pending, (first, false)),
    }
}

/// Orders the boundary pieces into one closed ring starting from the first
/// piece: each entry names a piece and whether it runs forwards. `None` when
/// the first piece does not close into a ring either way.
pub fn closed_curve_order(table: &EndContacts) -> (chain: Option<Vec<(usize, bool)>>)
    requires
        table.wf(),
    ensures
        match chain {
            Some(order) => chain_order(table.matrix(), all_pieces(table.count())) == Some(order@),
            None => chain_order(table.matrix(), all_pieces(table.count())) is None,
        },
{
    let n = table.pieces();
    let mut pending: Vec<usize> = Vec::new();
    let mut i: usize = 0;
    while i < n
        invariant
            n == table.count(),
            i <= n,
            pending@ == all_pieces(i as nat),
        decreases n - i,
    {
        pending.push(i);
        assert(pending@ =~= all_pieces((i + 1) as nat));
        i = i + 1;
    }
    chain_within(table, &pending)
}


/// A chain of pieces drawn from `pending`: none repeated, and each one's
/// exit end meeting the next one's entry end.
pub open spec fn is_chain(m: Seq<Seq<bool>>, pending: Seq<usize>, order: Seq<(usize, bool)>) -> bool {
    &&& order.len() >= 1
    &&& forall|k: int| 0 <= k < order.len() ==> pending.contains(#[trigger] order[k].0)
    &&& forall|j: int, k: int| 0 <= j < k < order.len() ==> #[trigger] order[j].0 != #[trigger] order[k].0
    &&& forall|k: int| 0 <= k < order.len() - 1 ==> #[trigger] m[exit_end(order[k])][entry_end(order[k + 1])]
}

/// A chain whose last exit end meets its first entry end: a closed ring.
pub open spec fn is_closed_chain(m: Seq<Seq<bool>>, pending: Seq<usize>, order: Seq<(usize, bool)>) -> bool {
    &&& is_chain(m, pending, order)
    &&& m[exit_end(order.last())][entry_end(order[0])]
}

proof fn lemma_walk_closes(m: Seq<Seq<bool>>, pending: Seq<usize>, order: Seq<(usize, bool)>)
    requires
        is_chain(m, pending, order),
    ensures
        walk(m, pending, order) matches Some(ring) ==> is_closed_chain(m, pending, ring)
            && ring.len() >= order.len() && ring.subrange(0, order.len() as int) == order,
    decreases pending.len() - order.len(),
{
    if m[exit_end(order.last())][entry_end(order[0])] {
        assert(order.subrange(0, order.len() as int) =~= order);
    } else if order.len() < pending.len() {
        lemma_first_link_is_unused_pending(m, pending, order, 0);
        if let Some(link) = first_link(m, pending, order, 0) {
            let grown = order.push(link);
            assert forall|j: int, k: int| 0 <= j < k < grown.len() implies #[trigger] grown[j].0
                != #[trigger] grown[k].0 by {
                if k == order.len() {
                    assert(grown[j] == order[j]);
                    if grown[j].0 == link.0 {
                        assert(is_used(order, link.0 as int));
                    }
                } else {
                    assert(grown[j] == order[j]);
                    assert(grown[k] == order[k]);
                }
            }
            assert forall|k: int| 0 <= k < grown.len() implies pending.contains(#[trigger] grown[k].0) by {
                if k < order.len() {
                    assert(grown[k] == order[k]);
                }
            }
            assert forall|k: int| 0 <= k < grown.len() - 1 implies #[trigger] m[exit_end(grown[k])][entry_end(
                grown[k + 1],
            )] by {
                if k + 1 < order.len() {
                    assert(grown[k] == order[k]);
                    assert(grown[k + 1] == order[k + 1]);
                } else {
                    assert(grown[k] == order.last());
                    assert(grown[k + 1] == link);
                }
            }
            lemma_walk_closes(m, pending, grown);
            if let Some(ring) = walk(m, pending, grown) {
                assert(ring.subrange(0, order.len() as int) =~= grown.subrange(0, order.len() as int));
                assert(grown.subrange(0, order.len() as int) =~= order);
            }
        }
    }
}

/// A chain found for `pending` is a closed ring through distinct pieces of
/// `pending`, starting with its first piece, each piece's exit end meeting
/// the next one's entry end and the last meeting the first.
pub proof fn chain_order_is_closed_ring(m: Seq<Seq<bool>>, pending: Seq<usize>)
    ensures
        chain_order(m, pending) matches Some(ring) ==> is_closed_chain(m, pending, ring)
            && ring[0].0 == pending[0],
{
    if pending.len() > 0 {
        let forwards = seq![(pending[0], true)];
        let backwards = seq![(pending[0], false)];
        assert(pending.contains(forwards[0].0));
        assert(pending.contains(backwards[0].0));
        lemma_walk_closes(m, pending, forwards);
        lemma_walk_closes(m, pending, backwards);
        if let Some(ring) = walk(m, pending, forwards) {
            assert(ring[0] == ring.subrange(0, 1)[0]);
        }
        if let Some(ring) = walk(m, pending, backwards) {
            assert(ring[0] == ring.subrange(0, 1)[0]);
        }
    }
}

/// The pieces of `pending` that `order` does not use, in their order.
pub open spec fn unchained(pending: Seq<usize>, order: Seq<(usize, bool)>) -> Seq<usize>
    decreases pending.len(),
{
    if pending.len() == 0 {
        seq![]
    } else {
        let rest = unchained(pending.drop_last(), order);
        if is_used(order, pending.last() as int) {
            rest
        } else {
            rest.push(pending.last())
        }
    }
}

/// The closed loops the pieces of `pending` fall into: the ring through the
/// first piece, then the loops of whatever that ring leaves unused. `None`
/// when some ring fails to close.
pub open spec fn boundary_loops(m: Seq<Seq<bool>>, pending: Seq<usize>) -> Option<
    Seq<Seq<(usize, bool)>>,
>
    decreases pending.len(),
{
    if pending.len() == 0 {
        Some(seq![])
    } else {
        match chain_order(m, pending) {
            None => None,
            Some(ring) => {
                let rest = unchained(pending, ring);
                if rest.len() < pending.len() {
                    match boundary_loops(m, rest) {
                        None => None,
                        Some(loops) => Some(seq![ring] + loops),
                    }
                } else {
                    None
                }
            },
        }
    }
}

proof fn lemma_unchained(pending: Seq<usize>, order: Seq<(usize, bool)>)
    ensures
        unchained(pending, order).len() <= pending.len(),
        forall|id: usize|
            #[trigger] unchained(pending, order).contains(id) <==> (pending.contains(id) && !is_used(
                order,
                id as int,
            )),
        (exists|p: int| 0 <= p < pending.len() && is_used(order, #[trigger] pending[p] as int))
            ==> unchained(pending, order).len() < pending.len(),
        (forall|i: int, j: int| 0 <= i < j < pending.len() ==> #[trigger] pending[i] != #[trigger] pending[j])
            ==> (forall|i: int, j: int|
            0 <= i < j < unchained(pending, order).len() ==> #[trigger] unchained(pending, order)[i]
                != #[trigger] unchained(pending, order)[j]),
    decreases pending.len(),
{
    if pending.len() > 0 {
        let front = pending.drop_last();
        lemma_unchained(front, order);
        let rest = unchained(front, order);
        let out = unchained(pending, order);
        assert forall|id: usize| #[trigger] out.contains(id) <==> (pending.contains(id) && !is_used(
            order,
            id as int,
        )) by {
            if pending.contains(id) {
                let p = choose|p: int| 0 <= p < pending.len() && pending[p] == id;
                if p < front.len() {
                    assert(front[p] == id);
                }
            }
            if front.contains(id) {
                let p = choose|p: int| 0 <= p < front.len() && front[p] == id;
                assert(pending[p] == id);
            }
            if out.contains(id) && !rest.contains(id) {
                assert(id == pending.last());
            }
            if !is_used(order, pending.last() as int) {
                assert(out.last() == pending.last());
                if rest.contains(id) {
                    let q = choose|q: int| 0 <= q < rest.len() && rest[q] == id;
                    assert(out[q] == id);
                }
            }
        }
        if exists|p: int| 0 <= p < pending.len() && is_used(order, #[trigger] pending[p] as int) {
            let p = choose|p: int| 0 <= p < pending.len() && is_used(order, #[trigger] pending[p] as int);
            if p < front.len() {
                assert(front[p] == pending[p]);
            }
        }
        if forall|i: int, j: int| 0 <= i < j < pending.len() ==> #[trigger] pending[i] != #[trigger] pending[j] {
            assert forall|i: int, j: int| 0 <= i < j < front.len() implies #[trigger] front[i]
                != #[trigger] front[j] by {
                assert(front[i] == pending[i]);
                assert(front[j] == pending[j]);
            }
            if !is_used(order, pending.last() as int) {
                assert forall|i: int, j: int| 0 <= i < j < out.len() implies #[trigger] out[i]
                    != #[trigger] out[j] by {
                    if j == rest.len() {
                        assert(out[i] == rest[i]);
                        assert(rest.contains(rest[i]));
                        assert(front.contains(rest[i]));
                        let p = choose|p: int| 0 <= p < front.len() && front[p] == rest[i];
                        assert(pending[p] == front[p]);
                        assert(pending[pending.len() - 1] == pending.last());
                    } else {
                        assert(out[i] == rest[i]);
                        assert(out[j] == rest[j]);
                    }
                }
            }
        }
    }
}

proof fn lemma_unchained_step(pending: Seq<usize>, order: Seq<(usize, bool)>, p: int)
    requires
        0 <= p < pending.len(),
    ensures
        unchained(pending.take(p + 1), order) == if is_used(order, pending[p] as int) {
            unchained(pending.take(p), order)
        } else {
            unchained(pending.take(p), order).push(pending[p])
        },
{
    assert(pending.take(p + 1).drop_last() =~= pending.take(p));
}

/// Marks, for each piece of the table, whether `order` uses it.
fn usage(count: usize, order: &Vec<(usize, bool)>) -> (used: Vec<bool>)
    requires
        forall|k: int| 0 <= k < order@.len() ==> (#[trigger] order@[k]).0 < count,
    ensures
        used@.len() == count,
        forall|id: int| 0 <= id < count ==> used@[id] == is_used(order@, id),
{
    let mut used: Vec<bool> = Vec::new();
    let mut i: usize = 0;
    while i < count
        invariant
            i <= count,
            used@.len() == i,
            forall|id: int| 0 <= id < i ==> !used@[id],
        decreases count - i,
    {
        used.push(false);
        i = i + 1;
    }
    let mut k: usize = 0;
    while k < order.len()
        invariant
            k <= order@.len(),
            used@.len() == count,
            forall|j: int| 0 <= j < order@.len() ==> (#[trigger] order@[j]).0 < count,
            forall|id: int| 0 <= id < count ==> used@[id] == is_used(order@.take(k as int), id),
        decreases order@.len() - k,
    {
        let ghost before = used@;
        used.set(order[k].0, true);
        proof {
            assert(order@.take(k + 1) =~= order@.take(k as int).push(order@[k as int]));
            assert forall|id: int| 0 <= id < count implies used@[id] == is_used(order@.take(k + 1), id) by {
                lemma_used_push(order@.take(k as int), order@[k as int], id);
            }
        }
        k = k + 1;
    }
    assert(order@.take(order@.len() as int) =~= order@);
    used
}

/// Sorts every boundary piece into closed loops: the ring through the first
/// piece, then, from what it leaves, the ring through the first remaining
/// piece, and so on. Each loop lists pieces with their running direction.
/// `None` when some ring does not close.
pub fn boundary_loop_orders(table: &EndContacts) -> (loops: Option<Vec<Vec<(usize, bool)>>>)
    requires
        table.wf(),
    ensures
        match loops {
            Some(found) => boundary_loops(table.matrix(), all_pieces(table.count())) == Some(
                found@.map_values(|ring: Vec<(usize, bool)>| ring@),
            ),
            None => boundary_loops(table.matrix(), all_pieces(table.count())) is None,
        },
{
    let n = table.pieces();
    let mut pending: Vec<usize> = Vec::new();
    let mut i: usize = 0;
    while i < n
        invariant
            n == table.count(),
            i <= n,
            pending@ == all_pieces(i as nat),
        decreases n - i,
    {
        pending.push(i);
        assert(pending@ =~= all_pieces((i + 1) as nat));
        i = i + 1;
    }
    let ghost everything = pending@;
    let mut loops: Vec<Vec<(usize, bool)>> = Vec::new();
    while pending.len() > 0
        invariant
            table.wf(),
            n == table.count(),
            everything == all_pieces(table.count()),
            forall|p: int| 0 <= p < pending@.len() ==> (#[trigger] pending@[p]) < n,
            boundary_loops(table.matrix(), everything) == match boundary_loops(
                table.matrix(),
                pending@,
            ) {
                None => None,
                Some(rest) => Some(loops@.map_values(|ring: Vec<(usize, bool)>| ring@) + rest),
            },
        decreases pending@.len(),
    {
        let ring = match chain_within(table, &pending) {
            None => {
                return None;
            },
            Some(ring) => ring,
        };
        proof {
            chain_order_is_closed_ring(table.matrix(), pending@);
            assert(ring@[0] == ring@[0]);
            assert forall|k: int| 0 <= k < ring@.len() implies (#[trigger] ring@[k]).0 < n by {
                assert(pending@.contains(ring@[k].0));
            }
        }
        let used = usage(n, &ring);
        let mut rest: Vec<usize> = Vec::new();
        let mut p: usize = 0;
        while p < pending.len()
            invariant
                p <= pending@.len(),
                used@.len() == n,
                forall|id: int| 0 <= id < n ==> used@[id] == is_used(ring@, id),
                forall|q: int| 0 <= q < pending@.len() ==> (#[trigger] pending@[q]) < n,
                rest@ == unchained(pending@.take(p as int), ring@),
            decreases pending@.len() - p,
        {
            proof {
                lemma_unchained_step(pending@, ring@, p as int);
            }
            let id = pending[p];
            if !used[id] {
                rest.push(id);
            }
            p = p + 1;
        }
        proof {
            assert(pending@.take(pending@.len() as int) =~= pending@);
            lemma_unchained(pending@, ring@);
            assert(is_used(ring@, pending@[0] as int)) by {
                assert(ring@[0].0 == pending@[0]);
            }
            assert forall|q: int| 0 <= q < rest@.len() implies (#[trigger] rest@[q]) < n by {
                assert(rest@.contains(rest@[q]));
                assert(pending@.contains(rest@[q]));
            }
            let old_loops = loops@.map_values(|r: Vec<(usize, bool)>| r@);
            let new_loops = loops@.push(ring).map_values(|r: Vec<(usize, bool)>| r@);
            assert(new_loops =~= old_loops.push(ring@));
            match boundary_loops(table.matrix(), rest@) {
                None => {},
                Some(tail) => {
                    assert(old_loops + (seq![ring@] + tail) =~= new_loops + tail);
                },
            }
        }
        loops.push(ring);
        pending = rest;
    }
    proof {
        assert(loops@.map_values(|ring: Vec<(usize, bool)>| ring@) + seq![] =~= loops@.map_values(
            |ring: Vec<(usize, bool)>| ring@,
        ));
    }
    Some(loops)
}

/// No piece is listed twice.
pub open spec fn no_repeats(pending: Seq<usize>) -> bool {
    forall|i: int, j: int| 0 <= i < j < pending.len() ==> #[trigger] pending[i] != #[trigger] pending[j]
}

proof fn lemma_chain_in_larger_pool(
    m: Seq<Seq<bool>>,
    small: Seq<usize>,
    large: Seq<usize>,
    ring: Seq<(usize, bool)>,
)
    requires
        is_closed_chain(m, small, ring),
        forall|id: usize| small.contains(id) ==> large.contains(id),
    ensures
        is_closed_chain(m, large, ring),
{
    assert forall|k: int| 0 <= k < ring.len() implies large.contains(#[trigger] ring[k].0) by {
        assert(small.contains(ring[k].0));
    }
}

/// Every loop is a closed ring of pieces of `pending`.
pub open spec fn all_closed(m: Seq<Seq<bool>>, pending: Seq<usize>, loops: Seq<Seq<(usize, bool)>>) -> bool {
    forall|i: int| 0 <= i < loops.len() ==> is_closed_chain(m, pending, #[trigger] loops[i])
}

/// Every piece of `pending` lies on some loop.
pub open spec fn covers(pending: Seq<usize>, loops: Seq<Seq<(usize, bool)>>) -> bool {
    forall|id: usize|
        pending.contains(id) ==> exists|i: int, k: int|
            0 <= i < loops.len() && 0 <= k < loops[i].len() && (#[trigger] loops[i][k]).0 == id
}

/// No piece lies on two different loops.
pub open spec fn disjoint_loops(loops: Seq<Seq<(usize, bool)>>) -> bool {
    forall|i: int, j: int, k: int, l: int|
        0 <= i < j < loops.len() && 0 <= k < loops[i].len() && 0 <= l < loops[j].len() ==> (
        #[trigger] loops[i][k]).0 != (#[trigger] loops[j][l]).0
}

/// The three promises of a partition of `pending` into closed loops.
pub open spec fn partitions(m: Seq<Seq<bool>>, pending: Seq<usize>, loops: Seq<Seq<(usize, bool)>>) -> bool {
    &&& all_closed(m, pending, loops)
    &&& covers(pending, loops)
    &&& disjoint_loops(loops)
}

/// What is left after a ring: the pieces of `pending` the ring does not use.
pub open spec fn leftover_of(pending: Seq<usize>, ring: Seq<(usize, bool)>, rest: Seq<usize>) -> bool {
    forall|id: usize| #[trigger] rest.contains(id) <==> (pending.contains(id) && !is_used(ring, id as int))
}

proof fn lemma_step_closed(
    m: Seq<Seq<bool>>,
    pending: Seq<usize>,
    ring: Seq<(usize, bool)>,
    rest: Seq<usize>,
    tail: Seq<Seq<(usize, bool)>>,
)
    requires
        is_closed_chain(m, pending, ring),
        leftover_of(pending, ring, rest),
        all_closed(m, rest, tail),
    ensures
        all_closed(m, pending, seq![ring] + tail),
{
    let loops = seq![ring] + tail;
    assert forall|i: int| 0 <= i < loops.len() implies is_closed_chain(m, pending, #[trigger] loops[i]) by {
        if i > 0 {
            assert(loops[i] == tail[i - 1]);
            assert(is_closed_chain(m, rest, tail[i - 1]));
            assert forall|id: usize| rest.contains(id) implies pending.contains(id) by {}
            lemma_chain_in_larger_pool(m, rest, pending, tail[i - 1]);
        }
    }
}

proof fn lemma_step_covers(pending: Seq<usize>, ring: Seq<(usize, bool)>, rest: Seq<usize>, tail: Seq<Seq<(usize, bool)>>)
    requires
        leftover_of(pending, ring, rest),
        covers(rest, tail),
    ensures
        covers(pending, seq![ring] + tail),
{
    let loops = seq![ring] + tail;
    assert forall|id: usize| pending.contains(id) implies exists|i: int, k: int|
        0 <= i < loops.len() && 0 <= k < loops[i].len() && (#[trigger] loops[i][k]).0 == id by {
        if is_used(ring, id as int) {
            let k = choose|k: int| 0 <= k < ring.len() && ring[k].0 == id;
            assert(loops[0] == ring);
            assert(loops[0][k].0 == id);
        } else {
            assert(rest.contains(id));
            let (i, k) = choose|i: int, k: int|
                0 <= i < tail.len() && 0 <= k < tail[i].len() && (#[trigger] tail[i][k]).0 == id;
            assert(loops[i + 1] == tail[i]);
            assert(loops[i + 1][k].0 == id);
        }
    }
}

proof fn lemma_step_disjoint(
    m: Seq<Seq<bool>>,
    pending: Seq<usize>,
    ring: Seq<(usize, bool)>,
    rest: Seq<usize>,
    tail: Seq<Seq<(usize, bool)>>,
)
    requires
        leftover_of(pending, ring, rest),
        all_closed(m, rest, tail),
        disjoint_loops(tail),
    ensures
        disjoint_loops(seq![ring] + tail),
{
    let loops = seq![ring] + tail;
    assert forall|i: int, j: int, k: int, l: int|
        0 <= i < j < loops.len() && 0 <= k < loops[i].len() && 0 <= l < loops[j].len() implies (
        #[trigger] loops[i][k]).0 != (#[trigger] loops[j][l]).0 by {
        assert(loops[j] == tail[j - 1]);
        if i == 0 {
            assert(loops[0] == ring);
            assert(is_closed_chain(m, rest, tail[j - 1]));
            let other = tail[j - 1][l].0;
            assert(rest.contains(other));
            if ring[k].0 == other {
                assert(is_used(ring, other as int));
            }
        } else {
            assert(loops[i] == tail[i - 1]);
            assert(tail[i - 1][k] == loops[i][k]);
            assert(tail[j - 1][l] == loops[j][l]);
        }
    }
}

/// Loose boundary pieces without repeats fall into closed loops that
/// partition them: every loop is a closed ring of the pieces, every piece
/// lies on some loop, and no piece lies on two loops (nor, being a ring of
/// distinct pieces, twice on one).
pub proof fn boundary_loops_partition(m: Seq<Seq<bool>>, pending: Seq<usize>)
    requires
        no_repeats(pending),
    ensures
        boundary_loops(m, pending) matches Some(loops) ==> partitions(m, pending, loops),
    decreases pending.len(),
{
    if pending.len() > 0 {
        if let Some(ring) = chain_order(m, pending) {
            let rest = unchained(pending, ring);
            chain_order_is_closed_ring(m, pending);
            lemma_unchained(pending, ring);
            if rest.len() < pending.len() {
                boundary_loops_partition(m, rest);
                if let Some(tail) = boundary_loops(m, rest) {
                    lemma_step_closed(m, pending, ring, rest, tail);
                    lemma_step_covers(pending, ring, rest, tail);
                    lemma_step_disjoint(m, pending, ring, rest, tail);
                }
            }
        }
    }
}

/// The table's own pieces, listed once each.
pub proof fn all_pieces_have_no_repeats(count: nat)
    requires
        count <= usize::MAX,
    ensures
        no_repeats(all_pieces(count)),
{
}

/// A piece whose finish meets its own start is a closed ring by itself: the
/// chain through it is that piece alone, run forwards.
pub proof fn a_self_closing_piece_is_a_ring_alone(m: Seq<Seq<bool>>, pending: Seq<usize>)
    requires
        pending.len() > 0,
        m[2 * pending[0] + 1][2 * pending[0] as int],
    ensures
        chain_order(m, pending) == Some(seq![(pending[0], true)]),
{
    let forwards = seq![(pending[0], true)];
    assert(exit_end(forwards.last()) == 2 * pending[0] + 1);
    assert(entry_end(forwards[0]) == 2 * pending[0]);
}

/// The loop split is complete: when the ring through the first piece closes
/// and the pieces it leaves split into loops, the whole set splits into that
/// ring followed by those loops.
pub proof fn loops_follow_the_first_ring(m: Seq<Seq<bool>>, pending: Seq<usize>)
    requires
        chain_order(m, pending) is Some,
        boundary_loops(m, unchained(pending, chain_order(m, pending)->0)) is Some,
    ensures
        boundary_loops(m, pending) == Some(
            seq![chain_order(m, pending)->0] + boundary_loops(
                m,
                unchained(pending, chain_order(m, pending)->0),
            )->0,
        ),
{
    let ring = chain_order(m, pending)->0;
    chain_order_is_closed_ring(m, pending);
    lemma_unchained(pending, ring);
    assert(is_used(ring, pending[0] as int)) by {
        assert(ring[0].0 == pending[0]);
    }
    assert(unchained(pending, ring).len() < pending.len());
}

/// A region bounded by one piece whose finish meets its own start is one
/// loop: that piece, run forwards.
pub proof fn a_self_closing_piece_is_its_own_loop(m: Seq<Seq<bool>>, piece: usize)
    requires
        m[2 * piece + 1][2 * piece as int],
    ensures
        boundary_loops(m, seq![piece]) == Some(seq![seq![(piece, true)]]),
{
    let pending = seq![piece];
    a_self_closing_piece_is_a_ring_alone(m, pending);
    let ring = seq![(piece, true)];
    lemma_unchained(pending, ring);
    assert(is_used(ring, piece as int)) by {
        assert(ring[0].0 == piece);
    }
    assert(!unchained(pending, ring).contains(piece));
    if unchained(pending, ring).len() > 0 {
        assert(unchained(pending, ring).contains(unchained(pending, ring)[0]));
    }
    assert(unchained(pending, ring).len() == 0);
    loops_follow_the_first_ring(m, pending);
    assert(seq![ring] + seq![] =~= seq![ring]);
}

/// The greedy choices a chain was grown by, written out: it does not close
/// before its last piece; each next piece runs forwards exactly when its
/// start meets the free end; and no earlier piece of `pending`, unused so
/// far and with an end meeting the free end, was passed over for it.
spec fn grown_greedily(m: Seq<Seq<bool>>, pending: Seq<usize>, ring: Seq<(usize, bool)>) -> bool {
    &&& forall|k: int| 0 <= k < ring.len() - 1 ==> !#[trigger] m[exit_end(ring[k])][entry_end(ring[0])]
    &&& forall|k: int|
        0 <= k < ring.len() - 1 ==> (#[trigger] ring[k + 1]).1 == m[exit_end(ring[k])][2 * ring[k
            + 1].0]
    &&& forall|k: int, p: int|
        0 <= k < ring.len() - 1 && 0 <= p < pending.len() && !is_used(
            ring.take(k + 1),
            #[trigger] pending[p] as int,
        ) && (m[exit_end(#[trigger] ring[k])][2 * pending[p]] || m[exit_end(ring[k])][2 * pending[p]
            + 1]) ==> exists|q: int| 0 <= q <= p && pending[q] == ring[k + 1].0
}

proof fn lemma_first_link_is_first(
    m: Seq<Seq<bool>>,
    pending: Seq<usize>,
    order: Seq<(usize, bool)>,
    from: int,
)
    requires
        0 <= from,
    ensures
        first_link(m, pending, order, from) matches Some(link) ==> {
            &&& link.1 == m[exit_end(order.last())][2 * link.0]
            &&& forall|p: int|
                from <= p < pending.len() && !is_used(order, #[trigger] pending[p] as int) && (
                m[exit_end(order.last())][2 * pending[p]] || m[exit_end(order.last())][2
                    * pending[p] + 1]) ==> exists|q: int| from <= q <= p && pending[q] == link.0
        },
    decreases pending.len() - from,
{
    if from < pending.len() {
        lemma_first_link_is_first(m, pending, order, from + 1);
        let id = pending[from];
        let head = exit_end(order.last());
        if let Some(link) = first_link(m, pending, order, from) {
            if !is_used(order, id as int) && (m[head][2 * id] || m[head][2 * id + 1]) {
                assert(link.0 == id);
            } else {
                assert forall|p: int|
                    from <= p < pending.len() && !is_used(order, #[trigger] pending[p] as int) && (
                    m[head][2 * pending[p]] || m[head][2 * pending[p] + 1]) implies exists|q: int|
                    from <= q <= p && pending[q] == link.0 by {
                    if p == from {
                    } else {
                        let q = choose|q: int| from + 1 <= q <= p && pending[q] == link.0;
                    }
                }
            }
        }
    }
}

proof fn lemma_walk_is_greedy(m: Seq<Seq<bool>>, pending: Seq<usize>, order: Seq<(usize, bool)>)
    requires
        order.len() >= 1,
        grown_greedily(m, pending, order),
    ensures
        walk(m, pending, order) matches Some(ring) ==> grown_greedily(m, pending, ring),
    decreases pending.len() - order.len(),
{
    if !m[exit_end(order.last())][entry_end(order[0])] && order.len() < pending.len() {
        lemma_first_link_is_first(m, pending, order, 0);
        if let Some(link) = first_link(m, pending, order, 0) {
            let grown = order.push(link);
            let n = order.len() as int;
            assert(grown.take(n) =~= order);
            assert forall|k: int| 0 <= k < grown.len() - 1 implies !#[trigger] m[exit_end(grown[k])][entry_end(
                grown[0],
            )] by {
                assert(grown[k] == order[k]);
                assert(grown[0] == order[0]);
            }
            assert forall|k: int|
                0 <= k < grown.len() - 1 implies (#[trigger] grown[k + 1]).1 == m[exit_end(
                grown[k],
            )][2 * grown[k + 1].0] by {
                assert(grown[k] == order[k]);
                if k + 1 < n {
                    assert(grown[k + 1] == order[k + 1]);
                }
            }
            assert forall|k: int, p: int|
                0 <= k < grown.len() - 1 && 0 <= p < pending.len() && !is_used(
                    grown.take(k + 1),
                    #[trigger] pending[p] as int,
                ) && (m[exit_end(#[trigger] grown[k])][2 * pending[p]] || m[exit_end(grown[k])][2
                    * pending[p] + 1]) implies exists|q: int| 0 <= q <= p && pending[q] == grown[k
                + 1].0 by {
                assert(grown[k] == order[k]);
                if k + 1 < n {
                    assert(grown.take(k + 1) =~= order.take(k + 1));
                    assert(grown[k + 1] == order[k + 1]);
                } else {
                    assert(grown.take(k + 1) =~= order);
                    assert(grown[k + 1] == link);
                }
            }
            lemma_walk_is_greedy(m, pending, grown);
        }
    }
}

/// The chain takes the first piece that joins: it does not close before its
/// last piece; each next piece runs forwards exactly when its start meets
/// the chain's free end; and no piece listed earlier in `pending`, still
/// unused and with an end meeting that free end, is passed over for it.
pub proof fn the_chain_takes_the_first_joining_piece(m: Seq<Seq<bool>>, pending: Seq<usize>)
    ensures
        chain_order(m, pending) matches Some(ring) ==> {
            &&& forall|k: int|
                0 <= k < ring.len() - 1 ==> !#[trigger] m[exit_end(ring[k])][entry_end(ring[0])]
            &&& forall|k: int|
                0 <= k < ring.len() - 1 ==> (#[trigger] ring[k + 1]).1 == m[exit_end(ring[k])][2
                    * ring[k + 1].0]
            &&& forall|k: int, p: int|
                0 <= k < ring.len() - 1 && 0 <= p < pending.len() && !is_used(
                    ring.take(k + 1),
                    #[trigger] pending[p] as int,
                ) && (m[exit_end(#[trigger] ring[k])][2 * pending[p]] || m[exit_end(ring[k])][2
                    * pending[p] + 1]) ==> exists|q: int| 0 <= q <= p && pending[q] == ring[k + 1].0
        },
{
    if pending.len() > 0 {
        lemma_walk_is_greedy(m, pending, seq![(pending[0], true)]);
        lemma_walk_is_greedy(m, pending, seq![(pending[0], false)]);
    }
}

} // verus!
