//! Move ordering: children ranked by the values cached for them, so that
//! alpha-beta search meets good moves first.
use vstd::prelude::*;

verus! {

/// Whether a child with cached value `a` ranks strictly before one with `b`:
/// higher values first for the maximizer, lower first for the minimizer, and
/// children with no cached value last.
pub open spec fn ranks_before(a: Option<i64>, b: Option<i64>, maximize: bool) -> bool {
    match (a, b) {
        (Some(x), Some(y)) => if maximize {
            x > y
        } else {
            x < y
        },
        (Some(_), None) => true,
        (None, _) => false,
    }
}

/// Whether `order` lists each index of `keys`, is ranked best first, and keeps
/// indices of equal rank in increasing order.
pub open spec fn is_ranking(keys: Seq<Option<i64>>, order: Seq<usize>, maximize: bool) -> bool {
    &&& order.len() == keys.len()
    &&& forall|p: int| 0 <= p < order.len() ==> #[trigger] order[p] < keys.len()
    &&& forall|j: int| 0 <= j < keys.len() ==> #[trigger] order.contains(j as usize)
    &&& forall|p: int, q: int|
        0 <= p < q < order.len() ==> !ranks_before(
            #[trigger] keys[order[q] as int],
            #[trigger] keys[order[p] as int],
            maximize,
        )
    &&& forall|p: int, q: int|
        0 <= p < q < order.len() && !ranks_before(
            #[trigger] keys[order[p] as int],
            #[trigger] keys[order[q] as int],
            maximize,
        ) ==> order[p] < order[q]
}

/// The indices of `keys` ranked best first by the cached values in `keys`;
/// indices of equal rank keep their order.
pub fn sort_children(keys: &Vec<Option<i64>>, maximize: bool) -> (r: Vec<usize>)
    ensures
        is_ranking(keys@, r@, maximize),
{
    let mut order: Vec<usize> = Vec::new();
    let mut i: usize = 0;
    while i < keys.len()
        invariant
            i <= keys.len(),
            order.len() == i,
            forall|p: int| 0 <= p < order.len() ==> #[trigger] order[p] < i,
            forall|j: int| 0 <= j < i ==> #[trigger] order@.contains(j as usize),
            forall|p: int, q: int|
                0 <= p < q < order.len() ==> !ranks_before(
                    #[trigger] keys@[order[q] as int],
                    #[trigger] keys@[order[p] as int],
                    maximize,
                ),
            forall|p: int, q: int|
                0 <= p < q < order.len() && !ranks_before(
                    #[trigger] keys@[order[p] as int],
                    #[trigger] keys@[order[q] as int],
                    maximize,
                ) ==> order[p] < order[q],
        decreases keys.len() - i,
    {
        let ki = keys[i];
        let mut pos: usize = 0;
        while pos < order.len() && !rank_before(ki, keys[order[pos]], maximize)
            invariant
                pos <= order.len(),
                forall|p: int| 0 <= p < order.len() ==> #[trigger] order[p] < i,
                i < keys.len(),
                ki == keys@[i as int],
                forall|p: int|
                    0 <= p < pos ==> !ranks_before(ki, #[trigger] keys@[order[p] as int], maximize),
            decreases order.len() - pos,
        {
            pos += 1;
        }
        let ghost old_order = order@;
        order.insert(pos, i);
        proof {
            assert(order@ == old_order.insert(pos as int, i));
            assert forall|p: int| 0 <= p < order.len() implies #[trigger] order[p] < i + 1 by {
                if p < pos {
                    assert(order[p] == old_order[p]);
                } else if p > pos {
                    assert(order[p] == old_order[p - 1]);
                }
            }
            assert forall|j: int| 0 <= j < i + 1 implies #[trigger] order@.contains(j as usize) by {
                if j == i {
                    assert(order@[pos as int] == j as usize);
                } else {
                    assert(old_order.contains(j as usize));
                    let p = choose|p: int| 0 <= p < old_order.len() && old_order[p] == j as usize;
                    if p < pos {
                        assert(order@[p] == j as usize);
                    } else {
                        assert(order@[p + 1] == j as usize);
                    }
                }
            }
            assert forall|p: int, q: int| 0 <= p < q < order.len() implies !ranks_before(
                #[trigger] keys@[order[q] as int],
                #[trigger] keys@[order[p] as int],
                maximize,
            ) by {
                let op = if p < pos {
                    p
                } else {
                    p - 1
                };
                let oq = if q < pos {
                    q
                } else {
                    q - 1
                };
                if p == pos {
                    // ki ranks strictly before the element now at q, which is at or after
                    // the first element it ranks before.
                    assert(ranks_before(ki, keys@[old_order[pos as int] as int], maximize));
                    if oq > pos {
                        assert(!ranks_before(
                            keys@[old_order[oq] as int],
                            keys@[old_order[pos as int] as int],
                            maximize,
                        ));
                    }
                } else if q == pos {
                    assert(!ranks_before(ki, keys@[old_order[op] as int], maximize));
                } else {
                    assert(order[p] == old_order[op]);
                    assert(order[q] == old_order[oq]);
                }
            }
            assert forall|p: int, q: int|
                0 <= p < q < order.len() && !ranks_before(
                    #[trigger] keys@[order[p] as int],
                    #[trigger] keys@[order[q] as int],
                    maximize,
                ) implies order[p] < order[q] by {
                let op = if p < pos {
                    p
                } else {
                    p - 1
                };
                let oq = if q < pos {
                    q
                } else {
                    q - 1
                };
                if p == pos {
                    assert(ranks_before(ki, keys@[old_order[pos as int] as int], maximize));
                    if oq > pos {
                        assert(!ranks_before(
                            keys@[old_order[oq] as int],
                            keys@[old_order[pos as int] as int],
                            maximize,
                        ));
                    }
                    assert(ranks_before(ki, keys@[old_order[oq] as int], maximize));
                } else if q == pos {
                    assert(order[p] == old_order[op]);
                } else {
                    assert(order[p] == old_order[op]);
                    assert(order[q] == old_order[oq]);
                }
            }
        }
        i += 1;
    }
    order
}

/// Whether a child with cached value `a` ranks strictly before one with `b`.
pub fn rank_before(a: Option<i64>, b: Option<i64>, maximize: bool) -> (r: bool)
    ensures
        r == ranks_before(a, b, maximize),
{
    match (a, b) {
        (Some(x), Some(y)) => if maximize {
            x > y
        } else {
            x < y
        },
        (Some(_), None) => true,
        (None, _) => false,
    }
}

} // verus!
