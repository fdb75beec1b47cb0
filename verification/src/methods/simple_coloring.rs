use vstd::prelude::*;

use crate::action::{Action, ActionView};
use crate::action_set::ActionSet;
use crate::cell::{has_digit, Cell, CellView};
use crate::combinations::{index_combinations, is_selection};
use crate::figure::{
    board, lemma_ascending_len, lemma_ascending_unique, lemma_col_positions,
    lemma_filter_ascending,
    lemma_row_positions, lemma_sqr_positions, sees, Figure,
};
use crate::grid::{
    digit_positions, lemma_digit_positions, listed, lookup, spec_is_solved, Grid,
};
use crate::sequences::{lands, lemma_filter_none, lemma_pigeonhole, meets};
use crate::methods::confined::{line_of, line_positions, Line};
use crate::unions::{lemma_union_below_next, lemma_union_below_none, optional, union_below};

verus! {

/// A link of a chain as contracts see it: a position and its colour.
pub struct LinkView {
    pub pos: usize,
    pub colored: bool,
}

/// The other of two places, seen from `p`: the first of them that is not `p`.
pub open spec fn other_place(places: Seq<usize>, p: usize) -> Option<usize> {
    if places.len() != 2 {
        None
    } else if places[0] != p {
        Some(places[0])
    } else if places[1] != p {
        Some(places[1])
    } else {
        None
    }
}

/// The position to which a strong link leads from `p` within its house of
/// kind `kind`: the other place of the digit, if the digit has just two
/// places in that house.
pub open spec fn next_in(g: Seq<CellView>, digit: u8, p: usize, kind: Line) -> Option<usize> {
    other_place(
        digit_positions(g, line_positions(kind, line_of(kind, p as int)), digit),
        p,
    )
}

/// The list of a position, if there is one.
pub open spec fn as_list(o: Option<usize>) -> Seq<usize> {
    match o {
        Some(q) => seq![q],
        None => Seq::empty(),
    }
}

/// The positions to which strong links lead from `p`: through its column,
/// its row and its box, in this order, one for each of the three in which
/// the digit has just two places.
pub open spec fn next_links(g: Seq<CellView>, digit: u8, p: usize) -> Seq<usize> {
    as_list(next_in(g, digit, p, Line::Col)) + as_list(next_in(g, digit, p, Line::Row)) + as_list(
        next_in(g, digit, p, Line::Sqr),
    )
}

/// Whether a strong link leads from `p` to `q`.
pub open spec fn linked(g: Seq<CellView>, digit: u8, p: usize, q: usize) -> bool {
    ||| next_in(g, digit, p, Line::Col) == Some(q)
    ||| next_in(g, digit, p, Line::Row) == Some(q)
    ||| next_in(g, digit, p, Line::Sqr) == Some(q)
}

/// Whether `q` can be reached from `seed` over at most `k` strong links.
pub open spec fn reaches(g: Seq<CellView>, digit: u8, seed: usize, k: nat, q: usize) -> bool
    decreases k,
{
    if k == 0 {
        q == seed
    } else {
        reaches(g, digit, seed, (k - 1) as nat, q) || exists|p: usize|
            reaches(g, digit, seed, (k - 1) as nat, p) && #[trigger] linked(g, digit, p, q)
    }
}

/// Whether `q` is reached from `seed` over `k` strong links and no fewer.
pub open spec fn at_level(g: Seq<CellView>, digit: u8, seed: usize, k: nat, q: usize) -> bool {
    reaches(g, digit, seed, k, q) && (k == 0 || !reaches(g, digit, seed, (k - 1) as nat, q))
}

/// Whether `p` is reached over exactly `k` links and a strong link leads on to `q`.
pub open spec fn feeds(g: Seq<CellView>, digit: u8, seed: usize, k: nat, p: usize, q: usize) -> bool {
    at_level(g, digit, seed, k, p) && linked(g, digit, p, q)
}

/// Whether `q` belongs to the chain that starts at `seed`: strong links
/// lead from the seed to it. On a board of 81 cells no position is more
/// than 80 links away (see `lemma_chain_complete`).
pub open spec fn in_chain(g: Seq<CellView>, digit: u8, seed: usize, q: usize) -> bool {
    reaches(g, digit, seed, 81, q)
}

/// The colour of `q` in the chain that starts at `seed`: colours alternate
/// along the links, and the seed is not coloured.
pub open spec fn chain_color(g: Seq<CellView>, digit: u8, seed: usize, q: usize) -> bool {
    exists|k: nat| k <= 81 && #[trigger] at_level(g, digit, seed, k, q) && k % 2 == 1
}

/// Whether the chain that starts at `seed` holds the link.
pub open spec fn chain_has(g: Seq<CellView>, digit: u8, seed: usize, link: LinkView) -> bool {
    in_chain(g, digit, seed, link.pos) && link.colored == chain_color(g, digit, seed, link.pos)
}

/// A strong link ends on the board.
pub proof fn lemma_linked_on_board(g: Seq<CellView>, digit: u8, p: usize, q: usize)
    requires
        p < 81,
        linked(g, digit, p, q),
    ensures
        q < 81,
{
    let r = line_of(Line::Row, p as int);
    let c = line_of(Line::Col, p as int);
    let s = line_of(Line::Sqr, p as int);
    lemma_row_positions(r);
    lemma_col_positions(c);
    lemma_sqr_positions(s);
    lemma_digit_positions(g, line_positions(Line::Row, r), digit);
    lemma_digit_positions(g, line_positions(Line::Col, c), digit);
    lemma_digit_positions(g, line_positions(Line::Sqr, s), digit);
    if next_in(g, digit, p, Line::Col) == Some(q) {
        let places = digit_positions(g, line_positions(Line::Col, c), digit);
        assert(places.contains(places[0]) && places.contains(places[1]));
    } else if next_in(g, digit, p, Line::Row) == Some(q) {
        let places = digit_positions(g, line_positions(Line::Row, r), digit);
        assert(places.contains(places[0]) && places.contains(places[1]));
    } else {
        let places = digit_positions(g, line_positions(Line::Sqr, s), digit);
        assert(places.contains(places[0]) && places.contains(places[1]));
    }
}

/// What is reached from a seed on the board lies on the board.
pub proof fn lemma_reaches_on_board(g: Seq<CellView>, digit: u8, seed: usize, k: nat, q: usize)
    requires
        seed < 81,
        reaches(g, digit, seed, k, q),
    ensures
        q < 81,
    decreases k,
{
    if k > 0 {
        if reaches(g, digit, seed, (k - 1) as nat, q) {
            lemma_reaches_on_board(g, digit, seed, (k - 1) as nat, q);
        } else {
            let p = choose|p: usize|
                reaches(g, digit, seed, (k - 1) as nat, p) && #[trigger] linked(g, digit, p, q);
            lemma_reaches_on_board(g, digit, seed, (k - 1) as nat, p);
            lemma_linked_on_board(g, digit, p, q);
        }
    }
}

/// What is reached over at most `j` links is reached over at most `k >= j`.
pub proof fn lemma_reaches_monotone(
    g: Seq<CellView>,
    digit: u8,
    seed: usize,
    j: nat,
    k: nat,
    q: usize,
)
    requires
        j <= k,
        reaches(g, digit, seed, j, q),
    ensures
        reaches(g, digit, seed, k, q),
    decreases k,
{
    if j < k {
        lemma_reaches_monotone(g, digit, seed, j, (k - 1) as nat, q);
    }
}

/// If one more link reaches nothing new, then no number of links does.
pub proof fn lemma_reaches_saturated(
    g: Seq<CellView>,
    digit: u8,
    seed: usize,
    level: nat,
    k: nat,
    q: usize,
)
    requires
        forall|x: usize| #[trigger]
            reaches(g, digit, seed, level + 1, x) ==> reaches(g, digit, seed, level, x),
        level <= k,
        reaches(g, digit, seed, k, q),
    ensures
        reaches(g, digit, seed, level, q),
    decreases k,
{
    if k > level {
        if reaches(g, digit, seed, (k - 1) as nat, q) {
            lemma_reaches_saturated(g, digit, seed, level, (k - 1) as nat, q);
        } else {
            let p = choose|p: usize|
                reaches(g, digit, seed, (k - 1) as nat, p) && #[trigger] linked(g, digit, p, q);
            lemma_reaches_saturated(g, digit, seed, level, (k - 1) as nat, p);
            assert(linked(g, digit, p, q));
            assert(reaches(g, digit, seed, level + 1, q));
        }
    }
}

/// What is newly reached with one more link is linked to a position that
/// was newly reached with the link before.
pub proof fn lemma_reaches_frontier(g: Seq<CellView>, digit: u8, seed: usize, level: nat, q: usize)
    requires
        at_level(g, digit, seed, level + 1, q),
    ensures
        exists|p: usize| #[trigger] feeds(g, digit, seed, level, p, q),
{
    let p = choose|p: usize|
        reaches(g, digit, seed, level, p) && #[trigger] linked(g, digit, p, q);
    if level > 0 && reaches(g, digit, seed, (level - 1) as nat, p) {
        assert(linked(g, digit, p, q));
        assert(reaches(g, digit, seed, level, q));
    }
    assert(feeds(g, digit, seed, level, p, q));
}

/// A position is newly reached at one level only.
pub proof fn lemma_level_unique(g: Seq<CellView>, digit: u8, seed: usize, j: nat, k: nat, q: usize)
    requires
        at_level(g, digit, seed, j, q),
        at_level(g, digit, seed, k, q),
    ensures
        j == k,
{
    if j < k {
        lemma_reaches_monotone(g, digit, seed, j, (k - 1) as nat, q);
    }
    if k < j {
        lemma_reaches_monotone(g, digit, seed, k, (j - 1) as nat, q);
    }
}

/// What is reached over exactly `k` links has a forerunner at every shorter distance.
pub proof fn lemma_levels_below(g: Seq<CellView>, digit: u8, seed: usize, k: nat, q: usize, j: nat)
    requires
        at_level(g, digit, seed, k, q),
        j <= k,
    ensures
        exists|p: usize| #[trigger] at_level(g, digit, seed, j, p),
    decreases k - j,
{
    if j < k {
        lemma_reaches_frontier(g, digit, seed, (k - 1) as nat, q);
        let p = choose|p: usize| #[trigger] feeds(g, digit, seed, (k - 1) as nat, p, q);
        lemma_levels_below(g, digit, seed, (k - 1) as nat, p, j);
    }
}

/// Some position at distance `j` from the seed, if there is one.
pub open spec fn some_at_level(g: Seq<CellView>, digit: u8, seed: usize, j: int) -> int {
    (choose|p: usize| #[trigger] at_level(g, digit, seed, j as nat, p)) as int
}

/// On a board of 81 cells no position is more than 80 strong links away
/// from the seed: what any number of links reaches, 80 links reach.
pub proof fn lemma_reaches_bounded(g: Seq<CellView>, digit: u8, seed: usize, k: nat, q: usize)
    requires
        seed < 81,
        reaches(g, digit, seed, k, q),
    ensures
        reaches(g, digit, seed, 80, q),
    decreases k,
{
    if k <= 80 {
        lemma_reaches_monotone(g, digit, seed, k, 80, q);
    } else if reaches(g, digit, seed, (k - 1) as nat, q) {
        lemma_reaches_bounded(g, digit, seed, (k - 1) as nat, q);
    } else {
        assert(at_level(g, digit, seed, k, q));
        let f = |j: int| some_at_level(g, digit, seed, j);
        assert forall|j: int| 0 <= j <= 81 implies #[trigger] lands(f, j, 81) by {
            lemma_levels_below(g, digit, seed, k, q, j as nat);
            let p = choose|p: usize| #[trigger] at_level(g, digit, seed, j as nat, p);
            lemma_reaches_on_board(g, digit, seed, j as nat, p);
        }
        lemma_pigeonhole(81, f);
        let (i, j) = choose|i: int, j: int| 0 <= i < j <= 81 && #[trigger] meets(f, i, j);
        lemma_levels_below(g, digit, seed, k, q, i as nat);
        lemma_levels_below(g, digit, seed, k, q, j as nat);
        let pi = choose|p: usize| #[trigger] at_level(g, digit, seed, i as nat, p);
        let pj = choose|p: usize| #[trigger] at_level(g, digit, seed, j as nat, p);
        assert(pi as int == pj as int);
        lemma_level_unique(g, digit, seed, i as nat, j as nat, pi);
    }
}

/// A chain is closed: it holds its seed, and with a position every
/// position to which a strong link leads from there.
pub proof fn lemma_chain_closed(g: Seq<CellView>, digit: u8, seed: usize, p: usize, q: usize)
    requires
        seed < 81,
        in_chain(g, digit, seed, p),
        linked(g, digit, p, q),
    ensures
        in_chain(g, digit, seed, seed),
        in_chain(g, digit, seed, q),
{
    lemma_reaches_monotone(g, digit, seed, 0, 81, seed);
    lemma_reaches_bounded(g, digit, seed, 81, p);
    assert(reaches(g, digit, seed, 81, q));
}

/// A chain holds whatever any number of strong links reaches from its seed.
pub proof fn lemma_chain_complete(g: Seq<CellView>, digit: u8, seed: usize, k: nat, q: usize)
    requires
        seed < 81,
        reaches(g, digit, seed, k, q),
    ensures
        in_chain(g, digit, seed, q),
{
    lemma_reaches_bounded(g, digit, seed, k, q);
    lemma_reaches_monotone(g, digit, seed, 80, 81, q);
}

/// Whether `levels` tells, for each position of the board, over how many
/// strong links it is reached from `seed`, as far as `level` links reach;
/// 255 stands for a position that they do not reach.
pub open spec fn levels_known(
    g: Seq<CellView>,
    digit: u8,
    seed: usize,
    levels: Seq<u8>,
    level: nat,
) -> bool {
    &&& levels.len() == 81
    &&& forall|q: usize|
        q < 81 ==> ((#[trigger] levels[q as int]) <= level <==> reaches(g, digit, seed, level, q))
    &&& forall|q: usize, k: nat|
        q < 81 && k <= level ==> (levels[q as int] == k <==> #[trigger] at_level(
            g,
            digit,
            seed,
            k,
            q,
        ))
    &&& forall|q: usize| q < 81 ==> (#[trigger] levels[q as int]) <= level || levels[q as int] == 255
}

/// One cell of a chain, with the digit of the chain and the colour of the cell.
#[derive(Debug, Clone, Copy)]
struct ChainLink {
    number: u8,
    pos: usize,
    is_colored: bool,
}

impl View for ChainLink {
    type V = LinkView;

    closed spec fn view(&self) -> LinkView {
        LinkView { pos: self.pos, colored: self.is_colored }
    }
}

/// The position to which a strong link leads from `pos` within its house of kind `kind`.
fn next_along(grid: &Grid, number: u8, pos: usize, kind: Line) -> (res: Option<usize>)
    requires
        pos < 81,
    ensures
        res == next_in(grid@, number, pos, kind),
{
    let figure = match kind {
        Line::Row => Figure::row(Figure::row_of(pos)),
        Line::Col => Figure::col(Figure::col_of(pos)),
        Line::Sqr => Figure::sqr(Figure::sqr_of(pos)),
    };
    proof {
        lemma_row_positions(line_of(Line::Row, pos as int));
        lemma_col_positions(line_of(Line::Col, pos as int));
        lemma_sqr_positions(line_of(Line::Sqr, pos as int));
    }
    let ghost house = figure@;
    let info = grid.pencilmarks_info(figure);
    proof {
        assert(listed(info@, number) == digit_positions(grid@, house, number));
    }
    match lookup(&info, number) {
        None => None,
        Some(number_positions) => {
            if number_positions.len() != 2 {
                None
            } else if number_positions[0] != pos {
                Some(number_positions[0])
            } else if number_positions[1] != pos {
                Some(number_positions[1])
            } else {
                None
            }
        },
    }
}

/// Whether one of `links` is at position `q`.
pub open spec fn leads_to(links: Seq<LinkView>, q: usize) -> bool {
    exists|i: int| 0 <= i < links.len() && (#[trigger] links[i]).pos == q
}

/// Gives the level `level + 1` to the positions of `links` that have none.
/// Tells whether there was such a position.
fn mark(levels: &mut Vec<u8>, links: &Vec<ChainLink>, level: u8) -> (res: bool)
    requires
        old(levels)@.len() == 81,
        level < 81,
        forall|i: int| 0 <= i < links@.len() ==> (#[trigger] links@[i]).pos < 81,
    ensures
        final(levels)@.len() == 81,
        forall|q: usize|
            q < 81 ==> #[trigger] final(levels)@[q as int] == if old(levels)@[q as int] == 255
                && leads_to(link_views(links@), q) {
                (level + 1) as u8
            } else {
                old(levels)@[q as int]
            },
        res <==> exists|q: usize|
            q < 81 && #[trigger] old(levels)@[q as int] == 255 && leads_to(link_views(links@), q),
{
    let mut j: usize = 0;
    let mut res = false;
    let ghost all = link_views(links@);
    while j < links.len()
        invariant
            j <= links@.len(),
            level < 81,
            levels@.len() == 81,
            all == link_views(links@),
            forall|i: int| 0 <= i < links@.len() ==> (#[trigger] links@[i]).pos < 81,
            forall|q: usize|
                q < 81 ==> #[trigger] levels@[q as int] == if old(levels)@[q as int] == 255
                    && leads_to(all.take(j as int), q) {
                    (level + 1) as u8
                } else {
                    old(levels)@[q as int]
                },
            res <==> exists|q: usize|
                q < 81 && #[trigger] old(levels)@[q as int] == 255 && leads_to(
                    all.take(j as int),
                    q,
                ),
        decreases links@.len() - j,
    {
        let q = links[j].pos;
        let ghost done = all.take(j as int);
        let ghost next = all.take(j + 1);
        proof {
            assert(all[j as int].pos == q);
            assert(next =~= done.push(all[j as int]));
            assert forall|x: usize| leads_to(next, x) <==> leads_to(done, x) || x == q by {
                if leads_to(next, x) {
                    let i = choose|i: int| 0 <= i < next.len() && (#[trigger] next[i]).pos == x;
                    if i < j {
                        assert(done[i].pos == x);
                    }
                }
                if leads_to(done, x) {
                    let i = choose|i: int| 0 <= i < done.len() && (#[trigger] done[i]).pos == x;
                    assert(next[i].pos == x);
                }
                if x == q {
                    assert(next[j as int].pos == x);
                }
            }
        }
        if levels[q] == 255 {
            levels.set(q, level + 1);
            res = true;
            assert(old(levels)@[q as int] == 255);
        }
        proof {
            if exists|x: usize|
                x < 81 && #[trigger] old(levels)@[x as int] == 255 && leads_to(next, x) {
                let x = choose|x: usize|
                    x < 81 && #[trigger] old(levels)@[x as int] == 255 && leads_to(next, x);
                if x != q {
                    assert(old(levels)@[x as int] == 255 && leads_to(done, x));
                }
            }
            if exists|x: usize|
                x < 81 && #[trigger] old(levels)@[x as int] == 255 && leads_to(done, x) {
                let x = choose|x: usize|
                    x < 81 && #[trigger] old(levels)@[x as int] == 255 && leads_to(done, x);
                assert(old(levels)@[x as int] == 255 && leads_to(next, x));
            }
        }
        j += 1;
    }
    proof {
        assert(all.take(j as int) =~= all);
    }
    res
}

/// Whether `levels` is right as far as `level` links reach, and gives the
/// level `level + 1` to what the positions below `i` of level `level` lead
/// to and no shorter way reaches.
pub open spec fn spreading(
    g: Seq<CellView>,
    digit: u8,
    seed: usize,
    levels: Seq<u8>,
    level: nat,
    i: int,
) -> bool {
    &&& levels.len() == 81
    &&& forall|q: usize|
        q < 81 ==> ((#[trigger] levels[q as int]) <= level <==> reaches(g, digit, seed, level, q))
    &&& forall|q: usize, k: nat|
        q < 81 && k <= level ==> (levels[q as int] == k <==> #[trigger] at_level(
            g,
            digit,
            seed,
            k,
            q,
        ))
    &&& forall|q: usize|
        q < 81 ==> ((#[trigger] levels[q as int]) == level + 1 <==> !reaches(
            g,
            digit,
            seed,
            level,
            q,
        ) && fed_below(g, digit, seed, level, i, q))
    &&& forall|q: usize|
        q < 81 ==> (#[trigger] levels[q as int]) <= level + 1 || levels[q as int] == 255
}

/// Whether a position below `i` of level `level` leads to `q`.
pub open spec fn fed_below(
    g: Seq<CellView>,
    digit: u8,
    seed: usize,
    level: nat,
    i: int,
    q: usize,
) -> bool {
    exists|p: usize| p < i && #[trigger] feeds(g, digit, seed, level, p, q)
}

/// Whether `levels` gives some position the level `level`.
pub open spec fn some_at(levels: Seq<u8>, level: nat) -> bool {
    exists|q: usize| q < 81 && #[trigger] levels[q as int] == level
}

/// Before a step, nothing has the next level.
proof fn lemma_spread_start(g: Seq<CellView>, digit: u8, seed: usize, levels: Seq<u8>, level: nat)
    requires
        level < 81,
        levels_known(g, digit, seed, levels, level),
    ensures
        spreading(g, digit, seed, levels, level, 0),
        !some_at(levels, level + 1),
{
    assert forall|q: usize| q < 81 implies ((#[trigger] levels[q as int]) == level + 1
        <==> !reaches(g, digit, seed, level, q) && fed_below(g, digit, seed, level, 0, q)) by {}
}

/// A position that is not of level `level` adds nothing to a step.
proof fn lemma_spread_skip(
    g: Seq<CellView>,
    digit: u8,
    seed: usize,
    levels: Seq<u8>,
    level: nat,
    i: usize,
)
    requires
        i < 81,
        spreading(g, digit, seed, levels, level, i as int),
        levels[i as int] != level,
    ensures
        spreading(g, digit, seed, levels, level, i + 1),
{
    assert(!at_level(g, digit, seed, level, i));
    assert forall|q: usize| q < 81 implies (fed_below(g, digit, seed, level, i + 1, q)
        <==> fed_below(g, digit, seed, level, i as int, q)) by {
        if fed_below(g, digit, seed, level, i + 1, q) {
            let p = choose|p: usize| p < i + 1 && #[trigger] feeds(g, digit, seed, level, p, q);
            assert(p < i);
        }
        if fed_below(g, digit, seed, level, i as int, q) {
            let p = choose|p: usize| p < i && #[trigger] feeds(g, digit, seed, level, p, q);
            assert(p < i + 1);
        }
    }
}

/// What a position of level `level` adds to a step.
proof fn lemma_spread_mark(
    g: Seq<CellView>,
    digit: u8,
    seed: usize,
    before: Seq<u8>,
    after: Seq<u8>,
    links: Seq<LinkView>,
    level: nat,
    i: usize,
)
    requires
        i < 81,
        level < 81,
        spreading(g, digit, seed, before, level, i as int),
        before[i as int] == level,
        after.len() == 81,
        forall|q: usize| linked(g, digit, i, q) <==> leads_to(links, q),
        forall|q: usize|
            q < 81 ==> #[trigger] after[q as int] == if before[q as int] == 255 && leads_to(
                links,
                q,
            ) {
                (level + 1) as u8
            } else {
                before[q as int]
            },
    ensures
        spreading(g, digit, seed, after, level, i + 1),
{
    assert(at_level(g, digit, seed, level, i));
    assert forall|q: usize| q < 81 implies (fed_below(g, digit, seed, level, i + 1, q)
        <==> fed_below(g, digit, seed, level, i as int, q) || linked(g, digit, i, q)) by {
        if fed_below(g, digit, seed, level, i + 1, q) {
            let p = choose|p: usize| p < i + 1 && #[trigger] feeds(g, digit, seed, level, p, q);
            if p < i {
                assert(fed_below(g, digit, seed, level, i as int, q));
            }
        }
        if fed_below(g, digit, seed, level, i as int, q) {
            let p = choose|p: usize| p < i && #[trigger] feeds(g, digit, seed, level, p, q);
            assert(p < i + 1);
        }
        if linked(g, digit, i, q) {
            assert(feeds(g, digit, seed, level, i, q));
        }
    }
    assert forall|q: usize| q < 81 implies ((#[trigger] after[q as int]) <= level <==> reaches(
        g,
        digit,
        seed,
        level,
        q,
    )) by {
        assert(before[q as int] <= level <==> reaches(g, digit, seed, level, q));
    }
    assert forall|q: usize, k: nat| q < 81 && k <= level implies (after[q as int] == k
        <==> #[trigger] at_level(g, digit, seed, k, q)) by {
        assert(before[q as int] == k <==> at_level(g, digit, seed, k, q));
    }
    assert forall|q: usize| q < 81 implies ((#[trigger] after[q as int]) == level + 1 <==> !reaches(
        g,
        digit,
        seed,
        level,
        q,
    ) && fed_below(g, digit, seed, level, i + 1, q)) by {
        assert(before[q as int] == level + 1 <==> !reaches(g, digit, seed, level, q) && fed_below(
            g,
            digit,
            seed,
            level,
            i as int,
            q,
        ));
        assert(before[q as int] <= level <==> reaches(g, digit, seed, level, q));
        assert(before[q as int] <= level + 1 || before[q as int] == 255);
    }
    assert forall|q: usize| q < 81 implies (#[trigger] after[q as int]) <= level + 1
        || after[q as int] == 255 by {
        assert(before[q as int] <= level + 1 || before[q as int] == 255);
    }
}

/// After a step, the next level is known too.
proof fn lemma_spread_end(g: Seq<CellView>, digit: u8, seed: usize, levels: Seq<u8>, level: nat)
    requires
        seed < 81,
        level < 81,
        spreading(g, digit, seed, levels, level, 81),
    ensures
        levels_known(g, digit, seed, levels, level + 1),
        some_at(levels, level + 1) <==> exists|q: usize|
            #[trigger] at_level(g, digit, seed, level + 1, q),
{
    let n = level + 1;
    assert forall|q: usize| q < 81 implies ((#[trigger] levels[q as int]) == n <==> at_level(
        g,
        digit,
        seed,
        n,
        q,
    )) by {
        if levels[q as int] == n {
            assert(fed_below(g, digit, seed, level, 81, q));
            let p = choose|p: usize| p < 81 && #[trigger] feeds(g, digit, seed, level, p, q);
            assert(linked(g, digit, p, q));
            assert(reaches(g, digit, seed, n, q));
        }
        if at_level(g, digit, seed, n, q) {
            lemma_reaches_frontier(g, digit, seed, level, q);
            let p = choose|p: usize| #[trigger] feeds(g, digit, seed, level, p, q);
            lemma_reaches_on_board(g, digit, seed, level, p);
            assert(p < 81 && feeds(g, digit, seed, level, p, q));
            assert(fed_below(g, digit, seed, level, 81, q));
        }
    }
    assert forall|q: usize| q < 81 implies ((#[trigger] levels[q as int]) <= n <==> reaches(
        g,
        digit,
        seed,
        n,
        q,
    )) by {
        assert(levels[q as int] == n <==> at_level(g, digit, seed, n, q));
        assert(levels[q as int] <= level <==> reaches(g, digit, seed, level, q));
    }
    assert forall|q: usize, k: nat| q < 81 && k <= n implies (levels[q as int] == k
        <==> #[trigger] at_level(g, digit, seed, k, q)) by {
        if k == n {
            assert(levels[q as int] == n <==> at_level(g, digit, seed, n, q));
        }
    }
    if exists|q: usize| #[trigger] at_level(g, digit, seed, n, q) {
        let q = choose|q: usize| #[trigger] at_level(g, digit, seed, n, q);
        lemma_reaches_on_board(g, digit, seed, n, q);
        assert(levels[q as int] == n);
    }
    if some_at(levels, n) {
        let q = choose|q: usize| q < 81 && #[trigger] levels[q as int] == n;
        assert(at_level(g, digit, seed, n, q));
    }
}

impl ChainLink {
    /// The links to which strong links lead from this one: through its
    /// column, its row and its box, each with the other colour.
    fn get_next(&self, grid: &Grid) -> (res: Vec<Self>)
        requires
            self.pos < 81,
        ensures
            res@.len() <= 3,
            res@.map_values(|l: ChainLink| l.pos) == next_links(grid@, self.number, self.pos),
            forall|i: int|
                0 <= i < res@.len() ==> {
                    &&& (#[trigger] res@[i]).pos < 81
                    &&& res@[i].number == self.number
                    &&& res@[i].is_colored == !self.is_colored
                    &&& linked(grid@, self.number, self.pos, res@[i].pos)
                },
            forall|q: usize|
                linked(grid@, self.number, self.pos, q) ==> exists|i: int|
                    0 <= i < res@.len() && (#[trigger] res@[i]).pos == q,
    {
        let mut res: Vec<ChainLink> = Vec::new();
        if let Some(new_link_position) = next_along(grid, self.number, self.pos, Line::Col) {
            proof {
                lemma_linked_on_board(grid@, self.number, self.pos, new_link_position);
            }
            res.push(
                ChainLink {
                    number: self.number,
                    pos: new_link_position,
                    is_colored: !self.is_colored,
                },
            );
        }
        let ghost first = res@;
        if let Some(new_link_position) = next_along(grid, self.number, self.pos, Line::Row) {
            proof {
                lemma_linked_on_board(grid@, self.number, self.pos, new_link_position);
            }
            res.push(
                ChainLink {
                    number: self.number,
                    pos: new_link_position,
                    is_colored: !self.is_colored,
                },
            );
        }
        let ghost second = res@;
        if let Some(new_link_position) = next_along(grid, self.number, self.pos, Line::Sqr) {
            proof {
                lemma_linked_on_board(grid@, self.number, self.pos, new_link_position);
            }
            res.push(
                ChainLink {
                    number: self.number,
                    pos: new_link_position,
                    is_colored: !self.is_colored,
                },
            );
        }
        proof {
            assert(res@.map_values(|l: ChainLink| l.pos) =~= next_links(
                grid@,
                self.number,
                self.pos,
            ));
            assert forall|q: usize| linked(grid@, self.number, self.pos, q) implies exists|i: int|
                0 <= i < res@.len() && (#[trigger] res@[i]).pos == q by {
                if next_in(grid@, self.number, self.pos, Line::Col) == Some(q) {
                    assert(res@[0].pos == q);
                } else if next_in(grid@, self.number, self.pos, Line::Row) == Some(q) {
                    assert(res@[first.len() as int].pos == q);
                } else {
                    assert(res@[second.len() as int].pos == q);
                }
            }
        }
        res
    }

    /// Follows the strong links one step further: gives the level
    /// `level + 1` to what the positions of level `level` lead to and no
    /// shorter way reaches. Tells whether there was such a position.
    fn spread(&self, grid: &Grid, levels: &mut Vec<u8>, level: u8) -> (changed: bool)
        requires
            self.pos < 81,
            level < 81,
            levels_known(grid@, self.number, self.pos, old(levels)@, level as nat),
        ensures
            levels_known(grid@, self.number, self.pos, final(levels)@, (level + 1) as nat),
            changed <==> exists|q: usize|
                #[trigger] at_level(grid@, self.number, self.pos, (level + 1) as nat, q),
    {
        let ghost g = grid@;
        let ghost d = self.number;
        let ghost seed = self.pos;
        let ghost l = level as nat;
        let mut changed = false;
        let mut i: usize = 0;
        proof {
            lemma_spread_start(g, d, seed, levels@, l);
        }
        while i < 81
            invariant
                i <= 81,
                level < 81,
                g == grid@,
                d == self.number,
                seed == self.pos,
                seed < 81,
                l == level as nat,
                spreading(g, d, seed, levels@, l, i as int),
                changed <==> some_at(levels@, l + 1),
            decreases 81 - i,
        {
            let ghost before = levels@;
            if levels[i] == level {
                let link = ChainLink { number: self.number, pos: i, is_colored: false };
                let links = link.get_next(grid);
                proof {
                    assert forall|q: usize| linked(g, d, i, q) <==> leads_to(
                        link_views(links@),
                        q,
                    ) by {
                        if linked(g, d, i, q) {
                            assert(linked(grid@, link.number, link.pos, q));
                            assert(exists|k: int|
                                0 <= k < links@.len() && (#[trigger] links@[k]).pos == q);
                            let k = choose|k: int|
                                0 <= k < links@.len() && (#[trigger] links@[k]).pos == q;
                            assert(link_views(links@)[k] == links@[k]@);
                            assert(link_views(links@)[k].pos == q);
                        }
                        if leads_to(link_views(links@), q) {
                            let k = choose|k: int|
                                0 <= k < link_views(links@).len() && (#[trigger] link_views(
                                    links@,
                                )[k]).pos == q;
                            assert(links@[k].pos == q);
                        }
                    }
                }
                let hit = mark(levels, &links, level);
                if hit {
                    changed = true;
                }
                proof {
                    lemma_spread_mark(g, d, seed, before, levels@, link_views(links@), l, i);
                    if some_at(levels@, l + 1) && !some_at(before, l + 1) {
                        let q = choose|q: usize| q < 81 && #[trigger] levels@[q as int] == l + 1;
                        assert(before[q as int] == 255 && leads_to(link_views(links@), q));
                    }
                    if some_at(before, l + 1) {
                        let q = choose|q: usize| q < 81 && #[trigger] before[q as int] == l + 1;
                        assert(levels@[q as int] == l + 1);
                    }
                    if hit {
                        let q = choose|q: usize|
                            q < 81 && #[trigger] before[q as int] == 255 && leads_to(
                                link_views(links@),
                                q,
                            );
                        assert(levels@[q as int] == l + 1);
                    }
                }
            } else {
                proof {
                    lemma_spread_skip(g, d, seed, levels@, l, i);
                }
            }
            i += 1;
        }
        proof {
            lemma_spread_end(g, d, seed, levels@, l);
        }
        changed
    }

    /// For each position of the board, over how many strong links it is
    /// reached from this link; 255 for a position that is not reached.
    fn levels(&self, grid: &Grid) -> (res: Vec<u8>)
        requires
            self.pos < 81,
        ensures
            levels_known(grid@, self.number, self.pos, res@, 81),
    {
        let ghost g = grid@;
        let ghost d = self.number;
        let ghost seed = self.pos;
        let mut levels: Vec<u8> = Vec::new();
        let mut i: usize = 0;
        while i < 81
            invariant
                i <= 81,
                levels@.len() == i,
                self.pos < 81,
                forall|q: int| 0 <= q < i ==> levels@[q] == if q == self.pos {
                    0u8
                } else {
                    255u8
                },
            decreases 81 - i,
        {
            levels.push(if i == self.pos { 0 } else { 255 });
            i += 1;
        }
        let mut level: u8 = 0;
        let mut changed = true;
        while level < 81 && changed
            invariant
                level <= 81,
                g == grid@,
                d == self.number,
                seed == self.pos,
                seed < 81,
                levels_known(g, d, seed, levels@, level as nat),
                !changed ==> forall|x: usize| #[trigger]
                    reaches(g, d, seed, level as nat, x) ==> reaches(
                        g,
                        d,
                        seed,
                        (level - 1) as nat,
                        x,
                    ),
                !changed ==> level > 0,
            decreases 81 - level + if changed { 1int } else { 0int },
        {
            changed = self.spread(grid, &mut levels, level);
            level += 1;
            proof {
                if !changed {
                    assert forall|x: usize| #[trigger]
                        reaches(g, d, seed, level as nat, x) implies reaches(
                        g,
                        d,
                        seed,
                        (level - 1) as nat,
                        x,
                    ) by {
                        if !reaches(g, d, seed, (level - 1) as nat, x) {
                            assert(at_level(g, d, seed, level as nat, x));
                        }
                    }
                }
            }
        }
        proof {
            if level < 81 {
                let l = (level - 1) as nat;
                assert forall|q: usize| q < 81 implies ((#[trigger] levels@[q as int]) <= 81
                    <==> reaches(g, d, seed, 81, q)) by {
                    if reaches(g, d, seed, 81, q) {
                        lemma_reaches_saturated(g, d, seed, l, 81, q);
                        lemma_reaches_monotone(g, d, seed, l, level as nat, q);
                    }
                    if levels@[q as int] <= 81 {
                        assert(levels@[q as int] <= level);
                        lemma_reaches_monotone(g, d, seed, level as nat, 81, q);
                    }
                }
                assert forall|q: usize, k: nat| q < 81 && k <= 81 implies (levels@[q as int] == k
                    <==> #[trigger] at_level(g, d, seed, k, q)) by {
                    if k > level {
                        if at_level(g, d, seed, k, q) {
                            lemma_reaches_saturated(g, d, seed, l, k, q);
                            lemma_reaches_monotone(g, d, seed, l, (k - 1) as nat, q);
                        }
                    }
                }
            }
        }
        levels
    }

    /// The chain that starts at this link: every link that strong links
    /// reach from it, in the order of the positions. Colours alternate
    /// along the strong links.
    fn get_chain(&self, grid: &Grid) -> (res: Vec<Self>)
        requires
            self.pos < 81,
            !self.is_colored,
        ensures
            is_chain(grid@, self.number, self.pos, link_views(res@)),
            forall|i: int| 0 <= i < res@.len() ==> (#[trigger] res@[i]).number == self.number,
    {
        let levels = self.levels(grid);
        let ghost g = grid@;
        let ghost d = self.number;
        let ghost seed = self.pos;
        let mut res: Vec<ChainLink> = Vec::new();
        let mut q: usize = 0;
        while q < 81
            invariant
                q <= 81,
                levels_known(g, d, seed, levels@, 81),
                forall|i: int| 0 <= i < res@.len() ==> (#[trigger] res@[i]).number == self.number,
                forall|i: int| 0 <= i < res@.len() ==> (#[trigger] res@[i]).pos < q,
                forall|i: int, j: int| 0 <= i < j < res@.len() ==> res@[i].pos < res@[j].pos,
                forall|i: int|
                    0 <= i < res@.len() ==> chain_has(g, d, seed, (#[trigger] res@[i])@),
                forall|x: usize|
                    x < q && in_chain(g, d, seed, x) ==> exists|i: int|
                        0 <= i < res@.len() && (#[trigger] res@[i]).pos == x,
            decreases 81 - q,
        {
            let ghost before = res@;
            if levels[q] != 255 {
                let level = levels[q];
                let link = ChainLink {
                    number: self.number,
                    pos: q,
                    is_colored: level % 2 == 1,
                };
                proof {
                    assert(at_level(g, d, seed, level as nat, q));
                    if chain_color(g, d, seed, q) {
                        let k = choose|k: nat|
                            k <= 81 && #[trigger] at_level(g, d, seed, k, q) && k % 2 == 1;
                        lemma_level_unique(g, d, seed, k, level as nat, q);
                    }
                }
                res.push(link);
            }
            proof {
                assert forall|x: usize| x < q + 1 && in_chain(g, d, seed, x) implies exists|i: int|
                    0 <= i < res@.len() && (#[trigger] res@[i]).pos == x by {
                    if x < q {
                        let i = choose|i: int| 0 <= i < before.len() && (#[trigger] before[i]).pos == x;
                        assert(res@[i].pos == x);
                    } else {
                        assert(res@[res@.len() - 1].pos == x);
                    }
                }
            }
            q += 1;
        }
        proof {
            assert forall|x: usize| in_chain(g, d, seed, x) implies exists|i: int|
                0 <= i < link_views(res@).len() && (#[trigger] link_views(res@)[i]).pos == x by {
                lemma_reaches_on_board(g, d, seed, 81, x);
                let i = choose|i: int| 0 <= i < res@.len() && (#[trigger] res@[i]).pos == x;
                assert(link_views(res@)[i].pos == x);
            }
        }
        res
    }
}

/// The views of a list of links.
spec fn link_views(links: Seq<ChainLink>) -> Seq<LinkView> {
    links.map_values(|l: ChainLink| l@)
}

/// Whether `links` lists the chain that starts at `seed`: each of its
/// positions once, in ascending order, with its colour.
pub open spec fn is_chain(g: Seq<CellView>, digit: u8, seed: usize, links: Seq<LinkView>) -> bool {
    &&& forall|i: int, j: int| 0 <= i < j < links.len() ==> links[i].pos < links[j].pos
    &&& forall|i: int| 0 <= i < links.len() ==> (#[trigger] links[i]).pos < 81
    &&& forall|i: int| 0 <= i < links.len() ==> chain_has(g, digit, seed, #[trigger] links[i])
    &&& forall|x: usize|
        in_chain(g, digit, seed, x) ==> exists|i: int|
            0 <= i < links.len() && (#[trigger] links[i]).pos == x
}

/// The positions of the board at which `links` has a link of the given colour.
pub open spec fn colored_positions(links: Seq<LinkView>, colored: bool) -> Seq<usize> {
    board().filter(|q: usize| links.contains(LinkView { pos: q, colored }))
}

/// Whether `q` sees both `p1` and `p2` and is neither.
pub open spec fn sees_both(p1: usize, p2: usize, q: usize) -> bool {
    sees(p1 as int, q as int) && sees(p2 as int, q as int) && q != p1 && q != p2
}

/// The positions of the board that see both `p1` and `p2` and are neither.
pub open spec fn seen_by_both(p1: usize, p2: usize) -> Seq<usize> {
    board().filter(|q: usize| sees_both(p1, p2, q))
}

/// Whether some position of the board sees both `p1` and `p2`.
pub open spec fn common_sight(p1: usize, p2: usize) -> bool {
    exists|q: usize| q < 81 && sees(p1 as int, q as int) && #[trigger] sees(p2 as int, q as int)
}

/// What two links of a chain with the same colour lead to if they see each
/// other: their colour is wrong, and the digit leaves every cell of the
/// chain that has it.
pub open spec fn rule2_of(links: Seq<LinkView>, a: LinkView, b: LinkView, digit: u8) -> Option<
    ActionView,
> {
    if a.colored == b.colored && sees(a.pos as int, b.pos as int) {
        Some(
            ActionView::RemovePencilmarks {
                figure: colored_positions(links, a.colored),
                pencilmarks: seq![digit],
            },
        )
    } else {
        None
    }
}

/// What two links of a chain with different colours lead to: one of them
/// holds the digit, so it leaves every other cell that sees both.
pub open spec fn rule4_of(a: LinkView, b: LinkView, digit: u8) -> Option<ActionView> {
    if a.colored != b.colored && common_sight(a.pos, b.pos) {
        Some(
            ActionView::RemovePencilmarks {
                figure: seen_by_both(a.pos, b.pos),
                pencilmarks: seq![digit],
            },
        )
    } else {
        None
    }
}

/// The removals that two links of a chain lead to.
pub open spec fn pair_part(links: Seq<LinkView>, a: LinkView, b: LinkView, digit: u8) -> Set<
    ActionView,
> {
    optional(rule2_of(links, a, b, digit)).union(optional(rule4_of(a, b, digit)))
}

/// The removals that a chain leads to: those of each two of its links.
pub open spec fn chain_part(links: Seq<LinkView>, digit: u8) -> Set<ActionView> {
    Set::new(
        |x: ActionView|
            exists|i: int, j: int|
                0 <= i < j < links.len() && #[trigger] pair_part(
                    links,
                    links[i],
                    links[j],
                    digit,
                ).contains(x),
    )
}

/// For each of the listed selections of two links, the removals that they lead to.
pub open spec fn selection_parts(links: Seq<LinkView>, selections: Seq<Vec<usize>>, digit: u8) -> spec_fn(
    int,
) -> Set<ActionView> {
    |t: int|
        pair_part(links, links[selections[t]@[0] as int], links[selections[t]@[1] as int], digit)
}

/// The chain that starts at `seed`: its positions in ascending order, each
/// with its colour.
pub open spec fn chain_links(g: Seq<CellView>, digit: u8, seed: usize) -> Seq<LinkView> {
    board().filter(|q: usize| in_chain(g, digit, seed, q)).map_values(
        |q: usize| LinkView { pos: q, colored: chain_color(g, digit, seed, q) },
    )
}

/// Whether `s` starts a chain: its cell has the digit as a candidate, and
/// no chain that starts at a lower position holds it.
pub open spec fn is_seed(g: Seq<CellView>, digit: u8, s: usize) -> bool
    decreases s, 1int,
{
    s < 81 && g[s as int].has_candidate(digit) && !covered(g, digit, s, s)
}

/// Whether a chain that starts below `upto` holds `q`.
pub open spec fn covered(g: Seq<CellView>, digit: u8, q: usize, upto: usize) -> bool
    decreases upto, 0int,
{
    upto > 0 && (covered(g, digit, q, (upto - 1) as usize) || (is_seed(
        g,
        digit,
        (upto - 1) as usize,
    ) && in_chain(g, digit, (upto - 1) as usize, q)))
}

/// The positions below `n` that start a chain, in ascending order.
pub open spec fn seeds_below(g: Seq<CellView>, digit: u8, n: int) -> Seq<usize> {
    board().take(n).filter(|s: usize| is_seed(g, digit, s))
}

/// The positions that start a chain, in ascending order.
pub open spec fn seeds(g: Seq<CellView>, digit: u8) -> Seq<usize> {
    seeds_below(g, digit, 81)
}

/// How the seeds below `n + 1` come from those below `n`.
pub proof fn lemma_seeds_next(g: Seq<CellView>, digit: u8, n: usize)
    requires
        n < 81,
    ensures
        seeds_below(g, digit, n + 1) == if is_seed(g, digit, n) {
            seeds_below(g, digit, n as int).push(n)
        } else {
            seeds_below(g, digit, n as int)
        },
{
    reveal(Seq::filter);
    assert(board().take(n + 1).drop_last() =~= board().take(n as int));
    assert(board().take(n + 1).last() == n);
}

/// A list that meets `is_chain` is the chain.
pub proof fn lemma_chain_links(g: Seq<CellView>, digit: u8, seed: usize, links: Seq<LinkView>)
    requires
        is_chain(g, digit, seed, links),
    ensures
        links == chain_links(g, digit, seed),
{
    let member = |q: usize| in_chain(g, digit, seed, q);
    let positions = links.map_values(|l: LinkView| l.pos);
    lemma_filter_ascending(board(), member);
    assert forall|q: usize| positions.to_set().contains(q) <==> board().filter(
        member,
    ).to_set().contains(q) by {
        if positions.contains(q) {
            let i = choose|i: int| 0 <= i < positions.len() && positions[i] == q;
            assert(chain_has(g, digit, seed, links[i]));
            assert(board()[q as int] == q);
        }
        if board().filter(member).contains(q) {
            let i = choose|i: int| 0 <= i < links.len() && (#[trigger] links[i]).pos == q;
            assert(positions[i] == q);
        }
    }
    assert(positions.to_set() =~= board().filter(member).to_set());
    lemma_ascending_unique(positions, board().filter(member));
    assert forall|i: int| 0 <= i < links.len() implies links[i] == chain_links(g, digit, seed)[i] by {
        assert(positions[i] == links[i].pos);
        assert(chain_has(g, digit, seed, links[i]));
    }
    assert(links =~= chain_links(g, digit, seed));
}

impl ChainLink {
    /// The removal that two links of the same colour lead to if they see each other.
    fn rule2(&self, other: &ChainLink, chain: &Vec<ChainLink>) -> (res: Option<Action>)
        requires
            self.pos < 81,
            other.pos < 81,
            forall|i: int| 0 <= i < chain@.len() ==> (#[trigger] chain@[i]).pos < 81,
        ensures
            res is Some <==> rule2_of(link_views(chain@), self@, other@, self.number) is Some,
            res matches Some(a) ==> Some(a@) == rule2_of(
                link_views(chain@),
                self@,
                other@,
                self.number,
            ) && a@.in_bounds(),
    {
        if self.is_colored != other.is_colored {
            return None;
        }
        let have_common_figures = Figure::row_of(self.pos) == Figure::row_of(other.pos)
            || Figure::col_of(self.pos) == Figure::col_of(other.pos) || Figure::sqr_of(self.pos)
            == Figure::sqr_of(other.pos);
        if !have_common_figures {
            return None;
        }
        let ghost links = link_views(chain@);
        let mut positions_to_remove_from: Vec<usize> = Vec::new();
        let mut i: usize = 0;
        while i < chain.len()
            invariant
                i <= chain@.len(),
                links == link_views(chain@),
                forall|q: usize|
                    positions_to_remove_from@.contains(q) <==> links.take(i as int).contains(
                        LinkView { pos: q, colored: self.is_colored },
                    ),
            decreases chain@.len() - i,
        {
            let link = &chain[i];
            let ghost before = positions_to_remove_from@;
            if link.is_colored == self.is_colored {
                positions_to_remove_from.push(link.pos);
            }
            proof {
                let done = links.take(i as int);
                let next = links.take(i + 1);
                assert(next =~= done.push(links[i as int]));
                assert(links[i as int] == link@);
                assert forall|q: usize|
                    positions_to_remove_from@.contains(q) <==> next.contains(
                        LinkView { pos: q, colored: self.is_colored },
                    ) by {
                    let wanted = LinkView { pos: q, colored: self.is_colored };
                    if positions_to_remove_from@.contains(q) {
                        let k = choose|k: int|
                            0 <= k < positions_to_remove_from@.len()
                                && positions_to_remove_from@[k] == q;
                        if k < before.len() {
                            assert(before[k] == q);
                            assert(before.contains(q));
                            let m = choose|m: int| 0 <= m < done.len() && done[m] == wanted;
                            assert(next[m] == wanted);
                        } else {
                            assert(next[i as int] == wanted);
                        }
                    }
                    if next.contains(wanted) {
                        let m = choose|m: int| 0 <= m < next.len() && next[m] == wanted;
                        if m < i {
                            assert(done[m] == wanted);
                            assert(before.contains(q));
                            let k = choose|k: int| 0 <= k < before.len() && before[k] == q;
                            assert(positions_to_remove_from@[k] == q);
                        } else {
                            assert(positions_to_remove_from@[before.len() as int] == q);
                        }
                    }
                }
            }
            i += 1;
        }
        let ghost chosen = positions_to_remove_from@;
        let figure = Figure::from(positions_to_remove_from);
        proof {
            assert(links.take(i as int) =~= links);
            let pred = |q: usize| links.contains(LinkView { pos: q, colored: self.is_colored });
            lemma_filter_ascending(board(), pred);
            assert forall|q: usize| figure@.to_set().contains(q) <==> board().filter(
                pred,
            ).to_set().contains(q) by {
                assert(chosen.to_set().contains(q) <==> chosen.contains(q));
                if pred(q) {
                    let wanted = LinkView { pos: q, colored: self.is_colored };
                    let m = choose|m: int| 0 <= m < links.len() && links[m] == wanted;
                    assert(chain@[m].pos == q);
                    assert(board()[q as int] == q);
                }
            }
            assert(figure@.to_set() =~= board().filter(pred).to_set());
            lemma_ascending_unique(figure@, board().filter(pred));
        }
        let mut pencilmarks: Vec<u8> = Vec::new();
        pencilmarks.push(self.number);
        assert(pencilmarks@ =~= seq![self.number]);
        Some(Action::RemovePencilmarks { figure, pencilmarks })
    }

    /// The removal that two links of different colours lead to.
    fn rule4(&self, other: &ChainLink) -> (res: Option<Action>)
        requires
            self.pos < 81,
            other.pos < 81,
        ensures
            res is Some <==> rule4_of(self@, other@, self.number) is Some,
            res matches Some(a) ==> Some(a@) == rule4_of(self@, other@, self.number)
                && a@.in_bounds(),
    {
        if self.is_colored == other.is_colored {
            return None;
        }
        let first = Figure::neighbours(self.pos);
        let second = Figure::neighbours(other.pos);
        let ghost near_first = first@;
        let ghost near_second = second@;
        let intersection = first.intersection(second);
        let ghost both = intersection@;
        proof {
            assert forall|q: usize|
                both.contains(q) <==> q < 81 && sees(self.pos as int, q as int) && sees(
                    other.pos as int,
                    q as int,
                ) by {
                assert(both.to_set().contains(q) <==> both.contains(q));
                assert(near_first.to_set().contains(q) <==> near_first.contains(q));
                assert(near_second.to_set().contains(q) <==> near_second.contains(q));
            }
        }
        if intersection.is_empty() {
            proof {
                if common_sight(self.pos, other.pos) {
                    let q = choose|q: usize|
                        q < 81 && sees(self.pos as int, q as int) && #[trigger] sees(
                            other.pos as int,
                            q as int,
                        );
                    assert(both.contains(q));
                }
            }
            return None;
        }
        proof {
            assert(both.contains(both[0]));
            assert(sees(other.pos as int, both[0] as int));
        }
        let mut ends: Vec<usize> = Vec::new();
        ends.push(self.pos);
        ends.push(other.pos);
        let ghost pair = ends@;
        let figure = intersection - Figure::from(ends);
        proof {
            let pred = |q: usize| sees_both(self.pos, other.pos, q);
            lemma_filter_ascending(board(), pred);
            assert forall|q: usize| figure@.to_set().contains(q) <==> board().filter(
                pred,
            ).to_set().contains(q) by {
                assert(both.to_set().contains(q) <==> both.contains(q));
                assert(pair.to_set().contains(q) <==> pair.contains(q));
                assert(pair[0] == self.pos && pair[1] == other.pos);
                if q < 81 {
                    assert(board()[q as int] == q);
                }
            }
            assert(figure@.to_set() =~= board().filter(pred).to_set());
            lemma_ascending_unique(figure@, board().filter(pred));
        }
        let mut pencilmarks: Vec<u8> = Vec::new();
        pencilmarks.push(self.number);
        assert(pencilmarks@ =~= seq![self.number]);
        Some(Action::RemovePencilmarks { figure, pencilmarks })
    }
}

/// Simple colouring: the cells with a digit are joined into chains by
/// strong links and coloured in turn, and the colours show where the digit
/// cannot be.
#[derive(Debug, Clone, Copy, PartialEq, Eq)]
pub struct SimpleColoring;

/// For each chain of a digit, the removals that it leads to.
pub open spec fn coloring_chain_parts(g: Seq<CellView>, digit: u8) -> spec_fn(int) -> Set<
    ActionView,
> {
    |c: int| chain_part(chain_links(g, digit, seeds(g, digit)[c]), digit)
}

/// For each of the digits from 1 to 9, the removals that its chains lead to.
pub open spec fn coloring_digit_parts(g: Seq<CellView>) -> spec_fn(int) -> Set<ActionView> {
    |n: int|
        union_below(
            seeds(g, (n + 1) as u8).len() as int,
            coloring_chain_parts(g, (n + 1) as u8),
        )
}

/// In a solved grid the method finds nothing.
pub proof fn lemma_coloring_solved(g: Seq<CellView>, method: SimpleColoring)
    requires
        g.len() == 81,
        spec_is_solved(g),
    ensures
        method.applications(g) == Set::<ActionView>::empty(),
{
    assert forall|n: int| 0 <= n < 9 implies #[trigger] coloring_digit_parts(g)(n)
        == Set::<ActionView>::empty() by {
        let digit = (n + 1) as u8;
        let starts = |s: usize| is_seed(g, digit, s);
        assert forall|i: int| 0 <= i < board().take(81).len() implies !starts(
            #[trigger] board().take(81)[i],
        ) by {
            assert(g[i] is Number);
        }
        lemma_filter_none(board().take(81), starts);
        lemma_union_below_none(coloring_chain_parts(g, digit));
    }
    crate::unions::lemma_union_below_empty(9, coloring_digit_parts(g));
}

impl SimpleColoring {
    /// The actions that the method proposes for a grid.
    pub open spec fn applications(self, g: Seq<CellView>) -> Set<ActionView> {
        union_below(9, coloring_digit_parts(g))
    }

    /// The chains of `number`: one for each position that has the digit as
    /// a candidate and belongs to no chain that starts at a lower position.
    fn get_chains_for_number(&self, grid: &Grid, number: u8) -> (res: Vec<Vec<ChainLink>>)
        ensures
            res@.len() == seeds(grid@, number).len(),
            forall|c: int|
                0 <= c < res@.len() ==> link_views((#[trigger] res@[c])@) == chain_links(
                    grid@,
                    number,
                    seeds(grid@, number)[c],
                ),
            forall|c: int, i: int|
                0 <= c < res@.len() && 0 <= i < res@[c]@.len() ==> (#[trigger] res@[c]@[i]).number
                    == number && res@[c]@[i].pos < 81,
            forall|c: int, i: int, j: int|
                0 <= c < res@.len() && 0 <= i < j < res@[c]@.len() ==> (#[trigger] res@[c]@[i]).pos
                    < (#[trigger] res@[c]@[j]).pos,
    {
        let ghost g = grid@;
        let mut res: Vec<Vec<ChainLink>> = Vec::new();
        let mut taken: Vec<bool> = Vec::new();
        let mut i: usize = 0;
        while i < 81
            invariant
                i <= 81,
                taken@.len() == i,
                forall|q: int| 0 <= q < i ==> !taken@[q],
            decreases 81 - i,
        {
            taken.push(false);
            i += 1;
        }
        let mut pos: usize = 0;
        proof {
            reveal(Seq::filter);
            assert(board().take(0) =~= Seq::<usize>::empty());
        }
        while pos < 81
            invariant
                pos <= 81,
                g == grid@,
                taken@.len() == 81,
                forall|q: usize| q < 81 ==> #[trigger] taken@[q as int] == covered(g, number, q, pos),
                res@.len() == seeds_below(g, number, pos as int).len(),
                forall|c: int|
                    0 <= c < res@.len() ==> link_views((#[trigger] res@[c])@) == chain_links(
                        g,
                        number,
                        seeds_below(g, number, pos as int)[c],
                    ),
                forall|c: int, i: int|
                    0 <= c < res@.len() && 0 <= i < res@[c]@.len() ==> (
                    #[trigger] res@[c]@[i]).number == number && res@[c]@[i].pos < 81,
                forall|c: int, i: int, j: int|
                    0 <= c < res@.len() && 0 <= i < j < res@[c]@.len() ==> (
                    #[trigger] res@[c]@[i]).pos < (#[trigger] res@[c]@[j]).pos,
            decreases 81 - pos,
        {
            proof {
                lemma_seeds_next(g, number, pos);
            }
            let has = match grid.get(pos) {
                Cell::Number(_) => false,
                Cell::Pencilmarks(pencilmarks) => has_digit(pencilmarks, number),
            };
            let ghost old_res = res@;
            if has && !taken[pos] {
                let seed = ChainLink { number, pos, is_colored: false };
                let chain = seed.get_chain(grid);
                proof {
                    assert(is_seed(g, number, pos));
                    lemma_chain_links(g, number, pos, link_views(chain@));
                    assert forall|i: int| 0 <= i < chain@.len() implies (#[trigger] chain@[i]).pos
                        < 81 by {
                        assert(link_views(chain@)[i].pos < 81);
                    }
                    assert forall|i: int, j: int| 0 <= i < j < chain@.len() implies (
                    #[trigger] chain@[i]).pos < (#[trigger] chain@[j]).pos by {
                        assert(link_views(chain@)[i].pos < link_views(chain@)[j].pos);
                    }
                }
                let mut k: usize = 0;
                while k < chain.len()
                    invariant
                        k <= chain@.len(),
                        pos < 81,
                        taken@.len() == 81,
                        is_chain(g, number, pos, link_views(chain@)),
                        forall|q: usize|
                            q < 81 ==> #[trigger] taken@[q as int] == (covered(g, number, q, pos)
                                || leads_to(link_views(chain@).take(k as int), q)),
                    decreases chain@.len() - k,
                {
                    let q = chain[k].pos;
                    proof {
                        let all = link_views(chain@);
                        let done = all.take(k as int);
                        let next = all.take(k + 1);
                        assert(all[k as int].pos == q);
                        assert forall|x: usize| leads_to(next, x) <==> leads_to(done, x) || x
                            == q by {
                            if leads_to(next, x) {
                                let i = choose|i: int|
                                    0 <= i < next.len() && (#[trigger] next[i]).pos == x;
                                if i < k {
                                    assert(done[i].pos == x);
                                }
                            }
                            if leads_to(done, x) {
                                let i = choose|i: int|
                                    0 <= i < done.len() && (#[trigger] done[i]).pos == x;
                                assert(next[i].pos == x);
                            }
                            if x == q {
                                assert(next[k as int].pos == x);
                            }
                        }
                    }
                    taken.set(q, true);
                    k += 1;
                }
                proof {
                    let all = link_views(chain@);
                    assert(all.take(k as int) =~= all);
                    assert forall|q: usize| q < 81 implies #[trigger] taken@[q as int] == covered(
                        g,
                        number,
                        q,
                        (pos + 1) as usize,
                    ) by {
                        if leads_to(all, q) {
                            let i = choose|i: int| 0 <= i < all.len() && (#[trigger] all[i]).pos == q;
                            assert(chain_has(g, number, pos, all[i]));
                        }
                        if in_chain(g, number, pos, q) {
                            assert(leads_to(all, q));
                        }
                    }
                }
                res.push(chain);
                proof {
                    let now = seeds_below(g, number, pos + 1);
                    assert forall|c: int| 0 <= c < res@.len() implies link_views(
                        (#[trigger] res@[c])@,
                    ) == chain_links(g, number, now[c]) by {
                        if c < old_res.len() {
                            assert(res@[c] == old_res[c]);
                        }
                    }
                    assert forall|c: int, i: int|
                        0 <= c < res@.len() && 0 <= i < res@[c]@.len() implies (
                    #[trigger] res@[c]@[i]).number == number && res@[c]@[i].pos < 81 by {
                        if c < old_res.len() {
                            assert(res@[c] == old_res[c]);
                            assert(old_res[c]@[i].number == number);
                        }
                    }
                    assert forall|c: int, i: int, j: int|
                        0 <= c < res@.len() && 0 <= i < j < res@[c]@.len() implies (
                    #[trigger] res@[c]@[i]).pos < (#[trigger] res@[c]@[j]).pos by {
                        if c < old_res.len() {
                            assert(res@[c] == old_res[c]);
                            assert(old_res[c]@[i].pos < old_res[c]@[j].pos);
                        }
                    }
                }
            } else {
                proof {
                    assert(!is_seed(g, number, pos));
                    assert forall|q: usize| q < 81 implies #[trigger] taken@[q as int] == covered(
                        g,
                        number,
                        q,
                        (pos + 1) as usize,
                    ) by {}
                }
            }
            pos += 1;
        }
        res
    }

    /// The removals that one chain leads to.
    fn chain_applications(chain: &Vec<ChainLink>, number: u8) -> (res: ActionSet)
        requires
            forall|i: int|
                0 <= i < chain@.len() ==> (#[trigger] chain@[i]).number == number && chain@[i].pos
                    < 81,
            forall|i: int, j: int|
                0 <= i < j < chain@.len() ==> (#[trigger] chain@[i]).pos < (
                #[trigger] chain@[j]).pos,
        ensures
            res@ == chain_part(link_views(chain@), number),
            forall|a: ActionView| res@.contains(a) ==> a.in_bounds(),
    {
        let mut res = ActionSet::new();
        let ghost links = link_views(chain@);
        proof {
            let positions = chain@.map_values(|l: ChainLink| l.pos);
            assert forall|i: int, j: int| 0 <= i < j < positions.len() implies positions[i]
                < positions[j] by {
                assert(chain@[i].pos < chain@[j].pos);
            }
            assert forall|i: int| 0 <= i < positions.len() implies positions[i] < 81 by {
                assert(chain@[i].pos < 81);
            }
            lemma_ascending_len(positions);
        }
        let combinations = index_combinations(chain.len(), 2);
        let ghost each = selection_parts(links, combinations@, number);
        let mut t: usize = 0;
        proof {
            lemma_union_below_none(each);
        }
        while t < combinations.len()
            invariant
                t <= combinations@.len(),
                links == link_views(chain@),
                forall|i: int|
                    0 <= i < chain@.len() ==> (#[trigger] chain@[i]).number == number
                        && chain@[i].pos < 81,
                forall|i: int|
                    0 <= i < combinations@.len() ==> is_selection(
                        #[trigger] combinations@[i]@,
                        chain@.len() as int,
                        2,
                    ),
                each == selection_parts(links, combinations@, number),
                res@ == union_below(t as int, each),
                forall|a: ActionView| res@.contains(a) ==> a.in_bounds(),
            decreases combinations@.len() - t,
        {
            proof {
                lemma_union_below_next(t as int, each);
                assert(is_selection(combinations@[t as int]@, chain@.len() as int, 2));
            }
            let ghost before = res@;
            let links_pair = &combinations[t];
            let link1 = &chain[links_pair[0]];
            let link2 = &chain[links_pair[1]];
            proof {
                assert(links[links_pair@[0] as int] == link1@);
                assert(links[links_pair@[1] as int] == link2@);
            }
            let rule2 = link1.rule2(link2, chain);
            let rule4 = link1.rule4(link2);
            if let Some(rule2) = rule2 {
                res.insert(rule2);
            }
            if let Some(rule4) = rule4 {
                res.insert(rule4);
            }
            assert(res@ =~= before.union(each(t as int)));
            t += 1;
        }
        proof {
            let whole = union_below(combinations@.len() as int, each);
            let part = chain_part(links, number);
            assert forall|a: ActionView| whole.contains(a) <==> part.contains(a) by {
                if whole.contains(a) {
                    let t = choose|t: int|
                        0 <= t < combinations@.len() && #[trigger] each(t).contains(a);
                    let sel = combinations@[t]@;
                    assert(is_selection(sel, chain@.len() as int, 2));
                    assert(pair_part(links, links[sel[0] as int], links[sel[1] as int], number).contains(
                        a,
                    ));
                }
                if part.contains(a) {
                    let (i, j) = choose|i: int, j: int|
                        0 <= i < j < links.len() && #[trigger] pair_part(
                            links,
                            links[i],
                            links[j],
                            number,
                        ).contains(a);
                    let sel = seq![i as usize, j as usize];
                    assert(is_selection(sel, chain@.len() as int, 2));
                    let t = choose|t: int|
                        0 <= t < combinations@.len() && #[trigger] combinations@[t]@ == sel;
                    assert(each(t).contains(a));
                }
            }
            assert(whole =~= part);
        }
        res
    }

    /// The actions that the method proposes for the grid.
    pub fn get_all_applications(&self, grid: &Grid) -> (res: ActionSet)
        ensures
            res@ == self.applications(grid@),
            forall|a: ActionView| res@.contains(a) ==> a.in_bounds(),
    {
        let mut res = ActionSet::new();
        let ghost g = grid@;
        let mut i: u8 = 1;
        proof {
            lemma_union_below_none(coloring_digit_parts(g));
        }
        while i <= 9
            invariant
                1 <= i <= 10,
                g == grid@,
                res@ == union_below(i - 1, coloring_digit_parts(g)),
                forall|a: ActionView| res@.contains(a) ==> a.in_bounds(),
            decreases 10 - i,
        {
            let chains = self.get_chains_for_number(grid, i);
            let ghost parts = coloring_chain_parts(g, i);
            let ghost done = res@;
            proof {
                lemma_union_below_next(i - 1, coloring_digit_parts(g));
                lemma_union_below_none(parts);
            }
            let mut c: usize = 0;
            while c < chains.len()
                invariant
                    c <= chains@.len(),
                    1 <= i <= 9,
                    chains@.len() == seeds(g, i).len(),
                    forall|c: int|
                        0 <= c < chains@.len() ==> link_views((#[trigger] chains@[c])@)
                            == chain_links(g, i, seeds(g, i)[c]),
                    forall|c: int, k: int|
                        0 <= c < chains@.len() && 0 <= k < chains@[c]@.len() ==> (
                        #[trigger] chains@[c]@[k]).number == i && chains@[c]@[k].pos < 81,
                    forall|c: int, k: int, j: int|
                        0 <= c < chains@.len() && 0 <= k < j < chains@[c]@.len() ==> (
                        #[trigger] chains@[c]@[k]).pos < (#[trigger] chains@[c]@[j]).pos,
                    parts == coloring_chain_parts(g, i),
                    res@ == done.union(union_below(c as int, parts)),
                    forall|a: ActionView| res@.contains(a) ==> a.in_bounds(),
                decreases chains@.len() - c,
            {
                proof {
                    lemma_union_below_next(c as int, parts);
                }
                let chain = &chains[c];
                res.extend(SimpleColoring::chain_applications(chain, i));
                assert(res@ =~= done.union(union_below(c + 1, parts)));
                c += 1;
            }
            proof {
                assert(coloring_digit_parts(g)(i - 1) == union_below(
                    seeds(g, i).len() as int,
                    parts,
                ));
            }
            i += 1;
        }
        res
    }
}

} // verus!
