//! The graded book of a product, and the scale it is graded at.
use crate::census::{enter_decoded, Ledger, Tally};
use crate::codec::{AddressedCodec, CodedMatrix, Enumerable};
use crate::element::{Alphabet, Bound, Element};
use crate::family::{
    book_gradable, book_met, met_elements, panel_elements, rows_gradable, sparse_book, step_within,
    Graded, Tabulated,
};
use crate::scale::LaneScale;
use crate::sequence::{lemma_cell, lemma_cell_apart};
use crate::sizing::TALLEST_TILE;
use crate::tile::book_ready;
use crate::view::MatView;
use vstd::prelude::*;

verus! {

/// The list names a place.
pub open spec fn lists(list: Seq<usize>, place: nat) -> bool {
    exists|y: int| 0 <= y < list.len() && #[trigger] list[y] == place
}

/// The list names every place that the codes of `w` name, and nothing past the
/// book.
pub open spec fn lists_places<E: Element, Bd: Bound, C: Enumerable<E, Bd>>(
    list: Seq<usize>,
    w: CodedMatrix<'_, E, Bd, C>,
) -> bool {
    &&& C::block() == 1
    &&& forall|y: int| 0 <= y < list.len() ==> #[trigger] list[y] < C::space()
    &&& forall|x: int|
        0 <= x < w.codes@.len() ==> lists(list, C::index(#[trigger] w.codes@[x]))
}

/// Every listed entry of a book of blocks of one can be graded at `base`.
pub open spec fn listed_gradable<E: Graded, Bd: Bound, C: Enumerable<E, Bd>>(
    w: CodedMatrix<'_, E, Bd, C>,
    list: Seq<usize>,
    base: i32,
) -> bool {
    forall|y: int|
        0 <= y < list.len() ==> w.codec.decoded(
            C::at_index(#[trigger] list[y] as int),
            0,
        ).element().gradable(base)
}

/// Every book element that is decoded can be graded at `base`.
pub open spec fn decodes_gradable<E: Graded, Bd: Bound, C: Enumerable<E, Bd>>(
    w: CodedMatrix<'_, E, Bd, C>,
    addressed: Option<Seq<usize>>,
    base: i32,
) -> bool {
    match addressed {
        Some(list) => listed_gradable(w, list, base),
        None => book_gradable(w, base),
    }
}

/// The list that may be there, as a sequence.
pub open spec fn list_of(addressed: Option<&[usize]>) -> Option<Seq<usize>> {
    match addressed {
        Some(list) => Some(list@),
        None => None,
    }
}

/// Book elements that are decoded.
pub open spec fn decoded_count<E: Element, Bd: Bound, C: Enumerable<E, Bd>>(
    w: CodedMatrix<'_, E, Bd, C>,
    addressed: Option<Seq<usize>>,
) -> nat {
    match addressed {
        Some(list) => list.len(),
        None => book_met(w),
    }
}

/// The book elements that finding a scale looks at where the entries that codes
/// name have been listed: those, or every entry where they are no fewer.
pub open spec fn addressed_met<E: Element, Bd: Bound, C: Enumerable<E, Bd>>(
    w: CodedMatrix<'_, E, Bd, C>,
    addressed: Option<Seq<usize>>,
) -> Seq<E> {
    match addressed {
        None => met_elements(w),
        Some(list) => if list.len() < C::space() {
            Seq::new(
                list.len(),
                |y: int| w.codec.decoded(C::at_index(list[y] as int), 0).element(),
            )
        } else {
            Seq::new(C::space(), |x: int| w.codec.decoded(C::at_index(x), 0).element())
        },
    }
}

proof fn lemma_addressed_met<E: Element, Bd: Bound, C: Enumerable<E, Bd>>(
    w: CodedMatrix<'_, E, Bd, C>,
    distinct: CodedMatrix<'_, E, Bd, AddressedCodec<C>>,
)
    requires
        C::block() == 1,
        C::space() > 0,
        distinct.codec.0 == w.codec,
        forall|y: int| 0 <= y < distinct.codes@.len()
            ==> #[trigger] distinct.codes@[y] < C::space(),
    ensures
        met_elements(distinct) == addressed_met(w, Some(distinct.codes@)),
{
    let list = distinct.codes@;
    C::extents_fit();
    assert(<AddressedCodec<C> as Enumerable<E, Bd>>::block() == 1);
    if list.len() < C::space() {
        assert forall|x: int| 0 <= x < list.len() implies #[trigger] met_elements(distinct)[x]
            == w.codec.decoded(C::at_index(list[x] as int), 0).element() by {
            vstd::arithmetic::div_mod::lemma_small_mod(list[x] as nat, C::space());
        }
    } else {
        assert(C::space() * 1 == C::space()) by (nonlinear_arith);
        assert forall|x: int| 0 <= x < C::space() implies #[trigger] met_elements(distinct)[x]
            == w.codec.decoded(C::at_index(x), 0).element() by {
            assert(x / 1 == x && x % 1 == 0);
        }
    }
    assert(met_elements(distinct) =~= addressed_met(w, Some(list)));
}

/// The scale of a product: of the entries that are addressed where they are
/// listed, and otherwise of the book.
pub fn addressed_lane_scale<E: Tabulated, Bd: Bound, C: Enumerable<E, Bd>, Lg: Ledger>(
    a: &MatView<'_, Alphabet<E, Bd>>,
    w: &CodedMatrix<'_, E, Bd, C>,
    addressed: Option<&[usize]>,
    ledger: &mut Lg,
) -> (r: Option<LaneScale>)
    requires
        a.wf(),
        w.wf(),
        C::space() > 0,
        forall|i: int, p: int|
            0 <= i < a.rows && 0 <= p < a.cols ==> (#[trigger] a.cell(i, p)).inv(),
        list_of(addressed) matches Some(list) ==> lists_places(list, *w),
    ensures
        r is Some <==> E::scales(),
        r matches Some(scale) ==> {
            &&& rows_gradable(*a, scale.base_a)
            &&& decodes_gradable(*w, list_of(addressed), scale.base_b)
            &&& E::admissible(Bd::bound(), scale)
            &&& E::step_known(scale) ==> forall|i: int, p: int, x: int, t: int|
                #![trigger a.cell(i, p), w.codec.decoded(w.codes@[x], t)]
                0 <= i < a.rows && 0 <= p < a.cols && 0 <= x < w.codes@.len() && 0 <= t
                    < C::block() ==> step_within(
                    scale,
                    a.cell(i, p).element(),
                    w.codec.decoded(w.codes@[x], t).element(),
                )
        },
        r matches Some(scale) ==> scale == E::found_scale(
            panel_elements(*a),
            addressed_met(*w, list_of(addressed)),
            a.cols == 1 && C::block() == 1,
            Bd::bound(),
        ),
        *final(ledger) == old(ledger).charged(
            E::scale_tally(
                panel_elements(*a),
                addressed_met(*w, list_of(addressed)),
                a.cols == 1 && C::block() == 1,
            ),
        ),
{
    match addressed {
        None => E::lane_scale(a, w, ledger),
        Some(list) => {
            let distinct: CodedMatrix<'_, E, Bd, AddressedCodec<C>> = CodedMatrix {
                codec: AddressedCodec(w.codec),
                rows: list.len(),
                cols: 1,
                codes: list,
            };
            proof {
                assert(<AddressedCodec<C> as Enumerable<E, Bd>>::block() == 1);
                assert(distinct.per_row() == 1);
                assert(distinct.codes@.len() == distinct.rows * distinct.per_row());
                assert(distinct.cols as int % 1 == 0);
                assert forall|y: int| 0 <= y < distinct.codes@.len() implies <AddressedCodec<
                    C,
                > as Enumerable<E, Bd>>::valid(#[trigger] distinct.codes@[y]) by {
                    assert(list@[y] < C::space());
                }
                assert(distinct.wf());
            }
            let found: Option<LaneScale> = E::lane_scale(a, &distinct, ledger);
            proof {
                lemma_addressed_met(*w, distinct);
                if let Some(scale) = found {
                    assert forall|y: int| 0 <= y < list@.len() implies w.codec.decoded(
                        C::at_index(#[trigger] list@[y] as int),
                        0,
                    ).element().gradable(scale.base_b) by {
                        assert(distinct.codec.decoded(distinct.codes@[y], 0).element().gradable(
                            scale.base_b,
                        ));
                    }
                    assert forall|i: int, p: int, x: int, t: int|
                        #![trigger a.cell(i, p), w.codec.decoded(w.codes@[x], t)]
                        E::step_known(scale) && 0 <= i < a.rows && 0 <= p < a.cols && 0 <= x
                            < w.codes@.len() && 0 <= t < C::block() implies step_within(
                        scale,
                        a.cell(i, p).element(),
                        w.codec.decoded(w.codes@[x], t).element(),
                    ) by {
                        assert(lists(list@, C::index(w.codes@[x])));
                        let y = choose|y: int|
                            0 <= y < list@.len() && #[trigger] list@[y] == C::index(w.codes@[x]);
                        w.codec.names(w.codes@[x], t);
                        assert(distinct.codec.decoded(distinct.codes@[y], 0) == w.codec.decoded(
                            w.codes@[x],
                            t,
                        ));
                        assert(step_within(
                            scale,
                            a.cell(i, p).element(),
                            distinct.codec.decoded(distinct.codes@[y], 0).element(),
                        ));
                    }
                }
            }
            found
        },
    }
}

/// A stored code names place `c`.
pub open spec fn stores<E: Element, Bd: Bound, C: Enumerable<E, Bd>>(
    w: CodedMatrix<'_, E, Bd, C>,
    c: int,
) -> bool {
    exists|x: int| 0 <= x < w.codes@.len() && C::index(#[trigger] w.codes@[x]) == c
}

/// Entry `c` of the book is decoded: it is listed where there is a list, a
/// stored code names it where the book is sparse, and every entry is otherwise.
pub open spec fn entry_decoded<E: Element, Bd: Bound, C: Enumerable<E, Bd>>(
    w: CodedMatrix<'_, E, Bd, C>,
    addressed: Option<Seq<usize>>,
    c: int,
) -> bool {
    &&& 0 <= c < C::space()
    &&& match addressed {
        Some(list) => lists(list, c as nat),
        None => sparse_book(w) ==> stores(w, c),
    }
}

/// The panel holds the graded elements of every entry that is decoded, and is
/// as it was everywhere else.
pub open spec fn book_written<E: Graded, Bd: Bound, C: Enumerable<E, Bd>>(
    now: Seq<E>,
    before: Seq<E>,
    w: CodedMatrix<'_, E, Bd, C>,
    addressed: Option<Seq<usize>>,
    base: i32,
) -> bool {
    &&& now.len() == before.len()
    &&& forall|c: int, t: int|
        #![trigger now[c * C::block() + t]]
        0 <= c < C::space() && 0 <= t < C::block() ==> now[c * C::block() + t] == if entry_decoded(
            w,
            addressed,
            c,
        ) {
            w.codec.decoded(C::at_index(c), t).element().graded(base)
        } else {
            before[c * C::block() + t]
        }
    &&& forall|q: int|
        C::space() * C::block() <= q < now.len() ==> #[trigger] now[q] == before[q]
}

/// Cells of a panel that holds a book and one tile of activations.
pub open spec fn panel_cells(space: int, block: int) -> int {
    (space + TALLEST_TILE) * block
}

/// Decodes and grades the book into the head of the panel, where the panel
/// holds it and one tile of activations beside: only the listed entries where
/// there is a list, only the stored codes where they are fewer than the book,
/// and otherwise every entry. No other cell is touched. Decodes count twice where
/// grading looks at the data.
pub fn decode_book<E: Tabulated, Bd: Bound, C: Enumerable<E, Bd>, Lg: Ledger>(
    w: &CodedMatrix<'_, E, Bd, C>,
    panel: &mut [E],
    base: i32,
    addressed: Option<&[usize]>,
    projection_decodes: bool,
    ledger: &mut Lg,
) -> (r: bool)
    requires
        w.wf(),
        C::space() > 0,
        list_of(addressed) matches Some(list) ==> lists_places(list, *w),
        decodes_gradable(*w, list_of(addressed), base),
    ensures
        r == (panel_cells(C::space() as int, C::block() as int) <= old(panel)@.len()),
        final(panel)@.len() == old(panel)@.len(),
        !r ==> final(panel)@ == old(panel)@,
        r ==> book_ready(final(panel)@, *w, base),
        r ==> book_written(final(panel)@, old(panel)@, *w, list_of(addressed), base),
        *final(ledger) == old(ledger).charged(
            if !r {
                Tally::none()
            } else if projection_decodes {
                Tally::decoding(2 * decoded_count(*w, list_of(addressed)))
            } else {
                Tally::decoding(decoded_count(*w, list_of(addressed)))
            },
        ),
{
    let space: usize = C::code_space();
    let block: usize = C::max_block();
    let ghost begun = *ledger;
    proof {
        begun.charges_nothing();
        assert(panel.len() == panel@.len());
        assert((space + TALLEST_TILE) * block >= 0 && space * block <= (space + TALLEST_TILE)
            * block) by (nonlinear_arith);
    }
    let cells: usize = match space.checked_add(TALLEST_TILE) {
        None => {
            proof {
                assert((space + TALLEST_TILE) * block >= space + TALLEST_TILE) by (nonlinear_arith)
                    requires
                        block >= 1,
                ;
            }
            return false;
        },
        Some(tall) => match tall.checked_mul(block) {
            None => {
                return false;
            },
            Some(cells) => cells,
        },
    };
    if panel.len() < cells {
        return false;
    }
    if let Some(list) = addressed {
        decode_listed(w, panel, base, list);
        enter_decoded(ledger, list.len(), 1);
        proof {
            assert(list@.len() * 1 == list@.len());
            let t = Tally::decoding(list@.len() as nat);
            begun.charges_compose(t, t);
            assert(t.plus(t) == Tally::decoding(2 * list@.len() as nat));
        }
        if projection_decodes {
            enter_decoded(ledger, list.len(), 1);
        }
        return true;
    }
    if block == 1 && !C::sign_bit_book() && w.codes.len() < space {
        decode_stored(w, panel, base);
        enter_decoded(ledger, w.codes.len(), 1);
        proof {
            assert(w.codes@.len() * 1 == w.codes@.len());
            let t = Tally::decoding(w.codes@.len() as nat);
            begun.charges_compose(t, t);
            assert(t.plus(t) == Tally::decoding(2 * w.codes@.len() as nat));
        }
        if projection_decodes {
            enter_decoded(ledger, w.codes.len(), 1);
        }
        return true;
    }
    decode_entries(w, panel, base);
    enter_decoded(ledger, space, block);
    proof {
        assert(0 <= space * block) by (nonlinear_arith);
        let t = Tally::decoding((space * block) as nat);
        begun.charges_compose(t, t);
        assert(t.plus(t) == Tally::decoding(2 * (space * block) as nat));
    }
    if projection_decodes {
        enter_decoded(ledger, space, block);
    }
    true
}

/// A panel of blocks of one that holds the graded entry of every place that a
/// code of `w` names.
proof fn lemma_ready<E: Graded, Bd: Bound, C: Enumerable<E, Bd>>(
    panel: Seq<E>,
    w: CodedMatrix<'_, E, Bd, C>,
    base: i32,
)
    requires
        w.wf(),
        C::block() == 1,
        C::space() > 0,
        C::space() <= panel.len(),
        forall|x: int|
            0 <= x < w.codes@.len() ==> {
                let e = w.codec.decoded(
                    C::at_index(C::index(#[trigger] w.codes@[x]) as int),
                    0,
                ).element();
                e.gradable(base) && panel[C::index(w.codes@[x]) as int] == e.graded(base)
            },
    ensures
        book_ready(panel, w, base),
{
    assert(C::space() * C::block() == C::space()) by (nonlinear_arith)
        requires
            C::block() == 1,
    ;
    assert forall|x: int, t: int|
        #![trigger w.codec.decoded(w.codes@[x], t)]
        0 <= x < w.codes@.len() && 0 <= t < C::block() implies {
        &&& w.codec.decoded(w.codes@[x], t).element().gradable(base)
        &&& panel[C::index(w.codes@[x]) * C::block() + t] == w.codec.decoded(
            w.codes@[x],
            t,
        ).element().graded(base)
    } by {
        w.codec.names(w.codes@[x], t);
        assert(C::index(w.codes@[x]) * C::block() + t == C::index(w.codes@[x]))
            by (nonlinear_arith)
            requires
                C::block() == 1,
                t == 0,
        ;
    }
}

/// A book of blocks of one has its entries side by side.
proof fn lemma_single(block: int, c: int, t: int)
    requires
        block == 1,
        0 <= t < block,
    ensures
        t == 0,
        c * block + t == c,
{
    assert(c * block == c) by (nonlinear_arith)
        requires
            block == 1,
    ;
}

/// Decodes the listed entries of a book of blocks of one.
fn decode_listed<E: Tabulated, Bd: Bound, C: Enumerable<E, Bd>>(
    w: &CodedMatrix<'_, E, Bd, C>,
    panel: &mut [E],
    base: i32,
    list: &[usize],
)
    requires
        w.wf(),
        C::space() > 0,
        lists_places(list@, *w),
        listed_gradable(*w, list@, base),
        C::space() * C::block() <= old(panel)@.len(),
    ensures
        final(panel)@.len() == old(panel)@.len(),
        book_ready(final(panel)@, *w, base),
        book_written(final(panel)@, old(panel)@, *w, Some(list@), base),
{
    let mut y: usize = 0;
    assert(C::space() * C::block() == C::space()) by (nonlinear_arith)
        requires
            C::block() == 1,
    ;
    while y < list.len()
        invariant
            w.wf(),
            y <= list@.len(),
            lists_places(list@, *w),
            listed_gradable(*w, list@, base),
            panel@.len() == old(panel)@.len(),
            C::space() <= panel@.len(),
            forall|x: int|
                0 <= x < y ==> panel@[#[trigger] list@[x] as int] == w.codec.decoded(
                    C::at_index(list@[x] as int),
                    0,
                ).element().graded(base),
            forall|q: int|
                0 <= q < panel@.len() && !lists(list@.take(y as int), q as nat)
                    ==> #[trigger] panel@[q] == old(panel)@[q],
        decreases list@.len() - y,
    {
        let index: usize = list[y];
        proof {
            assert(list@[y as int] == index);
            C::enumerates(index as int);
        }
        let entry: Alphabet<E, Bd> = w.codec.decode_element(C::code_at(index), 0);
        let ghost before = panel@;
        panel[index] = E::prescale(entry.get(), base);
        proof {
            let (shorter, longer) = (list@.take(y as int), list@.take(y + 1));
            assert(longer[y as int] == index);
            assert forall|q: int|
                0 <= q < panel@.len() && !lists(longer, q as nat) implies #[trigger] panel@[q]
                == old(panel)@[q] by {
                if lists(shorter, q as nat) {
                    let x = choose|x: int| 0 <= x < shorter.len() && #[trigger] shorter[x] == q;
                    assert(longer[x] == shorter[x]);
                }
                assert(panel@[q] == before[q]);
            }
        }
        y = y + 1;
    }
    proof {
        assert forall|x: int| 0 <= x < w.codes@.len() implies {
            let e = w.codec.decoded(
                C::at_index(C::index(#[trigger] w.codes@[x]) as int),
                0,
            ).element();
            e.gradable(base) && panel@[C::index(w.codes@[x]) as int] == e.graded(base)
        } by {
            assert(lists(list@, C::index(w.codes@[x])));
            let y = choose|y: int|
                0 <= y < list@.len() && #[trigger] list@[y] == C::index(w.codes@[x]);
            assert(panel@[list@[y] as int] == w.codec.decoded(
                C::at_index(list@[y] as int),
                0,
            ).element().graded(base));
        }
        lemma_ready(panel@, *w, base);
        assert(list@.take(y as int) =~= list@);
        assert forall|c: int, t: int|
            #![trigger panel@[c * C::block() + t]]
            0 <= c < C::space() && 0 <= t < C::block() implies panel@[c * C::block() + t]
            == if entry_decoded(*w, Some(list@), c) {
            w.codec.decoded(C::at_index(c), t).element().graded(base)
        } else {
            old(panel)@[c * C::block() + t]
        } by {
            lemma_single(C::block() as int, c, t);
            if lists(list@, c as nat) {
                let x = choose|x: int| 0 <= x < list@.len() && #[trigger] list@[x] == c;
                assert(panel@[list@[x] as int] == w.codec.decoded(
                    C::at_index(list@[x] as int),
                    0,
                ).element().graded(base));
            }
        }
        assert forall|q: int|
            C::space() * C::block() <= q < panel@.len() implies #[trigger] panel@[q] == old(
            panel,
        )@[q] by {
            if lists(list@, q as nat) {
                let x = choose|x: int| 0 <= x < list@.len() && #[trigger] list@[x] == q;
            }
        }
    }
}

/// Decodes the entries of the stored codes of a book of blocks of one.
fn decode_stored<E: Tabulated, Bd: Bound, C: Enumerable<E, Bd>>(
    w: &CodedMatrix<'_, E, Bd, C>,
    panel: &mut [E],
    base: i32,
)
    requires
        w.wf(),
        C::space() > 0,
        C::block() == 1,
        sparse_book(*w),
        book_gradable(*w, base),
        C::space() * C::block() <= old(panel)@.len(),
    ensures
        final(panel)@.len() == old(panel)@.len(),
        book_ready(final(panel)@, *w, base),
        book_written(final(panel)@, old(panel)@, *w, None, base),
{
    let mut x: usize = 0;
    assert(C::space() * C::block() == C::space()) by (nonlinear_arith)
        requires
            C::block() == 1,
    ;
    proof {
        assert forall|y: int| 0 <= y < w.codes@.len() implies w.codec.decoded(
            C::at_index(C::index(#[trigger] w.codes@[y]) as int),
            0,
        ).element().gradable(base) && C::index(w.codes@[y]) < C::space() by {
            w.codec.names(w.codes@[y], 0);
            assert(w.codec.decoded(w.codes@[y], 0).element().gradable(base));
        }
    }
    while x < w.codes.len()
        invariant
            w.wf(),
            x <= w.codes@.len(),
            C::space() > 0,
            C::block() == 1,
            panel@.len() == old(panel)@.len(),
            C::space() <= panel@.len(),
            forall|y: int|
                0 <= y < w.codes@.len() ==> w.codec.decoded(
                    C::at_index(C::index(#[trigger] w.codes@[y]) as int),
                    0,
                ).element().gradable(base) && C::index(w.codes@[y]) < C::space(),
            forall|y: int|
                0 <= y < x ==> panel@[C::index(#[trigger] w.codes@[y]) as int] == w.codec.decoded(
                    C::at_index(C::index(w.codes@[y]) as int),
                    0,
                ).element().graded(base),
            forall|q: int|
                0 <= q < panel@.len() && !stores(*w, q) ==> #[trigger] panel@[q] == old(panel)@[q],
            forall|q: int|
                C::space() <= q < panel@.len() ==> #[trigger] panel@[q] == old(panel)@[q],
        decreases w.codes@.len() - x,
    {
        let index: usize = C::index_of(w.codes[x]);
        assert(C::valid(w.codes@[x as int]));
        proof {
            C::enumerates(index as int);
        }
        let entry: Alphabet<E, Bd> = w.codec.decode_element(C::code_at(index), 0);
        let ghost before = panel@;
        panel[index] = E::prescale(entry.get(), base);
        proof {
            assert(stores(*w, index as int));
            assert forall|q: int|
                0 <= q < panel@.len() && !stores(*w, q) implies #[trigger] panel@[q] == old(
                panel,
            )@[q] by {
                assert(panel@[q] == before[q]);
            }
            assert forall|q: int| C::space() <= q < panel@.len() implies #[trigger] panel@[q]
                == old(panel)@[q] by {
                assert(panel@[q] == before[q]);
            }
        }
        x = x + 1;
    }
    proof {
        lemma_ready(panel@, *w, base);
        assert forall|c: int, t: int|
            #![trigger panel@[c * C::block() + t]]
            0 <= c < C::space() && 0 <= t < C::block() implies panel@[c * C::block() + t]
            == if entry_decoded(*w, None, c) {
            w.codec.decoded(C::at_index(c), t).element().graded(base)
        } else {
            old(panel)@[c * C::block() + t]
        } by {
            lemma_single(C::block() as int, c, t);
            if stores(*w, c) {
                let y = choose|y: int|
                    0 <= y < w.codes@.len() && C::index(#[trigger] w.codes@[y]) == c;
                assert(panel@[C::index(w.codes@[y]) as int] == w.codec.decoded(
                    C::at_index(C::index(w.codes@[y]) as int),
                    0,
                ).element().graded(base));
            }
        }
    }
}

/// Decodes every entry of a book.
fn decode_entries<E: Tabulated, Bd: Bound, C: Enumerable<E, Bd>>(
    w: &CodedMatrix<'_, E, Bd, C>,
    panel: &mut [E],
    base: i32,
)
    requires
        w.wf(),
        C::space() > 0,
        !sparse_book(*w),
        book_gradable(*w, base),
        C::space() * C::block() <= old(panel)@.len(),
    ensures
        final(panel)@.len() == old(panel)@.len(),
        book_ready(final(panel)@, *w, base),
        book_written(final(panel)@, old(panel)@, *w, None, base),
{
    let space: usize = C::code_space();
    let block: usize = C::max_block();
    let ghost b = block as int;
    proof {
        assert(panel.len() == panel@.len());
    }
    let mut index: usize = 0;
    while index < space
        invariant
            w.wf(),
            space == C::space(),
            block == b == C::block(),
            b > 0,
            index <= space,
            !sparse_book(*w),
            book_gradable(*w, base),
            panel@.len() == old(panel)@.len(),
            space * b <= panel@.len() <= usize::MAX,
            forall|c: int, t: int|
                #![trigger panel@[c * b + t]]
                0 <= c < index && 0 <= t < b ==> panel@[c * b + t] == w.codec.decoded(
                    C::at_index(c),
                    t,
                ).element().graded(base),
            forall|q: int|
                space * b <= q < panel@.len() ==> #[trigger] panel@[q] == old(panel)@[q],
        decreases space - index,
    {
        let mut t: usize = 0;
        while t < block
            invariant
                w.wf(),
                space == C::space(),
                block == b == C::block(),
                b > 0,
                index < space,
                t <= block,
                !sparse_book(*w),
                book_gradable(*w, base),
                panel@.len() == old(panel)@.len(),
                space * b <= panel@.len() <= usize::MAX,
                forall|c: int, u: int|
                    #![trigger panel@[c * b + u]]
                    0 <= c <= index && 0 <= u < b && (c < index || u < t) ==> panel@[c * b + u]
                        == w.codec.decoded(C::at_index(c), u).element().graded(base),
                forall|q: int|
                    space * b <= q < panel@.len() ==> #[trigger] panel@[q] == old(panel)@[q],
            decreases block - t,
        {
            proof {
                C::enumerates(index as int);
                lemma_cell(space as int, b, index as int, t as int);
                assert(w.codec.decoded(C::at_index(index as int), t as int).element().gradable(
                    base,
                ));
            }
            let entry: Alphabet<E, Bd> = w.codec.decode_element(C::code_at(index), t);
            let ghost before = panel@;
            panel[index * block + t] = E::prescale(entry.get(), base);
            proof {
                assert forall|c: int, u: int|
                    #![trigger panel@[c * b + u]]
                    0 <= c <= index && 0 <= u < b && (c < index || u < t + 1) implies panel@[c * b
                    + u] == w.codec.decoded(C::at_index(c), u).element().graded(base) by {
                    lemma_cell(space as int, b, c, u);
                    if c * b + u == index * b + t {
                        lemma_cell_apart(b, c, u, index as int, t as int);
                    } else {
                        assert(panel@[c * b + u] == before[c * b + u]);
                    }
                }
            }
            t = t + 1;
        }
        index = index + 1;
    }
    proof {
        assert forall|x: int, t: int|
            #![trigger w.codec.decoded(w.codes@[x], t)]
            0 <= x < w.codes@.len() && 0 <= t < b implies {
            &&& w.codec.decoded(w.codes@[x], t).element().gradable(base)
            &&& panel@[C::index(w.codes@[x]) * b + t] == w.codec.decoded(
                w.codes@[x],
                t,
            ).element().graded(base)
        } by {
            w.codec.names(w.codes@[x], t);
            let c = C::index(w.codes@[x]) as int;
            assert(panel@[c * b + t] == w.codec.decoded(C::at_index(c), t).element().graded(base));
        }
    }
}

} // verus!
