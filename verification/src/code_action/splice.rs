//! Replacements inside a piece of text, collected first and applied together.
use vstd::prelude::*;
use crate::text::{replace_range, replaced};

verus! {

/// A replacement of the bytes `[start, end)` of the source.
#[derive(Debug)]
pub struct Splice {
    pub start: usize,
    pub end: usize,
    pub text: String,
}

/// What a [`Splice`] says.
pub struct SpliceView {
    pub start: usize,
    pub end: usize,
    pub text: Seq<char>,
}

impl View for Splice {
    type V = SpliceView;

    open spec fn view(&self) -> SpliceView {
        SpliceView { start: self.start, end: self.end, text: self.text@ }
    }
}

/// What each of a run of splices says.
pub open spec fn splice_views(splices: Seq<Splice>) -> Seq<SpliceView> {
    splices.map_values(|splice: Splice| splice@)
}

/// `splice` put behind every one of `ordered` that starts no earlier, and before the rest.
pub open spec fn put_in_order(ordered: Seq<SpliceView>, splice: SpliceView) -> Seq<SpliceView>
    decreases ordered.len(),
{
    if ordered.len() == 0 || ordered.last().start >= splice.start {
        ordered.push(splice)
    } else {
        put_in_order(ordered.drop_last(), splice).push(ordered.last())
    }
}

/// The splices, those that start last first; those that start together as they came.
pub open spec fn latest_first(splices: Seq<SpliceView>) -> Seq<SpliceView>
    decreases splices.len(),
{
    if splices.len() == 0 {
        splices
    } else {
        put_in_order(latest_first(splices.drop_last()), splices.last())
    }
}

/// `text` with the splices applied one after another. Their offsets count from `base`.
pub open spec fn spliced(text: Seq<char>, base: int, splices: Seq<SpliceView>) -> Seq<char>
    decreases splices.len(),
{
    if splices.len() == 0 {
        text
    } else {
        let last = splices.last();
        replaced(
            spliced(text, base, splices.drop_last()),
            last.start - base,
            last.end - base,
            last.text,
        )
    }
}

/// Whether splices come those that start last first.
pub open spec fn descending(splices: Seq<SpliceView>) -> bool {
    forall|i: int, j: int|
        0 <= i < j < splices.len() ==> (#[trigger] splices[i]).start >= (
        #[trigger] splices[j]).start
}

proof fn lemma_put_in_order(ordered: Seq<SpliceView>, splice: SpliceView)
    requires
        descending(ordered),
    ensures
        descending(put_in_order(ordered, splice)),
        put_in_order(ordered, splice).to_multiset() =~= ordered.to_multiset().insert(splice),
        forall|i: int|
            0 <= i < put_in_order(ordered, splice).len() ==> (#[trigger] put_in_order(
                ordered,
                splice,
            )[i]) == splice || exists|j: int|
                0 <= j < ordered.len() && put_in_order(ordered, splice)[i] == ordered[j],
    decreases ordered.len(),
{
    broadcast use vstd::seq_lib::group_to_multiset_ensures;

    if ordered.len() > 0 {
        let front = ordered.drop_last();
        assert(ordered =~= front.push(ordered.last()));
        lemma_put_in_order(front, splice);
        let rest = put_in_order(front, splice);
        let all = put_in_order(ordered, splice);
        if ordered.last().start < splice.start {
            assert forall|i: int| 0 <= i < all.len() implies #[trigger] all[i] == splice || exists|
                j: int,
            | 0 <= j < ordered.len() && all[i] == ordered[j] by {
                if i < rest.len() {
                    assert(all[i] == rest[i]);
                    if rest[i] != splice {
                        let j = choose|j: int| 0 <= j < front.len() && rest[i] == front[j];
                        assert(all[i] == ordered[j]);
                    }
                } else {
                    assert(all[i] == ordered[ordered.len() - 1]);
                }
            }
        } else {
            assert forall|i: int| 0 <= i < all.len() implies #[trigger] all[i] == splice || exists|
                j: int,
            | 0 <= j < ordered.len() && all[i] == ordered[j] by {
                if i < ordered.len() {
                    assert(all[i] == ordered[i]);
                }
            }
        }
    } else {
        assert(put_in_order(ordered, splice)[0] == splice);
    }
}

/// Putting splices latest first loses none and adds none, and no splice comes before one that
/// starts later.
pub proof fn law_latest_first(splices: Seq<SpliceView>)
    ensures
        descending(latest_first(splices)),
        latest_first(splices).to_multiset() =~= splices.to_multiset(),
    decreases splices.len(),
{
    broadcast use vstd::seq_lib::group_to_multiset_ensures;

    if splices.len() > 0 {
        law_latest_first(splices.drop_last());
        assert(splices =~= splices.drop_last().push(splices.last()));
        lemma_put_in_order(latest_first(splices.drop_last()), splices.last());
    }
}

/// Puts `splice` among `ordered`.
fn place(ordered: &mut Vec<Splice>, splice: Splice)
    ensures
        splice_views(final(ordered)@) == put_in_order(splice_views(old(ordered)@), splice@),
    decreases old(ordered)@.len(),
{
    let n = ordered.len();
    let ghost before = ordered@;
    if n == 0 || ordered[n - 1].start >= splice.start {
        ordered.push(splice);
        assert(splice_views(ordered@) =~= splice_views(before).push(splice@));
    } else {
        match ordered.pop() {
            Some(last) => {
                let ghost front = ordered@;
                assert(splice_views(front) =~= splice_views(before).drop_last());
                place(ordered, splice);
                let ghost mid = ordered@;
                ordered.push(last);
                assert(splice_views(ordered@) =~= splice_views(mid).push(last@));
            },
            None => {},
        }
    }
}

/// Puts splices latest first, so that applying one leaves the offsets of the next valid.
fn order(splices: Vec<Splice>) -> (r: Vec<Splice>)
    ensures
        splice_views(r@) == latest_first(splice_views(splices@)),
    decreases splices@.len(),
{
    let mut rest = splices;
    match rest.pop() {
        Some(last) => {
            assert(splice_views(rest@) =~= splice_views(splices@).drop_last());
            let mut out = order(rest);
            place(&mut out, last);
            out
        },
        None => rest,
    }
}

/// `text` with the splices applied, those that start last first.
pub fn apply_splices(text: &str, base: usize, splices: Vec<Splice>) -> (r: String)
    ensures
        r@ == spliced(text@, base as int, latest_first(splice_views(splices@))),
{
    let ordered = order(splices);
    let mut out = text.to_string();
    let mut k: usize = 0;
    let ghost all = splice_views(ordered@);
    assert(all.subrange(0, 0) =~= Seq::empty());
    while k < ordered.len()
        invariant
            k <= ordered@.len(),
            all == splice_views(ordered@),
            out@ == spliced(text@, base as int, all.subrange(0, k as int)),
        decreases ordered.len() - k,
    {
        let splice = &ordered[k];
        assert(all.subrange(0, k + 1).drop_last() =~= all.subrange(0, k as int));
        assert(all.subrange(0, k + 1).last() == splice@);
        if splice.start >= base && splice.end >= base {
            out = replace_range(
                out.as_str(),
                splice.start - base,
                splice.end - base,
                splice.text.as_str(),
            );
        } else {
            assert(out@ =~= replaced(out@, splice.start - base, splice.end - base, splice.text@));
        }
        k = k + 1;
    }
    assert(all.subrange(0, k as int) =~= all);
    out
}

} // verus!
