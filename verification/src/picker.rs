//! A list that is filtered as you type: the repository switcher and the turn timeline.
use vstd::prelude::*;

use crate::text::{chars_of, copy_text, is_white_space, push_text, to_lowercase, trim};

verus! {

/// How many items the picker shows.
pub const MAX_VISIBLE: usize = 14;

#[derive(Debug, PartialEq, Eq)]
pub struct PickerItem {
    pub title: String,
    pub detail: String,
    /// A short highlighted tag (e.g. "agent", "running").
    pub tag: Option<String>,
    /// Muted text at the end (e.g. "3 changes").
    pub note: Option<String>,
}

/// An item, as text.
pub struct ItemView {
    pub title: Seq<char>,
    pub detail: Seq<char>,
    pub tag: Option<Seq<char>>,
    pub note: Option<Seq<char>>,
}

impl DeepView for PickerItem {
    type V = ItemView;

    open spec fn deep_view(&self) -> ItemView {
        ItemView {
            title: self.title@,
            detail: self.detail@,
            tag: self.tag.deep_view(),
            note: self.note.deep_view(),
        }
    }
}

#[derive(Debug, PartialEq, Eq)]
pub enum PickerEvent {
    /// Index into the items.
    Pick(usize),
    /// Enter with no matching item; the typed text.
    Typed(String),
    Dismiss,
}

// ---------------------------------------------------------------------------
// Matching.

/// A text without its white space.
pub open spec fn compact(text: Seq<char>) -> Seq<char>
    decreases text.len(),
{
    if text.len() == 0 {
        text
    } else if crate::text::white_space(text.last()) {
        compact(text.drop_last())
    } else {
        compact(text.drop_last()).push(text.last())
    }
}

/// Whether `at` are the places, from left to right, at which a text holds the characters of
/// another.
pub open spec fn spread(wanted: Seq<char>, text: Seq<char>, at: Seq<int>) -> bool {
    &&& at.len() == wanted.len()
    &&& forall|i: int|
        0 <= i < at.len() ==> 0 <= #[trigger] at[i] < text.len() && text[at[i]] == wanted[i]
    &&& forall|i: int, j: int|
        #![trigger at[i], at[j]]
        0 <= i < j < at.len() ==> at[i] < at[j]
}

/// Whether a text holds the characters of another in order, with anything between them.
pub open spec fn holds_in_order(wanted: Seq<char>, text: Seq<char>) -> bool {
    exists|at: Seq<int>| #[trigger] spread(wanted, text, at)
}

/// Whether a query, white space aside, matches a text.
pub open spec fn query_matches(query: Seq<char>, haystack: Seq<char>) -> bool {
    holds_in_order(compact(query), haystack)
}

/// Subsequence match (`gor` matches `…/goro`): whether the query's characters, white space
/// aside, occur in order.
pub fn matches_query(query: &str, haystack: &str) -> (result: bool)
    ensures
        result == query_matches(query@, haystack@),
{
    let asked = chars_of(query);
    let text = chars_of(haystack);
    let ghost wanted = compact(query@);
    let mut pos: usize = 0;
    let mut i: usize = 0;
    let ghost mut at: Seq<int> = seq![];
    proof {
        assert(query@.take(0) =~= seq![]);
    }
    while i < asked.len()
        invariant
            i <= asked@.len(),
            pos <= text@.len(),
            asked@ == query@,
            text@ == haystack@,
            wanted == compact(query@),
            at.len() == compact(query@.take(i as int)).len(),
            compact(query@.take(i as int)).len() <= wanted.len(),
            compact(query@.take(i as int)) == wanted.take(at.len() as int),
            spread(wanted.take(at.len() as int), text@, at),
            at.len() > 0 ==> at.last() < pos,
            forall|other: Seq<int>| #[trigger]
                spread(wanted, text@, other) && at.len() < other.len() ==> other[at.len() as int]
                    >= pos,
        decreases asked.len() - i,
    {
        let c = asked[i];
        proof {
            assert(query@.take(i + 1).drop_last() =~= query@.take(i as int));
            lemma_compact_prefix(query@, i + 1);
        }
        if !is_white_space(c) {
            let ghost k = at.len() as int;
            assert(compact(query@.take(i + 1)) == compact(query@.take(i as int)).push(c));
            assert(wanted[k] == c) by {
                assert(wanted.take(k + 1)[k] == c);
            }
            while pos < text.len() && text[pos] != c
                invariant
                    pos <= text@.len(),
                    k == at.len(),
                    k < wanted.len(),
                    wanted[k] == c,
                    at.len() > 0 ==> at.last() < pos,
                    forall|other: Seq<int>| #[trigger]
                        spread(wanted, text@, other) && k < other.len() ==> other[k] >= pos,
                decreases text.len() - pos,
            {
                assert forall|other: Seq<int>| #[trigger]
                    spread(wanted, text@, other) && k < other.len() implies other[k] >= pos + 1 by {
                    assert(text@[other[k]] == wanted[k]);
                }
                pos = pos + 1;
            }
            if pos >= text.len() {
                proof {
                    assert forall|other: Seq<int>| !#[trigger] spread(wanted, text@, other) by {
                        if spread(wanted, text@, other) {
                            assert(other[k] >= pos);
                        }
                    }
                }
                return false;
            }
            proof {
                let longer = at.push(pos as int);
                assert(spread(wanted.take(k + 1), text@, longer)) by {
                    assert forall|a: int, b: int|
                        #![trigger longer[a], longer[b]]
                        0 <= a < b < longer.len() implies longer[a] < longer[b] by {
                        if b == k && a < k - 1 {
                            assert(at[a] < at[k - 1]);
                        }
                    }
                    assert forall|a: int| 0 <= a < longer.len() implies 0 <= #[trigger] longer[a]
                        < text@.len() && text@[longer[a]] == wanted.take(k + 1)[a] by {
                        if a < k {
                            assert(longer[a] == at[a]);
                            assert(wanted.take(k)[a] == wanted[a]);
                        }
                    }
                }
                assert forall|other: Seq<int>| #[trigger]
                    spread(wanted, text@, other) && k + 1 < other.len() implies other[k + 1] >= pos
                    + 1 by {
                    assert(other[k] >= pos);
                    assert(other[k] < other[k + 1]);
                }
                at = longer;
            }
            pos = pos + 1;
        }
        i = i + 1;
    }
    proof {
        assert(query@.take(i as int) =~= query@);
        assert(wanted.take(at.len() as int) =~= wanted);
        assert(spread(wanted, text@, at));
    }
    true
}

/// Compacting the start of a text gives the start of the compact text.
proof fn lemma_compact_prefix(text: Seq<char>, count: int)
    requires
        0 <= count <= text.len(),
    ensures
        compact(text.take(count)).len() <= compact(text).len(),
        compact(text.take(count)) == compact(text).take(compact(text.take(count)).len() as int),
    decreases text.len() - count,
{
    if count < text.len() {
        lemma_compact_prefix(text, count + 1);
        assert(text.take(count + 1).drop_last() =~= text.take(count));
        let (less, more, all) = (
            compact(text.take(count)),
            compact(text.take(count + 1)),
            compact(text),
        );
        assert(less =~= all.take(less.len() as int)) by {
            assert forall|i: int| 0 <= i < less.len() implies less[i] == all[i] by {
                assert(more[i] == less[i]);
                assert(more[i] == all.take(more.len() as int)[i]);
            }
        }
    } else {
        assert(text.take(count) =~= text);
        assert(compact(text).take(compact(text).len() as int) =~= compact(text));
    }
}

/// The numbers of the first `count` texts that a query matches, in order.
pub open spec fn matching(query: Seq<char>, texts: Seq<Seq<char>>, count: int) -> Seq<usize>
    decreases count,
{
    if count <= 0 {
        seq![]
    } else if query_matches(query, texts[count - 1]) {
        matching(query, texts, count - 1).push((count - 1) as usize)
    } else {
        matching(query, texts, count - 1)
    }
}

/// The first `limit` texts that a query matches.
pub open spec fn shown(query: Seq<char>, texts: Seq<Seq<char>>, limit: int) -> Seq<usize> {
    crate::store::at_most(matching(query, texts, texts.len() as int), limit)
}

/// Fewer texts match a query at first than at last, and those that do come first.
proof fn lemma_matching_prefix(query: Seq<char>, texts: Seq<Seq<char>>, count: int, all: int)
    requires
        0 <= count <= all,
    ensures
        matching(query, texts, count).len() <= matching(query, texts, all).len(),
        matching(query, texts, count) == matching(query, texts, all).take(
            matching(query, texts, count).len() as int,
        ),
    decreases all - count,
{
    let less = matching(query, texts, count);
    if count < all {
        lemma_matching_prefix(query, texts, count, all - 1);
        let (more, most) = (matching(query, texts, all - 1), matching(query, texts, all));
        assert(less =~= most.take(less.len() as int)) by {
            assert forall|i: int| 0 <= i < less.len() implies less[i] == most[i] by {
                assert(more.take(less.len() as int)[i] == more[i]);
            }
        }
    } else {
        assert(less.take(less.len() as int) =~= less);
    }
}

/// What is shown of texts that match a query is within them, and matches.
pub proof fn lemma_matching(query: Seq<char>, texts: Seq<Seq<char>>, count: int)
    requires
        0 <= count <= texts.len() <= usize::MAX,
    ensures
        matching(query, texts, count).len() <= count,
        forall|i: int|
            0 <= i < matching(query, texts, count).len() ==> (#[trigger] matching(
                query,
                texts,
                count,
            )[i]) < count && query_matches(query, texts[matching(query, texts, count)[i] as int]),
    decreases count,
{
    if count > 0 {
        lemma_matching(query, texts, count - 1);
    }
}

/// The numbers of the first `limit` texts that a query matches, in order.
pub fn filter_texts(query: &str, texts: &[String], limit: usize) -> (found: Vec<usize>)
    ensures
        found@ == shown(query@, texts.deep_view(), limit as int),
{
    let mut found: Vec<usize> = Vec::new();
    let mut i: usize = 0;
    let ghost all = texts.deep_view();
    while i < texts.len() && found.len() < limit
        invariant
            all == texts.deep_view(),
            all.len() == texts@.len(),
            i <= texts@.len(),
            found@ == matching(query@, all, i as int),
            found@.len() <= limit,
        decreases texts.len() - i,
    {
        assert(all[i as int] == texts@[i as int]@);
        if matches_query(query, texts[i].as_str()) {
            found.push(i);
        }
        i = i + 1;
    }
    proof {
        let total = all.len() as int;
        lemma_matching_prefix(query@, all, i as int, total);
        assert(found@ =~= shown(query@, all, limit as int));
    }
    found
}

/// What the picker searches in an item.
pub open spec fn item_text(item: ItemView) -> Seq<char> {
    crate::text::lowercase(item.title + " "@ + item.detail)
}

/// What the picker searches in its items.
pub open spec fn item_texts(items: Seq<ItemView>) -> Seq<Seq<char>> {
    Seq::new(items.len(), |i: int| item_text(items[i]))
}

/// The items that the picker shows for a query.
pub open spec fn visible_items(items: Seq<ItemView>, query: Seq<char>) -> Seq<usize> {
    shown(crate::text::lowercase(query), item_texts(items), MAX_VISIBLE as int)
}

/// The row that is selected of those shown.
pub open spec fn selected_row(selected: int, count: nat) -> int {
    if count == 0 {
        0
    } else if selected < count {
        selected
    } else {
        count - 1
    }
}

/// A list of items, and which of those shown is selected.
#[derive(Debug, PartialEq, Eq)]
pub struct Picker {
    items: Vec<PickerItem>,
    selected: usize,
}

/// What a picker holds.
pub struct PickerView {
    pub items: Seq<ItemView>,
    pub selected: usize,
}

impl View for Picker {
    type V = PickerView;

    closed spec fn view(&self) -> PickerView {
        PickerView { items: self.items.deep_view(), selected: self.selected }
    }
}

impl Picker {
    pub fn new(items: Vec<PickerItem>) -> (picker: Self)
        ensures
            picker@ == (PickerView { items: items.deep_view(), selected: 0 }),
    {
        Picker { items, selected: 0 }
    }

    /// Shows other items, and keeps the selection within them.
    pub fn set_items(&mut self, items: Vec<PickerItem>)
        ensures
            final(self)@ == (PickerView {
                items: items.deep_view(),
                selected: selected_row(old(self)@.selected as int, items@.len()) as usize,
            }),
    {
        let count: usize = items.len();
        if count == 0 {
            self.selected = 0;
        } else if self.selected >= count {
            self.selected = count - 1;
        }
        self.items = items;
    }

    pub fn items(&self) -> (items: &[PickerItem])
        ensures
            items.deep_view() == self@.items,
    {
        self.items.as_slice()
    }

    /// The query changed: the first item that it matches is selected.
    pub fn query_changed(&mut self)
        ensures
            final(self)@ == (PickerView { selected: 0, ..old(self)@ }),
    {
        self.selected = 0;
    }

    /// Indices of the items matching the query, in order.
    pub fn visible(&self, query: &str) -> (found: Vec<usize>)
        ensures
            found@ == visible_items(self@.items, query@),
    {
        let lower = to_lowercase(query);
        let mut texts: Vec<String> = Vec::new();
        let mut i: usize = 0;
        let ghost items = self@.items;
        while i < self.items.len()
            invariant
                items == self.items.deep_view(),
                i <= self.items@.len(),
                texts@.len() == i,
                forall|j: int| 0 <= j < i ==> #[trigger] texts@[j]@ == item_text(items[j]),
            decreases self.items.len() - i,
        {
            let item = &self.items[i];
            let mut text = copy_text(item.title.as_str());
            push_text(&mut text, " ");
            push_text(&mut text, item.detail.as_str());
            assert(items[i as int] == item.deep_view());
            texts.push(to_lowercase(text.as_str()));
            i = i + 1;
        }
        assert(texts.deep_view() =~= item_texts(items));
        filter_texts(lower.as_str(), texts.as_slice(), MAX_VISIBLE)
    }

    pub fn up(&mut self)
        ensures
            final(self)@ == (PickerView {
                selected: if old(self)@.selected > 0 {
                    (old(self)@.selected - 1) as usize
                } else {
                    0
                },
                ..old(self)@
            }),
    {
        if self.selected > 0 {
            self.selected = self.selected - 1;
        }
    }

    pub fn down(&mut self, query: &str)
        ensures
            final(self)@ == (PickerView {
                selected: selected_row(
                    old(self)@.selected + 1,
                    visible_items(old(self)@.items, query@).len(),
                ) as usize,
                ..old(self)@
            }),
    {
        let count: usize = self.visible(query).len();
        self.selected = if count == 0 {
            0
        } else if self.selected < count - 1 {
            self.selected + 1
        } else {
            count - 1
        };
    }

    /// The row that is drawn as selected.
    pub fn selected(&self, query: &str) -> (row: usize)
        ensures
            row == selected_row(
                self@.selected as int,
                visible_items(self@.items, query@).len(),
            ),
    {
        let count: usize = self.visible(query).len();
        if count == 0 {
            0
        } else if self.selected < count {
            self.selected
        } else {
            count - 1
        }
    }

    /// Enter: the selected item, or the typed text where none is.
    pub fn confirm(&self, query: &str) -> (event: PickerEvent)
        ensures
            ({
                let found = visible_items(self@.items, query@);
                if self@.selected < found.len() {
                    event == PickerEvent::Pick(found[self@.selected as int])
                } else {
                    event matches PickerEvent::Typed(text) && text@ == crate::text::trimmed(query@)
                }
            }),
    {
        let found = self.visible(query);
        if self.selected < found.len() {
            PickerEvent::Pick(found[self.selected])
        } else {
            PickerEvent::Typed(trim(query))
        }
    }
}

/// Only what matches is shown: every item that the picker shows is one of its items, and the
/// query matches it.
pub proof fn law_shown_items_match(items: Seq<ItemView>, query: Seq<char>, row: int)
    requires
        items.len() <= usize::MAX,
        0 <= row < visible_items(items, query).len(),
    ensures
        visible_items(items, query)[row] < items.len(),
        query_matches(
            crate::text::lowercase(query),
            item_text(items[visible_items(items, query)[row] as int]),
        ),
{
    lemma_matching(crate::text::lowercase(query), item_texts(items), items.len() as int);
    let all = matching(crate::text::lowercase(query), item_texts(items), items.len() as int);
    assert(visible_items(items, query)[row] == all[row]);
}

/// A query of white space alone matches everything.
pub proof fn law_an_empty_query_matches_everything(query: Seq<char>, haystack: Seq<char>)
    requires
        forall|i: int| 0 <= i < query.len() ==> crate::text::white_space(#[trigger] query[i]),
    ensures
        query_matches(query, haystack),
{
    lemma_compact_spaces(query);
    assert(spread(compact(query), haystack, seq![]));
}

proof fn lemma_compact_spaces(text: Seq<char>)
    requires
        forall|i: int| 0 <= i < text.len() ==> crate::text::white_space(#[trigger] text[i]),
    ensures
        compact(text).len() == 0,
    decreases text.len(),
{
    if text.len() > 0 {
        lemma_compact_spaces(text.drop_last());
    }
}

/// What matches is shown, in order: every item that a query matches, and none twice, unless more
/// than fit come before it.
pub proof fn law_matching_items_are_shown_in_order(items: Seq<ItemView>, query: Seq<char>)
    requires
        items.len() <= usize::MAX,
    ensures
        visible_items(items, query).len() <= MAX_VISIBLE,
        forall|a: int, b: int|
            #![trigger visible_items(items, query)[a], visible_items(items, query)[b]]
            0 <= a < b < visible_items(items, query).len() ==> visible_items(items, query)[a]
                < visible_items(items, query)[b],
        forall|i: int|
            0 <= i < items.len() && query_matches(
                crate::text::lowercase(query),
                item_text(#[trigger] items[i]),
            ) && !visible_items(items, query).contains(i as usize) ==> visible_items(
                items,
                query,
            ).len() == MAX_VISIBLE && forall|a: int|
                0 <= a < MAX_VISIBLE ==> #[trigger] visible_items(items, query)[a] < i,
{
    let q = crate::text::lowercase(query);
    let texts = item_texts(items);
    let all = matching(q, texts, items.len() as int);
    let shown = visible_items(items, query);
    lemma_matching_order(q, texts, items.len() as int);
    assert forall|a: int, b: int|
        #![trigger shown[a], shown[b]]
        0 <= a < b < shown.len() implies shown[a] < shown[b] by {
        assert(all[a] < all[b]);
    }
    assert forall|i: int|
        0 <= i < items.len() && query_matches(q, item_text(#[trigger] items[i]))
            && !shown.contains(i as usize) implies shown.len() == MAX_VISIBLE && forall|a: int|
        0 <= a < MAX_VISIBLE ==> #[trigger] shown[a] < i by {
        assert(texts[i] == item_text(items[i]));
        assert(all.contains(i as usize));
        let at = all.index_of(i as usize);
        if at < shown.len() {
            assert(shown[at] == i as usize);
        }
        assert forall|a: int| 0 <= a < MAX_VISIBLE implies #[trigger] shown[a] < i by {
            assert(all[a] < all[at]);
        }
    }
}

proof fn lemma_matching_order(query: Seq<char>, texts: Seq<Seq<char>>, count: int)
    requires
        0 <= count <= texts.len() <= usize::MAX,
    ensures
        forall|a: int, b: int|
            #![trigger matching(query, texts, count)[a], matching(query, texts, count)[b]]
            0 <= a < b < matching(query, texts, count).len() ==> matching(query, texts, count)[a]
                < matching(query, texts, count)[b],
        forall|i: int|
            0 <= i < count && query_matches(query, #[trigger] texts[i]) ==> matching(
                query,
                texts,
                count,
            ).contains(i as usize),
    decreases count,
{
    if count > 0 {
        lemma_matching_order(query, texts, count - 1);
        lemma_matching(query, texts, count - 1);
        let before = matching(query, texts, count - 1);
        let all = matching(query, texts, count);
        assert forall|i: int|
            0 <= i < count && query_matches(query, #[trigger] texts[i]) implies all.contains(
            i as usize,
        ) by {
            if i < count - 1 {
                let k = before.index_of(i as usize);
                assert(all[k] == i as usize);
            } else {
                assert(all[before.len() as int] == i as usize);
            }
        }
    }
}

} // verus!
