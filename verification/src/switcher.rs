//! The quick switcher: recent repositories and the ones agents worked in lately, filtered as
//! you type.
use vstd::prelude::*;

use crate::bytes::{copy, same};
use crate::picker;
use crate::picker::filter_texts;
use crate::text::{copy_text, from_utf8_lossy, number_text, push_text, to_lowercase, trim};

verus! {

/// How many repositories the switcher shows.
pub const MAX_VISIBLE: usize = 12;

#[derive(Debug, PartialEq, Eq)]
pub struct SwitcherItem {
    pub root: Vec<u8>,
    pub name: String,
    /// From agent session logs rather than Goro's own history.
    pub from_agent: bool,
    /// Changed files, once counted.
    pub changes: Option<usize>,
}

/// A repository in the switcher, as sequences.
pub struct RepoView {
    pub root: Seq<u8>,
    pub name: Seq<char>,
    pub from_agent: bool,
    pub changes: Option<usize>,
}

impl DeepView for SwitcherItem {
    type V = RepoView;

    open spec fn deep_view(&self) -> RepoView {
        RepoView {
            root: self.root@,
            name: self.name@,
            from_agent: self.from_agent,
            changes: self.changes,
        }
    }
}

/// A repository's root, and the last part of its path where it has one.
#[derive(Debug, PartialEq, Eq)]
pub struct RepoName {
    pub root: Vec<u8>,
    pub name: Option<String>,
}

impl DeepView for RepoName {
    type V = (Seq<u8>, Option<Seq<char>>);

    open spec fn deep_view(&self) -> (Seq<u8>, Option<Seq<char>>) {
        (self.root@, self.name.deep_view())
    }
}

/// A repository in the switcher, not counted yet: without a name it goes by its path.
pub open spec fn item_of(repo: (Seq<u8>, Option<Seq<char>>), from_agent: bool) -> RepoView {
    RepoView {
        root: repo.0,
        name: match repo.1 {
            Some(name) => name,
            None => crate::text::lossy(repo.0),
        },
        from_agent,
        changes: None,
    }
}

fn item(repo: &RepoName, from_agent: bool) -> (item: SwitcherItem)
    ensures
        item.deep_view() == item_of(repo.deep_view(), from_agent),
{
    SwitcherItem {
        root: copy(repo.root.as_slice()),
        name: match &repo.name {
            Some(name) => copy_text(name.as_str()),
            None => from_utf8_lossy(repo.root.as_slice()),
        },
        from_agent,
        changes: None,
    }
}

/// The repositories other than the one at a root.
pub open spec fn without(items: Seq<RepoView>, root: Seq<u8>) -> Seq<RepoView>
    decreases items.len(),
{
    if items.len() == 0 {
        items
    } else if items.last().root == root {
        without(items.drop_last(), root)
    } else {
        without(items.drop_last(), root).push(items.last())
    }
}

/// The repositories with those that agents worked in first, each once.
pub open spec fn with_agents(
    items: Seq<RepoView>,
    agents: Seq<(Seq<u8>, Option<Seq<char>>)>,
) -> Seq<RepoView>
    decreases agents.len(),
{
    if agents.len() == 0 {
        items
    } else {
        seq![item_of(agents[0], true)] + without(
            with_agents(items, agents.drop_first()),
            agents[0].0,
        )
    }
}

/// The first repository from `from` on that is at a root.
pub open spec fn index_of(items: Seq<RepoView>, root: Seq<u8>, from: int) -> int
    decreases items.len() - from,
{
    if from >= items.len() {
        items.len() as int
    } else if items[from].root == root {
        from
    } else {
        index_of(items, root, from + 1)
    }
}

/// The repositories with the changed files of one counted.
pub open spec fn with_count(items: Seq<RepoView>, root: Seq<u8>, count: Option<usize>) -> Seq<
    RepoView,
> {
    let at = index_of(items, root, 0);
    if at < items.len() {
        items.update(at, RepoView { changes: count, ..items[at] })
    } else {
        items
    }
}

/// The repositories with the changed files of the first `done` counted.
pub open spec fn with_counts(
    items: Seq<RepoView>,
    counts: Seq<(Seq<u8>, Option<usize>)>,
    done: int,
) -> Seq<RepoView>
    decreases done,
{
    if done <= 0 {
        items
    } else {
        with_count(with_counts(items, counts, done - 1), counts[done - 1].0, counts[done - 1].1)
    }
}

/// How many files of a repository changed; `None` if that can't be told.
#[derive(Debug, PartialEq, Eq)]
pub struct RepoCount {
    pub root: Vec<u8>,
    pub changes: Option<usize>,
}

impl DeepView for RepoCount {
    type V = (Seq<u8>, Option<usize>);

    open spec fn deep_view(&self) -> (Seq<u8>, Option<usize>) {
        (self.root@, self.changes)
    }
}

#[derive(Debug, PartialEq, Eq)]
pub enum SwitcherEvent {
    Open(Vec<u8>),
    /// A typed path that isn't in the list: it is opened if it is a directory.
    Typed(String),
    Dismiss,
}

/// What the switcher searches in the repositories.
pub open spec fn root_texts(items: Seq<RepoView>) -> Seq<Seq<char>> {
    Seq::new(
        items.len(),
        |i: int| crate::text::lowercase(crate::text::lossy(items[i].root)),
    )
}

/// The repositories that the switcher shows for a query.
pub open spec fn visible_repos(items: Seq<RepoView>, query: Seq<char>) -> Seq<usize> {
    picker::shown(crate::text::lowercase(query), root_texts(items), MAX_VISIBLE as int)
}

/// The repositories, and which of those shown is selected.
#[derive(Debug, PartialEq, Eq)]
pub struct Switcher {
    items: Vec<SwitcherItem>,
    selected: usize,
}

/// What a switcher holds.
pub struct SwitcherView {
    pub items: Seq<RepoView>,
    pub selected: usize,
}

impl View for Switcher {
    type V = SwitcherView;

    closed spec fn view(&self) -> SwitcherView {
        SwitcherView { items: self.items.deep_view(), selected: self.selected }
    }
}

impl Switcher {
    /// A switcher with the repositories that were opened recently.
    pub fn new(recent: &[RepoName]) -> (switcher: Self)
        ensures
            switcher@ == (SwitcherView {
                items: Seq::new(recent@.len(), |i: int| item_of(recent@[i].deep_view(), false)),
                selected: 0,
            }),
    {
        let mut items: Vec<SwitcherItem> = Vec::new();
        let mut i: usize = 0;
        while i < recent.len()
            invariant
                i <= recent@.len(),
                items@.len() == i,
                forall|j: int|
                    0 <= j < i ==> #[trigger] items@[j].deep_view() == item_of(
                        recent@[j].deep_view(),
                        false,
                    ),
            decreases recent.len() - i,
        {
            items.push(item(&recent[i], false));
            i = i + 1;
        }
        let switcher = Switcher { items, selected: 0 };
        assert(switcher@.items =~= Seq::new(
            recent@.len(),
            |i: int| item_of(recent@[i].deep_view(), false),
        ));
        switcher
    }

    pub fn items(&self) -> (items: &[SwitcherItem])
        ensures
            items.deep_view() == self@.items,
    {
        self.items.as_slice()
    }

    fn remove_root(&mut self, root: &[u8])
        ensures
            final(self)@ == (SwitcherView { items: without(old(self)@.items, root@), ..old(self)@ }),
    {
        let mut kept: Vec<SwitcherItem> = Vec::new();
        let mut items: Vec<SwitcherItem> = Vec::new();
        std::mem::swap(&mut items, &mut self.items);
        let ghost all = items.deep_view();
        let total: usize = items.len();
        let mut i: usize = 0;
        proof {
            assert(all.take(0) =~= seq![]);
            assert(kept.deep_view() =~= seq![]);
        }
        while i < total
            invariant
                i <= total,
                total == items@.len(),
                all.len() == total,
                forall|j: int| i <= j < total ==> #[trigger] items@[j].deep_view() == all[j],
                kept.deep_view() == without(all.take(i as int), root@),
            decreases total - i,
        {
            let mut item = SwitcherItem {
                root: Vec::new(),
                name: copy_text(""),
                from_agent: false,
                changes: None,
            };
            std::mem::swap(&mut item, &mut items[i]);
            let ghost before = kept.deep_view();
            assert(item.deep_view() == all[i as int]);
            assert(all.take(i + 1).drop_last() =~= all.take(i as int));
            assert(all.take(i + 1).last() == all[i as int]);
            if !same(item.root.as_slice(), root) {
                kept.push(item);
                assert(kept.deep_view() =~= before.push(all[i as int]));
            }
            i = i + 1;
        }
        assert(all.take(total as int) =~= all);
        self.items = kept;
    }

    /// A scan found the repositories that agents worked in, most recent activity first, and
    /// counted the changed files.
    pub fn scanned(&mut self, agents: &[RepoName], counts: &[RepoCount])
        ensures
            final(self)@ == (SwitcherView {
                items: with_counts(
                    with_agents(old(self)@.items, agents.deep_view()),
                    counts.deep_view(),
                    counts@.len() as int,
                ),
                ..old(self)@
            }),
    {
        let ghost start = self@;
        let ghost names = agents.deep_view();
        let mut i: usize = agents.len();
        proof {
            assert(names.skip(i as int) =~= seq![]);
        }
        while i > 0
            invariant
                i <= agents@.len(),
                names == agents.deep_view(),
                self@.items == with_agents(start.items, names.skip(i as int)),
                self@.selected == start.selected,
            decreases i,
        {
            i = i - 1;
            assert(names.skip(i as int).drop_first() =~= names.skip(i + 1));
            assert(names[i as int] == agents@[i as int].deep_view());
            self.remove_root(agents[i].root.as_slice());
            let ghost rest = self@.items;
            let new_item = item(&agents[i], true);
            self.items.insert(0, new_item);
            assert(self@.items =~= seq![item_of(names[i as int], true)] + rest);
        }
        assert(names.skip(0) =~= names);
        let ghost first = self@.items;
        let ghost all = counts.deep_view();
        let mut k: usize = 0;
        while k < counts.len()
            invariant
                k <= counts@.len(),
                all == counts.deep_view(),
                self@.items == with_counts(first, all, k as int),
                self@.selected == start.selected,
            decreases counts.len() - k,
        {
            assert(all[k as int] == counts@[k as int].deep_view());
            self.set_count(counts[k].root.as_slice(), counts[k].changes);
            k = k + 1;
        }
    }

    fn set_count(&mut self, root: &[u8], count: Option<usize>)
        ensures
            final(self)@ == (SwitcherView {
                items: with_count(old(self)@.items, root@, count),
                ..old(self)@
            }),
    {
        let ghost all = self@.items;
        let mut at: usize = 0;
        while at < self.items.len() && !same(self.items[at].root.as_slice(), root)
            invariant
                at <= self.items@.len(),
                all == self.items.deep_view(),
                index_of(all, root@, 0) == index_of(all, root@, at as int),
            decreases self.items.len() - at,
        {
            assert(all[at as int] == self.items@[at as int].deep_view());
            at = at + 1;
        }
        if at < self.items.len() {
            assert(all[at as int] == self.items@[at as int].deep_view());
            self.items[at].changes = count;
            assert(self@.items =~= with_count(all, root@, count));
        }
    }

    /// The query changed: the first repository that it matches is selected.
    pub fn query_changed(&mut self)
        ensures
            final(self)@ == (SwitcherView { selected: 0, ..old(self)@ }),
    {
        self.selected = 0;
    }

    /// Indices of the repositories matching the query, in order.
    pub fn visible(&self, query: &str) -> (found: Vec<usize>)
        ensures
            found@ == visible_repos(self@.items, query@),
    {
        let lower = to_lowercase(query);
        let mut texts: Vec<String> = Vec::new();
        let mut i: usize = 0;
        let ghost items = self@.items;
        while i < self.items.len()
            invariant
                items == self.items.deep_view(),
                i <= self.items@.len(),
                texts@.len() == i,
                forall|j: int|
                    0 <= j < i ==> #[trigger] texts@[j]@ == crate::text::lowercase(
                        crate::text::lossy(items[j].root),
                    ),
            decreases self.items.len() - i,
        {
            assert(items[i as int] == self.items@[i as int].deep_view());
            let text = from_utf8_lossy(self.items[i].root.as_slice());
            texts.push(to_lowercase(text.as_str()));
            i = i + 1;
        }
        assert(texts.deep_view() =~= root_texts(items));
        filter_texts(lower.as_str(), texts.as_slice(), MAX_VISIBLE)
    }

    pub fn up(&mut self)
        ensures
            final(self)@ == (SwitcherView {
                selected: if old(self)@.selected > 0 {
                    (old(self)@.selected - 1) as usize
                } else {
                    0
                },
                ..old(self)@
            }),
    {
        if self.selected > 0 {
            self.selected = self.selected - 1;
        }
    }

    pub fn down(&mut self, query: &str)
        ensures
            final(self)@ == (SwitcherView {
                selected: picker::selected_row(
                    old(self)@.selected + 1,
                    visible_repos(old(self)@.items, query@).len(),
                ) as usize,
                ..old(self)@
            }),
    {
        let count: usize = self.visible(query).len();
        self.selected = if count == 0 {
            0
        } else if self.selected < count - 1 {
            self.selected + 1
        } else {
            count - 1
        };
    }

    /// Enter: the selected repository, or the typed path where none is.
    pub fn confirm(&self, query: &str) -> (event: SwitcherEvent)
        ensures
            ({
                let found = visible_repos(self@.items, query@);
                if self@.selected < found.len() {
                    event matches SwitcherEvent::Open(root) && root@
                        == self@.items[found[self@.selected as int] as int].root
                } else {
                    event matches SwitcherEvent::Typed(text) && text@ == crate::text::trimmed(
                        query@,
                    )
                }
            }),
    {
        let found = self.visible(query);
        if self.selected < found.len() {
            let at: usize = found[self.selected];
            let total: usize = self.items.len();
            proof {
                assert(self@.items.len() == total);
                lemma_visible(self@.items, query@, self.selected as int);
                assert(self@.items[at as int] == self.items@[at as int].deep_view());
            }
            SwitcherEvent::Open(copy(self.items[at].root.as_slice()))
        } else {
            SwitcherEvent::Typed(trim(query))
        }
    }
}

proof fn lemma_visible(items: Seq<RepoView>, query: Seq<char>, row: int)
    requires
        items.len() <= usize::MAX,
        0 <= row < visible_repos(items, query).len(),
    ensures
        visible_repos(items, query)[row] < items.len(),
{
    picker::lemma_matching(crate::text::lowercase(query), root_texts(items), items.len() as int);
}

/// What the switcher says of the changed files of a repository.
pub open spec fn changes_note(count: usize) -> Seq<char> {
    if count == 0 {
        "clean"@
    } else if count == 1 {
        "1 change"@
    } else {
        crate::text::digits(count as nat) + " changes"@
    }
}

/// What the switcher says of the changed files of a repository.
pub fn note_of_changes(count: usize) -> (note: String)
    ensures
        note@ == changes_note(count),
{
    if count == 0 {
        copy_text("clean")
    } else if count == 1 {
        copy_text("1 change")
    } else {
        let mut note = number_text(count as u64);
        push_text(&mut note, " changes");
        note
    }
}

/// Whether no repository is listed twice.
pub open spec fn listed_once(items: Seq<RepoView>) -> bool {
    forall|i: int, j: int|
        #![trigger items[i], items[j]]
        0 <= i < j < items.len() ==> items[i].root != items[j].root
}

proof fn lemma_without(items: Seq<RepoView>, root: Seq<u8>)
    requires
        listed_once(items),
    ensures
        listed_once(without(items, root)),
        forall|i: int|
            0 <= i < without(items, root).len() ==> (#[trigger] without(items, root)[i]).root
                != root && has_root(items, without(items, root)[i].root),
    decreases items.len(),
{
    if items.len() > 0 {
        let head = items.drop_last();
        assert(listed_once(head));
        lemma_without(head, root);
        let (rest, kept) = (without(head, root), without(items, root));
        assert forall|i: int| 0 <= i < kept.len() implies (#[trigger] kept[i]).root != root
            && has_root(items, kept[i].root) by {
            if i < rest.len() {
                assert(kept[i] == rest[i]);
                let at = choose|at: int|
                    0 <= at < head.len() && (#[trigger] head[at]).root == rest[i].root;
                assert(items[at].root == kept[i].root);
            } else {
                assert(items[items.len() - 1].root == kept[i].root);
            }
        }
        assert(listed_once(kept)) by {
            assert forall|i: int, j: int|
                #![trigger kept[i], kept[j]]
                0 <= i < j < kept.len() implies kept[i].root != kept[j].root by {
                if j >= rest.len() {
                    assert(kept[i] == rest[i]);
                    let at = choose|at: int|
                        0 <= at < head.len() && (#[trigger] head[at]).root == rest[i].root;
                    assert(items[at].root != items[items.len() - 1].root);
                }
            }
        }
    }
}

/// Whether a repository is listed.
pub open spec fn has_root(items: Seq<RepoView>, root: Seq<u8>) -> bool {
    exists|at: int| 0 <= at < items.len() && (#[trigger] items[at]).root == root
}

/// A scan lists no repository twice: the ones that agents worked in move to the front.
pub proof fn law_scans_list_repositories_once(
    items: Seq<RepoView>,
    agents: Seq<(Seq<u8>, Option<Seq<char>>)>,
    counts: Seq<(Seq<u8>, Option<usize>)>,
    done: int,
)
    requires
        listed_once(items),
    ensures
        listed_once(with_agents(items, agents)),
        listed_once(with_counts(with_agents(items, agents), counts, done)),
        agents.len() > 0 ==> with_agents(items, agents)[0].root == agents[0].0,
    decreases agents.len() + if done > 0 {
        done
    } else {
        0
    },
{
    if agents.len() > 0 {
        law_scans_list_repositories_once(items, agents.drop_first(), counts, 0);
        let rest = with_agents(items, agents.drop_first());
        lemma_without(rest, agents[0].0);
        let all = with_agents(items, agents);
        assert forall|i: int, j: int|
            #![trigger all[i], all[j]]
            0 <= i < j < all.len() implies all[i].root != all[j].root by {
            let kept = without(rest, agents[0].0);
            assert(all[j] == kept[j - 1]);
            if i > 0 {
                assert(all[i] == kept[i - 1]);
            }
        }
    }
    lemma_counts(with_agents(items, agents), counts, done);
}

proof fn lemma_index(items: Seq<RepoView>, root: Seq<u8>, from: int)
    requires
        0 <= from <= items.len(),
    ensures
        from <= index_of(items, root, from) <= items.len(),
    decreases items.len() - from,
{
    if from < items.len() && items[from].root != root {
        lemma_index(items, root, from + 1);
    }
}

proof fn lemma_counts(items: Seq<RepoView>, counts: Seq<(Seq<u8>, Option<usize>)>, done: int)
    requires
        listed_once(items),
    ensures
        listed_once(with_counts(items, counts, done)),
    decreases done,
{
    if done > 0 {
        lemma_counts(items, counts, done - 1);
        let before = with_counts(items, counts, done - 1);
        let after = with_counts(items, counts, done);
        lemma_index(before, counts[done - 1].0, 0);
        assert forall|i: int, j: int|
            #![trigger after[i], after[j]]
            0 <= i < j < after.len() implies after[i].root != after[j].root by {
            assert(after[i].root == before[i].root);
            assert(after[j].root == before[j].root);
        }
    }
}

} // verus!
