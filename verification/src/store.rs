//! Goro's own persistent state, outside the repository: recently opened repositories and,
//! per repository, what the user has seen and marked reviewed.
use vstd::prelude::*;

use std::collections::HashSet;

use crate::bytes::{copy, same};
use crate::comments::Comment;
use crate::text::{push_text, same_text};
use crate::turns;

verus! {

/// How many recent repositories to remember.
pub const RECENT_LIMIT: usize = 50;

/// Where the FNV-1a hash starts.
pub const FNV_OFFSET: u64 = 0xcbf2_9ce4_8422_2325;

/// The FNV-1a prime.
pub const FNV_PRIME: u64 = 0x0100_0000_01b3;

/// One step of FNV-1a.
pub open spec fn fnv_step(hash: u64, byte: u8) -> u64 {
    (hash ^ (byte as u64)).wrapping_mul(FNV_PRIME)
}

/// FNV-1a over the bytes of a part.
pub open spec fn fnv_bytes(hash: u64, bytes: Seq<u8>) -> u64
    decreases bytes.len(),
{
    if bytes.len() == 0 {
        hash
    } else {
        fnv_step(fnv_bytes(hash, bytes.drop_last()), bytes.last())
    }
}

/// FNV-1a over parts, each followed by `0xff` so that `["ab", "c"]` and `["a", "bc"]`
/// differ.
pub open spec fn fnv_parts(parts: Seq<Seq<u8>>) -> u64
    decreases parts.len(),
{
    if parts.len() == 0 {
        FNV_OFFSET
    } else {
        fnv_step(fnv_bytes(fnv_parts(parts.drop_last()), parts.last()), 0xff)
    }
}

/// One step keeps hashes that differ apart: the prime is odd, so it has an inverse.
pub proof fn lemma_step_apart(a: u64, b: u64, byte: u8)
    requires
        a != b,
    ensures
        fnv_step(a, byte) != fnv_step(b, byte),
{
    let c = byte as u64;
    let (x, y) = (a ^ c, b ^ c);
    assert(a ^ c == b ^ c ==> a == b) by (bit_vector);
    if fnv_step(a, byte) == fnv_step(b, byte) {
        lemma_times_prime(x);
        lemma_times_prime(y);
    }
}

/// A product with the prime can be divided again, modulo the size of a hash.
proof fn lemma_times_prime(x: u64)
    ensures
        (x.wrapping_mul(FNV_PRIME) as int * 0xce96_5057_aff6_957b) % 0x1_0000_0000_0000_0000 == x,
{
    let (m, p, q) = (0x1_0000_0000_0000_0000int, FNV_PRIME as int, 0xce96_5057_aff6_957bint);
    let k = (p * q - 1) / m;
    assert(p * q == 1 + k * m) by (nonlinear_arith)
        requires
            m == 0x1_0000_0000_0000_0000int,
            p == 0x0100_0000_01b3int,
            q == 0xce96_5057_aff6_957bint,
            k == (p * q - 1) / m,
    ;
    let w = x.wrapping_mul(FNV_PRIME) as int;
    assert(w == (x * p) % m);
    vstd::arithmetic::div_mod::lemma_mul_mod_noop_left(x * p, q, m);
    assert((x * p) * q == m * (x * k) + x) by (nonlinear_arith)
        requires
            p * q == 1 + k * m,
    ;
    vstd::arithmetic::div_mod::lemma_mod_multiples_vanish(x * k, x as int, m);
    vstd::arithmetic::div_mod::lemma_small_mod(x as nat, m as nat);
}

/// The same bytes keep hashes that differ apart.
pub proof fn lemma_bytes_apart(a: u64, b: u64, bytes: Seq<u8>)
    requires
        a != b,
    ensures
        fnv_bytes(a, bytes) != fnv_bytes(b, bytes),
    decreases bytes.len(),
{
    if bytes.len() > 0 {
        lemma_bytes_apart(a, b, bytes.drop_last());
        lemma_step_apart(
            fnv_bytes(a, bytes.drop_last()),
            fnv_bytes(b, bytes.drop_last()),
            bytes.last(),
        );
    }
}

/// The parts of a hash as byte strings.
pub open spec fn part_bytes(parts: Seq<&[u8]>) -> Seq<Seq<u8>> {
    parts.map_values(|p: &[u8]| p@)
}

fn add_byte(hash: u64, byte: u8) -> (result: u64)
    ensures
        result == fnv_step(hash, byte),
{
    (hash ^ (byte as u64)).wrapping_mul(FNV_PRIME)
}

/// Goes on with a hash over one more part.
pub fn add_part(hash: u64, part: &[u8]) -> (result: u64)
    ensures
        result == fnv_step(fnv_bytes(hash, part@), 0xff),
{
    let mut h: u64 = hash;
    let mut i: usize = 0;
    assert(part@.take(0) =~= Seq::<u8>::empty());
    while i < part.len()
        invariant
            i <= part@.len(),
            h == fnv_bytes(hash, part@.take(i as int)),
        decreases part.len() - i,
    {
        assert(part@.take(i + 1).drop_last() =~= part@.take(i as int));
        h = add_byte(h, part[i]);
        i = i + 1;
    }
    assert(part@.take(i as int) =~= part@);
    add_byte(h, 0xff)
}

/// FNV-1a: a hash that is stable across runs and Rust versions, for persisted keys.
pub fn stable_hash(parts: &[&[u8]]) -> (hash: u64)
    ensures
        hash == fnv_parts(part_bytes(parts@)),
{
    let mut hash: u64 = FNV_OFFSET;
    let mut i: usize = 0;
    let ghost all = part_bytes(parts@);
    assert(all.take(0) =~= Seq::<Seq<u8>>::empty());
    while i < parts.len()
        invariant
            i <= parts@.len(),
            all == part_bytes(parts@),
            hash == fnv_parts(all.take(i as int)),
        decreases parts.len() - i,
    {
        assert(all.take(i + 1).drop_last() =~= all.take(i as int));
        assert(all.take(i + 1).last() == parts@[i as int]@);
        hash = add_part(hash, parts[i]);
        i = i + 1;
    }
    assert(all.take(i as int) =~= all);
    hash
}

// ---------------------------------------------------------------------------
// What the user has seen.

/// `HashSet::clone` gives a set with the same elements.
#[verifier::external_body]
pub(crate) fn copy_set(set: &HashSet<u64>) -> (copy: HashSet<u64>)
    ensures
        copy@ == set@,
{
    set.clone()
}

/// The lines of one path that the user has seen.
#[derive(Debug)]
pub struct SeenPath {
    pub path: String,
    pub lines: HashSet<u64>,
}

/// Changed-line hashes per path, as of the last look. A path occurs once.
#[derive(Debug)]
pub struct Seen {
    entries: Vec<SeenPath>,
}

/// What the entries hold, by path.
pub open spec fn entry_map(entries: Seq<SeenPath>) -> Map<Seq<char>, Set<u64>> {
    Map::new(
        |path: Seq<char>| exists|i: int| 0 <= i < entries.len() && #[trigger] entries[i].path@ == path,
        |path: Seq<char>|
            entries[choose|i: int|
                0 <= i < entries.len() && #[trigger] entries[i].path@ == path].lines@,
    )
}

impl View for Seen {
    type V = Map<Seq<char>, Set<u64>>;

    closed spec fn view(&self) -> Map<Seq<char>, Set<u64>> {
        entry_map(self.entries@)
    }
}

impl Seen {
    #[verifier::type_invariant]
    spec fn distinct(self) -> bool {
        forall|i: int, j: int|
            #![trigger self.entries@[i], self.entries@[j]]
            0 <= i < j < self.entries@.len() ==> self.entries@[i].path@ != self.entries@[j].path@
    }

    /// Nothing seen.
    pub fn new() -> (seen: Self)
        ensures
            seen@ == Map::<Seq<char>, Set<u64>>::empty(),
    {
        let seen = Seen { entries: Vec::new() };
        assert(seen@ =~= Map::<Seq<char>, Set<u64>>::empty());
        seen
    }

    fn position(&self, path: &str) -> (found: Option<usize>)
        ensures
            match found {
                Some(i) => i < self.entries@.len() && self.entries@[i as int].path@ == path@,
                None => forall|i: int|
                    0 <= i < self.entries@.len() ==> self.entries@[i].path@ != path@,
            },
    {
        let mut i: usize = 0;
        while i < self.entries.len()
            invariant
                i <= self.entries@.len(),
                forall|j: int| 0 <= j < i ==> self.entries@[j].path@ != path@,
            decreases self.entries.len() - i,
        {
            if same_text(self.entries[i].path.as_str(), path) {
                return Some(i);
            }
            i = i + 1;
        }
        None
    }

    /// Whether the path was seen, with whatever lines.
    pub fn has_path(&self, path: &str) -> (result: bool)
        ensures
            result == self@.contains_key(path@),
    {
        self.position(path).is_some()
    }

    /// Whether the line was seen at the path.
    pub fn contains(&self, path: &str, line: u64) -> (result: bool)
        ensures
            result == (self@.contains_key(path@) && self@[path@].contains(line)),
    {
        broadcast use vstd::std_specs::hash::group_hash_axioms;

        proof {
            use_type_invariant(self);
        }
        match self.position(path) {
            Some(i) => {
                assert(self@[path@] == self.entries@[i as int].lines@);
                self.entries[i].lines.contains(&line)
            },
            None => false,
        }
    }

    /// Makes sure that the path occurs.
    pub fn insert_path(&mut self, path: &str)
        ensures
            final(self)@ == (if old(self)@.contains_key(path@) {
                old(self)@
            } else {
                old(self)@.insert(path@, Set::empty())
            }),
    {
        proof {
            use_type_invariant(&*self);
        }
        if self.position(path).is_none() {
            let ghost before = self.entries@;
            let mut entries: Vec<SeenPath> = Vec::new();
            std::mem::swap(&mut entries, &mut self.entries);
            entries.push(SeenPath { path: path.to_owned(), lines: HashSet::new() });
            self.entries = entries;
            proof {
                assert(self.entries@.drop_last() =~= before);
                lemma_entry_pushed(before, self.entries@);
            }
        }
    }

    /// Adds a line to those seen at the path.
    pub fn insert(&mut self, path: &str, line: u64)
        ensures
            final(self)@ == old(self)@.insert(
                path@,
                (if old(self)@.contains_key(path@) {
                    old(self)@[path@]
                } else {
                    Set::empty()
                }).insert(line),
            ),
    {
        broadcast use vstd::std_specs::hash::group_hash_axioms;

        self.insert_path(path);
        let ghost mid = self@;
        proof {
            use_type_invariant(&*self);
        }
        if let Some(i) = self.position(path) {
            let ghost before = self.entries@;
            let mut entries: Vec<SeenPath> = Vec::new();
            std::mem::swap(&mut entries, &mut self.entries);
            entries[i].lines.insert(line);
            self.entries = entries;
            proof {
                lemma_entry(before, i as int);
                lemma_entry_set(before, self.entries@, i as int);
            }
        } else {
            assert(mid.contains_key(path@));
        }
        assert(self@ =~= old(self)@.insert(
            path@,
            (if old(self)@.contains_key(path@) {
                old(self)@[path@]
            } else {
                Set::empty()
            }).insert(line),
        ));
    }
}

/// Each entry is what its path maps to.
proof fn lemma_entry(entries: Seq<SeenPath>, i: int)
    requires
        0 <= i < entries.len(),
        forall|a: int, b: int|
            #![trigger entries[a], entries[b]]
            0 <= a < b < entries.len() ==> entries[a].path@ != entries[b].path@,
    ensures
        entry_map(entries).contains_key(entries[i].path@),
        entry_map(entries)[entries[i].path@] == entries[i].lines@,
{
    let path = entries[i].path@;
    let k = choose|k: int| 0 <= k < entries.len() && #[trigger] entries[k].path@ == path;
    assert(0 <= k < entries.len() && entries[k].path@ == path);
    assert(k == i);
}

proof fn lemma_entry_pushed(before: Seq<SeenPath>, after: Seq<SeenPath>)
    requires
        after.len() == before.len() + 1,
        after.drop_last() == before,
        after.last().lines@ == Set::<u64>::empty(),
        forall|a: int, b: int|
            #![trigger after[a], after[b]]
            0 <= a < b < after.len() ==> after[a].path@ != after[b].path@,
    ensures
        entry_map(after) == entry_map(before).insert(after.last().path@, Set::empty()),
{
    let expected = entry_map(before).insert(after.last().path@, Set::empty());
    assert forall|a: int, b: int|
        #![trigger before[a], before[b]]
        0 <= a < b < before.len() implies before[a].path@ != before[b].path@ by {
        assert(after[a].path@ != after[b].path@);
    }
    assert forall|path: Seq<char>|
        #[trigger] entry_map(after).contains_key(path) <==> expected.contains_key(path) by {
        if entry_map(after).contains_key(path) {
            let i = choose|i: int| 0 <= i < after.len() && #[trigger] after[i].path@ == path;
            if i < before.len() {
                assert(before[i].path@ == path);
            }
        }
        if entry_map(before).contains_key(path) {
            let i = choose|i: int| 0 <= i < before.len() && #[trigger] before[i].path@ == path;
            assert(after[i].path@ == path);
        }
        assert(after[after.len() - 1] == after.last());
    }
    assert forall|path: Seq<char>| #[trigger] entry_map(after).contains_key(path) implies entry_map(
        after,
    )[path] == expected[path] by {
        let i = choose|i: int| 0 <= i < after.len() && #[trigger] after[i].path@ == path;
        lemma_entry(after, i);
        if i < before.len() {
            assert(before[i] == after[i]);
            lemma_entry(before, i);
            assert(after[i].path@ != after[after.len() - 1].path@);
        }
    }
    assert(entry_map(after) =~= expected);
}

proof fn lemma_entry_set(before: Seq<SeenPath>, after: Seq<SeenPath>, i: int)
    requires
        0 <= i < before.len(),
        after.len() == before.len(),
        after[i].path@ == before[i].path@,
        forall|k: int| 0 <= k < before.len() && k != i ==> after[k] == before[k],
        forall|a: int, b: int|
            #![trigger before[a], before[b]]
            0 <= a < b < before.len() ==> before[a].path@ != before[b].path@,
    ensures
        entry_map(after) == entry_map(before).insert(before[i].path@, after[i].lines@),
{
    let expected = entry_map(before).insert(before[i].path@, after[i].lines@);
    assert forall|k: int| 0 <= k < before.len() implies after[k].path@ == #[trigger] before[
        k
    ].path@ by {
        if k != i {
            assert(after[k] == before[k]);
        }
    }
    assert forall|a: int, b: int|
        #![trigger after[a], after[b]]
        0 <= a < b < after.len() implies after[a].path@ != after[b].path@ by {
        assert(before[a].path@ != before[b].path@);
    }
    assert forall|path: Seq<char>|
        #[trigger] entry_map(after).contains_key(path) <==> expected.contains_key(path) by {
        if entry_map(after).contains_key(path) {
            let k = choose|k: int| 0 <= k < after.len() && #[trigger] after[k].path@ == path;
            assert(before[k].path@ == path);
        }
        if entry_map(before).contains_key(path) {
            let k = choose|k: int| 0 <= k < before.len() && #[trigger] before[k].path@ == path;
            assert(after[k].path@ == path);
        }
        assert(after[i].path@ == before[i].path@);
    }
    assert forall|path: Seq<char>| #[trigger] entry_map(after).contains_key(path) implies entry_map(
        after,
    )[path] == expected[path] by {
        let k = choose|k: int| 0 <= k < after.len() && #[trigger] after[k].path@ == path;
        lemma_entry(after, k);
        lemma_entry(before, k);
        if k != i {
            assert(before[k].path@ != before[i].path@) by {
                if k < i {
                    assert(before[k].path@ != before[i].path@);
                } else {
                    assert(before[i].path@ != before[k].path@);
                }
            }
        }
    }
    assert(entry_map(after) =~= expected);
}

impl Seen {
    /// The paths with their lines.
    pub fn entries(&self) -> (entries: &[SeenPath])
        ensures
            entry_map(entries@) == self@,
    {
        self.entries.as_slice()
    }

    /// A copy.
    pub fn copy(&self) -> (copy: Self)
        ensures
            copy@ == self@,
    {
        proof {
            use_type_invariant(self);
        }
        let mut entries: Vec<SeenPath> = Vec::new();
        let mut i: usize = 0;
        while i < self.entries.len()
            invariant
                i == entries@.len() <= self.entries@.len(),
                forall|k: int|
                    0 <= k < i ==> (#[trigger] entries@[k]).path@ == self.entries@[k].path@
                        && entries@[k].lines@ == self.entries@[k].lines@,
            decreases self.entries.len() - i,
        {
            let entry = &self.entries[i];
            entries.push(
                SeenPath { path: entry.path.as_str().to_owned(), lines: copy_set(&entry.lines) },
            );
            i = i + 1;
        }
        proof {
            lemma_entries_copied(self.entries@, entries@);
            assert forall|a: int, b: int|
                #![trigger entries@[a], entries@[b]]
                0 <= a < b < entries@.len() implies entries@[a].path@ != entries@[b].path@ by {
                assert(self.entries@[a].path@ != self.entries@[b].path@);
            }
        }
        Seen { entries }
    }
}

proof fn lemma_entries_copied(entries: Seq<SeenPath>, copies: Seq<SeenPath>)
    requires
        entries.len() == copies.len(),
        forall|k: int|
            0 <= k < copies.len() ==> (#[trigger] copies[k]).path@ == entries[k].path@
                && copies[k].lines@ == entries[k].lines@,
        forall|a: int, b: int|
            #![trigger entries[a], entries[b]]
            0 <= a < b < entries.len() ==> entries[a].path@ != entries[b].path@,
    ensures
        entry_map(copies) == entry_map(entries),
{
    assert forall|a: int, b: int|
        #![trigger copies[a], copies[b]]
        0 <= a < b < copies.len() implies copies[a].path@ != copies[b].path@ by {
        assert(entries[a].path@ != entries[b].path@);
    }
    assert forall|path: Seq<char>|
        #[trigger] entry_map(copies).contains_key(path) <==> entry_map(entries).contains_key(
            path,
        ) by {
        if entry_map(copies).contains_key(path) {
            let k = choose|k: int| 0 <= k < copies.len() && #[trigger] copies[k].path@ == path;
            assert(entries[k].path@ == path);
        }
        if entry_map(entries).contains_key(path) {
            let k = choose|k: int| 0 <= k < entries.len() && #[trigger] entries[k].path@ == path;
            assert(copies[k].path@ == path);
        }
    }
    assert forall|path: Seq<char>| #[trigger] entry_map(copies).contains_key(
        path,
    ) implies entry_map(copies)[path] == entry_map(entries)[path] by {
        let k = choose|k: int| 0 <= k < copies.len() && #[trigger] copies[k].path@ == path;
        lemma_entry(copies, k);
        lemma_entry(entries, k);
    }
    assert(entry_map(copies) =~= entry_map(entries));
}

/// Per-repository state.
#[derive(Debug)]
pub struct RepoState {
    /// Changed-line hashes per path at the last look; `None` until the first look.
    pub seen: Option<Seen>,
    /// Hashes of hunks marked reviewed.
    pub reviewed: HashSet<u64>,
    /// Review comments that were not sent yet.
    pub comments: Vec<Comment>,
}

impl Default for RepoState {
    /// The state of a repository that was never looked at.
    fn default() -> (state: Self)
        ensures
            state.seen is None,
            state.reviewed@ == Set::<u64>::empty(),
            state.comments@ == Seq::<Comment>::empty(),
    {
        RepoState { seen: None, reviewed: HashSet::new(), comments: Vec::new() }
    }
}

/// The hexadecimal digit of a number below 16.
pub open spec fn hex_digit(n: int) -> char {
    if n < 10 {
        (48 + n) as char
    } else {
        (87 + n) as char
    }
}

/// The last `count` hexadecimal digits of a number.
pub open spec fn hex_digits(n: nat, count: nat) -> Seq<char>
    decreases count,
{
    if count == 0 {
        Seq::empty()
    } else {
        hex_digits(n / 16, (count - 1) as nat).push(hex_digit((n % 16) as int))
    }
}

pub(crate) fn push_hex(s: &mut String, n: u64, count: usize)
    ensures
        final(s)@ == old(s)@ + hex_digits(n as nat, count as nat),
    decreases count,
{
    let ghost before = s@;
    if count > 0 {
        push_hex(s, n / 16, count - 1);
        let digit: u8 = (n % 16) as u8;
        if digit < 10 {
            s.push((48 + digit) as char);
        } else {
            s.push((87 + digit) as char);
        }
    }
    assert(s@ =~= before + hex_digits(n as nat, count as nat));
}

/// Where the state of a repository is kept, below the data directory.
pub open spec fn repo_file_name(root: Seq<u8>) -> Seq<char> {
    "repos/"@ + hex_digits(fnv_parts(seq![root]) as nat, 16) + ".json"@
}

fn name_of_repo_file(root: &[u8]) -> (file: String)
    ensures
        file@ == repo_file_name(root@),
{
    let parts: Vec<&[u8]> = vec![root];
    let key: u64 = stable_hash(parts.as_slice());
    assert(part_bytes(parts@) =~= seq![root@]);
    let mut file = "repos/".to_owned();
    push_hex(&mut file, key, 16);
    push_text(&mut file, ".json");
    file
}

/// A repository that was opened.
#[derive(Debug)]
pub struct RecentRepo {
    /// Its root, as bytes.
    pub root: Vec<u8>,
    /// Seconds since the Unix epoch.
    pub opened_at: u64,
}

/// The list without the repository at `root`.
pub open spec fn without_root(recent: Seq<RecentRepo>, root: Seq<u8>) -> Seq<RecentRepo>
    decreases recent.len(),
{
    if recent.len() == 0 {
        Seq::empty()
    } else if recent.last().root@ == root {
        without_root(recent.drop_last(), root)
    } else {
        without_root(recent.drop_last(), root).push(recent.last())
    }
}

/// At most the first `limit` elements.
pub open spec fn at_most<A>(s: Seq<A>, limit: int) -> Seq<A> {
    if s.len() <= limit {
        s
    } else {
        s.take(limit)
    }
}

/// Goro's own persistent state, outside the repository: recently opened repositories and,
/// per repository, what the user has seen and marked reviewed.
#[derive(Debug, PartialEq, Eq)]
pub struct Store {
    dir: Vec<u8>,
}

impl View for Store {
    type V = Seq<u8>;

    closed spec fn view(&self) -> Seq<u8> {
        self.dir@
    }
}

impl Store {
    /// A store in a directory.
    pub fn at(dir: Vec<u8>) -> (store: Self)
        ensures
            store@ == dir@,
    {
        Store { dir }
    }

    /// Where the state of the repository at `root` is kept.
    pub fn repo_file(&self, root: &[u8]) -> (file: Vec<u8>)
        ensures
            file@ == turns::joined(self@, crate::bytes::text_bytes(repo_file_name(root@))),
    {
        turns::join(self.dir.as_slice(), name_of_repo_file(root).as_str().as_bytes())
    }

    /// Where the recently opened repositories are kept.
    pub fn recent_file(&self) -> (file: Vec<u8>)
        ensures
            file@ == turns::joined(self@, crate::bytes::text_bytes("recent.json"@)),
    {
        turns::join(self.dir.as_slice(), "recent.json".as_bytes())
    }

    /// Where the repositories that hooks recorded turns in are kept.
    pub fn activity_file(&self) -> (file: Vec<u8>)
        ensures
            file@ == turns::joined(self@, crate::bytes::text_bytes("activity.json"@)),
    {
        turns::join(self.dir.as_slice(), "activity.json".as_bytes())
    }

    /// The stored state of a repository, or the default if there is none (or it can't be
    /// read).
    pub fn repo_state(stored: Option<RepoState>) -> (state: RepoState)
        ensures
            match stored {
                Some(s) => state == s,
                None => state.seen is None && state.reviewed@ == Set::<u64>::empty()
                    && state.comments@ == Seq::<Comment>::empty(),
            },
    {
        match stored {
            Some(state) => state,
            None => RepoState::default(),
        }
    }

    /// The stored repositories, most recent first; none if they can't be read.
    pub fn recent(stored: Option<Vec<RecentRepo>>) -> (recent: Vec<RecentRepo>)
        ensures
            match stored {
                Some(s) => recent == s,
                None => recent@ == Seq::<RecentRepo>::empty(),
            },
    {
        match stored {
            Some(recent) => recent,
            None => Vec::new(),
        }
    }

    /// The recent repositories after `root` is opened at `now`: it comes first and once, and
    /// the oldest beyond [`RECENT_LIMIT`] are forgotten.
    pub fn touch_recent(recent: Vec<RecentRepo>, root: &[u8], now: u64) -> (touched: Vec<RecentRepo>)
        ensures
            touched@.len() > 0,
            touched@[0].root@ == root@,
            touched@[0].opened_at == now,
            touched@.drop_first() == at_most(without_root(recent@, root@), RECENT_LIMIT - 1),
    {
        let mut touched: Vec<RecentRepo> = Vec::new();
        touched.push(RecentRepo { root: copy(root), opened_at: now });
        let ghost first = touched@[0];
        let ghost all = recent@;
        let ghost mut done: Seq<RecentRepo> = Seq::empty();
        for entry in iter: recent
            invariant
                iter.seq() == all,
                done == without_root(all.take(iter.index() as int), root@),
                touched@ == seq![first] + done,
        {
            let ghost at = iter.index();
            assert(all.take(at + 1).drop_last() =~= all.take(at as int));
            assert(all.take(at + 1).last() == entry);
            if !same(entry.root.as_slice(), root) {
                touched.push(entry);
                proof {
                    done = done.push(entry);
                }
                assert(touched@ =~= seq![first] + done);
            }
        }
        assert(all.take(all.len() as int) =~= all);
        assert(touched@.drop_first() =~= done);
        if touched.len() > RECENT_LIMIT {
            touched.truncate(RECENT_LIMIT);
            assert(touched@.drop_first() =~= done.take(RECENT_LIMIT - 1));
        }
        touched
    }
}

/// Whether no root occurs twice.
pub open spec fn roots_distinct(recent: Seq<RecentRepo>) -> bool {
    forall|i: int, j: int|
        #![trigger recent[i], recent[j]]
        0 <= i < j < recent.len() ==> recent[i].root@ != recent[j].root@
}

proof fn lemma_without_root(recent: Seq<RecentRepo>, root: Seq<u8>)
    requires
        roots_distinct(recent),
    ensures
        roots_distinct(without_root(recent, root)),
        forall|k: int|
            0 <= k < without_root(recent, root).len() ==> (#[trigger] without_root(
                recent,
                root,
            )[k]).root@ != root,
        forall|k: int|
            0 <= k < without_root(recent, root).len() ==> exists|i: int|
                0 <= i < recent.len() && recent[i] == #[trigger] without_root(recent, root)[k],
    decreases recent.len(),
{
    if recent.len() > 0 {
        let rest = recent.drop_last();
        assert(roots_distinct(rest)) by {
            assert forall|i: int, j: int|
                #![trigger rest[i], rest[j]]
                0 <= i < j < rest.len() implies rest[i].root@ != rest[j].root@ by {
                assert(recent[i].root@ != recent[j].root@);
            }
        }
        lemma_without_root(rest, root);
        let kept = without_root(rest, root);
        let all = without_root(recent, root);
        assert forall|k: int| 0 <= k < all.len() implies exists|i: int|
            0 <= i < recent.len() && recent[i] == #[trigger] all[k] by {
            if k < kept.len() {
                let i = choose|i: int| 0 <= i < rest.len() && rest[i] == kept[k];
                assert(recent[i] == all[k]);
            } else {
                assert(recent[recent.len() - 1] == all[k]);
            }
        }
        assert forall|a: int, b: int|
            #![trigger all[a], all[b]]
            0 <= a < b < all.len() implies all[a].root@ != all[b].root@ by {
            if b < kept.len() {
                assert(kept[a].root@ != kept[b].root@);
            } else {
                let i = choose|i: int| 0 <= i < rest.len() && rest[i] == kept[a];
                assert(recent[i].root@ != recent[recent.len() - 1].root@);
            }
        }
    }
}

/// A list that names each repository once still does so after one is opened, and it never
/// grows beyond its limit.
pub proof fn law_recent_stays_distinct(recent: Seq<RecentRepo>, root: Seq<u8>, touched: Seq<RecentRepo>)
    requires
        roots_distinct(recent),
        touched.len() > 0,
        touched[0].root@ == root,
        touched.drop_first() == at_most(without_root(recent, root), RECENT_LIMIT - 1),
    ensures
        roots_distinct(touched),
        touched.len() <= RECENT_LIMIT,
{
    lemma_without_root(recent, root);
    let kept = without_root(recent, root);
    assert(touched.drop_first().len() == touched.len() - 1);
    assert forall|a: int, b: int|
        #![trigger touched[a], touched[b]]
        0 <= a < b < touched.len() implies touched[a].root@ != touched[b].root@ by {
        assert(touched[b] == touched.drop_first()[b - 1]);
        assert(touched[b] == kept[b - 1]);
        if a > 0 {
            assert(touched[a] == touched.drop_first()[a - 1]);
            assert(touched[a] == kept[a - 1]);
        }
    }
}

/// The name of the file in which a state file is written before it takes the state file's
/// place: a crash never leaves a truncated file behind.
pub fn temp_name(name: &str, pid: u32) -> (temp: String)
    ensures
        temp@ == "."@ + name@ + "."@ + crate::text::digits(pid as nat) + ".tmp"@,
{
    let mut temp = crate::text::copy_text(".");
    crate::text::push_text(&mut temp, name);
    crate::text::push_text(&mut temp, ".");
    crate::text::push_number(&mut temp, pid as u64);
    crate::text::push_text(&mut temp, ".tmp");
    temp
}

/// How many numbers have `count` hexadecimal digits.
spec fn hex_bound(count: nat) -> nat
    decreases count,
{
    if count == 0 {
        1
    } else {
        16 * hex_bound((count - 1) as nat)
    }
}

/// Numbers that fit have different digits.
proof fn lemma_digits_differ(n: nat, m: nat, count: nat)
    requires
        n < hex_bound(count),
        m < hex_bound(count),
        hex_digits(n, count) == hex_digits(m, count),
    ensures
        n == m,
    decreases count,
{
    if count > 0 {
        let less = (count - 1) as nat;
        let (a, b) = (hex_digits(n / 16, less), hex_digits(m / 16, less));
        assert(hex_digits(n, count).drop_last() =~= a);
        assert(hex_digits(m, count).drop_last() =~= b);
        assert(hex_digits(n, count).last() == hex_digit((n % 16) as int));
        assert(hex_digits(m, count).last() == hex_digit((m % 16) as int));
        lemma_digits_differ(n / 16, m / 16, less);
    }
}

/// Each repository has a state of its own: roots whose hashes differ are kept in different
/// files, so that saving the state of one leaves that of the other as it was.
pub proof fn law_repositories_are_kept_apart(dir: Seq<u8>, a: Seq<u8>, b: Seq<u8>)
    requires
        fnv_parts(seq![a]) != fnv_parts(seq![b]),
    ensures
        turns::joined(dir, crate::bytes::text_bytes(repo_file_name(a))) != turns::joined(
            dir,
            crate::bytes::text_bytes(repo_file_name(b)),
        ),
{
    let (x, y) = (fnv_parts(seq![a]) as nat, fnv_parts(seq![b]) as nat);
    let (p, q) = (repo_file_name(a), repo_file_name(b));
    let (s, t) = (crate::bytes::text_bytes(p), crate::bytes::text_bytes(q));
    if turns::joined(dir, s) == turns::joined(dir, t) {
        let (u, v) = (turns::joined(dir, s), turns::joined(dir, t));
        let n = u.len() - s.len();
        assert(u.skip(n) =~= s);
        assert(v.skip(v.len() - t.len()) =~= t);
        crate::utf8::lemma_encode_injective(p, q);
        let (head, tail) = ("repos/"@, ".json"@);
        let (h, k) = (hex_digits(x, 16), hex_digits(y, 16));
        lemma_digits_len(x, 16);
        lemma_digits_len(y, 16);
        assert(p.subrange(head.len() as int, head.len() + 16int) =~= h);
        assert(q.subrange(head.len() as int, head.len() + 16int) =~= k);
        assert(hex_bound(16) == 0x1_0000_0000_0000_0000) by {
            reveal_with_fuel(hex_bound, 17);
        }
        lemma_digits_differ(x, y, 16);
    }
}

proof fn lemma_digits_len(n: nat, count: nat)
    ensures
        hex_digits(n, count).len() == count,
    decreases count,
{
    if count > 0 {
        lemma_digits_len(n / 16, (count - 1) as nat);
    }
}

/// Where the repositories that are not at `root` stand in a list.
pub open spec fn is_rest(
    recent: Seq<RecentRepo>,
    root: Seq<u8>,
    kept: Seq<RecentRepo>,
    places: Seq<int>,
) -> bool {
    &&& places.len() == kept.len()
    &&& forall|k: int|
        0 <= k < kept.len() ==> 0 <= #[trigger] places[k] < recent.len() && kept[k]
            == recent[places[k]]
    &&& forall|a: int, b: int|
        #![trigger places[a], places[b]]
        0 <= a < b < places.len() ==> places[a] < places[b]
}

proof fn lemma_rest_places(recent: Seq<RecentRepo>, root: Seq<u8>) -> (places: Seq<int>)
    ensures
        is_rest(recent, root, without_root(recent, root), places),
        forall|i: int|
            0 <= i < recent.len() ==> ((#[trigger] recent[i]).root@ != root <==> places.contains(i)),
    decreases recent.len(),
{
    if recent.len() == 0 {
        Seq::empty()
    } else {
        let rest = recent.drop_last();
        let before = lemma_rest_places(rest, root);
        let kept = without_root(rest, root);
        let n = recent.len() - 1;
        if recent.last().root@ == root {
            assert forall|i: int| 0 <= i < recent.len() implies ((#[trigger] recent[i]).root@ != root
                <==> before.contains(i)) by {
                if i < n {
                    assert(rest[i] == recent[i]);
                } else if before.contains(i) {
                    let k = before.index_of(i);
                    assert(0 <= before[k] < rest.len());
                }
            }
            before
        } else {
            let places = before.push(n);
            assert forall|i: int| 0 <= i < recent.len() implies ((#[trigger] recent[i]).root@ != root
                <==> places.contains(i)) by {
                if i < n {
                    assert(rest[i] == recent[i]);
                    if before.contains(i) {
                        let k = before.index_of(i);
                        assert(places[k] == i);
                    }
                    if places.contains(i) {
                        let k = places.index_of(i);
                        assert(before[k] == i);
                    }
                } else {
                    assert(places[before.len() as int] == n);
                }
            }
            places
        }
    }
}

/// Opening a repository puts it first, with the time, and keeps all others in their order; only
/// those beyond the limit, the ones at the end, are forgotten.
pub proof fn law_opening_puts_a_repository_first(
    recent: Seq<RecentRepo>,
    root: Seq<u8>,
    touched: Seq<RecentRepo>,
) -> (places: Seq<int>)
    requires
        touched.len() > 0,
        touched[0].root@ == root,
        touched.drop_first() == at_most(without_root(recent, root), RECENT_LIMIT - 1),
    ensures
        is_rest(recent, root, touched.drop_first(), places),
        forall|i: int|
            0 <= i < recent.len() && (#[trigger] recent[i]).root@ != root && !places.contains(i)
                ==> touched.len() == 50 && forall|k: int|
                0 <= k < places.len() ==> #[trigger] places[k] < i,
        forall|k: int|
            0 <= k < touched.len() - 1 ==> (#[trigger] touched.drop_first()[k]).root@ != root,
{
    let all = lemma_rest_places(recent, root);
    let kept = without_root(recent, root);
    let places = at_most(all, RECENT_LIMIT - 1);
    assert(touched.drop_first().len() == touched.len() - 1);
    assert forall|i: int|
        0 <= i < recent.len() && (#[trigger] recent[i]).root@ != root && !places.contains(
            i,
        ) implies touched.len() == 50 && forall|k: int|
        0 <= k < places.len() ==> #[trigger] places[k] < i by {
        assert(all.contains(i));
        let at = all.index_of(i);
        if at < places.len() {
            assert(places[at] == i);
        }
        assert forall|k: int| 0 <= k < places.len() implies #[trigger] places[k] < i by {
            assert(all[k] < all[at]);
        }
    }
    assert forall|k: int| 0 <= k < touched.len() - 1 implies (
    #[trigger] touched.drop_first()[k]).root@ != root by {
        assert(touched.drop_first()[k] == recent[all[k]]);
        assert(all.contains(all[k]));
    }
    places
}

} // verus!
