//! Per-thread persisted state: for each named thread, the upstream
//! conversation id that the next message continues. No transcript is kept.

use vstd::prelude::*;
use crate::config::opt_view;
use crate::order::{
    chars_lt, str_less, lemma_chars_lt_irreflexive, lemma_chars_lt_transitive, lemma_chars_lt_total,
};

verus! {

/// The view of an optional borrowed string.
pub open spec fn opt_str_view(o: Option<&str>) -> Option<Seq<char>> {
    match o {
        Some(s) => Some(s@),
        None => None,
    }
}

/// The state of one thread: the upstream conversation id it continues, if any.
#[derive(Debug, Clone)]
pub struct ThreadState {
    pub conversation_id: Option<String>,
}

impl Default for ThreadState {
    /// A thread with no conversation yet.
    fn default() -> (res: Self)
        ensures
            res.conversation_id is None,
    {
        ThreadState { conversation_id: None }
    }
}

impl ThreadState {
    pub open spec fn id_view(self) -> Option<Seq<char>> {
        opt_view(self.conversation_id)
    }
}

/// The conversation id stored for `thread` in the state map `m`: `None` when
/// the thread is unknown or has no id yet.
pub open spec fn stored_id(m: Map<Seq<char>, Option<Seq<char>>>, thread: Seq<char>) -> Option<
    Seq<char>,
> {
    if m.contains_key(thread) {
        m[thread]
    } else {
        None
    }
}

/// The whole state file: a map from thread name to thread state.
#[derive(Debug)]
pub struct StateFile {
    threads: Vec<(String, ThreadState)>,
}

/// No thread name occurs twice.
pub open spec fn unique_names(s: Seq<(String, ThreadState)>) -> bool {
    forall|i: int, j: int|
        0 <= i < s.len() && 0 <= j < s.len() && i != j ==> #[trigger] s[i].0@ != #[trigger] s[j].0@
}

/// Whether some entry of `s` is named `k`.
pub open spec fn names_contain(s: Seq<(String, ThreadState)>, k: Seq<char>) -> bool {
    exists|i: int| 0 <= i < s.len() && #[trigger] s[i].0@ == k
}

/// The map that the entries `s` stand for.
pub open spec fn entries_view(s: Seq<(String, ThreadState)>) -> Map<Seq<char>, Option<Seq<char>>> {
    Map::new(
        |k: Seq<char>| names_contain(s, k),
        |k: Seq<char>| s[choose|i: int| 0 <= i < s.len() && #[trigger] s[i].0@ == k].1.id_view(),
    )
}

/// With unique names, the entry at `i` is what the map holds for its name.
pub proof fn lemma_entry_in_view(s: Seq<(String, ThreadState)>, i: int)
    requires
        unique_names(s),
        0 <= i < s.len(),
    ensures
        entries_view(s).contains_key(s[i].0@),
        entries_view(s)[s[i].0@] == s[i].1.id_view(),
{
    let k = s[i].0@;
    assert(names_contain(s, k));
    let j = choose|j: int| 0 <= j < s.len() && #[trigger] s[j].0@ == k;
    assert(s[j].0@ == k);
}

/// A listed pair shows the entry `e`: its name and its conversation id.
pub open spec fn listed_from(item: (&str, Option<&str>), e: (String, ThreadState)) -> bool {
    item.0@ == e.0@ && opt_str_view(item.1) == e.1.id_view()
}

/// The names of `s` increase strictly.
pub open spec fn strictly_sorted(s: Seq<(&str, Option<&str>)>) -> bool {
    forall|a: int, c: int| 0 <= a < c < s.len() ==> chars_lt(#[trigger] s[a].0@, #[trigger] s[c].0@)
}

/// Each element of `a` occurs in `b`.
pub open spec fn all_occur_in<T>(a: Seq<T>, b: Seq<T>) -> bool {
    forall|i: int| 0 <= i < a.len() ==> #[trigger] b.contains(a[i])
}

proof fn lemma_sorted_insert(before: Seq<(&str, Option<&str>)>, item: (&str, Option<&str>), p: int)
    requires
        strictly_sorted(before),
        0 <= p <= before.len(),
        forall|a: int| 0 <= a < p ==> chars_lt(#[trigger] before[a].0@, item.0@),
        p < before.len() ==> chars_lt(item.0@, before[p].0@),
    ensures
        strictly_sorted(before.insert(p, item)),
{
    let after = before.insert(p, item);
    assert forall|a: int, c: int| 0 <= a < c < after.len() implies chars_lt(
        #[trigger] after[a].0@,
        #[trigger] after[c].0@,
    ) by {
        if c == p {
        } else if a == p {
            if c - 1 > p {
                lemma_chars_lt_transitive(item.0@, before[p].0@, before[c - 1].0@);
            }
        } else if a < p && c > p {
            if c - 1 > p {
                lemma_chars_lt_transitive(item.0@, before[p].0@, before[c - 1].0@);
            }
            lemma_chars_lt_transitive(before[a].0@, item.0@, before[c - 1].0@);
        } else if c < p {
            assert(before[a] == after[a] && before[c] == after[c]);
        } else {
            assert(before[a - 1] == after[a] && before[c - 1] == after[c]);
        }
    }
}

/// Inserts `item` into the strictly sorted `v` at the place its name orders to.
fn insert_sorted<'a>(v: &mut Vec<(&'a str, Option<&'a str>)>, item: (&'a str, Option<&'a str>))
    requires
        strictly_sorted(old(v)@),
        forall|a: int| 0 <= a < old(v)@.len() ==> #[trigger] old(v)@[a].0@ != item.0@,
    ensures
        strictly_sorted(final(v)@),
        exists|p: int| 0 <= p <= old(v)@.len() && final(v)@ == old(v)@.insert(p, item),
{
    let ghost before = v@;
    let name = item.0;
    let mut pos: usize = 0;
    while pos < v.len() && !str_less(name, v[pos].0)
        invariant
            v@ == before,
            0 <= pos <= v@.len(),
            forall|a: int| 0 <= a < pos ==> chars_lt(#[trigger] v@[a].0@, name@),
            forall|a: int| 0 <= a < v@.len() ==> #[trigger] v@[a].0@ != name@,
        decreases v@.len() - pos,
    {
        proof {
            lemma_chars_lt_total(v@[pos as int].0@, name@);
        }
        pos = pos + 1;
    }
    v.insert(pos, item);
    proof {
        lemma_sorted_insert(before, item, pos as int);
    }
}

/// The pairs of `v`, ordered by name; names must be distinct.
fn sort_by_name<'a>(v: Vec<(&'a str, Option<&'a str>)>) -> (res: Vec<(&'a str, Option<&'a str>)>)
    requires
        forall|a: int, b: int|
            0 <= a < v@.len() && 0 <= b < v@.len() && a != b ==> #[trigger] v@[a].0@ != #[trigger] v@[b].0@,
    ensures
        strictly_sorted(res@),
        all_occur_in(res@, v@),
        all_occur_in(v@, res@),
{
    let n = v.len();
    let mut sorted: Vec<(&str, Option<&str>)> = Vec::new();
    let mut i: usize = 0;
    while i < n
        invariant
            n == v@.len(),
            forall|a: int, b: int|
                0 <= a < v@.len() && 0 <= b < v@.len() && a != b ==> #[trigger] v@[a].0@ != #[trigger] v@[b].0@,
            0 <= i <= n,
            strictly_sorted(sorted@),
            all_occur_in(sorted@, v@.take(i as int)),
            all_occur_in(v@.take(i as int), sorted@),
        decreases n - i,
    {
        let item = v[i];
        proof {
            assert forall|a: int| 0 <= a < sorted@.len() implies #[trigger] sorted@[a].0@ != item.0@ by {
                assert(v@.take(i as int).contains(sorted@[a]));
                let b = choose|b: int| 0 <= b < i && v@.take(i as int)[b] == sorted@[a];
                assert(v@[b].0@ != v@[i as int].0@);
            }
        }
        let ghost old_sorted = sorted@;
        insert_sorted(&mut sorted, item);
        proof {
            let p = choose|p: int| 0 <= p <= old_sorted.len() && sorted@ == old_sorted.insert(p, item);
            let t = v@.take(i + 1);
            assert(t =~= v@.take(i as int).push(item));
            assert forall|a: int| 0 <= a < sorted@.len() implies #[trigger] t.contains(sorted@[a]) by {
                if a < p {
                    assert(old_sorted[a] == sorted@[a]);
                    assert(v@.take(i as int).contains(old_sorted[a]));
                    let b = choose|b: int| 0 <= b < i && v@.take(i as int)[b] == old_sorted[a];
                    assert(t[b] == sorted@[a]);
                } else if a == p {
                    assert(t[i as int] == sorted@[a]);
                } else {
                    assert(old_sorted[a - 1] == sorted@[a]);
                    assert(v@.take(i as int).contains(old_sorted[a - 1]));
                    let b = choose|b: int| 0 <= b < i && v@.take(i as int)[b] == old_sorted[a - 1];
                    assert(t[b] == sorted@[a]);
                }
            }
            assert forall|b: int| 0 <= b < t.len() implies #[trigger] sorted@.contains(t[b]) by {
                if b == i {
                    assert(sorted@[p] == item);
                } else {
                    assert(t[b] == v@.take(i as int)[b]);
                    assert(old_sorted.contains(t[b]));
                    let a = choose|a: int| 0 <= a < old_sorted.len() && old_sorted[a] == t[b];
                    if a < p {
                        assert(sorted@[a] == t[b]);
                    } else {
                        assert(sorted@[a + 1] == t[b]);
                    }
                }
            }
        }
        i = i + 1;
    }
    assert(v@.take(n as int) =~= v@);
    sorted
}

/// The (name, conversation id) pairs that a listing shows.
pub open spec fn listing_view(r: Seq<(&str, Option<&str>)>) -> Seq<(Seq<char>, Option<Seq<char>>)> {
    r.map_values(|p: (&str, Option<&str>)| (p.0@, opt_str_view(p.1)))
}

/// `r` lists the map `m`: every entry of `m`, each with its value, in
/// strictly increasing name order.
pub open spec fn lists_map(
    m: Map<Seq<char>, Option<Seq<char>>>,
    r: Seq<(Seq<char>, Option<Seq<char>>)>,
) -> bool {
    &&& forall|i: int|
        0 <= i < r.len() ==> m.contains_key(#[trigger] r[i].0) && m[r[i].0] == r[i].1
    &&& forall|k: Seq<char>|
        #[trigger] m.contains_key(k) ==> exists|i: int| 0 <= i < r.len() && #[trigger] r[i].0 == k
    &&& forall|i: int, j: int| 0 <= i < j < r.len() ==> chars_lt(#[trigger] r[i].0, #[trigger] r[j].0)
}

impl View for StateFile {
    type V = Map<Seq<char>, Option<Seq<char>>>;

    closed spec fn view(&self) -> Map<Seq<char>, Option<Seq<char>>> {
        entries_view(self.threads@)
    }
}

impl Default for StateFile {
    fn default() -> (res: Self)
        ensures
            res@ == Map::<Seq<char>, Option<Seq<char>>>::empty(),
    {
        StateFile::new()
    }
}

impl StateFile {
    #[verifier::type_invariant]
    spec fn names_are_unique(self) -> bool {
        unique_names(self.threads@)
    }

    /// An empty state: no thread is known.
    pub fn new() -> (res: Self)
        ensures
            res@ == Map::<Seq<char>, Option<Seq<char>>>::empty(),
    {
        let res = StateFile { threads: Vec::new() };
        assert(res@ =~= Map::<Seq<char>, Option<Seq<char>>>::empty());
        res
    }

    /// The position of `thread` among the entries.
    fn position(&self, thread: &str) -> (res: Option<usize>)
        ensures
            match res {
                Some(i) => i < self.threads@.len() && self.threads@[i as int].0@ == thread@,
                None => !names_contain(self.threads@, thread@),
            },
    {
        let key = String::from_str(thread);
        let mut i: usize = 0;
        while i < self.threads.len()
            invariant
                key@ == thread@,
                0 <= i <= self.threads@.len(),
                forall|j: int| 0 <= j < i ==> #[trigger] self.threads@[j].0@ != thread@,
            decreases self.threads@.len() - i,
        {
            if self.threads[i].0 == key {
                return Some(i);
            }
            i = i + 1;
        }
        None
    }

    /// The conversation id that `thread` continues, if it has one.
    pub fn conversation_id(&self, thread: &str) -> (res: Option<&str>)
        ensures
            opt_str_view(res) == stored_id(self@, thread@),
    {
        proof {
            use_type_invariant(self);
        }
        match self.position(thread) {
            Some(i) => {
                proof {
                    lemma_entry_in_view(self.threads@, i as int);
                }
                match &self.threads[i].1.conversation_id {
                    Some(id) => Some(id.as_str()),
                    None => None,
                }
            },
            None => None,
        }
    }

    /// Puts `state` under `thread`, replacing what was there.
    pub fn insert_thread(&mut self, thread: String, state: ThreadState)
        ensures
            final(self)@ == old(self)@.insert(thread@, state.id_view()),
    {
        proof {
            use_type_invariant(&*self);
        }
        let pos = self.position(thread.as_str());
        let mut threads: Vec<(String, ThreadState)> = Vec::new();
        std::mem::swap(&mut threads, &mut self.threads);
        let ghost before = threads@;
        let ghost k = thread@;
        let ghost v = state.id_view();
        match pos {
            Some(i) => {
                threads.set(i, (thread, state));
                proof {
                    assert forall|a: int, b: int|
                        0 <= a < threads@.len() && 0 <= b < threads@.len() && a != b implies
                        #[trigger] threads@[a].0@ != #[trigger] threads@[b].0@ by {
                        assert(before[a].0@ != before[b].0@);
                    }
                    assert forall|key: Seq<char>|
                        #[trigger] entries_view(threads@).contains_key(key) ==
                        entries_view(before).insert(k, v).contains_key(key) by {
                        if names_contain(before, key) {
                            let j = choose|j: int| 0 <= j < before.len() && #[trigger] before[j].0@ == key;
                            if j != i { assert(threads@[j].0@ == key); } else { assert(threads@[i as int].0@ == k); }
                        }
                        if names_contain(threads@, key) {
                            let j = choose|j: int| 0 <= j < threads@.len() && #[trigger] threads@[j].0@ == key;
                            if j != i { assert(before[j].0@ == key); }
                        }
                        if key == k { assert(threads@[i as int].0@ == k); }
                    }
                    assert forall|key: Seq<char>|
                        #[trigger] entries_view(threads@).contains_key(key) implies
                        entries_view(threads@)[key] == entries_view(before).insert(k, v)[key] by {
                        let j = choose|j: int| 0 <= j < threads@.len() && #[trigger] threads@[j].0@ == key;
                        lemma_entry_in_view(threads@, j);
                        if j != i {
                            assert(before[j] == threads@[j]);
                            lemma_entry_in_view(before, j);
                        }
                    }
                    assert(entries_view(threads@) =~= entries_view(before).insert(k, v));
                }
            },
            None => {
                threads.push((thread, state));
                proof {
                    let n = before.len() as int;
                    assert forall|a: int, b: int|
                        0 <= a < threads@.len() && 0 <= b < threads@.len() && a != b implies
                        #[trigger] threads@[a].0@ != #[trigger] threads@[b].0@ by {
                        if a < n && b < n {
                            assert(before[a].0@ != before[b].0@);
                        } else if a == n {
                            assert(before[b].0@ == threads@[b].0@);
                        } else {
                            assert(before[a].0@ == threads@[a].0@);
                        }
                    }
                    assert forall|key: Seq<char>|
                        #[trigger] entries_view(threads@).contains_key(key) ==
                        entries_view(before).insert(k, v).contains_key(key) by {
                        if names_contain(before, key) {
                            let j = choose|j: int| 0 <= j < before.len() && #[trigger] before[j].0@ == key;
                            assert(threads@[j].0@ == key);
                        }
                        if names_contain(threads@, key) {
                            let j = choose|j: int| 0 <= j < threads@.len() && #[trigger] threads@[j].0@ == key;
                            if j != n { assert(before[j].0@ == key); }
                        }
                        if key == k { assert(threads@[n].0@ == k); }
                    }
                    assert forall|key: Seq<char>|
                        #[trigger] entries_view(threads@).contains_key(key) implies
                        entries_view(threads@)[key] == entries_view(before).insert(k, v)[key] by {
                        let j = choose|j: int| 0 <= j < threads@.len() && #[trigger] threads@[j].0@ == key;
                        lemma_entry_in_view(threads@, j);
                        if j != n {
                            assert(before[j] == threads@[j]);
                            lemma_entry_in_view(before, j);
                        }
                    }
                    assert(entries_view(threads@) =~= entries_view(before).insert(k, v));
                }
            },
        }
        self.threads = threads;
    }

    /// Records `id` as the conversation that `thread` continues.
    pub fn set_conversation_id(&mut self, thread: &str, id: String)
        ensures
            final(self)@ == old(self)@.insert(thread@, Some(id@)),
    {
        self.insert_thread(String::from_str(thread), ThreadState { conversation_id: Some(id) });
    }

    /// Forgets `thread` entirely.
    pub fn clear(&mut self, thread: &str)
        ensures
            final(self)@ == old(self)@.remove(thread@),
    {
        proof {
            use_type_invariant(&*self);
        }
        let pos = self.position(thread);
        match pos {
            Some(i) => {
                let mut threads: Vec<(String, ThreadState)> = Vec::new();
                std::mem::swap(&mut threads, &mut self.threads);
                let ghost before = threads@;
                let ghost k = thread@;
                let _ = threads.remove(i);
                proof {
                    let ii = i as int;
                    assert forall|a: int| 0 <= a < threads@.len() implies
                        #[trigger] threads@[a] == before[if a < ii { a } else { a + 1 }] by {}
                    assert forall|a: int, b: int|
                        0 <= a < threads@.len() && 0 <= b < threads@.len() && a != b implies
                        #[trigger] threads@[a].0@ != #[trigger] threads@[b].0@ by {
                        let a2 = if a < ii { a } else { a + 1 };
                        let b2 = if b < ii { b } else { b + 1 };
                        assert(before[a2].0@ != before[b2].0@);
                    }
                    assert forall|key: Seq<char>|
                        #[trigger] entries_view(threads@).contains_key(key) ==
                        entries_view(before).remove(k).contains_key(key) by {
                        if names_contain(before, key) && key != k {
                            let j = choose|j: int| 0 <= j < before.len() && #[trigger] before[j].0@ == key;
                            assert(j != ii);
                            let j2 = if j < ii { j } else { j - 1 };
                            assert(threads@[j2].0@ == key);
                        }
                        if names_contain(threads@, key) {
                            let j = choose|j: int| 0 <= j < threads@.len() && #[trigger] threads@[j].0@ == key;
                            let j2 = if j < ii { j } else { j + 1 };
                            assert(before[j2].0@ == key);
                            assert(j2 != ii);
                        }
                    }
                    assert forall|key: Seq<char>|
                        #[trigger] entries_view(threads@).contains_key(key) implies
                        entries_view(threads@)[key] == entries_view(before).remove(k)[key] by {
                        let j = choose|j: int| 0 <= j < threads@.len() && #[trigger] threads@[j].0@ == key;
                        lemma_entry_in_view(threads@, j);
                        let j2 = if j < ii { j } else { j + 1 };
                        lemma_entry_in_view(before, j2);
                    }
                    assert(entries_view(threads@) =~= entries_view(before).remove(k));
                }
                self.threads = threads;
            },
            None => {
                assert(self@ =~= self@.remove(thread@));
            },
        }
    }

    /// Every known thread with its conversation id, ordered by thread name.
    pub fn list_threads(&self) -> (res: Vec<(&str, Option<&str>)>)
        ensures
            forall|i: int|
                0 <= i < res@.len() ==> {
                    &&& self@.contains_key(#[trigger] res@[i].0@)
                    &&& self@[res@[i].0@] == opt_str_view(res@[i].1)
                },
            forall|k: Seq<char>|
                #[trigger] self@.contains_key(k) ==> exists|i: int|
                    0 <= i < res@.len() && #[trigger] res@[i].0@ == k,
            strictly_sorted(res@),
            lists_map(self@, listing_view(res@)),
    {
        proof {
            use_type_invariant(self);
        }
        let n = self.threads.len();
        let ghost ts = self.threads@;
        let mut pairs: Vec<(&str, Option<&str>)> = Vec::new();
        let mut i: usize = 0;
        while i < n
            invariant
                n == ts.len(),
                ts == self.threads@,
                0 <= i <= n,
                pairs@.len() == i,
                forall|b: int| 0 <= b < i ==> #[trigger] listed_from(pairs@[b], ts[b]),
            decreases n - i,
        {
            let name: &str = self.threads[i].0.as_str();
            let id: Option<&str> = match &self.threads[i].1.conversation_id {
                Some(s) => Some(s.as_str()),
                None => None,
            };
            pairs.push((name, id));
            proof {
                assert(listed_from(pairs@[i as int], ts[i as int]));
            }
            i = i + 1;
        }
        proof {
            assert forall|a: int, b: int|
                0 <= a < pairs@.len() && 0 <= b < pairs@.len() && a != b implies
                #[trigger] pairs@[a].0@ != #[trigger] pairs@[b].0@ by {
                assert(listed_from(pairs@[a], ts[a]));
                assert(listed_from(pairs@[b], ts[b]));
            }
        }
        let ghost ps = pairs@;
        let sorted = sort_by_name(pairs);
        proof {
            assert forall|a: int| 0 <= a < sorted@.len() implies {
                &&& self@.contains_key(#[trigger] sorted@[a].0@)
                &&& self@[sorted@[a].0@] == opt_str_view(sorted@[a].1)
            } by {
                assert(ps.contains(sorted@[a]));
                let b = choose|b: int| 0 <= b < ps.len() && ps[b] == sorted@[a];
                assert(listed_from(ps[b], ts[b]));
                lemma_entry_in_view(ts, b);
            }
            assert forall|k: Seq<char>| #[trigger] self@.contains_key(k) implies exists|a: int|
                0 <= a < sorted@.len() && #[trigger] sorted@[a].0@ == k by {
                assert(names_contain(ts, k));
                let b = choose|b: int| 0 <= b < ts.len() && #[trigger] ts[b].0@ == k;
                assert(listed_from(ps[b], ts[b]));
                assert(sorted@.contains(ps[b]));
                let a = choose|a: int| 0 <= a < sorted@.len() && sorted@[a] == ps[b];
                assert(sorted@[a].0@ == k);
            }
            let lv = listing_view(sorted@);
            assert forall|k: Seq<char>| #[trigger] self@.contains_key(k) implies exists|i: int|
                0 <= i < lv.len() && #[trigger] lv[i].0 == k by {
                let a = choose|a: int| 0 <= a < sorted@.len() && #[trigger] sorted@[a].0@ == k;
                assert(lv[a].0 == k);
            }
            assert forall|i: int, j: int| 0 <= i < j < lv.len() implies chars_lt(
                #[trigger] lv[i].0,
                #[trigger] lv[j].0,
            ) by {
                assert(chars_lt(sorted@[i].0@, sorted@[j].0@));
            }
        }
        sorted
    }
}

/// What `DefaultHasher::new()` yields for the thread name, hashed with
/// `Hash for str` and read with `Hasher::finish`.
pub uninterp spec fn default_hash_of(thread: Seq<char>) -> u64;

/// Hashes `thread` with a `DefaultHasher::new()`. std documents that every
/// hasher made by `DefaultHasher::new` is the same, so the result depends on
/// the name alone; the SipHash computation itself is only named.
#[verifier::external_body]
fn hash_thread_name(thread: &str) -> (res: u64)
    ensures
        res == default_hash_of(thread@),
{
    let mut hasher = std::collections::hash_map::DefaultHasher::new();
    std::hash::Hash::hash(thread, &mut hasher);
    std::hash::Hasher::finish(&hasher)
}

/// The lower-case hexadecimal digit for `d < 16`.
pub open spec fn hex_digit(d: int) -> char {
    if d < 10 {
        (d + 48) as char
    } else {
        (d + 87) as char
    }
}

/// The last `count` hexadecimal digits of `n`, most significant first,
/// padded with zeros.
pub open spec fn hex_digits(n: nat, count: nat) -> Seq<char>
    decreases count,
{
    if count == 0 {
        Seq::empty()
    } else {
        hex_digits(n / 16, (count - 1) as nat).push(hex_digit((n % 16) as int))
    }
}

fn hex_char(d: u64) -> (c: char)
    requires
        d < 16,
    ensures
        c == hex_digit(d as int),
{
    let b: u8 = if d < 10 { d as u8 + 48 } else { d as u8 + 87 };
    b as char
}

fn push_hex_digits(n: u64, count: usize, out: &mut Vec<char>)
    ensures
        final(out)@ == old(out)@ + hex_digits(n as nat, count as nat),
    decreases count,
{
    if count == 0 {
        assert(old(out)@ + hex_digits(n as nat, 0) =~= old(out)@);
    } else {
        push_hex_digits(n / 16, count - 1, out);
        out.push(hex_char(n % 16));
        assert(old(out)@ + hex_digits(n as nat, count as nat) =~= old(out)@ + hex_digits(
            (n / 16) as nat,
            (count - 1) as nat,
        ) + seq![hex_digit((n % 16) as int)]);
    }
}

/// The lock file name for a thread whose name hashes to `hash`: the hash as
/// sixteen lower-case hexadecimal digits (`{:016x}`), then `.lock`.
pub fn lock_file_name_for_hash(hash: u64) -> (res: String)
    ensures
        res@ == hex_digits(hash as nat, 16) + ".lock"@,
{
    let mut digits: Vec<char> = Vec::new();
    push_hex_digits(hash, 16, &mut digits);
    let mut name = crate::text::string_from_chars(digits.as_slice());
    name.append(".lock");
    name
}

/// The name of the lock file that serializes work on `thread`, inside the
/// state directory's `locks` directory. The same name always gives the same
/// file, so work on one thread is always serialized. Different threads get
/// different files unless their 64-bit hashes agree; two such threads share
/// a lock and are serialized together.
pub fn lock_file_name(thread: &str) -> (res: String)
    ensures
        res@ == hex_digits(default_hash_of(thread@) as nat, 16) + ".lock"@,
{
    lock_file_name_for_hash(hash_thread_name(thread))
}

/// Read after write: once `set_conversation_id` has stored `id` for
/// `thread`, `conversation_id` gives `id` back for that thread.
pub proof fn law_stored_id_is_read_back(
    m: Map<Seq<char>, Option<Seq<char>>>,
    thread: Seq<char>,
    id: Seq<char>,
)
    ensures
        stored_id(m.insert(thread, Some(id)), thread) == Some(id),
{
}

/// Threads do not interfere: storing an id for one thread, or clearing it,
/// leaves what every other thread continues unchanged.
pub proof fn law_threads_are_independent(
    m: Map<Seq<char>, Option<Seq<char>>>,
    thread: Seq<char>,
    other: Seq<char>,
    id: Seq<char>,
)
    requires
        thread != other,
    ensures
        stored_id(m.insert(thread, Some(id)), other) == stored_id(m, other),
        stored_id(m.remove(thread), other) == stored_id(m, other),
{
}

/// Reset: after `clear`, the thread has no conversation id, so its next
/// message starts a new conversation.
pub proof fn law_reset_forgets(m: Map<Seq<char>, Option<Seq<char>>>, thread: Seq<char>)
    ensures
        stored_id(m.remove(thread), thread) is None,
        !m.remove(thread).contains_key(thread),
{
}

proof fn lemma_listing_unique(
    m: Map<Seq<char>, Option<Seq<char>>>,
    r1: Seq<(Seq<char>, Option<Seq<char>>)>,
    r2: Seq<(Seq<char>, Option<Seq<char>>)>,
)
    requires
        lists_map(m, r1),
        lists_map(m, r2),
    ensures
        r1 == r2,
    decreases r1.len(),
{
    if r1.len() == 0 {
        if r2.len() > 0 {
            assert(m.contains_key(r2[0].0));
        }
        assert(r1 =~= r2);
    } else {
        assert(m.contains_key(r1[0].0));
        assert(r2.len() > 0);
        let k1 = r1[0].0;
        let k2 = r2[0].0;
        assert(m.contains_key(k2));
        if k1 != k2 {
            let j = choose|j: int| 0 <= j < r2.len() && #[trigger] r2[j].0 == k1;
            let i = choose|i: int| 0 <= i < r1.len() && #[trigger] r1[i].0 == k2;
            assert(j > 0 && i > 0);
            assert(chars_lt(r2[0].0, r2[j].0));
            assert(chars_lt(r1[0].0, r1[i].0));
            lemma_chars_lt_transitive(k1, k2, k1);
            lemma_chars_lt_irreflexive(k1);
        }
        let m2 = m.remove(k1);
        let s1 = r1.drop_first();
        let s2 = r2.drop_first();
        assert forall|i: int| 0 <= i < s1.len() implies m2.contains_key(#[trigger] s1[i].0) && m2[s1[i].0]
            == s1[i].1 by {
            assert(s1[i] == r1[i + 1]);
            assert(chars_lt(r1[0].0, r1[i + 1].0));
            lemma_chars_lt_irreflexive(k1);
        }
        assert forall|i: int| 0 <= i < s2.len() implies m2.contains_key(#[trigger] s2[i].0) && m2[s2[i].0]
            == s2[i].1 by {
            assert(s2[i] == r2[i + 1]);
            assert(chars_lt(r2[0].0, r2[i + 1].0));
            lemma_chars_lt_irreflexive(k1);
        }
        assert forall|k: Seq<char>| #[trigger] m2.contains_key(k) implies exists|i: int|
            0 <= i < s1.len() && #[trigger] s1[i].0 == k by {
            let i = choose|i: int| 0 <= i < r1.len() && #[trigger] r1[i].0 == k;
            assert(i != 0);
            assert(s1[i - 1].0 == k);
        }
        assert forall|k: Seq<char>| #[trigger] m2.contains_key(k) implies exists|i: int|
            0 <= i < s2.len() && #[trigger] s2[i].0 == k by {
            let i = choose|i: int| 0 <= i < r2.len() && #[trigger] r2[i].0 == k;
            assert(i != 0);
            assert(s2[i - 1].0 == k);
        }
        assert forall|i: int, j: int| 0 <= i < j < s1.len() implies chars_lt(
            #[trigger] s1[i].0,
            #[trigger] s1[j].0,
        ) by {
            assert(chars_lt(r1[i + 1].0, r1[j + 1].0));
        }
        assert forall|i: int, j: int| 0 <= i < j < s2.len() implies chars_lt(
            #[trigger] s2[i].0,
            #[trigger] s2[j].0,
        ) by {
            assert(chars_lt(r2[i + 1].0, r2[j + 1].0));
        }
        lemma_listing_unique(m2, s1, s2);
        assert(r1[0] == r2[0]);
        assert(r1 =~= seq![r1[0]] + s1);
        assert(r2 =~= seq![r2[0]] + s2);
    }
}

/// The listing depends on the map alone: any two listings of the same map
/// are equal, so `list_threads` gives the same result for states that
/// hold the same threads, however they were stored.
pub proof fn law_listing_depends_only_on_map(
    m: Map<Seq<char>, Option<Seq<char>>>,
    r1: Seq<(Seq<char>, Option<Seq<char>>)>,
    r2: Seq<(Seq<char>, Option<Seq<char>>)>,
)
    requires
        lists_map(m, r1),
        lists_map(m, r2),
    ensures
        r1 == r2,
{
    lemma_listing_unique(m, r1, r2);
}

/// Storing ids for two different threads gives the same state in either
/// order; with `law_listing_depends_only_on_map`, the listing is the same too.
pub proof fn law_store_order_does_not_matter(
    m: Map<Seq<char>, Option<Seq<char>>>,
    t1: Seq<char>,
    id1: Seq<char>,
    t2: Seq<char>,
    id2: Seq<char>,
)
    requires
        t1 != t2,
    ensures
        m.insert(t1, Some(id1)).insert(t2, Some(id2)) == m.insert(t2, Some(id2)).insert(
            t1,
            Some(id1),
        ),
{
    assert(m.insert(t1, Some(id1)).insert(t2, Some(id2)) =~= m.insert(t2, Some(id2)).insert(
        t1,
        Some(id1),
    ));
}

/// The state map after storing each (thread, id) of `stores`, in order.
pub open spec fn apply_stores(
    m: Map<Seq<char>, Option<Seq<char>>>,
    stores: Seq<(Seq<char>, Seq<char>)>,
) -> Map<Seq<char>, Option<Seq<char>>>
    decreases stores.len(),
{
    if stores.len() == 0 {
        m
    } else {
        apply_stores(m, stores.drop_last()).insert(stores.last().0, Some(stores.last().1))
    }
}

/// No thread is stored twice.
pub open spec fn distinct_threads(stores: Seq<(Seq<char>, Seq<char>)>) -> bool {
    forall|i: int, j: int|
        0 <= i < stores.len() && 0 <= j < stores.len() && i != j ==> #[trigger] stores[i].0
            != #[trigger] stores[j].0
}

/// Whether some store is for `k`.
pub open spec fn stores_thread(stores: Seq<(Seq<char>, Seq<char>)>, k: Seq<char>) -> bool {
    exists|i: int| 0 <= i < stores.len() && #[trigger] stores[i].0 == k
}

proof fn lemma_apply_stores_at(
    m: Map<Seq<char>, Option<Seq<char>>>,
    stores: Seq<(Seq<char>, Seq<char>)>,
    k: Seq<char>,
)
    requires
        distinct_threads(stores),
    ensures
        apply_stores(m, stores).contains_key(k) == (m.contains_key(k) || stores_thread(stores, k)),
        !stores_thread(stores, k) && m.contains_key(k) ==> apply_stores(m, stores)[k] == m[k],
        forall|i: int|
            0 <= i < stores.len() && #[trigger] stores[i].0 == k ==> apply_stores(m, stores)[k]
                == Some(stores[i].1),
    decreases stores.len(),
{
    if stores.len() > 0 {
        let init = stores.drop_last();
        let n = stores.len() - 1;
        assert forall|i: int, j: int|
            0 <= i < init.len() && 0 <= j < init.len() && i != j implies #[trigger] init[i].0
            != #[trigger] init[j].0 by {
            assert(init[i] == stores[i] && init[j] == stores[j]);
        }
        lemma_apply_stores_at(m, init, k);
        if stores_thread(init, k) {
            let i = choose|i: int| 0 <= i < init.len() && #[trigger] init[i].0 == k;
            assert(stores[i].0 == k);
        }
        if stores_thread(stores, k) && stores.last().0 != k {
            let i = choose|i: int| 0 <= i < stores.len() && #[trigger] stores[i].0 == k;
            assert(i != n);
            assert(init[i].0 == k);
        }
        assert forall|i: int|
            0 <= i < stores.len() && #[trigger] stores[i].0 == k implies apply_stores(m, stores)[k]
            == Some(stores[i].1) by {
            if i != n {
                assert(stores[n].0 != k);
                assert(init[i] == stores[i]);
            }
        }
    }
}

/// Order does not matter for stores on distinct threads: any two orders of
/// the same stores give the same state, and so (by
/// `law_listing_depends_only_on_map`) the same `list_threads` listing.
pub proof fn law_stores_in_any_order(
    m: Map<Seq<char>, Option<Seq<char>>>,
    s1: Seq<(Seq<char>, Seq<char>)>,
    s2: Seq<(Seq<char>, Seq<char>)>,
)
    requires
        distinct_threads(s1),
        distinct_threads(s2),
        forall|x: (Seq<char>, Seq<char>)| s1.contains(x) <==> s2.contains(x),
    ensures
        apply_stores(m, s1) == apply_stores(m, s2),
{
    assert forall|k: Seq<char>| #[trigger] apply_stores(m, s1).contains_key(k) == apply_stores(
        m,
        s2,
    ).contains_key(k) && (apply_stores(m, s1).contains_key(k) ==> apply_stores(m, s1)[k]
        == apply_stores(m, s2)[k]) by {
        lemma_apply_stores_at(m, s1, k);
        lemma_apply_stores_at(m, s2, k);
        if stores_thread(s1, k) {
            let i = choose|i: int| 0 <= i < s1.len() && #[trigger] s1[i].0 == k;
            assert(s1.contains(s1[i]));
            assert(s2.contains(s1[i]));
            let j = choose|j: int| 0 <= j < s2.len() && s2[j] == s1[i];
            assert(s2[j].0 == k);
        }
        if stores_thread(s2, k) {
            let j = choose|j: int| 0 <= j < s2.len() && #[trigger] s2[j].0 == k;
            assert(s2.contains(s2[j]));
            assert(s1.contains(s2[j]));
            let i = choose|i: int| 0 <= i < s1.len() && s1[i] == s2[j];
            assert(s1[i].0 == k);
        }
    }
    assert(apply_stores(m, s1) =~= apply_stores(m, s2));
}

} // verus!
