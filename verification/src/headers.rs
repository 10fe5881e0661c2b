//! The Headers collection: a case-insensitive, insertion-ordered multi-map
//! from header name to the raw wire lines stored under that name.
//!
//! The collection stores raw lines only; typed access through the `Header`
//! contract re-parses on each call, and `set` formats its value eagerly.
//! This keeps equality a pure function of the case-insensitive
//! (name, ordered raw-line bytes) view, with no separate cache state to
//! normalize away.

use vstd::prelude::*;
use vstd::string::StringSliceAdditionalSpecFns;

use crate::header::Header;
use crate::raw::Raw;
use crate::wire::{fold_name, lower_bytes, bytes_eq};
use crate::HeaderError;

verus! {

/// One stored header: the name as first given (original case) and the
/// ordered raw lines under it.
pub type EntryView = (Seq<u8>, Seq<Seq<u8>>);

/// Position of the first entry whose case-folded name equals `key`, or -1.
pub open spec fn idx_of(s: Seq<EntryView>, key: Seq<u8>) -> int
    decreases s.len(),
{
    if s.len() == 0 {
        -1
    } else if fold_name(s[0].0) == key {
        0
    } else {
        let sub = idx_of(s.subrange(1, s.len() as int), key);
        if sub == -1 {
            -1
        } else {
            sub + 1
        }
    }
}

/// Distinct entries never share a case-folded name.
pub open spec fn wf_entries(s: Seq<EntryView>) -> bool {
    forall|i: int, j: int|
        0 <= i < j < s.len() ==> fold_name(s[i].0) != fold_name(s[j].0)
}

/// The case-insensitive mapping the entries denote: case-folded name to
/// ordered raw lines.
pub open spec fn entries_map(s: Seq<EntryView>) -> Map<Seq<u8>, Seq<Seq<u8>>> {
    Map::new(|k: Seq<u8>| idx_of(s, k) >= 0, |k: Seq<u8>| s[idx_of(s, k)].1)
}

/// Basic facts about `idx_of`: it is in range, lands on the first match,
/// and is -1 exactly when no entry matches.
pub proof fn lemma_idx_of(s: Seq<EntryView>, key: Seq<u8>)
    ensures
        -1 <= idx_of(s, key) < s.len(),
        idx_of(s, key) >= 0 ==> fold_name(s[idx_of(s, key)].0) == key,
        idx_of(s, key) == -1 ==> forall|i: int|
            0 <= i < s.len() ==> fold_name(s[i].0) != key,
        forall|j: int| 0 <= j < idx_of(s, key) ==> fold_name(s[j].0) != key,
    decreases s.len(),
{
    if s.len() == 0 {
    } else if fold_name(s[0].0) == key {
    } else {
        let t = s.subrange(1, s.len() as int);
        lemma_idx_of(t, key);
        assert(forall|i: int| 1 <= i < s.len() ==> s[i] == t[i - 1]);
    }
}

/// In a well-formed entry sequence, a match at `i` pins `idx_of` to `i`.
pub proof fn lemma_idx_of_unique(s: Seq<EntryView>, key: Seq<u8>, i: int)
    requires
        wf_entries(s),
        0 <= i < s.len(),
        fold_name(s[i].0) == key,
    ensures
        idx_of(s, key) == i,
{
    lemma_idx_of(s, key);
}

/// `idx_of` depends only on the case-folded names of the entries.
pub proof fn lemma_idx_of_same_names(s1: Seq<EntryView>, s2: Seq<EntryView>, key: Seq<u8>)
    requires
        s1.len() == s2.len(),
        forall|i: int| 0 <= i < s1.len() ==> fold_name(s1[i].0) == fold_name(s2[i].0),
    ensures
        idx_of(s1, key) == idx_of(s2, key),
    decreases s1.len(),
{
    if s1.len() == 0 {
    } else {
        let t1 = s1.subrange(1, s1.len() as int);
        let t2 = s2.subrange(1, s2.len() as int);
        assert(forall|i: int| 0 <= i < t1.len() ==> t1[i] == s1[i + 1] && t2[i] == s2[i + 1]);
        lemma_idx_of_same_names(t1, t2, key);
    }
}

/// How `idx_of` behaves when one more entry is appended.
pub proof fn lemma_idx_of_push(s: Seq<EntryView>, p: EntryView, key: Seq<u8>)
    ensures
        idx_of(s, key) >= 0 ==> idx_of(s.push(p), key) == idx_of(s, key),
        idx_of(s, key) == -1 && fold_name(p.0) == key ==> idx_of(s.push(p), key) == s.len(),
        idx_of(s, key) == -1 && fold_name(p.0) != key ==> idx_of(s.push(p), key) == -1,
    decreases s.len(),
{
    let sp = s.push(p);
    if s.len() == 0 {
        assert(sp[0] == p);
        assert(sp.subrange(1, 1) =~= Seq::<EntryView>::empty());
        if fold_name(p.0) == key {
            assert(idx_of(sp, key) == 0);
        } else {
            assert(idx_of(sp.subrange(1, sp.len() as int), key) == -1);
            assert(idx_of(sp, key) == -1);
        }
    } else {
        let t = s.subrange(1, s.len() as int);
        lemma_idx_of_push(t, p, key);
        lemma_idx_of(t, key);
        lemma_idx_of(t.push(p), key);
        assert(sp[0] == s[0]);
        assert(sp.subrange(1, sp.len() as int) =~= t.push(p));
        if fold_name(s[0].0) == key {
            assert(idx_of(s, key) == 0);
            assert(idx_of(sp, key) == 0);
        } else {
            let subs = idx_of(t, key);
            let subsp = idx_of(t.push(p), key);
            assert(idx_of(sp.subrange(1, sp.len() as int), key) == subsp);
            if subs >= 0 {
                assert(idx_of(s, key) == subs + 1);
                assert(subsp == subs);
                assert(idx_of(sp, key) == subs + 1);
            } else {
                assert(idx_of(s, key) == -1);
                if fold_name(p.0) == key {
                    assert(subsp == t.len());
                    assert(idx_of(sp, key) == t.len() + 1);
                } else {
                    assert(subsp == -1);
                    assert(idx_of(sp, key) == -1);
                }
            }
        }
    }
}

/// How `idx_of` behaves when the entry at `i` is removed, assuming
/// well-formedness.
pub proof fn lemma_idx_of_remove(s: Seq<EntryView>, i: int, key: Seq<u8>)
    requires
        wf_entries(s),
        0 <= i < s.len(),
    ensures
        idx_of(s, key) == -1 ==> idx_of(s.remove(i), key) == -1,
        idx_of(s, key) == i ==> idx_of(s.remove(i), key) == -1,
        0 <= idx_of(s, key) < i ==> idx_of(s.remove(i), key) == idx_of(s, key),
        i < idx_of(s, key) ==> idx_of(s.remove(i), key) == idx_of(s, key) - 1,
    decreases s.len(),
{
    lemma_idx_of(s, key);
    lemma_idx_of(s.remove(i), key);
    let r = s.remove(i);
    assert(r.len() == s.len() - 1);
    assert(forall|j: int| 0 <= j < i ==> r[j] == s[j]);
    assert(forall|j: int| i <= j < r.len() ==> r[j] == s[j + 1]);
    let ri = idx_of(r, key);
    let si = idx_of(s, key);
    if si == -1 {
        // no entry of s matches, so none of r does either
        if ri >= 0 {
            assert(fold_name(r[ri].0) == key);
            assert(false);
        }
    } else if si == i {
        // the only match is removed: wf says no other entry matches
        if ri >= 0 {
            assert(fold_name(r[ri].0) == key);
            if ri < i {
                assert(fold_name(s[ri].0) == key);
                assert(false);
            } else {
                assert(fold_name(s[ri + 1].0) == key);
                assert(false);
            }
        }
    } else if si < i {
        assert(fold_name(r[si].0) == key);
        if ri != si {
            if ri == -1 {
                assert(false);
            } else if ri < si {
                if ri < i {
                    assert(fold_name(s[ri].0) == key);
                    lemma_idx_of_unique(s, key, ri);
                    assert(false);
                } else {
                    assert(fold_name(s[ri + 1].0) == key);
                    lemma_idx_of_unique(s, key, ri + 1);
                    assert(false);
                }
            } else {
                // first match of r would be below si
                assert(forall|j: int| 0 <= j < ri ==> fold_name(r[j].0) != key);
                assert(fold_name(r[si].0) == key);
                assert(false);
            }
        }
    } else {
        // si > i: match shifts down by one
        assert(fold_name(r[si - 1].0) == key);
        if ri != si - 1 {
            if ri == -1 {
                assert(false);
            } else if ri < si - 1 {
                if ri < i {
                    assert(fold_name(s[ri].0) == key);
                    lemma_idx_of_unique(s, key, ri);
                    assert(false);
                } else {
                    assert(fold_name(s[ri + 1].0) == key);
                    lemma_idx_of_unique(s, key, ri + 1);
                    assert(false);
                }
            } else {
                assert(forall|j: int| 0 <= j < ri ==> fold_name(r[j].0) != key);
                assert(fold_name(r[si - 1].0) == key);
                assert(false);
            }
        }
    }
}

/// Updating an entry in place (same case-folded name) updates the mapping
/// at that name alone.
pub proof fn lemma_map_update(s: Seq<EntryView>, i: int, p: EntryView)
    requires
        wf_entries(s),
        0 <= i < s.len(),
        fold_name(p.0) == fold_name(s[i].0),
    ensures
        wf_entries(s.update(i, p)),
        entries_map(s.update(i, p)) == entries_map(s).insert(fold_name(p.0), p.1),
{
    let s2 = s.update(i, p);
    let key = fold_name(p.0);
    assert(forall|j: int| 0 <= j < s.len() ==> fold_name(s2[j].0) == fold_name(s[j].0));
    assert forall|k: Seq<u8>| idx_of(s2, k) == idx_of(s, k) by {
        lemma_idx_of_same_names(s2, s, k);
    }
    lemma_idx_of_unique(s, key, i);
    assert forall|k: Seq<u8>| idx_of(s2, k) >= 0 implies fold_name(s2[idx_of(s2, k)].0) == k by {
        lemma_idx_of(s2, k);
    }
    assert(entries_map(s2) =~~= entries_map(s).insert(key, p.1)) by {
        assert forall|k: Seq<u8>| #[trigger] idx_of(s2, k) >= 0 && k != key implies s2[idx_of(
            s2,
            k,
        )] == s[idx_of(s, k)] by {
            lemma_idx_of(s2, k);
            assert(idx_of(s2, k) != i);
        }
    }
}

/// Appending an entry under a fresh case-folded name adds exactly that
/// name to the mapping.
pub proof fn lemma_map_push(s: Seq<EntryView>, p: EntryView)
    requires
        wf_entries(s),
        idx_of(s, fold_name(p.0)) == -1,
    ensures
        wf_entries(s.push(p)),
        entries_map(s.push(p)) == entries_map(s).insert(fold_name(p.0), p.1),
{
    let s2 = s.push(p);
    let key = fold_name(p.0);
    lemma_idx_of(s, key);
    assert forall|k: Seq<u8>| #![auto] true implies idx_of(s2, k) == (if idx_of(s, k) >= 0 {
        idx_of(s, k)
    } else if k == key {
        s.len() as int
    } else {
        -1
    }) by {
        lemma_idx_of_push(s, p, k);
        lemma_idx_of(s, k);
    }
    assert(wf_entries(s2)) by {
        assert forall|i: int, j: int| 0 <= i < j < s2.len() implies fold_name(s2[i].0)
            != fold_name(s2[j].0) by {
            if j == s.len() {
                if fold_name(s2[i].0) == key {
                    lemma_idx_of(s, key);
                    lemma_idx_of_unique_helper(s, key, i);
                }
            }
        }
    }
    assert(entries_map(s2) =~~= entries_map(s).insert(key, p.1)) by {
        assert forall|k: Seq<u8>| #[trigger] idx_of(s2, k) >= 0 implies s2[idx_of(s2, k)] == (
        if k == key {
            p
        } else {
            s[idx_of(s, k)]
        }) by {
            lemma_idx_of(s, k);
        }
    }
}

/// In any entry sequence, a match at `i` means `idx_of` is not -1.
proof fn lemma_idx_of_unique_helper(s: Seq<EntryView>, key: Seq<u8>, i: int)
    requires
        0 <= i < s.len(),
        fold_name(s[i].0) == key,
    ensures
        idx_of(s, key) >= 0,
{
    lemma_idx_of(s, key);
}

/// Removing the entry at `i` removes exactly its case-folded name from the
/// mapping.
pub proof fn lemma_map_remove(s: Seq<EntryView>, i: int)
    requires
        wf_entries(s),
        0 <= i < s.len(),
    ensures
        wf_entries(s.remove(i)),
        entries_map(s.remove(i)) == entries_map(s).remove(fold_name(s[i].0)),
{
    let s2 = s.remove(i);
    let key = fold_name(s[i].0);
    lemma_idx_of_unique(s, key, i);
    assert(wf_entries(s2)) by {
        assert(forall|j: int| 0 <= j < i ==> s2[j] == s[j]);
        assert(forall|j: int| i <= j < s2.len() ==> s2[j] == s[j + 1]);
    }
    lemma_idx_of_remove(s, i, key);
    assert(idx_of(s2, key) == -1);
    assert(entries_map(s2) =~~= entries_map(s).remove(key)) by {
        assert(forall|j: int| 0 <= j < i ==> s2[j] == s[j]);
        assert(forall|j: int| i <= j < s2.len() ==> s2[j] == s[j + 1]);
        assert forall|k: Seq<u8>| #[trigger] idx_of(s2, k) >= 0 implies idx_of(s, k) >= 0 && k
            != key && s2[idx_of(s2, k)] == s[idx_of(s, k)] by {
            lemma_idx_of_remove(s, i, k);
            lemma_idx_of(s, k);
            lemma_idx_of(s2, k);
            let m = idx_of(s, k);
            if m == -1 {
                assert(false);
            } else if m == i {
                assert(false);
            } else if m < i {
                assert(s2[m] == s[m]);
            } else {
                assert(s2[m - 1] == s[m]);
            }
        }
        assert forall|k: Seq<u8>| idx_of(s, k) >= 0 && k != key implies #[trigger] idx_of(s2, k)
            >= 0 by {
            lemma_idx_of_remove(s, i, k);
            lemma_idx_of(s, k);
            if idx_of(s, k) == i {
                assert(fold_name(s[i].0) == k);
                assert(false);
            }
        }
    }
}

/// One stored header: a name, kept in the case it was first given, and the
/// raw lines under it.
#[derive(Debug, Clone)]
struct HeaderItem {
    name: Vec<u8>,
    value: Raw,
}

/// A case-insensitive, insertion-ordered collection of header entries.
///
/// Its view is the sequence of (name bytes, raw lines) pairs in insertion
/// order of distinct names; `model()` is the case-insensitive mapping they
/// denote. Typed access re-parses the stored raw lines on each call; `set`
/// formats its value eagerly, so every entry is always in raw-line form.
#[derive(Debug, Clone)]
pub struct Headers {
    items: Vec<HeaderItem>,
}

impl View for Headers {
    type V = Seq<EntryView>;

    closed spec fn view(&self) -> Seq<EntryView> {
        Seq::new(self.items@.len(), |i: int| (self.items@[i].name@, self.items@[i].value@))
    }
}

impl Headers {
    /// Every stored case-folded name is unique.
    pub open spec fn wf(self) -> bool {
        wf_entries(self@)
    }

    /// The case-insensitive mapping from case-folded name to raw lines.
    pub open spec fn model(self) -> Map<Seq<u8>, Seq<Seq<u8>>> {
        entries_map(self@)
    }

    /// An empty collection.
    pub fn new() -> (r: Headers)
        ensures
            r.wf(),
            r@ == Seq::<EntryView>::empty(),
            r.model() == Map::<Seq<u8>, Seq<Seq<u8>>>::empty(),
    {
        let r = Headers { items: Vec::new() };
        proof {
            assert(r@ =~~= Seq::<EntryView>::empty());
            assert(r.model() =~~= Map::<Seq<u8>, Seq<Seq<u8>>>::empty());
        }
        r
    }

    /// The number of distinct header names stored.
    pub fn len(&self) -> (n: usize)
        ensures
            n == self@.len(),
    {
        self.items.len()
    }

    /// The name of the entry at position `i`, in insertion order.
    pub fn name_at(&self, i: usize) -> (r: &Vec<u8>)
        requires
            i < self@.len(),
        ensures
            r@ == self@[i as int].0,
    {
        &self.items[i].name
    }

    /// The raw lines of the entry at position `i`, in insertion order.
    pub fn raw_at(&self, i: usize) -> (r: &Raw)
        requires
            i < self@.len(),
        ensures
            r@ == self@[i as int].1,
    {
        &self.items[i].value
    }

    /// Position of the entry stored under `name`, compared
    /// case-insensitively.
    fn find(&self, name: &[u8]) -> (r: Option<usize>)
        ensures
            match r {
                Some(i) => idx_of(self@, fold_name(name@)) == i as int && (i as int) < self@.len(),
                None => idx_of(self@, fold_name(name@)) == -1,
            },
    {
        let lkey = lower_bytes(name);
        let ghost key = fold_name(name@);
        let n = self.items.len();
        let mut i: usize = 0;
        while i < n
            invariant
                i <= n,
                n == self@.len(),
                lkey@ == key,
                key == fold_name(name@),
                forall|j: int| 0 <= j < i ==> fold_name(self@[j].0) != key,
            decreases n - i,
        {
            let lname = lower_bytes(self.items[i].name.as_slice());
            proof {
                assert(self@[i as int].0 == self.items@[i as int].name@);
            }
            if bytes_eq(lname.as_slice(), lkey.as_slice()) {
                proof {
                    lemma_idx_of(self@, key);
                    let m = idx_of(self@, key);
                    assert(fold_name(self@[i as int].0) == key);
                    if m == -1 {
                        assert(false);
                    } else if m < i {
                        assert(fold_name(self@[m].0) != key);
                        assert(false);
                    } else if m > i {
                        assert(fold_name(self@[i as int].0) != key);
                        assert(false);
                    }
                    assert(m == i as int);
                }
                return Some(i);
            }
            i += 1;
        }
        proof {
            lemma_idx_of(self@, key);
            let m = idx_of(self@, key);
            if m >= 0 {
                assert(fold_name(self@[m].0) != key);
                assert(false);
            }
        }
        None
    }

    /// Whether some entry is stored under `name`, compared
    /// case-insensitively.
    pub fn has_name(&self, name: &[u8]) -> (r: bool)
        ensures
            r == self.model().contains_key(fold_name(name@)),
    {
        self.find(name).is_some()
    }

    /// The raw lines stored under `name`, compared case-insensitively.
    pub fn get_raw(&self, name: &[u8]) -> (r: Option<&Raw>)
        ensures
            match r {
                Some(raw) => self.model().contains_key(fold_name(name@)) && raw@ == self.model()[
                    fold_name(name@)
                ],
                None => !self.model().contains_key(fold_name(name@)),
            },
    {
        match self.find(name) {
            Some(i) => {
                proof {
                    lemma_idx_of(self@, fold_name(name@));
                }
                Some(&self.items[i].value)
            }
            None => None,
        }
    }

    /// Appends one more raw line under `name`, after any lines already
    /// stored there; an entry is created at the end if the name is new.
    /// Existing entries keep their position and the case of their stored
    /// name.
    pub fn append_raw_bytes(&mut self, name: &[u8], line: Vec<u8>)
        requires
            old(self).wf(),
        ensures
            final (self).wf(),
            final (self).model() == old(self).model().insert(
                fold_name(name@),
                if old(self).model().contains_key(fold_name(name@)) {
                    old(self).model()[fold_name(name@)].push(line@)
                } else {
                    seq![line@]
                },
            ),
            old(self).model().contains_key(fold_name(name@)) ==> final (self)@ == old(self)@.update(
                idx_of(old(self)@, fold_name(name@)),
                (
                    old(self)@[idx_of(old(self)@, fold_name(name@))].0,
                    old(self)@[idx_of(old(self)@, fold_name(name@))].1.push(line@),
                ),
            ),
            !old(self).model().contains_key(fold_name(name@)) ==> final (self)@ == old(self)@.push(
                (name@, seq![line@]),
            ),
    {
        let ghost key = fold_name(name@);
        let ghost prior = self@;
        match self.find(name) {
            Some(i) => {
                let mut item = self.items.remove(i);
                item.value.push(line);
                self.items.insert(i, item);
                proof {
                    lemma_idx_of(prior, key);
                    assert(self@ =~~= prior.update(
                        i as int,
                        (prior[i as int].0, prior[i as int].1.push(line@)),
                    ));
                    lemma_map_update(
                        prior,
                        i as int,
                        (prior[i as int].0, prior[i as int].1.push(line@)),
                    );
                }
            }
            None => {
                let item = HeaderItem { name: crate::wire::copy_bytes(name), value: Raw::from_line(line) };
                self.items.push(item);
                proof {
                    assert(self@ =~~= prior.push((name@, seq![line@])));
                    lemma_map_push(prior, (name@, seq![line@]));
                }
            }
        }
    }

    /// As `append_raw_bytes`, with the name given as text.
    pub fn append_raw(&mut self, name: &str, line: Vec<u8>)
        requires
            old(self).wf(),
        ensures
            final (self).wf(),
            final (self).model() == old(self).model().insert(
                fold_name(name.spec_bytes()),
                if old(self).model().contains_key(fold_name(name.spec_bytes())) {
                    old(self).model()[fold_name(name.spec_bytes())].push(line@)
                } else {
                    seq![line@]
                },
            ),
    {
        self.append_raw_bytes(name.as_bytes(), line);
    }

    /// As `append_raw_bytes`, copying the line from a borrowed slice.
    pub fn append_raw_str(&mut self, name: &str, line: &[u8])
        requires
            old(self).wf(),
        ensures
            final (self).wf(),
            final (self).model() == old(self).model().insert(
                fold_name(name.spec_bytes()),
                if old(self).model().contains_key(fold_name(name.spec_bytes())) {
                    old(self).model()[fold_name(name.spec_bytes())].push(line@)
                } else {
                    seq![line@]
                },
            ),
    {
        self.append_raw_bytes(name.as_bytes(), crate::wire::copy_bytes(line));
    }

    /// Replaces everything stored under `name` with exactly the one line
    /// given; the entry keeps its position if the name was present, and is
    /// created at the end otherwise.
    pub fn set_raw_bytes(&mut self, name: &[u8], line: Vec<u8>)
        requires
            old(self).wf(),
        ensures
            final (self).wf(),
            final (self).model() == old(self).model().insert(fold_name(name@), seq![line@]),
    {
        let ghost key = fold_name(name@);
        let ghost prior = self@;
        match self.find(name) {
            Some(i) => {
                let mut item = self.items.remove(i);
                item.value.replace(line);
                self.items.insert(i, item);
                proof {
                    lemma_idx_of(prior, key);
                    assert(self@ =~~= prior.update(i as int, (prior[i as int].0, seq![line@])));
                    lemma_map_update(prior, i as int, (prior[i as int].0, seq![line@]));
                }
            }
            None => {
                let item = HeaderItem { name: crate::wire::copy_bytes(name), value: Raw::from_line(line) };
                self.items.push(item);
                proof {
                    assert(self@ =~~= prior.push((name@, seq![line@])));
                    lemma_map_push(prior, (name@, seq![line@]));
                }
            }
        }
    }

    /// Replaces everything stored under `name` with the given raw lines;
    /// the entry keeps its position if the name was present, and is created
    /// at the end otherwise. The stored name is replaced by the one given.
    pub fn set_lines(&mut self, name: &[u8], lines: Raw)
        requires
            old(self).wf(),
        ensures
            final (self).wf(),
            final (self).model() == old(self).model().insert(fold_name(name@), lines@),
    {
        let ghost key = fold_name(name@);
        let ghost prior = self@;
        match self.find(name) {
            Some(i) => {
                let mut item = self.items.remove(i);
                item.name = crate::wire::copy_bytes(name);
                item.value = lines;
                let ghost p = (name@, item.value@);
                self.items.insert(i, item);
                proof {
                    lemma_idx_of(prior, key);
                    assert(fold_name(prior[i as int].0) == key);
                    assert(self@ =~~= prior.update(i as int, p));
                    lemma_map_update(prior, i as int, p);
                }
            }
            None => {
                let item = HeaderItem { name: crate::wire::copy_bytes(name), value: lines };
                let ghost p = (name@, item.value@);
                self.items.push(item);
                proof {
                    assert(self@ =~~= prior.push(p));
                    lemma_map_push(prior, p);
                }
            }
        }
    }

    /// Stores the typed header `value` under its canonical name,
    /// overwriting everything previously stored there, raw or typed. The
    /// value is formatted eagerly, so the entry holds its wire lines.
    pub fn set<H: Header>(&mut self, value: H)
        requires
            old(self).wf(),
        ensures
            final (self).wf(),
            final (self).model() == old(self).model().insert(
                fold_name(H::spec_name()),
                H::spec_format(value@),
            ),
    {
        let name = H::header_name();
        let lines = value.fmt_header();
        self.set_lines(name.as_bytes(), lines);
    }

    /// Whether a value is stored under H's name.
    pub fn has<H: Header>(&self) -> (r: bool)
        ensures
            r == self.model().contains_key(fold_name(H::spec_name())),
    {
        self.has_name(H::header_name().as_bytes())
    }

    /// Parses and returns the typed value stored under H's name. Absent
    /// when no entry is stored there, and also when the stored raw lines do
    /// not parse as H; `try_get` distinguishes the two.
    pub fn get<H: Header>(&self) -> (r: Option<H>)
        ensures
            match r {
                Some(v) => self.model().contains_key(fold_name(H::spec_name()))
                    && H::spec_parse(self.model()[fold_name(H::spec_name())]) == Some(v@),
                None => !self.model().contains_key(fold_name(H::spec_name())) || H::spec_parse(
                    self.model()[fold_name(H::spec_name())],
                ) is None,
            },
    {
        match self.get_raw(H::header_name().as_bytes()) {
            Some(raw) => match H::parse_header(raw) {
                Ok(v) => Some(v),
                Err(_) => None,
            },
            None => None,
        }
    }

    /// As `get`, but absent only when no entry is stored under H's name;
    /// a stored entry that does not parse as H returns the parse error.
    pub fn try_get<H: Header>(&self) -> (r: Option<Result<H, HeaderError>>)
        ensures
            match r {
                None => !self.model().contains_key(fold_name(H::spec_name())),
                Some(Ok(v)) => self.model().contains_key(fold_name(H::spec_name()))
                    && H::spec_parse(self.model()[fold_name(H::spec_name())]) == Some(v@),
                Some(Err(_)) => self.model().contains_key(fold_name(H::spec_name()))
                    && H::spec_parse(self.model()[fold_name(H::spec_name())]) is None,
            },
    {
        match self.get_raw(H::header_name().as_bytes()) {
            Some(raw) => Some(H::parse_header(raw)),
            None => None,
        }
    }

    /// Deletes everything stored under H's name.
    pub fn remove<H: Header>(&mut self)
        requires
            old(self).wf(),
        ensures
            final (self).wf(),
            final (self).model() == old(self).model().remove(fold_name(H::spec_name())),
    {
        self.remove_raw(H::header_name().as_bytes());
    }

    /// Deletes everything stored under `name`, compared case-insensitively.
    pub fn remove_raw(&mut self, name: &[u8])
        requires
            old(self).wf(),
        ensures
            final (self).wf(),
            final (self).model() == old(self).model().remove(fold_name(name@)),
    {
        let ghost key = fold_name(name@);
        let ghost prior = self@;
        match self.find(name) {
            Some(i) => {
                self.items.remove(i);
                proof {
                    lemma_idx_of(prior, key);
                    assert(self@ =~~= prior.remove(i as int));
                    lemma_map_remove(prior, i as int);
                    assert(fold_name(prior[i as int].0) == key);
                }
            }
            None => {
                proof {
                    lemma_idx_of(prior, key);
                    assert(self@ =~~= prior);
                    assert(!entries_map(prior).contains_key(key));
                    assert(self.model() =~~= old(self).model().remove(key));
                }
            }
        }
    }
}

impl Headers {
    /// Whether every name of `self` is stored in `other` with the same
    /// ordered raw lines.
    fn sub_headers(&self, other: &Headers) -> (r: bool)
        ensures
            r == (forall|k: Seq<u8>| #[trigger] entries_map(self@).contains_key(k)
                ==> entries_map(other@).contains_key(k) && entries_map(other@)[k] == entries_map(
                self@,
            )[k]),
    {
        let n = self.items.len();
        let mut i: usize = 0;
        while i < n
            invariant
                i <= n,
                n == self@.len(),
                forall|j: int|
                    0 <= j < i && idx_of(self@, fold_name(self@[j].0)) == j ==> entries_map(
                        other@,
                    ).contains_key(fold_name(self@[j].0)) && entries_map(other@)[fold_name(
                        self@[j].0,
                    )] == self@[j].1,
            decreases n - i,
        {
            proof {
                assert(self@[i as int].0 == self.items@[i as int].name@);
                assert(self@[i as int].1 == self.items@[i as int].value@);
            }
            let first = match self.find(self.items[i].name.as_slice()) {
                Some(j) => j == i,
                None => false,
            };
            if first {
                let ghost k = fold_name(self@[i as int].0);
                proof {
                    lemma_idx_of(self@, k);
                }
                match other.get_raw(self.items[i].name.as_slice()) {
                    Some(raw) => {
                        if !raw.same_lines(&self.items[i].value) {
                            proof {
                                assert(entries_map(self@).contains_key(k));
                                assert(entries_map(self@)[k] == self@[i as int].1);
                                assert(entries_map(other@)[k] != entries_map(self@)[k]);
                            }
                            return false;
                        }
                    }
                    None => {
                        proof {
                            assert(entries_map(self@).contains_key(k));
                            assert(!entries_map(other@).contains_key(k));
                        }
                        return false;
                    }
                }
            }
            i += 1;
        }
        proof {
            assert forall|k: Seq<u8>| #[trigger] entries_map(self@).contains_key(k) implies
                entries_map(other@).contains_key(k) && entries_map(other@)[k] == entries_map(
                self@,
            )[k] by {
                lemma_idx_of(self@, k);
                let j = idx_of(self@, k);
                assert(fold_name(self@[j].0) == k);
            }
        }
        true
    }
}

impl PartialEq for Headers {
    /// Two collections are equal exactly when their case-insensitive
    /// (case-folded name, ordered raw-line bytes) mappings are equal,
    /// whatever case the names were stored under and in whatever order the
    /// entries were made.
    fn eq(&self, other: &Headers) -> (r: bool) {
        let fwd = self.sub_headers(other);
        if !fwd {
            proof {
                if entries_map(self@) == entries_map(other@) {
                    assert(forall|k: Seq<u8>| #[trigger] entries_map(self@).contains_key(k)
                        ==> entries_map(other@).contains_key(k) && entries_map(other@)[k]
                        == entries_map(self@)[k]);
                }
            }
            return false;
        }
        let bwd = other.sub_headers(self);
        if !bwd {
            proof {
                if entries_map(self@) == entries_map(other@) {
                    assert(forall|k: Seq<u8>| #[trigger] entries_map(other@).contains_key(k)
                        ==> entries_map(self@).contains_key(k) && entries_map(self@)[k]
                        == entries_map(other@)[k]);
                }
            }
            return false;
        }
        proof {
            assert(entries_map(self@) =~~= entries_map(other@));
        }
        true
    }
}

impl vstd::std_specs::cmp::PartialEqSpecImpl for Headers {
    open spec fn obeys_eq_spec() -> bool {
        true
    }

    open spec fn eq_spec(&self, other: &Headers) -> bool {
        entries_map(self@) == entries_map(other@)
    }
}

/// Lookups are case-insensitive: two names with the same case-folded form
/// address the same entry, so a value stored under one casing is
/// retrievable under any other.
pub proof fn lemma_lookup_case_insensitive(h: Headers, n1: Seq<u8>, n2: Seq<u8>)
    requires
        fold_name(n1) == fold_name(n2),
    ensures
        h.model().contains_key(fold_name(n1)) == h.model().contains_key(fold_name(n2)),
        h.model().contains_key(fold_name(n1)) ==> h.model()[fold_name(n1)] == h.model()[fold_name(
            n2,
        )],
{
}

/// Equality of two collections is equality of their case-insensitive
/// (case-folded name, ordered raw-line bytes) mappings: it depends on
/// nothing else, not on name case and not on entry order.
pub proof fn lemma_headers_eq_is_model_eq(a: Headers, b: Headers)
    ensures
        vstd::std_specs::cmp::PartialEqSpec::eq_spec(&a, &b) <==> a.model() == b.model(),
{
}

} // verus!
