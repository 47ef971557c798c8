//! The byte-level storage primitive a backend is built on: whole values by key, with no
//! directory index and no link semantics (get/set/del/scan/flush).

use vstd::prelude::*;
use crate::text::{chars_of, string_of};

verus! {

/// Whether `s` starts with `p`.
pub open spec fn starts_with_seq(s: Seq<char>, p: Seq<char>) -> bool {
    p.len() <= s.len() && s.subrange(0, p.len() as int) == p
}

/// The keys of a store that start with `prefix`.
pub open spec fn keys_with_prefix(m: Map<Seq<char>, Seq<u8>>, prefix: Seq<char>) -> Set<Seq<char>> {
    Set::new(|k: Seq<char>| m.dom().contains(k) && starts_with_seq(k, prefix))
}

/// The set of keys named by a list.
pub open spec fn key_set(keys: Seq<&str>) -> Set<Seq<char>> {
    Set::new(|k: Seq<char>| exists|i: int| 0 <= i < keys.len() && (#[trigger] keys[i])@ == k)
}

/// The bytes `[off, off + len)` of `v`, cut to its end.
pub open spec fn part_of(v: Seq<u8>, off: nat, len: nat) -> Seq<u8> {
    let s = if off <= v.len() { off } else { v.len() };
    let e = if s + len <= v.len() { s + len } else { v.len() };
    v.subrange(s as int, e as int)
}

/// `v` with `buf` written at `off`, zero-extended first when it would end past `v`.
pub open spec fn patched(v: Seq<u8>, off: nat, buf: Seq<u8>) -> Seq<u8> {
    let e = off + buf.len();
    let w = if e > v.len() { v + Seq::new((e - v.len()) as nat, |i: int| 0u8) } else { v };
    w.subrange(0, off as int) + buf + w.subrange(e as int, w.len() as int)
}

/// A store of whole values by key: its contents are a map from key to bytes.
pub trait KVStore: Sized {
    /// The stored values. The default is one fixed, unnamed map for every value of a type
    /// that does not override it (stores written outside Verus cannot), so what the methods'
    /// contracts say of it holds of such a store only if its methods behave as they state.
    closed spec fn contents(&self) -> Map<Seq<char>, Seq<u8>> {
        vstd::pervasive::arbitrary()
    }

    /// The bytes under `key`; `None` when absent.
    fn get(&self, key: &str) -> (r: Option<Vec<u8>>)
        ensures
            r is Some <==> self.contents().dom().contains(key@),
            r matches Some(v) ==> v@ == self.contents()[key@];

    /// Stores `val` under `key`.
    fn set(&mut self, key: &str, val: &[u8])
        ensures
            final(self).contents() == old(self).contents().insert(key@, val@);

    /// Removes every listed key (absent keys are ignored).
    fn del(&mut self, keys: &[&str])
        ensures
            final(self).contents() == old(self).contents().remove_keys(key_set(keys@));

    /// Every key that starts with `prefix` (`prefix` itself included when present).
    fn scan_keys(&self, prefix: &str) -> (r: Vec<String>)
        ensures
            forall|k: Seq<char>| (exists|i: int| 0 <= i < r@.len() && (#[trigger] r@[i])@ == k)
                <==> keys_with_prefix(self.contents(), prefix@).contains(k);

    /// Removes every key.
    fn flush(&mut self)
        ensures
            final(self).contents() == Map::<Seq<char>, Seq<u8>>::empty();

    /// The bytes of each key, in order; `None` where absent.
    fn get_many(&self, keys: &[&str]) -> (r: Vec<Option<Vec<u8>>>)
        ensures
            r@.len() == keys@.len(),
            forall|i: int| 0 <= i < keys@.len() ==> ((#[trigger] r@[i]) is Some
                <==> self.contents().dom().contains(keys@[i]@)),
            forall|i: int| 0 <= i < keys@.len() ==> (#[trigger] r@[i] matches Some(v)
                ==> v@ == self.contents()[keys@[i]@]),
    {
        let mut r: Vec<Option<Vec<u8>>> = Vec::new();
        let mut i: usize = 0;
        while i < keys.len()
            invariant
                i <= keys.len(),
                r@.len() == i,
                forall|j: int| 0 <= j < i ==> ((#[trigger] r@[j]) is Some
                    <==> self.contents().dom().contains(keys@[j]@)),
                forall|j: int| 0 <= j < i ==> (#[trigger] r@[j] matches Some(v)
                    ==> v@ == self.contents()[keys@[j]@]),
            decreases keys.len() - i,
        {
            r.push(self.get(keys[i]));
            i = i + 1;
        }
        r
    }

    /// Whether `key` is present.
    fn has_key(&self, key: &str) -> (b: bool)
        ensures
            b == self.contents().dom().contains(key@),
    {
        self.get(key).is_some()
    }

    /// The bytes `[off, off + len)` of `key`, cut to its end; `None` when absent.
    fn get_part(&self, key: &str, off: u32, len: u32) -> (r: Option<Vec<u8>>)
        ensures
            r is Some <==> self.contents().dom().contains(key@),
            r matches Some(v) ==> v@ == part_of(self.contents()[key@], off as nat, len as nat),
    {
        match self.get(key) {
            None => None,
            Some(v) => {
                let s: usize = if (off as u64) <= (v.len() as u64) { off as usize } else { v.len() };
                let e: usize = if (s as u64) + (len as u64) <= (v.len() as u64) { s + len as usize } else { v.len() };
                let p = vstd::slice::slice_subrange(v.as_slice(), s, e);
                Some(vstd::slice::slice_to_vec(p))
            },
        }
    }

    /// Writes `buf` at `off` of an existing `key` (zero-extending it); nothing when absent.
    fn set_part(&mut self, key: &str, off: u32, buf: &[u8])
        requires
            off as nat + buf@.len() <= usize::MAX,
        ensures
            old(self).contents().dom().contains(key@) ==> final(self).contents()
                == old(self).contents().insert(key@, patched(old(self).contents()[key@], off as nat, buf@)),
            !old(self).contents().dom().contains(key@) ==> final(self).contents() == old(self).contents(),
    {
        match self.get(key) {
            None => {},
            Some(v) => {
                let s: usize = off as usize;
                let e: usize = s + buf.len();
                let ghost w = if e > v@.len() { v@ + Seq::new((e - v@.len()) as nat, |i: int| 0u8) } else { v@ };
                let mut out: Vec<u8> = Vec::new();
                let mut i: usize = 0;
                let n: usize = if e > v.len() { e } else { v.len() };
                assert(w.len() == n);
                while i < n
                    invariant
                        i <= n,
                        n == w.len(),
                        e == s + buf@.len(),
                        s <= e <= n,
                        w == (if e > v@.len() { v@ + Seq::new((e - v@.len()) as nat, |i: int| 0u8) } else { v@ }),
                        out@.len() == i,
                        forall|j: int| 0 <= j < i ==> #[trigger] out@[j] == (if s <= j < e { buf@[j - s] } else { w[j] }),
                    decreases n - i,
                {
                    let b: u8 = if i >= s && i < e {
                        buf[i - s]
                    } else if i < v.len() {
                        v[i]
                    } else {
                        0u8
                    };
                    out.push(b);
                    i = i + 1;
                }
                assert(out@ =~= patched(v@, off as nat, buf@));
                self.set(key, &out);
            },
        }
    }
}

/// The views of stored entries: key characters and value bytes.
pub open spec fn entry_views(s: Seq<(String, Vec<u8>)>) -> Seq<(Seq<char>, Seq<u8>)> {
    Seq::new(s.len(), |i: int| (s[i].0@, s[i].1@))
}

/// The map of an append-only list of entries: a later entry for a key wins.
pub open spec fn entries_map(s: Seq<(Seq<char>, Seq<u8>)>) -> Map<Seq<char>, Seq<u8>>
    decreases s.len(),
{
    if s.len() == 0 {
        Map::empty()
    } else {
        entries_map(s.drop_last()).insert(s.last().0, s.last().1)
    }
}

/// The entries whose key is not dropped, in order.
pub open spec fn without_keys(s: Seq<(Seq<char>, Seq<u8>)>, drop: Set<Seq<char>>) -> Seq<(Seq<char>, Seq<u8>)>
    decreases s.len(),
{
    if s.len() == 0 {
        s
    } else {
        let t = without_keys(s.drop_last(), drop);
        if drop.contains(s.last().0) { t } else { t.push(s.last()) }
    }
}

/// The keys of the entries that start with `p`, in order.
pub open spec fn prefixed_keys(s: Seq<(Seq<char>, Seq<u8>)>, p: Seq<char>) -> Seq<Seq<char>>
    decreases s.len(),
{
    if s.len() == 0 {
        seq![]
    } else {
        let t = prefixed_keys(s.drop_last(), p);
        if starts_with_seq(s.last().0, p) { t.push(s.last().0) } else { t }
    }
}

/// An in-memory store: entries are appended, the latest entry for a key holds its value.
pub struct MemStore {
    entries: Vec<(String, Vec<u8>)>,
}

impl MemStore {
    /// An empty store.
    pub fn new() -> (s: MemStore)
        ensures
            s.contents() == Map::<Seq<char>, Seq<u8>>::empty(),
    {
        let s = MemStore { entries: Vec::new() };
        assert(entry_views(s.entries@) =~= Seq::<(Seq<char>, Seq<u8>)>::empty());
        s
    }
}

/// A key is present exactly when an entry names it.
proof fn lemma_entries_map(s: Seq<(Seq<char>, Seq<u8>)>, k: Seq<char>)
    ensures
        entries_map(s).dom().contains(k) <==> exists|i: int| 0 <= i < s.len() && (#[trigger] s[i]).0 == k,
    decreases s.len(),
{
    if s.len() > 0 {
        lemma_entries_map(s.drop_last(), k);
        if s.last().0 != k {
            if exists|i: int| 0 <= i < s.len() && (#[trigger] s[i]).0 == k {
                let i = choose|i: int| 0 <= i < s.len() && (#[trigger] s[i]).0 == k;
                assert(s.drop_last()[i] == s[i]);
            }
            if exists|i: int| 0 <= i < s.drop_last().len() && (#[trigger] s.drop_last()[i]).0 == k {
                let i = choose|i: int| 0 <= i < s.drop_last().len() && (#[trigger] s.drop_last()[i]).0 == k;
                assert(s[i] == s.drop_last()[i]);
            }
        } else {
            assert(s[s.len() - 1].0 == k);
        }
    }
}

/// Dropping the entries of some keys removes those keys from the map.
proof fn lemma_entries_filter(s: Seq<(Seq<char>, Seq<u8>)>, drop: Set<Seq<char>>)
    ensures
        entries_map(without_keys(s, drop)) == entries_map(s).remove_keys(drop),
    decreases s.len(),
{
    if s.len() == 0 {
        assert(entries_map(without_keys(s, drop)) =~= entries_map(s).remove_keys(drop));
    } else {
        lemma_entries_filter(s.drop_last(), drop);
        let t = without_keys(s.drop_last(), drop);
        if !drop.contains(s.last().0) {
            assert(t.push(s.last()).drop_last() == t);
        }
        assert(entries_map(without_keys(s, drop)) =~= entries_map(s).remove_keys(drop));
    }
}

/// A key is among the prefixed keys exactly when an entry names it and it starts with `p`.
proof fn lemma_prefixed_keys(s: Seq<(Seq<char>, Seq<u8>)>, p: Seq<char>, k: Seq<char>)
    ensures
        prefixed_keys(s, p).contains(k) <==> (exists|i: int| 0 <= i < s.len() && (#[trigger] s[i]).0 == k)
            && starts_with_seq(k, p),
    decreases s.len(),
{
    if s.len() > 0 {
        lemma_prefixed_keys(s.drop_last(), p, k);
        let t = prefixed_keys(s.drop_last(), p);
        if exists|i: int| 0 <= i < s.drop_last().len() && (#[trigger] s.drop_last()[i]).0 == k {
            let i = choose|i: int| 0 <= i < s.drop_last().len() && (#[trigger] s.drop_last()[i]).0 == k;
            assert(s[i] == s.drop_last()[i]);
        }
        if exists|i: int| 0 <= i < s.len() && (#[trigger] s[i]).0 == k {
            let i = choose|i: int| 0 <= i < s.len() && (#[trigger] s[i]).0 == k;
            if i < s.len() - 1 {
                assert(s.drop_last()[i] == s[i]);
            }
        }
        if starts_with_seq(s.last().0, p) {
            assert(t.push(s.last().0)[t.len() as int] == s.last().0);
            if t.push(s.last().0).contains(k) {
                let q = choose|q: int| 0 <= q < t.push(s.last().0).len() && t.push(s.last().0)[q] == k;
                if q < t.len() {
                    assert(t[q] == k);
                }
            }
            if t.contains(k) {
                let q = choose|q: int| 0 <= q < t.len() && t[q] == k;
                assert(t.push(s.last().0)[q] == k);
            }
        }
        assert(s[s.len() - 1] == s.last());
    }
}

impl KVStore for MemStore {
    closed spec fn contents(&self) -> Map<Seq<char>, Seq<u8>> {
        entries_map(entry_views(self.entries@))
    }

    fn get(&self, key: &str) -> (r: Option<Vec<u8>>) {
        let ghost ev = entry_views(self.entries@);
        let mut j: usize = self.entries.len();
        assert(ev.take(j as int) == ev);
        while j > 0
            invariant
                j <= self.entries@.len(),
                ev == entry_views(self.entries@),
                entries_map(ev).dom().contains(key@) ==> entries_map(ev.take(j as int)).dom().contains(key@),
                entries_map(ev.take(j as int)).dom().contains(key@) ==> entries_map(ev)[key@] == entries_map(ev.take(j as int))[key@],
                entries_map(ev.take(j as int)).dom().contains(key@) ==> entries_map(ev).dom().contains(key@),
            decreases j,
        {
            let e = &self.entries[j - 1];
            assert(ev.take(j as int).drop_last() == ev.take(j - 1));
            assert(ev.take(j as int).last() == ev[j - 1]);
            if crate::text::str_eq(e.0.as_str(), key) {
                return Some(vstd::slice::slice_to_vec(e.1.as_slice()));
            }
            j = j - 1;
        }
        assert(ev.take(0) =~= Seq::<(Seq<char>, Seq<u8>)>::empty());
        None
    }

    fn set(&mut self, key: &str, val: &[u8]) {
        let k = string_of(key);
        let v = vstd::slice::slice_to_vec(val);
        self.entries.push((k, v));
        assert(entry_views(self.entries@).drop_last() =~= entry_views(old(self).entries@));
    }

    fn del(&mut self, keys: &[&str]) {
        let ghost drop = key_set(keys@);
        let ghost ev = entry_views(self.entries@);
        let mut kept: Vec<(String, Vec<u8>)> = Vec::new();
        let mut i: usize = 0;
        while i < self.entries.len()
            invariant
                i <= self.entries@.len(),
                self.entries@ == old(self).entries@,
                ev == entry_views(self.entries@),
                drop == key_set(keys@),
                entry_views(kept@) == without_keys(ev.take(i as int), drop),
            decreases self.entries@.len() - i,
        {
            let e = &self.entries[i];
            let mut hit = false;
            let mut q: usize = 0;
            while q < keys.len()
                invariant
                    q <= keys@.len(),
                    hit <==> exists|t: int| 0 <= t < q && (#[trigger] keys@[t])@ == e.0@,
                decreases keys@.len() - q,
            {
                if crate::text::str_eq(keys[q], e.0.as_str()) {
                    hit = true;
                }
                q = q + 1;
            }
            assert(hit == drop.contains(e.0@));
            proof {
                assert(ev.take(i as int + 1).drop_last() == ev.take(i as int));
                assert(ev.take(i as int + 1).last() == ev[i as int]);
            }
            if !hit {
                let ghost before = kept@;
                kept.push((e.0.clone(), vstd::slice::slice_to_vec(e.1.as_slice())));
                assert(entry_views(kept@) =~= entry_views(before).push(ev[i as int]));
            }
            i = i + 1;
        }
        assert(ev.take(self.entries@.len() as int) == ev);
        proof { lemma_entries_filter(ev, drop); }
        self.entries = kept;
    }

    fn scan_keys(&self, prefix: &str) -> (r: Vec<String>) {
        let ghost ev = entry_views(self.entries@);
        let p = chars_of(prefix);
        let mut r: Vec<String> = Vec::new();
        let mut i: usize = 0;
        while i < self.entries.len()
            invariant
                i <= self.entries@.len(),
                ev == entry_views(self.entries@),
                p@ == prefix@,
                Seq::new(r@.len(), |j: int| r@[j]@) == prefixed_keys(ev.take(i as int), p@),
            decreases self.entries@.len() - i,
        {
            let e = &self.entries[i];
            let kc = chars_of(e.0.as_str());
            let ok = starts_with_chars(&kc, &p);
            proof {
                assert(ev.take(i as int + 1).drop_last() == ev.take(i as int));
                assert(ev.take(i as int + 1).last() == ev[i as int]);
            }
            let ghost before = r@;
            if ok {
                r.push(e.0.clone());
                assert(Seq::new(r@.len(), |j: int| r@[j]@) =~= Seq::new(before.len(), |j: int| before[j]@).push(e.0@));
            }
            i = i + 1;
        }
        assert(ev.take(self.entries@.len() as int) == ev);
        proof {
            let ks = Seq::new(r@.len(), |j: int| r@[j]@);
            assert forall|k: Seq<char>| (exists|j: int| 0 <= j < r@.len() && (#[trigger] r@[j])@ == k)
                <==> keys_with_prefix(self.contents(), prefix@).contains(k) by {
                lemma_entries_map(ev, k);
                lemma_prefixed_keys(ev, p@, k);
                if exists|j: int| 0 <= j < r@.len() && (#[trigger] r@[j])@ == k {
                    let j = choose|j: int| 0 <= j < r@.len() && (#[trigger] r@[j])@ == k;
                    assert(ks[j] == k);
                }
                if ks.contains(k) {
                    let j = choose|j: int| 0 <= j < ks.len() && ks[j] == k;
                    assert(r@[j]@ == k);
                }
            }
        }
        r
    }

    fn flush(&mut self) {
        self.entries = Vec::new();
        assert(entry_views(self.entries@) =~= Seq::<(Seq<char>, Seq<u8>)>::empty());
    }
}

/// Whether `s` starts with `p`.
pub fn starts_with_chars(s: &[char], p: &[char]) -> (r: bool)
    ensures
        r == starts_with_seq(s@, p@),
{
    if p.len() > s.len() {
        return false;
    }
    let mut t: usize = 0;
    while t < p.len()
        invariant
            t <= p@.len() <= s@.len(),
            s@.subrange(0, t as int) == p@.subrange(0, t as int),
        decreases p@.len() - t,
    {
        if s[t] != p[t] {
            assert(s@.subrange(0, p@.len() as int)[t as int] != p@[t as int]);
            return false;
        }
        assert(s@.subrange(0, t as int + 1) =~= s@.subrange(0, t as int).push(s@[t as int]));
        assert(p@.subrange(0, t as int + 1) =~= p@.subrange(0, t as int).push(p@[t as int]));
        t = t + 1;
    }
    assert(p@.subrange(0, p@.len() as int) == p@);
    true
}

} // verus!
