//! In-memory drive filesystem: a mapping from normalized 8.3 name to bytes.

use vstd::prelude::*;
use vstd::slice::slice_to_vec;
use vstd::string::{StrSliceExecFns, StringSliceAdditionalSpecFns};

use crate::drive_fs::{normalize_83, to_8_3, DriveFS};
use crate::error::{CpmError, CpmResult};

verus! {

/// The keys of an association list of named byte buffers.
pub open spec fn entry_keys(entries: Seq<(String, Vec<u8>)>) -> Seq<Seq<char>> {
    entries.map_values(|p: (String, Vec<u8>)| p.0@)
}

/// Pairwise distinct keys.
pub open spec fn distinct_keys(entries: Seq<(String, Vec<u8>)>) -> bool {
    forall|i: int, j: int|
        0 <= i < j < entries.len() ==> (#[trigger] entries[i]).0@ != (#[trigger] entries[j]).0@
}

/// The map an association list of named byte buffers stands for; a later
/// entry overrides an earlier one of the same key.
pub open spec fn byte_map(entries: Seq<(String, Vec<u8>)>) -> Map<Seq<char>, Seq<u8>>
    decreases entries.len(),
{
    if entries.len() == 0 {
        Map::empty()
    } else {
        byte_map(entries.drop_last()).insert(entries.last().0@, entries.last().1@)
    }
}

pub proof fn lemma_byte_map_contains(entries: Seq<(String, Vec<u8>)>, key: Seq<char>)
    ensures
        byte_map(entries).contains_key(key) <==> (exists|i: int|
            0 <= i < entries.len() && (#[trigger] entries[i]).0@ == key),
    decreases entries.len(),
{
    if entries.len() > 0 {
        let pre = entries.drop_last();
        lemma_byte_map_contains(pre, key);
        if entries.last().0@ == key {
            assert(entries[entries.len() - 1].0@ == key);
        } else {
            if byte_map(entries).contains_key(key) {
                let i = choose|i: int| 0 <= i < pre.len() && (#[trigger] pre[i]).0@ == key;
                assert(entries[i].0@ == key);
            }
            if exists|i: int| 0 <= i < entries.len() && (#[trigger] entries[i]).0@ == key {
                let i = choose|i: int| 0 <= i < entries.len() && (#[trigger] entries[i]).0@ == key;
                assert(i < pre.len());
                assert(pre[i].0@ == key);
            }
        }
    }
}

pub proof fn lemma_byte_map_lookup(entries: Seq<(String, Vec<u8>)>, i: int)
    requires
        distinct_keys(entries),
        0 <= i < entries.len(),
    ensures
        byte_map(entries).contains_key(entries[i].0@),
        byte_map(entries)[entries[i].0@] == entries[i].1@,
    decreases entries.len(),
{
    if i == entries.len() - 1 {
    } else {
        let pre = entries.drop_last();
        assert(entries[i].0@ != entries[entries.len() - 1].0@);
        assert(pre[i] == entries[i]);
        lemma_byte_map_lookup(pre, i);
    }
}

pub proof fn lemma_byte_map_remove(entries: Seq<(String, Vec<u8>)>, i: int)
    requires
        distinct_keys(entries),
        0 <= i < entries.len(),
    ensures
        byte_map(entries.remove(i)) == byte_map(entries).remove(entries[i].0@),
        distinct_keys(entries.remove(i)),
    decreases entries.len(),
{
    let key = entries[i].0@;
    let pre = entries.drop_last();
    let rem = entries.remove(i);
    assert forall|p: int, q: int| 0 <= p < q < rem.len() implies (#[trigger] rem[p]).0@ != (
    #[trigger] rem[q]).0@ by {
        let p2 = if p < i {
            p
        } else {
            p + 1
        };
        let q2 = if q < i {
            q
        } else {
            q + 1
        };
        assert(rem[p] == entries[p2]);
        assert(rem[q] == entries[q2]);
    }
    if i == entries.len() - 1 {
        assert(rem =~= pre);
        lemma_byte_map_contains(pre, key);
        assert(!byte_map(pre).contains_key(key)) by {
            if exists|j: int| 0 <= j < pre.len() && (#[trigger] pre[j]).0@ == key {
                let j = choose|j: int| 0 <= j < pre.len() && (#[trigger] pre[j]).0@ == key;
                assert(entries[j].0@ == key);
                assert(entries[j].0@ != entries[i].0@);
            }
        }
        assert(byte_map(entries).remove(key) =~= byte_map(pre));
    } else {
        assert(rem.drop_last() =~= pre.remove(i));
        assert(rem.last() == entries.last());
        assert(pre[i] == entries[i]);
        assert(distinct_keys(pre)) by {
            assert(forall|p: int, q: int|
                0 <= p < q < pre.len() ==> (#[trigger] pre[p]).0@ != (#[trigger] pre[q]).0@)
                by {
                assert(forall|p: int|
                    0 <= p < pre.len() ==> (#[trigger] pre[p]) == entries[p]);
            }
        }
        lemma_byte_map_remove(pre, i);
        let lk = entries.last().0@;
        let lv = entries.last().1@;
        assert(key != lk) by {
            assert(entries[i].0@ != entries[entries.len() - 1].0@);
        }
        assert(byte_map(rem) == byte_map(pre.remove(i)).insert(lk, lv));
        assert(byte_map(pre).remove(key).insert(lk, lv) =~= byte_map(pre).insert(lk, lv).remove(
            key,
        ));
    }
}

/// The contents a list of name/data pairs produces when added in order:
/// a later pair overrides an earlier one, every name normalized.
pub open spec fn files_of_pairs(pairs: Seq<(String, Vec<u8>)>) -> Map<Seq<char>, Seq<u8>>
    decreases pairs.len(),
{
    if pairs.len() == 0 {
        Map::empty()
    } else {
        files_of_pairs(pairs.drop_last()).insert(normalize_83(pairs.last().0@), pairs.last().1@)
    }
}

/// Index of the entry in `entries` whose name is exactly `key`, if any.
pub(crate) fn find_entry(entries: &Vec<(String, Vec<u8>)>, key: &String) -> (r: Option<usize>)
    ensures
        match r {
            Some(i) => i < entries@.len() && entries@[i as int].0@ == key@ && (forall|j: int|
                0 <= j < i ==> (#[trigger] entries@[j]).0@ != key@),
            None => forall|i: int|
                0 <= i < entries@.len() ==> (#[trigger] entries@[i]).0@ != key@,
        },
{
    let mut i: usize = 0;
    while i < entries.len()
        invariant
            i <= entries@.len(),
            forall|j: int| 0 <= j < i ==> (#[trigger] entries@[j]).0@ != key@,
        decreases entries@.len() - i,
    {
        if entries[i].0 == *key {
            return Some(i);
        }
        i += 1;
    }
    None
}

/// Index of the name in `names` that is exactly `key`, if any.
pub(crate) fn find_name(names: &Vec<String>, key: &String) -> (r: Option<usize>)
    ensures
        match r {
            Some(i) => i < names@.len() && names@[i as int]@ == key@,
            None => forall|i: int| 0 <= i < names@.len() ==> (#[trigger] names@[i])@ != key@,
        },
{
    let mut i: usize = 0;
    while i < names.len()
        invariant
            i <= names@.len(),
            forall|j: int| 0 <= j < i ==> (#[trigger] names@[j])@ != key@,
        decreases names@.len() - i,
    {
        if names[i] == *key {
            return Some(i);
        }
        i += 1;
    }
    None
}

/// The name/content views of an association list.
pub open spec fn pairs_view(entries: Seq<(String, Vec<u8>)>) -> Seq<(Seq<char>, Seq<u8>)> {
    entries.map_values(|p: (String, Vec<u8>)| (p.0@, p.1@))
}

/// An ordered replace-or-append: the (unique) entry with the key is dropped
/// and the new pair goes to the end, matching how the drives store a write.
pub open spec fn upsert(s: Seq<(Seq<char>, Seq<u8>)>, k: Seq<char>, v: Seq<u8>) -> Seq<
    (Seq<char>, Seq<u8>),
>
    decreases s.len(),
{
    if s.len() == 0 {
        seq![(k, v)]
    } else if s.first().0 == k {
        s.drop_first().push((k, v))
    } else {
        seq![s.first()] + upsert(s.drop_first(), k, v)
    }
}

/// With no entry under the key, an upsert is an append.
pub proof fn lemma_upsert_absent(s: Seq<(Seq<char>, Seq<u8>)>, k: Seq<char>, v: Seq<u8>)
    requires
        forall|j: int| 0 <= j < s.len() ==> (#[trigger] s[j]).0 != k,
    ensures
        upsert(s, k, v) == s.push((k, v)),
    decreases s.len(),
{
    if s.len() == 0 {
        assert(upsert(s, k, v) =~= s.push((k, v)));
    } else {
        assert(s.drop_first()[0] == s[1] || s.len() == 1);
        assert(forall|j: int| 0 <= j < s.drop_first().len() ==> (#[trigger] s.drop_first()[j]).0
            != k);
        lemma_upsert_absent(s.drop_first(), k, v);
        assert(seq![s.first()] + s.drop_first().push((k, v)) =~= s.push((k, v)));
    }
}

/// When the first entry under the key sits at `i`, an upsert removes it and
/// appends the pair.
pub proof fn lemma_upsert_at(s: Seq<(Seq<char>, Seq<u8>)>, i: int, k: Seq<char>, v: Seq<u8>)
    requires
        0 <= i < s.len(),
        s[i].0 == k,
        forall|j: int| 0 <= j < i ==> (#[trigger] s[j]).0 != k,
    ensures
        upsert(s, k, v) == s.remove(i).push((k, v)),
    decreases s.len(),
{
    if i == 0 {
        assert(s.remove(0) =~= s.drop_first());
    } else {
        assert(s.drop_first()[i - 1].0 == k);
        assert(forall|j: int|
            0 <= j < i - 1 ==> (#[trigger] s.drop_first()[j]).0 != k);
        lemma_upsert_at(s.drop_first(), i - 1, k, v);
        assert(seq![s.first()] + s.drop_first().remove(i - 1).push((k, v)) =~= s.remove(i).push(
            (k, v),
        ));
    }
}

/// Every entry of an upsert is the inserted pair or one of the old entries.
pub proof fn lemma_upsert_members(s: Seq<(Seq<char>, Seq<u8>)>, k: Seq<char>, v: Seq<u8>)
    ensures
        forall|i: int|
            0 <= i < upsert(s, k, v).len() ==> (#[trigger] upsert(s, k, v)[i]) == (k, v) || exists|
                j: int,
            | 0 <= j < s.len() && s[j] == upsert(s, k, v)[i],
    decreases s.len(),
{
    let u = upsert(s, k, v);
    if s.len() == 0 {
    } else if s.first().0 == k {
        assert forall|i: int| 0 <= i < u.len() implies (#[trigger] u[i]) == (k, v) || exists|
            j: int,
        | 0 <= j < s.len() && s[j] == u[i] by {
            if i < s.drop_first().len() {
                assert(s[i + 1] == u[i]);
            }
        }
    } else {
        lemma_upsert_members(s.drop_first(), k, v);
        let u2 = upsert(s.drop_first(), k, v);
        assert forall|i: int| 0 <= i < u.len() implies (#[trigger] u[i]) == (k, v) || exists|
            j: int,
        | 0 <= j < s.len() && s[j] == u[i] by {
            if i == 0 {
                assert(s[0] == u[0]);
            } else {
                assert(u[i] == u2[i - 1]);
                if u2[i - 1] != (k, v) {
                    let j = choose|j: int|
                        0 <= j < s.drop_first().len() && (#[trigger] s.drop_first()[j]) == u2[i
                            - 1];
                    assert(s[j + 1] == u[i]);
                }
            }
        }
    }
}

/// Replace or append the entry for `key` (an exact, already-normalized
/// name), keeping keys distinct.
pub(crate) fn insert_entry(entries: &mut Vec<(String, Vec<u8>)>, key: String, data: Vec<u8>)
    requires
        distinct_keys(old(entries)@),
    ensures
        distinct_keys(final(entries)@),
        byte_map(final(entries)@) == byte_map(old(entries)@).insert(key@, data@),
        pairs_view(final(entries)@) == upsert(pairs_view(old(entries)@), key@, data@),
{
    let ghost pre = entries@;
    let found = find_entry(entries, &key);
    match found {
        Some(i) => {
            proof {
                lemma_byte_map_remove(pre, i as int);
            }
            entries.remove(i);
        },
        None => {
            proof {
                lemma_byte_map_contains(pre, key@);
                assert(byte_map(pre).remove(key@) =~= byte_map(pre));
            }
        },
    }
    let ghost mid = entries@;
    proof {
        assert(byte_map(mid) == byte_map(pre).remove(key@));
        assert(forall|j: int| 0 <= j < mid.len() ==> (#[trigger] mid[j]).0@ != key@) by {
            if found is Some {
                let i = found->0 as int;
                assert(forall|j: int|
                    0 <= j < mid.len() ==> #[trigger] mid[j] == (if j < i {
                        pre[j]
                    } else {
                        pre[j + 1]
                    }));
            }
        }
    }
    entries.push((key, data));
    proof {
        assert(entries@.drop_last() =~= mid);
        assert(byte_map(entries@) == byte_map(mid).insert(key@, data@));
        assert(byte_map(pre).remove(key@).insert(key@, data@) =~= byte_map(pre).insert(
            key@,
            data@,
        ));
        match found {
            Some(i) => {
                assert(pairs_view(pre)[i as int].0 == key@);
                assert(forall|j: int|
                    0 <= j < i as int ==> (#[trigger] pairs_view(pre)[j]).0 != key@);
                lemma_upsert_at(pairs_view(pre), i as int, key@, data@);
                assert(pairs_view(entries@) =~= pairs_view(pre).remove(i as int).push(
                    (key@, data@),
                ));
            },
            None => {
                assert(forall|j: int|
                    0 <= j < pre.len() ==> (#[trigger] pairs_view(pre)[j]).0 != key@);
                lemma_upsert_absent(pairs_view(pre), key@, data@);
                assert(pairs_view(entries@) =~= pairs_view(pre).push((key@, data@)));
            },
        }
    }
}

/// Simple in-memory filesystem for a drive.
pub struct MemoryDriveFS {
    files: Vec<(String, Vec<u8>)>,
}

impl MemoryDriveFS {
    pub fn new() -> (r: Self)
        ensures
            r.wf(),
            !r.read_only(),
            r.files() == Map::<Seq<char>, Seq<u8>>::empty(),
            r.virtual_names() == Set::<Seq<char>>::empty(),
    {
        MemoryDriveFS { files: Vec::new() }
    }

    /// Store `data` under the normalized form of `name`, replacing any
    /// previous content.
    pub fn add_file(&mut self, name: &str, data: Vec<u8>)
        requires
            old(self).wf(),
        ensures
            final(self).wf(),
            final(self).files() == old(self).files().insert(normalize_83(name@), data@),
            !final(self).read_only(),
            final(self).virtual_names() == old(self).virtual_names(),
    {
        let key = to_8_3(name);
        insert_entry(&mut self.files, key, data);
        proof {
            assert(self.virtual_names() =~= old(self).virtual_names());
        }
    }

    /// Store a file from string content.
    pub fn add_file_str(&mut self, name: &str, content: &str)
        requires
            old(self).wf(),
        ensures
            final(self).wf(),
            final(self).files() == old(self).files().insert(
                normalize_83(name@),
                content.spec_bytes(),
            ),
            !final(self).read_only(),
            final(self).virtual_names() == old(self).virtual_names(),
    {
        let data = content.as_bytes_vec();
        self.add_file(name, data);
    }

    /// Build a drive from name/data pairs; a later pair overrides an earlier
    /// one of the same normalized name.
    pub fn with_files(files: Vec<(String, Vec<u8>)>) -> (r: Self)
        ensures
            r.wf(),
            !r.read_only(),
            r.files() == files_of_pairs(files@),
            r.virtual_names() == Set::<Seq<char>>::empty(),
    {
        let ghost all = files@;
        let mut files = files;
        let n0: usize = files.len();
        let mut fs = MemoryDriveFS::new();
        proof {
            assert(all.len() == n0);
            assert(all.take(0) =~= Seq::<(String, Vec<u8>)>::empty());
            assert(fs.files() =~= files_of_pairs(all.take(0)));
        }
        let mut done: usize = 0;
        while files.len() > 0
            invariant
                fs.wf(),
                !fs.read_only(),
                fs.virtual_names() == Set::<Seq<char>>::empty(),
                done <= all.len(),
                all.len() <= usize::MAX,
                done + files@.len() == all.len(),
                files@ =~= all.skip(done as int),
                fs.files() == files_of_pairs(all.take(done as int)),
            decreases files@.len(),
        {
            let pair = files.remove(0);
            proof {
                assert(all[done as int] == pair);
                assert(files@ =~= all.skip(done as int + 1));
                assert(all.take(done as int + 1).drop_last() =~= all.take(done as int));
                assert(all.take(done as int + 1).last() == pair);
            }
            fs.add_file(pair.0.as_str(), pair.1);
            done += 1;
        }
        proof {
            assert(all.take(done as int) =~= all);
        }
        fs
    }
}

impl DriveFS for MemoryDriveFS {
    closed spec fn files(&self) -> Map<Seq<char>, Seq<u8>> {
        byte_map(self.files@)
    }

    open spec fn virtual_names(&self) -> Set<Seq<char>> {
        Set::empty()
    }

    open spec fn read_only(&self) -> bool {
        false
    }

    closed spec fn wf(&self) -> bool {
        distinct_keys(self.files@)
    }

    fn read_file(&self, name: &str) -> (r: Option<Vec<u8>>) {
        let key = to_8_3(name);
        match find_entry(&self.files, &key) {
            Some(i) => {
                proof {
                    lemma_byte_map_lookup(self.files@, i as int);
                }
                Some(slice_to_vec(self.files[i].1.as_slice()))
            },
            None => {
                proof {
                    lemma_byte_map_contains(self.files@, key@);
                }
                None
            },
        }
    }

    fn write_file(&mut self, name: &str, data: &[u8]) -> (r: CpmResult<()>) {
        self.add_file(name, slice_to_vec(data));
        proof {
            assert(self.virtual_names() =~= old(self).virtual_names().remove(normalize_83(name@)));
        }
        Ok(())
    }

    fn delete_file(&mut self, name: &str) -> (r: bool) {
        let key = to_8_3(name);
        let ghost pre = self.files@;
        match find_entry(&self.files, &key) {
            Some(i) => {
                proof {
                    lemma_byte_map_lookup(pre, i as int);
                    lemma_byte_map_remove(pre, i as int);
                }
                self.files.remove(i);
                proof {
                    assert(self.virtual_names() =~= old(self).virtual_names().remove(
                        normalize_83(name@),
                    ));
                }
                true
            },
            None => {
                proof {
                    lemma_byte_map_contains(pre, key@);
                    assert(byte_map(pre).remove(key@) =~= byte_map(pre));
                    assert(self.virtual_names() =~= old(self).virtual_names().remove(
                        normalize_83(name@),
                    ));
                }
                false
            },
        }
    }

    fn list_files(&self) -> (r: Vec<String>) {
        let mut r: Vec<String> = Vec::new();
        let mut i: usize = 0;
        while i < self.files.len()
            invariant
                i <= self.files@.len(),
                r@.len() == i,
                forall|j: int| 0 <= j < i ==> (#[trigger] r@[j])@ == self.files@[j].0@,
            decreases self.files@.len() - i,
        {
            r.push(self.files[i].0.clone());
            i += 1;
        }
        proof {
            let views = r@.map_values(|s: String| s@);
            assert(views =~= entry_keys(self.files@));
            assert forall|key: Seq<char>| #[trigger]
                views.to_set().contains(key) == self.files().dom().union(
                    self.virtual_names(),
                ).contains(key) by {
                lemma_byte_map_contains(self.files@, key);
                if views.to_set().contains(key) {
                    let j = choose|j: int| 0 <= j < views.len() && views[j] == key;
                    assert(self.files@[j].0@ == key);
                }
                if self.files().dom().union(self.virtual_names()).contains(key) {
                    assert(self.files().contains_key(key));
                    let j = choose|j: int|
                        0 <= j < self.files@.len() && (#[trigger] self.files@[j]).0@ == key;
                    assert(views[j] == key);
                    assert(views.contains(key));
                }
            }
            assert(views.to_set() =~= self.files().dom().union(self.virtual_names()));
        }
        r
    }

    fn has_file(&self, name: &str) -> (r: bool) {
        let key = to_8_3(name);
        proof {
            lemma_byte_map_contains(self.files@, normalize_83(name@));
        }
        match find_entry(&self.files, &key) {
            Some(_) => true,
            None => false,
        }
    }
}

} // verus!
