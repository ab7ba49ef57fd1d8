//! Copy-on-write overlay filesystem.
//!
//! Reads come from the overlay first and fall back to the base; writes go to
//! the overlay only; deletes leave a tombstone. The base is never mutated.

use vstd::prelude::*;
use vstd::slice::slice_to_vec;

use crate::drive_fs::{normalize_83, to_8_3, DriveFS};
use crate::error::{CpmError, CpmResult};
use crate::memory_drive::{byte_map, distinct_keys, find_entry, find_name, lemma_byte_map_contains,
    lemma_byte_map_lookup, lemma_byte_map_remove};

verus! {

/// Pairwise distinct names.
pub open spec fn distinct_names(names: Seq<String>) -> bool {
    forall|i: int, j: int|
        0 <= i < j < names.len() ==> (#[trigger] names[i])@ != (#[trigger] names[j])@
}

/// The set of names a sequence of strings holds.
pub open spec fn name_set(names: Seq<String>) -> Set<Seq<char>> {
    Set::new(|k: Seq<char>| exists|i: int| 0 <= i < names.len() && (#[trigger] names[i])@ == k)
}

/// Copy-on-write overlay on top of a base filesystem.
pub struct OverlayDriveFS<B: DriveFS> {
    base: B,
    overlay: Vec<(String, Vec<u8>)>,
    deleted: Vec<String>,
}

impl<B: DriveFS> OverlayDriveFS<B> {
    /// The wrapped base drive.
    pub closed spec fn spec_base(&self) -> B {
        self.base
    }

    /// The overlaid contents.
    pub closed spec fn overlay_map(&self) -> Map<Seq<char>, Seq<u8>> {
        byte_map(self.overlay@)
    }

    /// The deletion tombstones.
    pub closed spec fn tombstones(&self) -> Set<Seq<char>> {
        name_set(self.deleted@)
    }

    pub fn new(base: B) -> (r: Self)
        requires
            base.wf(),
        ensures
            r.wf(),
            r.spec_base() == base,
            r.overlay_map() == Map::<Seq<char>, Seq<u8>>::empty(),
            r.tombstones() == Set::<Seq<char>>::empty(),
            r.files() == base.files(),
            r.virtual_names() == base.virtual_names(),
            !r.read_only(),
    {
        let r = OverlayDriveFS { base, overlay: Vec::new(), deleted: Vec::new() };
        proof {
            assert(r.tombstones() =~= Set::<Seq<char>>::empty());
            assert(r.files() =~= r.spec_base().files());
            assert(r.virtual_names() =~= r.spec_base().virtual_names());
        }
        r
    }

    /// The underlying base filesystem.
    pub fn base(&self) -> (r: &B)
        ensures
            *r == self.spec_base(),
    {
        &self.base
    }

    /// The files modified or added in the overlay.
    pub fn modified_files(&self) -> (r: &Vec<(String, Vec<u8>)>)
        ensures
            byte_map(r@) == self.overlay_map(),
    {
        &self.overlay
    }

    /// The names deleted through the overlay.
    pub fn deleted_files(&self) -> (r: &Vec<String>)
        ensures
            name_set(r@) == self.tombstones(),
    {
        &self.deleted
    }

    /// Whether a file was modified or added in the overlay.
    pub fn is_modified(&self, name: &str) -> (r: bool)
        ensures
            r == self.overlay_map().contains_key(normalize_83(name@)),
    {
        let key = to_8_3(name);
        proof {
            lemma_byte_map_contains(self.overlay@, normalize_83(name@));
        }
        match find_entry(&self.overlay, &key) {
            Some(_) => true,
            None => false,
        }
    }

    /// Whether a file was deleted through the overlay.
    pub fn is_deleted(&self, name: &str) -> (r: bool)
        ensures
            r == self.tombstones().contains(normalize_83(name@)),
    {
        let key = to_8_3(name);
        match find_name(&self.deleted, &key) {
            Some(i) => {
                proof {
                    assert(self.deleted@[i as int]@ == normalize_83(name@));
                }
                true
            },
            None => {
                proof {
                    if self.tombstones().contains(normalize_83(name@)) {
                        let i = choose|i: int|
                            0 <= i < self.deleted@.len() && (#[trigger] self.deleted@[i])@
                                == normalize_83(name@);
                    }
                }
                false
            },
        }
    }

    /// Drop every overlay modification and tombstone.
    pub fn clear_overlay(&mut self)
        requires
            old(self).wf(),
        ensures
            final(self).wf(),
            final(self).spec_base() == old(self).spec_base(),
            final(self).overlay_map() == Map::<Seq<char>, Seq<u8>>::empty(),
            final(self).tombstones() == Set::<Seq<char>>::empty(),
            final(self).files() == old(self).spec_base().files(),
            final(self).virtual_names() == old(self).spec_base().virtual_names(),
    {
        self.overlay.clear();
        self.deleted.clear();
        proof {
            assert(self.tombstones() =~= Set::<Seq<char>>::empty());
            assert(self.files() =~= self.spec_base().files());
            assert(self.virtual_names() =~= self.spec_base().virtual_names());
        }
    }
}

impl<B: DriveFS> DriveFS for OverlayDriveFS<B> {
    closed spec fn files(&self) -> Map<Seq<char>, Seq<u8>> {
        Map::new(
            |k: Seq<char>|
                self.overlay_map().contains_key(k) || (self.base.files().contains_key(k)
                    && !self.tombstones().contains(k)),
            |k: Seq<char>|
                if self.overlay_map().contains_key(k) {
                    self.overlay_map()[k]
                } else {
                    self.base.files()[k]
                },
        )
    }

    open spec fn virtual_names(&self) -> Set<Seq<char>> {
        self.spec_base().virtual_names().difference(self.tombstones()).difference(
            self.overlay_map().dom(),
        )
    }

    open spec fn read_only(&self) -> bool {
        false
    }

    closed spec fn wf(&self) -> bool {
        &&& self.base.wf()
        &&& distinct_keys(self.overlay@)
        &&& distinct_names(self.deleted@)
        &&& forall|i: int|
            0 <= i < self.overlay@.len() ==> !self.tombstones().contains(
                (#[trigger] self.overlay@[i]).0@,
            )
    }

    fn read_file(&self, name: &str) -> (r: Option<Vec<u8>>) {
        let key = to_8_3(name);
        let ghost k = normalize_83(name@);
        proof {
            lemma_byte_map_contains(self.overlay@, k);
        }
        if let Some(_) = find_name(&self.deleted, &key) {
            proof {
                assert(self.tombstones().contains(k));
                assert(!self.files().contains_key(k));
                assert(!self.virtual_names().contains(k));
            }
            return None;
        }
        proof {
            if self.tombstones().contains(k) {
                let i = choose|i: int|
                    0 <= i < self.deleted@.len() && (#[trigger] self.deleted@[i])@ == k;
            }
            assert(!self.tombstones().contains(k));
        }
        if let Some(i) = find_entry(&self.overlay, &key) {
            proof {
                lemma_byte_map_lookup(self.overlay@, i as int);
                assert(self.files().contains_key(k));
                assert(self.files()[k] == self.overlay@[i as int].1@);
            }
            return Some(slice_to_vec(self.overlay[i].1.as_slice()));
        }
        proof {
            assert(!self.overlay_map().contains_key(k));
        }
        self.base.read_file(name)
    }

    fn write_file(&mut self, name: &str, data: &[u8]) -> (r: CpmResult<()>)
        ensures
            final(self).spec_base() == old(self).spec_base(),
            final(self).overlay_map() == old(self).overlay_map().insert(
                normalize_83(name@),
                data@,
            ),
            final(self).tombstones() == old(self).tombstones().remove(normalize_83(name@)),
    {
        let key = to_8_3(name);
        let ghost k = normalize_83(name@);
        let ghost pre = self.overlay@;
        // store in the overlay, replacing any previous entry
        match find_entry(&self.overlay, &key) {
            Some(i) => {
                proof {
                    lemma_byte_map_remove(pre, i as int);
                }
                self.overlay.remove(i);
            },
            None => {
                proof {
                    lemma_byte_map_contains(pre, k);
                    assert(byte_map(pre).remove(k) =~= byte_map(pre));
                }
            },
        }
        let ghost mid = self.overlay@;
        proof {
            assert(byte_map(mid) == byte_map(pre).remove(k));
            assert forall|j: int| 0 <= j < mid.len() implies (#[trigger] mid[j]).0@ != k by {
                if exists|i: int| 0 <= i < pre.len() && (#[trigger] pre[i]).0@ == k {
                }
            }
        }
        self.overlay.push((key, slice_to_vec(data)));
        proof {
            assert(self.overlay@.drop_last() =~= mid);
            assert(self.overlay_map() == byte_map(mid).insert(k, data@));
        }
        // clear any tombstone
        let key2 = to_8_3(name);
        match find_name(&self.deleted, &key2) {
            Some(i) => {
                let ghost dpre = self.deleted@;
                self.deleted.remove(i);
                proof {
                    assert forall|x: Seq<char>| #[trigger]
                        self.tombstones().contains(x) == old(self).tombstones().remove(k).contains(
                            x,
                        ) by {
                        let rem = self.deleted@;
                        if self.tombstones().contains(x) {
                            let p = choose|p: int|
                                0 <= p < rem.len() && (#[trigger] rem[p])@ == x;
                            let p2 = if p < i {
                                p
                            } else {
                                p + 1
                            };
                            assert(dpre[p2]@ == x);
                            assert(p2 != i);
                        }
                        if old(self).tombstones().remove(k).contains(x) {
                            let p = choose|p: int|
                                0 <= p < dpre.len() && (#[trigger] dpre[p])@ == x;
                            assert(p != i);
                            let p2 = if p < i {
                                p
                            } else {
                                p - 1
                            };
                            assert(rem[p2]@ == x);
                        }
                    }
                    assert(self.tombstones() =~= old(self).tombstones().remove(k));
                }
            },
            None => {
                proof {
                    if old(self).tombstones().contains(k) {
                        let p = choose|p: int|
                            0 <= p < self.deleted@.len() && (#[trigger] self.deleted@[p])@ == k;
                    }
                    assert(self.tombstones() =~= old(self).tombstones().remove(k));
                }
            },
        }
        proof {
            assert(byte_map(pre).remove(k).insert(k, data@) =~= byte_map(pre).insert(k, data@));
            assert(self.files() =~= old(self).files().insert(k, data@));
            assert(self.virtual_names() =~= old(self).virtual_names().remove(k));
        }
        Ok(())
    }

    fn delete_file(&mut self, name: &str) -> (r: bool)
        ensures
            final(self).spec_base() == old(self).spec_base(),
            final(self).overlay_map() == old(self).overlay_map().remove(normalize_83(name@)),
            final(self).tombstones() == old(self).tombstones().insert(normalize_83(name@)),
    {
        let existed = self.has_file(name);
        let key = to_8_3(name);
        let ghost k = normalize_83(name@);
        let ghost pre = self.overlay@;
        // drop any overlay entry
        match find_entry(&self.overlay, &key) {
            Some(i) => {
                proof {
                    lemma_byte_map_remove(pre, i as int);
                }
                self.overlay.remove(i);
            },
            None => {
                proof {
                    lemma_byte_map_contains(pre, k);
                    assert(byte_map(pre).remove(k) =~= byte_map(pre));
                }
            },
        }
        proof {
            assert(self.overlay_map() == byte_map(pre).remove(k));
        }
        // set the tombstone
        let key2 = to_8_3(name);
        let ghost dpre = self.deleted@;
        match find_name(&self.deleted, &key2) {
            Some(_) => {
                proof {
                    assert(old(self).tombstones().contains(k));
                    assert(self.tombstones() =~= old(self).tombstones().insert(k));
                }
            },
            None => {
                self.deleted.push(key2);
                proof {
                    assert forall|x: Seq<char>| #[trigger]
                        self.tombstones().contains(x) == old(self).tombstones().insert(k).contains(
                            x,
                        ) by {
                        let post = self.deleted@;
                        if self.tombstones().contains(x) {
                            let p = choose|p: int|
                                0 <= p < post.len() && (#[trigger] post[p])@ == x;
                            if p < dpre.len() {
                                assert(dpre[p]@ == x);
                            }
                        }
                        if old(self).tombstones().contains(x) {
                            let p = choose|p: int|
                                0 <= p < dpre.len() && (#[trigger] dpre[p])@ == x;
                            assert(post[p]@ == x);
                        }
                        if x == k {
                            assert(post[post.len() - 1]@ == x);
                        }
                    }
                    assert(self.tombstones() =~= old(self).tombstones().insert(k));
                }
            },
        }
        proof {
            assert(self.files() =~= old(self).files().remove(k));
            assert(self.virtual_names() =~= old(self).virtual_names().remove(k));
            assert(existed == (old(self).files().contains_key(k) || old(
                self,
            ).virtual_names().contains(k)));
            assert forall|i: int| 0 <= i < self.overlay@.len() implies !self.tombstones().contains(
                (#[trigger] self.overlay@[i]).0@,
            ) by {
                let rem = self.overlay@;
                assert(rem[i].0@ != k) by {
                    if exists|j: int| 0 <= j < pre.len() && (#[trigger] pre[j]).0@ == k {
                    }
                }
            }
        }
        existed
    }

    fn list_files(&self) -> (r: Vec<String>) {
        let base_names = self.base.list_files();
        let ghost base_set = self.base.files().dom().union(self.base.virtual_names());
        let mut names = base_names;
        // add overlay names not already present
        let mut j: usize = 0;
        proof {
            assert(names@.map_values(|s: String| s@).to_set() =~= base_set.union(
                name_set(self.overlay@.take(0).map_values(|p: (String, Vec<u8>)| p.0)),
            )) by {
                assert(self.overlay@.take(0).map_values(|p: (String, Vec<u8>)| p.0)
                    =~= Seq::<String>::empty());
                assert(name_set(Seq::<String>::empty()) =~= Set::<Seq<char>>::empty());
            }
        }
        while j < self.overlay.len()
            invariant
                j <= self.overlay@.len(),
                names@.map_values(|s: String| s@).no_duplicates(),
                names@.map_values(|s: String| s@).to_set() == base_set.union(
                    name_set(self.overlay@.take(j as int).map_values(|p: (String, Vec<u8>)| p.0)),
                ),
            decreases self.overlay@.len() - j,
        {
            let ghost pre_names = names@;
            let ghost taken = self.overlay@.take(j as int).map_values(|p: (String, Vec<u8>)| p.0);
            let ghost taken1 = self.overlay@.take(j as int + 1).map_values(
                |p: (String, Vec<u8>)| p.0,
            );
            let key = &self.overlay[j].0;
            proof {
                assert(taken1 =~= taken.push(self.overlay@[j as int].0));
                assert forall|x: Seq<char>| #[trigger]
                    name_set(taken1).contains(x) == name_set(taken).insert(
                        self.overlay@[j as int].0@,
                    ).contains(x) by {
                    if name_set(taken1).contains(x) {
                        let p = choose|p: int|
                            0 <= p < taken1.len() && (#[trigger] taken1[p])@ == x;
                        if p < taken.len() {
                            assert(taken[p]@ == x);
                        }
                    }
                    if name_set(taken).contains(x) {
                        let p = choose|p: int| 0 <= p < taken.len() && (#[trigger] taken[p])@ == x;
                        assert(taken1[p]@ == x);
                    }
                    if x == self.overlay@[j as int].0@ {
                        assert(taken1[taken1.len() - 1]@ == x);
                    }
                }
                assert(name_set(taken1) =~= name_set(taken).insert(self.overlay@[j as int].0@));
            }
            match find_name(&names, key) {
                Some(i) => {
                    proof {
                        let views = pre_names.map_values(|s: String| s@);
                        assert(views[i as int] == key@);
                        assert(views.to_set().contains(key@)) by {
                            assert(views.contains(key@));
                        }
                        assert(views.to_set() =~= base_set.union(name_set(taken1)));
                    }
                },
                None => {
                    names.push(self.overlay[j].0.clone());
                    proof {
                        let views = names@.map_values(|s: String| s@);
                        let pviews = pre_names.map_values(|s: String| s@);
                        assert(views =~= pviews.push(key@));
                        assert(forall|p: int| 0 <= p < pviews.len() ==> pviews[p] != key@);
                        assert(views.no_duplicates());
                        assert forall|x: Seq<char>| #[trigger]
                            views.to_set().contains(x) == pviews.to_set().insert(key@).contains(
                                x,
                            ) by {
                            if views.to_set().contains(x) {
                                let p = choose|p: int|
                                    0 <= p < views.len() && (#[trigger] views[p]) == x;
                                if p < pviews.len() {
                                    assert(pviews[p] == x);
                                    assert(pviews.contains(x));
                                }
                            }
                            if pviews.to_set().contains(x) {
                                let p = choose|p: int|
                                    0 <= p < pviews.len() && (#[trigger] pviews[p]) == x;
                                assert(views[p] == x);
                                assert(views.contains(x));
                            }
                            if x == key@ {
                                assert(views[views.len() - 1] == x);
                                assert(views.contains(x));
                            }
                        }
                        assert(views.to_set() =~= base_set.union(name_set(taken1)));
                    }
                },
            }
            j += 1;
        }
        let ghost all_set = base_set.union(
            name_set(self.overlay@.map_values(|p: (String, Vec<u8>)| p.0)),
        );
        proof {
            assert(self.overlay@.take(self.overlay@.len() as int) =~= self.overlay@);
        }
        // remove deleted names
        let mut t: usize = 0;
        proof {
            assert(name_set(self.deleted@.take(0)) =~= Set::<Seq<char>>::empty());
            assert(names@.map_values(|s: String| s@).to_set() =~= all_set.difference(
                name_set(self.deleted@.take(0)),
            ));
        }
        while t < self.deleted.len()
            invariant
                t <= self.deleted@.len(),
                names@.map_values(|s: String| s@).no_duplicates(),
                names@.map_values(|s: String| s@).to_set() == all_set.difference(
                    name_set(self.deleted@.take(t as int)),
                ),
            decreases self.deleted@.len() - t,
        {
            let ghost dtaken = self.deleted@.take(t as int);
            let ghost dtaken1 = self.deleted@.take(t as int + 1);
            let key = &self.deleted[t];
            proof {
                assert(dtaken1 =~= dtaken.push(self.deleted@[t as int]));
                assert forall|x: Seq<char>| #[trigger]
                    name_set(dtaken1).contains(x) == name_set(dtaken).insert(key@).contains(x) by {
                    if name_set(dtaken1).contains(x) {
                        let p = choose|p: int|
                            0 <= p < dtaken1.len() && (#[trigger] dtaken1[p])@ == x;
                        if p < dtaken.len() {
                            assert(dtaken[p]@ == x);
                        }
                    }
                    if name_set(dtaken).contains(x) {
                        let p = choose|p: int|
                            0 <= p < dtaken.len() && (#[trigger] dtaken[p])@ == x;
                        assert(dtaken1[p]@ == x);
                    }
                    if x == key@ {
                        assert(dtaken1[dtaken1.len() - 1]@ == x);
                    }
                }
                assert(name_set(dtaken1) =~= name_set(dtaken).insert(key@));
            }
            let ghost pre_names = names@;
            match find_name(&names, key) {
                Some(i) => {
                    names.remove(i);
                    proof {
                        let views = names@.map_values(|s: String| s@);
                        let pviews = pre_names.map_values(|s: String| s@);
                        assert(views =~= pviews.remove(i as int));
                        assert forall|p: int, q: int|
                            0 <= p < q < views.len() implies #[trigger] views[p] != #[trigger] views[q] by {
                            let p2 = if p < i {
                                p
                            } else {
                                p + 1
                            };
                            let q2 = if q < i {
                                q
                            } else {
                                q + 1
                            };
                            assert(views[p] == pviews[p2]);
                            assert(views[q] == pviews[q2]);
                        }
                        assert forall|x: Seq<char>| #[trigger]
                            views.to_set().contains(x) == pviews.to_set().remove(key@).contains(
                                x,
                            ) by {
                            if views.to_set().contains(x) {
                                let p = choose|p: int|
                                    0 <= p < views.len() && (#[trigger] views[p]) == x;
                                let p2 = if p < i {
                                    p
                                } else {
                                    p + 1
                                };
                                assert(pviews[p2] == x);
                                assert(pviews.contains(x));
                                assert(x != key@) by {
                                    if p2 != i {
                                        assert(pviews[i as int] == key@);
                                    }
                                }
                            }
                            if pviews.to_set().remove(key@).contains(x) {
                                let p = choose|p: int|
                                    0 <= p < pviews.len() && (#[trigger] pviews[p]) == x;
                                assert(p != i);
                                let p2 = if p < i {
                                    p
                                } else {
                                    p - 1
                                };
                                assert(views[p2] == x);
                                assert(views.contains(x));
                            }
                        }
                        assert(views.to_set() =~= pviews.to_set().remove(key@));
                        assert(views.to_set() =~= all_set.difference(name_set(dtaken1)));
                    }
                },
                None => {
                    proof {
                        let pviews = pre_names.map_values(|s: String| s@);
                        assert(forall|p: int| 0 <= p < pviews.len() ==> pviews[p] != key@);
                        assert forall|x: Seq<char>| #[trigger]
                            pviews.to_set().contains(x) == pviews.to_set().remove(key@).contains(
                                x,
                            ) by {
                            if pviews.to_set().contains(x) {
                                let p = choose|p: int|
                                    0 <= p < pviews.len() && (#[trigger] pviews[p]) == x;
                                assert(x != key@);
                            }
                        }
                        assert(pviews.to_set() =~= pviews.to_set().remove(key@));
                        assert(pviews.to_set() =~= all_set.difference(name_set(dtaken1)));
                    }
                },
            }
            t += 1;
        }
        proof {
            assert(self.deleted@.take(self.deleted@.len() as int) =~= self.deleted@);
            let views = names@.map_values(|s: String| s@);
            let target = self.files().dom().union(self.virtual_names());
            assert forall|x: Seq<char>| #[trigger] views.to_set().contains(x) == target.contains(
                x,
            ) by {
                lemma_byte_map_contains(self.overlay@, x);
                let onames = self.overlay@.map_values(|p: (String, Vec<u8>)| p.0);
                if name_set(onames).contains(x) {
                    let p = choose|p: int| 0 <= p < onames.len() && (#[trigger] onames[p])@ == x;
                    assert(self.overlay@[p].0@ == x);
                }
                if self.overlay_map().contains_key(x) {
                    let p = choose|p: int|
                        0 <= p < self.overlay@.len() && (#[trigger] self.overlay@[p]).0@ == x;
                    assert(onames[p]@ == x);
                    assert(!self.tombstones().contains(x));
                }
            }
            assert(views.to_set() =~= target);
        }
        names
    }

    fn has_file(&self, name: &str) -> (r: bool) {
        let key = to_8_3(name);
        let ghost k = normalize_83(name@);
        proof {
            lemma_byte_map_contains(self.overlay@, k);
        }
        if let Some(_) = find_name(&self.deleted, &key) {
            proof {
                assert(self.tombstones().contains(k));
            }
            return false;
        }
        proof {
            if self.tombstones().contains(k) {
                let i = choose|i: int|
                    0 <= i < self.deleted@.len() && (#[trigger] self.deleted@[i])@ == k;
            }
        }
        if let Some(_) = find_entry(&self.overlay, &key) {
            return true;
        }
        self.base.has_file(name)
    }
}

/// The overlay law: over any contents, a write makes the name readable with
/// exactly the written bytes; a delete makes it absent; deleting and then
/// writing restores it. Together with `write_file`'s and `delete_file`'s
/// contracts (which pin `files()` to exactly these map operations, and leave
/// `spec_base()` unchanged) this is the copy-on-write shadowing law.
pub proof fn lemma_overlay_shadowing(files: Map<Seq<char>, Seq<u8>>, n: Seq<char>, x: Seq<u8>)
    ensures
        files.insert(normalize_83(n), x).contains_key(normalize_83(n)),
        files.insert(normalize_83(n), x)[normalize_83(n)] == x,
        !files.remove(normalize_83(n)).contains_key(normalize_83(n)),
        files.remove(normalize_83(n)).insert(normalize_83(n), x).contains_key(normalize_83(n)),
        files.remove(normalize_83(n)).insert(normalize_83(n), x)[normalize_83(n)] == x,
{
}

} // verus!
