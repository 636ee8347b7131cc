//! The ordered image list: entries in print order, each with a stable
//! identity handle, supporting append, removal by identity and
//! drag-and-drop reordering.
use crate::bitmap::Bitmap;
use crate::html::{generate_html, html_doc};
use vstd::prelude::*;

verus! {

/// The identity of one entry, handed out by the list that holds it. Two
/// entries with the same path still have different handles.
#[derive(Clone, Copy, PartialEq, Eq, Structural, Debug)]
pub struct EntryId {
    pub id: u64,
}

/// One row of the list: the source path and its display thumbnail.
pub struct ImageEntry {
    pub id: EntryId,
    pub path: String,
    pub thumbnail: Bitmap,
}

/// Why a reorder request was refused.
#[derive(Clone, Copy, PartialEq, Eq, Structural, Debug)]
pub enum MoveError {
    /// The dragged row's index is not a position of the list.
    SourceOutOfRange,
}

/// The list of entries in print order.
pub struct ImageList {
    entries: Vec<ImageEntry>,
    next_id: u64,
}

/// `s` after the element at `src` is taken out and put back at `dst`,
/// where `dst` is read against the list with the element already removed
/// and is clamped to its end.
pub open spec fn moved<T>(s: Seq<T>, src: int, dst: int) -> Seq<T> {
    if src == dst {
        s
    } else {
        let rest = s.remove(src);
        rest.insert(if dst < rest.len() { dst } else { rest.len() as int }, s[src])
    }
}

/// The row a drop lands on: the row under the pointer if there is one, else
/// the last row (or the first position of an empty list).
pub open spec fn drop_target(row_under_pointer: Option<usize>, count: usize) -> usize {
    match row_under_pointer {
        Some(i) => i,
        None => if count > 0 {
            (count - 1) as usize
        } else {
            0
        },
    }
}

/// One entry as the list shows it: handle, path and thumbnail.
pub type EntryView = (EntryId, Seq<char>, (u32, u32, Seq<u8>));

/// A decode result as the list sees it: the path, and the thumbnail where
/// decoding succeeded.
pub type ResultView = (Seq<char>, Option<(u32, u32, Seq<u8>)>);

/// The path and thumbnail of each decode result that succeeded, in the
/// order given.
pub open spec fn successes(results: Seq<ResultView>) -> Seq<(Seq<char>, (u32, u32, Seq<u8>))>
    decreases results.len(),
{
    if results.len() == 0 {
        Seq::empty()
    } else {
        let last = results.last();
        successes(results.drop_last()) + match last.1 {
            Some(t) => seq![(last.0, t)],
            None => Seq::empty(),
        }
    }
}

/// The paths of the decode results that failed, in the order given.
pub open spec fn failures(results: Seq<ResultView>) -> Seq<Seq<char>>
    decreases results.len(),
{
    if results.len() == 0 {
        Seq::empty()
    } else {
        let last = results.last();
        failures(results.drop_last()) + if last.1 is Some {
            Seq::empty()
        } else {
            seq![last.0]
        }
    }
}

/// A decode result, seen through its path's and thumbnail's views.
pub open spec fn result_view(r: (String, Option<Bitmap>)) -> ResultView {
    (
        r.0@,
        match r.1 {
            Some(b) => Some(b@),
            None => None,
        },
    )
}

/// No two entries of `s` share a handle.
pub open spec fn handles_unique(s: Seq<EntryView>) -> bool {
    forall|i: int, j: int| 0 <= i < j < s.len() ==> s[i].0 != s[j].0
}

/// The row under the pointer when there is one; otherwise the last row, or
/// position 0 of an empty list.
pub fn drop_destination(row_under_pointer: Option<usize>, count: usize) -> (r: usize)
    ensures
        r == drop_target(row_under_pointer, count),
{
    match row_under_pointer {
        Some(i) => i,
        None => if count > 0 {
            count - 1
        } else {
            0
        },
    }
}

impl ImageList {
    /// The entries as (handle, path, thumbnail) in print order.
    pub closed spec fn view(&self) -> Seq<EntryView> {
        self.entries@.map_values(|e: ImageEntry| (e.id, e.path@, e.thumbnail@))
    }

    /// The paths in print order.
    pub open spec fn paths(&self) -> Seq<Seq<char>> {
        self.view().map_values(|e: EntryView| e.1)
    }

    /// Whether `id` names an entry of the list.
    pub open spec fn contains(&self, id: EntryId) -> bool {
        contains_handle(self.view(), id)
    }

    /// Handles are unique, and all lie below the next handle to hand out.
    pub closed spec fn wf(&self) -> bool {
        &&& forall|i: int, j: int|
            0 <= i < j < self.entries@.len() ==> self.entries@[i].id != self.entries@[j].id
        &&& forall|i: int| 0 <= i < self.entries@.len() ==> self.entries@[i].id.id < self.next_id
    }

    /// A well-formed list never holds two entries with one handle.
    pub proof fn lemma_wf_handles_unique(&self)
        requires
            self.wf(),
        ensures
            handles_unique(self.view()),
    {
        assert forall|i: int, j: int| 0 <= i < j < self.view().len() implies self.view()[i].0
            != self.view()[j].0 by {
            assert(self.view()[i].0 == self.entries@[i].id);
            assert(self.view()[j].0 == self.entries@[j].id);
        }
    }

    /// How many more entries can still get a handle.
    pub closed spec fn room(&self) -> nat {
        (u64::MAX - self.next_id) as nat
    }

    /// An empty list.
    pub fn new() -> (r: ImageList)
        ensures
            r.wf(),
            r.view() == Seq::<EntryView>::empty(),
            handles_unique(r.view()),
            r.room() == u64::MAX as nat,
    {
        let r = ImageList { entries: Vec::new(), next_id: 0 };
        assert(r.view() =~= Seq::<EntryView>::empty());
        r
    }

    /// The number of entries.
    pub fn len(&self) -> (r: usize)
        ensures
            r == self.view().len(),
    {
        self.entries.len()
    }

    /// Whether another entry can be given a handle.
    pub fn can_append(&self) -> (r: bool)
        ensures
            r == (self.room() > 0),
    {
        self.next_id < u64::MAX
    }

    /// Adds an entry for `path` at the end of the list and returns its new
    /// handle.
    pub fn append(&mut self, path: String, thumbnail: Bitmap) -> (r: EntryId)
        requires
            old(self).wf(),
            old(self).room() > 0,
        ensures
            final(self).wf(),
            handles_unique(final(self).view()),
            final(self).view() == old(self).view().push((r, path@, thumbnail@)),
            final(self).room() == old(self).room() - 1,
            !old(self).contains(r),
    {
        let id = EntryId { id: self.next_id };
        let ghost p = path@;
        let ghost t = thumbnail@;
        self.entries.push(ImageEntry { id, path, thumbnail });
        self.next_id = self.next_id + 1;
        assert(self.view() =~= old(self).view().push((id, p, t)));
        proof {
            self.lemma_wf_handles_unique();
        }
        assert(!old(self).contains(id)) by {
            if old(self).contains(id) {
                let i = choose|i: int| 0 <= i < old(self).view().len() && old(self).view()[i].0 == id;
                assert(old(self).entries@[i].id.id < old(self).next_id);
            }
        }
        id
    }

    /// Removes the entry with handle `id`; nothing changes if there is none.
    /// Returns whether an entry was removed.
    pub fn remove(&mut self, id: EntryId) -> (r: bool)
        requires
            old(self).wf(),
        ensures
            final(self).wf(),
            handles_unique(final(self).view()),
            !final(self).contains(id),
            r == old(self).contains(id),
            final(self).room() == old(self).room(),
            r ==> exists|i: int|
                0 <= i < old(self).view().len() && old(self).view()[i].0 == id
                    && final(self).view() == old(self).view().remove(i),
            !r ==> final(self).view() == old(self).view(),
    {
        let mut i: usize = 0;
        while i < self.entries.len()
            invariant
                self == old(self),
                self.wf(),
                i <= self.entries@.len(),
                forall|j: int| 0 <= j < i ==> self.entries@[j].id != id,
            decreases self.entries@.len() - i,
        {
            if self.entries[i].id == id {
                let ghost before = self.view();
                let ghost es = self.entries@;
                self.entries.remove(i);
                assert(self.view() =~= before.remove(i as int));
                assert(before[i as int].0 == id);
                assert forall|a: int, b: int| 0 <= a < b < self.entries@.len() implies
                    self.entries@[a].id != self.entries@[b].id by {
                    let oa = if a < i { a } else { a + 1 };
                    let ob = if b < i { b } else { b + 1 };
                    assert(self.entries@[a] == es[oa]);
                    assert(self.entries@[b] == es[ob]);
                    assert(es[oa].id != es[ob].id);
                }
                assert forall|a: int| 0 <= a < self.entries@.len() implies self.entries@[a].id.id
                    < self.next_id by {
                    assert(self.entries@[a] == es[if a < i { a } else { a + 1 }]);
                }
                proof {
                    self.lemma_wf_handles_unique();
                    if self.contains(id) {
                        let k = choose|k: int| 0 <= k < self.view().len() && self.view()[k].0 == id;
                        let ok = if k < i { k } else { k + 1 };
                        assert(self.entries@[k] == es[ok]);
                        assert(es[ok].id == es[i as int].id);
                    }
                }
                return true;
            }
            i = i + 1;
        }
        assert(!old(self).contains(id)) by {
            if old(self).contains(id) {
                let k = choose|k: int| 0 <= k < old(self).view().len() && old(self).view()[k].0 == id;
                assert(self.entries@[k].id == id);
            }
        }
        proof {
            self.lemma_wf_handles_unique();
        }
        false
    }

    /// Moves the entry at `src` to `dst`. The entry is first taken out, and
    /// `dst` is then read against the shortened list (clamped to its end): so
    /// in `[A, B, C, D]`, moving 0 to 2 gives `[B, C, A, D]`. A `src` outside
    /// the list is refused and leaves it unchanged.
    pub fn move_entry(&mut self, src: usize, dst: usize) -> (r: Result<(), MoveError>)
        requires
            old(self).wf(),
        ensures
            final(self).wf(),
            handles_unique(final(self).view()),
            final(self).room() == old(self).room(),
            r is Err <==> src >= old(self).view().len(),
            r is Err ==> final(self).view() == old(self).view(),
            r matches Err(e) ==> e == MoveError::SourceOutOfRange,
            r is Ok ==> final(self).view() == moved(old(self).view(), src as int, dst as int),
    {
        proof {
            self.lemma_wf_handles_unique();
        }
        if src >= self.entries.len() {
            return Err(MoveError::SourceOutOfRange);
        }
        if src == dst {
            return Ok(());
        }
        let ghost before = self.view();
        let ghost es = self.entries@;
        let entry = self.entries.remove(src);
        let at = if dst < self.entries.len() {
            dst
        } else {
            self.entries.len()
        };
        self.entries.insert(at, entry);
        assert(self.view() =~= moved(before, src as int, dst as int));
        assert forall|i: int, j: int| 0 <= i < j < self.entries@.len() implies
            self.entries@[i].id != self.entries@[j].id by {
            let oi = if i < at { if i < src { i } else { i + 1 } } else if i == at { src as int } else if i - 1 < src { i - 1 } else { i };
            let oj = if j < at { if j < src { j } else { j + 1 } } else if j == at { src as int } else if j - 1 < src { j - 1 } else { j };
            assert(self.entries@[i] == es[oi]);
            assert(self.entries@[j] == es[oj]);
        }
        assert forall|i: int| 0 <= i < self.entries@.len() implies self.entries@[i].id.id
            < self.next_id by {
            let oi = if i < at { if i < src { i } else { i + 1 } } else if i == at { src as int } else if i - 1 < src { i - 1 } else { i };
            assert(self.entries@[i] == es[oi]);
        }
        proof {
            self.lemma_wf_handles_unique();
        }
        Ok(())
    }

    /// Handles a drop of the row dragged from `src`: the destination is the
    /// row under the pointer, or the last row when the pointer is below all
    /// rows; the entry is then moved as `move_entry` does.
    pub fn drop_row(&mut self, src: usize, row_under_pointer: Option<usize>) -> (r: Result<
        (),
        MoveError,
    >)
        requires
            old(self).wf(),
        ensures
            final(self).wf(),
            handles_unique(final(self).view()),
            final(self).room() == old(self).room(),
            r is Err <==> src >= old(self).view().len(),
            r is Err ==> final(self).view() == old(self).view(),
            r is Ok ==> final(self).view() == moved(
                old(self).view(),
                src as int,
                drop_target(row_under_pointer, old(self).view().len() as usize) as int,
            ),
    {
        let dst = drop_destination(row_under_pointer, self.entries.len());
        self.move_entry(src, dst)
    }

    /// The paths in print order.
    pub fn snapshot_paths(&self) -> (r: Vec<String>)
        ensures
            r@.map_values(|p: String| p@) == self.paths(),
    {
        let mut out: Vec<String> = Vec::new();
        let mut i: usize = 0;
        while i < self.entries.len()
            invariant
                i <= self.entries@.len(),
                out@.len() == i,
                out@.map_values(|p: String| p@) == self.paths().subrange(0, i as int),
            decreases self.entries@.len() - i,
        {
            let p = self.entries[i].path.clone();
            assert(p@ == self.entries@[i as int].path@);
            out.push(p);
            assert(self.view()[i as int] == (
                self.entries@[i as int].id,
                self.entries@[i as int].path@,
                self.entries@[i as int].thumbnail@,
            ));
            assert(self.paths()[i as int] == self.entries@[i as int].path@);
            assert(out@[i as int]@ == self.entries@[i as int].path@);
            assert(out@.map_values(|p: String| p@) =~= self.paths().subrange(0, i + 1));
            i = i + 1;
        }
        assert(self.paths().subrange(0, i as int) =~= self.paths());
        out
    }

    /// The printable document for the current order, or `None` when the
    /// list is empty and there is nothing to export.
    pub fn export_html(&self) -> (r: Option<String>)
        ensures
            r is None <==> self.view().len() == 0,
            r matches Some(html) ==> html@ == html_doc(self.paths()),
    {
        if self.entries.len() == 0 {
            return None;
        }
        let paths = self.snapshot_paths();
        Some(generate_html(paths.as_slice()))
    }
}

impl ImageList {
    /// Takes one finished decode: an entry for `path` holding the decoded
    /// thumbnail is appended when decoding succeeded, and nothing changes when
    /// it failed. Returns the new entry's handle, or `None` for a failure that
    /// the caller reports.
    pub fn append_decoded(&mut self, path: String, decoded: Option<Bitmap>) -> (r: Option<EntryId>)
        requires
            old(self).wf(),
            old(self).room() > 0,
        ensures
            final(self).wf(),
            handles_unique(final(self).view()),
            r is Some <==> decoded is Some,
            r matches Some(id) ==> final(self).view() == old(self).view().push(
                (id, path@, decoded->0@),
            ) && !old(self).contains(id) && final(self).room() == old(self).room() - 1,
            r is None ==> final(self).view() == old(self).view() && final(self).room() == old(
                self,
            ).room(),
    {
        match decoded {
            Some(thumbnail) => Some(self.append(path, thumbnail)),
            None => {
                proof {
                    self.lemma_wf_handles_unique();
                }
                None
            },
        }
    }

    /// Takes a batch of finished decodes in the order they completed. The
    /// entries already there stay as they are; after them come the successes,
    /// in that order, each with its own path and thumbnail and a fresh
    /// handle. The paths that failed are returned, also in that order.
    pub fn append_batch(&mut self, results: Vec<(String, Option<Bitmap>)>) -> (failed: Vec<String>)
        requires
            old(self).wf(),
            old(self).room() >= results@.len(),
        ensures
            final(self).wf(),
            handles_unique(final(self).view()),
            final(self).view().len() == old(self).view().len() + successes(
                results@.map_values(|r| result_view(r)),
            ).len(),
            final(self).view().subrange(0, old(self).view().len() as int) == old(self).view(),
            final(self).view().subrange(
                old(self).view().len() as int,
                final(self).view().len() as int,
            ).map_values(|e: EntryView| (e.1, e.2)) == successes(
                results@.map_values(|r| result_view(r)),
            ),
            forall|k: int|
                old(self).view().len() <= k < final(self).view().len() ==> !old(self).contains(
                    #[trigger] final(self).view()[k].0,
                ),
            final(self).paths() == old(self).paths() + successes(
                results@.map_values(|r| result_view(r)),
            ).map_values(|e: (Seq<char>, (u32, u32, Seq<u8>))| e.0),
            final(self).room() == old(self).room() - successes(
                results@.map_values(|r| result_view(r)),
            ).len(),
            failed@.map_values(|p: String| p@) == failures(results@.map_values(|r| result_view(r))),
    {
        let ghost rs = results@.map_values(|r| result_view(r));
        let ghost v0 = self.view();
        let ghost n0 = v0.len();
        let ghost room0 = self.room();
        let mut rest = results;
        let mut failed: Vec<String> = Vec::new();
        let ghost done: int = 0;
        proof {
            self.lemma_wf_handles_unique();
            assert(self.view().subrange(0, n0 as int) =~= v0);
            assert(self.view().subrange(n0 as int, n0 as int).map_values(
                |e: EntryView| (e.1, e.2),
            ) =~= successes(rs.subrange(0, 0)));
        }
        while rest.len() > 0
            invariant
                self.wf(),
                handles_unique(self.view()),
                0 <= done <= rs.len(),
                rest@.map_values(|r| result_view(r)) == rs.subrange(done, rs.len() as int),
                self.room() >= rest@.len(),
                self.room() == room0 - successes(rs.subrange(0, done)).len(),
                self.view().len() == n0 + successes(rs.subrange(0, done)).len(),
                self.view().subrange(0, n0 as int) == v0,
                self.view().subrange(n0 as int, self.view().len() as int).map_values(
                    |e: EntryView| (e.1, e.2),
                ) == successes(rs.subrange(0, done)),
                forall|k: int|
                    n0 <= k < self.view().len() ==> !contains_handle(v0, #[trigger] self.view()[k].0),
                failed@.map_values(|p: String| p@) == failures(rs.subrange(0, done)),
            decreases rest@.len(),
        {
            let ghost before = self.view();
            let ghost head = result_view(rest@[0]);
            assert(rest@.map_values(|r| result_view(r)).len() == rest@.len());
            assert(done < rs.len());
            assert(rest@.map_values(|r| result_view(r))[0] == head);
            assert(head == rs[done]);
            let ghost old_rest = rest@;
            let (path, decoded) = rest.remove(0);
            let ghost p = path@;
            assert(rs.subrange(0, done + 1).drop_last() =~= rs.subrange(0, done));
            assert(rs.subrange(0, done + 1).last() == rs[done]);
            match decoded {
                Some(thumbnail) => {
                    let ghost t = thumbnail@;
                    let id = self.append(path, thumbnail);
                    proof {
                        assert(successes(rs.subrange(0, done + 1)) == successes(
                            rs.subrange(0, done),
                        ).push((p, t)));
                        assert(self.view().subrange(0, n0 as int) =~= v0);
                        assert(self.view().subrange(n0 as int, self.view().len() as int).map_values(
                            |e: EntryView| (e.1, e.2),
                        ) =~= before.subrange(n0 as int, before.len() as int).map_values(
                            |e: EntryView| (e.1, e.2),
                        ).push((p, t)));
                        assert(!contains_handle(v0, id)) by {
                            if contains_handle(v0, id) {
                                let i = choose|i: int| 0 <= i < v0.len() && v0[i].0 == id;
                                assert(before[i] == v0[i]);
                            }
                        }
                    }
                },
                None => {
                    failed.push(path);
                    assert(failed@.map_values(|q: String| q@) =~= failures(rs.subrange(0, done)).push(p));
                },
            }
            proof {
                assert forall|k: int| 0 <= k < rest@.len() implies result_view(rest@[k]) == rs[done + 1 + k] by {
                    assert(rest@[k] == old_rest[k + 1]);
                    assert(old_rest.map_values(|r| result_view(r))[k + 1] == result_view(old_rest[k + 1]));
                }
                done = done + 1;
                assert(rest@.map_values(|r| result_view(r)) =~= rs.subrange(done, rs.len() as int));
            }
        }
        proof {
            assert(rs.subrange(0, done) =~= rs);
            let v = self.view();
            let ss = successes(rs);
            assert forall|k: int| 0 <= k < v.len() implies #[trigger] self.paths()[k] == (
            v0.map_values(|e: EntryView| e.1) + ss.map_values(
                |e: (Seq<char>, (u32, u32, Seq<u8>))| e.0,
            ))[k] by {
                if k < n0 {
                    assert(v.subrange(0, n0 as int)[k] == v[k]);
                } else {
                    assert(v.subrange(n0 as int, v.len() as int).map_values(
                        |e: EntryView| (e.1, e.2),
                    )[k - n0] == (v[k].1, v[k].2));
                }
            }
            assert(self.paths() =~= old(self).paths() + ss.map_values(
                |e: (Seq<char>, (u32, u32, Seq<u8>))| e.0,
            ));
            assert forall|k: int| n0 <= k < v.len() implies !old(self).contains(
                #[trigger] v[k].0,
            ) by {
                assert(!contains_handle(v0, v[k].0));
            }
        }
        failed
    }

    /// The entry at `index`, if there is one.
    pub fn entry(&self, index: usize) -> (r: Option<&ImageEntry>)
        ensures
            r is Some <==> index < self.view().len(),
            r matches Some(e) ==> self.view()[index as int] == (e.id, e.path@, e.thumbnail@),
    {
        if index < self.entries.len() {
            Some(&self.entries[index])
        } else {
            None
        }
    }
}

/// Whether some entry of `s` has handle `id`.
pub open spec fn contains_handle(s: Seq<EntryView>, id: EntryId) -> bool {
    exists|i: int| 0 <= i < s.len() && s[i].0 == id
}

/// Appends alone keep order: when every result of a batch decoded, the
/// entries taken into the list are exactly the batch's paths and
/// thumbnails, in order, and nothing is reported as failed.
pub proof fn lemma_appends_keep_order(results: Seq<ResultView>)
    requires
        forall|i: int| 0 <= i < results.len() ==> results[i].1 is Some,
    ensures
        successes(results) == results.map_values(|r: ResultView| (r.0, r.1->0)),
        failures(results) == Seq::<Seq<char>>::empty(),
    decreases results.len(),
{
    if results.len() > 0 {
        lemma_appends_keep_order(results.drop_last());
        assert(results.map_values(|r: ResultView| (r.0, r.1->0)) =~= results.drop_last().map_values(
            |r: ResultView| (r.0, r.1->0),
        ).push((results.last().0, results.last().1->0)));
        assert(failures(results) =~= Seq::<Seq<char>>::empty());
    }
}

/// A failed decode is isolated: when exactly the result at `k` failed, the
/// entries taken in are all the other results, in order, and the only path
/// reported is that of the failed one.
pub proof fn lemma_failure_isolated(results: Seq<ResultView>, k: int)
    requires
        0 <= k < results.len(),
        results[k].1 is None,
        forall|i: int| 0 <= i < results.len() && i != k ==> results[i].1 is Some,
    ensures
        successes(results) == results.remove(k).map_values(|r: ResultView| (r.0, r.1->0)),
        successes(results).len() == results.len() - 1,
        failures(results) == seq![results[k].0],
    decreases results.len(),
{
    if k == results.len() - 1 {
        let init = results.drop_last();
        lemma_appends_keep_order(init);
        assert(results.remove(k) =~= init);
        assert(failures(results) =~= seq![results[k].0]);
    } else {
        let init = results.drop_last();
        lemma_failure_isolated(init, k);
        assert(results.remove(k) =~= init.remove(k).push(results.last()));
        assert(results.remove(k).map_values(|r: ResultView| (r.0, r.1->0)) =~= init.remove(k).map_values(
            |r: ResultView| (r.0, r.1->0),
        ).push((results.last().0, results.last().1->0)));
        assert(failures(results) =~= failures(init));
    }
}

/// Moving an entry onto its own position changes nothing.
pub proof fn lemma_move_same_index_is_noop<T>(s: Seq<T>, i: int)
    ensures
        moved(s, i, i) == s,
{
}

} // verus!
