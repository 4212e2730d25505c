//! The index of cached notes (keyed by uuid) and the title a note gets
//! from its text.
use vstd::prelude::*;
use crate::text::{lines, trim, chars_of, lines_of, views, trim_chars, string_of, str_equal};

verus! {

/// What the index records about one cached note.
#[derive(Debug)]
pub struct NoteMeta {
    pub uuid: String,
    pub title: String,
    pub path: String,
    pub modified: u64,
}

impl Clone for NoteMeta {
    fn clone(&self) -> (r: Self)
        ensures
            r == *self,
    {
        NoteMeta {
            uuid: self.uuid.clone(),
            title: self.title.clone(),
            path: self.path.clone(),
            modified: self.modified,
        }
    }
}

/// The notes of a sequence keyed by uuid (a later entry wins).
pub open spec fn notes_map(s: Seq<NoteMeta>) -> Map<Seq<char>, NoteMeta>
    decreases s.len(),
{
    if s.len() == 0 {
        Map::empty()
    } else {
        notes_map(s.drop_last()).insert(s.last().uuid@, s.last())
    }
}

/// No uuid occurs twice.
pub open spec fn distinct_uuids(s: Seq<NoteMeta>) -> bool {
    forall|i: int, j: int| 0 <= i < j < s.len() ==> (#[trigger] s[i]).uuid@ != (#[trigger] s[j]).uuid@
}

/// Index of cached notes, keyed by uuid.
pub struct StateIndex {
    notes: Vec<NoteMeta>,
}

impl View for StateIndex {
    type V = Map<Seq<char>, NoteMeta>;

    closed spec fn view(&self) -> Map<Seq<char>, NoteMeta> {
        notes_map(self.notes@)
    }
}

proof fn lemma_notes_map(s: Seq<NoteMeta>)
    requires
        distinct_uuids(s),
    ensures
        forall|k: Seq<char>|
            #[trigger] notes_map(s).contains_key(k) <==> exists|j: int| 0 <= j < s.len() && (#[trigger] s[j]).uuid@ == k,
        forall|j: int| 0 <= j < s.len() ==> notes_map(s)[(#[trigger] s[j]).uuid@] == s[j],
        notes_map(s).dom().finite(),
        notes_map(s).dom().len() == s.len(),
    decreases s.len(),
{
    if s.len() > 0 {
        let t = s.drop_last();
        assert forall|i: int, j: int| 0 <= i < j < t.len() implies (#[trigger] t[i]).uuid@ != (#[trigger] t[j]).uuid@ by {
            assert(t[i] == s[i] && t[j] == s[j]);
        }
        lemma_notes_map(t);
        let last = s.last();
        assert(!notes_map(t).contains_key(last.uuid@)) by {
            if notes_map(t).contains_key(last.uuid@) {
                let j = choose|j: int| 0 <= j < t.len() && (#[trigger] t[j]).uuid@ == last.uuid@;
                assert(s[j] == t[j]);
                assert(s[j].uuid@ != s[s.len() - 1].uuid@);
            }
        }
        assert forall|k: Seq<char>|
            #[trigger] notes_map(s).contains_key(k) <==> exists|j: int| 0 <= j < s.len() && (#[trigger] s[j]).uuid@ == k by {
            if notes_map(t).contains_key(k) {
                let j = choose|j: int| 0 <= j < t.len() && (#[trigger] t[j]).uuid@ == k;
                assert(s[j] == t[j]);
            }
            if exists|j: int| 0 <= j < s.len() && (#[trigger] s[j]).uuid@ == k {
                let j = choose|j: int| 0 <= j < s.len() && (#[trigger] s[j]).uuid@ == k;
                if j < t.len() {
                    assert(t[j] == s[j]);
                }
            }
        }
        assert forall|j: int| 0 <= j < s.len() implies notes_map(s)[(#[trigger] s[j]).uuid@] == s[j] by {
            if j < t.len() {
                assert(t[j] == s[j]);
                assert(s[j].uuid@ != s[s.len() - 1].uuid@);
            }
        }
    }
}

impl StateIndex {
    /// The index is consistent: no uuid is recorded twice.
    pub closed spec fn wf(&self) -> bool {
        distinct_uuids(self.notes@)
    }

    /// A well-formed index holds finitely many notes, one per record.
    pub proof fn lemma_finite(&self)
        requires
            self.wf(),
        ensures
            self@.dom().finite(),
    {
        lemma_notes_map(self.notes@);
    }

    /// An empty index.
    pub fn new() -> (r: Self)
        ensures
            r.wf(),
            r@ == Map::<Seq<char>, NoteMeta>::empty(),
    {
        let r = StateIndex { notes: Vec::new() };
        assert(r.notes@ =~= Seq::<NoteMeta>::empty());
        r
    }

    /// Position of the note with this uuid.
    fn position(&self, uuid: &str) -> (r: Option<usize>)
        requires
            self.wf(),
        ensures
            match r {
                Some(i) => i < self.notes@.len() && self.notes@[i as int].uuid@ == uuid@,
                None => forall|j: int| 0 <= j < self.notes@.len() ==> (#[trigger] self.notes@[j]).uuid@ != uuid@,
            },
    {
        let mut i: usize = 0;
        while i < self.notes.len()
            invariant
                i <= self.notes@.len(),
                forall|j: int| 0 <= j < i ==> (#[trigger] self.notes@[j]).uuid@ != uuid@,
            decreases self.notes@.len() - i,
        {
            if str_equal(self.notes[i].uuid.as_str(), uuid) {
                return Some(i);
            }
            i += 1;
        }
        None
    }

    /// Records `meta` under its uuid, replacing any earlier record.
    pub fn upsert(&mut self, meta: NoteMeta)
        requires
            old(self).wf(),
        ensures
            final(self).wf(),
            final(self)@ == old(self)@.insert(meta.uuid@, meta),
            final(self)@.dom().finite(),
    {
        let ghost s = self.notes@;
        let ghost key = meta.uuid@;
        proof {
            lemma_notes_map(s);
        }
        match self.position(meta.uuid.as_str()) {
            Some(i) => {
                self.notes.set(i, meta);
                let ghost s2 = self.notes@;
                assert forall|a: int, b: int| 0 <= a < b < s2.len() implies (#[trigger] s2[a]).uuid@ != (#[trigger] s2[b]).uuid@ by {
                    if a != i && b != i {
                        assert(s[a] == s2[a] && s[b] == s2[b]);
                    } else if a == i {
                        assert(s[b] == s2[b]);
                    } else {
                        assert(s[a] == s2[a]);
                    }
                }
                proof {
                    lemma_notes_map(s2);
                    assert forall|k: Seq<char>| #[trigger] notes_map(s2).contains_key(k) <==> notes_map(s).insert(key, meta).contains_key(k) by {
                        if exists|j: int| 0 <= j < s2.len() && (#[trigger] s2[j]).uuid@ == k {
                            let j = choose|j: int| 0 <= j < s2.len() && (#[trigger] s2[j]).uuid@ == k;
                            if j != i {
                                assert(s[j] == s2[j]);
                            }
                        }
                        if exists|j: int| 0 <= j < s.len() && (#[trigger] s[j]).uuid@ == k {
                            let j = choose|j: int| 0 <= j < s.len() && (#[trigger] s[j]).uuid@ == k;
                            if j != i {
                                assert(s[j] == s2[j]);
                            } else {
                                assert(s2[j].uuid@ == k);
                            }
                        }
                        if k == key {
                            assert(s2[i as int].uuid@ == k);
                        }
                    }
                    assert forall|k: Seq<char>| #[trigger] notes_map(s2).contains_key(k) implies notes_map(s2)[k] == notes_map(s).insert(key, meta)[k] by {
                        let j = choose|j: int| 0 <= j < s2.len() && (#[trigger] s2[j]).uuid@ == k;
                        if j != i {
                            assert(s[j] == s2[j]);
                        }
                    }
                    assert(notes_map(s2) =~= notes_map(s).insert(key, meta));
                }
            },
            None => {
                self.notes.push(meta);
                let ghost s2 = self.notes@;
                assert(s2.drop_last() =~= s);
                assert forall|a: int, b: int| 0 <= a < b < s2.len() implies (#[trigger] s2[a]).uuid@ != (#[trigger] s2[b]).uuid@ by {
                    assert(s[a] == s2[a]);
                    if b < s.len() {
                        assert(s[b] == s2[b]);
                    }
                }
            },
        }
    }

    /// Forgets the note with this uuid, if recorded.
    pub fn remove(&mut self, uuid: &str)
        requires
            old(self).wf(),
        ensures
            final(self).wf(),
            final(self)@ == old(self)@.remove(uuid@),
    {
        let ghost s = self.notes@;
        proof {
            lemma_notes_map(s);
        }
        match self.position(uuid) {
            Some(i) => {
                self.notes.remove(i);
                let ghost s2 = self.notes@;
                assert(s2 =~= s.remove(i as int));
                assert forall|a: int, b: int| 0 <= a < b < s2.len() implies (#[trigger] s2[a]).uuid@ != (#[trigger] s2[b]).uuid@ by {
                    let a0 = if a < i { a } else { a + 1 };
                    let b0 = if b < i { b } else { b + 1 };
                    assert(s2[a] == s[a0] && s2[b] == s[b0]);
                }
                proof {
                    lemma_notes_map(s2);
                    assert forall|k: Seq<char>| #[trigger] notes_map(s2).contains_key(k) <==> notes_map(s).remove(uuid@).contains_key(k) by {
                        if exists|j: int| 0 <= j < s2.len() && (#[trigger] s2[j]).uuid@ == k {
                            let j = choose|j: int| 0 <= j < s2.len() && (#[trigger] s2[j]).uuid@ == k;
                            let j0 = if j < i { j } else { j + 1 };
                            assert(s2[j] == s[j0]);
                            assert(s[i as int].uuid@ != s[j0].uuid@);
                        }
                        if exists|j: int| 0 <= j < s.len() && (#[trigger] s[j]).uuid@ == k && k != uuid@ {
                            let j = choose|j: int| 0 <= j < s.len() && (#[trigger] s[j]).uuid@ == k && k != uuid@;
                            assert(j != i);
                            let j2 = if j < i { j } else { j - 1 };
                            assert(s2[j2] == s[j]);
                        }
                    }
                    assert forall|k: Seq<char>| #[trigger] notes_map(s2).contains_key(k) implies notes_map(s2)[k] == notes_map(s).remove(uuid@)[k] by {
                        let j = choose|j: int| 0 <= j < s2.len() && (#[trigger] s2[j]).uuid@ == k;
                        let j0 = if j < i { j } else { j + 1 };
                        assert(s2[j] == s[j0]);
                    }
                    assert(notes_map(s2) =~= notes_map(s).remove(uuid@));
                }
            },
            None => {
                assert(!notes_map(s).contains_key(uuid@));
                assert(notes_map(s) =~= notes_map(s).remove(uuid@));
            },
        }
    }

    /// Every recorded note, most recently modified first.
    pub fn list(&self) -> (r: Vec<&NoteMeta>)
        requires
            self.wf(),
        ensures
            r@.len() == self@.dom().len(),
            forall|k: int| 0 <= k < r@.len() ==> self@.contains_key((#[trigger] r@[k]).uuid@) && self@[r@[k].uuid@] == *r@[k],
            forall|key: Seq<char>| #[trigger] self@.contains_key(key) ==> exists|k: int| 0 <= k < r@.len() && (#[trigger] r@[k]).uuid@ == key,
            forall|a: int, b: int| 0 <= a < b < r@.len() ==> (#[trigger] r@[a]).modified >= (#[trigger] r@[b]).modified,
    {
        let ghost s = self.notes@;
        proof {
            lemma_notes_map(s);
        }
        let mut out: Vec<&NoteMeta> = Vec::new();
        let ghost mut perm: Seq<int> = Seq::empty();
        let mut i: usize = 0;
        while i < self.notes.len()
            invariant
                s == self.notes@,
                i <= s.len(),
                out@.len() == i,
                perm.len() == i,
                forall|k: int| 0 <= k < i ==> 0 <= #[trigger] perm[k] < i && *out@[k] == s[perm[k]],
                forall|k: int, l: int| 0 <= k < l < i ==> perm[k] != perm[l],
                forall|a: int, b: int| 0 <= a < b < out@.len() ==> (#[trigger] out@[a]).modified >= (#[trigger] out@[b]).modified,
            decreases s.len() - i,
        {
            let item = &self.notes[i];
            let mut p: usize = 0;
            while p < out.len() && out[p].modified >= item.modified
                invariant
                    p <= out@.len(),
                    forall|k: int| 0 <= k < p ==> (#[trigger] out@[k]).modified >= item.modified,
                decreases out@.len() - p,
            {
                p += 1;
            }
            let ghost before = out@;
            let ghost pb = perm;
            out.insert(p, item);
            proof {
                perm = pb.insert(p as int, i as int);
                assert forall|k: int| 0 <= k < i + 1 implies 0 <= #[trigger] perm[k] < i + 1 && *out@[k] == s[perm[k]] by {
                    if k < p {
                        assert(out@[k] == before[k] && perm[k] == pb[k]);
                    } else if k > p {
                        assert(out@[k] == before[k - 1] && perm[k] == pb[k - 1]);
                    }
                }
                assert forall|k: int, l: int| 0 <= k < l < i + 1 implies perm[k] != perm[l] by {
                    let k0 = if k < p { k } else { k - 1 };
                    let l0 = if l < p { l } else { l - 1 };
                    if k != p && l != p {
                        assert(perm[k] == pb[k0] && perm[l] == pb[l0]);
                    } else if k == p {
                        assert(perm[l] == pb[l0]);
                    } else {
                        assert(perm[k] == pb[k0]);
                    }
                }
                assert forall|a: int, b: int| 0 <= a < b < out@.len() implies (#[trigger] out@[a]).modified >= (#[trigger] out@[b]).modified by {
                    let a0 = if a < p { a } else { a - 1 };
                    let b0 = if b < p { b } else { b - 1 };
                    if a != p && b != p {
                        assert(out@[a] == before[a0] && out@[b] == before[b0]);
                    } else if a == p {
                        assert(out@[b] == before[b0]);
                        if b0 > p {
                            if p < before.len() {
                                assert(before[p as int].modified >= before[b0].modified);
                            }
                        }
                    } else {
                        assert(out@[a] == before[a0]);
                    }
                }
            }
            i += 1;
        }
        proof {
            let n = s.len() as int;
            assert forall|k: int| 0 <= k < out@.len() implies self@.contains_key((#[trigger] out@[k]).uuid@) && self@[out@[k].uuid@] == *out@[k] by {
                assert(s[perm[k]] == *out@[k]);
            }
            assert forall|key: Seq<char>| #[trigger] self@.contains_key(key) implies exists|k: int| 0 <= k < out@.len() && (#[trigger] out@[k]).uuid@ == key by {
                let j = choose|j: int| 0 <= j < s.len() && (#[trigger] s[j]).uuid@ == key;
                lemma_perm_covers(perm, n, j);
                let k = choose|k: int| 0 <= k < n && perm[k] == j;
                assert(out@[k].uuid@ == key);
            }
        }
        out
    }
}

/// A sequence of `n` distinct values in `0..n` contains each of them.
proof fn lemma_perm_covers(perm: Seq<int>, n: int, x: int)
    requires
        perm.len() == n,
        forall|k: int| 0 <= k < n ==> 0 <= #[trigger] perm[k] < n,
        forall|k: int, l: int| 0 <= k < l < n ==> perm[k] != perm[l],
        0 <= x < n,
    ensures
        exists|k: int| 0 <= k < n && perm[k] == x,
{
    assert(perm.no_duplicates()) by {
        assert forall|k: int, l: int| 0 <= k < perm.len() && 0 <= l < perm.len() && k != l implies perm[k] != perm[l] by {
            if k < l {
                assert(perm[k] != perm[l]);
            } else {
                assert(perm[l] != perm[k]);
            }
        }
    }
    perm.unique_seq_to_set();
    let m = perm.to_set();
    let full = vstd::set_lib::set_int_range(0, n);
    vstd::set_lib::lemma_int_range(0, n);
    assert forall|y: int| m.contains(y) implies full.contains(y) by {
        let k = choose|k: int| 0 <= k < perm.len() && perm[k] == y;
        assert(0 <= perm[k] < n);
    }
    vstd::seq_lib::seq_to_set_is_finite(perm);
    vstd::set_lib::lemma_subset_equality(m, full);
    assert(full.contains(x));
    assert(m.contains(x));
}

// ---------------------------------------------------------------------------
// Note titles
// ---------------------------------------------------------------------------

/// `s` without its leading `#` characters.
pub open spec fn strip_hashes(s: Seq<char>) -> Seq<char>
    decreases s.len(),
{
    if s.len() > 0 && s[0] == '#' {
        strip_hashes(s.drop_first())
    } else {
        s
    }
}

/// Title offered by the lines `ls`: the first non-blank line that is not
/// only `#` marks, trimmed, its heading marks removed, cut to 80 characters.
pub open spec fn title_of_lines(ls: Seq<Seq<char>>) -> Option<Seq<char>>
    decreases ls.len(),
{
    if ls.len() == 0 {
        None
    } else {
        let t = trim(ls[0]);
        let title = trim(strip_hashes(t));
        if t.len() > 0 && title.len() > 0 {
            Some(if title.len() <= 80 { title } else { title.take(80) })
        } else {
            title_of_lines(ls.drop_first())
        }
    }
}

/// Title of a note: see [`title_of_lines`]; `Untitled` when there is none.
pub open spec fn note_title(text: Seq<char>) -> Seq<char> {
    match title_of_lines(lines(text)) {
        Some(t) => t,
        None => "Untitled"@,
    }
}

/// Index just past the leading `#` characters of `s`.
fn skip_hashes(s: &[char]) -> (i: usize)
    ensures
        i <= s.len(),
        strip_hashes(s@) == s@.skip(i as int),
{
    let mut i: usize = 0;
    assert(s@.skip(0) =~= s@);
    while i < s.len() && s[i] == '#'
        invariant
            i <= s.len(),
            strip_hashes(s@) == strip_hashes(s@.skip(i as int)),
        decreases s.len() - i,
    {
        assert(s@.skip(i as int).drop_first() =~= s@.skip(i + 1));
        assert(s@.skip(i as int)[0] == s@[i as int]);
        i += 1;
    }
    if i < s.len() {
        assert(s@.skip(i as int)[0] == s@[i as int]);
    }
    i
}

/// The title a note gets from its text.
pub fn title_from_text(text: &str) -> (r: String)
    ensures
        r@ == note_title(text@),
{
    let cs = chars_of(text);
    let ls = lines_of(cs.as_slice());
    let ghost all = views(ls@);
    assert(all.skip(0) =~= all);
    let mut k: usize = 0;
    while k < ls.len()
        invariant
            k <= ls.len(),
            all == views(ls@),
            all == lines(text@),
            title_of_lines(all) == title_of_lines(all.skip(k as int)),
        decreases ls.len() - k,
    {
        assert(all.skip(k as int).drop_first() =~= all.skip(k + 1));
        assert(all.skip(k as int)[0] == ls@[k as int]@);
        let t = trim_chars(ls[k].as_slice());
        if t.len() > 0 {
            let h = skip_hashes(t.as_slice());
            let rest = crate::text::sub_chars(t.as_slice(), h, t.len());
            assert(rest@ =~= t@.skip(h as int));
            let title = trim_chars(rest.as_slice());
            if title.len() > 0 {
                let n: usize = if title.len() <= 80 { title.len() } else { 80 };
                let cut = crate::text::sub_chars(title.as_slice(), 0, n);
                assert(cut@ =~= if title@.len() <= 80 { title@ } else { title@.take(80) });
                return string_of(cut.as_slice());
            }
        }
        k += 1;
    }
    crate::text::string_from("Untitled")
}

proof fn lemma_title_of_lines_bounds(ls: Seq<Seq<char>>)
    ensures
        title_of_lines(ls) matches Some(t) ==> 0 < t.len() <= 80,
    decreases ls.len(),
{
    if ls.len() > 0 {
        lemma_title_of_lines_bounds(ls.drop_first());
    }
}

/// A note's title is never empty and never longer than 80 characters.
pub proof fn lemma_note_title_bounds(text: Seq<char>)
    ensures
        0 < note_title(text).len() <= 80,
{
    lemma_title_of_lines_bounds(lines(text));
    reveal_strlit("Untitled");
}

} // verus!
