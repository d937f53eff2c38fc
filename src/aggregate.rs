//! Aggregation of file contents into one byte buffer per submission, and the
//! suffix filter that decides which files take part.
use vstd::prelude::*;
use vstd::utf8::encode_utf8;

verus! {

/// `p` ends with the bytes `e`.
pub open spec fn ends_with(p: Seq<u8>, e: Seq<u8>) -> bool {
    e.len() <= p.len() && p.subrange(p.len() - e.len(), p.len() as int) == e
}

/// Some filter string of `exts` is a suffix of `path`: a plain suffix test
/// on the text of the path, so `"s"` matches any path ending in `s`.
pub open spec fn matches_any(path: Seq<char>, exts: Seq<String>) -> bool {
    exists|i: int| 0 <= i < exts.len() && ends_with(encode_utf8(path), encode_utf8(#[trigger] exts[i]@))
}

fn bytes_end_with(p: &[u8], e: &[u8]) -> (r: bool)
    ensures
        r == ends_with(p@, e@),
{
    if e.len() > p.len() {
        return false;
    }
    let off: usize = p.len() - e.len();
    let mut i: usize = 0;
    while i < e.len()
        invariant
            e@.len() <= p@.len(),
            off == p@.len() - e@.len(),
            off + e@.len() == p@.len(),
            p@.len() <= usize::MAX,
            i <= e@.len(),
            forall|k: int| 0 <= k < i ==> p@[off + k] == e@[k],
        decreases e@.len() - i,
    {
        if p[off + i] != e[i] {
            assert(p@.subrange(off as int, p@.len() as int)[i as int] != e@[i as int]);
            return false;
        }
        i = i + 1;
    }
    assert(p@.subrange(off as int, p@.len() as int) =~= e@);
    true
}

/// Decides whether the file at `path` takes part, given the optional suffix
/// filters.
pub fn include_path(path: &str, exts: &Option<Vec<String>>) -> (r: bool)
    ensures
        exts.is_none() ==> r,
        exts matches Some(v) ==> r == matches_any(path@, v@),
{
    match exts {
        None => true,
        Some(v) => {
            let pb = path.as_bytes();
            let mut i: usize = 0;
            while i < v.len()
                invariant
                    i <= v@.len(),
                    exts matches Some(w) && w@ == v@,
                    pb@ == encode_utf8(path@),
                    forall|k: int| 0 <= k < i ==> !ends_with(encode_utf8(path@), encode_utf8(#[trigger] v@[k]@)),
                decreases v@.len() - i,
            {
                let e = v[i].as_str().as_bytes();
                if bytes_end_with(pb, e) {
                    assert(ends_with(encode_utf8(path@), encode_utf8(v@[i as int]@)));
                    return true;
                }
                i = i + 1;
            }
            false
        },
    }
}

/// One submission: its identity (the directory holding its files) and the
/// concatenated bytes of its files.
pub struct Submission {
    pub id: String,
    pub content: Vec<u8>,
}

/// The submissions of one batch, in the order in which they were first seen.
pub struct Submissions {
    entries: Vec<Submission>,
}

/// Adds `data` to the submission `id` of `s`: appended to its content where
/// `id` is present, else a new submission at the end.
pub open spec fn add_content(s: Seq<(Seq<char>, Seq<u8>)>, id: Seq<char>, data: Seq<u8>) -> Seq<(Seq<char>, Seq<u8>)> {
    if exists|i: int| 0 <= i < s.len() && (#[trigger] s[i]).0 == id {
        let i = choose|i: int| 0 <= i < s.len() && (#[trigger] s[i]).0 == id;
        s.update(i, (id, s[i].1 + data))
    } else {
        s.push((id, data))
    }
}

impl View for Submissions {
    type V = Seq<(Seq<char>, Seq<u8>)>;

    closed spec fn view(&self) -> Seq<(Seq<char>, Seq<u8>)> {
        self.entries@.map_values(|e: Submission| (e.id@, e.content@))
    }
}

impl Submissions {
    /// Identities are distinct and no content is empty.
    pub open spec fn wf(&self) -> bool {
        &&& forall|i: int, j: int| 0 <= i < j < self@.len() ==> (#[trigger] self@[i]).0 != (#[trigger] self@[j]).0
        &&& forall|i: int| 0 <= i < self@.len() ==> (#[trigger] self@[i]).1.len() > 0
    }

    pub fn new() -> (r: Self)
        ensures
            r@ == Seq::<(Seq<char>, Seq<u8>)>::empty(),
            r.wf(),
    {
        let r = Submissions { entries: Vec::new() };
        assert(r@ =~= Seq::<(Seq<char>, Seq<u8>)>::empty());
        r
    }

    /// Adds the bytes of one file whose parent directory is `dir`. An empty
    /// file is skipped and `false` returned; otherwise its bytes are appended
    /// to the submission `dir`, which is created where it is new.
    pub fn add_file(&mut self, dir: String, bytes: Vec<u8>) -> (added: bool)
        requires
            old(self).wf(),
        ensures
            final(self).wf(),
            added == (bytes@.len() > 0),
            !added ==> final(self)@ == old(self)@,
            added ==> final(self)@ == add_content(old(self)@, dir@, bytes@),
    {
        let mut data = bytes;
        if data.len() == 0 {
            return false;
        }
        let ghost s = self@;
        let ghost es = self.entries@;
        let ghost d = data@;
        let mut i: usize = 0;
        while i < self.entries.len()
            invariant
                self@ == s,
                self.entries@ == es,
                s == old(self)@,
                data@ == d,
                d == bytes@,
                d.len() > 0,
                self.wf(),
                i <= s.len(),
                forall|k: int| 0 <= k < i ==> (#[trigger] s[k]).0 != dir@,
            decreases s.len() - i,
        {
            assert(s[i as int] == (self.entries@[i as int].id@, self.entries@[i as int].content@));
            if self.entries[i].id == dir {
                self.entries[i].content.append(&mut data);
                proof {
                    assert(s[i as int].0 == dir@);
                    let j = choose|j: int| 0 <= j < s.len() && (#[trigger] s[j]).0 == dir@;
                    assert(j == i);
                    let u = s.update(i as int, (dir@, s[i as int].1 + d));
                    assert forall|k: int| 0 <= k < s.len() implies #[trigger] self@[k] == u[k] by {
                        assert(self@[k] == (self.entries@[k].id@, self.entries@[k].content@));
                        assert(s[k] == (es[k].id@, es[k].content@));
                        if k != i {
                            assert(self.entries@[k] == es[k]);
                        }
                    }
                    assert(self@ =~= u);
                    assert(add_content(s, dir@, d) == u);
                }
                return true;
            }
            i = i + 1;
        }
        self.entries.push(Submission { id: dir, content: data });
        let ghost u = s.push((dir@, d));
        assert forall|k: int| 0 <= k < u.len() implies #[trigger] self@[k] == u[k] by {
            assert(self@[k] == (self.entries@[k].id@, self.entries@[k].content@));
            if k < s.len() {
                assert(s[k] == (es[k].id@, es[k].content@));
                assert(self.entries@[k] == es[k]);
            }
        }
        assert(self@ =~= u);
        true
    }

    pub fn is_empty(&self) -> (r: bool)
        ensures
            r == (self@.len() == 0),
    {
        self.entries.len() == 0
    }

    pub fn len(&self) -> (r: usize)
        ensures
            r == self@.len(),
    {
        self.entries.len()
    }

    /// The submission at position `i`.
    pub fn get(&self, i: usize) -> (r: &Submission)
        requires
            i < self@.len(),
        ensures
            (r.id@, r.content@) == self@[i as int],
    {
        &self.entries[i]
    }
}

} // verus!
