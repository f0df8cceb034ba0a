use vstd::prelude::*;
use vstd::hash_set::StringHashSet;
use crate::text::{slashed, to_slash};

verus! {

broadcast use vstd::hash_set::group_hash_set_axioms;

/// A row of the `files` index: a file's name, its path relative to the data
/// folder with forward slashes, and 1 for a directory or 0 for a file.
pub struct IndexedFile {
    pub name: String,
    pub path: String,
    pub is_dir: i32,
}

/// The index row of a file found by the walk of the data folder.
pub fn indexed_file(name: String, relative: &str, is_dir: bool) -> (r: IndexedFile)
    ensures
        r.name@ == name@,
        r.path@ == slashed(relative@),
        r.path@.len() == relative@.len(),
        forall|i: int| 0 <= i < relative@.len() ==> #[trigger] r.path@[i]
            == (if relative@[i] == '\\' { '/' } else { relative@[i] }),
        r.is_dir == (if is_dir { 1i32 } else { 0i32 }),
{
    IndexedFile { name, path: to_slash(relative), is_dir: if is_dir { 1 } else { 0 } }
}

/// Pushing an element adds it to the set of a sequence's elements.
proof fn lemma_push_to_set(s: Seq<Seq<char>>, a: Seq<char>)
    ensures
        s.push(a).to_set() == s.to_set().insert(a),
{
    assert forall|x: Seq<char>| #[trigger] s.push(a).contains(x) <==> s.to_set().insert(a).contains(x) by {
        if s.push(a).contains(x) {
            let k = choose|k: int| 0 <= k < s.push(a).len() && s.push(a)[k] == x;
            if k < s.len() {
                assert(s[k] == x);
            }
        }
        if s.contains(x) {
            let k = choose|k: int| 0 <= k < s.len() && s[k] == x;
            assert(s.push(a)[k] == x);
        }
        if x == a {
            assert(s.push(a)[s.len() as int] == a);
        }
    }
    assert(s.push(a).to_set() =~= s.to_set().insert(a));
}

/// The paths that the index must forget after a walk: each path it held
/// before that the walk did not find again, once.
pub open spec fn stale_set(existing: Seq<Seq<char>>, walked: Seq<Seq<char>>) -> Set<Seq<char>> {
    existing.to_set().difference(walked.to_set())
}

/// The paths to delete from the index after a walk of the data folder: the
/// indexed paths (`existing`) that the walk did not find (`walked`), each once.
pub fn stale_paths(existing: &Vec<String>, walked: &Vec<String>) -> (r: Vec<String>)
    ensures
        r.deep_view().no_duplicates(),
        r.deep_view().to_set() == stale_set(existing.deep_view(), walked.deep_view()),
        forall|k: int| 0 <= k < r@.len() ==> existing.deep_view().contains(#[trigger] r.deep_view()[k])
            && !walked.deep_view().contains(r.deep_view()[k]),
        forall|p: Seq<char>| existing.deep_view().contains(p) && !walked.deep_view().contains(p)
            ==> #[trigger] r.deep_view().contains(p),
{
    let ghost w = walked.deep_view();
    let ghost e = existing.deep_view();
    let mut found = StringHashSet::new();
    let mut j: usize = 0;
    while j < walked.len()
        invariant
            w == walked.deep_view(),
            j <= walked@.len(),
            found@ == w.take(j as int).to_set(),
        decreases walked.len() - j,
    {
        found.insert(walked[j].clone());
        assert(w.take(j + 1) =~= w.take(j as int).push(w[j as int]));
        proof { lemma_push_to_set(w.take(j as int), w[j as int]); }
        assert(found@ =~= w.take(j + 1).to_set());
        j = j + 1;
    }
    assert(w.take(j as int) =~= w);
    let mut emitted = StringHashSet::new();
    let mut out: Vec<String> = Vec::new();
    let mut i: usize = 0;
    while i < existing.len()
        invariant
            e == existing.deep_view(),
            found@ == w.to_set(),
            i <= existing@.len(),
            emitted@ == out.deep_view().to_set(),
            out.deep_view().no_duplicates(),
            out.deep_view().to_set() == stale_set(e.take(i as int), w),
        decreases existing.len() - i,
    {
        let p = &existing[i];
        let ghost pv = p@;
        assert(e.take(i + 1) =~= e.take(i as int).push(pv));
        proof { lemma_push_to_set(e.take(i as int), pv); }
        if !found.contains(p.as_str()) && !emitted.contains(p.as_str()) {
            let ghost before = out.deep_view();
            out.push(p.clone());
            emitted.insert(p.clone());
            assert(out.deep_view() =~= before.push(pv));
            proof { lemma_push_to_set(before, pv); }
            assert(emitted@ =~= out.deep_view().to_set());
            assert(out.deep_view().to_set() =~= stale_set(e.take(i + 1), w));
        } else {
            assert(out.deep_view().to_set() =~= stale_set(e.take(i + 1), w));
        }
        i = i + 1;
    }
    assert(e.take(i as int) =~= e);
    proof {
        lemma_stale_set_members(e, w);
        let o = out.deep_view();
        assert forall|k: int| 0 <= k < out@.len() implies e.contains(#[trigger] o[k]) && !w.contains(o[k]) by {
            assert(o.to_set().contains(o[k]));
        }
        assert forall|p: Seq<char>| e.contains(p) && !w.contains(p) implies #[trigger] o.contains(p) by {
            assert(o.to_set().contains(p));
        }
    }
    out
}

/// A path is to be forgotten exactly when the index held it and the walk did
/// not find it: no path that the walk found is ever dropped, and every indexed
/// path that the walk missed is.
pub proof fn lemma_stale_set_members(existing: Seq<Seq<char>>, walked: Seq<Seq<char>>)
    ensures
        forall|p: Seq<char>| #[trigger] stale_set(existing, walked).contains(p)
            <==> (existing.contains(p) && !walked.contains(p)),
        forall|k: int| 0 <= k < walked.len() ==> !stale_set(existing, walked).contains(#[trigger] walked[k]),
{
    assert forall|k: int| 0 <= k < walked.len() implies !stale_set(existing, walked).contains(#[trigger] walked[k]) by {
        assert(walked.contains(walked[k]));
    }
}

} // verus!
