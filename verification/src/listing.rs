use vstd::prelude::*;
use vstd::utf8::encode_utf8;
use crate::text::{chars_of, file_extension, has_prefix, extension, lowercase, push_char, spells, to_lowercase};

verus! {

/// One entry of a directory listing, as clients see it.
pub struct FileItem {
    pub name: String,
    pub is_dir: bool,
    pub path: String,
}

/// A directory entry as read from disk: its name and whether it is a directory.
pub struct DirEntry {
    pub name: String,
    pub is_dir: bool,
}

/// At most this many entries more than one are listed for a directory.
pub const LISTING_LIMIT: usize = 1000;

/// How many entries a listing of `n` entries keeps: the listing stops once it
/// holds more than `LISTING_LIMIT`, so at most `LISTING_LIMIT + 1`.
pub open spec fn listing_len(n: nat) -> nat {
    if n > LISTING_LIMIT + 1 { (LISTING_LIMIT + 1) as nat } else { n }
}

/// Cuts a directory listing as the listing loop does: it adds entries while
/// it holds no more than `LISTING_LIMIT`, so the first `LISTING_LIMIT + 1` stay.
pub fn limit_listing(items: Vec<FileItem>) -> (r: Vec<FileItem>)
    ensures
        r@ == items@.take(listing_len(items@.len()) as int),
        items@.len() <= LISTING_LIMIT + 1 ==> r@ == items@,
        items@.len() > LISTING_LIMIT + 1 ==> r@.len() == LISTING_LIMIT + 1
            && forall|k: int| 0 <= k < r@.len() ==> #[trigger] r@[k] == items@[k],
{
    let ghost all = items@;
    let mut kept = items;
    if kept.len() > LISTING_LIMIT + 1 {
        kept.truncate(LISTING_LIMIT + 1);
    }
    assert(kept@ =~= all.take(listing_len(all.len()) as int));
    proof {
        lemma_listing_len(all.len());
        if all.len() <= LISTING_LIMIT + 1 {
            assert(kept@ =~= all);
        }
    }
    kept
}

} // verus!

verus! {

/// A listing is cut only when it is longer than `LISTING_LIMIT + 1`, and then
/// to exactly `LISTING_LIMIT + 1` entries; shorter listings are kept whole.
pub proof fn lemma_listing_len(n: nat)
    ensures
        n <= LISTING_LIMIT + 1 ==> listing_len(n) == n,
        n > LISTING_LIMIT + 1 ==> listing_len(n) == LISTING_LIMIT + 1,
        listing_len(n) <= n,
{
}

/// The prefix that marks a school's folder: `School_`.
pub open spec fn school_prefix() -> Seq<char> {
    seq!['S', 'c', 'h', 'o', 'o', 'l', '_']
}

/// Whether a directory entry is a school folder: a directory whose name
/// starts with `School_`.
pub open spec fn is_school_dir(name: Seq<char>, is_dir: bool) -> bool {
    is_dir && has_prefix(name, school_prefix())
}

/// The schools that a listing of the year folder shows, in listing order:
/// the name of each school folder without its `School_` prefix.
pub open spec fn listed_schools(entries: Seq<DirEntry>) -> Seq<Seq<char>>
    decreases entries.len(),
{
    if entries.len() == 0 {
        Seq::empty()
    } else {
        let rest = listed_schools(entries.drop_last());
        let e = entries.last();
        if is_school_dir(e.name@, e.is_dir) {
            rest.push(e.name@.skip(7))
        } else {
            rest
        }
    }
}

/// The string made of `cs` from position `from` on.
fn string_from(cs: &Vec<char>, from: usize) -> (r: String)
    requires
        from <= cs@.len(),
    ensures
        r@ == cs@.skip(from as int),
{
    let mut r = String::new();
    let mut i = from;
    while i < cs.len()
        invariant
            from <= i <= cs@.len(),
            r@ == cs@.subrange(from as int, i as int),
        decreases cs.len() - i,
    {
        push_char(&mut r, cs[i]);
        i = i + 1;
        assert(r@ =~= cs@.subrange(from as int, i as int));
    }
    assert(cs@.subrange(from as int, i as int) =~= cs@.skip(from as int));
    r
}

/// Whether `cs` begins with the characters of `prefix`.
fn begins_with(cs: &Vec<char>, prefix: &Vec<char>) -> (r: bool)
    ensures
        r == has_prefix(cs@, prefix@),
{
    if prefix.len() > cs.len() {
        return false;
    }
    let mut i: usize = 0;
    while i < prefix.len()
        invariant
            prefix@.len() <= cs@.len(),
            i <= prefix@.len(),
            forall|k: int| 0 <= k < i ==> cs@[k] == prefix@[k],
        decreases prefix.len() - i,
    {
        if cs[i] != prefix[i] {
            assert(cs@.take(prefix@.len() as int)[i as int] != prefix@[i as int]);
            return false;
        }
        i = i + 1;
    }
    assert(cs@.take(prefix@.len() as int) =~= prefix@);
    true
}

/// The school that a directory entry is the folder of: its name without the
/// `School_` prefix, or `None` where the entry is not a school folder.
pub fn school_of_entry(entry: &DirEntry) -> (r: Option<String>)
    ensures
        r is Some <==> is_school_dir(entry.name@, entry.is_dir),
        r matches Some(school) ==> school@ == entry.name@.skip(7),
{
    if !entry.is_dir {
        return None;
    }
    let cs = chars_of(entry.name.as_str());
    let prefix = vec!['S', 'c', 'h', 'o', 'o', 'l', '_'];
    assert(prefix@ =~= school_prefix());
    if begins_with(&cs, &prefix) {
        Some(string_from(&cs, 7))
    } else {
        None
    }
}

/// The folder that holds a school's files: `School_` followed by the school.
pub fn school_folder(school: &str) -> (r: String)
    ensures
        r@ == school_prefix() + school@,
{
    let mut r = String::new();
    push_char(&mut r, 'S');
    push_char(&mut r, 'c');
    push_char(&mut r, 'h');
    push_char(&mut r, 'o');
    push_char(&mut r, 'o');
    push_char(&mut r, 'l');
    push_char(&mut r, '_');
    r.append(school);
    assert(r@ =~= school_prefix() + school@);
    r
}

/// How many school folders a listing of the year folder holds.
pub fn count_school_dirs(entries: &Vec<DirEntry>) -> (r: usize)
    ensures
        r == listed_schools(entries@).len(),
        r == entries@.filter(|e: DirEntry| is_school_dir(e.name@, e.is_dir)).len(),
{
    let mut count: usize = 0;
    let mut i: usize = 0;
    while i < entries.len()
        invariant
            i <= entries@.len(),
            count == listed_schools(entries@.take(i as int)).len(),
            count <= i,
        decreases entries.len() - i,
    {
        assert(entries@.take(i + 1).drop_last() =~= entries@.take(i as int));
        let school = school_of_entry(&entries[i]);
        if school.is_some() {
            count = count + 1;
        }
        i = i + 1;
    }
    assert(entries@.take(i as int) =~= entries@);
    proof { lemma_listed_schools_members(entries@); }
    count
}

} // verus!

verus! {

/// Byte-wise lexicographic order: `a` is a prefix of `b`, or at the first
/// byte where they differ `a`'s is the smaller.
pub open spec fn bytes_le(a: Seq<u8>, b: Seq<u8>) -> bool
    decreases a.len(),
{
    if a.len() == 0 {
        true
    } else if b.len() == 0 {
        false
    } else if a[0] != b[0] {
        a[0] < b[0]
    } else {
        bytes_le(a.drop_first(), b.drop_first())
    }
}

/// The order of `Ord for String`: by the strings' UTF-8 bytes, lexicographically.
pub open spec fn text_le(a: Seq<char>, b: Seq<char>) -> bool {
    bytes_le(encode_utf8(a), encode_utf8(b))
}

/// Whether a sequence of strings is in `text_le` order.
pub open spec fn sorted_texts(s: Seq<Seq<char>>) -> bool {
    forall|i: int, j: int| 0 <= i < j < s.len() ==> text_le(#[trigger] s[i], #[trigger] s[j])
}

/// `<[String]>::sort`: puts the strings in ascending order of `Ord for String`,
/// which compares strings lexicographically by their bytes. The sort only
/// reorders: the same strings come out, each as often as it went in.
#[verifier::external_body]
fn sort_strings(v: &mut Vec<String>)
    ensures
        final(v).deep_view().to_multiset() == old(v).deep_view().to_multiset(),
        sorted_texts(final(v).deep_view()),
{
    v.sort()
}

/// The schools of a listing of the year folder, in ascending order: each
/// school folder's name without its `School_` prefix.
pub fn school_names(entries: &Vec<DirEntry>) -> (r: Vec<String>)
    ensures
        r.deep_view().to_multiset() == listed_schools(entries@).to_multiset(),
        sorted_texts(r.deep_view()),
        r@.len() == entries@.filter(|e: DirEntry| is_school_dir(e.name@, e.is_dir)).len(),
        forall|i: int| 0 <= i < entries@.len() && is_school_dir(entries@[i].name@, entries@[i].is_dir)
            ==> r.deep_view().contains(#[trigger] entries@[i].name@.skip(7)),
        forall|k: int| 0 <= k < r@.len() ==> school_folder_names(entries@).contains(#[trigger] r.deep_view()[k]),
{
    let mut names: Vec<String> = Vec::new();
    let mut i: usize = 0;
    while i < entries.len()
        invariant
            i <= entries@.len(),
            names.deep_view() == listed_schools(entries@.take(i as int)),
        decreases entries.len() - i,
    {
        assert(entries@.take(i + 1).drop_last() =~= entries@.take(i as int));
        let school = school_of_entry(&entries[i]);
        match school {
            Some(s) => {
                names.push(s);
                assert(names.deep_view() =~= listed_schools(entries@.take(i + 1)));
            },
            None => {},
        }
        i = i + 1;
    }
    assert(entries@.take(i as int) =~= entries@);
    sort_strings(&mut names);
    proof {
        let l = listed_schools(entries@);
        let d = names.deep_view();
        lemma_listed_schools_members(entries@);
        l.to_multiset_ensures();
        d.to_multiset_ensures();
        assert forall|i: int| 0 <= i < entries@.len() && is_school_dir(entries@[i].name@, entries@[i].is_dir)
            implies d.contains(#[trigger] entries@[i].name@.skip(7)) by {
            assert(l.contains(entries@[i].name@.skip(7)));
            assert(l.to_multiset().count(entries@[i].name@.skip(7)) > 0);
        }
        assert forall|k: int| 0 <= k < names@.len() implies school_folder_names(entries@).contains(#[trigger] d[k]) by {
            assert(d.contains(d[k]));
            assert(l.to_multiset().count(d[k]) > 0);
            assert(l.contains(d[k]));
            let m = choose|m: int| 0 <= m < l.len() && l[m] == d[k];
            assert(l[m] == d[k]);
            assert(school_folder_names(entries@).contains(l[m]));
        }
    }
    names
}

/// Whether entry `i` of a listing is a school folder whose name, without the
/// `School_` prefix, is `school`.
pub open spec fn school_folder_at(entries: Seq<DirEntry>, i: int, school: Seq<char>) -> bool {
    0 <= i < entries.len() && is_school_dir(entries[i].name@, entries[i].is_dir)
        && school == entries[i].name@.skip(7)
}

/// The names of a listing's school folders, each without its `School_` prefix.
pub open spec fn school_folder_names(entries: Seq<DirEntry>) -> Set<Seq<char>> {
    Set::new(|school: Seq<char>| exists|i: int| school_folder_at(entries, i, school))
}

/// The schools listed are exactly the school folders of the listing: every
/// directory named `School_...` gives its name without the prefix, every
/// listed school comes from such a directory, and there is one per folder.
pub proof fn lemma_listed_schools_members(entries: Seq<DirEntry>)
    ensures
        listed_schools(entries).len() == entries.filter(|e: DirEntry| is_school_dir(e.name@, e.is_dir)).len(),
        forall|i: int| 0 <= i < entries.len() && is_school_dir(entries[i].name@, entries[i].is_dir)
            ==> listed_schools(entries).contains(#[trigger] entries[i].name@.skip(7)),
        forall|k: int| 0 <= k < listed_schools(entries).len()
            ==> school_folder_names(entries).contains(#[trigger] listed_schools(entries)[k]),
    decreases entries.len(),
{
    reveal(Seq::filter);
    if entries.len() > 0 {
        let front = entries.drop_last();
        let e = entries.last();
        lemma_listed_schools_members(front);
        let l = listed_schools(entries);
        let lf = listed_schools(front);
        assert(entries.filter(|e: DirEntry| is_school_dir(e.name@, e.is_dir)) == {
            let sub = front.filter(|e: DirEntry| is_school_dir(e.name@, e.is_dir));
            if is_school_dir(e.name@, e.is_dir) { sub.push(e) } else { sub }
        });
        assert forall|i: int| 0 <= i < entries.len() && is_school_dir(entries[i].name@, entries[i].is_dir)
            implies l.contains(#[trigger] entries[i].name@.skip(7)) by {
            if i == entries.len() - 1 {
                assert(l[l.len() - 1] == e.name@.skip(7));
            } else {
                assert(front[i] == entries[i]);
                assert(lf.contains(front[i].name@.skip(7)));
                let m = choose|m: int| 0 <= m < lf.len() && lf[m] == front[i].name@.skip(7);
                assert(l[m] == lf[m]);
            }
        }
        assert forall|k: int| 0 <= k < l.len() implies school_folder_names(entries).contains(#[trigger] l[k]) by {
            if k < lf.len() {
                assert(l[k] == lf[k]);
                assert(school_folder_names(front).contains(lf[k]));
                let i = choose|i: int| school_folder_at(front, i, lf[k]);
                assert(entries[i] == front[i]);
                assert(school_folder_at(entries, i, l[k]));
            } else {
                assert(is_school_dir(e.name@, e.is_dir));
                assert(l[k] == e.name@.skip(7));
                assert(entries[entries.len() - 1] == e);
                assert(school_folder_at(entries, entries.len() - 1, l[k]));
            }
        }
    }
}

/// The number of schools on the summary is the number of schools listed:
/// both count the school folders of the same listing.
pub proof fn lemma_summary_counts_listed_schools(entries: Seq<DirEntry>, listed: Seq<Seq<char>>)
    requires
        listed.to_multiset() == listed_schools(entries).to_multiset(),
    ensures
        listed.len() == listed_schools(entries).len(),
{
    vstd::seq_lib::to_multiset_len(listed);
    vstd::seq_lib::to_multiset_len(listed_schools(entries));
}

} // verus!

verus! {

/// The extensions that mark a file as an image, in lowercase.
pub open spec fn image_extensions() -> Seq<Seq<char>> {
    seq![
        seq!['j', 'p', 'g'],
        seq!['j', 'p', 'e', 'g'],
        seq!['p', 'n', 'g'],
        seq!['g', 'i', 'f'],
        seq!['w', 'e', 'b', 'p'],
    ]
}

/// Whether an already lowercased extension is one of the image extensions.
pub fn is_image_extension(lowered: &str) -> (r: bool)
    ensures
        r == image_extensions().contains(lowered@),
{
    let jpg = vec!['j', 'p', 'g'];
    let jpeg = vec!['j', 'p', 'e', 'g'];
    let png = vec!['p', 'n', 'g'];
    let gif = vec!['g', 'i', 'f'];
    let webp = vec!['w', 'e', 'b', 'p'];
    let r = spells(lowered, &jpg) || spells(lowered, &jpeg) || spells(lowered, &png)
        || spells(lowered, &gif) || spells(lowered, &webp);
    proof {
        let exts = image_extensions();
        assert(exts[0] == jpg@ && exts[1] == jpeg@ && exts[2] == png@ && exts[3] == gif@
            && exts[4] == webp@);
        if exts.contains(lowered@) {
            let k = choose|k: int| 0 <= k < exts.len() && exts[k] == lowered@;
            assert(r);
        }
        if r {
            if lowered@ == jpg@ { assert(exts[0] == lowered@); }
            else if lowered@ == jpeg@ { assert(exts[1] == lowered@); }
            else if lowered@ == png@ { assert(exts[2] == lowered@); }
            else if lowered@ == gif@ { assert(exts[3] == lowered@); }
            else { assert(exts[4] == lowered@); }
        }
    }
    r
}

/// Whether a file counts as an image: the last `.`-separated piece of its
/// name, lowercased, is one of the image extensions.
pub open spec fn is_image_name(name: Seq<char>) -> bool {
    image_extensions().contains(lowercase(extension(name)))
}

/// Whether a file counts as an image, judged by its name.
pub fn is_image_file(name: &str) -> (r: bool)
    ensures
        r == is_image_name(name@),
{
    let ext = file_extension(name);
    let lowered = to_lowercase(ext.as_str());
    is_image_extension(lowered.as_str())
}

/// The image files among the entries of a school's image folder, in order.
pub open spec fn images_of(items: Seq<FileItem>) -> Seq<FileItem>
    decreases items.len(),
{
    if items.len() == 0 {
        Seq::empty()
    } else if is_image_name(items.last().name@) {
        images_of(items.drop_last()).push(items.last())
    } else {
        images_of(items.drop_last())
    }
}

/// Keeps the image files of a school's image folder, in order.
pub fn image_files(items: Vec<FileItem>) -> (r: Vec<FileItem>)
    ensures
        r@ == images_of(items@),
        r@ == items@.filter(|f: FileItem| is_image_name(f.name@)),
{
    let ghost all = items@;
    let mut kept: Vec<FileItem> = Vec::new();
    for item in it: items
        invariant
            it.seq() == all,
            kept@ == images_of(it.seq().take(it.index() as int)),
    {
        let ghost seen = it.seq().take(it.index() as int);
        assert(it.seq().take(it.index() + 1).drop_last() =~= seen);
        if is_image_file(item.name.as_str()) {
            kept.push(item);
        }
    }
    assert(all.take(all.len() as int) =~= all);
    proof { lemma_images_are_filter(all); }
    kept
}

/// The images of a folder are its entries whose names mark them as images,
/// all of them and in their order: the folder filtered by `is_image_name`.
pub proof fn lemma_images_are_filter(items: Seq<FileItem>)
    ensures
        images_of(items) == items.filter(|f: FileItem| is_image_name(f.name@)),
    decreases items.len(),
{
    reveal(Seq::filter);
    if items.len() > 0 {
        lemma_images_are_filter(items.drop_last());
    }
}

/// A school's folder name lists back as that school.
pub proof fn lemma_school_folder_lists_back(school: Seq<char>)
    ensures
        is_school_dir(school_prefix() + school, true),
        (school_prefix() + school).skip(7) == school,
{
    assert((school_prefix() + school).take(7) =~= school_prefix());
    assert((school_prefix() + school).skip(7) =~= school);
}

} // verus!

verus! {

/// Whether the path with components `target` lies inside the path with
/// components `base`: `base`'s components are the first of `target`'s.
pub open spec fn within(base: Seq<Seq<char>>, target: Seq<Seq<char>>) -> bool {
    base.len() <= target.len() && target.take(base.len() as int) == base
}

/// Decides whether a requested folder lies inside the data folder, comparing
/// whole path components as `Path::starts_with` does.
pub fn within_base(base: &Vec<String>, target: &Vec<String>) -> (r: bool)
    ensures
        r == within(base.deep_view(), target.deep_view()),
        r == (base@.len() <= target@.len() && forall|k: int| 0 <= k < base@.len() ==> #[trigger] base@[k]@ == target@[k]@),
{
    if base.len() > target.len() {
        return false;
    }
    let mut i: usize = 0;
    while i < base.len()
        invariant
            base@.len() <= target@.len(),
            i <= base@.len(),
            forall|k: int| 0 <= k < i ==> base@[k]@ == target@[k]@,
        decreases base.len() - i,
    {
        if base[i] != target[i] {
            assert(target.deep_view().take(base@.len() as int)[i as int] != base.deep_view()[i as int]);
            return false;
        }
        i = i + 1;
    }
    assert(target.deep_view().take(base@.len() as int) =~= base.deep_view());
    true
}

/// A folder lies inside the data folder exactly when the data folder's
/// components are, one by one, the first components of the folder's path.
pub proof fn lemma_within_componentwise(base: Seq<Seq<char>>, target: Seq<Seq<char>>)
    ensures
        within(base, target) == (base.len() <= target.len()
            && forall|k: int| 0 <= k < base.len() ==> #[trigger] base[k] == target[k]),
{
    if base.len() <= target.len() && forall|k: int| 0 <= k < base.len() ==> #[trigger] base[k] == target[k] {
        assert(target.take(base.len() as int) =~= base);
    }
    if within(base, target) {
        assert forall|k: int| 0 <= k < base.len() implies #[trigger] base[k] == target[k] by {
            assert(target.take(base.len() as int)[k] == target[k]);
        }
    }
}

} // verus!
