use vstd::prelude::*;

verus! {

/// `s` with every backslash replaced by a forward slash.
pub open spec fn slashed(s: Seq<char>) -> Seq<char> {
    s.map_values(|c: char| if c == '\\' { '/' } else { c })
}

/// Rewriting separators changes backslashes into forward slashes and leaves
/// every other character, and the length, as it was.
pub proof fn lemma_slashed_chars(s: Seq<char>)
    ensures
        slashed(s).len() == s.len(),
        forall|i: int| 0 <= i < s.len() ==> #[trigger] slashed(s)[i] == (if s[i] == '\\' { '/' } else { s[i] }),
{
}

/// `String::push`: the contract claims that afterwards the string holds its
/// former characters followed by `c`, as the documentation of `push` says.
#[verifier::external_body]
pub(crate) fn push_char(s: &mut String, c: char)
    ensures
        final(s)@ == old(s)@.push(c),
{
    s.push(c)
}

/// Rewrites a path's separators to forward slashes, as paths are shown to clients.
pub fn to_slash(s: &str) -> (r: String)
    ensures
        r@ == slashed(s@),
        r@.len() == s@.len(),
        forall|i: int| 0 <= i < s@.len() ==> #[trigger] r@[i] == (if s@[i] == '\\' { '/' } else { s@[i] }),
{
    let mut r = String::new();
    for c in it: s.chars()
        invariant
            r@ == slashed(it.seq().take(it.index() as int)),
    {
        if c == '\\' {
            push_char(&mut r, '/');
        } else {
            push_char(&mut r, c);
        }
    }
    r
}

} // verus!

verus! {

/// The characters of `s`, in order.
pub fn chars_of(s: &str) -> (r: Vec<char>)
    ensures
        r@ == s@,
{
    let mut r: Vec<char> = Vec::new();
    for c in it: s.chars()
        invariant
            r@ == it.seq().take(it.index() as int),
    {
        r.push(c);
        assert(r@ =~= it.seq().take(it.index() + 1));
    }
    r
}

/// Whether `s` spells exactly the characters of `expected`.
pub fn spells(s: &str, expected: &Vec<char>) -> (r: bool)
    ensures
        r == (s@ == expected@),
{
    let cs = chars_of(s);
    if cs.len() != expected.len() {
        return false;
    }
    let mut i: usize = 0;
    while i < cs.len()
        invariant
            cs@ == s@,
            cs.len() == expected.len(),
            i <= cs.len(),
            forall|k: int| 0 <= k < i ==> cs@[k] == expected@[k],
        decreases cs.len() - i,
    {
        if cs[i] != expected[i] {
            return false;
        }
        i = i + 1;
    }
    assert(cs@ =~= expected@);
    true
}

/// Whether `s` begins with the characters of `prefix`.
pub open spec fn has_prefix(s: Seq<char>, prefix: Seq<char>) -> bool {
    prefix.len() <= s.len() && s.take(prefix.len() as int) == prefix
}

/// The pattern that `LIKE` matches a search text against: the text anywhere
/// in a name, that is, the text between two `%` wildcards.
pub open spec fn like_pattern_of(q: Seq<char>) -> Seq<char> {
    seq!['%'] + q + seq!['%']
}

/// Builds the `LIKE` pattern for a search text, `%text%`.
pub fn like_pattern(q: &str) -> (r: String)
    ensures
        r@ == like_pattern_of(q@),
        r@.len() == q@.len() + 2,
        r@[0] == '%',
        r@.last() == '%',
        r@.subrange(1, r@.len() as int - 1) == q@,
{
    let mut r = String::new();
    push_char(&mut r, '%');
    r.append(q);
    push_char(&mut r, '%');
    assert(r@ =~= like_pattern_of(q@));
    proof { lemma_like_pattern_shape(q@); }
    r
}

/// A search pattern is the search text itself, unchanged, between a leading
/// and a trailing `%` wildcard.
pub proof fn lemma_like_pattern_shape(q: Seq<char>)
    ensures
        like_pattern_of(q).len() == q.len() + 2,
        like_pattern_of(q)[0] == '%',
        like_pattern_of(q).last() == '%',
        like_pattern_of(q).subrange(1, q.len() as int + 1) == q,
{
    assert(like_pattern_of(q).subrange(1, q.len() as int + 1) =~= q);
}

/// The last `.`-separated piece of a file name: what follows its last dot,
/// or the whole name where it has no dot.
pub open spec fn extension(name: Seq<char>) -> Seq<char>
    decreases name.len(),
{
    if name.len() == 0 {
        name
    } else if name.last() == '.' {
        Seq::empty()
    } else {
        extension(name.drop_last()).push(name.last())
    }
}

/// The last `.`-separated piece of a file name, as
/// `name.split('.').last()` gives it.
pub fn file_extension(name: &str) -> (r: String)
    ensures
        r@ == extension(name@),
        !r@.contains('.'),
        !name@.contains('.') ==> r@ == name@,
        name@.contains('.') ==> name@.len() > r@.len() && name@[name@.len() - r@.len() - 1] == '.'
            && name@.skip(name@.len() - r@.len()) == r@,
{
    let mut r = String::new();
    for c in it: name.chars()
        invariant
            it.seq() == name@,
            r@ == extension(it.seq().take(it.index() as int)),
    {
        let ghost seen = it.seq().take(it.index() as int);
        assert(it.seq().take(it.index() + 1).drop_last() =~= seen);
        if c == '.' {
            r = String::new();
        } else {
            push_char(&mut r, c);
        }
    }
    assert(name@.take(name@.len() as int) =~= name@);
    proof { lemma_extension_shape(name@); }
    r
}

/// A file's extension holds no dot; it is the whole name where the name has
/// no dot, and otherwise exactly what follows the name's last dot.
pub proof fn lemma_extension_shape(name: Seq<char>)
    ensures
        !extension(name).contains('.'),
        !name.contains('.') ==> extension(name) == name,
        name.contains('.') ==> name.len() > extension(name).len()
            && name[name.len() - extension(name).len() - 1] == '.'
            && name.skip(name.len() - extension(name).len()) == extension(name),
    decreases name.len(),
{
    if name.len() > 0 {
        let front = name.drop_last();
        lemma_extension_shape(front);
        let e = extension(name);
        let ef = extension(front);
        if name.last() == '.' {
            assert(name.contains('.')) by { assert(name[name.len() - 1] == '.'); }
            assert(name.skip(name.len() as int) =~= e);
        } else {
            assert(e == ef.push(name.last()));
            assert forall|k: int| 0 <= k < e.len() implies e[k] != '.' by {
                if k < ef.len() {
                    assert(e[k] == ef[k]);
                    if ef[k] == '.' { assert(ef.contains('.')); }
                }
            }
            if !name.contains('.') {
                assert forall|k: int| 0 <= k < front.len() implies front[k] != '.' by {
                    assert(name[k] == front[k]);
                    if front[k] == '.' { assert(name.contains('.')); }
                }
                assert(!front.contains('.'));
                assert(e =~= name);
            } else {
                if !front.contains('.') {
                    let k = choose|k: int| 0 <= k < name.len() && name[k] == '.';
                    if k < front.len() {
                        assert(front[k] == '.');
                        assert(front.contains('.'));
                    }
                    assert(false);
                }
                assert(name.skip(name.len() - e.len()) =~= front.skip(front.len() - ef.len()).push(name.last()));
                assert(name[name.len() - e.len() - 1] == front[front.len() - ef.len() - 1]);
            }
        }
    }
}

/// What `str::to_lowercase` makes of a string.
pub uninterp spec fn lowercase(s: Seq<char>) -> Seq<char>;

/// `str::to_lowercase`: the lowercase equivalent of `s` by the Unicode
/// `Lowercase` property. The contract names the result, `lowercase(s@)`, and
/// says no more of it: the Unicode case tables are not written out here.
#[verifier::external_body]
pub(crate) fn to_lowercase(s: &str) -> (r: String)
    ensures
        r@ == lowercase(s@),
{
    s.to_lowercase()
}

} // verus!
