//! Which paths name an image file: the file name's extension, compared
//! without regard to ASCII case against a fixed list.
use vstd::prelude::*;

verus! {

/// The part of `p` after its last `/` (all of `p` when it has none).
pub open spec fn file_name(p: Seq<char>) -> Seq<char>
    decreases p.len(),
{
    if p.len() == 0 {
        p
    } else if p.last() == '/' {
        Seq::empty()
    } else {
        file_name(p.drop_last()).push(p.last())
    }
}

/// Index of the last `.` in `name`, or -1 when there is none.
pub open spec fn last_dot(name: Seq<char>) -> int
    decreases name.len(),
{
    if name.len() == 0 {
        -1
    } else if name.last() == '.' {
        name.len() - 1
    } else {
        last_dot(name.drop_last())
    }
}

/// The extension of a path: what follows the last `.` of its file name. A
/// name without a dot, or whose only dot leads it (`.profile`), has none.
/// This is what std's `Path::extension` gives for every path that does not
/// end in `/` or in a `.` or `..` component, which covers every entry that a
/// directory listing yields.
pub open spec fn extension_of(p: Seq<char>) -> Option<Seq<char>> {
    let name = file_name(p);
    let k = last_dot(name);
    if k <= 0 {
        None
    } else {
        Some(name.subrange(k + 1, name.len() as int))
    }
}

/// `c` equals the lower-case letter or digit `l`, up to ASCII case.
pub open spec fn char_matches_lower(c: char, l: char) -> bool {
    c == l || ('a' <= l <= 'z' && c as u32 + 32 == l as u32)
}

/// `s` spells the lower-case word `w`, up to ASCII case.
pub open spec fn matches_lower(s: Seq<char>, w: Seq<char>) -> bool {
    &&& s.len() == w.len()
    &&& forall|i: int| 0 <= i < s.len() ==> char_matches_lower(#[trigger] s[i], w[i])
}

/// The image extensions that are watched for, in lower case.
pub open spec fn supported_extensions() -> Seq<Seq<char>> {
    seq![
        seq!['j', 'p', 'g'],
        seq!['j', 'p', 'e', 'g'],
        seq!['p', 'n', 'g'],
        seq!['g', 'i', 'f'],
        seq!['b', 'm', 'p'],
        seq!['t', 'i', 'f', 'f'],
        seq!['t', 'i', 'f'],
        seq!['w', 'e', 'b', 'p'],
        seq!['i', 'c', 'o'],
        seq!['s', 'v', 'g'],
    ]
}

pub open spec fn is_supported_extension(e: Seq<char>) -> bool {
    exists|i: int| 0 <= i < supported_extensions().len() && matches_lower(e, #[trigger] supported_extensions()[i])
}

/// A path names an image when it has an extension from the supported list.
pub open spec fn is_image_path(p: Seq<char>) -> bool {
    match extension_of(p) {
        Some(e) => is_supported_extension(e),
        None => false,
    }
}

proof fn lemma_file_name(p: Seq<char>, i: int)
    requires
        0 <= i <= p.len(),
        forall|j: int| i <= j < p.len() ==> p[j] != '/',
        i == 0 || p[i - 1] == '/',
    ensures
        file_name(p) == p.subrange(i, p.len() as int),
    decreases p.len(),
{
    if p.len() == i {
        assert(p.subrange(i, i) =~= Seq::<char>::empty());
    } else {
        lemma_file_name(p.drop_last(), i);
        assert(p.subrange(i, p.len() as int) =~= p.drop_last().subrange(i, p.len() - 1).push(
            p.last(),
        ));
    }
}

proof fn lemma_last_dot(n: Seq<char>, k: int)
    requires
        -1 <= k < n.len(),
        k >= 0 ==> n[k] == '.',
        forall|j: int| k < j < n.len() ==> n[j] != '.',
    ensures
        last_dot(n) == k,
    decreases n.len(),
{
    if n.len() > 0 && n.last() != '.' {
        lemma_last_dot(n.drop_last(), k);
    }
}

fn char_matches(c: char, l: char) -> (r: bool)
    ensures
        r == char_matches_lower(c, l),
{
    c == l || ('a' <= l && l <= 'z' && c as u32 == l as u32 - 32)
}

/// Whether `v[start..]` spells `w` up to ASCII case.
fn tail_matches(v: &Vec<char>, start: usize, w: &Vec<char>) -> (r: bool)
    requires
        start <= v.len(),
    ensures
        r == matches_lower(v@.subrange(start as int, v.len() as int), w@),
{
    if v.len() - start != w.len() {
        return false;
    }
    let mut i: usize = 0;
    while i < w.len()
        invariant
            v.len() - start == w.len(),
            start <= v.len(),
            i <= w.len(),
            forall|j: int| 0 <= j < i ==> char_matches_lower(v@[start + j], w@[j]),
        decreases w.len() - i,
    {
        if !char_matches(v[start + i], w[i]) {
            assert(v@.subrange(start as int, v.len() as int)[i as int] == v@[start + i]);
            return false;
        }
        i = i + 1;
    }
    true
}

fn supported_list() -> (r: Vec<Vec<char>>)
    ensures
        r@.len() == supported_extensions().len(),
        forall|i: int| 0 <= i < r@.len() ==> r@[i]@ == supported_extensions()[i],
{
    let r = vec![
        vec!['j', 'p', 'g'],
        vec!['j', 'p', 'e', 'g'],
        vec!['p', 'n', 'g'],
        vec!['g', 'i', 'f'],
        vec!['b', 'm', 'p'],
        vec!['t', 'i', 'f', 'f'],
        vec!['t', 'i', 'f'],
        vec!['w', 'e', 'b', 'p'],
        vec!['i', 'c', 'o'],
        vec!['s', 'v', 'g'],
    ];
    assert(r@[0]@ =~= supported_extensions()[0]);
    assert(r@[1]@ =~= supported_extensions()[1]);
    assert(r@[2]@ =~= supported_extensions()[2]);
    assert(r@[3]@ =~= supported_extensions()[3]);
    assert(r@[4]@ =~= supported_extensions()[4]);
    assert(r@[5]@ =~= supported_extensions()[5]);
    assert(r@[6]@ =~= supported_extensions()[6]);
    assert(r@[7]@ =~= supported_extensions()[7]);
    assert(r@[8]@ =~= supported_extensions()[8]);
    assert(r@[9]@ =~= supported_extensions()[9]);
    r
}

/// Whether `path` names an image file: its file name (the part after the last
/// `/`) has an extension that is, up to ASCII case, one of jpg, jpeg, png,
/// gif, bmp, tiff, tif, webp, ico or svg.
pub fn is_supported_image(path: &str) -> (r: bool)
    ensures
        r == is_image_path(path@),
{
    let v = chars_of(path);
    let mut start: usize = v.len();
    while start > 0 && v[start - 1] != '/'
        invariant
            start <= v.len(),
            forall|j: int| start <= j < v.len() ==> v@[j] != '/',
        decreases start,
    {
        start = start - 1;
    }
    proof {
        lemma_file_name(v@, start as int);
    }
    let ghost name = v@.subrange(start as int, v.len() as int);
    let mut dot: usize = v.len();
    while dot > start && v[dot - 1] != '.'
        invariant
            start <= dot <= v.len(),
            forall|j: int| dot <= j < v.len() ==> v@[j] != '.',
        decreases dot,
    {
        dot = dot - 1;
    }
    proof {
        lemma_last_dot(name, dot - start - 1);
    }
    if dot - start <= 1 {
        return false;
    }
    assert(name.subrange(dot - start, name.len() as int) =~= v@.subrange(dot as int, v.len() as int));
    assert(extension_of(path@) == Some(v@.subrange(dot as int, v.len() as int)));
    let list = supported_list();
    let mut i: usize = 0;
    while i < list.len()
        invariant
            list@.len() == supported_extensions().len(),
            forall|j: int| 0 <= j < list@.len() ==> list@[j]@ == supported_extensions()[j],
            dot <= v.len(),
            i <= list.len(),
            extension_of(path@) == Some(v@.subrange(dot as int, v.len() as int)),
            forall|j: int| 0 <= j < i ==> !matches_lower(v@.subrange(dot as int, v.len() as int), #[trigger] supported_extensions()[j]),
        decreases list.len() - i,
    {
        if tail_matches(&v, dot, &list[i]) {
            assert(matches_lower(v@.subrange(dot as int, v.len() as int), supported_extensions()[i as int]));
            assert(is_supported_extension(v@.subrange(dot as int, v.len() as int)));
            return true;
        }
        i = i + 1;
    }
    false
}

fn chars_of(s: &str) -> (r: Vec<char>)
    ensures
        r@ == s@,
{
    broadcast use vstd::string::axiom_spec_iter;
    let mut r: Vec<char> = Vec::new();
    for c in it: s.chars()
        invariant
            it.seq() == s@,
            r@ == s@.take(it.index() as int),
    {
        r.push(c);
    }
    assert(r@ =~= s@);
    r
}

} // verus!
