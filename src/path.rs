//! Path strings: splitting into segments, the directory-prefix test, joining.
use vstd::prelude::*;
use vstd::string::StrSliceExecFns;
use vstd::string::StringExecFns;

verus! {

broadcast use vstd::string::group_string_axioms;

/// The segments of `s` from position `cur` on, where `cur` holds the
/// characters of the segment read so far: pieces between `/`, empty ones dropped.
pub open spec fn segments_from(s: Seq<char>, cur: Seq<char>) -> Seq<Seq<char>>
    decreases s.len(),
{
    if s.len() == 0 {
        if cur.len() > 0 { seq![cur] } else { seq![] }
    } else if s[0] == '/' {
        (if cur.len() > 0 { seq![cur] } else { seq![] }) + segments_from(s.drop_first(), seq![])
    } else {
        segments_from(s.drop_first(), cur.push(s[0]))
    }
}

/// The non-empty `/`-separated segments of `s`, in order.
pub open spec fn segments(s: Seq<char>) -> Seq<Seq<char>> {
    segments_from(s, seq![])
}

/// `e` lies strictly below `p`: it starts with `p` followed by `/`.
pub open spec fn is_below(e: Seq<char>, p: Seq<char>) -> bool {
    &&& e.len() > p.len()
    &&& e.subrange(0, p.len() as int) == p
    &&& e[p.len() as int] == '/'
}

/// `p` followed by `/` and `s`.
pub open spec fn under(p: Seq<char>, s: Seq<char>) -> Seq<char> {
    p + seq!['/'] + s
}

/// The path of a node named `name` whose parent's path is `parent`.
pub open spec fn join(parent: Seq<char>, name: Seq<char>) -> Seq<char> {
    if parent.len() == 0 { name } else { under(parent, name) }
}

/// What trimming leaves of `s`.
pub uninterp spec fn trimmed(s: Seq<char>) -> Seq<char>;

/// Relies on str::trim: the result is determined by the characters of `s`.
#[verifier::external_body]
pub(crate) fn trim_str(s: &str) -> (r: &str)
    ensures
        r@ == trimmed(s@),
{
    s.trim()
}

proof fn lemma_segments_step(s: Seq<char>, start: int, i: int)
    requires
        0 <= start <= i < s.len(),
    ensures
        s[i] != '/' ==> segments_from(s.skip(i), s.subrange(start, i)) == segments_from(
            s.skip(i + 1),
            s.subrange(start, i + 1),
        ),
        s[i] == '/' ==> segments_from(s.skip(i), s.subrange(start, i)) == (if i > start {
            seq![s.subrange(start, i)]
        } else {
            seq![]
        }) + segments_from(s.skip(i + 1), s.subrange(i + 1, i + 1)),
{
    assert(s.skip(i).drop_first() =~= s.skip(i + 1));
    assert(s.skip(i)[0] == s[i]);
    assert(s.subrange(start, i).push(s[i]) =~= s.subrange(start, i + 1));
    assert(s.subrange(i + 1, i + 1) =~= Seq::<char>::empty());
}

/// Splits `s` at every `/` and keeps the non-empty pieces, in order.
pub fn split_segments<'a>(s: &'a str) -> (r: Vec<&'a str>)
    ensures
        r@.map_values(|x: &str| x@) == segments(s@),
{
    let n = s.unicode_len();
    let mut r: Vec<&'a str> = Vec::new();
    let mut start: usize = 0;
    let mut i: usize = 0;
    assert(s@.skip(0) =~= s@);
    assert(s@.subrange(0, 0) =~= Seq::<char>::empty());
    while i < n
        invariant
            n == s@.len(),
            start <= i <= n,
            r@.map_values(|x: &str| x@) + segments_from(s@.skip(i as int), s@.subrange(start as int, i as int))
                == segments(s@),
        decreases n - i,
    {
        let c = s.get_char(i);
        proof {
            lemma_segments_step(s@, start as int, i as int);
        }
        if c == '/' {
            if start < i {
                let piece = s.substring_char(start, i);
                let ghost before = r@;
                r.push(piece);
                assert(r@.map_values(|x: &str| x@) =~= before.map_values(|x: &str| x@) + seq![
                    piece@,
                ]);
            }
            start = i + 1;
            i = i + 1;
        } else {
            i = i + 1;
        }
    }
    assert(s@.skip(n as int) =~= Seq::<char>::empty());
    if start < n {
        let piece = s.substring_char(start, n);
        let ghost before = r@;
        r.push(piece);
        assert(r@.map_values(|x: &str| x@) =~= before.map_values(|x: &str| x@) + seq![piece@]);
    } else {
        assert(r@.map_values(|x: &str| x@) + seq![] =~= r@.map_values(|x: &str| x@));
    }
    r
}

/// Whether `e` lies strictly below `p`, that is, starts with `p` and `/`.
pub fn starts_below(e: &str, p: &str) -> (r: bool)
    ensures
        r == is_below(e@, p@),
{
    let n = e.unicode_len();
    let m = p.unicode_len();
    if n <= m {
        return false;
    }
    let mut i: usize = 0;
    while i < m
        invariant
            n == e@.len(),
            m == p@.len(),
            m < n,
            i <= m,
            forall|j: int| 0 <= j < i ==> e@[j] == p@[j],
        decreases m - i,
    {
        if e.get_char(i) != p.get_char(i) {
            assert(e@.subrange(0, m as int)[i as int] != p@[i as int]);
            return false;
        }
        i = i + 1;
    }
    assert(e@.subrange(0, m as int) =~= p@);
    e.get_char(m) == '/'
}

/// `p`, then `/`, then `s`.
pub fn path_under(p: &str, s: &str) -> (r: String)
    ensures
        r@ == under(p@, s@),
{
    let mut r = String::from_str(p);
    proof {
        reveal_strlit("/");
    }
    r.append("/");
    r.append(s);
    r
}

/// The suffix of `e` after `p` and `/`.
pub fn suffix_below(e: &str, p: &str) -> (r: String)
    requires
        is_below(e@, p@),
    ensures
        under(p@, r@) == e@,
{
    let n = e.unicode_len();
    let m = p.unicode_len();
    let piece = e.substring_char(m + 1, n);
    let r = String::from_str(piece);
    proof {
        assert(e@ =~= e@.subrange(0, m as int) + seq!['/'] + e@.subrange(m + 1, n as int));
    }
    r
}

/// Whether `a` and `b` hold the same characters.
pub fn eq_str(a: &str, b: &str) -> (r: bool)
    ensures
        r == (a@ == b@),
{
    let n = a.unicode_len();
    if n != b.unicode_len() {
        return false;
    }
    let mut i: usize = 0;
    while i < n
        invariant
            n == a@.len(),
            n == b@.len(),
            i <= n,
            forall|j: int| 0 <= j < i ==> a@[j] == b@[j],
        decreases n - i,
    {
        if a.get_char(i) != b.get_char(i) {
            return false;
        }
        i = i + 1;
    }
    assert(a@ =~= b@);
    true
}

} // verus!
