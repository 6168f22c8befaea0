//! Character-level helpers: copying, searching and splitting sequences of
//! characters, each with a contract over `Seq<char>`.
use vstd::prelude::*;

verus! {

/// First index at or after `from` that holds `a` or `b`.
pub open spec fn first_of(s: Seq<char>, from: int, a: char, b: char) -> Option<int>
    decreases s.len() - from,
{
    if from < 0 || from >= s.len() {
        None
    } else if s[from] == a || s[from] == b {
        Some(from)
    } else {
        first_of(s, from + 1, a, b)
    }
}

/// First index at or after `from` where `p` occurs in `s`.
pub open spec fn find_from(s: Seq<char>, p: Seq<char>, from: int) -> Option<int>
    decreases s.len() + 1 - from,
{
    if from < 0 || from + p.len() > s.len() {
        None
    } else if s.subrange(from, from + p.len()) == p {
        Some(from)
    } else {
        find_from(s, p, from + 1)
    }
}

/// The pieces of `s` between occurrences of `sep` (an empty `s` is one
/// empty piece), as `str::split` with a single character gives them.
pub open spec fn split_on(s: Seq<char>, sep: char) -> Seq<Seq<char>>
    decreases s.len(),
{
    if s.len() == 0 {
        seq![Seq::<char>::empty()]
    } else {
        let rest = split_on(s.drop_last(), sep);
        if s.last() == sep {
            rest.push(Seq::<char>::empty())
        } else {
            rest.update(rest.len() - 1, rest.last().push(s.last()))
        }
    }
}

pub proof fn split_on_len(s: Seq<char>, sep: char)
    ensures
        split_on(s, sep).len() >= 1,
    decreases s.len(),
{
    if s.len() > 0 {
        split_on_len(s.drop_last(), sep);
    }
}

/// Appending text free of `sep` extends the last piece only.
pub proof fn split_on_extend(x: Seq<char>, w: Seq<char>, sep: char)
    requires
        forall|i: int| 0 <= i < w.len() ==> w[i] != sep,
    ensures
        split_on(x + w, sep) == split_on(x, sep).update(
            split_on(x, sep).len() - 1,
            split_on(x, sep).last() + w,
        ),
    decreases w.len(),
{
    split_on_len(x, sep);
    if w.len() == 0 {
        assert(x + w =~= x);
        assert(split_on(x, sep).last() + w =~= split_on(x, sep).last());
        assert(split_on(x, sep).update(split_on(x, sep).len() - 1, split_on(x, sep).last())
            =~= split_on(x, sep));
    } else {
        let w0 = w.drop_last();
        split_on_extend(x, w0, sep);
        assert((x + w).drop_last() =~= x + w0);
        assert((x + w).last() == w.last());
        let r = split_on(x, sep);
        let rest = split_on(x + w0, sep);
        assert(rest.len() == r.len());
        assert(rest.last() == r.last() + w0);
        assert(rest.last().push(w.last()) =~= r.last() + w);
        assert(w.last() != sep);
        assert(split_on(x + w, sep) == rest.update(rest.len() - 1, rest.last().push(w.last())));
        assert(split_on(x + w, sep) =~= r.update(r.len() - 1, r.last() + w));
    }
}

/// A first occurrence exists only where `p` occurs.
pub proof fn find_from_none(s: Seq<char>, p: Seq<char>, from: int)
    requires
        0 <= from,
        forall|i: int|
            from <= i && i + p.len() <= s.len() ==> #[trigger] s.subrange(i, i + p.len()) != p,
    ensures
        find_from(s, p, from) is None,
    decreases s.len() + 1 - from,
{
    if from + p.len() <= s.len() {
        find_from_none(s, p, from + 1);
    }
}

pub open spec fn opt_index(o: Option<usize>) -> Option<int> {
    match o {
        Some(i) => Some(i as int),
        None => None,
    }
}

pub open spec fn views(v: Seq<Vec<char>>) -> Seq<Seq<char>> {
    v.map_values(|x: Vec<char>| x@)
}

/// The characters of `s`, in order.
pub fn to_chars(s: &str) -> (r: Vec<char>)
    ensures
        r@ == s@,
{
    let n = s.unicode_len();
    let mut r: Vec<char> = Vec::new();
    let mut i: usize = 0;
    while i < n
        invariant
            n == s@.len(),
            i <= n,
            r@ == s@.subrange(0, i as int),
        decreases n - i,
    {
        r.push(s.get_char(i));
        i += 1;
        assert(r@ =~= s@.subrange(0, i as int));
    }
    assert(r@ =~= s@);
    r
}

/// A copy of `s[a..b]`.
pub fn slice(s: &Vec<char>, a: usize, b: usize) -> (r: Vec<char>)
    requires
        a <= b <= s@.len(),
    ensures
        r@ == s@.subrange(a as int, b as int),
{
    let mut r: Vec<char> = Vec::new();
    let mut i: usize = a;
    while i < b
        invariant
            a <= i <= b <= s@.len(),
            r@ == s@.subrange(a as int, i as int),
        decreases b - i,
    {
        r.push(s[i]);
        i += 1;
        assert(r@ =~= s@.subrange(a as int, i as int));
    }
    r
}

/// The index of the first `a` or `b` at or after `from`.
pub fn find_either(s: &Vec<char>, from: usize, a: char, b: char) -> (r: Option<usize>)
    ensures
        opt_index(r) == first_of(s@, from as int, a, b),
{
    let mut i: usize = from;
    while i < s.len()
        invariant
            from <= i,
            first_of(s@, from as int, a, b) == first_of(s@, i as int, a, b),
        decreases s@.len() - i,
    {
        if s[i] == a || s[i] == b {
            return Some(i);
        }
        i += 1;
    }
    None
}

/// Whether `p` occurs in `s` at index `at`.
pub fn occurs_at(s: &Vec<char>, p: &Vec<char>, at: usize) -> (r: bool)
    requires
        at + p@.len() <= s@.len(),
    ensures
        r == (s@.subrange(at as int, at + p@.len()) == p@),
{
    let n = s.len();
    let mut k: usize = 0;
    while k < p.len()
        invariant
            n == s@.len(),
            k <= p@.len(),
            at + p@.len() <= s@.len(),
            forall|j: int| 0 <= j < k ==> s@[at + j] == p@[j],
        decreases p@.len() - k,
    {
        assert(at + k < s@.len());
        if s[at + k] != p[k] {
            assert(s@.subrange(at as int, at + p@.len())[k as int] != p@[k as int]);
            return false;
        }
        k += 1;
    }
    assert(s@.subrange(at as int, at + p@.len()) =~= p@);
    true
}

/// The index of the first occurrence of `p` in `s` at or after `from`.
pub fn find_seq(s: &Vec<char>, p: &Vec<char>, from: usize) -> (r: Option<usize>)
    ensures
        opt_index(r) == find_from(s@, p@, from as int),
{
    if p.len() == 0 {
        if from <= s.len() {
            assert(s@.subrange(from as int, from as int) =~= p@);
            return Some(from);
        }
        return None;
    }
    let mut i: usize = from;
    while p.len() <= s.len() && i <= s.len() - p.len()
        invariant
            from <= i,
            p@.len() > 0,
            find_from(s@, p@, from as int) == find_from(s@, p@, i as int),
        decreases s@.len() + 1 - i,
    {
        if occurs_at(s, p, i) {
            return Some(i);
        }
        i += 1;
    }
    None
}

/// The pieces of `s` between occurrences of `sep`.
pub fn split_chars(s: &Vec<char>, sep: char) -> (r: Vec<Vec<char>>)
    ensures
        views(r@) == split_on(s@, sep),
        r@.len() >= 1,
{
    let mut parts: Vec<Vec<char>> = Vec::new();
    let mut cur: Vec<char> = Vec::new();
    let mut i: usize = 0;
    assert(s@.subrange(0, 0) =~= Seq::<char>::empty());
    assert(views(parts@).push(cur@) =~= seq![Seq::<char>::empty()]);
    while i < s.len()
        invariant
            i <= s@.len(),
            split_on(s@.subrange(0, i as int), sep) == views(parts@).push(cur@),
        decreases s@.len() - i,
    {
        let c = s[i];
        let ghost pre = s@.subrange(0, i as int);
        assert(s@.subrange(0, i + 1).drop_last() =~= pre);
        assert(s@.subrange(0, i + 1).last() == c);
        if c == sep {
            let done = cur;
            cur = Vec::new();
            parts.push(done);
            assert(views(parts@).push(cur@) =~= split_on(pre, sep).push(Seq::<char>::empty()));
        } else {
            let ghost before = cur@;
            cur.push(c);
            assert(views(parts@).push(cur@) =~= views(parts@).push(before).update(
                views(parts@).len() as int,
                before.push(c),
            ));
        }
        i += 1;
    }
    assert(s@.subrange(0, s@.len() as int) =~= s@);
    parts.push(cur);
    assert(views(parts@) =~= split_on(s@, sep));
    parts
}

} // verus!
