//! Character-level text operations on which the command grammar is built:
//! Unicode white space, trimming, splitting on a separator and prefixes.

use vstd::prelude::*;
use vstd::string::*;

verus! {

/// `c` has the Unicode `White_Space` property, the set that `str::trim`
/// removes.
pub open spec fn is_white_space(c: char) -> bool {
    let u = c as u32;
    ||| 0x9 <= u <= 0xd
    ||| u == 0x20
    ||| u == 0x85
    ||| u == 0xa0
    ||| u == 0x1680
    ||| 0x2000 <= u <= 0x200a
    ||| u == 0x2028
    ||| u == 0x2029
    ||| u == 0x202f
    ||| u == 0x205f
    ||| u == 0x3000
}

/// `s` without its leading white space.
pub open spec fn trim_start(s: Seq<char>) -> Seq<char>
    decreases s.len(),
{
    if s.len() > 0 && is_white_space(s[0]) {
        trim_start(s.drop_first())
    } else {
        s
    }
}

/// `s` without its trailing white space.
pub open spec fn trim_end(s: Seq<char>) -> Seq<char>
    decreases s.len(),
{
    if s.len() > 0 && is_white_space(s.last()) {
        trim_end(s.drop_last())
    } else {
        s
    }
}

/// `s` without its leading and trailing white space.
pub open spec fn trim(s: Seq<char>) -> Seq<char> {
    trim_end(trim_start(s))
}

/// The position of the first `c` in `s`, if there is one.
pub open spec fn index_of(s: Seq<char>, c: char) -> Option<int>
    decreases s.len(),
{
    if s.len() == 0 {
        None
    } else if s[0] == c {
        Some(0)
    } else {
        match index_of(s.drop_first(), c) {
            Some(i) => Some(i + 1),
            None => None,
        }
    }
}

/// The pieces of `s` between the occurrences of `sep`, in order: one more
/// piece than there are separators, empty pieces included.
pub open spec fn split_on(s: Seq<char>, sep: char) -> Seq<Seq<char>>
    decreases s.len(),
{
    if s.len() == 0 {
        seq![Seq::<char>::empty()]
    } else {
        let prev = split_on(s.drop_last(), sep);
        if s.last() == sep {
            prev.push(Seq::<char>::empty())
        } else {
            prev.update(prev.len() - 1, prev.last().push(s.last()))
        }
    }
}

/// What comes before and after the first `sep` in `s`; `None` where there is
/// no `sep`.
pub open spec fn split_once(s: Seq<char>, sep: char) -> Option<(Seq<char>, Seq<char>)> {
    match index_of(s, sep) {
        Some(i) => Some((s.take(i), s.skip(i + 1))),
        None => None,
    }
}

/// `p` is a prefix of `s`.
pub open spec fn has_prefix(s: Seq<char>, p: Seq<char>) -> bool {
    p.len() <= s.len() && s.take(p.len() as int) == p
}

pub proof fn lemma_index_of_found(s: Seq<char>, c: char, i: int)
    requires
        0 <= i < s.len(),
        s[i] == c,
        forall|j: int| 0 <= j < i ==> s[j] != c,
    ensures
        index_of(s, c) == Some(i),
    decreases i,
{
    if i > 0 {
        lemma_index_of_found(s.drop_first(), c, i - 1);
    }
}

pub proof fn lemma_index_of_absent(s: Seq<char>, c: char)
    requires
        forall|j: int| 0 <= j < s.len() ==> s[j] != c,
    ensures
        index_of(s, c) is None,
    decreases s.len(),
{
    if s.len() > 0 {
        lemma_index_of_absent(s.drop_first(), c);
    }
}

proof fn lemma_trim_start_skip(s: Seq<char>, k: int)
    requires
        0 <= k <= s.len(),
        forall|j: int| 0 <= j < k ==> is_white_space(#[trigger] s[j]),
        k == s.len() || !is_white_space(s[k]),
    ensures
        trim_start(s) == s.skip(k),
    decreases k,
{
    if k == 0 {
        assert(s.skip(0) =~= s);
    } else {
        assert(is_white_space(s[0]));
        lemma_trim_start_skip(s.drop_first(), k - 1);
        assert(s.drop_first().skip(k - 1) =~= s.skip(k));
    }
}

proof fn lemma_trim_end_take(s: Seq<char>, k: int)
    requires
        0 <= k <= s.len(),
        forall|j: int| k <= j < s.len() ==> is_white_space(#[trigger] s[j]),
        k == 0 || !is_white_space(s[k - 1]),
    ensures
        trim_end(s) == s.take(k),
    decreases s.len() - k,
{
    if k == s.len() {
        assert(s.take(k) =~= s);
    } else {
        assert(is_white_space(s.last()));
        lemma_trim_end_take(s.drop_last(), k);
        assert(s.drop_last().take(k) =~= s.take(k));
    }
}

/// The pieces `ps` with `sep` between each two of them.
pub open spec fn join_with(ps: Seq<Seq<char>>, sep: char) -> Seq<char>
    decreases ps.len(),
{
    if ps.len() == 0 {
        seq![]
    } else if ps.len() == 1 {
        ps[0]
    } else {
        join_with(ps.drop_last(), sep) + seq![sep] + ps.last()
    }
}

/// `s` does not hold `c`.
pub open spec fn lacks(s: Seq<char>, c: char) -> bool {
    forall|i: int| 0 <= i < s.len() ==> #[trigger] s[i] != c
}

pub proof fn lemma_split_on_single(t: Seq<char>, sep: char)
    requires
        lacks(t, sep),
    ensures
        split_on(t, sep) == seq![t],
    decreases t.len(),
{
    if t.len() == 0 {
        assert(t =~= Seq::<char>::empty());
    } else {
        lemma_split_on_single(t.drop_last(), sep);
        assert(t.last() != sep);
        assert(t.drop_last().push(t.last()) =~= t);
        assert(split_on(t, sep) =~= seq![t]);
    }
}

pub proof fn lemma_split_on_nonempty(t: Seq<char>, sep: char)
    ensures
        split_on(t, sep).len() > 0,
    decreases t.len(),
{
    if t.len() > 0 {
        lemma_split_on_nonempty(t.drop_last(), sep);
    }
}

proof fn lemma_split_on_concat(s: Seq<char>, t: Seq<char>, sep: char)
    ensures
        split_on(s + seq![sep] + t, sep) == split_on(s, sep) + split_on(t, sep),
    decreases t.len(),
{
    let u = s + seq![sep] + t;
    if t.len() == 0 {
        assert(u.drop_last() =~= s);
        assert(split_on(u, sep) =~= split_on(s, sep) + split_on(t, sep));
    } else {
        assert(u.drop_last() =~= s + seq![sep] + t.drop_last());
        lemma_split_on_concat(s, t.drop_last(), sep);
        lemma_split_on_nonempty(t.drop_last(), sep);
        assert(u.last() == t.last());
        assert(split_on(u, sep) =~= split_on(s, sep) + split_on(t, sep));
    }
}

/// Splitting at `sep` the pieces joined with `sep` gives the pieces back,
/// where no piece holds `sep`.
pub proof fn law_split_join(ps: Seq<Seq<char>>, sep: char)
    requires
        ps.len() > 0,
        forall|k: int| 0 <= k < ps.len() ==> lacks(#[trigger] ps[k], sep),
    ensures
        split_on(join_with(ps, sep), sep) == ps,
    decreases ps.len(),
{
    if ps.len() == 1 {
        lemma_split_on_single(ps[0], sep);
        assert(seq![ps[0]] =~= ps);
    } else {
        let prev = ps.drop_last();
        assert forall|k: int| 0 <= k < prev.len() implies lacks(#[trigger] prev[k], sep) by {
            assert(prev[k] == ps[k]);
        }
        law_split_join(prev, sep);
        lemma_split_on_concat(join_with(prev, sep), ps.last(), sep);
        lemma_split_on_single(ps.last(), sep);
        assert(prev + seq![ps.last()] =~= ps);
    }
}

proof fn lemma_trim_start_keeps(s: Seq<char>, i: int) -> (j: int)
    requires
        0 <= i < s.len(),
        !is_white_space(s[i]),
    ensures
        0 <= j < trim_start(s).len(),
        !is_white_space(trim_start(s)[j]),
    decreases s.len(),
{
    if is_white_space(s[0]) {
        lemma_trim_start_keeps(s.drop_first(), i - 1)
    } else {
        i
    }
}

proof fn lemma_trim_end_keeps(s: Seq<char>, i: int) -> (j: int)
    requires
        0 <= i < s.len(),
        !is_white_space(s[i]),
    ensures
        0 <= j < trim_end(s).len(),
        !is_white_space(trim_end(s)[j]),
    decreases s.len(),
{
    if is_white_space(s.last()) {
        lemma_trim_end_keeps(s.drop_last(), i)
    } else {
        i
    }
}

/// Joined pieces begin with the first piece.
pub proof fn lemma_join_starts_with_first(ps: Seq<Seq<char>>, sep: char)
    requires
        ps.len() > 0,
    ensures
        join_with(ps, sep).len() >= ps[0].len(),
        join_with(ps, sep).take(ps[0].len() as int) == ps[0],
    decreases ps.len(),
{
    if ps.len() == 1 {
        assert(ps[0].take(ps[0].len() as int) =~= ps[0]);
    } else {
        let prev = ps.drop_last();
        lemma_join_starts_with_first(prev, sep);
        let j = join_with(ps, sep);
        assert(j.take(ps[0].len() as int) =~= join_with(prev, sep).take(ps[0].len() as int));
    }
}

/// Trimming keeps a prefix of `s` up to any character other than white
/// space, where `s` does not start with white space.
pub proof fn lemma_trim_keeps_prefix(s: Seq<char>, i: int)
    requires
        0 <= i < s.len(),
        !is_white_space(s[0]),
        !is_white_space(s[i]),
    ensures
        trim(s).len() > i,
        trim(s).take(i + 1) == s.take(i + 1),
{
    assert(trim_start(s) == s);
    lemma_trim_end_prefix(s, i);
}

proof fn lemma_trim_end_prefix(s: Seq<char>, i: int)
    requires
        0 <= i < s.len(),
        !is_white_space(s[i]),
    ensures
        trim_end(s).len() > i,
        trim_end(s).take(i + 1) == s.take(i + 1),
    decreases s.len(),
{
    if is_white_space(s.last()) {
        lemma_trim_end_prefix(s.drop_last(), i);
        assert(s.drop_last().take(i + 1) =~= s.take(i + 1));
    }
}

/// A text that holds a character other than white space does not trim to
/// nothing.
pub proof fn lemma_trim_not_empty(s: Seq<char>, i: int)
    requires
        0 <= i < s.len(),
        !is_white_space(s[i]),
    ensures
        trim(s).len() > 0,
{
    let j = lemma_trim_start_keeps(s, i);
    let _ = lemma_trim_end_keeps(trim_start(s), j);
}

/// `s` holds nothing but white space.
pub open spec fn all_white_space(s: Seq<char>) -> bool {
    forall|i: int| 0 <= i < s.len() ==> is_white_space(#[trigger] s[i])
}

/// Text added to the end of `s` that holds no `sep` lengthens its last
/// piece and adds none.
pub proof fn lemma_split_on_extend(s: Seq<char>, w: Seq<char>, sep: char)
    requires
        lacks(w, sep),
    ensures
        split_on(s + w, sep) == split_on(s, sep).update(
            split_on(s, sep).len() - 1,
            split_on(s, sep).last() + w,
        ),
    decreases w.len(),
{
    lemma_split_on_nonempty(s, sep);
    let p = split_on(s, sep);
    if w.len() == 0 {
        assert(s + w =~= s);
        assert(p.last() + w =~= p.last());
        assert(p.update(p.len() - 1, p.last() + w) =~= p);
    } else {
        let u = s + w;
        assert(u.drop_last() =~= s + w.drop_last());
        lemma_split_on_extend(s, w.drop_last(), sep);
        assert(u.last() == w.last());
        assert(w.last() != sep);
        assert((p.last() + w.drop_last()).push(w.last()) =~= p.last() + w);
        assert(split_on(u, sep) =~= p.update(p.len() - 1, p.last() + w));
    }
}

/// Text that is all white space trims to nothing.
pub proof fn lemma_trim_all_white_space(s: Seq<char>)
    requires
        all_white_space(s),
    ensures
        trim(s).len() == 0,
    decreases s.len(),
{
    lemma_trim_start_all_white_space(s);
    assert(trim_end(Seq::<char>::empty()) == Seq::<char>::empty());
}

proof fn lemma_trim_start_all_white_space(s: Seq<char>)
    requires
        all_white_space(s),
    ensures
        trim_start(s) == Seq::<char>::empty(),
    decreases s.len(),
{
    if s.len() > 0 {
        assert(is_white_space(s[0]));
        let t = s.drop_first();
        assert forall|i: int| 0 <= i < t.len() implies is_white_space(#[trigger] t[i]) by {
            assert(t[i] == s[i + 1]);
        }
        lemma_trim_start_all_white_space(t);
    } else {
        assert(s =~= Seq::<char>::empty());
    }
}

/// The first `c` of `s` lies within `s`.
pub proof fn lemma_index_of_bounds(s: Seq<char>, c: char)
    ensures
        index_of(s, c) matches Some(i) ==> 0 <= i < s.len() && s[i] == c,
    decreases s.len(),
{
    if s.len() > 0 && s[0] != c {
        lemma_index_of_bounds(s.drop_first(), c);
    }
}

/// The first `c` of `s` stays the first in `s` followed by text without `c`.
pub proof fn lemma_index_of_extend(s: Seq<char>, w: Seq<char>, c: char)
    requires
        index_of(s, c) is Some,
    ensures
        index_of(s + w, c) == index_of(s, c),
    decreases s.len(),
{
    if s[0] != c {
        lemma_index_of_extend(s.drop_first(), w, c);
        assert((s + w).drop_first() =~= s.drop_first() + w);
    }
}

/// The characters of `s`, in order.
pub fn chars_of(s: &str) -> (v: Vec<char>)
    ensures
        v@ == s@,
{
    let mut v: Vec<char> = Vec::new();
    for c in it: s.chars()
        invariant
            v@ == it.seq().take(it.index() as int),
            it.seq() == s@,
    {
        v.push(c);
    }
    v
}

/// Whether `c` is white space in the sense of `str::trim`.
pub fn is_white_space_char(c: char) -> (b: bool)
    ensures
        b == is_white_space(c),
{
    let u = c as u32;
    (0x9 <= u && u <= 0xd) || u == 0x20 || u == 0x85 || u == 0xa0 || u == 0x1680 || (0x2000 <= u
        && u <= 0x200a) || u == 0x2028 || u == 0x2029 || u == 0x202f || u == 0x205f || u == 0x3000
}

/// A copy of `s` without its leading and trailing white space.
pub fn trim_text(s: &str) -> (t: String)
    ensures
        t@ == trim(s@),
{
    let cs = chars_of(s);
    let n = cs.len();
    let mut a: usize = 0;
    while a < n && is_white_space_char(cs[a])
        invariant
            n == cs@.len(),
            cs@ == s@,
            a <= n,
            forall|j: int| 0 <= j < a ==> is_white_space(#[trigger] cs@[j]),
        decreases n - a,
    {
        a = a + 1;
    }
    proof {
        lemma_trim_start_skip(s@, a as int);
    }
    let mut b: usize = n;
    while b > a && is_white_space_char(cs[b - 1])
        invariant
            n == cs@.len(),
            cs@ == s@,
            a <= b <= n,
            forall|j: int| b <= j < n ==> is_white_space(#[trigger] cs@[j]),
        decreases b,
    {
        b = b - 1;
    }
    proof {
        let rest = s@.skip(a as int);
        assert forall|j: int| (b - a) <= j < rest.len() implies is_white_space(#[trigger] rest[j]) by {
            assert(rest[j] == cs@[j + a]);
        }
        if b > a {
            assert(rest[b - a - 1] == cs@[b - 1]);
        }
        lemma_trim_end_take(rest, (b - a) as int);
        assert(rest.take((b - a) as int) =~= s@.subrange(a as int, b as int));
    }
    s.substring_char(a, b).to_owned()
}

/// The pieces of `s` between the occurrences of `sep`.
pub fn split_text(s: &str, sep: char) -> (pieces: Vec<String>)
    ensures
        pieces.deep_view() == split_on(s@, sep),
{
    let cs = chars_of(s);
    let n = cs.len();
    let mut pieces: Vec<String> = Vec::new();
    let mut start: usize = 0;
    let mut i: usize = 0;
    assert(s@.take(0) =~= Seq::<char>::empty());
    while i < n
        invariant
            n == cs@.len(),
            cs@ == s@,
            start <= i <= n,
            pieces.deep_view().push(s@.subrange(start as int, i as int)) == split_on(
                s@.take(i as int),
                sep,
            ),
        decreases n - i,
    {
        let ghost prev = pieces.deep_view();
        let ghost t = s@.take(i as int + 1);
        assert(t.drop_last() =~= s@.take(i as int));
        assert(t.last() == cs@[i as int]);
        if cs[i] == sep {
            let piece = s.substring_char(start, i).to_owned();
            pieces.push(piece);
            assert(pieces.deep_view() =~= prev.push(s@.subrange(start as int, i as int)));
            start = i + 1;
            assert(s@.subrange(start as int, i as int + 1) =~= Seq::<char>::empty());
        } else {
            assert(s@.subrange(start as int, i as int + 1) =~= s@.subrange(
                start as int,
                i as int,
            ).push(cs@[i as int]));
        }
        i = i + 1;
    }
    let last = s.substring_char(start, n).to_owned();
    let ghost prev = pieces.deep_view();
    pieces.push(last);
    assert(pieces.deep_view() =~= prev.push(s@.subrange(start as int, n as int)));
    assert(s@.take(n as int) =~= s@);
    pieces
}

/// What comes before and after the first `sep` in `s`, if `s` holds one.
pub fn split_once_text(s: &str, sep: char) -> (res: Option<(String, String)>)
    ensures
        match res {
            Some((a, b)) => split_once(s@, sep) == Some((a@, b@)),
            None => split_once(s@, sep) is None,
        },
{
    let cs = chars_of(s);
    let n = cs.len();
    let mut i: usize = 0;
    while i < n
        invariant
            n == cs@.len(),
            cs@ == s@,
            i <= n,
            forall|j: int| 0 <= j < i ==> cs@[j] != sep,
        decreases n - i,
    {
        if cs[i] == sep {
            proof {
                lemma_index_of_found(s@, sep, i as int);
            }
            let before = s.substring_char(0, i).to_owned();
            let after = s.substring_char(i + 1, n).to_owned();
            assert(s@.subrange(0, i as int) =~= s@.take(i as int));
            assert(s@.subrange(i as int + 1, n as int) =~= s@.skip(i as int + 1));
            return Some((before, after));
        }
        i = i + 1;
    }
    proof {
        lemma_index_of_absent(s@, sep);
    }
    None
}

/// Whether `s` begins with `p`.
pub fn has_prefix_text(s: &str, p: &str) -> (b: bool)
    ensures
        b == has_prefix(s@, p@),
{
    let cs = chars_of(s);
    let ps = chars_of(p);
    if ps.len() > cs.len() {
        return false;
    }
    let mut i: usize = 0;
    while i < ps.len()
        invariant
            cs@ == s@,
            ps@ == p@,
            ps@.len() <= cs@.len(),
            i <= ps@.len(),
            forall|j: int| 0 <= j < i ==> cs@[j] == ps@[j],
        decreases ps@.len() - i,
    {
        if cs[i] != ps[i] {
            assert(s@.take(p@.len() as int)[i as int] != p@[i as int]);
            return false;
        }
        i = i + 1;
    }
    assert(s@.take(p@.len() as int) =~= p@);
    true
}

} // verus!
