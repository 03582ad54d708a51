//! The argument syntax of an admin command: a list of double-quoted texts.
//!
//! An argument opens with `"` and closes at the next `"` that no backslash
//! escapes; a backslash escapes any one character but a line feed, and the
//! escape is kept as it stands in the argument. Text outside the quotes is
//! ignored. Arguments are taken from left to right and never overlap; a `"`
//! that no closing quote follows opens nothing, and the search goes on at the
//! next character. This is the language of the pattern
//! `"([^"\\]*(?:\\.[^"\\]*)*)"`, taken as successive leftmost matches.

use vstd::prelude::*;
use vstd::string::*;
use crate::text::{chars_of, lacks};

verus! {

/// Where the quoted text whose body starts at `i` closes: the position of the
/// closing `"`, or `None` where the body runs off the end or meets a
/// backslash that escapes nothing.
pub open spec fn closing_quote(s: Seq<char>, i: int) -> Option<int>
    decreases s.len() - i,
{
    if i < 0 || i >= s.len() {
        None
    } else if s[i] == '"' {
        Some(i)
    } else if s[i] == '\\' {
        if i + 1 < s.len() && s[i + 1] != '\n' {
            closing_quote(s, i + 2)
        } else {
            None
        }
    } else {
        closing_quote(s, i + 1)
    }
}

pub proof fn lemma_closing_quote_bounds(s: Seq<char>, i: int)
    ensures
        closing_quote(s, i) matches Some(j) ==> i <= j < s.len() && s[j] == '"',
    decreases s.len() - i,
{
    if 0 <= i < s.len() && s[i] != '"' {
        if s[i] == '\\' {
            if i + 1 < s.len() && s[i + 1] != '\n' {
                lemma_closing_quote_bounds(s, i + 2);
            }
        } else {
            lemma_closing_quote_bounds(s, i + 1);
        }
    }
}

/// The arguments found in `s` from position `p` on, in order.
pub open spec fn quoted_args_from(s: Seq<char>, p: int) -> Seq<Seq<char>>
    decreases s.len() - p,
{
    if p < 0 || p >= s.len() {
        seq![]
    } else if s[p] == '"' {
        match closing_quote(s, p + 1) {
            Some(j) => {
                proof {
                    lemma_closing_quote_bounds(s, p + 1);
                }
                seq![s.subrange(p + 1, j)] + quoted_args_from(s, j + 1)
            },
            None => quoted_args_from(s, p + 1),
        }
    } else {
        quoted_args_from(s, p + 1)
    }
}

/// The arguments of the argument text `s`, in order.
pub open spec fn quoted_args(s: Seq<char>) -> Seq<Seq<char>> {
    quoted_args_from(s, 0)
}

/// The argument `a` in quotes.
pub open spec fn quote_arg(a: Seq<char>) -> Seq<char> {
    seq!['"'] + a + seq!['"']
}

/// The arguments `args`, each in quotes and followed by a space.
pub open spec fn render_args(args: Seq<Seq<char>>) -> Seq<char>
    decreases args.len(),
{
    if args.len() == 0 {
        seq![]
    } else {
        quote_arg(args[0]) + seq![' '] + render_args(args.drop_first())
    }
}

/// `a` holds neither a double quote nor a backslash, so that it can be
/// quoted as it stands.
pub open spec fn is_plain_arg(a: Seq<char>) -> bool {
    forall|i: int| 0 <= i < a.len() ==> #[trigger] a[i] != '"' && a[i] != '\\'
}

proof fn lemma_closing_quote_plain(s: Seq<char>, i: int, k: int)
    requires
        0 <= i <= k < s.len(),
        s[k] == '"',
        forall|j: int| i <= j < k ==> #[trigger] s[j] != '"' && s[j] != '\\',
    ensures
        closing_quote(s, i) == Some(k),
    decreases k - i,
{
    if i < k {
        lemma_closing_quote_plain(s, i + 1, k);
    }
}

proof fn lemma_closing_quote_shift(pre: Seq<char>, t: Seq<char>, i: int)
    requires
        0 <= i,
    ensures
        closing_quote(pre + t, pre.len() + i) == match closing_quote(t, i) {
            Some(j) => Some(j + pre.len()),
            None => None,
        },
    decreases t.len() - i,
{
    let s = pre + t;
    if i < t.len() {
        assert(s[pre.len() + i] == t[i]);
        if i + 1 < t.len() {
            assert(s[pre.len() + i + 1] == t[i + 1]);
        }
        if t[i] == '\\' {
            if i + 1 < t.len() && t[i + 1] != '\n' {
                lemma_closing_quote_shift(pre, t, i + 2);
            }
        } else if t[i] != '"' {
            lemma_closing_quote_shift(pre, t, i + 1);
        }
    }
}

proof fn lemma_quoted_args_shift(pre: Seq<char>, t: Seq<char>, p: int)
    requires
        0 <= p,
    ensures
        quoted_args_from(pre + t, pre.len() + p) == quoted_args_from(t, p),
    decreases t.len() - p,
{
    let s = pre + t;
    if p < t.len() {
        assert(s[pre.len() + p] == t[p]);
        if t[p] == '"' {
            lemma_closing_quote_shift(pre, t, p + 1);
            lemma_closing_quote_bounds(t, p + 1);
            match closing_quote(t, p + 1) {
                Some(j) => {
                    lemma_quoted_args_shift(pre, t, j + 1);
                    assert(s.subrange(pre.len() + p + 1, pre.len() + j) =~= t.subrange(p + 1, j));
                },
                None => {
                    lemma_quoted_args_shift(pre, t, p + 1);
                },
            }
        } else {
            lemma_quoted_args_shift(pre, t, p + 1);
        }
    }
}

/// Quoting arguments that hold no double quote and no backslash, and reading
/// the result, gives the arguments back.
pub proof fn law_quoted_args_roundtrip(args: Seq<Seq<char>>)
    requires
        forall|k: int| 0 <= k < args.len() ==> is_plain_arg(#[trigger] args[k]),
    ensures
        quoted_args(render_args(args)) == args,
    decreases args.len(),
{
    if args.len() > 0 {
        let a = args[0];
        let rest = args.drop_first();
        let pre = quote_arg(a) + seq![' '];
        let r = render_args(rest);
        let s = render_args(args);
        let n = a.len() as int;
        assert(s == pre + r);
        assert(pre.len() == n + 3);
        assert(s[0] == '"');
        assert(s[n + 1] == '"');
        assert(s[n + 2] == ' ');
        assert forall|j: int| 1 <= j < n + 1 implies #[trigger] s[j] != '"' && s[j] != '\\' by {
            assert(s[j] == a[j - 1]);
        }
        lemma_closing_quote_plain(s, 1, n + 1);
        assert(s.subrange(1, n + 1) =~= a);
        assert(quoted_args_from(s, n + 2) == quoted_args_from(s, n + 3));
        lemma_quoted_args_shift(pre, r, 0);
        assert forall|k: int| 0 <= k < rest.len() implies is_plain_arg(#[trigger] rest[k]) by {
            assert(rest[k] == args[k + 1]);
        }
        law_quoted_args_roundtrip(rest);
        assert(seq![a] + rest =~= args);
    } else {
        assert(quoted_args(render_args(args)) =~= args);
    }
}

proof fn lemma_quoted_args_skip(w: Seq<char>, t: Seq<char>, p: int)
    requires
        0 <= p <= w.len(),
        lacks(w, '"'),
    ensures
        quoted_args_from(w + t, p) == quoted_args_from(w + t, w.len() as int),
    decreases w.len() - p,
{
    if p < w.len() {
        assert((w + t)[p] == w[p]);
        lemma_quoted_args_skip(w, t, p + 1);
    }
}

/// Text without double quotes before the arguments, such as white space
/// after the `:` of a command, changes none of them: the arguments of
/// `w + t` are those of `t`.
pub proof fn law_quoted_args_ignore_leading(w: Seq<char>, t: Seq<char>)
    requires
        lacks(w, '"'),
    ensures
        quoted_args(w + t) == quoted_args(t),
{
    lemma_quoted_args_skip(w, t, 0);
    lemma_quoted_args_shift(w, t, 0);
}

/// Quoted arguments hold no character that none of the arguments holds,
/// other than the quote and the space.
pub proof fn lemma_render_args_lacks(args: Seq<Seq<char>>, c: char)
    requires
        c != '"',
        c != ' ',
        forall|k: int| 0 <= k < args.len() ==> lacks(#[trigger] args[k], c),
    ensures
        lacks(render_args(args), c),
    decreases args.len(),
{
    if args.len() > 0 {
        let rest = args.drop_first();
        assert forall|k: int| 0 <= k < rest.len() implies lacks(#[trigger] rest[k], c) by {
            assert(rest[k] == args[k + 1]);
        }
        lemma_render_args_lacks(rest, c);
        let s = render_args(args);
        let a = args[0];
        assert(lacks(a, c));
        assert forall|i: int| 0 <= i < s.len() implies #[trigger] s[i] != c by {
            if 1 <= i < a.len() + 1 {
                assert(s[i] == a[i - 1]);
            } else if i >= a.len() + 3 {
                assert(s[i] == render_args(rest)[i - a.len() - 3]);
            }
        }
    }
}

proof fn lemma_closing_quote_past(a: Seq<char>, w: Seq<char>, k: int)
    requires
        k >= a.len(),
        lacks(w, '"'),
        lacks(w, '\\'),
    ensures
        closing_quote(a + w, k) is None,
    decreases (a + w).len() - k,
{
    let s = a + w;
    if 0 <= k < s.len() {
        assert(s[k] == w[k - a.len()]);
        lemma_closing_quote_past(a, w, k + 1);
    }
}

proof fn lemma_closing_quote_extend(a: Seq<char>, w: Seq<char>, i: int)
    requires
        0 <= i,
        lacks(w, '"'),
        lacks(w, '\\'),
    ensures
        closing_quote(a + w, i) == closing_quote(a, i),
    decreases a.len() - i,
{
    let s = a + w;
    if i >= a.len() {
        lemma_closing_quote_past(a, w, i);
    } else {
        assert(s[i] == a[i]);
        if a[i] == '\\' {
            if i + 1 < a.len() {
                assert(s[i + 1] == a[i + 1]);
                if a[i + 1] != '\n' {
                    lemma_closing_quote_extend(a, w, i + 2);
                }
            } else if i + 1 < s.len() && s[i + 1] != '\n' {
                lemma_closing_quote_past(a, w, i + 2);
            }
        } else if a[i] != '"' {
            lemma_closing_quote_extend(a, w, i + 1);
        }
    }
}

/// Text without quotes and backslashes added to the end of an argument text
/// adds no argument and changes none.
pub proof fn lemma_quoted_args_extend(a: Seq<char>, w: Seq<char>, p: int)
    requires
        0 <= p,
        lacks(w, '"'),
        lacks(w, '\\'),
    ensures
        quoted_args_from(a + w, p) == quoted_args_from(a, p),
    decreases (a + w).len() - p,
{
    let s = a + w;
    if p < s.len() {
        if p >= a.len() {
            assert(s[p] == w[p - a.len()]);
            lemma_quoted_args_extend(a, w, p + 1);
        } else {
            assert(s[p] == a[p]);
            if a[p] == '"' {
                lemma_closing_quote_extend(a, w, p + 1);
                lemma_closing_quote_bounds(a, p + 1);
                match closing_quote(a, p + 1) {
                    Some(j) => {
                        lemma_quoted_args_extend(a, w, j + 1);
                        assert(s.subrange(p + 1, j) =~= a.subrange(p + 1, j));
                    },
                    None => {
                        lemma_quoted_args_extend(a, w, p + 1);
                    },
                }
            } else {
                lemma_quoted_args_extend(a, w, p + 1);
            }
        }
    }
}

/// The position of the quote that closes the body starting at `i`.
fn find_closing_quote(cs: &Vec<char>, i: usize) -> (res: Option<usize>)
    ensures
        match res {
            Some(j) => closing_quote(cs@, i as int) == Some(j as int),
            None => closing_quote(cs@, i as int) is None,
        },
{
    let n = cs.len();
    let mut k: usize = i;
    while k < n
        invariant
            n == cs@.len(),
            i <= k,
            closing_quote(cs@, k as int) == closing_quote(cs@, i as int),
        decreases n - k,
    {
        if cs[k] == '"' {
            return Some(k);
        } else if cs[k] == '\\' {
            if k + 1 < n && cs[k + 1] != '\n' {
                k = k + 2;
            } else {
                return None;
            }
        } else {
            k = k + 1;
        }
    }
    None
}

/// The arguments of the argument text `s`, in order.
pub fn parse_quoted_args(s: &str) -> (args: Vec<String>)
    ensures
        args.deep_view() == quoted_args(s@),
{
    let cs = chars_of(s);
    let n = cs.len();
    let mut args: Vec<String> = Vec::new();
    let mut p: usize = 0;
    while p < n
        invariant
            n == cs@.len(),
            cs@ == s@,
            p <= n,
            args.deep_view() + quoted_args_from(s@, p as int) == quoted_args(s@),
        decreases n - p,
    {
        let ghost before = args.deep_view();
        if cs[p] == '"' {
            match find_closing_quote(&cs, p + 1) {
                Some(j) => {
                    proof {
                        lemma_closing_quote_bounds(s@, p + 1);
                    }
                    let arg = s.substring_char(p + 1, j).to_owned();
                    args.push(arg);
                    assert(args.deep_view() =~= before.push(s@.subrange(p + 1, j as int)));
                    assert(before + quoted_args_from(s@, p as int) =~= args.deep_view()
                        + quoted_args_from(s@, j + 1));
                    p = j + 1;
                },
                None => {
                    p = p + 1;
                },
            }
        } else {
            p = p + 1;
        }
    }
    assert(args.deep_view() + quoted_args_from(s@, p as int) =~= args.deep_view());
    args
}

} // verus!
