//! The command-line tokenizer and the splitting of a `PATH`-style string.
use vstd::prelude::*;
use crate::text::{is_ws, trim_end, trim_start, trim, is_whitespace, chars_of, string_from_chars};

verus! {

/// The position of the first `c` in `s`, or the length of `s` where there is none.
pub open spec fn find_or_len(s: Seq<char>, c: char) -> nat
    decreases s.len(),
{
    if s.len() == 0 {
        0
    } else if s[0] == c {
        0
    } else {
        1 + find_or_len(s.drop_first(), c)
    }
}

/// `find_or_len` is the first position of `c`, or the length when `c` does not occur.
pub proof fn lemma_find_or_len(s: Seq<char>, c: char)
    ensures
        find_or_len(s, c) <= s.len(),
        forall|l: int| 0 <= l < find_or_len(s, c) ==> s[l] != c,
        find_or_len(s, c) < s.len() ==> s[find_or_len(s, c) as int] == c,
    decreases s.len(),
{
    if s.len() > 0 && s[0] != c {
        lemma_find_or_len(s.drop_first(), c);
        assert forall|l: int| 0 <= l < find_or_len(s, c) implies s[l] != c by {
            if l > 0 {
                assert(s[l] == s.drop_first()[l - 1]);
            }
        }
    }
}

/// A position `m` before which no `c` occurs, and at which `c` occurs or the
/// sequence ends, is `find_or_len`.
pub proof fn lemma_find_or_len_at(s: Seq<char>, c: char, m: int)
    requires
        0 <= m <= s.len(),
        forall|l: int| 0 <= l < m ==> s[l] != c,
        m == s.len() || s[m] == c,
    ensures
        find_or_len(s, c) == m,
    decreases s.len(),
{
    if s.len() > 0 && m > 0 {
        assert forall|l: int| 0 <= l < m - 1 implies s.drop_first()[l] != c by {
            assert(s.drop_first()[l] == s[l + 1]);
        }
        if m < s.len() {
            assert(s.drop_first()[m - 1] == s[m]);
        }
        lemma_find_or_len_at(s.drop_first(), c, m - 1);
    }
}

/// The words of `s`, read from the left: whitespace between words is skipped;
/// a word that starts with a single quote runs to the next single quote, which
/// must exist, and the quotes are dropped; any other word runs to the next
/// space character or to the end. `None` where a quote is left open.
pub open spec fn tokens(s: Seq<char>) -> Option<Seq<Seq<char>>>
    decreases s.len(),
{
    if s.len() == 0 {
        Some(Seq::empty())
    } else if is_ws(s[0]) {
        tokens(s.drop_first())
    } else if s[0] == '\'' {
        let rest = s.drop_first();
        let k = find_or_len(rest, '\'');
        if k < rest.len() {
            match tokens(rest.skip(k + 1 as int)) {
                Some(t) => Some(seq![rest.take(k as int)] + t),
                None => None,
            }
        } else {
            None
        }
    } else {
        let k = find_or_len(s, ' ');
        proof {
            lemma_find_or_len(s, ' ');
        }
        match tokens(s.skip(k as int)) {
            Some(t) => Some(seq![s.take(k as int)] + t),
            None => None,
        }
    }
}

/// The argument vector and the background flag that a command line stands
/// for: the words of the line without its trailing whitespace, where a last
/// word `&` is removed and asks for background execution. `None` where a
/// single quote is left open.
pub open spec fn parse_line(line: Seq<char>) -> Option<(Seq<Seq<char>>, bool)> {
    match tokens(trim_end(line)) {
        Some(t) => if t.len() > 0 && t.last() == seq!['&'] {
            Some((t.drop_last(), true))
        } else {
            Some((t, false))
        },
        None => None,
    }
}

/// The pieces of `s` between the colons.
pub open spec fn split_colon(s: Seq<char>) -> Seq<Seq<char>>
    decreases s.len(),
{
    let k = find_or_len(s, ':');
    if k < s.len() {
        seq![s.take(k as int)] + split_colon(s.skip(k + 1 as int))
    } else {
        seq![s]
    }
}

/// The pieces joined back together with a colon between each two.
pub open spec fn join_colon(parts: Seq<Seq<char>>) -> Seq<char>
    decreases parts.len(),
{
    if parts.len() <= 1 {
        if parts.len() == 1 {
            parts[0]
        } else {
            Seq::empty()
        }
    } else {
        parts[0] + seq![':'] + join_colon(parts.drop_first())
    }
}

/// The search directories that a `PATH` value names: none for an empty
/// value, else the pieces between its colons (an empty piece stays).
pub open spec fn path_dirs(pathstr: Seq<char>) -> Seq<Seq<char>> {
    if pathstr.len() == 0 {
        Seq::empty()
    } else {
        split_colon(pathstr)
    }
}

/// The string made of `cs[a..b]`.
pub fn sub_string(cs: &Vec<char>, a: usize, b: usize) -> (s: String)
    requires
        a <= b <= cs.len(),
    ensures
        s@ == cs@.subrange(a as int, b as int),
{
    let mut v: Vec<char> = Vec::new();
    let mut i = a;
    while i < b
        invariant
            a <= i <= b <= cs.len(),
            v@ == cs@.subrange(a as int, i as int),
        decreases b - i,
    {
        v.push(cs[i]);
        i = i + 1;
        assert(v@ == cs@.subrange(a as int, i as int));
    }
    string_from_chars(&v)
}

/// The length of `cs` without its trailing whitespace.
pub fn trimmed_len(cs: &Vec<char>) -> (e: usize)
    ensures
        e <= cs.len(),
        trim_end(cs@) == cs@.take(e as int),
{
    let mut e = cs.len();
    assert(cs@.take(e as int) == cs@);
    while e > 0 && is_whitespace(cs[e - 1])
        invariant
            e <= cs.len(),
            trim_end(cs@) == trim_end(cs@.take(e as int)),
        decreases e,
    {
        assert(cs@.take(e as int).drop_last() == cs@.take(e - 1));
        e = e - 1;
    }
    e
}

/// The characters of `s` without leading and trailing whitespace.
pub fn trimmed(s: &str) -> (r: Vec<char>)
    ensures
        r@ == trim(s@),
{
    let cs = chars_of(s);
    let e = trimmed_len(&cs);
    let mut b: usize = 0;
    assert(cs@.take(e as int) == cs@.subrange(0, e as int));
    while b < e && is_whitespace(cs[b])
        invariant
            b <= e <= cs.len(),
            trim(s@) == trim_start(cs@.subrange(b as int, e as int)),
            cs@ == s@,
            trim_end(cs@) == cs@.take(e as int),
        decreases e - b,
    {
        assert(cs@.subrange(b as int, e as int).drop_first() == cs@.subrange(b + 1, e as int));
        b = b + 1;
    }
    let mut r: Vec<char> = Vec::new();
    let mut k = b;
    while k < e
        invariant
            b <= k <= e <= cs.len(),
            r@ == cs@.subrange(b as int, k as int),
        decreases e - k,
    {
        r.push(cs[k]);
        k = k + 1;
        assert(r@ == cs@.subrange(b as int, k as int));
    }
    r
}

/// The words of the line, as `tokens` reads them from the line without its
/// trailing whitespace; `None` where a single quote is left open.
pub fn words(cmdline: &str) -> (r: Option<Vec<String>>)
    ensures
        (r is Some) == (tokens(trim_end(cmdline@)) is Some),
        r matches Some(v) ==> tokens(trim_end(cmdline@)) == Some(v.deep_view()),
{
    let cs = chars_of(cmdline);
    let e = trimmed_len(&cs);
    let ghost t = cs@.take(e as int);
    let mut argv: Vec<String> = Vec::new();
    let mut i: usize = 0;
    assert(t.subrange(0, e as int) == t);
    assert(argv.deep_view() == Seq::<Seq<char>>::empty());
    while i < e
        invariant
            i <= e <= cs.len(),
            t == cs@.take(e as int),
            t == trim_end(cmdline@),
            (tokens(t) is Some) == (tokens(t.subrange(i as int, e as int)) is Some),
            tokens(t) is Some ==> tokens(t) == Some(
                argv.deep_view() + tokens(t.subrange(i as int, e as int)).unwrap(),
            ),
        decreases e - i,
    {
        let ghost u = t.subrange(i as int, e as int);
        let ghost before = argv.deep_view();
        if is_whitespace(cs[i]) {
            assert(u.drop_first() == t.subrange(i + 1, e as int));
            i = i + 1;
        } else if cs[i] == '\'' {
            let mut j = i + 1;
            while j < e && cs[j] != '\''
                invariant
                    i < j <= e <= cs.len(),
                    forall|l: int| i < l < j ==> cs@[l] != '\'',
                decreases e - j,
            {
                j = j + 1;
            }
            proof {
                let rest = u.drop_first();
                assert(u[0] == cs@[i as int]);
                assert(!is_ws(u[0]));
                assert forall|l: int| 0 <= l < j - i - 1 implies rest[l] != '\'' by {
                    assert(rest[l] == cs@[i + 1 + l]);
                }
                if j < e {
                    assert(rest[j - i - 1] == cs@[j as int]);
                }
                lemma_find_or_len_at(rest, '\'', j - i - 1);
                if j < e {
                    assert(rest.skip(j - i) == t.subrange(j + 1, e as int));
                }
            }
            if j >= e {
                return None;
            }
            let w = sub_string(&cs, i + 1, j);
            argv.push(w);
            proof {
                assert(u.drop_first().take(j - i - 1) == cs@.subrange(i + 1, j as int));
                assert(argv.deep_view() == before.push(w@));
                if tokens(t) is Some {
                    assert(argv.deep_view() + tokens(t.subrange(j + 1, e as int)).unwrap() =~= before
                        + tokens(u).unwrap());
                }
            }
            i = j + 1;
        } else {
            let mut j = i;
            while j < e && cs[j] != ' '
                invariant
                    i <= j <= e <= cs.len(),
                    forall|l: int| i <= l < j ==> cs@[l] != ' ',
                decreases e - j,
            {
                j = j + 1;
            }
            proof {
                assert forall|l: int| 0 <= l < j - i implies u[l] != ' ' by {
                    assert(u[l] == cs@[i + l]);
                }
                if j < e {
                    assert(u[j - i] == cs@[j as int]);
                }
                lemma_find_or_len_at(u, ' ', j - i);
                assert(u.skip(j - i) == t.subrange(j as int, e as int));
            }
            let w = sub_string(&cs, i, j);
            argv.push(w);
            proof {
                assert(u.take(j - i) == cs@.subrange(i as int, j as int));
                assert(argv.deep_view() == before.push(w@));
                if tokens(t) is Some {
                    assert(argv.deep_view() + tokens(t.subrange(j as int, e as int)).unwrap() =~= before
                        + tokens(u).unwrap());
                }
            }
            i = j;
        }
    }
    proof {
        assert(t.subrange(e as int, e as int) == Seq::<char>::empty());
        assert(argv.deep_view() + Seq::<Seq<char>>::empty() == argv.deep_view());
    }
    Some(argv)
}

/// Whether the line can be split into words: every single quote that opens a
/// word is closed.
pub fn line_is_parsable(cmdline: &str) -> (b: bool)
    ensures
        b == (parse_line(cmdline@) is Some),
{
    words(cmdline).is_some()
}

} // verus!
