use vstd::prelude::*;
use vstd::string::{StrSliceExecFns, StringExecFns};

verus! {

/// Whether `c` has the Unicode White_Space property.
pub open spec fn is_white_space(c: char) -> bool {
    ('\t' <= c && c <= '\r') || c == ' ' || c == '\u{85}' || c == '\u{a0}' || c == '\u{1680}' || ('\u{2000}'
        <= c && c <= '\u{200a}') || c == '\u{2028}' || c == '\u{2029}' || c == '\u{202f}' || c
        == '\u{205f}' || c == '\u{3000}'
}

/// `s` without its trailing white space.
pub open spec fn trimmed_end(s: Seq<char>) -> Seq<char>
    decreases s.len(),
{
    if s.len() > 0 && is_white_space(s.last()) {
        trimmed_end(s.drop_last())
    } else {
        s
    }
}

/// `s` without its leading white space.
pub open spec fn trimmed_start(s: Seq<char>) -> Seq<char>
    decreases s.len(),
{
    if s.len() > 0 && is_white_space(s[0]) {
        trimmed_start(s.drop_first())
    } else {
        s
    }
}

/// `s` without its leading and trailing white space.
pub open spec fn trimmed(s: Seq<char>) -> Seq<char> {
    trimmed_start(trimmed_end(s))
}

fn white_space(c: char) -> (r: bool)
    ensures
        r == is_white_space(c),
{
    ('\t' <= c && c <= '\r') || c == ' ' || c == '\u{85}' || c == '\u{a0}' || c == '\u{1680}' || ('\u{2000}'
        <= c && c <= '\u{200a}') || c == '\u{2028}' || c == '\u{2029}' || c == '\u{202f}' || c
        == '\u{205f}' || c == '\u{3000}'
}

/// Where the trailing white space of `cs` begins.
fn trim_end_index(cs: &Vec<char>) -> (e: usize)
    ensures
        e <= cs.len(),
        trimmed_end(cs@) == cs@.subrange(0, e as int),
{
    let mut e: usize = cs.len();
    proof {
        assert(cs@.subrange(0, e as int) =~= cs@);
    }
    while e > 0 && white_space(cs[e - 1])
        invariant
            e <= cs.len(),
            trimmed_end(cs@) == trimmed_end(cs@.subrange(0, e as int)),
        decreases e,
    {
        assert(cs@.subrange(0, e as int).drop_last() =~= cs@.subrange(0, e - 1));
        e = e - 1;
    }
    e
}

/// `s` without its trailing white space.
pub(crate) fn trim_end_str(s: &str) -> (r: &str)
    ensures
        r@ == trimmed_end(s@),
{
    let cs = chars_of(s);
    let e = trim_end_index(&cs);
    s.substring_char(0, e)
}

/// `s` without its leading and trailing white space.
pub(crate) fn trim_str(s: &str) -> (r: &str)
    ensures
        r@ == trimmed(s@),
{
    let cs = chars_of(s);
    let e = trim_end_index(&cs);
    let ghost x = cs@.subrange(0, e as int);
    let mut b: usize = 0;
    proof {
        assert(x.subrange(0, x.len() as int) =~= x);
    }
    while b < e && white_space(cs[b])
        invariant
            e <= cs.len(),
            b <= e,
            x == cs@.subrange(0, e as int),
            trimmed_start(x) == trimmed_start(x.subrange(b as int, e as int)),
        decreases e - b,
    {
        assert(x.subrange(b as int, e as int).drop_first() =~= x.subrange(b + 1, e as int));
        b = b + 1;
    }
    proof {
        assert(x.subrange(b as int, e as int) =~= cs@.subrange(b as int, e as int));
    }
    s.substring_char(b, e)
}

/// The characters of each string of `v`.
pub open spec fn views(v: Seq<String>) -> Seq<Seq<char>> {
    v.map_values(|s: String| s@)
}

/// Whether `p` is a prefix of `s`.
pub open spec fn has_prefix(s: Seq<char>, p: Seq<char>) -> bool {
    p.len() <= s.len() && s.subrange(0, p.len() as int) == p
}

/// `s` with every occurrence of `from`, taken left to right without
/// overlap, replaced by `to`.
pub open spec fn replaced(s: Seq<char>, from: Seq<char>, to: Seq<char>) -> Seq<char>
    decreases s.len(),
{
    if s.len() == 0 || from.len() == 0 {
        s
    } else if has_prefix(s, from) {
        to + replaced(s.subrange(from.len() as int, s.len() as int), from, to)
    } else {
        seq![s[0]] + replaced(s.subrange(1, s.len() as int), from, to)
    }
}

fn matches_at(cs: &Vec<char>, fs: &Vec<char>, i: usize) -> (r: bool)
    requires
        i <= cs.len(),
    ensures
        r == has_prefix(cs@.subrange(i as int, cs@.len() as int), fs@),
{
    let ghost rest = cs@.subrange(i as int, cs@.len() as int);
    if fs.len() > cs.len() - i {
        return false;
    }
    let mut j: usize = 0;
    while j < fs.len()
        invariant
            rest == cs@.subrange(i as int, cs@.len() as int),
            fs.len() <= cs.len() - i,
            j <= fs.len(),
            rest.subrange(0, j as int) == fs@.subrange(0, j as int),
        decreases fs.len() - j,
    {
        if cs[i + j] != fs[j] {
            assert(rest.subrange(0, fs@.len() as int)[j as int] != fs@[j as int]);
            return false;
        }
        j = j + 1;
        assert(rest.subrange(0, j as int) =~= fs@.subrange(0, j as int));
    }
    assert(fs@.subrange(0, fs@.len() as int) =~= fs@);
    true
}

/// `s` with every occurrence of the non-empty `from`, taken left to right
/// without overlap, replaced by `to`.
pub(crate) fn replace_str(s: &str, from: &str, to: &str) -> (r: String)
    requires
        from@.len() > 0,
    ensures
        r@ == replaced(s@, from@, to@),
{
    let cs = chars_of(s);
    let fs = chars_of(from);
    let n = cs.len();
    let mut out = String::new();
    let mut seg: usize = 0;
    let mut i: usize = 0;
    proof {
        assert(cs@.subrange(0, n as int) =~= cs@);
        assert(cs@.subrange(0, 0) =~= Seq::<char>::empty());
        assert(out@ + cs@.subrange(0, 0) =~= Seq::<char>::empty());
    }
    while i < n
        invariant
            cs@ == s@,
            fs@ == from@,
            fs@.len() > 0,
            n == cs.len(),
            seg <= i <= n,
            replaced(cs@, fs@, to@) == out@ + cs@.subrange(seg as int, i as int) + replaced(
                cs@.subrange(i as int, n as int),
                fs@,
                to@,
            ),
        decreases n - i,
    {
        let ghost rest = cs@.subrange(i as int, n as int);
        if matches_at(&cs, &fs, i) {
            let ghost before = out@;
            out.append(s.substring_char(seg, i));
            out.append(to);
            proof {
                assert(rest.subrange(fs@.len() as int, rest.len() as int) =~= cs@.subrange(i + fs@.len(), n as int));
                assert(out@ =~= before + cs@.subrange(seg as int, i as int) + to@);
                assert(cs@.subrange(i + fs@.len(), i + fs@.len()) =~= Seq::<char>::empty());
                assert(replaced(cs@, fs@, to@) =~= out@ + cs@.subrange(i + fs@.len(), i + fs@.len()) + replaced(
                    cs@.subrange(i + fs@.len(), n as int), fs@, to@));
            }
            i = i + fs.len();
            seg = i;
        } else {
            proof {
                assert(rest.subrange(1, rest.len() as int) =~= cs@.subrange(i + 1, n as int));
                assert(cs@.subrange(seg as int, i + 1) =~= cs@.subrange(seg as int, i as int) + seq![rest[0]]);
                assert(replaced(cs@, fs@, to@) =~= out@ + cs@.subrange(seg as int, i + 1) + replaced(
                    cs@.subrange(i + 1, n as int), fs@, to@));
            }
            i = i + 1;
        }
    }
    out.append(s.substring_char(seg, n));
    proof {
        assert(cs@.subrange(n as int, n as int) =~= Seq::<char>::empty());
        assert(out@ =~= replaced(cs@, fs@, to@));
    }
    out
}

/// The characters of `s`.
pub fn chars_of(s: &str) -> (r: Vec<char>)
    ensures
        r@ == s@,
{
    broadcast use vstd::string::group_string_axioms;
    let mut r: Vec<char> = Vec::new();
    for c in it: s.chars()
        invariant
            it.seq() == s@,
            r@ == s@.take(it.index() as int),
        ensures
            r@ == s@,
    {
        r.push(c);
        proof {
            assert(r@ =~= s@.take(it.index() + 1));
        }
    }
    r
}

/// Whether `s` starts with `p`.
pub fn starts_with(s: &str, p: &str) -> (r: bool)
    ensures
        r == has_prefix(s@, p@),
{
    let n = s.unicode_len();
    let m = p.unicode_len();
    if m > n {
        return false;
    }
    let mut i: usize = 0;
    while i < m
        invariant
            n == s@.len(),
            m == p@.len(),
            m <= n,
            i <= m,
            s@.subrange(0, i as int) == p@.subrange(0, i as int),
        decreases m - i,
    {
        if s.get_char(i) != p.get_char(i) {
            assert(s@.subrange(0, m as int)[i as int] != p@[i as int]);
            return false;
        }
        i = i + 1;
        assert(s@.subrange(0, i as int) =~= p@.subrange(0, i as int));
    }
    assert(p@.subrange(0, m as int) =~= p@);
    true
}

/// Whether `a` and `b` hold the same characters.
pub fn str_eq(a: &str, b: &str) -> (r: bool)
    ensures
        r == (a@ == b@),
{
    let x = String::from_str(a);
    let y = String::from_str(b);
    x == y
}

/// `l` without the carriage return that ends it, if any.
pub open spec fn strip_cr(l: Seq<char>) -> Seq<char> {
    if l.len() > 0 && l.last() == '\r' {
        l.drop_last()
    } else {
        l
    }
}

/// The lines completed in `s` and the unfinished line after them.
pub open spec fn line_scan(s: Seq<char>) -> (Seq<Seq<char>>, Seq<char>)
    decreases s.len(),
{
    if s.len() == 0 {
        (Seq::empty(), Seq::empty())
    } else {
        let (done, cur) = line_scan(s.drop_last());
        if s.last() == '\n' {
            (done.push(strip_cr(cur)), Seq::empty())
        } else {
            (done, cur.push(s.last()))
        }
    }
}

/// The lines of `s`: split at each line feed (a carriage return before it
/// dropped), with the text after the last line feed as a final line when it
/// is not empty.
pub open spec fn text_lines(s: Seq<char>) -> Seq<Seq<char>> {
    let (done, cur) = line_scan(s);
    if cur.len() > 0 {
        done.push(cur)
    } else {
        done
    }
}

/// The lines of `s`, as `text_lines` gives them.
pub fn split_lines(s: &str) -> (r: Vec<String>)
    ensures
        views(r@) == text_lines(s@),
{
    let cs = chars_of(s);
    let n = cs.len();
    let mut lines: Vec<String> = Vec::new();
    let mut start: usize = 0;
    let mut i: usize = 0;
    proof {
        assert(views(lines@) =~= Seq::<Seq<char>>::empty());
        assert(cs@.take(0) =~= Seq::<char>::empty());
    }
    while i < n
        invariant
            cs@ == s@,
            n == cs.len(),
            start <= i <= n,
            line_scan(cs@.take(i as int)) == (views(lines@), cs@.subrange(start as int, i as int)),
        decreases n - i,
    {
        proof {
            assert(cs@.take(i + 1).drop_last() =~= cs@.take(i as int));
        }
        if cs[i] == '\n' {
            let end: usize = if i > start && cs[i - 1] == '\r' {
                i - 1
            } else {
                i
            };
            let line = String::from_str(s.substring_char(start, end));
            let ghost before = lines@;
            lines.push(line);
            proof {
                let cur = cs@.subrange(start as int, i as int);
                assert(line@ =~= strip_cr(cur));
                assert(views(lines@) =~= views(before).push(line@));
                assert(cs@.subrange(i + 1, i + 1) =~= Seq::<char>::empty());
            }
            start = i + 1;
        } else {
            proof {
                assert(cs@.subrange(start as int, i + 1) =~= cs@.subrange(start as int, i as int).push(cs@[i as int]));
            }
        }
        i = i + 1;
    }
    proof {
        assert(cs@.take(n as int) =~= cs@);
    }
    if start < n {
        let line = String::from_str(s.substring_char(start, n));
        let ghost before = lines@;
        lines.push(line);
        proof {
            assert(views(lines@) =~= views(before).push(line@));
        }
    }
    lines
}

/// The words completed in `s` and the word being read at its end.
pub open spec fn word_scan(s: Seq<char>) -> (Seq<Seq<char>>, Seq<char>)
    decreases s.len(),
{
    if s.len() == 0 {
        (Seq::empty(), Seq::empty())
    } else {
        let (done, cur) = word_scan(s.drop_last());
        if is_white_space(s.last()) {
            if cur.len() > 0 {
                (done.push(cur), Seq::empty())
            } else {
                (done, cur)
            }
        } else {
            (done, cur.push(s.last()))
        }
    }
}

/// The words of `s`: its maximal runs of characters that are not white
/// space, in order.
pub open spec fn whitespace_words(s: Seq<char>) -> Seq<Seq<char>> {
    let (done, cur) = word_scan(s);
    if cur.len() > 0 {
        done.push(cur)
    } else {
        done
    }
}

/// The words of `s`.
pub fn split_whitespace_words(s: &str) -> (r: Vec<String>)
    ensures
        views(r@) == whitespace_words(s@),
{
    let cs = chars_of(s);
    let n = cs.len();
    let mut words: Vec<String> = Vec::new();
    let mut start: usize = 0;
    let mut i: usize = 0;
    proof {
        assert(views(words@) =~= Seq::<Seq<char>>::empty());
        assert(cs@.take(0) =~= Seq::<char>::empty());
    }
    while i < n
        invariant
            cs@ == s@,
            n == cs.len(),
            start <= i <= n,
            word_scan(cs@.take(i as int)) == (views(words@), cs@.subrange(start as int, i as int)),
        decreases n - i,
    {
        proof {
            assert(cs@.take(i + 1).drop_last() =~= cs@.take(i as int));
        }
        if white_space(cs[i]) {
            if start < i {
                let word = String::from_str(s.substring_char(start, i));
                let ghost before = words@;
                words.push(word);
                proof {
                    assert(views(words@) =~= views(before).push(word@));
                }
            }
            proof {
                assert(cs@.subrange(i + 1, i + 1) =~= Seq::<char>::empty());
                assert(cs@.subrange(i as int, i as int) =~= Seq::<char>::empty());
            }
            start = i + 1;
        } else {
            proof {
                assert(cs@.subrange(start as int, i + 1) =~= cs@.subrange(start as int, i as int).push(cs@[i as int]));
            }
        }
        i = i + 1;
    }
    proof {
        assert(cs@.take(n as int) =~= cs@);
    }
    if start < n {
        let word = String::from_str(s.substring_char(start, n));
        let ghost before = words@;
        words.push(word);
        proof {
            assert(views(words@) =~= views(before).push(word@));
        }
    }
    words
}

} // verus!
