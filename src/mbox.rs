use vstd::prelude::*;
use vstd::string::{StrSliceExecFns, StringExecFns};

use crate::text::{chars_of, is_white_space, replace_str, replaced, starts_with, str_eq, trim_end_str, trimmed_end, has_prefix, views};

verus! {

/// Line that separates two messages of an archive.
pub const MESSAGE_SEPARATOR: &'static str = "From git@z Thu Jan  1 00:00:00 1970";

/// State of the archive scan: whether a message is being read, whether the
/// signature delimiter was just seen, the message read so far, and the
/// completed messages.
pub struct MboxScan {
    pub reading: bool,
    pub last_line: bool,
    pub current: Seq<char>,
    pub done: Seq<Seq<char>>,
}

pub open spec fn scan_start() -> MboxScan {
    MboxScan { reading: false, last_line: false, current: Seq::empty(), done: Seq::empty() }
}

/// One line of the scan. A `Subject: ` line starts a message; `--` (trailing
/// whitespace aside) marks the signature, whose next line closes the
/// message; the separator line closes the message without being part of it.
pub open spec fn scan_line(st: MboxScan, line: Seq<char>) -> MboxScan {
    let st1 = if has_prefix(line, "Subject: "@) {
        MboxScan { reading: true, ..st }
    } else if st.reading && trimmed_end(line) == "--"@ {
        MboxScan { last_line: true, ..st }
    } else if st.last_line {
        MboxScan {
            reading: false,
            last_line: false,
            current: Seq::empty(),
            done: st.done.push(st.current + line + seq!['\n']),
        }
    } else if st.reading && line == MESSAGE_SEPARATOR@ {
        MboxScan { reading: false, current: Seq::empty(), done: st.done.push(st.current), ..st }
    } else {
        st
    };
    if st1.reading {
        MboxScan { current: st1.current + line + seq!['\n'], ..st1 }
    } else {
        st1
    }
}

pub open spec fn scan_lines(lines: Seq<Seq<char>>) -> MboxScan
    decreases lines.len(),
{
    if lines.len() == 0 {
        scan_start()
    } else {
        scan_line(scan_lines(lines.drop_last()), lines.last())
    }
}

/// The messages of an archive given by its lines, in order; what is left
/// unfinished at the end counts as a message when it is not empty.
pub open spec fn mbox_messages(lines: Seq<Seq<char>>) -> Seq<Seq<char>> {
    let st = scan_lines(lines);
    if st.current.len() > 0 {
        st.done.push(st.current)
    } else {
        st.done
    }
}

/// The scan of `lines` from the state `st`.
pub open spec fn scan_from(st: MboxScan, lines: Seq<Seq<char>>) -> MboxScan
    decreases lines.len(),
{
    if lines.len() == 0 {
        st
    } else {
        scan_line(scan_from(st, lines.drop_last()), lines.last())
    }
}

/// The lines of a message joined back into its text.
pub open spec fn joined(lines: Seq<Seq<char>>) -> Seq<char>
    decreases lines.len(),
{
    if lines.len() == 0 {
        Seq::empty()
    } else {
        joined(lines.drop_last()) + lines.last() + seq!['\n']
    }
}

/// A line that neither starts a message, nor marks a signature, nor
/// separates messages.
pub open spec fn plain_line(l: Seq<char>) -> bool {
    !has_prefix(l, "Subject: "@) && trimmed_end(l) != "--"@ && l != MESSAGE_SEPARATOR@
}

/// A message of a `Subject: ` line followed by plain lines.
pub open spec fn well_formed_message(m: Seq<Seq<char>>) -> bool {
    &&& m.len() >= 1
    &&& has_prefix(m[0], "Subject: "@)
    &&& forall|k: int| 1 <= k < m.len() ==> plain_line(#[trigger] m[k])
}

/// The archive holding the messages `ms`, each followed by the separator
/// line.
pub open spec fn archive_of(ms: Seq<Seq<Seq<char>>>) -> Seq<Seq<char>>
    decreases ms.len(),
{
    if ms.len() == 0 {
        Seq::empty()
    } else {
        archive_of(ms.drop_last()) + ms.last() + seq![MESSAGE_SEPARATOR@]
    }
}

/// The scan between messages, with `done` completed.
pub open spec fn idle(done: Seq<Seq<char>>) -> MboxScan {
    MboxScan { reading: false, last_line: false, current: Seq::empty(), done }
}

proof fn lemma_scan_from_concat(st: MboxScan, a: Seq<Seq<char>>, b: Seq<Seq<char>>)
    ensures
        scan_from(st, a + b) == scan_from(scan_from(st, a), b),
    decreases b.len(),
{
    if b.len() == 0 {
        assert(a + b =~= a);
    } else {
        assert((a + b).drop_last() =~= a + b.drop_last());
        lemma_scan_from_concat(st, a, b.drop_last());
    }
}

proof fn lemma_scan_lines_from(lines: Seq<Seq<char>>)
    ensures
        scan_lines(lines) == scan_from(scan_start(), lines),
    decreases lines.len(),
{
    if lines.len() > 0 {
        lemma_scan_lines_from(lines.drop_last());
    }
}

proof fn lemma_scan_body(st: MboxScan, b: Seq<Seq<char>>)
    requires
        st.reading,
        !st.last_line,
        forall|k: int| 0 <= k < b.len() ==> plain_line(#[trigger] b[k]),
    ensures
        scan_from(st, b) == (MboxScan { current: st.current + joined(b), ..st }),
    decreases b.len(),
{
    if b.len() == 0 {
        assert(st.current + joined(b) =~= st.current);
    } else {
        let d = b.drop_last();
        assert forall|k: int| 0 <= k < d.len() implies plain_line(#[trigger] d[k]) by {
            assert(d[k] == b[k]);
        }
        lemma_scan_body(st, d);
        assert(plain_line(b[b.len() - 1]));
        assert(st.current + joined(b) =~= st.current + joined(d) + b.last() + seq!['\n']);
    }
}

proof fn lemma_scan_message(done: Seq<Seq<char>>, m: Seq<Seq<char>>)
    requires
        well_formed_message(m),
    ensures
        scan_from(idle(done), m + seq![MESSAGE_SEPARATOR@]) == idle(done.push(joined(m))),
{
    reveal_strlit("Subject: ");
    reveal_strlit("--");
    reveal_strlit("From git@z Thu Jan  1 00:00:00 1970");
    let first = seq![m[0]];
    let body = m.subrange(1, m.len() as int);
    assert(m =~= first + body);
    assert(m + seq![MESSAGE_SEPARATOR@] =~= first + body + seq![MESSAGE_SEPARATOR@]);
    lemma_scan_from_concat(idle(done), first + body, seq![MESSAGE_SEPARATOR@]);
    lemma_scan_from_concat(idle(done), first, body);
    assert(first.drop_last() =~= Seq::<Seq<char>>::empty());
    assert(first.last() == m[0]);
    assert(Seq::<char>::empty() + m[0] + seq!['\n'] =~= m[0] + seq!['\n']);
    assert(scan_from(idle(done), first.drop_last()) == idle(done));
    let st1 = scan_from(idle(done), first);
    assert(st1 == (MboxScan { reading: true, last_line: false, current: m[0] + seq!['\n'], done }));
    assert forall|k: int| 0 <= k < body.len() implies plain_line(#[trigger] body[k]) by {
        assert(body[k] == m[k + 1]);
    }
    lemma_scan_body(st1, body);
    let st2 = scan_from(st1, body);
    let sep = MESSAGE_SEPARATOR@;
    assert(!has_prefix(sep, "Subject: "@)) by {
        assert(sep[0] != "Subject: "@[0]);
    }
    assert(trimmed_end(sep) == sep) by {
        assert(!is_white_space(sep.last()));
    }
    assert(sep.len() != "--"@.len());
    assert(seq![sep].drop_last() =~= Seq::<Seq<char>>::empty());
    assert(joined(m) =~= m[0] + seq!['\n'] + joined(body)) by {
        lemma_joined_concat(first, body);
        assert(joined(first.drop_last()) == Seq::<char>::empty());
        assert(joined(first) =~= m[0] + seq!['\n']);
    }
    assert(st2.current =~= joined(m));
    let one = seq![sep];
    assert(one.last() == sep);
    assert(scan_from(st2, one.drop_last()) == st2);
    let st3 = scan_from(st2, one);
    assert(st3 == scan_line(st2, sep));
    assert(st3 == idle(done.push(joined(m))));
    assert(scan_from(idle(done), first + body) == st2);
    assert(scan_from(idle(done), m + seq![MESSAGE_SEPARATOR@]) == st3);
}

proof fn lemma_joined_concat(a: Seq<Seq<char>>, b: Seq<Seq<char>>)
    ensures
        joined(a + b) == joined(a) + joined(b),
    decreases b.len(),
{
    if b.len() == 0 {
        assert(a + b =~= a);
        assert(joined(a) + joined(b) =~= joined(a));
    } else {
        assert((a + b).drop_last() =~= a + b.drop_last());
        lemma_joined_concat(a, b.drop_last());
        assert(joined(a) + joined(b) =~= joined(a) + joined(b.drop_last()) + b.last() + seq!['\n']);
    }
}

/// An archive of well-formed messages, each followed by the separator
/// line, splits back into exactly those messages, in order, each the text
/// of its own lines.
pub proof fn lemma_mailbox_round_trip(ms: Seq<Seq<Seq<char>>>)
    requires
        forall|i: int| 0 <= i < ms.len() ==> well_formed_message(#[trigger] ms[i]),
    ensures
        mbox_messages(archive_of(ms)) == ms.map_values(|m: Seq<Seq<char>>| joined(m)),
{
    lemma_scan_lines_from(archive_of(ms));
    lemma_scan_archive(ms);
}

proof fn lemma_scan_archive(ms: Seq<Seq<Seq<char>>>)
    requires
        forall|i: int| 0 <= i < ms.len() ==> well_formed_message(#[trigger] ms[i]),
    ensures
        scan_from(scan_start(), archive_of(ms)) == idle(ms.map_values(|m: Seq<Seq<char>>| joined(m))),
    decreases ms.len(),
{
    if ms.len() == 0 {
        assert(ms.map_values(|m: Seq<Seq<char>>| joined(m)) =~= Seq::<Seq<char>>::empty());
    } else {
        let d = ms.drop_last();
        assert forall|i: int| 0 <= i < d.len() implies well_formed_message(#[trigger] d[i]) by {
            assert(d[i] == ms[i]);
        }
        lemma_scan_archive(d);
        assert(well_formed_message(ms[ms.len() - 1]));
        assert(archive_of(ms) =~= archive_of(d) + (ms.last() + seq![MESSAGE_SEPARATOR@]));
        lemma_scan_from_concat(scan_start(), archive_of(d), ms.last() + seq![MESSAGE_SEPARATOR@]);
        lemma_scan_message(d.map_values(|m: Seq<Seq<char>>| joined(m)), ms.last());
        assert(d.map_values(|m: Seq<Seq<char>>| joined(m)).push(joined(ms.last()))
            =~= ms.map_values(|m: Seq<Seq<char>>| joined(m)));
    }
}

fn extract_patches(mbox_lines: &Vec<String>, patches: &mut Vec<String>)
    ensures
        views(final(patches)@) == views(old(patches)@) + mbox_messages(views(mbox_lines@)),
{
    let ghost lines = views(mbox_lines@);
    let ghost base = views(patches@);
    let mut current_patch: String = String::new();
    let mut is_reading_patch: bool = false;
    let mut is_last_line: bool = false;
    let mut i: usize = 0;
    proof {
        assert(lines.take(0) =~= Seq::<Seq<char>>::empty());
    }
    while i < mbox_lines.len()
        invariant
            i <= mbox_lines.len(),
            lines == views(mbox_lines@),
            ({
                let st = scan_lines(lines.take(i as int));
                &&& st.reading == is_reading_patch
                &&& st.last_line == is_last_line
                &&& st.current == current_patch@
                &&& views(patches@) == base + st.done
            }),
        decreases mbox_lines.len() - i,
    {
        proof {
            assert(lines.take(i + 1).drop_last() =~= lines.take(i as int));
            assert(lines.take(i + 1).last() == mbox_lines@[i as int]@);
            reveal_strlit("\n");
        }
        let line: &str = mbox_lines[i].as_str();
        let ghost before = patches@;
        if starts_with(line, "Subject: ") {
            is_reading_patch = true;
        } else if is_reading_patch && str_eq(trim_end_str(line), "--") {
            is_last_line = true;
        } else if is_last_line {
            current_patch.append(line);
            current_patch.append("\n");
            proof {
                assert(current_patch@ =~= scan_lines(lines.take(i as int)).current + line@ + seq!['\n']);
            }
            let patch_to_add = current_patch;
            current_patch = String::new();
            patches.push(patch_to_add);
            is_reading_patch = false;
            is_last_line = false;
        } else if is_reading_patch && str_eq(line, MESSAGE_SEPARATOR) {
            let patch_to_add = current_patch;
            current_patch = String::new();
            patches.push(patch_to_add);
            is_reading_patch = false;
        }
        if is_reading_patch {
            current_patch.append(line);
            current_patch.append("\n");
        }
        proof {
            let st0 = scan_lines(lines.take(i as int));
            let st = scan_lines(lines.take(i + 1));
            assert(st == scan_line(st0, line@));
            assert(st.reading == is_reading_patch);
            assert(st.last_line == is_last_line);
            assert(st.current == current_patch@);
            let lhs = views(patches@);
            if patches@.len() > before.len() {
                assert(patches@ == before.push(patches@.last()));
                assert(lhs =~= views(before).push(patches@.last()@));
                assert(views(before) == base + st0.done);
                assert(st.done == st0.done.push(patches@.last()@));
                assert(lhs =~= base + st.done);
            } else {
                assert(patches@ == before);
            }
        }
        i = i + 1;
    }
    proof {
        assert(lines.take(i as int) =~= lines);
    }
    if current_patch.unicode_len() > 0 {
        let ghost before = patches@;
        patches.push(current_patch);
        proof {
            assert(views(patches@) =~= views(before).push(patches@.last()@));
        }
    }
}

/// Name of the mailbox file of a message: its identifier without the
/// archive's address, `/` turned into `.`, ending in `.mbx`.
pub open spec fn mbox_name_of(message_id: Seq<char>) -> Seq<char> {
    let t = replaced(
        replaced(replaced(message_id, "http://lore.kernel.org/"@, ""@), "https://lore.kernel.org/"@, ""@),
        "/"@,
        "."@,
    );
    if t.len() > 0 && t.last() == '.' {
        t + "mbx"@
    } else {
        t + "."@ + "mbx"@
    }
}

/// The mailbox file name under which a series is downloaded.
pub fn extract_mbox_name_from_message_id(message_id: &str) -> (r: String)
    ensures
        r@ == mbox_name_of(message_id@),
{
    proof {
        reveal_strlit("http://lore.kernel.org/");
        reveal_strlit("https://lore.kernel.org/");
        reveal_strlit("/");
    }
    let a = replace_str(message_id, "http://lore.kernel.org/", "");
    let b = replace_str(a.as_str(), "https://lore.kernel.org/", "");
    let mut mbox_name = replace_str(b.as_str(), "/", ".");
    let n = mbox_name.as_str().unicode_len();
    if n == 0 || mbox_name.as_str().get_char(n - 1) != '.' {
        mbox_name.append(".");
    }
    mbox_name.append("mbx");
    proof {
        reveal_strlit(".");
    }
    mbox_name
}

/// Splits the lines of an archive, and of its cover-letter archive where
/// there is one, into messages: those of the cover letter first.
pub fn split_patchset(cover_letter_lines: Option<&Vec<String>>, patchset_lines: &Vec<String>) -> (r:
    Vec<String>)
    ensures
        views(r@) == match cover_letter_lines {
            Some(c) => mbox_messages(views(c@)),
            None => Seq::empty(),
        } + mbox_messages(views(patchset_lines@)),
{
    let mut patches: Vec<String> = Vec::new();
    proof {
        assert(views(patches@) =~= Seq::<Seq<char>>::empty());
    }
    match cover_letter_lines {
        Some(c) => extract_patches(c, &mut patches),
        None => {},
    }
    extract_patches(patchset_lines, &mut patches);
    proof {
        assert(Seq::<Seq<char>>::empty() + mbox_messages(views(patchset_lines@)) =~= mbox_messages(views(patchset_lines@)));
        if let Some(c) = cover_letter_lines {
            assert(Seq::<Seq<char>>::empty() + mbox_messages(views(c@)) =~= mbox_messages(views(c@)));
        }
    }
    patches
}

/// Whether a line consisting of `---` alone starts at `i` in `s`.
pub open spec fn marker_at(s: Seq<char>, i: int) -> bool {
    &&& 0 <= i
    &&& i + 3 <= s.len()
    &&& (i == 0 || s[i - 1] == '\n')
    &&& s[i] == '-' && s[i + 1] == '-' && s[i + 2] == '-'
    &&& (i + 3 == s.len() || s[i + 3] == '\n')
}

/// Where the cover ends in `s`: after the first `---` line and its line
/// break, or at the end where there is no such line.
pub open spec fn cover_end(s: Seq<char>) -> int {
    if exists|i: int| marker_at(s, i) {
        let m = choose|i: int| marker_at(s, i) && forall|j: int| 0 <= j < i ==> !marker_at(s, j);
        if m + 4 <= s.len() {
            m + 4
        } else {
            s.len() as int
        }
    } else {
        s.len() as int
    }
}

/// Splits a patch into its cover (up to and including the first line that
/// is `---` alone) and its diff (the rest). Without such a line the whole
/// text is cover and the diff is empty.
pub fn split_cover(patch: &str) -> (r: (&str, &str))
    ensures
        r.0@ == patch@.subrange(0, cover_end(patch@)),
        r.1@ == patch@.subrange(cover_end(patch@), patch@.len() as int),
{
    let cs = chars_of(patch);
    let n = cs.len();
    let end: usize = match find_marker(&cs) {
        Some(m) => {
            proof {
                let k = choose|k: int| marker_at(cs@, k) && forall|j: int| 0 <= j < k ==> !marker_at(cs@, j);
                assert(!(k < m) && !(m < k));
            }
            if n - m >= 4 {
                m + 4
            } else {
                n
            }
        },
        None => n,
    };
    (patch.substring_char(0, end), patch.substring_char(end, n))
}

/// A text without a line that is `---` alone is all cover: the cover is the
/// whole text and the diff is empty.
pub proof fn lemma_no_marker_all_cover(s: Seq<char>)
    requires
        forall|i: int| !marker_at(s, i),
    ensures
        s.subrange(0, cover_end(s)) == s,
        s.subrange(cover_end(s), s.len() as int) == Seq::<char>::empty(),
{
    assert(s.subrange(0, s.len() as int) =~= s);
    assert(s.subrange(s.len() as int, s.len() as int) =~= Seq::<char>::empty());
}

fn marker_at_exec(cs: &Vec<char>, i: usize) -> (r: bool)
    requires
        i < cs.len(),
    ensures
        r == marker_at(cs@, i as int),
{
    let n = cs.len();
    n - i >= 3 && (i == 0 || cs[i - 1] == '\n') && cs[i] == '-' && cs[i + 1] == '-' && cs[i + 2]
        == '-' && (n - i == 3 || cs[i + 3] == '\n')
}

fn find_marker(cs: &Vec<char>) -> (r: Option<usize>)
    ensures
        match r {
            Some(m) => m < cs.len() && marker_at(cs@, m as int) && forall|j: int|
                0 <= j < m ==> !marker_at(cs@, j),
            None => forall|j: int| !marker_at(cs@, j),
        },
{
    let mut i: usize = 0;
    while i < cs.len()
        invariant
            i <= cs.len(),
            forall|j: int| 0 <= j < i ==> !marker_at(cs@, j),
        decreases cs.len() - i,
    {
        if marker_at_exec(cs, i) {
            return Some(i);
        }
        i = i + 1;
    }
    None
}

} // verus!
